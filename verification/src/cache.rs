//! A bounded cache of head records, least recently used first out.
use vstd::prelude::*;

use crate::bytes::same16;
use crate::unit::{RecordModel, UnitRecord, Uuid};

verus! {

/// How many head records a container keeps decoded.
pub const RECORD_CACHE_CAPACITY: usize = 1024;

/// One cached head record.
#[derive(Debug)]
pub struct CacheEntry {
    pub uuid: Uuid,
    /// The address that the record was read from.
    pub addr: u64,
    pub rec: UnitRecord,
    /// When the entry was last used.
    pub last: u64,
}

/// A [`CacheEntry`] as a value.
#[verifier::ext_equal]
pub struct CacheModel {
    pub uuid: Uuid,
    pub addr: u64,
    pub rec: RecordModel,
    pub last: u64,
}

impl View for CacheEntry {
    type V = CacheModel;

    open spec fn view(&self) -> CacheModel {
        CacheModel { uuid: self.uuid, addr: self.addr, rec: self.rec@, last: self.last }
    }
}

/// The cached head records, at most one per unit.
#[derive(Debug)]
pub struct RecordCache {
    cap: usize,
    tick: u64,
    entries: Vec<CacheEntry>,
}

impl View for RecordCache {
    type V = Seq<CacheModel>;

    closed spec fn view(&self) -> Seq<CacheModel> {
        Seq::new(self.entries@.len(), |i: int| self.entries@[i]@)
    }
}

/// Entry `i` is the one of `uuid`.
pub open spec fn cached_at(s: Seq<CacheModel>, uuid: Uuid, i: int) -> bool {
    0 <= i < s.len() && s[i].uuid == uuid
}

/// Some entry is of `uuid`.
pub open spec fn is_cached(s: Seq<CacheModel>, uuid: Uuid) -> bool {
    exists|i: int| cached_at(s, uuid, i)
}

/// Entry `i` was used no later than any other.
pub open spec fn is_oldest(s: Seq<CacheModel>, i: int) -> bool {
    &&& 0 <= i < s.len()
    &&& forall|j: int| 0 <= j < s.len() ==> s[i].last <= (#[trigger] s[j]).last
}

impl RecordCache {
    /// How many entries fit.
    pub closed spec fn capacity(&self) -> usize {
        self.cap
    }

    /// The time of the last use.
    pub closed spec fn now(&self) -> u64 {
        self.tick
    }

    /// At most one entry per unit.
    pub open spec fn wf(&self) -> bool {
        forall|i: int, j: int| 0 <= i < j < self@.len() ==> self@[i].uuid != self@[j].uuid
    }

    pub fn new(cap: usize) -> (r: Self)
        ensures
            r@ == Seq::<CacheModel>::empty(),
            r.capacity() == cap,
            r.wf(),
    {
        let r: RecordCache = RecordCache { cap, tick: 0, entries: Vec::new() };
        proof {
            assert(r@ =~= Seq::<CacheModel>::empty());
        }
        r
    }

    fn find(&self, uuid: &Uuid) -> (r: Option<usize>)
        ensures
            r is None ==> !is_cached(self@, *uuid),
            r is Some ==> cached_at(self@, *uuid, r->Some_0 as int),
    {
        let mut i: usize = 0;
        while i < self.entries.len()
            invariant
                i <= self.entries.len(),
                self@.len() == self.entries.len(),
                forall|k: int| 0 <= k < i ==> (#[trigger] self.entries@[k]).uuid != *uuid,
            decreases self.entries.len() - i,
        {
            if same16(&self.entries[i].uuid, uuid) {
                return Some(i);
            }
            i = i + 1;
        }
        proof {
            if is_cached(self@, *uuid) {
                let k = choose|k: int| cached_at(self@, *uuid, k);
                assert(self.entries@[k].uuid == *uuid);
            }
        }
        None
    }

    fn step(&mut self)
        ensures
            final(self)@ == old(self)@,
            final(self).capacity() == old(self).capacity(),
            final(self).now() == if old(self).now() < u64::MAX {
                old(self).now() + 1
            } else {
                u64::MAX as int
            },
    {
        if self.tick < u64::MAX {
            self.tick = self.tick + 1;
        }
        proof {
            assert(self@ =~= old(self)@);
        }
    }

    /// The cached record of `uuid`, if it was read from `addr`; using it makes
    /// it the most recently used.
    pub fn get(&mut self, uuid: &Uuid, addr: u64) -> (r: Option<UnitRecord>)
        requires
            old(self).wf(),
        ensures
            final(self).wf(),
            final(self).capacity() == old(self).capacity(),
            r is Some <==> exists|i: int|
                cached_at(old(self)@, *uuid, i) && old(self)@[i].addr == addr,
            r is None ==> final(self)@ == old(self)@,
            r is Some ==> exists|i: int|
                #![trigger cached_at(old(self)@, *uuid, i)]
                {
                    &&& cached_at(old(self)@, *uuid, i)
                    &&& old(self)@[i].addr == addr
                    &&& r->Some_0@ == old(self)@[i].rec
                    &&& final(self)@ == old(self)@.update(
                        i,
                        (CacheModel { last: final(self).now(), ..old(self)@[i] }),
                    )
                },
    {
        self.step();
        let ghost before = self@;
        match self.find(uuid) {
            None => None,
            Some(i) => {
                proof {
                    assert(cached_at(before, *uuid, i as int));
                    assert forall|j: int| cached_at(before, *uuid, j) implies j == i by {
                        if j < i {
                            assert(before[j].uuid != before[i as int].uuid);
                        } else if i < j {
                            assert(before[i as int].uuid != before[j].uuid);
                        }
                    }
                }
                if self.entries[i].addr != addr {
                    return None;
                }
                let rec: UnitRecord = self.entries[i].rec.clone();
                let kept: UnitRecord = self.entries[i].rec.clone();
                let e: CacheEntry = CacheEntry { uuid: *uuid, addr, rec: kept, last: self.tick };
                self.entries.set(i, e);
                proof {
                    assert(self@ =~= before.update(
                        i as int,
                        (CacheModel { last: self.now(), ..before[i as int] }),
                    ));
                    assert(self.wf());
                }
                Some(rec)
            },
        }
    }

    /// The position of the entry used longest ago.
    fn oldest(&self) -> (i: usize)
        requires
            self@.len() > 0,
        ensures
            is_oldest(self@, i as int),
    {
        let mut best: usize = 0;
        let mut i: usize = 1;
        while i < self.entries.len()
            invariant
                self@.len() == self.entries.len(),
                1 <= i <= self.entries.len(),
                best < i,
                forall|k: int|
                    0 <= k < i ==> self.entries@[best as int].last <= (
                    #[trigger] self.entries@[k]).last,
            decreases self.entries.len() - i,
        {
            if self.entries[i].last < self.entries[best].last {
                best = i;
            }
            i = i + 1;
        }
        proof {
            assert forall|j: int| 0 <= j < self@.len() implies self@[best as int].last <= (
            #[trigger] self@[j]).last by {
                assert(self.entries@[best as int].last <= self.entries@[j].last);
            }
        }
        best
    }

    /// Caches the record of `uuid`. In a full cache the entry used longest ago
    /// makes room; a cache without capacity keeps nothing.
    pub fn put(&mut self, uuid: &Uuid, addr: u64, rec: UnitRecord)
        requires
            old(self).wf(),
        ensures
            final(self).wf(),
            final(self).capacity() == old(self).capacity(),
            old(self).capacity() == 0 ==> final(self)@ == old(self)@,
            old(self).capacity() > 0 ==> {
                let e = CacheModel { uuid: *uuid, addr, rec: rec@, last: final(self).now() };
                if is_cached(old(self)@, *uuid) {
                    exists|i: int| #[trigger]
                        cached_at(old(self)@, *uuid, i) && final(self)@ == old(self)@.update(i, e)
                } else if old(self)@.len() < old(self).capacity() {
                    final(self)@ == old(self)@.push(e)
                } else {
                    exists|i: int| #[trigger]
                        is_oldest(old(self)@, i) && final(self)@ == old(self)@.remove(i).push(e)
                }
            },
    {
        if self.cap == 0 {
            return;
        }
        self.step();
        let ghost before = self@;
        let e: CacheEntry = CacheEntry { uuid: *uuid, addr, rec, last: self.tick };
        match self.find(uuid) {
            Some(i) => {
                self.entries.set(i, e);
                proof {
                    assert(self@ =~= before.update(i as int, e@));
                    assert(cached_at(before, *uuid, i as int));
                }
            },
            None => {
                if self.entries.len() >= self.cap {
                    let o: usize = self.oldest();
                    let gone: CacheEntry = self.entries.remove(o);
                    self.entries.push(e);
                    proof {
                        assert(self@ =~= before.remove(o as int).push(e@));
                        assert(is_oldest(before, o as int));
                        Self::lemma_fresh(before, *uuid);
                    }
                } else {
                    self.entries.push(e);
                    proof {
                        assert(self@ =~= before.push(e@));
                        Self::lemma_fresh(before, *uuid);
                    }
                }
            },
        }
    }

    proof fn lemma_fresh(s: Seq<CacheModel>, uuid: Uuid)
        requires
            !is_cached(s, uuid),
        ensures
            forall|i: int| 0 <= i < s.len() ==> (#[trigger] s[i]).uuid != uuid,
    {
        assert forall|i: int| 0 <= i < s.len() implies (#[trigger] s[i]).uuid != uuid by {
            assert(!cached_at(s, uuid, i));
        }
    }

    /// Forgets everything.
    pub fn clear(&mut self)
        ensures
            final(self)@ == Seq::<CacheModel>::empty(),
            final(self).wf(),
            final(self).capacity() == old(self).capacity(),
    {
        self.entries.clear();
        proof {
            assert(self@ =~= Seq::<CacheModel>::empty());
        }
    }
}

} // verus!
