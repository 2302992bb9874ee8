//! Placing blocks, superseding them, and overwriting slots in place.
use vstd::prelude::*;

use crate::bytes::same16;
use crate::content::stored_at;
use crate::crypto::Crypto;
use crate::engine::{journal_has, lemma_live_grow, live, undo_ok, Container, Engine};
use crate::error::Error;
use crate::evicted::{EvictedBlock, EvictedModel};
use crate::heap::{
    in_heap, lemma_undone_len, lemma_undone_overwrite, lemma_undone_push, restores, undoes, undone,
};
use crate::unit::{BlockLoc, Uuid};

verus! {

/// When a fragment was last written, if that is known.
pub open spec fn stamp_of(s: Seq<(Uuid, u32, i64)>, uuid: Uuid, f: u32) -> Option<i64>
    decreases s.len(),
{
    if s.len() == 0 {
        None
    } else if s.last().0 == uuid && s.last().1 == f {
        Some(s.last().2)
    } else {
        stamp_of(s.drop_last(), uuid, f)
    }
}

impl<C: Crypto> Engine<C> {
    /// The present time: the override, else the clock.
    pub open spec fn time(&self) -> i64 {
        match self.eviction_clock {
            Some(t) => t,
            None => self.clock,
        }
    }

    /// The age that a superseded block of a fragment is given.
    pub open spec fn age(&self, uuid: Uuid, f: u32) -> i64 {
        match stamp_of(self.stamps@, uuid, f) {
            Some(t) => t,
            None => self.time(),
        }
    }

    /// Sets the clock.
    pub fn set_clock(&mut self, now: i64)
        requires
            old(self).inv(),
        ensures
            final(self).inv(),
            old(self).recoverable() ==> final(self).recoverable(),
            *final(self) == (Engine { clock: now, ..*old(self) }),
    {
        self.clock = now;
    }

    pub fn now(&self) -> (t: i64)
        ensures
            t == self.time(),
    {
        match self.eviction_clock {
            Some(t) => t,
            None => self.clock,
        }
    }

    fn write_time(&self, uuid: &Uuid, f: u32) -> (t: i64)
        ensures
            t == self.age(*uuid, f),
    {
        let mut i: usize = self.stamps.len();
        proof {
            assert(self.stamps@.take(i as int) =~= self.stamps@);
        }
        while i > 0
            invariant
                i <= self.stamps.len(),
                stamp_of(self.stamps@, *uuid, f) == stamp_of(
                    self.stamps@.take(i as int),
                    *uuid,
                    f,
                ),
            decreases i,
        {
            proof {
                assert(self.stamps@.take(i as int).last() == self.stamps@[i - 1]);
                assert(self.stamps@.take(i as int).drop_last() =~= self.stamps@.take(i - 1));
            }
            if same16(&self.stamps[i - 1].0, uuid) && self.stamps[i - 1].1 == f {
                return self.stamps[i - 1].2;
            }
            i = i - 1;
        }
        self.now()
    }

    /// Whether a fragment was superseded since the last commit.
    pub fn is_journaled(&self, uuid: &Uuid, f: u32) -> (r: bool)
        ensures
            r == journal_has(self.journaled@, uuid@, f),
    {
        let mut i: usize = 0;
        while i < self.journaled.len()
            invariant
                i <= self.journaled.len(),
                forall|k: int|
                    0 <= k < i ==> !((#[trigger] self.journaled@[k]).0@ == uuid@
                        && self.journaled@[k].1 == f),
            decreases self.journaled.len() - i,
        {
            if same16(&self.journaled[i].0, uuid) && self.journaled[i].1 == f {
                proof {
                    assert(self.journaled@[i as int].0@ == uuid@);
                }
                return true;
            }
            proof {
                let x = self.journaled@[i as int].0;
                if x@ == uuid@ {
                    assert(x =~= *uuid);
                }
            }
            i = i + 1;
        }
        false
    }

    /// Stores a block in a fresh slot.
    pub fn place_content_fragment(&mut self, cipher: Vec<u8>) -> (loc: BlockLoc)
        requires
            old(self).inv(),
            cipher@.len() <= u32::MAX,
        ensures
            final(self).inv(),
            old(self).recoverable() ==> final(self).recoverable(),
            final(self).slots() == old(self).slots().push(cipher@),
            loc.addr == final(self).slots().len(),
            loc.len == cipher@.len(),
            *final(self) == (Engine {
                disk: (Container { blocks: final(self).disk.blocks, ..old(self).disk }),
                ..*old(self)
            }),
    {
        let len: u32 = cipher.len() as u32;
        let addr: u64 = self.disk.blocks.push(cipher);
        proof {
            let o = old(self);
            let recs = o.recs();
            assert(recs.take(recs.len() as int) =~= recs);
            lemma_live_grow(o.ids@, recs, recs, o.slots().len(), self.slots().len());
            if o.recoverable() {
                let seq = o.disk.committed.header.commit_seq;
                lemma_undone_push(o.slots(), o.tail(), seq, cipher@);
                lemma_undone_len(o.slots(), o.tail(), seq);
                assert(undo_ok(self.slots(), self.tail(), seq, self.snap@, self.dirty@));
            }
        }
        BlockLoc { addr, len }
    }

    /// The image of a superseded block.
    pub open spec fn evicted(
        &self,
        uuid: Uuid,
        frag: u32,
        old_version: u64,
        old_loc: BlockLoc,
        commits: Seq<Uuid>,
        inplace_addr: u64,
        target: u64,
    ) -> EvictedModel {
        EvictedModel {
            uuid,
            frag,
            length: old_loc.len,
            old_version,
            commits,
            bytes: self.slots()[old_loc.addr - 1],
            timestamp: self.age(uuid, frag),
            inplace_addr,
            target_commit_seq: target,
        }
    }

    /// Copies a block to the tail, under the age of the fragment that it held.
    pub fn evict_block(
        &mut self,
        uuid: &Uuid,
        frag: u32,
        old_version: u64,
        old_loc: BlockLoc,
        commits: Vec<Uuid>,
        inplace_addr: u64,
        target: u64,
    ) -> (r: Result<(), Error>)
        requires
            old(self).inv(),
        ensures
            final(self).inv(),
            inplace_addr == 0 && target == 0 && old(self).recoverable()
                ==> final(self).recoverable(),
            stored_at(old(self).slots(), old_loc) is None ==> r == Err::<(), Error>(
                Error::Integrity,
            ) && *final(self) == *old(self),
            stored_at(old(self).slots(), old_loc) is Some ==> {
                &&& r == Ok::<(), Error>(())
                &&& final(self).tail() == old(self).tail().push(
                    old(self).evicted(
                        *uuid,
                        frag,
                        old_version,
                        old_loc,
                        commits@,
                        inplace_addr,
                        target,
                    ),
                )
                &&& *final(self) == (Engine {
                    disk: (Container { tail: final(self).disk.tail, ..old(self).disk }),
                    ..*old(self)
                })
            },
    {
        let timestamp: i64 = self.write_time(uuid, frag);
        let bytes: Vec<u8> = match self.disk.blocks.get(old_loc.addr) {
            None => {
                return Err(Error::Integrity);
            },
            Some(b) => b,
        };
        if bytes.len() as u64 != old_loc.len as u64 {
            return Err(Error::Integrity);
        }
        let e: EvictedBlock = EvictedBlock {
            uuid: *uuid,
            frag,
            length: old_loc.len,
            old_version,
            commits,
            bytes,
            timestamp,
            inplace_addr,
            target_commit_seq: target,
        };
        self.disk.tail.push(e);
        proof {
            if inplace_addr == 0 && target == 0 && old(self).recoverable() {
                let seq = self.disk.committed.header.commit_seq;
                assert(self.tail().drop_last() =~= old(self).tail());
                assert forall|a: u64| #[trigger] self.dirty@.contains(a) implies restores(
                    self.tail(),
                    seq,
                    a,
                ) by {
                    lemma_restores_push(old(self).tail(), self.tail().last(), seq, a);
                }
                assert(undo_ok(self.slots(), self.tail(), seq, self.snap@, self.dirty@));
            }
        }
        Ok(())
    }

    /// Prepares the overwrite of a fragment's slot: its undo image goes to the
    /// tail, and the fragment into the journal.
    pub fn journal_inplace(
        &mut self,
        uuid: &Uuid,
        frag: u32,
        old_version: u64,
        old_loc: BlockLoc,
        commits: Vec<Uuid>,
    ) -> (r: Result<(), Error>)
        requires
            old(self).inv(),
            old(self).header.commit_seq < u64::MAX,
            old_loc.addr != 0,
            live(old(self).ids@, old(self).recs(), uuid@, frag as int) == old_loc.addr,
            !journal_has(old(self).journaled@, uuid@, frag),
        ensures
            final(self).inv(),
            old(self).recoverable() ==> final(self).recoverable(),
            stored_at(old(self).slots(), old_loc) is None ==> r == Err::<(), Error>(
                Error::Integrity,
            ) && *final(self) == *old(self),
            stored_at(old(self).slots(), old_loc) is Some ==> {
                &&& r == Ok::<(), Error>(())
                &&& final(self).tail() == old(self).tail().push(
                    old(self).evicted(
                        *uuid,
                        frag,
                        old_version,
                        old_loc,
                        commits@,
                        old_loc.addr,
                        (old(self).header.commit_seq + 1) as u64,
                    ),
                )
                &&& final(self).journaled@ == old(self).journaled@.push((*uuid, frag))
                &&& final(self).dirty@ == old(self).dirty@.insert(old_loc.addr)
                &&& *final(self) == (Engine {
                    disk: (Container { tail: final(self).disk.tail, ..old(self).disk }),
                    journaled: final(self).journaled,
                    dirty: final(self).dirty,
                    ..*old(self)
                })
            },
    {
        let target: u64 = self.header.commit_seq + 1;
        match self.evict_block(uuid, frag, old_version, old_loc, commits, old_loc.addr, target) {
            Err(e) => {
                return Err(e);
            },
            Ok(()) => {},
        }
        self.journaled.push((*uuid, frag));
        proof {
            let o = old(self);
            let a0 = old_loc.addr;
            self.dirty@ = self.dirty@.insert(a0);
            if o.recoverable() {
                let seq = o.disk.committed.header.commit_seq;
                let e = self.tail().last();
                assert(self.tail().drop_last() =~= o.tail());
                lemma_undone_len(o.slots(), o.tail(), seq);
                assert(undoes(e, seq));
                assert forall|a: u64| #[trigger]
                    in_heap(self.snap@, a) implies undone(self.slots(), self.tail(), seq)[a - 1]
                    == self.snap@[a - 1] by {
                    if a == a0 {
                        if o.dirty@.contains(a0) {
                            assert(journal_has(o.journaled@, uuid@, frag));
                        }
                        assert(o.slots()[a - 1] == o.snap@[a - 1]);
                    }
                }
                assert forall|a: u64| #[trigger] self.dirty@.contains(a) implies in_heap(
                    self.slots(),
                    a,
                ) && restores(self.tail(), seq, a) by {
                    lemma_restores_push(o.tail(), e, seq, a);
                }
                assert(undo_ok(self.slots(), self.tail(), seq, self.snap@, self.dirty@));
                assert forall|k: Seq<u8>, p: int|
                    #![trigger live(self.ids@, self.recs(), k, p)]
                    0 <= p <= u32::MAX && self.dirty@.contains(
                        live(self.ids@, self.recs(), k, p),
                    ) implies journal_has(self.journaled@, k, p as u32) by {
                    let j = self.journaled@;
                    if live(self.ids@, self.recs(), k, p) == a0 {
                        assert(k == uuid@ && p == frag);
                        assert(j[j.len() - 1].0@ == k && j[j.len() - 1].1 == p as u32);
                    } else {
                        assert(journal_has(o.journaled@, k, p as u32));
                        let i = choose|i: int|
                            0 <= i < o.journaled@.len() && (#[trigger] o.journaled@[i]).0@ == k
                                && o.journaled@[i].1 == p as u32;
                        assert(j[i] == o.journaled@[i]);
                    }
                }
            }
        }
        Ok(())
    }

    /// Overwrites a slot whose undo image is in the tail.
    pub fn apply_inplace(&mut self, addr: u64, bytes: Vec<u8>)
        requires
            old(self).inv(),
            in_heap(old(self).slots(), addr),
            old(self).dirty@.contains(addr),
        ensures
            final(self).inv(),
            old(self).recoverable() ==> final(self).recoverable(),
            final(self).slots() == old(self).slots().update(addr - 1, bytes@),
            *final(self) == (Engine {
                disk: (Container { blocks: final(self).disk.blocks, ..old(self).disk }),
                ..*old(self)
            }),
    {
        self.disk.blocks.set(addr, bytes);
        proof {
            let o = old(self);
            if o.recoverable() {
                let seq = o.disk.committed.header.commit_seq;
                lemma_undone_overwrite(o.slots(), o.tail(), seq, addr, bytes@);
                assert forall|a: u64| #[trigger]
                    in_heap(self.snap@, a) implies undone(self.slots(), self.tail(), seq)[a - 1]
                    == self.snap@[a - 1] by {
                    assert(in_heap(o.slots(), a));
                    assert(undone(o.slots(), o.tail(), seq)[a - 1] == o.snap@[a - 1]);
                    if a != addr {
                        assert(undone(o.slots().update(addr - 1, bytes@), o.tail(), seq)[a - 1]
                            == undone(o.slots(), o.tail(), seq)[a - 1]);
                    }
                }
                assert(undo_ok(self.slots(), self.tail(), seq, self.snap@, self.dirty@));
            }
        }
    }
}

/// One more image restores what was restored before, and its own slot.
pub proof fn lemma_restores_push(
    tail: Seq<EvictedModel>,
    e: EvictedModel,
    seq: u64,
    a: u64,
)
    ensures
        restores(tail, seq, a) ==> restores(tail.push(e), seq, a),
        undoes(e, seq) && e.inplace_addr == a ==> restores(tail.push(e), seq, a),
{
    let t = tail.push(e);
    if restores(tail, seq, a) {
        let i = choose|i: int|
            0 <= i < tail.len() && undoes(#[trigger] tail[i], seq) && tail[i].inplace_addr == a;
        assert(t[i] == tail[i]);
    }
    if undoes(e, seq) && e.inplace_addr == a {
        assert(t[tail.len() as int] == e);
    }
}

} // verus!
