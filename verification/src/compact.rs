//! Compaction: finding slots that nothing refers to, and moving blocks into
//! them.
use vstd::prelude::*;
use vstd::utf8::valid_utf8;

use crate::block::{footprint, round_up_block};
use crate::catalog::{lemma_map_of, ByteMap};
use crate::content::stored_at;
use crate::crypto::Crypto;
use crate::engine::{
    ids_ok, journal_has, journal_ok, live, live_ok, place, record_ok, records_ok, signed_record,
    undo_ok, Container, Engine, RecordSignIntent,
};
use crate::error::Error;
use crate::evicted::EvictedBlock;
use crate::heap::{
    in_heap, lemma_undone_len, lemma_undone_other, lemma_undone_overwrite, restores, undoes, undone,
    RecordHeap,
};
use crate::outside::string_from_utf8;
use crate::unit::{
    hole, is_hole, payload_of, BlockLoc, PinModel, RecordModel, StreamMeta, StreamModel, UnitRecord,
    Uuid,
};

verus! {

/// One of the locations is slot `a`.
pub open spec fn loc_in(locs: Seq<BlockLoc>, a: u64) -> bool {
    exists|i: int| 0 <= i < locs.len() && (#[trigger] locs[i]).addr == a
}

/// A record refers to slot `a`.
pub open spec fn slot_in_record(r: RecordModel, a: u64) -> bool {
    ||| r.content is Some && loc_in(r.content->Some_0.locations, a)
    ||| r.meta is Some && loc_in(r.meta->Some_0.locations, a)
}

/// The record at `addr`, or one that it follows, refers to slot `a`.
pub open spec fn in_chain(recs: Seq<RecordModel>, addr: u64, a: u64) -> bool
    decreases addr,
{
    if !in_heap(recs, addr) {
        false
    } else {
        let r = recs[addr - 1];
        slot_in_record(r, a) || (r.parent is Some && r.parent->Some_0 < addr && in_chain(
            recs,
            r.parent->Some_0,
            a,
        ))
    }
}

/// Some unit, in some version, refers to slot `a`.
pub open spec fn in_units(ids: Map<Seq<u8>, u64>, recs: Seq<RecordModel>, a: u64) -> bool {
    exists|k: Seq<u8>| #[trigger] ids.contains_key(k) && in_chain(recs, ids[k], a)
}

fn mark_locs(used: &mut Vec<bool>, locs: &Vec<BlockLoc>)
    ensures
        final(used)@.len() == old(used)@.len(),
        forall|a: u64|
            a < old(used)@.len() ==> #[trigger] final(used)@[a as int] == (old(used)@[a as int]
                || loc_in(locs@, a)),
{
    let n: usize = locs.len();
    let mut i: usize = 0;
    while i < n
        invariant
            n == locs@.len(),
            i <= n,
            used@.len() == old(used)@.len(),
            forall|a: u64|
                a < old(used)@.len() ==> #[trigger] used@[a as int] == (old(used)@[a as int]
                    || loc_in(locs@.take(i as int), a)),
        decreases n - i,
    {
        let addr: u64 = locs[i].addr;
        let ghost before = used@;
        if addr < used.len() as u64 {
            used.set(addr as usize, true);
        }
        proof {
            let p = locs@.take(i as int);
            let q = locs@.take(i + 1);
            assert forall|a: u64| a < old(used)@.len() implies #[trigger] used@[a as int] == (
            old(used)@[a as int] || loc_in(q, a)) by {
                assert(before[a as int] == (old(used)@[a as int] || loc_in(p, a)));
                if loc_in(p, a) {
                    let j = choose|j: int| 0 <= j < p.len() && (#[trigger] p[j]).addr == a;
                    assert(q[j].addr == a);
                }
                if a == addr {
                    assert(q[i as int].addr == a);
                }
                if loc_in(q, a) && a != addr {
                    let j = choose|j: int| 0 <= j < q.len() && (#[trigger] q[j]).addr == a;
                    assert(p[j].addr == a);
                }
            }
        }
        i = i + 1;
    }
    proof {
        assert(locs@.take(n as int) =~= locs@);
    }
}

fn mark_record(used: &mut Vec<bool>, rec: &UnitRecord)
    ensures
        final(used)@.len() == old(used)@.len(),
        forall|a: u64|
            a < old(used)@.len() ==> #[trigger] final(used)@[a as int] == (old(used)@[a as int]
                || slot_in_record(rec@, a)),
{
    match &rec.content {
        None => {},
        Some(sm) => {
            mark_locs(used, &sm.locations);
        },
    }
    match &rec.meta {
        None => {},
        Some(sm) => {
            mark_locs(used, &sm.locations);
        },
    }
}

fn mark_chain(records: &RecordHeap, used: &mut Vec<bool>, head: u64)
    requires
        records_ok(records@),
    ensures
        final(used)@.len() == old(used)@.len(),
        forall|a: u64|
            a < old(used)@.len() ==> #[trigger] final(used)@[a as int] == (old(used)@[a as int]
                || in_chain(records@, head, a)),
{
    let mut addr: u64 = head;
    loop
        invariant
            records_ok(records@),
            used@.len() == old(used)@.len(),
            forall|a: u64|
                a < old(used)@.len() ==> (#[trigger] used@[a as int] || in_chain(records@, addr, a))
                    == (old(used)@[a as int] || in_chain(records@, head, a)),
        ensures
            used@.len() == old(used)@.len(),
            forall|a: u64|
                a < old(used)@.len() ==> #[trigger] used@[a as int] == (old(used)@[a as int]
                    || in_chain(records@, head, a)),
        decreases addr,
    {
        let ghost before = used@;
        let rec: UnitRecord = match records.get(addr) {
            None => {
                break;
            },
            Some(r) => r,
        };
        proof {
            assert(record_ok(records@[addr - 1], addr - 1));
        }
        mark_record(used, &rec);
        proof {
            assert forall|a: u64| a < old(used)@.len() implies (#[trigger] used@[a as int] || (
            rec@.parent is Some && in_chain(records@, rec@.parent->Some_0, a))) == (
            old(used)@[a as int] || in_chain(records@, head, a)) by {
                assert((before[a as int] || in_chain(records@, addr, a)) == (old(used)@[a as int]
                    || in_chain(records@, head, a)));
            }
        }
        match rec.parent {
            None => {
                break;
            },
            Some(p) => {
                addr = p;
            },
        }
    }
}

fn mark_units(records: &RecordHeap, used: &mut Vec<bool>, ids: &ByteMap<u64>)
    requires
        records_ok(records@),
        ids.wf(),
    ensures
        final(used)@.len() == old(used)@.len(),
        forall|a: u64|
            a < old(used)@.len() ==> #[trigger] final(used)@[a as int] == (old(used)@[a as int]
                || in_units(ids@, records@, a)),
{
    let ghost pairs = ids.pairs();
    let n: usize = ids.len();
    let mut i: usize = 0;
    while i < n
        invariant
            records_ok(records@),
            pairs == ids.pairs(),
            n == pairs.len(),
            i <= n,
            used@.len() == old(used)@.len(),
            forall|a: u64|
                a < old(used)@.len() ==> #[trigger] used@[a as int] == (old(used)@[a as int]
                    || in_pairs(pairs.take(i as int), records@, a)),
        decreases n - i,
    {
        let (k, addr): (Vec<u8>, u64) = ids.pair_at(i);
        let ghost before = used@;
        mark_chain(records, used, addr);
        proof {
            let p = pairs.take(i as int);
            let q = pairs.take(i + 1);
            assert forall|a: u64| a < old(used)@.len() implies #[trigger] used@[a as int] == (
            old(used)@[a as int] || in_pairs(q, records@, a)) by {
                assert(before[a as int] == (old(used)@[a as int] || in_pairs(p, records@, a)));
                if in_pairs(p, records@, a) {
                    let j = choose|j: int|
                        0 <= j < p.len() && in_chain(records@, (#[trigger] p[j]).1, a);
                    assert(q[j] == p[j]);
                }
                if in_chain(records@, addr, a) {
                    assert(q[i as int].1 == addr);
                }
                if in_pairs(q, records@, a) && !in_chain(records@, addr, a) {
                    let j = choose|j: int|
                        0 <= j < q.len() && in_chain(records@, (#[trigger] q[j]).1, a);
                    assert(p[j] == q[j]);
                }
            }
        }
        i = i + 1;
    }
    proof {
        assert(pairs.take(n as int) =~= pairs);
        lemma_map_of(pairs);
        assert forall|a: u64| in_pairs(pairs, records@, a) == in_units(ids@, records@, a) by {
            if in_pairs(pairs, records@, a) {
                let j = choose|j: int|
                    0 <= j < pairs.len() && in_chain(records@, (#[trigger] pairs[j]).1, a);
                assert(ids@.contains_key(pairs[j].0));
            }
            if in_units(ids@, records@, a) {
                let k = choose|k: Seq<u8>| #[trigger]
                    ids@.contains_key(k) && in_chain(records@, ids@[k], a);
                let j = choose|j: int| 0 <= j < pairs.len() && pairs[j].0 == k;
                assert(in_chain(records@, pairs[j].1, a));
            }
        }
    }
}

spec fn in_pairs(pairs: Seq<(Seq<u8>, u64)>, recs: Seq<RecordModel>, a: u64) -> bool {
    exists|j: int| 0 <= j < pairs.len() && in_chain(recs, (#[trigger] pairs[j]).1, a)
}

impl<C: Crypto> Engine<C> {
    /// Slot `a` is taken: a unit refers to it in some version, now or in the last
    /// commit, or the undo pass would write it.
    pub open spec fn slot_used(&self, a: u64) -> bool {
        ||| in_units(self.ids@, self.recs(), a)
        ||| in_units(self.disk.committed.ids@, self.recs(), a)
        ||| restores(self.tail(), self.disk.committed.header.commit_seq, a)
    }

    /// The slots up to `n` that nothing refers to, in order.
    pub open spec fn free_slots(&self, n: nat) -> Seq<u64>
        decreases n,
    {
        if n == 0 {
            Seq::empty()
        } else {
            let p = self.free_slots((n - 1) as nat);
            if self.slot_used(n as u64) {
                p
            } else {
                p.push(n as u64)
            }
        }
    }

    fn mark_images(&self, used: &mut Vec<bool>)
        ensures
            final(used)@.len() == old(used)@.len(),
            forall|a: u64|
                0 < a < old(used)@.len() ==> #[trigger] final(used)@[a as int] == (
                old(used)@[a as int] || restores(
                    self.tail(),
                    self.disk.committed.header.commit_seq,
                    a,
                )),
    {
        let seq: u64 = self.disk.committed.header.commit_seq;
        let ghost tail = self.tail();
        let n: usize = self.disk.tail.len();
        let mut i: usize = 0;
        while i < n
            invariant
                seq == self.disk.committed.header.commit_seq,
                tail == self.tail(),
                n == tail.len(),
                i <= n,
                used@.len() == old(used)@.len(),
                forall|a: u64|
                    0 < a < old(used)@.len() ==> #[trigger] used@[a as int] == (
                    old(used)@[a as int] || restores(tail.take(i as int), seq, a)),
            decreases n - i,
        {
            let e: &EvictedBlock = self.disk.tail.get(i);
            let ghost before = used@;
            if e.inplace_addr != 0 && e.target_commit_seq > seq && e.inplace_addr
                < used.len() as u64 {
                used.set(e.inplace_addr as usize, true);
            }
            proof {
                let p = tail.take(i as int);
                let q = tail.take(i + 1);
                assert(e@ == tail[i as int]);
                assert forall|a: u64| 0 < a < old(used)@.len() implies #[trigger] used@[a as int] == (
                old(used)@[a as int] || restores(q, seq, a)) by {
                    assert(before[a as int] == (old(used)@[a as int] || restores(p, seq, a)));
                    if restores(p, seq, a) {
                        let j = choose|j: int|
                            0 <= j < p.len() && undoes(#[trigger] p[j], seq) && p[j].inplace_addr
                                == a;
                        assert(q[j] == p[j]);
                    }
                    if undoes(e@, seq) && e.inplace_addr == a {
                        assert(q[i as int] == e@);
                    }
                    if restores(q, seq, a) && !(undoes(e@, seq) && e.inplace_addr == a) {
                        let j = choose|j: int|
                            0 <= j < q.len() && undoes(#[trigger] q[j], seq) && q[j].inplace_addr
                                == a;
                        assert(p[j] == q[j]);
                    }
                }
            }
            i = i + 1;
        }
        proof {
            assert(tail.take(n as int) =~= tail);
        }
    }

    /// All slots that nothing refers to, in order.
    fn find_free(&self) -> (r: Vec<u64>)
        requires
            self.inv(),
        ensures
            r@ == self.free_slots(self.slots().len()),
    {
        let n: usize = self.disk.blocks.len();
        let mut used: Vec<bool> = Vec::new();
        let mut i: usize = 0;
        while i < n
            invariant
                i <= n,
                used@.len() == i,
                forall|k: int| 0 <= k < i ==> !#[trigger] used@[k],
            decreases n - i,
        {
            used.push(false);
            i = i + 1;
        }
        used.push(false);
        let ghost clean = used@;
        mark_units(&self.disk.records, &mut used, &self.ids);
        let ghost one = used@;
        mark_units(&self.disk.records, &mut used, &self.disk.committed.ids);
        let ghost two = used@;
        self.mark_images(&mut used);
        proof {
            assert forall|a: u64| 0 < a < used@.len() implies #[trigger] used@[a as int]
                == self.slot_used(a) by {
                assert(two[a as int] == (one[a as int] || in_units(
                    self.disk.committed.ids@,
                    self.recs(),
                    a,
                )));
                assert(one[a as int] == (clean[a as int] || in_units(self.ids@, self.recs(), a)));
                assert(!clean[a as int]);
            }
        }
        let mut out: Vec<u64> = Vec::new();
        let total: usize = used.len();
        let mut a: usize = 1;
        proof {
            assert(out@ =~= self.free_slots(0));
        }
        while a < total
            invariant
                1 <= a <= total,
                total == n + 1,
                n == self.slots().len(),
                used@.len() == n + 1,
                forall|b: u64|
                    0 < b < used@.len() ==> #[trigger] used@[b as int] == self.slot_used(b),
                out@ == self.free_slots((a - 1) as nat),
            decreases total - a,
        {
            proof {
                assert(used@[(a as u64) as int] == self.slot_used(a as u64));
            }
            if !used[a] {
                out.push(a as u64);
            }
            a = a + 1;
        }
        out
    }
}


/// The new head `r1` of unit `k` keeps slots where they were, or takes slots
/// that no head has.
pub open spec fn places_free(
    ids: Map<Seq<u8>, u64>,
    recs: Seq<RecordModel>,
    k: Seq<u8>,
    r1: RecordModel,
    slots: nat,
) -> bool {
    &&& forall|p: int| #[trigger]
        place(r1, p) == 0 || place(r1, p) == live(ids, recs, k, p) || place(r1, p) <= slots
            && forall|l: Seq<u8>, q: int| #[trigger] live(ids, recs, l, q) != place(r1, p)
    &&& forall|p: int, q: int|
        #![trigger place(r1, p), place(r1, q)]
        place(r1, p) != 0 && place(r1, p) == place(r1, q) ==> p == q
}

pub proof fn lemma_moved_head(
    ids: Map<Seq<u8>, u64>,
    recs: Seq<RecordModel>,
    k: Seq<u8>,
    r1: RecordModel,
    slots: nat,
)
    requires
        ids_ok(ids, recs),
        records_ok(recs),
        live_ok(ids, recs, slots),
        places_free(ids, recs, k, r1, slots),
        record_ok(r1, recs.len() as int),
        k.len() == 16,
        r1.uuid@ == k,
        recs.len() < u64::MAX,
    ensures
        records_ok(recs.push(r1)),
        ids_ok(ids.insert(k, (recs.len() + 1) as u64), recs.push(r1)),
        live_ok(ids.insert(k, (recs.len() + 1) as u64), recs.push(r1), slots),
        forall|l: Seq<u8>, q: int| #[trigger]
            live(ids.insert(k, (recs.len() + 1) as u64), recs.push(r1), l, q) == if l == k {
                place(r1, q)
            } else {
                live(ids, recs, l, q)
            },
{
    let ids2 = ids.insert(k, (recs.len() + 1) as u64);
    let recs2 = recs.push(r1);
    assert forall|i: int| 0 <= i < recs2.len() implies record_ok(#[trigger] recs2[i], i) by {
        if i < recs.len() {
            assert(record_ok(recs[i], i));
        }
    }
    assert forall|l: Seq<u8>, q: int| #[trigger]
        live(ids2, recs2, l, q) == if l == k {
            place(r1, q)
        } else {
            live(ids, recs, l, q)
        } by {
        if l != k && ids.contains_key(l) {
            assert(recs2[ids[l] - 1] == recs[ids[l] - 1]);
        }
    }
    assert forall|l: Seq<u8>| #[trigger] ids2.contains_key(l) implies l.len() == 16 && in_heap(
        recs2,
        ids2[l],
    ) && recs2[ids2[l] - 1].uuid@ == l by {
        if l != k {
            assert(ids.contains_key(l));
        }
    }
    assert forall|l: Seq<u8>, p: int| #[trigger] live(ids2, recs2, l, p) <= slots by {
        assert(live(ids, recs, l, p) <= slots);
        if l == k {
            assert(place(r1, p) == 0 || place(r1, p) == live(ids, recs, k, p) || place(r1, p)
                <= slots);
        }
    }
    assert forall|a: Seq<u8>, p: int, b: Seq<u8>, q: int|
        #![trigger live(ids2, recs2, a, p), live(ids2, recs2, b, q)]
        live(ids2, recs2, a, p) != 0 && live(ids2, recs2, a, p) == live(
            ids2,
            recs2,
            b,
            q,
        ) implies a == b && p == q by {
        let x = live(ids, recs, a, p);
        let y = live(ids, recs, b, q);
        if a == k && b == k {
            assert(place(r1, p) == place(r1, q));
        } else if a == k {
            assert(place(r1, p) == y);
            assert(place(r1, p) == live(ids, recs, k, p));
        } else if b == k {
            assert(place(r1, q) == x);
            assert(place(r1, q) == live(ids, recs, k, q));
        }
    }
}

impl<C: Crypto> Engine<C> {
    /// Overwrites a slot that nothing refers to.
    fn reuse_slot(&mut self, a: u64, bytes: Vec<u8>)
        requires
            old(self).inv(),
            in_heap(old(self).slots(), a),
            !old(self).slot_used(a),
        ensures
            final(self).inv(),
            old(self).recoverable() ==> final(self).recoverable(),
            final(self).slots() == old(self).slots().update(a - 1, bytes@),
            *final(self) == (Engine {
                disk: (Container { blocks: final(self).disk.blocks, ..old(self).disk }),
                snap: final(self).snap,
                ..*old(self)
            }),
            final(self).snap@.len() == old(self).snap@.len(),
            forall|b: u64|
                in_heap(old(self).snap@, b) && b != a ==> #[trigger] final(self).snap@[b - 1]
                    == old(self).snap@[b - 1],
    {
        let ghost o = *self;
        let ghost data = bytes@;
        self.disk.blocks.set(a, bytes);
        proof {
            if in_heap(o.snap@, a) {
                self.snap@ = o.snap@.update(a - 1, data);
            }
            assert(self.slots() =~= o.slots().update(a - 1, data));
            if o.recoverable() {
                let seq = o.disk.committed.header.commit_seq;
                lemma_undone_overwrite(o.slots(), o.tail(), seq, a, data);
                lemma_undone_other(self.slots(), self.tail(), seq, a);
                lemma_undone_len(o.slots(), o.tail(), seq);
                assert(!o.dirty@.contains(a));
                assert forall|b: u64| #[trigger] in_heap(self.snap@, b) implies undone(
                    self.slots(),
                    self.tail(),
                    seq,
                )[b - 1] == self.snap@[b - 1] by {
                    assert(in_heap(o.snap@, b));
                    assert(in_heap(o.slots(), b));
                }
                assert forall|b: u64| #[trigger]
                    in_heap(self.snap@, b) && !self.dirty@.contains(b) implies self.slots()[b - 1]
                    == self.snap@[b - 1] by {
                    assert(in_heap(o.snap@, b));
                }
                assert(undo_ok(self.slots(), self.tail(), seq, self.snap@, self.dirty@));
            }
        }
    }

    /// Stores a record, signed as it is, as the head of its unit, where it may
    /// have moved to free slots.
    fn install_moved(&mut self, rec: UnitRecord) -> (r: Result<(), Error>)
        requires
            old(self).inv(),
            record_ok(rec@, old(self).recs().len() as int),
            places_free(
                old(self).ids@,
                old(self).recs(),
                rec@.uuid@,
                rec@,
                old(self).slots().len(),
            ),
            old(self).recoverable() ==> forall|p: int|
                #![trigger place(rec@, p)]
                old(self).dirty@.contains(place(rec@, p)) ==> place(rec@, p) == live(
                    old(self).ids@,
                    old(self).recs(),
                    rec@.uuid@,
                    p,
                ),
        ensures
            final(self).inv(),
            old(self).recoverable() ==> final(self).recoverable(),
            match signed_record::<C>(
                rec@,
                old(self).trust(),
                old(self).signing_key,
                RecordSignIntent::Preserve,
            ) {
                Err(e) => r == Err::<(), Error>(e) && *final(self) == *old(self),
                Ok(_) => {
                    &&& r is Ok
                    &&& final(self).recs() == old(self).recs().push(rec@)
                    &&& final(self).recs().len() <= u64::MAX
                    &&& final(self).ids@ == old(self).ids@.insert(
                        rec@.uuid@,
                        final(self).recs().len() as u64,
                    )
                    &&& *final(self) == (Engine {
                        disk: (Container {
                            records: final(self).disk.records,
                            ..old(self).disk
                        }),
                        ids: final(self).ids,
                        ..*old(self)
                    })
                },
            },
    {
        let ghost o = *self;
        let ghost m = rec@;
        let uuid: Uuid = rec.uuid;
        let addr: u64 = match self.write_unit_record(rec, RecordSignIntent::Preserve) {
            Err(e) => {
                return Err(e);
            },
            Ok(a) => a,
        };
        self.ids.put(uuid.as_slice(), addr);
        proof {
            let k = m.uuid@;
            assert(self.recs() == o.recs().push(m));
            lemma_moved_head(o.ids@, o.recs(), k, m, o.slots().len());
            if o.recoverable() {
                assert forall|l: Seq<u8>, p: int|
                    #![trigger live(self.ids@, self.recs(), l, p)]
                    0 <= p <= u32::MAX && self.dirty@.contains(
                        live(self.ids@, self.recs(), l, p),
                    ) implies journal_has(self.journaled@, l, p as u32) by {
                    let a = live(self.ids@, self.recs(), l, p);
                    assert(in_heap(o.slots(), a));
                    if l == k {
                        assert(a == place(m, p));
                        assert(a == live(o.ids@, o.recs(), k, p));
                    } else {
                        assert(a == live(o.ids@, o.recs(), l, p));
                    }
                }
                assert(journal_ok(self.ids@, self.recs(), self.dirty@, self.journaled@));
            }
        }
        Ok(())
    }
}


/// The room of a slot whose block takes `n` bytes, in whole base blocks, as far as
/// a block can be long.
pub open spec fn room_of(n: nat) -> nat {
    footprint(
        if n <= u32::MAX {
            n
        } else {
            u32::MAX as nat
        },
    )
}

/// The first of the first `n` gaps that `len` bytes fit into; a gap is a free slot
/// and its room.
pub open spec fn first_fit(gaps: Seq<(u64, nat)>, len: nat, n: nat) -> Option<int>
    decreases n,
{
    if n == 0 {
        None
    } else {
        match first_fit(gaps, len, (n - 1) as nat) {
            Some(i) => Some(i),
            None => if len <= gaps[n - 1].1 {
                Some(n - 1)
            } else {
                None
            },
        }
    }
}

/// The gap that a block moves down into: it is a block of its own, and the first
/// gap that it fits into lies before it.
pub open spec fn gap_for(loc: BlockLoc, gaps: Seq<(u64, nat)>) -> Option<int> {
    if loc == hole() || loc.len < 4096 {
        None
    } else {
        match first_fit(gaps, loc.len as nat, gaps.len()) {
            None => None,
            Some(i) => if gaps[i].0 < loc.addr {
                Some(i)
            } else {
                None
            },
        }
    }
}

/// The gaps that are left once the first `f` blocks have moved.
pub open spec fn gaps_left(locs: Seq<BlockLoc>, gaps: Seq<(u64, nat)>, f: nat) -> Seq<(u64, nat)>
    decreases f,
{
    if f == 0 {
        gaps
    } else {
        let left = gaps_left(locs, gaps, (f - 1) as nat);
        match gap_for(locs[f - 1], left) {
            None => left,
            Some(i) => left.remove(i),
        }
    }
}

/// Block `i` moves.
pub open spec fn moves(locs: Seq<BlockLoc>, gaps: Seq<(u64, nat)>, i: int) -> bool {
    gap_for(locs[i], gaps_left(locs, gaps, i as nat)) is Some
}

/// How many of the first `f` blocks move.
pub open spec fn moved_count(locs: Seq<BlockLoc>, gaps: Seq<(u64, nat)>, f: nat) -> nat
    decreases f,
{
    if f == 0 {
        0
    } else {
        moved_count(locs, gaps, (f - 1) as nat) + if moves(locs, gaps, f - 1) {
            1nat
        } else {
            0
        }
    }
}

/// Where block `i` lies afterwards.
pub open spec fn moved_loc(locs: Seq<BlockLoc>, gaps: Seq<(u64, nat)>, i: int) -> BlockLoc {
    let left = gaps_left(locs, gaps, i as nat);
    match gap_for(locs[i], left) {
        None => locs[i],
        Some(j) => BlockLoc { addr: left[j].0, len: locs[i].len },
    }
}

/// Where all blocks lie afterwards.
pub open spec fn moved_locs(locs: Seq<BlockLoc>, gaps: Seq<(u64, nat)>) -> Seq<BlockLoc> {
    Seq::new(locs.len(), |i: int| moved_loc(locs, gaps, i))
}

/// The bytes of the first `f` blocks that move.
pub open spec fn moved_bytes(locs: Seq<BlockLoc>, gaps: Seq<(u64, nat)>, f: nat) -> nat
    decreases f,
{
    if f == 0 {
        0
    } else {
        moved_bytes(locs, gaps, (f - 1) as nat) + if moves(locs, gaps, f - 1) {
            locs[f - 1].len as nat
        } else {
            0
        }
    }
}

/// The room that the first `f` blocks leave behind, in whole base blocks.
pub open spec fn moved_room(locs: Seq<BlockLoc>, gaps: Seq<(u64, nat)>, f: nat) -> nat
    decreases f,
{
    if f == 0 {
        0
    } else {
        moved_room(locs, gaps, (f - 1) as nat) + if moves(locs, gaps, f - 1) {
            footprint(locs[f - 1].len as nat)
        } else {
            0
        }
    }
}

/// The gaps come in the order of their slots.
spec fn gaps_ascend(gaps: Seq<(u64, nat)>) -> bool {
    forall|i: int, j: int| 0 <= i < j < gaps.len() ==> gaps[i].0 < gaps[j].0
}

proof fn lemma_first_fit(gaps: Seq<(u64, nat)>, len: nat, n: nat)
    requires
        n <= gaps.len(),
    ensures
        match first_fit(gaps, len, n) {
            None => forall|i: int| 0 <= i < n ==> #[trigger] gaps[i].1 < len,
            Some(i) => 0 <= i < n && len <= gaps[i].1,
        },
    decreases n,
{
    if n > 0 {
        lemma_first_fit(gaps, len, (n - 1) as nat);
    }
}

/// A gap that fits where none before it does is the one.
proof fn lemma_fit_is_first(gaps: Seq<(u64, nat)>, len: nat, i: int, n: nat)
    requires
        0 <= i < n <= gaps.len(),
        len <= gaps[i].1,
        forall|j: int| 0 <= j < i ==> #[trigger] gaps[j].1 < len,
    ensures
        first_fit(gaps, len, n) == Some(i),
    decreases n,
{
    if n == i + 1 {
        lemma_first_fit(gaps, len, i as nat);
    } else {
        lemma_fit_is_first(gaps, len, i, (n - 1) as nat);
    }
}

/// Gaps that are left were gaps before, still in order.
proof fn lemma_gaps_left(locs: Seq<BlockLoc>, gaps: Seq<(u64, nat)>, i: nat, f: nat)
    requires
        i <= f,
        gaps_ascend(gaps),
    ensures
        gaps_ascend(gaps_left(locs, gaps, f)),
        forall|j: int|
            0 <= j < gaps_left(locs, gaps, f).len() ==> gaps_left(locs, gaps, i).contains(
                #[trigger] gaps_left(locs, gaps, f)[j],
            ),
    decreases f,
{
    let now = gaps_left(locs, gaps, f);
    if f == 0 {
    } else {
        let p = (f - 1) as nat;
        let before = gaps_left(locs, gaps, p);
        if i < f {
            lemma_gaps_left(locs, gaps, i, p);
        } else {
            lemma_gaps_left(locs, gaps, p, p);
        }
        lemma_first_fit(before, locs[f - 1].len as nat, before.len());
        assert forall|j: int| 0 <= j < now.len() implies before.contains(#[trigger] now[j]) by {
            if gap_for(locs[f - 1], before) is Some {
                let g = gap_for(locs[f - 1], before)->Some_0;
                if j < g {
                    assert(now[j] == before[j]);
                } else {
                    assert(now[j] == before[j + 1]);
                }
            } else {
                assert(now[j] == before[j]);
            }
        }
        assert forall|j: int| 0 <= j < now.len() implies gaps_left(locs, gaps, i).contains(
            #[trigger] now[j],
        ) by {
            if i < f {
                let x = choose|x: int| 0 <= x < before.len() && before[x] == now[j];
                assert(before.contains(now[j]));
                assert(gaps_left(locs, gaps, i).contains(before[x]));
            }
        }
    }
}

/// A gap that block `i` took is not left for a later one.
proof fn lemma_gap_taken(locs: Seq<BlockLoc>, gaps: Seq<(u64, nat)>, i: int, f: nat)
    requires
        0 <= i < f,
        gaps_ascend(gaps),
        moves(locs, gaps, i),
    ensures
        forall|j: int|
            0 <= j < gaps_left(locs, gaps, f).len() ==> (#[trigger] gaps_left(locs, gaps, f)[j]).0
                != moved_loc(locs, gaps, i).addr,
{
    let at = gaps_left(locs, gaps, i as nat);
    let after = gaps_left(locs, gaps, (i + 1) as nat);
    let now = gaps_left(locs, gaps, f);
    let g = gap_for(locs[i], at)->Some_0;
    lemma_gaps_left(locs, gaps, 0, i as nat);
    lemma_gaps_left(locs, gaps, (i + 1) as nat, f);
    lemma_first_fit(at, locs[i].len as nat, at.len());
    assert forall|j: int| 0 <= j < now.len() implies (#[trigger] now[j]).0 != moved_loc(
        locs,
        gaps,
        i,
    ).addr by {
        assert(after.contains(now[j]));
        let x = choose|x: int| 0 <= x < after.len() && after[x] == now[j];
        if x < g {
            assert(after[x] == at[x]);
        } else {
            assert(after[x] == at[x + 1]);
        }
    }
}

/// A block that moves does so into one of the gaps.
proof fn lemma_moved_into(locs: Seq<BlockLoc>, gaps: Seq<(u64, nat)>, i: int)
    requires
        0 <= i,
        gaps_ascend(gaps),
        moves(locs, gaps, i),
    ensures
        exists|j: int| 0 <= j < gaps.len() && #[trigger] gaps[j].0 == moved_loc(locs, gaps, i).addr
            && locs[i].len <= gaps[j].1,
        moved_loc(locs, gaps, i).addr < locs[i].addr,
        locs[i] != hole(),
{
    let at = gaps_left(locs, gaps, i as nat);
    lemma_gaps_left(locs, gaps, 0, i as nat);
    lemma_first_fit(at, locs[i].len as nat, at.len());
    let g = gap_for(locs[i], at)->Some_0;
    assert(gaps.contains(at[g]));
    let j = choose|j: int| 0 <= j < gaps.len() && gaps[j] == at[g];
    assert(gaps[j].0 == moved_loc(locs, gaps, i).addr);
}

/// Two blocks that move do not move into the same gap.
proof fn lemma_moved_apart(locs: Seq<BlockLoc>, gaps: Seq<(u64, nat)>, i: int, f: int)
    requires
        0 <= i < f,
        gaps_ascend(gaps),
        moves(locs, gaps, i),
        moves(locs, gaps, f),
    ensures
        moved_loc(locs, gaps, i).addr != moved_loc(locs, gaps, f).addr,
{
    lemma_gap_taken(locs, gaps, i, f as nat);
    let at = gaps_left(locs, gaps, f as nat);
    lemma_first_fit(at, locs[f].len as nat, at.len());
    let g = gap_for(locs[f], at)->Some_0;
    assert(at[g].0 == moved_loc(locs, gaps, f).addr);
}

impl<C: Crypto> Engine<C> {
    proof fn lemma_free_slots(&self, n: nat)
        requires
            n <= u64::MAX,
        ensures
            forall|i: int|
                0 <= i < self.free_slots(n).len() ==> 1 <= #[trigger] self.free_slots(n)[i] <= n
                    && !self.slot_used(self.free_slots(n)[i]),
            forall|i: int, j: int|
                0 <= i < j < self.free_slots(n).len() ==> self.free_slots(n)[i] < self.free_slots(
                    n,
                )[j],
        decreases n,
    {
        if n > 0 {
            self.lemma_free_slots((n - 1) as nat);
            let p = self.free_slots((n - 1) as nat);
            let s = self.free_slots(n);
            assert forall|i: int| 0 <= i < s.len() implies 1 <= #[trigger] s[i] <= n
                && !self.slot_used(s[i]) by {
                if i < p.len() {
                    assert(s[i] == p[i]);
                }
            }
            assert forall|i: int, j: int| 0 <= i < j < s.len() implies s[i] < s[j] by {
                assert(s[i] == p[i]);
                if j < p.len() {
                    assert(s[j] == p[j]);
                }
            }
        }
    }

    /// The free slots of this state.
    pub open spec fn free(&self) -> Seq<u64> {
        self.free_slots(self.slots().len())
    }

    /// The free slots with their room.
    pub open spec fn gaps(&self) -> Seq<(u64, nat)> {
        let free = self.free();
        let slots = self.slots();
        Seq::new(free.len(), |i: int| (free[i], room_of(slots[free[i] - 1].len())))
    }

    proof fn lemma_gaps(&self)
        requires
            self.slots().len() <= u64::MAX,
        ensures
            gaps_ascend(self.gaps()),
            forall|i: int|
                0 <= i < self.gaps().len() ==> 1 <= (#[trigger] self.gaps()[i]).0
                    <= self.slots().len() && !self.slot_used(self.gaps()[i].0),
    {
        self.lemma_free_slots(self.slots().len());
        let free = self.free();
        let gaps = self.gaps();
        assert forall|i: int| 0 <= i < gaps.len() implies 1 <= (#[trigger] gaps[i]).0
            <= self.slots().len() && !self.slot_used(gaps[i].0) by {
            assert(gaps[i].0 == free[i]);
        }
        assert forall|i: int, j: int| 0 <= i < j < gaps.len() implies gaps[i].0 < gaps[j].0 by {
            assert(free[i] < free[j]);
        }
    }

    /// Head `m` may move: it is the only version of its unit, no commit pins it,
    /// and it has content.
    pub open spec fn may_move(m: RecordModel) -> bool {
        &&& m.content is Some
        &&& m.stream().locations.len() > 0
        &&& m.parent is None
        &&& !pinned_by_any(m.stream().pins)
    }

    /// Head `m` after its blocks moved.
    pub open spec fn moved_record(&self, m: RecordModel) -> RecordModel {
        RecordModel {
            content: Some(
                StreamModel {
                    locations: moved_locs(m.stream().locations, self.gaps()),
                    ..m.stream()
                },
            ),
            parent: None,
            superseded: Seq::empty(),
            ..m
        }
    }

    /// The slots after the first `f` blocks of head `m` moved: those that moved
    /// hold what their old slots hold, and nothing that is in use changed.
    pub open spec fn slots_moved(
        o: &Self,
        slots: Seq<Seq<u8>>,
        m: RecordModel,
        f: nat,
    ) -> bool {
        let locs = m.stream().locations;
        let gaps = o.gaps();
        &&& slots.len() == o.slots().len()
        &&& forall|a: u64|
            in_heap(o.slots(), a) && (forall|i: int|
                0 <= i < f && moves(locs, gaps, i) ==> a != #[trigger] moved_loc(locs, gaps, i).addr)
                ==> #[trigger] slots[a - 1] == o.slots()[a - 1]
        &&& forall|i: int|
            #![trigger moved_loc(locs, gaps, i)]
            0 <= i < f && moves(locs, gaps, i) ==> slots[moved_loc(locs, gaps, i).addr - 1]
                == o.slots()[locs[i].addr - 1]
    }
}

/// Some pin has a bit left.
pub open spec fn pinned_by_any(pins: Seq<PinModel>) -> bool {
    exists|i: int, b: int|
        0 <= i < pins.len() && 0 <= b < pins[i].bits.len() && #[trigger] pins[i].bits[b] != 0
}


/// What moving the blocks of a unit came to.
#[derive(Clone, Copy, Debug)]
pub struct Moved {
    pub blocks: u64,
    pub bytes: u64,
    pub room: u64,
}

/// A number, or the largest that there is.
pub open spec fn capped(n: nat) -> u64 {
    if n <= u64::MAX {
        n as u64
    } else {
        u64::MAX
    }
}

impl<C: Crypto> Engine<C> {
    /// A slot that the head of a unit refers to is in use.
    proof fn lemma_head_slot_used(&self, k: Seq<u8>, f: int)
        requires
            self.inv(),
            self.ids@.contains_key(k),
            self.head_of(k).content is Some,
            0 <= f < self.head_of(k).stream().locations.len(),
        ensures
            self.slot_used(self.head_of(k).stream().locations[f].addr),
            self.head_of(k).stream().locations[f].addr <= self.slots().len(),
    {
        let m = self.head_of(k);
        let a = m.stream().locations[f].addr;
        assert(loc_in(m.content->Some_0.locations, a));
        assert(in_chain(self.recs(), self.ids@[k], a));
        assert(in_units(self.ids@, self.recs(), a));
        assert(live(self.ids@, self.recs(), k, f) == a);
    }

    /// The gaps of this state.
    fn find_gaps(&self) -> (r: (Vec<u64>, Vec<u64>))
        requires
            self.inv(),
            self.slots().len() <= u64::MAX,
        ensures
            r.0@.len() == self.gaps().len(),
            r.1@.len() == self.gaps().len(),
            forall|i: int|
                0 <= i < r.0@.len() ==> (#[trigger] r.0@[i], r.1@[i] as nat) == self.gaps()[i],
    {
        let free: Vec<u64> = self.find_free();
        let n: usize = free.len();
        let mut rooms: Vec<u64> = Vec::new();
        let mut i: usize = 0;
        proof {
            self.lemma_free_slots(self.slots().len());
        }
        while i < n
            invariant
                free@ == self.free(),
                n == free@.len(),
                i <= n,
                rooms@.len() == i,
                forall|k: int|
                    0 <= k < n ==> 1 <= #[trigger] free@[k] <= self.slots().len(),
                forall|k: int|
                    0 <= k < i ==> #[trigger] rooms@[k] as nat == room_of(
                        self.slots()[free@[k] - 1].len(),
                    ),
            decreases n - i,
        {
            let len: usize = match self.disk.blocks.get(free[i]) {
                None => 0,
                Some(b) => b.len(),
            };
            let short: u64 = if len as u64 > u32::MAX as u64 {
                u32::MAX as u64
            } else {
                len as u64
            };
            rooms.push(round_up_block(short));
            i = i + 1;
        }
        (free, rooms)
    }
    /// Copies the blocks of a head down into free slots, as far as those have the
    /// room and lie before them, and gives the new locations.
    fn move_blocks(&mut self, uuid: &Uuid, sm: &StreamMeta) -> (r: (Vec<BlockLoc>, Moved))
        requires
            old(self).inv(),
            old(self).ids@.contains_key(uuid@),
            old(self).head_of(uuid@).content == Some(sm@),
        ensures
            final(self).inv(),
            old(self).recoverable() ==> final(self).recoverable(),
            *final(self) == (Engine {
                disk: (Container { blocks: final(self).disk.blocks, ..old(self).disk }),
                snap: final(self).snap,
                ..*old(self)
            }),
            r.0@ == moved_locs(sm@.locations, old(self).gaps()),
            r.1.blocks == capped(
                moved_count(sm@.locations, old(self).gaps(), sm@.locations.len()),
            ),
            r.1.bytes == capped(
                moved_bytes(sm@.locations, old(self).gaps(), sm@.locations.len()),
            ),
            r.1.room == capped(moved_room(sm@.locations, old(self).gaps(), sm@.locations.len())),
            Self::slots_moved(
                old(self),
                final(self).slots(),
                old(self).head_of(uuid@),
                sm@.locations.len(),
            ),
            final(self).snap@.len() == old(self).snap@.len(),
            forall|b: u64| #[trigger]
                in_heap(old(self).snap@, b) && old(self).slot_used(b) ==> final(self).snap@[b - 1]
                    == old(self).snap@[b - 1],
            moved_count(sm@.locations, old(self).gaps(), sm@.locations.len()) == 0
                ==> *final(self) == *old(self),
    {
        let ghost o = *self;
        let ghost k = uuid@;
        let ghost m = o.head_of(k);
        let ghost locs = sm@.locations;
        let slots: usize = self.disk.blocks.len();
        let (found, sizes): (Vec<u64>, Vec<u64>) = self.find_gaps();
        let mut free: Vec<u64> = found;
        let mut rooms: Vec<u64> = sizes;
        let ghost gaps = o.gaps();
        proof {
            o.lemma_gaps();
        }
        let n: usize = sm.locations.len();
        let mut out: Vec<BlockLoc> = Vec::new();
        let mut got: Moved = Moved { blocks: 0, bytes: 0, room: 0 };
        let mut f: usize = 0;
        while f < n
            invariant
                o == *old(self),
                o.inv(),
                k == uuid@,
                o.ids@.contains_key(k),
                m == o.head_of(k),
                m.content == Some(sm@),
                locs == sm@.locations,
                n == locs.len(),
                f <= n,
                gaps == o.gaps(),
                o.slots().len() == slots,
                gaps_ascend(gaps),
                forall|i: int|
                    0 <= i < gaps.len() ==> 1 <= (#[trigger] gaps[i]).0 <= o.slots().len()
                        && !o.slot_used(gaps[i].0),
                free@.len() == gaps_left(locs, gaps, f as nat).len(),
                rooms@.len() == free@.len(),
                forall|i: int|
                    0 <= i < free@.len() ==> (#[trigger] free@[i], rooms@[i] as nat) == gaps_left(
                        locs,
                        gaps,
                        f as nat,
                    )[i],
                self.inv(),
                o.recoverable() ==> self.recoverable(),
                *self == (Engine {
                    disk: (Container { blocks: self.disk.blocks, ..o.disk }),
                    snap: self.snap,
                    ..o
                }),
                moved_count(locs, gaps, f as nat) == 0 ==> *self == o,
                out@.len() == f,
                forall|i: int| 0 <= i < f ==> #[trigger] out@[i] == moved_loc(locs, gaps, i),
                got.blocks == capped(moved_count(locs, gaps, f as nat)),
                got.bytes == capped(moved_bytes(locs, gaps, f as nat)),
                got.room == capped(moved_room(locs, gaps, f as nat)),
                Self::slots_moved(&o, self.slots(), m, f as nat),
                self.snap@.len() == o.snap@.len(),
                forall|b: u64| #[trigger]
                    in_heap(o.snap@, b) && o.slot_used(b) ==> self.snap@[b - 1] == o.snap@[b - 1],
            decreases n - f,
        {
            let loc: BlockLoc = sm.locations[f];
            let ghost gf = f as int;
            let ghost before = self.slots();
            let ghost left = gaps_left(locs, gaps, f as nat);
            match pick_gap(loc, &free, &rooms, Ghost(left)) {
                Some(j) => {
                    let to: u64 = free[j];
                    proof {
                        assert(moves(locs, gaps, gf));
                        assert(moved_loc(locs, gaps, gf) == (BlockLoc { addr: to, len: loc.len }));
                        o.lemma_head_slot_used(k, gf);
                        lemma_moved_into(locs, gaps, gf);
                        assert(!o.slot_used(to));
                        assert forall|i: int| 0 <= i < gf && moves(locs, gaps, i) implies (
                        #[trigger] moved_loc(locs, gaps, i).addr) != loc.addr && moved_loc(
                            locs,
                            gaps,
                            i,
                        ).addr != to by {
                            lemma_moved_apart(locs, gaps, i, gf);
                            lemma_moved_into(locs, gaps, i);
                        }
                        assert(before[loc.addr - 1] == o.slots()[loc.addr - 1]);
                    }
                    match self.disk.blocks.get(loc.addr) {
                        None => {},
                        Some(bytes) => {
                            self.reuse_slot(to, bytes);
                        },
                    }
                    proof {
                        assert(self.slots() == before.update(to - 1, o.slots()[loc.addr - 1]));
                        assert forall|a: u64|
                            in_heap(o.slots(), a) && (forall|i: int|
                                0 <= i < gf + 1 && moves(locs, gaps, i) ==> a
                                    != #[trigger] moved_loc(locs, gaps, i).addr) implies (
                        #[trigger] self.slots()[a - 1]) == o.slots()[a - 1] by {
                            assert(a != moved_loc(locs, gaps, gf).addr);
                            assert(before[a - 1] == o.slots()[a - 1]);
                        }
                        assert forall|i: int|
                            #![trigger moved_loc(locs, gaps, i)]
                            0 <= i < gf + 1 && moves(locs, gaps, i) implies self.slots()[moved_loc(
                            locs,
                            gaps,
                            i,
                        ).addr - 1] == o.slots()[locs[i].addr - 1] by {
                            if i < gf {
                                assert(moved_loc(locs, gaps, i).addr != to);
                                lemma_moved_into(locs, gaps, i);
                            }
                        }
                    }
                    out.push(BlockLoc { addr: to, len: loc.len });
                    got = Moved {
                        blocks: got.blocks.saturating_add(1),
                        bytes: got.bytes.saturating_add(loc.len as u64),
                        room: got.room.saturating_add(round_up_block(loc.len as u64)),
                    };
                    let ghost fs = free@;
                    let ghost rs = rooms@;
                    let taken: u64 = free.remove(j);
                    let used: u64 = rooms.remove(j);
                    proof {
                        assert(gaps_left(locs, gaps, (gf + 1) as nat) == left.remove(j as int));
                        assert forall|i: int| 0 <= i < free@.len() implies (
                            #[trigger] free@[i],
                            rooms@[i] as nat,
                        ) == left.remove(j as int)[i] by {
                            if i < j {
                                assert((fs[i], rs[i] as nat) == left[i]);
                            } else {
                                assert((fs[i + 1], rs[i + 1] as nat) == left[i + 1]);
                            }
                        }
                    }
                },
                None => {
                    out.push(loc);
                    proof {
                        assert(!moves(locs, gaps, gf));
                        assert(Self::slots_moved(&o, self.slots(), m, (gf + 1) as nat)) by {
                            assert forall|a: u64|
                                in_heap(o.slots(), a) && (forall|i: int|
                                    0 <= i < gf + 1 && moves(locs, gaps, i) ==> a
                                        != #[trigger] moved_loc(locs, gaps, i).addr) implies (
                            #[trigger] self.slots()[a - 1]) == o.slots()[a - 1] by {
                                assert(before[a - 1] == o.slots()[a - 1]);
                            }
                        }
                    }
                },
            }
            f = f + 1;
        }
        proof {
            assert(out@ =~= moved_locs(locs, gaps));
        }
        (out, got)
    }
}

/// The gap that a block moves into.
fn pick_gap(loc: BlockLoc, free: &Vec<u64>, rooms: &Vec<u64>, Ghost(left): Ghost<Seq<(u64, nat)>>) -> (r:
    Option<usize>)
    requires
        free@.len() == left.len(),
        rooms@.len() == left.len(),
        forall|i: int| 0 <= i < left.len() ==> (#[trigger] free@[i], rooms@[i] as nat) == left[i],
    ensures
        r is None <==> gap_for(loc, left) is None,
        r is Some ==> gap_for(loc, left) == Some(r->Some_0 as int) && r->Some_0 < left.len(),
{
    if is_hole(loc) || loc.len < 4096 {
        return None;
    }
    let n: usize = free.len();
    let mut i: usize = 0;
    while i < n
        invariant
            n == left.len(),
            free@.len() == n,
            rooms@.len() == n,
            i <= n,
            loc != hole(),
            loc.len >= 4096,
            forall|k: int| 0 <= k < n ==> (#[trigger] free@[k], rooms@[k] as nat) == left[k],
            forall|k: int| 0 <= k < i ==> #[trigger] left[k].1 < loc.len,
        decreases n - i,
    {
        proof {
            assert((free@[i as int], rooms@[i as int] as nat) == left[i as int]);
        }
        if loc.len as u64 <= rooms[i] {
            proof {
                lemma_fit_is_first(left, loc.len as nat, i as int, n as nat);
            }
            if free[i] < loc.addr {
                return Some(i);
            }
            return None;
        }
        i = i + 1;
    }
    proof {
        lemma_first_fit(left, loc.len as nat, n as nat);
    }
    None
}


impl<C: Crypto> Engine<C> {
    /// The blocks of head `m` moved down into free slots.
    pub open spec fn compact_step(o: &Self, e: &Self, uuid: Uuid, m: RecordModel) -> bool {
        &&& e.recs() == o.recs().push(o.moved_record(m))
        &&& e.recs().len() <= u64::MAX
        &&& e.ids@ == o.ids@.insert(uuid@, e.recs().len() as u64)
        &&& Self::slots_moved(o, e.slots(), m, m.stream().locations.len())
        &&& e.snap@.len() == o.snap@.len()
        &&& forall|b: u64| #[trigger]
            in_heap(o.snap@, b) && o.slot_used(b) ==> e.snap@[b - 1] == o.snap@[b - 1]
        &&& *e == (Engine {
            disk: (Container { records: e.disk.records, blocks: e.disk.blocks, ..o.disk }),
            ids: e.ids,
            snap: e.snap,
            ..*o
        })
    }

    /// The head of a unit whose blocks will move, if any of them can.
    pub open spec fn movable(&self, uuid: Uuid) -> bool {
        match self.known_head(uuid) {
            Ok(Some((_, m))) => Self::may_move(m) && moved_count(
                m.stream().locations,
                self.gaps(),
                m.stream().locations.len(),
            ) > 0,
            _ => false,
        }
    }

    proof fn lemma_moved_places(&self, now: &Self, uuid: Uuid, m: RecordModel)
        requires
            self.inv(),
            now.tail() == self.tail(),
            now.disk.committed == self.disk.committed,
            self.ids@.contains_key(uuid@),
            self.head_of(uuid@) == m,
            m.content is Some,
            self.slots().len() <= u64::MAX,
        ensures
            places_free(
                self.ids@,
                self.recs(),
                uuid@,
                self.moved_record(m),
                self.slots().len(),
            ),
            now.recoverable() ==> forall|p: int|
                #![trigger place(self.moved_record(m), p)]
                now.dirty@.contains(place(self.moved_record(m), p)) ==> place(
                    self.moved_record(m),
                    p,
                ) == live(self.ids@, self.recs(), uuid@, p),
    {
        let k = uuid@;
        let locs = m.stream().locations;
        let gaps = self.gaps();
        let r1 = self.moved_record(m);
        self.lemma_gaps();
        assert forall|p: int| #[trigger] place(r1, p) == live(self.ids@, self.recs(), k, p) || (0
            <= p < locs.len() && moves(locs, gaps, p) && place(r1, p) == moved_loc(
            locs,
            gaps,
            p,
        ).addr && 1 <= place(r1, p) <= self.slots().len() && !self.slot_used(place(r1, p))) by {
            if 0 <= p < locs.len() {
                assert(r1.stream().locations[p] == moved_loc(locs, gaps, p));
                if moves(locs, gaps, p) {
                    lemma_moved_into(locs, gaps, p);
                }
            }
        }
        assert forall|l: Seq<u8>, q: int| #[trigger] live(self.ids@, self.recs(), l, q) != 0 implies
            self.slot_used(live(self.ids@, self.recs(), l, q)) by {
            let h = self.head_of(l);
            let a = live(self.ids@, self.recs(), l, q);
            if q == -1 {
                assert(h.meta->Some_0.locations[0].addr == a);
                assert(loc_in(h.meta->Some_0.locations, a));
            } else {
                assert(h.content->Some_0.locations[q].addr == a);
                assert(loc_in(h.content->Some_0.locations, a));
            }
            assert(in_chain(self.recs(), self.ids@[l], a));
            assert(in_units(self.ids@, self.recs(), a));
        }
        assert forall|p: int, q: int|
            #![trigger place(r1, p), place(r1, q)]
            place(r1, p) != 0 && place(r1, p) == place(r1, q) implies p == q by {
            let x = live(self.ids@, self.recs(), k, p);
            let y = live(self.ids@, self.recs(), k, q);
            assert(place(r1, p) == x || moves(locs, gaps, p));
            assert(place(r1, q) == y || moves(locs, gaps, q));
            if place(r1, p) == x && place(r1, q) == y {
            } else if place(r1, p) == x {
                assert(self.slot_used(x));
            } else if place(r1, q) == y {
                assert(self.slot_used(y));
            } else if p < q {
                lemma_moved_apart(locs, gaps, p, q);
            } else if q < p {
                lemma_moved_apart(locs, gaps, q, p);
            }
        }
        assert forall|p: int| #[trigger]
            place(r1, p) == 0 || place(r1, p) == live(self.ids@, self.recs(), k, p) || place(r1, p)
                <= self.slots().len() && forall|l: Seq<u8>, q: int| #[trigger]
                live(self.ids@, self.recs(), l, q) != place(r1, p) by {
            if place(r1, p) != 0 && place(r1, p) != live(self.ids@, self.recs(), k, p) {
                let a = place(r1, p);
                assert(!self.slot_used(a));
                assert forall|l: Seq<u8>, q: int| #[trigger] live(self.ids@, self.recs(), l, q)
                    != a by {}
            }
        }
        if now.recoverable() {
            assert forall|p: int|
                #![trigger place(r1, p)]
                now.dirty@.contains(place(r1, p)) implies place(r1, p) == live(
                self.ids@,
                self.recs(),
                k,
                p,
            ) by {
                assert(self.slot_used(place(r1, p)));
            }
        }
    }

    /// Moves the blocks of a unit, if it may move and there is room before them.
    fn compact_unit(&mut self, uuid: &Uuid) -> (r: Result<Option<Moved>, Error>)
        requires
            old(self).inv(),
        ensures
            final(self).inv(),
            old(self).recoverable() ==> final(self).recoverable(),
            match old(self).known_head(*uuid) {
                Err(e) => r == Err::<Option<Moved>, Error>(e) && *final(self) == *old(self),
                Ok(h) => if old(self).movable(*uuid) {
                    let m = h->Some_0.1;
                    let locs = m.stream().locations;
                    &&& r is Ok
                    &&& r->Ok_0 is Some
                    &&& r->Ok_0->Some_0.blocks == capped(
                        moved_count(locs, old(self).gaps(), locs.len()),
                    )
                    &&& r->Ok_0->Some_0.bytes == capped(
                        moved_bytes(locs, old(self).gaps(), locs.len()),
                    )
                    &&& r->Ok_0->Some_0.room == capped(
                        moved_room(locs, old(self).gaps(), locs.len()),
                    )
                    &&& Self::compact_step(old(self), final(self), *uuid, m)
                } else {
                    r == Ok::<Option<Moved>, Error>(None) && *final(self) == *old(self)
                },
            },
    {
        let ghost o = *self;
        let slots: usize = self.disk.blocks.len();
        let (addr, rec): (u64, UnitRecord) = match self.find_known(uuid) {
            Err(e) => {
                return Err(e);
            },
            Ok(None) => {
                return Ok(None);
            },
            Ok(Some(x)) => x,
        };
        let ghost m = rec@;
        proof {
            assert(o.ids@.contains_key(uuid@));
            assert(o.head_of(uuid@) == m);
        }
        let sm: &StreamMeta = match &rec.content {
            None => {
                return Ok(None);
            },
            Some(sm) => sm,
        };
        if sm.locations.len() == 0 || rec.parent.is_some() || any_pinned(&sm.pins) {
            return Ok(None);
        }
        let (locs, got): (Vec<BlockLoc>, Moved) = self.move_blocks(uuid, sm);
        if got.blocks == 0 {
            return Ok(None);
        }
        let ghost mid = *self;
        let mut new_sm: StreamMeta = sm.clone();
        new_sm.locations = locs;
        let mut out: UnitRecord = rec.clone();
        out.content = Some(new_sm);
        out.superseded = Vec::new();
        proof {
            assert(out@.content->Some_0 =~= o.moved_record(m).content->Some_0);
            assert(out@.superseded =~= Seq::<u64>::empty());
            assert(out@ =~= o.moved_record(m));
            assert(payload_of(out@) == payload_of(m));
            o.lemma_moved_places(&mid, *uuid, m);
        }
        match self.install_moved(out) {
            Err(e) => Err(e),
            Ok(()) => Ok(Some(got)),
        }
    }
}

fn any_pinned(pins: &Vec<crate::unit::CommitBitmap>) -> (r: bool)
    ensures
        r == pinned_by_any(crate::unit::pins_view(pins@)),
{
    let ghost all = crate::unit::pins_view(pins@);
    let n: usize = pins.len();
    let mut i: usize = 0;
    while i < n
        invariant
            all == crate::unit::pins_view(pins@),
            n == pins@.len(),
            i <= n,
            forall|x: int, b: int|
                0 <= x < i && 0 <= b < all[x].bits.len() ==> #[trigger] all[x].bits[b] == 0,
        decreases n - i,
    {
        let m: usize = pins[i].bits.len();
        let mut j: usize = 0;
        while j < m
            invariant
                all == crate::unit::pins_view(pins@),
                n == pins@.len(),
                i < n,
                m == all[i as int].bits.len(),
                j <= m,
                forall|x: int, b: int|
                    0 <= x < i && 0 <= b < all[x].bits.len() ==> #[trigger] all[x].bits[b] == 0,
                forall|b: int| 0 <= b < j ==> #[trigger] all[i as int].bits[b] == 0,
            decreases m - j,
        {
            if pins[i].bits[j] != 0 {
                proof {
                    assert(all[i as int].bits[j as int] != 0);
                }
                return true;
            }
            j = j + 1;
        }
        i = i + 1;
    }
    false
}


/// What a compaction did. Numbers stop at the largest there is.
#[derive(Clone, Copy, Debug, PartialEq, Eq)]
pub struct DefragReport {
    pub units_compacted: u64,
    pub blocks_moved: u64,
    pub bytes_relocated: u64,
    pub bytes_reclaimed_estimate: u64,
}

impl Default for DefragReport {
    fn default() -> (r: Self)
        ensures
            r == empty_report(),
    {
        DefragReport {
            units_compacted: 0,
            blocks_moved: 0,
            bytes_relocated: 0,
            bytes_reclaimed_estimate: 0,
        }
    }
}

/// A report of nothing.
pub open spec fn empty_report() -> DefragReport {
    DefragReport {
        units_compacted: 0,
        blocks_moved: 0,
        bytes_relocated: 0,
        bytes_reclaimed_estimate: 0,
    }
}

/// A report with one more unit in it; `whole` says whether its move was
/// committed.
pub open spec fn reported(r: DefragReport, blocks: nat, bytes: nat, room: nat, whole: bool) -> DefragReport {
    DefragReport {
        units_compacted: if whole {
            capped(r.units_compacted as nat + 1)
        } else {
            r.units_compacted
        },
        blocks_moved: capped(r.blocks_moved as nat + capped(blocks) as nat),
        bytes_relocated: capped(r.bytes_relocated as nat + capped(bytes) as nat),
        bytes_reclaimed_estimate: if whole {
            capped(r.bytes_reclaimed_estimate as nat + capped(room) as nat)
        } else {
            r.bytes_reclaimed_estimate
        },
    }
}

/// The units behind keys that are text, in the order of the keys.
pub open spec fn text_units(pairs: Seq<(Seq<u8>, Uuid)>) -> Seq<Uuid>
    decreases pairs.len(),
{
    if pairs.len() == 0 {
        Seq::empty()
    } else {
        let p = text_units(pairs.drop_last());
        if valid_utf8(pairs.last().0) {
            p.push(pairs.last().1)
        } else {
            p
        }
    }
}

impl<C: Crypto> Engine<C> {
    /// Unit `uuid` was compacted, and what happened committed, or it was passed
    /// over.
    pub open spec fn defrag_step(a: &Self, b: &Self, uuid: Uuid) -> bool {
        &&& a.known_head(uuid) is Ok
        &&& if a.movable(uuid) {
            exists|mid: Self|
                {
                    &&& #[trigger] Self::compact_step(
                        a,
                        &mid,
                        uuid,
                        a.known_head(uuid)->Ok_0->Some_0.1,
                    )
                    &&& if a.suppress_commit {
                        *b == mid
                    } else {
                        Self::published(&mid, b)
                    }
                }
        } else {
            *b == *a
        }
    }

    /// The report with unit `uuid`, as state `a` has it, in it.
    pub open spec fn report_unit(a: &Self, r: DefragReport, uuid: Uuid, whole: bool) -> DefragReport {
        if a.movable(uuid) {
            let locs = a.known_head(uuid)->Ok_0->Some_0.1.stream().locations;
            reported(
                r,
                moved_count(locs, a.gaps(), locs.len()),
                moved_bytes(locs, a.gaps(), locs.len()),
                moved_room(locs, a.gaps(), locs.len()),
                whole,
            )
        } else {
            r
        }
    }

    /// The report of the first `n` units.
    pub open spec fn report_of(t: Seq<Self>, units: Seq<Uuid>, n: nat) -> DefragReport
        decreases n,
    {
        if n == 0 {
            empty_report()
        } else {
            Self::report_unit(
                &t[n - 1],
                Self::report_of(t, units, (n - 1) as nat),
                units[n - 1],
                true,
            )
        }
    }

    /// The states that compacting the first `n` units goes through.
    pub open spec fn defrag_trace(t: Seq<Self>, units: Seq<Uuid>, n: nat) -> bool {
        &&& t.len() == n + 1
        &&& forall|i: int|
            0 <= i < t.len() ==> (#[trigger] t[i]).inv() && t[i].slots().len() <= u64::MAX
        &&& forall|i: int|
            #![trigger t[i + 1]]
            0 <= i < n ==> Self::defrag_step(&t[i], &t[i + 1], units[i])
    }

    /// What compacting all units does: all of them are compacted, or a record
    /// could not be read. In a simulated crash it stops at the first unit that
    /// moved, before the commit.
    pub open spec fn defragged(
        o: &Self,
        e: &Self,
        simulate: bool,
        t: Seq<Self>,
        n: nat,
        r: Result<DefragReport, Error>,
    ) -> bool {
        let units = text_units(o.keys.pairs());
        &&& n <= units.len()
        &&& Self::defrag_trace(t, units, n)
        &&& t[0] == *o
        &&& simulate ==> forall|i: int|
            0 <= i < n ==> !(#[trigger] t[i]).movable(units[i])
        &&& match r {
            Err(x) => n < units.len() && t[n as int] == *e && t[n as int].known_head(units[n as int])
                == Err::<crate::import::KnownHead, Error>(x),
            Ok(rep) => if simulate && n < units.len() {
                &&& t[n as int].movable(units[n as int])
                &&& Self::compact_step(
                    &t[n as int],
                    e,
                    units[n as int],
                    t[n as int].known_head(units[n as int])->Ok_0->Some_0.1,
                )
                &&& rep == Self::report_unit(
                    &t[n as int],
                    Self::report_of(t, units, n),
                    units[n as int],
                    false,
                )
            } else {
                n == units.len() && t[n as int] == *e && rep == Self::report_of(t, units, n)
            },
        }
    }

    fn collect_units(&self) -> (r: Vec<Uuid>)
        ensures
            r@ == text_units(self.keys.pairs()),
    {
        let ghost pairs = self.keys.pairs();
        let n: usize = self.keys.len();
        let mut out: Vec<Uuid> = Vec::new();
        let mut i: usize = 0;
        proof {
            assert(pairs.take(0) =~= Seq::empty());
            assert(out@ =~= Seq::<Uuid>::empty());
        }
        while i < n
            invariant
                pairs == self.keys.pairs(),
                n == pairs.len(),
                i <= n,
                out@ == text_units(pairs.take(i as int)),
            decreases n - i,
        {
            let (k, u): (Vec<u8>, Uuid) = self.keys.pair_at(i);
            proof {
                assert(pairs.take(i + 1).drop_last() =~= pairs.take(i as int));
                assert(pairs.take(i + 1).last() == pairs[i as int]);
                assert(k@ == pairs[i as int].0);
            }
            if string_from_utf8(k).is_some() {
                out.push(u);
            }
            i = i + 1;
        }
        proof {
            assert(pairs.take(n as int) =~= pairs);
        }
        out
    }

    fn add_to_report(r: DefragReport, got: Moved, whole: bool) -> (out: DefragReport)
        ensures
            forall|blocks: nat, bytes: nat, room: nat|
                got.blocks == capped(blocks) && got.bytes == capped(bytes) && got.room == capped(
                    room,
                ) ==> out == #[trigger] reported(r, blocks, bytes, room, whole),
    {
        DefragReport {
            units_compacted: if whole {
                r.units_compacted.saturating_add(1)
            } else {
                r.units_compacted
            },
            blocks_moved: r.blocks_moved.saturating_add(got.blocks),
            bytes_relocated: r.bytes_relocated.saturating_add(got.bytes),
            bytes_reclaimed_estimate: if whole {
                r.bytes_reclaimed_estimate.saturating_add(got.room)
            } else {
                r.bytes_reclaimed_estimate
            },
        }
    }

    /// Compacts all units that may move, one commit each.
    fn defrag_units(&mut self, simulate: bool) -> (r: Result<DefragReport, Error>)
        requires
            old(self).inv(),
            old(self).header.commit_seq + old(self).keys.pairs().len() < u64::MAX,
        ensures
            final(self).inv(),
            old(self).recoverable() ==> final(self).recoverable(),
            exists|t: Seq<Self>, n: nat| #[trigger]
                Self::defragged(old(self), final(self), simulate, t, n, r),
    {
        let ghost o = *self;
        let units: Vec<Uuid> = self.collect_units();
        let total: usize = units.len();
        let mut report: DefragReport = DefragReport::default();
        let ghost mut t: Seq<Self> = seq![*self];
        let start: usize = self.disk.blocks.len();
        proof {
            assert(start == self.slots().len());
            lemma_text_units(o.keys.pairs());
        }
        let mut i: usize = 0;
        while i < total
            invariant
                o == *old(self),
                units@ == text_units(o.keys.pairs()),
                total == units@.len(),
                i <= total,
                self.inv(),
                o.recoverable() ==> self.recoverable(),
                total <= o.keys.pairs().len(),
                o.header.commit_seq + o.keys.pairs().len() < u64::MAX,
                self.header.commit_seq <= o.header.commit_seq + i,
                self.suppress_commit == o.suppress_commit,
                t[0] == o,
                t[i as int] == *self,
                Self::defrag_trace(t, units@, i as nat),
                simulate ==> forall|j: int| 0 <= j < i ==> !(#[trigger] t[j]).movable(units@[j]),
                report == Self::report_of(t, units@, i as nat),
            decreases total - i,
        {
            let ghost a = *self;
            let uuid: Uuid = units[i];
            let moved: Option<Moved> = match self.compact_unit(&uuid) {
                Err(e) => {
                    proof {
                        assert(Self::defragged(&o, &*self, simulate, t, i as nat, Err(e)));
                    }
                    return Err(e);
                },
                Ok(m) => m,
            };
            match moved {
                None => {},
                Some(got) => {
                    let ghost mid = *self;
                    if simulate {
                        report = Self::add_to_report(report, got, false);
                        proof {
                            assert(Self::defragged(&o, &*self, simulate, t, i as nat, Ok(report)));
                        }
                        return Ok(report);
                    }
                    self.publish();
                    report = Self::add_to_report(report, got, true);
                    proof {
                        assert(Self::compact_step(
                            &a,
                            &mid,
                            uuid,
                            a.known_head(uuid)->Ok_0->Some_0.1,
                        ));
                    }
                },
            }
            let room: usize = self.disk.blocks.len();
            proof {
                assert(Self::defrag_step(&a, &*self, uuid));
                let t0 = t;
                t = t.push(*self);
                assert forall|j: int| 0 <= j < t.len() implies (#[trigger] t[j]).inv()
                    && t[j].slots().len() <= u64::MAX by {
                    if j <= i {
                        assert(t[j] == t0[j]);
                    } else {
                        assert(room == self.slots().len());
                    }
                }
                assert forall|j: int|
                    #![trigger t[j + 1]]
                    0 <= j < i + 1 implies Self::defrag_step(&t[j], &t[j + 1], units@[j]) by {
                    if j < i {
                        assert(t[j + 1] == t0[j + 1]);
                        assert(t[j] == t0[j]);
                    }
                }
                Self::lemma_report(t0, t, units@, i as nat);
                assert forall|j: int| simulate && 0 <= j < i + 1 implies !(
                #[trigger] t[j]).movable(units@[j]) by {
                    if j < i {
                        assert(t[j] == t0[j]);
                    }
                }
            }
            i = i + 1;
        }
        proof {
            assert(Self::defragged(&o, &*self, simulate, t, total as nat, Ok(report)));
        }
        Ok(report)
    }

    proof fn lemma_report(t0: Seq<Self>, t: Seq<Self>, units: Seq<Uuid>, n: nat)
        requires
            n < t0.len(),
            t0.len() <= t.len(),
            forall|i: int| 0 <= i < t0.len() ==> t[i] == t0[i],
        ensures
            Self::report_of(t, units, n) == Self::report_of(t0, units, n),
        decreases n,
    {
        if n > 0 {
            Self::lemma_report(t0, t, units, (n - 1) as nat);
        }
    }

    /// The commits that a compaction takes can be counted.
    pub open spec fn defrag_fits(&self) -> bool {
        self.header.commit_seq + self.keys.pairs().len() + 1 < u64::MAX
    }

    fn defrag_inner(&mut self, simulate: bool) -> (r: Result<DefragReport, Error>)
        requires
            old(self).inv(),
            old(self).header.commit_seq < u64::MAX,
            old(self).checkpoint_fits(),
            old(self).defrag_fits(),
        ensures
            final(self).inv(),
            old(self).recoverable() ==> final(self).recoverable(),
            Self::defrag_done(old(self), final(self), simulate, r),
    {
        match self.checkpoint() {
            Err(e) => {
                return Err(e);
            },
            Ok(()) => {},
        }
        let ghost m = *self;
        proof {
            assert(Self::checkpointed(old(self), &m, Ok(())));
            crate::catalog::lemma_map_of_canonical(old(self).keys.pairs(), m.keys.pairs());
        }
        let r: Result<DefragReport, Error> = self.defrag_units(simulate);
        proof {
            let (t, n) = choose|t: Seq<Self>, n: nat| #[trigger]
                Self::defragged(&m, &*self, simulate, t, n, r);
            assert(Self::defragged(&m, &*self, simulate, t, n, r));
        }
        r
    }

    /// What a compaction does: a checkpoint, then the units one by one.
    pub open spec fn defrag_done(
        o: &Self,
        e: &Self,
        simulate: bool,
        r: Result<DefragReport, Error>,
    ) -> bool {
        ||| r is Err && Self::checkpointed(o, e, Err(r->Err_0))
        ||| exists|m: Self, t: Seq<Self>, n: nat|
            Self::checkpointed(o, &m, Ok(())) && #[trigger] Self::defragged(
                &m,
                e,
                simulate,
                t,
                n,
                r,
            )
    }

    /// Moves blocks down into slots that nothing refers to any more. Units with
    /// earlier versions, or with pins, stay where they are.
    pub fn defrag(&mut self) -> (r: Result<DefragReport, Error>)
        requires
            old(self).inv(),
            old(self).header.commit_seq < u64::MAX,
            old(self).checkpoint_fits(),
            old(self).defrag_fits(),
        ensures
            final(self).inv(),
            old(self).recoverable() ==> final(self).recoverable(),
            Self::defrag_done(old(self), final(self), false, r),
    {
        self.defrag_inner(false)
    }

    /// A compaction that stops before its first commit.
    pub fn defrag_simulate_crash_before_commit(&mut self) -> (r: Result<DefragReport, Error>)
        requires
            old(self).inv(),
            old(self).header.commit_seq < u64::MAX,
            old(self).checkpoint_fits(),
            old(self).defrag_fits(),
        ensures
            final(self).inv(),
            old(self).recoverable() ==> final(self).recoverable(),
            Self::defrag_done(old(self), final(self), true, r),
    {
        self.defrag_inner(true)
    }
}

proof fn lemma_text_units(pairs: Seq<(Seq<u8>, Uuid)>)
    ensures
        text_units(pairs).len() <= pairs.len(),
    decreases pairs.len(),
{
    if pairs.len() > 0 {
        lemma_text_units(pairs.drop_last());
    }
}

impl<C: Crypto> Engine<C> {
    /// What the head of a unit holds is in its slots after a compaction, those of
    /// the unit that moved included.
    pub proof fn lemma_compaction_slots(o: &Self, e: &Self, uuid: Uuid, k: Seq<u8>)
        requires
            o.inv(),
            o.slots().len() <= u64::MAX,
            o.movable(uuid),
            Self::compact_step(o, e, uuid, o.known_head(uuid)->Ok_0->Some_0.1),
            o.ids@.contains_key(k),
        ensures
            e.ids@.contains_key(k),
            e.head_of(k).stream().locations.len() == o.head_of(k).stream().locations.len(),
            forall|f: int|
                0 <= f < o.head_of(k).stream().locations.len() ==> (#[trigger] e.head_of(
                    k,
                ).stream().locations[f] == hole()) == (o.head_of(k).stream().locations[f] == hole())
                    && stored_at(e.slots(), e.head_of(k).stream().locations[f]) == stored_at(
                    o.slots(),
                    o.head_of(k).stream().locations[f],
                ),
            e.metadata(e.head_of(k)) == o.metadata(o.head_of(k)),
    {
        let m = o.known_head(uuid)->Ok_0->Some_0.1;
        let locs = m.stream().locations;
        let gaps = o.gaps();
        let h = o.head_of(k);
        let sm = h.stream();
        o.lemma_gaps();
        assert forall|a: u64| in_heap(o.slots(), a) && o.slot_used(a) implies #[trigger] e.slots()[a
            - 1] == o.slots()[a - 1] by {
            assert forall|i: int| 0 <= i < locs.len() && moves(locs, gaps, i) implies a
                != #[trigger] moved_loc(locs, gaps, i).addr by {
                lemma_moved_into(locs, gaps, i);
            }
        }
        if k != uuid@ {
            assert(e.recs()[o.ids@[k] - 1] == o.recs()[o.ids@[k] - 1]);
        } else {
            assert(e.head_of(k) == o.moved_record(m));
            assert(h == m);
        }
        assert forall|f: int| 0 <= f < sm.locations.len() implies (#[trigger] e.head_of(
            k,
        ).stream().locations[f] == hole()) == (sm.locations[f] == hole()) && stored_at(
            e.slots(),
            e.head_of(k).stream().locations[f],
        ) == stored_at(o.slots(), sm.locations[f]) by {
            if sm.locations[f].addr != 0 {
                o.lemma_head_slot_used(k, f);
            }
            if k == uuid@ {
                assert(e.head_of(k).stream().locations[f] == moved_loc(locs, gaps, f));
                if moves(locs, gaps, f) {
                    lemma_moved_into(locs, gaps, f);
                }
            }
        }
        let ma = live(o.ids@, o.recs(), k, -1);
        if ma != 0 {
            assert(h.meta->Some_0.locations[0].addr == ma);
            assert(loc_in(h.meta->Some_0.locations, ma));
            assert(in_chain(o.recs(), o.ids@[k], ma));
            assert(in_units(o.ids@, o.recs(), ma));
            assert(ma <= o.slots().len());
        }
        Self::lemma_metadata_kept(o, e, k, e.head_of(k));
    }
}

/// Compaction keeps every unit's content and signer: that of the unit that moved,
/// and that of every other.
pub proof fn law_compaction_keeps_content<C: Crypto>(
    o: &Engine<C>,
    e: &Engine<C>,
    uuid: Uuid,
    k: Seq<u8>,
)
    requires
        o.inv(),
        o.slots().len() <= u64::MAX,
        o.movable(uuid),
        Engine::<C>::compact_step(o, e, uuid, o.known_head(uuid)->Ok_0->Some_0.1),
        o.ids@.contains_key(k),
        o.head_of(k).stream().geometry_ok(),
    ensures
        e.ids@.contains_key(k),
        e.unit_bytes(k) == o.unit_bytes(k),
        k != uuid@ ==> e.head_of(k) == o.head_of(k),
        e.head_of(k).content_vv() == o.head_of(k).content_vv(),
        e.head_of(k).stream().unit_map == o.head_of(k).stream().unit_map,
        e.head_of(k).stream().geometry_ok(),
        e.unit_signer(k) == o.unit_signer(k),
        o.sound(o.head_of(k)) ==> e.sound(e.head_of(k)) && e.full(e.head_of(k)) == o.full(
            o.head_of(k),
        ),
{
    let m = o.known_head(uuid)->Ok_0->Some_0.1;
    let locs = m.stream().locations;
    let gaps = o.gaps();
    let h = o.head_of(k);
    let sm = h.stream();
    o.lemma_gaps();
    assert forall|a: u64| in_heap(o.slots(), a) && o.slot_used(a) implies #[trigger] e.slots()[a - 1]
        == o.slots()[a - 1] by {
        assert forall|i: int|
            0 <= i < locs.len() && moves(locs, gaps, i) implies a
            != #[trigger] moved_loc(locs, gaps, i).addr by {
            lemma_moved_into(locs, gaps, i);
        }
    }
    if k != uuid@ {
        assert(e.recs()[o.ids@[k] - 1] == o.recs()[o.ids@[k] - 1]);
        assert forall|f: int| 0 <= f < sm.n() && (#[trigger] sm.locations[f]).addr != 0 implies
            e.slots()[sm.locations[f].addr - 1] == o.slots()[sm.locations[f].addr - 1] by {
            o.lemma_head_slot_used(k, f);
        }
        assert forall|f: int| 0 <= f < sm.n() implies (#[trigger] sm.locations[f]).addr
            <= o.slots().len() by {
            assert(live(o.ids@, o.recs(), k, f) == sm.locations[f].addr);
        }
        Engine::<C>::lemma_reads_kept(o, e, h);
        if o.sound(h) {
            assert forall|f: int|
                0 <= f < sm.n() && !Engine::<C>::hole_at(h, f) implies #[trigger] e.frag(h, f) is Ok
                && e.frag(h, f)->Ok_0.len() <= crate::block::frag_bytes(sm.fragsize_exp) by {
                assert(o.frag(h, f) is Ok);
            }
        }
    } else {
        let r1 = o.moved_record(m);
        assert(e.head_of(k) == r1);
        assert(h == m);
        assert forall|f: int| 0 <= f < sm.n() implies #[trigger] e.plain(r1, f) == o.plain(h, f) by {
            assert(r1.stream().locations[f] == moved_loc(locs, gaps, f));
            if moves(locs, gaps, f) {
                lemma_moved_into(locs, gaps, f);
            }
            if locs[f].addr != 0 {
                o.lemma_head_slot_used(k, f);
            }
            assert(stored_at(e.slots(), r1.stream().locations[f]) == stored_at(o.slots(), locs[f]));
            assert(e.frag(r1, f) == o.frag(h, f));
        }
        assert(e.contents(r1) =~= o.contents(h)) by {
            assert forall|i: int| 0 <= i < sm.size() implies e.byte(r1, i) == o.byte(h, i) by {
                crate::content::lemma_last_fragment(sm, i);
            }
        }
        if o.sound(h) {
            assert forall|f: int|
                0 <= f < sm.n() && !Engine::<C>::hole_at(r1, f) implies #[trigger] e.frag(r1, f)
                is Ok && e.frag(r1, f)->Ok_0.len() <= crate::block::frag_bytes(sm.fragsize_exp) by {
                assert(r1.stream().locations[f] == moved_loc(locs, gaps, f));
                if moves(locs, gaps, f) {
                    lemma_moved_into(locs, gaps, f);
                }
                if locs[f].addr != 0 {
                    o.lemma_head_slot_used(k, f);
                }
                assert(stored_at(e.slots(), r1.stream().locations[f]) == stored_at(
                    o.slots(),
                    locs[f],
                ));
                assert(e.frag(r1, f) == o.frag(h, f));
                assert(!Engine::<C>::hole_at(h, f));
                assert(o.frag(h, f) is Ok);
            }
        }
    }
    assert(e.trust() == o.trust());
    assert(payload_of(e.head_of(k)) == payload_of(h));
    if o.sound(h) {
        o.law_full_read_is_the_content(h);
        e.law_full_read_is_the_content(e.head_of(k));
    }
}

/// Compaction never touches a slot that the last commit needs: a crash in the
/// middle of it loses nothing.
pub proof fn law_compaction_spares_the_last_commit<C: Crypto>(
    o: &Engine<C>,
    e: &Engine<C>,
    uuid: Uuid,
    k: Seq<u8>,
    p: int,
)
    requires
        o.inv(),
        Engine::<C>::compact_step(o, e, uuid, o.known_head(uuid)->Ok_0->Some_0.1),
        o.disk.committed.ids@.contains_key(k),
        live(o.disk.committed.ids@, o.recs(), k, p) != 0,
    ensures
        e.disk.committed == o.disk.committed,
        e.snap@[live(o.disk.committed.ids@, o.recs(), k, p) - 1] == o.snap@[live(
            o.disk.committed.ids@,
            o.recs(),
            k,
            p,
        ) - 1],
{
    let ids = o.disk.committed.ids@;
    let a = live(ids, o.recs(), k, p);
    let h = o.recs()[ids[k] - 1];
    if p == -1 {
        assert(h.meta->Some_0.locations[0].addr == a);
        assert(loc_in(h.meta->Some_0.locations, a));
    } else {
        assert(h.content->Some_0.locations[p].addr == a);
        assert(loc_in(h.content->Some_0.locations, a));
    }
    assert(in_chain(o.recs(), ids[k], a));
    assert(in_units(ids, o.recs(), a));
    assert(in_heap(o.snap@, a));
}

/// Compacting all units keeps the content, the versions and the signer of every
/// unit.
pub proof fn law_defrag_keeps_content<C: Crypto>(
    t: Seq<Engine<C>>,
    units: Seq<Uuid>,
    n: nat,
    k: Seq<u8>,
)
    requires
        Engine::<C>::defrag_trace(t, units, n),
        t[0].ids@.contains_key(k),
        t[0].head_of(k).stream().geometry_ok(),
    ensures
        t[n as int].ids@.contains_key(k),
        t[n as int].unit_bytes(k) == t[0].unit_bytes(k),
        t[n as int].head_of(k).content_vv() == t[0].head_of(k).content_vv(),
        t[n as int].head_of(k).stream().unit_map == t[0].head_of(k).stream().unit_map,
        t[n as int].head_of(k).stream().geometry_ok(),
        t[n as int].unit_signer(k) == t[0].unit_signer(k),
        t[0].sound(t[0].head_of(k)) ==> t[n as int].sound(t[n as int].head_of(k)) && t[
            n as int
        ].full(t[n as int].head_of(k)) == t[0].full(t[0].head_of(k)),
    decreases n,
{
    if n > 0 {
        let before = t.drop_last();
        assert forall|i: int|
            #![trigger before[i + 1]]
            0 <= i < n - 1 implies Engine::<C>::defrag_step(&before[i], &before[i + 1], units[i]) by {
            assert(t[i + 1] == before[i + 1]);
        }
        assert forall|i: int| 0 <= i < before.len() implies (#[trigger] before[i]).inv()
            && before[i].slots().len() <= u64::MAX by {
            assert(t[i] == before[i]);
        }
        law_defrag_keeps_content(before, units, (n - 1) as nat, k);
        let a = t[n - 1];
        let b = t[n - 1 + 1];
        let uuid = units[n - 1];
        assert(before[n - 1] == a);
        assert(Engine::<C>::defrag_step(&a, &b, uuid));
        if a.movable(uuid) {
            let m = a.known_head(uuid)->Ok_0->Some_0.1;
            let mid = choose|mid: Engine<C>|
                {
                    &&& #[trigger] Engine::<C>::compact_step(&a, &mid, uuid, m)
                    &&& if a.suppress_commit {
                        b == mid
                    } else {
                        Engine::<C>::published(&mid, &b)
                    }
                };
            law_compaction_keeps_content(&a, &mid, uuid, k);
            let h = mid.head_of(k);
            assert(b.trust() == mid.trust());
            Engine::<C>::lemma_same_contents(&mid, &b, h);
            Engine::<C>::lemma_same_pieces(&mid, &b, h, h.stream().n());
            if a.sound(a.head_of(k)) {
                assert forall|f: int|
                    0 <= f < h.stream().n() && !Engine::<C>::hole_at(h, f) implies #[trigger] b.frag(
                    h,
                    f,
                ) is Ok && b.frag(h, f)->Ok_0.len() <= crate::block::frag_bytes(
                    h.stream().fragsize_exp,
                ) by {
                    assert(mid.frag(h, f) is Ok);
                }
            }
        }
    }
}

/// Every slot that nothing refers to is among the gaps, with its room.
proof fn lemma_free_is_a_gap<C: Crypto>(o: &Engine<C>, a: u64, n: nat)
    requires
        n <= u64::MAX,
        1 <= a <= n,
        !o.slot_used(a),
    ensures
        o.free_slots(n).contains(a),
    decreases n,
{
    let s = o.free_slots(n);
    if a == n {
        assert(s[s.len() - 1] == a);
    } else {
        lemma_free_is_a_gap(o, a, (n - 1) as nat);
        let p = o.free_slots((n - 1) as nat);
        let i = choose|i: int| 0 <= i < p.len() && p[i] == a;
        assert(s[i] == a);
    }
}

/// A gap that is not left was taken by a block.
proof fn lemma_gap_gone(locs: Seq<BlockLoc>, gaps: Seq<(u64, nat)>, g: (u64, nat), f: nat)
    requires
        gaps_ascend(gaps),
        gaps.contains(g),
        !gaps_left(locs, gaps, f).contains(g),
    ensures
        exists|j: int| 0 <= j < f && #[trigger] moved_loc(locs, gaps, j).addr == g.0,
    decreases f,
{
    if f > 0 {
        let p = (f - 1) as nat;
        let before = gaps_left(locs, gaps, p);
        if before.contains(g) {
            let x = choose|x: int| 0 <= x < before.len() && before[x] == g;
            lemma_first_fit(before, locs[f - 1].len as nat, before.len());
            let now = gaps_left(locs, gaps, f);
            if gap_for(locs[f - 1], before) is Some {
                let i = gap_for(locs[f - 1], before)->Some_0;
                if x < i {
                    assert(now[x] == g);
                } else if x > i {
                    assert(now[x - 1] == g);
                } else {
                    assert(moved_loc(locs, gaps, f - 1).addr == g.0);
                }
            } else {
                assert(now[x] == g);
            }
        } else {
            lemma_gap_gone(locs, gaps, g, p);
        }
    }
}

/// The first gap that fits has none before it that fits.
proof fn lemma_first_fit_is_lowest(gaps: Seq<(u64, nat)>, len: nat, x: int, n: nat)
    requires
        0 <= x < n <= gaps.len(),
        len <= gaps[x].1,
    ensures
        first_fit(gaps, len, n) is Some,
        first_fit(gaps, len, n)->Some_0 <= x,
    decreases n,
{
    if x < n - 1 {
        lemma_first_fit_is_lowest(gaps, len, x, (n - 1) as nat);
    } else {
        lemma_first_fit(gaps, len, (n - 1) as nat);
    }
}

/// Compaction moves blocks down and nowhere else: a block keeps its length, and
/// lies where it lay or further down, in a slot that nothing referred to and that
/// has room for it. Blocks smaller than a base block stay.
pub proof fn law_blocks_move_down_into_free_room<C: Crypto>(
    o: &Engine<C>,
    m: RecordModel,
    i: int,
)
    requires
        o.slots().len() <= u64::MAX,
        0 <= i < m.stream().locations.len(),
    ensures
        o.moved_record(m).stream().locations.len() == m.stream().locations.len(),
        ({
            let was = m.stream().locations[i];
            let is = o.moved_record(m).stream().locations[i];
            &&& is.len == was.len
            &&& is.addr <= was.addr
            &&& is.addr != was.addr ==> {
                &&& 1 <= is.addr <= o.slots().len()
                &&& !o.slot_used(is.addr)
                &&& 4096 <= was.len
                &&& was.len == 4096 || was.len < o.slots()[is.addr - 1].len() + 4096
            }
        }),
        o.moved_record(m).uuid == m.uuid,
        o.moved_record(m).stream().unit_map == m.stream().unit_map,
        o.moved_record(m).content_vv() == m.content_vv(),
{
    let locs = m.stream().locations;
    let gaps = o.gaps();
    o.lemma_gaps();
    if moves(locs, gaps, i) {
        lemma_moved_into(locs, gaps, i);
        let j = choose|j: int|
            0 <= j < gaps.len() && #[trigger] gaps[j].0 == moved_loc(locs, gaps, i).addr
                && locs[i].len <= gaps[j].1;
        let n = o.slots()[gaps[j].0 - 1].len();
        crate::block::law_room_is_whole_blocks(n);
        crate::block::law_room_is_whole_blocks(u32::MAX as nat);
    }
}

/// Compaction leaves no room behind: where a slot that nothing refers to lies before
/// a block that fits into it, the block moves there or further down, unless an
/// earlier block of the unit has taken the slot.
pub proof fn law_blocks_move_as_far_down_as_they_fit<C: Crypto>(
    o: &Engine<C>,
    m: RecordModel,
    i: int,
    a: u64,
)
    requires
        o.slots().len() <= u64::MAX,
        0 <= i < m.stream().locations.len(),
        1 <= a <= o.slots().len(),
        !o.slot_used(a),
        4096 <= m.stream().locations[i].len <= o.slots()[a - 1].len(),
        a < m.stream().locations[i].addr,
    ensures
        o.moved_record(m).stream().locations[i].addr <= a || exists|j: int|
            0 <= j < i && #[trigger] o.moved_record(m).stream().locations[j].addr == a,
{
    let locs = m.stream().locations;
    let gaps = o.gaps();
    let moved = o.moved_record(m).stream().locations;
    o.lemma_gaps();
    lemma_free_is_a_gap(o, a, o.slots().len());
    let x = choose|x: int| 0 <= x < o.free().len() && o.free()[x] == a;
    let g = gaps[x];
    assert(gaps.contains(g));
    crate::block::law_room_is_whole_blocks(o.slots()[a - 1].len());
    crate::block::law_room_is_whole_blocks(u32::MAX as nat);
    let left = gaps_left(locs, gaps, i as nat);
    lemma_gaps_left(locs, gaps, 0, i as nat);
    if left.contains(g) {
        let y = choose|y: int| 0 <= y < left.len() && left[y] == g;
        lemma_first_fit_is_lowest(left, locs[i].len as nat, y, left.len());
        lemma_first_fit(left, locs[i].len as nat, left.len());
        let z = first_fit(left, locs[i].len as nat, left.len())->Some_0;
        assert(left[z].0 <= left[y].0);
        assert(moved[i].addr == left[z].0);
    } else {
        lemma_gap_gone(locs, gaps, g, i as nat);
        let j = choose|j: int| 0 <= j < i && #[trigger] moved_loc(locs, gaps, j).addr == g.0;
        assert(moved[j].addr == a);
    }
}

/// Compaction does not touch a unit that has earlier versions, or that a commit
/// pins.
pub proof fn law_units_with_a_past_stay<C: Crypto>(
    a: &Engine<C>,
    b: &Engine<C>,
    uuid: Uuid,
    m: RecordModel,
    addr: u64,
    i: int,
    j: int,
)
    requires
        Engine::<C>::defrag_step(a, b, uuid),
        a.known_head(uuid) == Ok::<crate::import::KnownHead, Error>(Some((addr, m))),
        m.parent is Some || (0 <= i < m.stream().pins.len() && 0 <= j < m.stream().pins[i].bits.len()
            && m.stream().pins[i].bits[j] != 0),
    ensures
        *b == *a,
{
}

/// The report counts what moved: the blocks that lie elsewhere afterwards, and their
/// bytes.
pub proof fn law_reports_count_what_moved<C: Crypto>(
    a: &Engine<C>,
    r: DefragReport,
    uuid: Uuid,
    addr: u64,
    m: RecordModel,
    blocks: nat,
    bytes: nat,
)
    requires
        a.slots().len() <= u64::MAX,
        a.known_head(uuid) == Ok::<crate::import::KnownHead, Error>(Some((addr, m))),
        a.movable(uuid),
        ({
            let was = m.stream().locations;
            let is = a.moved_record(m).stream().locations;
            &&& blocks == Seq::new(
                was.len(),
                |i: int|
                    if is[i].addr != was[i].addr {
                        1nat
                    } else {
                        0
                    },
            ).fold_left(0nat, |x: nat, y: nat| x + y)
            &&& bytes == Seq::new(
                was.len(),
                |i: int|
                    if is[i].addr != was[i].addr {
                        was[i].len as nat
                    } else {
                        0
                    },
            ).fold_left(0nat, |x: nat, y: nat| x + y)
        }),
        r.blocks_moved + blocks <= u64::MAX,
        r.bytes_relocated + bytes <= u64::MAX,
        r.units_compacted < u64::MAX,
    ensures
        blocks > 0,
        Engine::<C>::report_unit(a, r, uuid, true).blocks_moved == r.blocks_moved + blocks,
        Engine::<C>::report_unit(a, r, uuid, true).bytes_relocated == r.bytes_relocated + bytes,
        Engine::<C>::report_unit(a, r, uuid, true).units_compacted == r.units_compacted + 1,
{
    let was = m.stream().locations;
    a.lemma_gaps();
    lemma_moves_are_counted(was, a.gaps(), was.len());
    let is = a.moved_record(m).stream().locations;
    assert(is =~= moved_locs(was, a.gaps()));
}

proof fn lemma_moves_are_counted(locs: Seq<BlockLoc>, gaps: Seq<(u64, nat)>, f: nat)
    requires
        f <= locs.len(),
        gaps_ascend(gaps),
    ensures
        moved_count(locs, gaps, f) == Seq::new(
            f,
            |i: int|
                if moved_locs(locs, gaps)[i].addr != locs[i].addr {
                    1nat
                } else {
                    0
                },
        ).fold_left(0nat, |x: nat, y: nat| x + y),
        moved_bytes(locs, gaps, f) == Seq::new(
            f,
            |i: int|
                if moved_locs(locs, gaps)[i].addr != locs[i].addr {
                    locs[i].len as nat
                } else {
                    0
                },
        ).fold_left(0nat, |x: nat, y: nat| x + y),
    decreases f,
{
    let one = |i: int|
        if moved_locs(locs, gaps)[i].addr != locs[i].addr {
            1nat
        } else {
            0
        };
    let len = |i: int|
        if moved_locs(locs, gaps)[i].addr != locs[i].addr {
            locs[i].len as nat
        } else {
            0
        };
    reveal_with_fuel(Seq::fold_left, 2);
    if f > 0 {
        let p = (f - 1) as nat;
        lemma_moves_are_counted(locs, gaps, p);
        assert(Seq::new(f, one).drop_last() =~= Seq::new(p, one));
        assert(Seq::new(f, len).drop_last() =~= Seq::new(p, len));
        if moves(locs, gaps, p as int) {
            lemma_moved_into(locs, gaps, p as int);
        }
    }
}

} // verus!
