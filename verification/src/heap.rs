//! Storage: records that are only ever appended, block slots, and the tail of
//! superseded blocks.
use vstd::prelude::*;

use crate::evicted::{EvictedBlock, EvictedModel};
use crate::unit::{copy_bytes, RecordModel, UnitRecord};

verus! {

/// The records of a container. A record never changes; its address is its
/// number, counted from one, and zero is no address.
#[derive(Debug)]
pub struct RecordHeap {
    items: Vec<UnitRecord>,
}

impl View for RecordHeap {
    type V = Seq<RecordModel>;

    closed spec fn view(&self) -> Seq<RecordModel> {
        Seq::new(self.items@.len(), |i: int| self.items@[i]@)
    }
}

/// `addr` names one of the records.
pub open spec fn in_heap<T>(s: Seq<T>, addr: u64) -> bool {
    1 <= addr <= s.len()
}

impl RecordHeap {
    pub fn new() -> (r: Self)
        ensures
            r@ == Seq::<RecordModel>::empty(),
    {
        let r: RecordHeap = RecordHeap { items: Vec::new() };
        proof {
            assert(r@ =~= Seq::<RecordModel>::empty());
        }
        r
    }

    pub fn len(&self) -> (n: usize)
        ensures
            n == self@.len(),
    {
        self.items.len()
    }

    /// A copy of the record at `addr`.
    pub fn get(&self, addr: u64) -> (r: Option<UnitRecord>)
        ensures
            r is Some <==> in_heap(self@, addr),
            r is Some ==> r->Some_0@ == self@[addr - 1],
    {
        if addr == 0 || addr > self.items.len() as u64 {
            return None;
        }
        Some(self.items[(addr - 1) as usize].clone())
    }

    /// Stores a record and returns its address.
    pub fn push(&mut self, rec: UnitRecord) -> (addr: u64)
        ensures
            final(self)@ == old(self)@.push(rec@),
            addr == final(self)@.len(),
    {
        self.items.push(rec);
        proof {
            assert(self@ =~= old(self)@.push(rec@));
        }
        self.items.len() as u64
    }

    /// Overwrites the record at `addr`.
    pub fn set(&mut self, addr: u64, rec: UnitRecord)
        requires
            in_heap(old(self)@, addr),
        ensures
            final(self)@ == old(self)@.update(addr - 1, rec@),
    {
        let n: usize = self.items.len();
        assert(addr <= n);
        let i: usize = (addr - 1) as usize;
        self.items.set(i, rec);
        proof {
            assert(self@ =~= old(self)@.update(addr - 1, rec@));
        }
    }
}

impl Clone for RecordHeap {
    fn clone(&self) -> (r: Self)
        ensures
            r@ == self@,
    {
        let mut items: Vec<UnitRecord> = Vec::new();
        let mut i: usize = 0;
        while i < self.items.len()
            invariant
                i <= self.items.len(),
                items.len() == i,
                forall|k: int| 0 <= k < i ==> (#[trigger] items@[k])@ == self.items@[k]@,
            decreases self.items.len() - i,
        {
            items.push(self.items[i].clone());
            i = i + 1;
        }
        let r: RecordHeap = RecordHeap { items };
        proof {
            assert(r@ =~= self@);
        }
        r
    }
}

/// The block slots of a container, numbered from one. A slot keeps its number;
/// its bytes may be overwritten in place.
#[derive(Debug)]
pub struct BlockHeap {
    slots: Vec<Vec<u8>>,
}

impl View for BlockHeap {
    type V = Seq<Seq<u8>>;

    closed spec fn view(&self) -> Seq<Seq<u8>> {
        Seq::new(self.slots@.len(), |i: int| self.slots@[i]@)
    }
}

impl BlockHeap {
    pub fn new() -> (r: Self)
        ensures
            r@ == Seq::<Seq<u8>>::empty(),
    {
        let r: BlockHeap = BlockHeap { slots: Vec::new() };
        proof {
            assert(r@ =~= Seq::<Seq<u8>>::empty());
        }
        r
    }

    pub fn len(&self) -> (n: usize)
        ensures
            n == self@.len(),
    {
        self.slots.len()
    }

    /// A copy of the bytes in slot `addr`.
    pub fn get(&self, addr: u64) -> (r: Option<Vec<u8>>)
        ensures
            r is Some <==> in_heap(self@, addr),
            r is Some ==> r->Some_0@ == self@[addr - 1],
    {
        if addr == 0 || addr > self.slots.len() as u64 {
            return None;
        }
        Some(copy_bytes(&self.slots[(addr - 1) as usize]))
    }

    /// Stores bytes in a fresh slot and returns its number.
    pub fn push(&mut self, bytes: Vec<u8>) -> (addr: u64)
        ensures
            final(self)@ == old(self)@.push(bytes@),
            addr == final(self)@.len(),
    {
        self.slots.push(bytes);
        proof {
            assert(self@ =~= old(self)@.push(bytes@));
        }
        self.slots.len() as u64
    }

    /// Overwrites slot `addr`.
    pub fn set(&mut self, addr: u64, bytes: Vec<u8>)
        requires
            in_heap(old(self)@, addr),
        ensures
            final(self)@ == old(self)@.update(addr - 1, bytes@),
    {
        let n: usize = self.slots.len();
        assert(addr <= n);
        let i: usize = (addr - 1) as usize;
        self.slots.set(i, bytes);
        proof {
            assert(self@ =~= old(self)@.update(addr - 1, bytes@));
        }
    }
}

impl Clone for BlockHeap {
    fn clone(&self) -> (r: Self)
        ensures
            r@ == self@,
    {
        let mut slots: Vec<Vec<u8>> = Vec::new();
        let mut i: usize = 0;
        while i < self.slots.len()
            invariant
                i <= self.slots.len(),
                slots.len() == i,
                forall|k: int| 0 <= k < i ==> (#[trigger] slots@[k])@ == self.slots@[k]@,
            decreases self.slots.len() - i,
        {
            slots.push(copy_bytes(&self.slots[i]));
            i = i + 1;
        }
        let r: BlockHeap = BlockHeap { slots };
        proof {
            assert(r@ =~= self@);
        }
        r
    }
}

/// The superseded blocks, oldest first.
#[derive(Debug)]
pub struct TailHeap {
    items: Vec<EvictedBlock>,
}

impl View for TailHeap {
    type V = Seq<EvictedModel>;

    closed spec fn view(&self) -> Seq<EvictedModel> {
        Seq::new(self.items@.len(), |i: int| self.items@[i]@)
    }
}

impl TailHeap {
    pub fn new() -> (r: Self)
        ensures
            r@ == Seq::<EvictedModel>::empty(),
    {
        let r: TailHeap = TailHeap { items: Vec::new() };
        proof {
            assert(r@ =~= Seq::<EvictedModel>::empty());
        }
        r
    }

    pub fn len(&self) -> (n: usize)
        ensures
            n == self@.len(),
    {
        self.items.len()
    }

    /// Block `i`.
    pub fn get(&self, i: usize) -> (r: &EvictedBlock)
        requires
            i < self@.len(),
        ensures
            r@ == self@[i as int],
    {
        &self.items[i]
    }

    pub fn push(&mut self, e: EvictedBlock)
        ensures
            final(self)@ == old(self)@.push(e@),
    {
        self.items.push(e);
        proof {
            assert(self@ =~= old(self)@.push(e@));
        }
    }

    /// Puts the undo images of what commit `seq` does not contain off by one
    /// commit.
    pub fn restamp(&mut self, seq: u64)
        requires
            seq + 1 < u64::MAX,
        ensures
            final(self)@ == restamped(old(self)@, seq),
    {
        let n: usize = self.items.len();
        let mut i: usize = 0;
        while i < n
            invariant
                n == self.items.len(),
                n == old(self)@.len(),
                i <= n,
                seq + 1 < u64::MAX,
                forall|k: int|
                    0 <= k < n ==> (#[trigger] self.items@[k])@ == if k < i {
                        restamped(old(self)@, seq)[k]
                    } else {
                        old(self)@[k]
                    },
            decreases n - i,
        {
            let mut e: EvictedBlock = self.items[i].clone();
            if e.target_commit_seq > seq {
                e.target_commit_seq = seq + 2;
            }
            self.items.set(i, e);
            i = i + 1;
        }
        proof {
            assert(self@ =~= restamped(old(self)@, seq));
        }
    }
}

impl Clone for TailHeap {
    fn clone(&self) -> (r: Self)
        ensures
            r@ == self@,
    {
        let mut items: Vec<EvictedBlock> = Vec::new();
        let mut i: usize = 0;
        while i < self.items.len()
            invariant
                i <= self.items.len(),
                items.len() == i,
                forall|k: int| 0 <= k < i ==> (#[trigger] items@[k])@ == self.items@[k]@,
            decreases self.items.len() - i,
        {
            items.push(self.items[i].clone());
            i = i + 1;
        }
        let r: TailHeap = TailHeap { items };
        proof {
            assert(r@ =~= self@);
        }
        r
    }
}

// ── The undo pass ───────────────────────────────────────────────────────────

/// The block is the undo image of an overwrite that commit `seq` does not
/// contain.
pub open spec fn undoes(e: EvictedModel, seq: u64) -> bool {
    e.inplace_addr != 0 && e.target_commit_seq > seq
}

/// The slots after the undo images of `tail` are written back, oldest first.
pub open spec fn undone(slots: Seq<Seq<u8>>, tail: Seq<EvictedModel>, seq: u64) -> Seq<Seq<u8>>
    decreases tail.len(),
{
    if tail.len() == 0 {
        slots
    } else {
        let b = undone(slots, tail.drop_last(), seq);
        let e = tail.last();
        if undoes(e, seq) && in_heap(slots, e.inplace_addr) {
            b.update(e.inplace_addr - 1, e.bytes)
        } else {
            b
        }
    }
}

/// The undo images of what commit `seq` does not contain, put off by one commit.
pub open spec fn restamped(tail: Seq<EvictedModel>, seq: u64) -> Seq<EvictedModel> {
    Seq::new(
        tail.len(),
        |i: int|
            if tail[i].target_commit_seq > seq {
                EvictedModel { target_commit_seq: (seq + 2) as u64, ..tail[i] }
            } else {
                tail[i]
            },
    )
}

/// Images that were put off undo the same overwrites after one commit more.
pub proof fn lemma_undone_restamped(slots: Seq<Seq<u8>>, tail: Seq<EvictedModel>, seq: u64)
    requires
        seq + 1 < u64::MAX,
    ensures
        undone(slots, restamped(tail, seq), (seq + 1) as u64) == undone(slots, tail, seq),
        forall|a: u64|
            restores(tail, seq, a) ==> #[trigger] restores(
                restamped(tail, seq),
                (seq + 1) as u64,
                a,
            ),
    decreases tail.len(),
{
    let r = restamped(tail, seq);
    if tail.len() > 0 {
        lemma_undone_restamped(slots, tail.drop_last(), seq);
        assert(r.drop_last() =~= restamped(tail.drop_last(), seq));
    }
    assert forall|a: u64| restores(tail, seq, a) implies #[trigger] restores(
        r,
        (seq + 1) as u64,
        a,
    ) by {
        let i = choose|i: int|
            0 <= i < tail.len() && undoes(#[trigger] tail[i], seq) && tail[i].inplace_addr == a;
        assert(undoes(r[i], (seq + 1) as u64));
    }
}

/// Some image restores slot `addr`.
pub open spec fn restores(tail: Seq<EvictedModel>, seq: u64, addr: u64) -> bool {
    exists|i: int|
        0 <= i < tail.len() && undoes(#[trigger] tail[i], seq) && tail[i].inplace_addr == addr
}

pub proof fn lemma_undone_len(slots: Seq<Seq<u8>>, tail: Seq<EvictedModel>, seq: u64)
    ensures
        undone(slots, tail, seq).len() == slots.len(),
    decreases tail.len(),
{
    if tail.len() > 0 {
        lemma_undone_len(slots, tail.drop_last(), seq);
    }
}

/// A slot that no image restores keeps its bytes.
pub proof fn lemma_undone_other(
    slots: Seq<Seq<u8>>,
    tail: Seq<EvictedModel>,
    seq: u64,
    addr: u64,
)
    requires
        in_heap(slots, addr),
        !restores(tail, seq, addr),
    ensures
        undone(slots, tail, seq)[addr - 1] == slots[addr - 1],
    decreases tail.len(),
{
    if tail.len() > 0 {
        let p = tail.drop_last();
        lemma_undone_len(slots, p, seq);
        if restores(p, seq, addr) {
            let i = choose|i: int|
                0 <= i < p.len() && undoes(#[trigger] p[i], seq) && p[i].inplace_addr == addr;
            assert(tail[i] == p[i]);
        }
        lemma_undone_other(slots, p, seq, addr);
        assert(tail[tail.len() - 1] == tail.last());
    }
}

/// What the undo pass makes of a slot that an image restores does not depend
/// on the slot's bytes, and no slot depends on another's.
pub proof fn lemma_undone_overwrite(
    slots: Seq<Seq<u8>>,
    tail: Seq<EvictedModel>,
    seq: u64,
    addr: u64,
    bytes: Seq<u8>,
)
    requires
        in_heap(slots, addr),
    ensures
        forall|b: u64|
            in_heap(slots, b) && b != addr ==> #[trigger] undone(
                slots.update(addr - 1, bytes),
                tail,
                seq,
            )[b - 1] == undone(slots, tail, seq)[b - 1],
        restores(tail, seq, addr) ==> undone(slots.update(addr - 1, bytes), tail, seq)[addr - 1]
            == undone(slots, tail, seq)[addr - 1],
    decreases tail.len(),
{
    let s2 = slots.update(addr - 1, bytes);
    lemma_undone_len(slots, tail, seq);
    lemma_undone_len(s2, tail, seq);
    if tail.len() > 0 {
        let p = tail.drop_last();
        lemma_undone_len(slots, p, seq);
        lemma_undone_len(s2, p, seq);
        lemma_undone_overwrite(slots, p, seq, addr, bytes);
        let e = tail.last();
        if restores(tail, seq, addr) && !(undoes(e, seq) && e.inplace_addr == addr) {
            let i = choose|i: int|
                0 <= i < tail.len() && undoes(#[trigger] tail[i], seq) && tail[i].inplace_addr
                    == addr;
            assert(p[i] == tail[i]);
        }
    }
}

/// A fresh slot does not disturb the undo pass.
pub proof fn lemma_undone_push(
    slots: Seq<Seq<u8>>,
    tail: Seq<EvictedModel>,
    seq: u64,
    bytes: Seq<u8>,
)
    requires
        forall|i: int| 0 <= i < tail.len() ==> (#[trigger] tail[i]).inplace_addr <= slots.len(),
    ensures
        undone(slots.push(bytes), tail, seq) == undone(slots, tail, seq).push(bytes),
    decreases tail.len(),
{
    lemma_undone_len(slots, tail, seq);
    if tail.len() > 0 {
        let p = tail.drop_last();
        assert forall|i: int| 0 <= i < p.len() implies (#[trigger] p[i]).inplace_addr
            <= slots.len() by {
            assert(p[i] == tail[i]);
        }
        lemma_undone_push(slots, p, seq, bytes);
        lemma_undone_len(slots, p, seq);
        let e = tail.last();
        assert(tail[tail.len() - 1] == e);
        assert(undone(slots.push(bytes), tail, seq) =~= undone(slots, tail, seq).push(bytes));
    }
}

/// Once every image belongs to a commit that landed, nothing is undone.
pub proof fn lemma_undone_none(slots: Seq<Seq<u8>>, tail: Seq<EvictedModel>, seq: u64)
    requires
        forall|i: int| 0 <= i < tail.len() ==> (#[trigger] tail[i]).target_commit_seq <= seq,
    ensures
        undone(slots, tail, seq) == slots,
    decreases tail.len(),
{
    if tail.len() > 0 {
        let p = tail.drop_last();
        assert forall|i: int| 0 <= i < p.len() implies (#[trigger] p[i]).target_commit_seq
            <= seq by {
            assert(p[i] == tail[i]);
        }
        lemma_undone_none(slots, p, seq);
        assert(tail[tail.len() - 1] == tail.last());
    }
}

/// Running the undo pass again changes nothing.
pub proof fn law_undo_is_idempotent(slots: Seq<Seq<u8>>, tail: Seq<EvictedModel>, seq: u64)
    ensures
        undone(undone(slots, tail, seq), tail, seq) == undone(slots, tail, seq),
{
    let once = undone(slots, tail, seq);
    let twice = undone(once, tail, seq);
    lemma_undone_len(slots, tail, seq);
    lemma_undone_len(once, tail, seq);
    assert forall|a: int| 0 <= a < slots.len() implies twice[a] == once[a] by {
        lemma_undone_twice(slots, tail, seq, a);
    }
    assert(twice =~= once);
}

/// The undo pass gives a restored slot the bytes of its last image whatever
/// the slots hold.
proof fn lemma_undone_fixed(
    x: Seq<Seq<u8>>,
    y: Seq<Seq<u8>>,
    tail: Seq<EvictedModel>,
    seq: u64,
    a: int,
)
    requires
        x.len() == y.len(),
        0 <= a < x.len(),
        x[a] == y[a] || exists|i: int|
            0 <= i < tail.len() && undoes(#[trigger] tail[i], seq) && tail[i].inplace_addr == a
                + 1,
    ensures
        undone(x, tail, seq)[a] == undone(y, tail, seq)[a],
    decreases tail.len(),
{
    lemma_undone_len(x, tail, seq);
    lemma_undone_len(y, tail, seq);
    if tail.len() > 0 {
        let p = tail.drop_last();
        let e = tail.last();
        lemma_undone_len(x, p, seq);
        lemma_undone_len(y, p, seq);
        if !(undoes(e, seq) && e.inplace_addr == a + 1) {
            if x[a] != y[a] {
                let i = choose|i: int|
                    0 <= i < tail.len() && undoes(#[trigger] tail[i], seq) && tail[i].inplace_addr
                        == a + 1;
                assert(p[i] == tail[i]);
            }
            lemma_undone_fixed(x, y, p, seq, a);
        }
    }
}

proof fn lemma_undone_twice(slots: Seq<Seq<u8>>, tail: Seq<EvictedModel>, seq: u64, a: int)
    requires
        0 <= a < slots.len(),
    ensures
        undone(undone(slots, tail, seq), tail, seq)[a] == undone(slots, tail, seq)[a],
{
    let once = undone(slots, tail, seq);
    lemma_undone_len(slots, tail, seq);
    if exists|i: int|
        0 <= i < tail.len() && undoes(#[trigger] tail[i], seq) && tail[i].inplace_addr == a + 1 {
        lemma_undone_fixed(once, slots, tail, seq, a);
    } else {
        lemma_undone_untouched(once, tail, seq, a);
    }
}

proof fn lemma_undone_untouched(slots: Seq<Seq<u8>>, tail: Seq<EvictedModel>, seq: u64, a: int)
    requires
        0 <= a < slots.len(),
        forall|i: int|
            0 <= i < tail.len() ==> !(undoes(#[trigger] tail[i], seq) && tail[i].inplace_addr == a
                + 1),
    ensures
        undone(slots, tail, seq)[a] == slots[a],
    decreases tail.len(),
{
    lemma_undone_len(slots, tail, seq);
    if tail.len() > 0 {
        let p = tail.drop_last();
        lemma_undone_len(slots, p, seq);
        assert forall|i: int| 0 <= i < p.len() implies !(undoes(#[trigger] p[i], seq)
            && p[i].inplace_addr == a + 1) by {
            assert(p[i] == tail[i]);
        }
        lemma_undone_untouched(slots, p, seq, a);
        assert(tail[tail.len() - 1] == tail.last());
    }
}

} // verus!
