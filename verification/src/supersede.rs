//! What a write leaves behind of the blocks that it supersedes.
use vstd::prelude::*;

use crate::block::{bit_set, dot, frag_bytes, frags_for};
use crate::content::stored_at;
use crate::crypto::Crypto;
use crate::engine::{journal_has, Container, Engine};
use crate::evicted::EvictedModel;
use crate::heap::in_heap;
use crate::storage::stamp_of;
use crate::unit::{
    clear_pins, hole, is_hole, lemma_pins_cleared_step, pinning, pins_cleared, pins_view, BlockLoc,
    CommitBitmap, PinModel, RecordModel, StreamMeta, UnitRecord, Uuid,
};
use crate::vector::vv_get;
use crate::write::{grown_size, rechunks, write_exp};

verus! {

/// The version and block that a record names for fragment `f`, if it holds one.
pub open spec fn old_block(r: RecordModel, f: int) -> Option<(u64, BlockLoc)> {
    let sm = r.stream();
    if 0 <= f < sm.n() && sm.locations[f] != hole() {
        Some((sm.unit_map[f], sm.locations[f]))
    } else {
        None
    }
}

/// A stamp for each fragment from `first` up to but not including `upto`.
pub open spec fn stamped(uuid: Uuid, t: i64, first: int, upto: int) -> Seq<(Uuid, u32, i64)>
    decreases upto - first,
{
    if upto <= first {
        Seq::empty()
    } else {
        stamped(uuid, t, first, upto - 1).push((uuid, (upto - 1) as u32, t))
    }
}

impl<C: Crypto> Engine<C> {
    /// Nothing was taken out of the tail.
    pub open spec fn tail_grew(o: &Self, e: &Self) -> bool {
        &&& o.tail().len() <= e.tail().len()
        &&& e.tail().take(o.tail().len() as int) == o.tail()
    }

    /// Every slot holds what it held.
    pub open spec fn blocks_kept(o: &Self, e: &Self) -> bool {
        &&& o.slots().len() <= e.slots().len()
        &&& forall|a: u64| #[trigger]
            in_heap(o.slots(), a) ==> e.slots()[a - 1] == o.slots()[a - 1]
    }

    pub proof fn lemma_tail_same(o: &Self, e: &Self)
        requires
            e.tail() == o.tail(),
        ensures
            Self::tail_grew(o, e),
    {
        assert(e.tail().take(o.tail().len() as int) =~= o.tail());
    }

    pub proof fn lemma_tail_grew(o: &Self, e: &Self, more: Seq<EvictedModel>)
        requires
            e.tail() == o.tail() + more,
        ensures
            Self::tail_grew(o, e),
    {
        assert(e.tail().take(o.tail().len() as int) =~= o.tail());
    }

    pub proof fn lemma_tail_grew_trans(a: &Self, b: &Self, c: &Self)
        requires
            Self::tail_grew(a, b),
            Self::tail_grew(b, c),
        ensures
            Self::tail_grew(a, c),
    {
        assert forall|i: int| 0 <= i < a.tail().len() implies c.tail()[i] == a.tail()[i] by {
            assert(c.tail().take(b.tail().len() as int)[i] == c.tail()[i]);
            assert(b.tail().take(a.tail().len() as int)[i] == b.tail()[i]);
        }
        assert(c.tail().take(a.tail().len() as int) =~= a.tail());
    }

    /// A write to fragment `f` keeps the old block: there is one, and it was not
    /// kept since the last commit.
    pub open spec fn retires(&self, r: RecordModel, f: int) -> bool {
        old_block(r, f) is Some && !journal_has(self.journaled@, r.uuid@, f as u32)
    }

    /// What is kept of fragment `f` when a block of `new_len` bytes supersedes
    /// it: an undo image where the slot is overwritten, else plain history.
    pub open spec fn image(&self, r: RecordModel, f: int, new_len: nat) -> EvictedModel {
        let (version, loc) = old_block(r, f)->Some_0;
        let reuse = self.reuses(r.uuid, f as u32, Some((version, loc)), new_len);
        self.evicted(
            r.uuid,
            f as u32,
            version,
            loc,
            pinning(r.stream().pins, f),
            if reuse {
                loc.addr
            } else {
                0
            },
            if reuse {
                (self.header.commit_seq + 1) as u64
            } else {
                0
            },
        )
    }

    /// What a write that keeps the fragment size adds to the tail for the
    /// fragments from `first` up to but not including `upto`.
    pub open spec fn images(
        &self,
        r: RecordModel,
        offset: int,
        data: Seq<u8>,
        exp: u8,
        version: u64,
        first: int,
        upto: int,
    ) -> Seq<EvictedModel>
        decreases upto - first,
    {
        if upto <= first {
            Seq::empty()
        } else {
            let s = self.images(r, offset, data, exp, version, first, upto - 1);
            if self.retires(r, upto - 1) {
                s.push(
                    self.image(
                        r,
                        upto - 1,
                        self.new_block(r, offset, data, exp, version, upto - 1).len(),
                    ),
                )
            } else {
                s
            }
        }
    }

    /// What such a write adds to the journal.
    pub open spec fn retired(&self, r: RecordModel, first: int, upto: int) -> Seq<(Uuid, u32)>
        decreases upto - first,
    {
        if upto <= first {
            Seq::empty()
        } else {
            let s = self.retired(r, first, upto - 1);
            if self.retires(r, upto - 1) {
                s.push((r.uuid, (upto - 1) as u32))
            } else {
                s
            }
        }
    }

    /// What a write that changes the fragment size adds to the tail: the blocks
    /// that commits pin, and no others.
    pub open spec fn pinned_images(&self, r: RecordModel, upto: int) -> Seq<EvictedModel>
        decreases upto,
    {
        if upto <= 0 {
            Seq::empty()
        } else {
            let s = self.pinned_images(r, upto - 1);
            let f = upto - 1;
            let commits = pinning(r.stream().pins, f);
            if old_block(r, f) is Some && commits.len() > 0 {
                let (version, loc) = old_block(r, f)->Some_0;
                s.push(self.evicted(r.uuid, f as u32, version, loc, commits, 0, 0))
            } else {
                s
            }
        }
    }

    /// The tail and the stamps after `data` was staged at `offset` of the unit
    /// whose head is `r`.
    pub open spec fn superseded(
        o: &Self,
        e: &Self,
        r: RecordModel,
        offset: int,
        data: Seq<u8>,
    ) -> bool {
        let sm = r.stream();
        let end = (offset + data.len()) as nat;
        let exp = write_exp(sm, end);
        let fs = frag_bytes(exp) as int;
        let version = dot(o.local_alias, (vv_get(sm.vv, o.local_alias) + 1) as u64);
        let first = offset / fs;
        let upto = (end - 1) / fs + 1;
        if rechunks(sm, end) {
            &&& e.tail() == o.tail() + o.pinned_images(r, sm.n() as int)
            &&& e.stamps@ == o.stamps@ + stamped(
                r.uuid,
                o.time(),
                0,
                frags_for(grown_size(sm, end), exp) as int,
            )
        } else {
            &&& e.tail() == o.tail() + o.images(r, offset, data, exp, version, first, upto)
            &&& e.stamps@ == o.stamps@ + stamped(r.uuid, o.time(), first, upto)
        }
    }

    /// The journal after that, as long as nothing is committed.
    pub open spec fn journal_after(&self, r: RecordModel, offset: int, len: nat) -> Seq<
        (Uuid, u32),
    > {
        let sm = r.stream();
        let end = (offset + len) as nat;
        let fs = frag_bytes(write_exp(sm, end)) as int;
        if rechunks(sm, end) {
            self.journaled@
        } else {
            self.journaled@ + self.retired(r, offset / fs, (end - 1) / fs + 1)
        }
    }

    /// The journal entries of other fragments do not matter to fragment `f`.
    pub proof fn lemma_retired_others(&self, r: RecordModel, first: int, upto: int, f: int)
        requires
            0 <= first,
            upto <= f <= u32::MAX,
        ensures
            journal_has(self.journaled@ + self.retired(r, first, upto), r.uuid@, f as u32)
                == journal_has(self.journaled@, r.uuid@, f as u32),
        decreases upto - first,
    {
        let j = self.journaled@;
        let k = r.uuid@;
        let all = j + self.retired(r, first, upto);
        if upto <= first {
            assert(all =~= j);
        } else {
            let prev = j + self.retired(r, first, upto - 1);
            self.lemma_retired_others(r, first, upto - 1, f);
            if self.retires(r, upto - 1) {
                assert(all =~= prev.push((r.uuid, (upto - 1) as u32)));
                if journal_has(prev, k, f as u32) {
                    let i = choose|i: int|
                        0 <= i < prev.len() && (#[trigger] prev[i]).0@ == k && prev[i].1
                            == f as u32;
                    assert(all[i] == prev[i]);
                }
                if journal_has(all, k, f as u32) {
                    let i = choose|i: int|
                        0 <= i < all.len() && (#[trigger] all[i]).0@ == k && all[i].1 == f as u32;
                    assert((upto - 1) as u32 != f as u32);
                    assert(all[i] == prev[i]);
                }
            } else {
                assert(all =~= prev);
            }
        }
    }
}

/// The stamps of other fragments do not matter to fragment `f`.
pub proof fn lemma_stamped_others(
    s: Seq<(Uuid, u32, i64)>,
    uuid: Uuid,
    t: i64,
    first: int,
    upto: int,
    f: int,
)
    requires
        0 <= first,
        upto <= f <= u32::MAX,
    ensures
        stamp_of(s + stamped(uuid, t, first, upto), uuid, f as u32) == stamp_of(
            s,
            uuid,
            f as u32,
        ),
    decreases upto - first,
{
    let all = s + stamped(uuid, t, first, upto);
    if upto <= first {
        assert(all =~= s);
    } else {
        lemma_stamped_others(s, uuid, t, first, upto - 1, f);
        assert(all.drop_last() =~= s + stamped(uuid, t, first, upto - 1));
        assert(all.last() == (uuid, (upto - 1) as u32, t));
    }
}

/// Clearing other fragments does not unpin fragment `f`.
pub proof fn lemma_pinning_kept(a: Seq<PinModel>, b: Seq<PinModel>, lo: int, hi: int, f: int)
    requires
        pins_cleared(a, b, lo, hi),
        !(lo <= f < hi),
    ensures
        pinning(b, f) == pinning(a, f),
    decreases a.len(),
{
    if a.len() > 0 {
        let x = a.drop_last();
        let y = b.drop_last();
        assert forall|i: int| 0 <= i < x.len() implies (#[trigger] y[i]).commit
            == x[i].commit by {
            assert(b[i].commit == a[i].commit);
        }
        assert forall|i: int, k: int|
            #![trigger bit_set(y[i].bits, k)]
            0 <= i < x.len() implies bit_set(y[i].bits, k) == (bit_set(x[i].bits, k) && !(lo <= k
            < hi)) by {
            assert(bit_set(b[i].bits, k) == (bit_set(a[i].bits, k) && !(lo <= k < hi)));
        }
        lemma_pinning_kept(x, y, lo, hi, f);
        let l = a.len() - 1;
        assert(bit_set(b[l].bits, f) == (bit_set(a[l].bits, f) && !(lo <= f < hi)));
        assert(b[l].commit == a[l].commit);
    }
}

impl<C: Crypto> Engine<C> {
    /// The old block of fragment `f` is there and was not kept since the last
    /// commit.
    pub open spec fn keeps(&self, r: RecordModel, f: int) -> bool {
        self.retires(r, f) && stored_at(self.slots(), old_block(r, f)->Some_0.1) is Some
    }

    /// What is kept of fragment `f` where no slot is overwritten.
    pub open spec fn history_of(&self, r: RecordModel, f: int) -> EvictedModel {
        let (version, loc) = old_block(r, f)->Some_0;
        self.evicted(r.uuid, f as u32, version, loc, pinning(r.stream().pins, f), 0, 0)
    }

    /// What is kept of the fragments from `first` up to but not including `upto`
    /// when they are superseded, and no slot is overwritten.
    pub open spec fn kept_images(&self, r: RecordModel, first: int, upto: int) -> Seq<EvictedModel>
        decreases upto - first,
    {
        if upto <= first {
            Seq::empty()
        } else {
            let s = self.kept_images(r, first, upto - 1);
            if self.keeps(r, upto - 1) {
                s.push(self.history_of(r, upto - 1))
            } else {
                s
            }
        }
    }

    /// What that adds to the journal.
    pub open spec fn kept_journal(&self, r: RecordModel, first: int, upto: int) -> Seq<(Uuid, u32)>
        decreases upto - first,
    {
        if upto <= first {
            Seq::empty()
        } else {
            let s = self.kept_journal(r, first, upto - 1);
            if self.keeps(r, upto - 1) {
                s.push((r.uuid, (upto - 1) as u32))
            } else {
                s
            }
        }
    }

    proof fn lemma_kept_others(&self, r: RecordModel, first: int, upto: int, f: int)
        requires
            0 <= first,
            upto <= f <= u32::MAX,
        ensures
            journal_has(self.journaled@ + self.kept_journal(r, first, upto), r.uuid@, f as u32)
                == journal_has(self.journaled@, r.uuid@, f as u32),
        decreases upto - first,
    {
        let j = self.journaled@;
        let k = r.uuid@;
        let all = j + self.kept_journal(r, first, upto);
        if upto <= first {
            assert(all =~= j);
        } else {
            let prev = j + self.kept_journal(r, first, upto - 1);
            self.lemma_kept_others(r, first, upto - 1, f);
            if self.keeps(r, upto - 1) {
                assert(all =~= prev.push((r.uuid, (upto - 1) as u32)));
                if journal_has(prev, k, f as u32) {
                    let i = choose|i: int|
                        0 <= i < prev.len() && (#[trigger] prev[i]).0@ == k && prev[i].1
                            == f as u32;
                    assert(all[i] == prev[i]);
                }
                if journal_has(all, k, f as u32) {
                    let i = choose|i: int|
                        0 <= i < all.len() && (#[trigger] all[i]).0@ == k && all[i].1 == f as u32;
                    assert((upto - 1) as u32 != f as u32);
                    assert(all[i] == prev[i]);
                }
            } else {
                assert(all =~= prev);
            }
        }
    }

    /// What is kept depends on slots, journal and age alone.
    pub proof fn lemma_kept_same(a: &Self, b: &Self, r: RecordModel, first: int, upto: int)
        requires
            a.slots() == b.slots(),
            a.journaled@ == b.journaled@,
            a.stamps@ == b.stamps@,
            a.time() == b.time(),
        ensures
            a.kept_images(r, first, upto) == b.kept_images(r, first, upto),
            a.kept_journal(r, first, upto) == b.kept_journal(r, first, upto),
        decreases upto - first,
    {
        if upto > first {
            Self::lemma_kept_same(a, b, r, first, upto - 1);
        }
    }

    /// Slots that were added behind do not matter to what is kept.
    pub proof fn lemma_kept_more(a: &Self, b: &Self, r: RecordModel, first: int, upto: int)
        requires
            a.slots().len() <= b.slots().len(),
            b.slots().take(a.slots().len() as int) == a.slots(),
            a.journaled@ == b.journaled@,
            a.stamps@ == b.stamps@,
            a.time() == b.time(),
            forall|f: int|
                0 <= f < r.stream().n() ==> (#[trigger] r.stream().locations[f]).addr
                    <= a.slots().len(),
        ensures
            a.kept_images(r, first, upto) == b.kept_images(r, first, upto),
            a.kept_journal(r, first, upto) == b.kept_journal(r, first, upto),
        decreases upto - first,
    {
        if upto > first {
            Self::lemma_kept_more(a, b, r, first, upto - 1);
            let f = upto - 1;
            if old_block(r, f) is Some {
                let loc = r.stream().locations[f];
                if loc.addr != 0 {
                    assert(b.slots().take(a.slots().len() as int)[loc.addr - 1] == b.slots()[
                    loc.addr - 1]);
                }
            }
        }
    }

    /// Copies the old blocks of fragments from `first` up to but not including
    /// `upto` to the tail, each at most once between two commits, and unpins
    /// them. The copies carry the commits that pinned them.
    pub fn retire_range(
        &mut self,
        rec: &UnitRecord,
        sm: &StreamMeta,
        pins: &mut Vec<CommitBitmap>,
        first: usize,
        upto: usize,
    )
        requires
            old(self).inv(),
            rec@.content == Some(sm@),
            sm@.geometry_ok(),
            pins_view(old(pins)@) == sm@.pins,
            first <= upto <= sm@.n(),
        ensures
            final(self).inv(),
            old(self).recoverable() ==> final(self).recoverable(),
            *final(self) == (Engine {
                disk: (Container { tail: final(self).disk.tail, ..old(self).disk }),
                journaled: final(self).journaled,
                ..*old(self)
            }),
            final(self).tail() == old(self).tail() + old(self).kept_images(
                rec@,
                first as int,
                upto as int,
            ),
            final(self).journaled@ == old(self).journaled@ + old(self).kept_journal(
                rec@,
                first as int,
                upto as int,
            ),
            Self::tail_grew(old(self), final(self)),
            pins_cleared(
                pins_view(old(pins)@),
                pins_view(final(pins)@),
                first as int,
                upto as int,
            ),
    {
        let ghost o = *self;
        let mut f: usize = first;
        proof {
            assert(self.tail() =~= o.tail() + Seq::<EvictedModel>::empty());
            assert(self.journaled@ =~= o.journaled@ + Seq::<(Uuid, u32)>::empty());
        }
        while f < upto
            invariant
                o == *old(self),
                self.inv(),
                o.recoverable() ==> self.recoverable(),
                rec@.content == Some(sm@),
                sm@.geometry_ok(),
                pins_view(old(pins)@) == sm@.pins,
                first <= f <= upto,
                upto <= sm@.n(),
                *self == (Engine {
                    disk: (Container { tail: self.disk.tail, ..o.disk }),
                    journaled: self.journaled,
                    ..o
                }),
                self.tail() == o.tail() + o.kept_images(rec@, first as int, f as int),
                self.journaled@ == o.journaled@ + o.kept_journal(rec@, first as int, f as int),
                pins_cleared(sm@.pins, pins_view(pins@), first as int, f as int),
            decreases upto - f,
        {
            let ghost gf = f as int;
            let ghost before_pins = pins_view(pins@);
            let commits: Vec<Uuid> = clear_pins(pins, f);
            proof {
                lemma_pinning_kept(sm@.pins, before_pins, first as int, gf, gf);
                lemma_pins_cleared_step(
                    sm@.pins,
                    before_pins,
                    pins_view(pins@),
                    first as int,
                    gf,
                );
                o.lemma_kept_others(rec@, first as int, gf, gf);
            }
            let loc: BlockLoc = sm.locations[f];
            if !is_hole(loc) && !self.is_journaled(&rec.uuid, f as u32) {
                match self.evict_block(&rec.uuid, f as u32, sm.unit_map[f], loc, commits, 0, 0) {
                    Err(_) => {},
                    Ok(()) => {
                        let ghost mid = *self;
                        self.journaled.push((rec.uuid, f as u32));
                        proof {
                            Self::lemma_journal_grows(&mid, &*self, rec@.uuid, f as u32);
                        }
                    },
                }
            }
            proof {
                assert(self.tail() =~= o.tail() + o.kept_images(rec@, first as int, gf + 1));
                assert(self.journaled@ =~= o.journaled@ + o.kept_journal(
                    rec@,
                    first as int,
                    gf + 1,
                ));
            }
            f = f + 1;
        }
        proof {
            Self::lemma_tail_grew(&o, &*self, o.kept_images(rec@, first as int, upto as int));
        }
    }
}

} // verus!
