//! The write-ahead log: fast writes, checkpoints and replay.
use vstd::prelude::*;
use vstd::string::StringSliceAdditionalSpecFns;
use vstd::utf8::valid_utf8;

use crate::block::{
    exp_for, few_frags, frag_bytes, frags_for, lemma_exp_range, lemma_frag_bytes, lemma_frags,
    MAX_FRAGSIZE_EXP,
};
use crate::bytes::{copy_range, push_all, push_zeros, resized, same16, zeros};
use crate::catalog::{lemma_map_of, map_of};
use crate::crypto::{BlockCtx, Crypto};
use crate::engine::{
    law_written_records_read_back, live, wal_log_ok, wal_total, wal_view, Container, Engine,
    PendingUnit, PendingWrite, RecordSignIntent, WalModel, WalRecord, WalState, WAL_RECORD_OVERHEAD,
    WAL_REGION_SIZE,
};
use crate::error::Error;
use crate::outside::string_from_utf8;
use crate::overlay::{
    add_pending, overlaid, overlay_ok, pending_of, put_write, splice, write_view, writes_view,
};
use crate::reseal::record_fits;
use crate::unit::{copy_bytes, stream_byte_len, RecordModel, StreamModel, Uuid};
use crate::vector::vv_get;
use crate::write::{grown_size, touches, write_exp, write_fits};
use crate::writerset::{signer_of, MembershipScope, SignMode};

verus! {

/// A content size that fragment numbers and the address space can describe
/// with fragments of the largest size.
pub open spec fn small_enough(n: nat) -> bool {
    few_frags(n, MAX_FRAGSIZE_EXP) && n <= usize::MAX
}

/// An identity is small enough.
pub proof fn lemma_small_identity()
    ensures
        small_enough(16),
{
    crate::block::lemma_frag_bytes(MAX_FRAGSIZE_EXP);
    crate::block::lemma_frags(16, MAX_FRAGSIZE_EXP);
}

/// The exponent that a size asks for is the largest, or gives few fragments.
proof fn lemma_exp_enough(size: nat, floor: u8)
    requires
        floor <= 22,
    ensures
        exp_for(size, floor, 22) == 22 || size <= 4096 * frag_bytes(exp_for(size, floor, 22)),
    decreases 22 - floor,
{
    if !(floor >= 22 || size <= 4096 * frag_bytes(floor)) {
        lemma_exp_enough(size, (floor + 1) as u8);
    }
}

/// Content of such a size has few enough fragments, with the fragment size that
/// it asks for or a larger one.
pub proof fn lemma_small_frags(size: nat, exp: u8)
    requires
        small_enough(size),
        exp_for(size, 12, 22) <= exp <= 31,
    ensures
        few_frags(size, exp),
{
    let e = exp_for(size, 12, 22);
    lemma_exp_enough(size, 12);
    lemma_exp_range(size, 12, 22);
    lemma_frags(size, exp);
    lemma_frags(size, e);
    lemma_frag_bytes(exp);
    lemma_frag_bytes(e);
    if e < exp {
        vstd::arithmetic::power2::lemma_pow2_strictly_increases(e as nat, exp as nat);
    }
    let n = frags_for(size, exp);
    let m = frags_for(size, e);
    let fs = frag_bytes(exp);
    let es = frag_bytes(e);
    if size > u32::MAX {
        assert(m <= u32::MAX) by {
            if e != 22 {
                assert(m - 1 < 4096) by (nonlinear_arith)
                    requires
                        (m - 1) * es < size,
                        size <= 4096 * es,
                        es >= 1,
                ;
            }
        }
        assert(n <= m) by (nonlinear_arith)
            requires
                (n - 1) * fs < size,
                size <= m * es,
                1 <= es <= fs,
        ;
    }
}

/// The writes can be made one after the other within machine limits.
pub open spec fn writes_fit_stream(
    sm: StreamModel,
    alias: u16,
    ws: Seq<(u64, Seq<u8>)>,
) -> bool {
    &&& sm.geometry_ok()
    &&& sm.n() > 0 ==> sm.last_frag_length >= 1
    &&& vv_get(sm.vv, alias) + ws.len() < u64::MAX
    &&& small_enough(sm.size())
    &&& forall|i: int| 0 <= i < ws.len() ==> small_enough((#[trigger] ws[i]).0 as nat + ws[i].1.len())
}

/// Content `sm1` came of content `sm0` by at most `n` writes, and is of a size that
/// can be worked with.
pub open spec fn stream_settled(sm0: StreamModel, sm1: StreamModel, alias: u16, n: nat) -> bool {
    &&& vv_get(sm1.vv, alias) <= vv_get(sm0.vv, alias) + n
    &&& small_enough(sm1.size())
    &&& sm1.n() > 0 ==> sm1.last_frag_length >= 1
}

pub proof fn lemma_first_write_fits(sm: StreamModel, alias: u16, ws: Seq<(u64, Seq<u8>)>)
    requires
        writes_fit_stream(sm, alias, ws),
        ws.len() > 0,
    ensures
        write_fits(sm, alias, ws[0].0 as int, ws[0].1.len()),
{
    let end = (ws[0].0 + ws[0].1.len()) as nat;
    assert(small_enough(ws[0].0 as nat + ws[0].1.len()));
    let size = grown_size(sm, end);
    let exp = write_exp(sm, end);
    lemma_exp_range(end, 12, 22);
    lemma_exp_range(size, 12, 22);
    lemma_small_frags(size, exp);
    lemma_frags(size, MAX_FRAGSIZE_EXP);
    lemma_frag_bytes(MAX_FRAGSIZE_EXP);
    assert(end <= 0x7fff_ffff_ffff_ffff) by {
        lemma_small_bound(end);
    }
}

/// A size that 43 bits hold has few fragments.
pub proof fn lemma_far_below(n: nat)
    requires
        n <= 0x800_0000_0000,
        n <= usize::MAX,
    ensures
        small_enough(n),
{
    let fs = frag_bytes(MAX_FRAGSIZE_EXP);
    let k = frags_for(n, MAX_FRAGSIZE_EXP);
    lemma_frags(n, MAX_FRAGSIZE_EXP);
    lemma_frag_bytes(MAX_FRAGSIZE_EXP);
    if n > 0 {
        assert(k <= u32::MAX) by (nonlinear_arith)
            requires
                (k - 1) * fs < n,
                n <= 0x800_0000_0000,
                fs >= 4096,
        ;
    }
}

/// Such a size is far below what 64 bits hold.
pub proof fn lemma_small_bound(n: nat)
    requires
        small_enough(n),
    ensures
        n <= 0x7fff_ffff_ffff_ffff,
{
    let fs = frag_bytes(MAX_FRAGSIZE_EXP);
    let k = frags_for(n, MAX_FRAGSIZE_EXP);
    lemma_frags(n, MAX_FRAGSIZE_EXP);
    lemma_frag_bytes(MAX_FRAGSIZE_EXP);
    if n > u32::MAX {
        assert(n <= 0xffff_ffff * 0x8000_0000) by (nonlinear_arith)
            requires
                n <= k * fs,
                k <= 0xffff_ffff,
                fs <= 0x8000_0000,
        ;
    }
}

/// A longer run of records starts with the shorter one.
pub proof fn lemma_prefix_trans(
    a: Seq<RecordModel>,
    b: Seq<RecordModel>,
    c: Seq<RecordModel>,
)
    requires
        a.len() <= b.len() <= c.len(),
        b.take(a.len() as int) == a,
        c.take(b.len() as int) == b,
    ensures
        c.take(a.len() as int) == a,
{
    assert forall|i: int| 0 <= i < a.len() implies c[i] == a[i] by {
        assert(c.take(b.len() as int)[i] == c[i]);
        assert(b.take(a.len() as int)[i] == b[i]);
    }
    assert(c.take(a.len() as int) =~= a);
}

/// The path that stands for a unit: the last one, in order, that is text.
pub open spec fn path_of(pairs: Seq<(Seq<u8>, Uuid)>, uuid: Uuid) -> Option<Seq<u8>>
    decreases pairs.len(),
{
    if pairs.len() == 0 {
        None
    } else if pairs.last().1 == uuid && valid_utf8(pairs.last().0) {
        Some(pairs.last().0)
    } else {
        path_of(pairs.drop_last(), uuid)
    }
}

/// A write that starts behind the end of `size` bytes, as one that starts at the
/// end: zeros come first.
pub open spec fn closed_up(size: nat, w: (u64, Seq<u8>)) -> (u64, Seq<u8>) {
    if w.0 > size {
        (size as u64, zeros((w.0 - size) as nat) + w.1)
    } else {
        w
    }
}

/// Closing a write up does not change what it does.
pub proof fn lemma_closed_up(s: Seq<u8>, w: (u64, Seq<u8>))
    ensures
        splice(s, closed_up(s.len(), w).0 as int, closed_up(s.len(), w).1) == splice(
            s,
            w.0 as int,
            w.1,
        ),
{
    let c = closed_up(s.len(), w);
    assert(splice(s, c.0 as int, c.1) =~= splice(s, w.0 as int, w.1));
}

/// No write is empty.
pub open spec fn none_empty(ws: Seq<(u64, Seq<u8>)>) -> bool {
    forall|i: int| 0 <= i < ws.len() ==> (#[trigger] ws[i]).1.len() > 0
}

impl<C: Crypto> Engine<C> {
    /// The head record of unit `k`.
    pub open spec fn head_of(&self, k: Seq<u8>) -> RecordModel {
        self.recs()[self.ids@[k] - 1]
    }

    /// Who signed the head record of unit `k`.
    pub open spec fn unit_signer(&self, k: Seq<u8>) -> Result<Option<[u8; 32]>, Error> {
        signer_of::<C>(self.head_of(k), self.trust(), MembershipScope::CurrentOrRemoved)
    }

    /// The content of unit `k`, as committed or staged.
    pub open spec fn unit_bytes(&self, k: Seq<u8>) -> Seq<u8> {
        self.contents(self.head_of(k))
    }

    /// Every unit outside `changed` has the head that it had, in untouched slots.
    pub open spec fn units_same(o: &Self, e: &Self, changed: Set<Seq<u8>>) -> bool {
        &&& o.slots().len() <= e.slots().len()
        &&& forall|l: Seq<u8>|
            #![trigger o.ids@.contains_key(l)]
            #![trigger e.ids@.contains_key(l)]
            !changed.contains(l) && o.ids@.contains_key(l) ==> e.ids@.contains_key(l) && e.ids@[l]
                == o.ids@[l] && e.head_of(l) == o.head_of(l)
        &&& forall|l: Seq<u8>, p: int|
            #![trigger live(o.ids@, o.recs(), l, p)]
            !changed.contains(l) && live(o.ids@, o.recs(), l, p) != 0 ==> e.slots()[live(
                o.ids@,
                o.recs(),
                l,
                p,
            ) - 1] == o.slots()[live(o.ids@, o.recs(), l, p) - 1]
    }

    /// A unit that did not change reads as before.
    pub proof fn lemma_units_same_reads(o: &Self, e: &Self, changed: Set<Seq<u8>>, l: Seq<u8>)
        requires
            o.inv(),
            Self::units_same(o, e, changed),
            !changed.contains(l),
            o.ids@.contains_key(l),
            o.head_of(l).stream().geometry_ok(),
            e.root_key == o.root_key,
            e.header.key_epoch == o.header.key_epoch,
            e.header.cipher == o.header.cipher,
        ensures
            e.unit_bytes(l) == o.unit_bytes(l),
            e.full(o.head_of(l)) == o.full(o.head_of(l)),
            forall|f: int|
                0 <= f < o.head_of(l).stream().n() ==> #[trigger] e.readable(o.head_of(l), f)
                    == o.readable(o.head_of(l), f),
            o.sound(o.head_of(l)) ==> e.sound(o.head_of(l)),
    {
        let r = o.head_of(l);
        let sm = r.stream();
        assert forall|f: int| 0 <= f < sm.n() implies (#[trigger] sm.locations[f]).addr
            <= o.slots().len() by {
            assert(live(o.ids@, o.recs(), l, f) == sm.locations[f].addr);
        }
        assert forall|f: int| 0 <= f < sm.n() && (#[trigger] sm.locations[f]).addr != 0 implies
            e.slots()[sm.locations[f].addr - 1] == o.slots()[sm.locations[f].addr - 1] by {
            assert(live(o.ids@, o.recs(), l, f) == sm.locations[f].addr);
        }
        Self::lemma_reads_kept(o, e, r);
        Self::lemma_pieces_kept(o, e, r, sm.n());
        if o.sound(r) {
            assert forall|f: int| 0 <= f < sm.n() && !Self::hole_at(r, f) implies #[trigger] e.frag(
                r,
                f,
            ) is Ok && e.frag(r, f)->Ok_0.len() <= crate::block::frag_bytes(sm.fragsize_exp) by {
                assert(o.frag(r, f) is Ok);
            }
        }
    }

    /// Changes add up.
    pub proof fn lemma_units_same_trans(
        a: &Self,
        b: &Self,
        c: &Self,
        s: Set<Seq<u8>>,
        k: Seq<u8>,
    )
        requires
            a.inv(),
            Self::units_same(a, b, s),
            Self::units_same(b, c, Set::<Seq<u8>>::empty().insert(k)),
        ensures
            Self::units_same(a, c, s.insert(k)),
    {
        let t = s.insert(k);
        assert forall|l: Seq<u8>|
            #![trigger a.ids@.contains_key(l)]
            #![trigger c.ids@.contains_key(l)]
            !t.contains(l) && a.ids@.contains_key(l) implies c.ids@.contains_key(l) && c.ids@[l]
            == a.ids@[l] && c.head_of(l) == a.head_of(l) by {
            assert(b.ids@.contains_key(l));
        }
        assert forall|l: Seq<u8>, p: int|
            #![trigger live(a.ids@, a.recs(), l, p)]
            !t.contains(l) && live(a.ids@, a.recs(), l, p) != 0 implies c.slots()[live(
            a.ids@,
            a.recs(),
            l,
            p,
        ) - 1] == a.slots()[live(a.ids@, a.recs(), l, p) - 1] by {
            assert(a.ids@.contains_key(l));
            assert(b.ids@.contains_key(l));
            assert(live(b.ids@, b.recs(), l, p) == live(a.ids@, a.recs(), l, p));
        }
    }

    /// A write changes its unit only.
    proof fn lemma_write_units_same(o: &Self, e: &Self, key: Seq<u8>, offset: int, data: Seq<u8>)
        requires
            o.inv(),
            o.head(key) is Ok,
            Self::written(o, e, key, offset, data),
            Self::others_kept(o, e, o.head(key)->Ok_0.0@),
            o.slots().len() <= e.slots().len(),
        ensures
            Self::units_same(
                o,
                e,
                Set::<Seq<u8>>::empty().insert(o.head(key)->Ok_0.0@),
            ),
    {
        let k = o.head(key)->Ok_0.0@;
        let s = Set::<Seq<u8>>::empty().insert(k);
        assert forall|l: Seq<u8>|
            #![trigger o.ids@.contains_key(l)]
            #![trigger e.ids@.contains_key(l)]
            !s.contains(l) && o.ids@.contains_key(l) implies e.ids@.contains_key(l) && e.ids@[l]
            == o.ids@[l] && e.head_of(l) == o.head_of(l) by {
            assert(e.recs().take(o.recs().len() as int)[o.ids@[l] - 1] == e.recs()[o.ids@[l] - 1]);
        }
    }

    /// A fresh record that the engine signs can be read back.
    pub open spec fn reads_own_records(&self) -> bool {
        match self.header.sign_mode {
            SignMode::Unsigned => true,
            SignMode::Signed => C::signs() && self.signing_key is Some && C::pubkey_of(
                self.signing_key->Some_0,
            ) == self.header.writer_pubkey,
            SignMode::WriterSet => C::signs(),
        }
    }

    /// All writes over record `r` go through.
    pub open spec fn can_flush(&self, r: RecordModel, ws: Seq<(u64, Seq<u8>)>) -> bool {
        &&& self.may_sign()
        &&& self.reads_own_records()
        &&& self.no_crash_seam()
        &&& C::known(self.header.content_cipher)
        &&& forall|f: int| 0 <= f < r.stream().n() ==> #[trigger] self.readable(r, f)
        &&& none_empty(ws)
    }

    /// The record after a write can be written over again.
    proof fn lemma_flush_step(
        o: &Self,
        e: &Self,
        key: Seq<u8>,
        ws: Seq<(u64, Seq<u8>)>,
    )
        requires
            o.inv(),
            o.head(key) is Ok,
            ws.len() > 0,
            writes_fit_stream(o.head(key)->Ok_0.2.stream(), o.local_alias, ws),
            ws[0].0 <= o.head(key)->Ok_0.2.stream().size(),
            ws[0].1.len() > 0,
            Self::written(o, e, key, ws[0].0 as int, ws[0].1),
            Self::same_setup(o, e),
            e.header == o.header,
            e.recs().len() <= u64::MAX,
        ensures
            e.unit_bytes(o.head(key)->Ok_0.0@) == splice(
                o.contents(o.head(key)->Ok_0.2),
                ws[0].0 as int,
                ws[0].1,
            ),
            e.keys@.contains_key(key),
            e.head_at(key) == Ok::<(Uuid, u64), Error>(
                (o.head(key)->Ok_0.0, e.recs().len() as u64),
            ),
            e.head(key) is Ok ==> e.head(key)->Ok_0.2 == e.recs().last(),
            writes_fit_stream(e.recs().last().stream(), e.local_alias, ws.skip(1)),
            o.can_flush(o.head(key)->Ok_0.2, ws) ==> e.head(key) is Ok && e.can_flush(
                e.recs().last(),
                ws.skip(1),
            ),
    {
        let (uuid, ha, r0) = o.head(key)->Ok_0;
        let m = e.recs().last();
        let sm0 = r0.stream();
        let sm1 = m.stream();
        let off = ws[0].0;
        let data = ws[0].1;
        let end = (off + data.len()) as nat;
        let exp = write_exp(sm0, end);
        let size = grown_size(sm0, end);
        lemma_exp_range(end, 12, 22);
        lemma_exp_range(size, 12, 22);
        lemma_frags(size, exp);
        assert(small_enough(off as nat + data.len()));
        assert(sm1.size() == size);
        let rest = ws.skip(1);
        assert forall|i: int| 0 <= i < rest.len() implies small_enough(
            (#[trigger] rest[i]).0 as nat + rest[i].1.len(),
        ) by {
            assert(rest[i] == ws[i + 1]);
        }
        assert(vv_get(sm1.vv, o.local_alias) == vv_get(sm0.vv, o.local_alias) + 1);
        assert(e.ids@[uuid@] == e.recs().len());
        if o.can_flush(r0, ws) {
            let base = RecordModel { signature: None, ..m };
            if o.header.sign_mode != SignMode::Unsigned {
                o.lemma_may_sign(base);
                law_written_records_read_back::<C>(
                    base,
                    o.trust(),
                    o.signing_key,
                    RecordSignIntent::Fresh,
                );
            }
            assert(e.trust() == o.trust());
            assert(e.head(key) is Ok);
            assert forall|f: int| 0 <= f < sm1.n() implies #[trigger] e.readable(m, f) by {
                if touches(sm0, off as int, end, f) {
                    assert(e.frag(m, f) is Ok);
                } else {
                    assert(sm1.locations[f] == sm0.locations[f]);
                    assert(o.readable(r0, f));
                    assert(e.frag(m, f) == o.frag(r0, f));
                }
            }
            assert forall|i: int| 0 <= i < rest.len() implies (#[trigger] rest[i]).1.len() > 0 by {
                assert(rest[i] == ws[i + 1]);
            }
        }
    }

    /// In state `m` the unit at `key` holds its content with the first `i` writes
    /// over it, and the next write fails with `x`.
    pub open spec fn write_blocked(
        o: &Self,
        m: &Self,
        key: Seq<u8>,
        ws: Seq<(u64, Seq<u8>)>,
        i: int,
        x: Error,
    ) -> bool {
        let w = if m.head(key) is Ok {
            closed_up(m.head(key)->Ok_0.2.stream().size(), ws[i])
        } else {
            ws[i]
        };
        &&& 0 <= i < ws.len()
        &&& i == 0 ==> m.head(key) == o.head(key)
        &&& m.head(key) is Ok ==> o.head(key) is Ok && m.head(key)->Ok_0.0 == o.head(key)->Ok_0.0
            && m.contents(m.head(key)->Ok_0.2) == overlaid(
            o.contents(o.head(key)->Ok_0.2),
            ws.take(i),
        )
        &&& match m.write_error(key, w.0 as int, w.1.len()) {
            Some(y) => x == y,
            None => x == Error::Integrity && !(m.may_sign() && m.no_crash_seam()),
        }
    }

    /// Makes pending writes part of a unit's content, one after the other.
    fn flush_unit(&mut self, key: &[u8], writes: &Vec<PendingWrite>) -> (r: (
        Result<(), Error>,
        Ghost<(Self, int)>,
    ))
        requires
            old(self).inv(),
            old(self).suppress_commit,
            old(self).header.commit_seq < u64::MAX,
            old(self).head(key@) is Ok ==> writes_fit_stream(
                old(self).head(key@)->Ok_0.2.stream(),
                old(self).local_alias,
                writes_view(writes@),
            ),
        ensures
            final(self).inv(),
            old(self).recoverable() ==> final(self).recoverable(),
            Self::same_setup(old(self), final(self)),
            final(self).header == old(self).header,
            final(self).disk.committed == old(self).disk.committed,
            final(self).snap == old(self).snap,
            final(self).pending_wal_applied_seq == old(self).pending_wal_applied_seq,
            final(self).keys@ == old(self).keys@,
            old(self).head(key@) is Err && writes@.len() > 0 ==> r.0 is Err,
            r.0 is Ok && writes@.len() > 0 ==> old(self).head(key@) is Ok,
            r.0 is Err ==> Self::write_blocked(
                old(self),
                &r.1@.0,
                key@,
                writes_view(writes@),
                r.1@.1,
                r.0->Err_0,
            ),
            r.0 is Ok && old(self).records_fit() ==> final(self).records_fit(),
            r.0 is Ok && old(self).head(key@) is Ok ==> {
                let k = old(self).head(key@)->Ok_0.0@;
                &&& Self::units_same(
                    old(self),
                    final(self),
                    Set::<Seq<u8>>::empty().insert(k),
                )
                &&& final(self).ids@.contains_key(k)
                &&& final(self).unit_bytes(k) == overlaid(
                    old(self).unit_bytes(k),
                    writes_view(writes@),
                )
                &&& final(self).head_of(k).stream().geometry_ok()
                &&& stream_settled(
                    old(self).head_of(k).stream(),
                    final(self).head_of(k).stream(),
                    old(self).local_alias,
                    writes@.len(),
                )
                &&& old(self).sound(old(self).head_of(k)) ==> final(self).sound(
                    final(self).head_of(k),
                )
            },
            old(self).head(key@) is Ok && old(self).can_flush(
                old(self).head(key@)->Ok_0.2,
                writes_view(writes@),
            ) ==> r.0 is Ok,
            old(self).recs().len() <= final(self).recs().len(),
            final(self).recs().take(old(self).recs().len() as int) == old(self).recs(),
            Self::tail_grew(old(self), final(self)),
            forall|l: Seq<u8>| #[trigger]
                final(self).ids@.contains_key(l) ==> old(self).ids@.contains_key(l),
    {
        let ghost o = *self;
        let ghost ws = writes_view(writes@);
        let ghost k = o.head(key@)->Ok_0.0@;
        let ghost r0 = o.head(key@)->Ok_0.2;
        let mut i: usize = 0;
        proof {
            assert(ws.take(0) =~= Seq::empty());
            assert(ws.skip(0) =~= ws);
            Self::lemma_tail_same(&o, &*self);
            assert(o.recs().take(o.recs().len() as int) =~= o.recs());
        }
        while i < writes.len()
            invariant
                o == *old(self),
                ws == writes_view(writes@),
                k == o.head(key@)->Ok_0.0@,
                r0 == o.head(key@)->Ok_0.2,
                o.inv(),
                i <= writes.len(),
                self.inv(),
                o.recoverable() ==> self.recoverable(),
                o.suppress_commit,
                o.header.commit_seq < u64::MAX,
                Self::same_setup(&o, &*self),
                self.header == o.header,
                self.disk.committed == o.disk.committed,
                self.snap == o.snap,
                self.pending_wal_applied_seq == o.pending_wal_applied_seq,
                self.keys@ == o.keys@,
                o.records_fit() ==> self.records_fit(),
                i == 0 ==> *self == o,
                i > 0 ==> o.head(key@) is Ok,
                self.head(key@) is Ok ==> writes_fit_stream(
                    self.head(key@)->Ok_0.2.stream(),
                    self.local_alias,
                    ws.skip(i as int),
                ) && self.head(key@)->Ok_0.0@ == k,
                o.head(key@) is Ok ==> {
                    &&& Self::units_same(&o, &*self, Set::<Seq<u8>>::empty().insert(k))
                    &&& self.ids@.contains_key(k)
                    &&& self.unit_bytes(k) == overlaid(o.unit_bytes(k), ws.take(i as int))
                    &&& self.head(key@) is Ok ==> self.head(key@)->Ok_0.2 == self.head_of(k)
                    &&& self.head_of(k).stream().geometry_ok()
                    &&& stream_settled(
                        o.head_of(k).stream(),
                        self.head_of(k).stream(),
                        o.local_alias,
                        i as nat,
                    )
                    &&& o.sound(o.head_of(k)) ==> self.sound(self.head_of(k))
                },
                o.head(key@) is Ok && o.can_flush(r0, ws) ==> self.head(key@) is Ok
                    && self.can_flush(self.head(key@)->Ok_0.2, ws.skip(i as int)),
                o.recs().len() <= self.recs().len(),
                self.recs().take(o.recs().len() as int) == o.recs(),
                Self::tail_grew(&o, &*self),
                forall|l: Seq<u8>| #[trigger] self.ids@.contains_key(l) ==> o.ids@.contains_key(l),
            decreases writes.len() - i,
        {
            let ghost before = *self;
            let ghost rest0 = ws.skip(i as int);
            proof {
                assert(rest0[0] == ws[i as int]);
                assert(ws[i as int] == write_view(writes@[i as int]));
                assert(small_enough(0));
            }
            let (off, data): (u64, Vec<u8>) = self.close_up(key, &writes[i], Ghost(rest0));
            let ghost w = (off, data@);
            let ghost rest = rest0.update(0, w);
            proof {
                assert(rest.skip(1) =~= rest0.skip(1));
                if self.head(key@) is Ok {
                    let sm = self.head(key@)->Ok_0.2.stream();
                    assert forall|x: int| 0 <= x < rest.len() implies small_enough(
                        (#[trigger] rest[x]).0 as nat + rest[x].1.len(),
                    ) by {
                        assert(small_enough(rest0[x].0 as nat + rest0[x].1.len()));
                    }
                    lemma_first_write_fits(sm, self.local_alias, rest);
                    lemma_closed_up(self.contents(self.head(key@)->Ok_0.2), ws[i as int]);
                }
                if o.head(key@) is Ok && o.can_flush(r0, ws) {
                    assert forall|x: int| 0 <= x < rest.len() implies (#[trigger] rest[x]).1.len()
                        > 0 by {
                        assert(rest0[x].1.len() > 0);
                    }
                    self.lemma_flush_owed(
                        self.head(key@)->Ok_0.2,
                        rest,
                    );
                }
            }
            let wrote: Result<(), Error> = self.write_key(key, off, data.as_slice());
            proof {
                Self::lemma_tail_grew_trans(&o, &before, &*self);
            }
            match wrote {
                Err(e) => {
                    proof {
                        if before.head(key@) is Ok {
                            assert(before.head(key@)->Ok_0.2 == before.head_of(k));
                            assert(o.head(key@)->Ok_0.2 == o.head_of(k));
                        }
                        assert(Self::write_blocked(&o, &before, key@, ws, i as int, e));
                    }
                    return (Err(e), Ghost((before, i as int)));
                },
                Ok(()) => {},
            }
            proof {
                if o.records_fit() {
                    Self::lemma_fit_after(&before, &*self, key@, off as int, data@);
                }
                let len = self.disk.records@.len();
                assert(before.head(key@) is Ok);
                assert(o.head(key@) is Ok);
                assert(self.recs().len() <= u64::MAX);
                Self::lemma_flush_step(&before, &*self, key@, rest);
                assert(small_enough(rest[0].0 as nat + rest[0].1.len()));
                assert(self.head_of(k) == self.recs().last());
                if o.sound(o.head_of(k)) {
                    Self::lemma_sound_after(
                        &before,
                        &*self,
                        before.head(key@)->Ok_0.1,
                        before.head(key@)->Ok_0.2,
                        rest[0].0 as int,
                        rest[0].1,
                        self.recs().last(),
                    );
                }
                Self::lemma_write_units_same(&before, &*self, key@, rest[0].0 as int, rest[0].1);
                Self::lemma_units_same_trans(
                    &o,
                    &before,
                    &*self,
                    Set::<Seq<u8>>::empty().insert(k),
                    k,
                );
                assert(Set::<Seq<u8>>::empty().insert(k).insert(k) =~= Set::<
                    Seq<u8>,
                >::empty().insert(k));
                assert(rest.skip(1) =~= ws.skip(i + 1));
                assert(ws.take(i + 1).drop_last() =~= ws.take(i as int));
                assert(ws.take(i + 1).last() == ws[i as int]);
                assert forall|l: Seq<u8>| #[trigger] self.ids@.contains_key(l) implies
                    o.ids@.contains_key(l) by {
                    assert(before.ids@.contains_key(l));
                }
                lemma_prefix_trans(o.recs(), before.recs(), self.recs());
            }
            i = i + 1;
        }
        proof {
            assert(ws.take(i as int) =~= ws);
        }
        (Ok(()), Ghost((o, 0)))
    }

    /// The write, closed up to the present end of the unit.
    fn close_up(&self, key: &[u8], w: &PendingWrite, Ghost(ws): Ghost<Seq<(u64, Seq<u8>)>>) -> (r: (
        u64,
        Vec<u8>,
    ))
        requires
            self.inv(),
            ws.len() > 0,
            ws[0] == write_view(*w),
            self.head(key@) is Ok ==> writes_fit_stream(
                self.head(key@)->Ok_0.2.stream(),
                self.local_alias,
                ws,
            ),
        ensures
            (r.0, r.1@) == if self.head(key@) is Ok {
                closed_up(self.head(key@)->Ok_0.2.stream().size(), write_view(*w))
            } else {
                write_view(*w)
            },
    {
        let size: u64 = match self.find_head(key) {
            Err(_) => u64::MAX,
            Ok((uuid, addr, rec)) => {
                proof {
                    crate::unit::lemma_size_bound(rec@.stream());
                }
                match &rec.content {
                    None => 0,
                    Some(sm) => stream_byte_len(sm),
                }
            },
        };
        if w.offset > size {
            proof {
                assert(small_enough(ws[0].0 as nat + ws[0].1.len()));
            }
            let mut data: Vec<u8> = Vec::new();
            push_zeros(&mut data, (w.offset - size) as usize);
            push_all(&mut data, w.data.as_slice());
            proof {
                assert(data@ =~= zeros((w.offset - size) as nat) + w.data@);
            }
            (size, data)
        } else {
            (w.offset, copy_bytes(&w.data))
        }
    }

    /// Records that can be sealed anew stay so under a write.
    pub proof fn lemma_fit_after(o: &Self, e: &Self, key: Seq<u8>, offset: int, data: Seq<u8>)
        requires
            o.inv(),
            o.head(key) is Ok,
            o.records_fit(),
            Self::written(o, e, key, offset, data),
        ensures
            e.records_fit(),
    {
        let r0 = o.head(key)->Ok_0.2;
        let a = o.head(key)->Ok_0.1;
        let m = e.recs().last();
        let n = o.recs().len() as int;
        assert(record_fits(o.recs()[a - 1]));
        assert(record_fits(m)) by {
            let sm = m.stream();
            assert forall|f: int| 0 <= f < sm.locations.len() implies (
            #[trigger] sm.locations[f]).len + 128 <= u32::MAX by {
                if !touches(r0.stream(), offset, (offset + data.len()) as nat, f) {
                    assert(sm.locations[f] == r0.stream().locations[f]);
                }
            }
        }
        assert forall|i: int| 0 <= i < e.recs().len() implies record_fits(#[trigger] e.recs()[i]) by {
            if i < n {
                assert(e.recs().take(n)[i] == e.recs()[i]);
                assert(record_fits(o.recs()[i]));
            }
        }
    }

    /// A write that can be flushed meets no error.
    pub proof fn lemma_flush_owed(&self, r: RecordModel, ws: Seq<(u64, Seq<u8>)>)
        requires
            ws.len() > 0,
            self.can_flush(r, ws),
            writes_fit_stream(r.stream(), self.local_alias, ws),
            ws[0].0 <= r.stream().size(),
        ensures
            self.write_error_at(r, ws[0].0 as int, ws[0].1.len()) is None,
            ws[0].1.len() > 0,
    {
        let sm = r.stream();
        let end = (ws[0].0 + ws[0].1.len()) as nat;
        assert(small_enough(ws[0].0 as nat + ws[0].1.len()));
        self.lemma_all_readable(r, 0, sm.n() - 1);
        let fs = frag_bytes(write_exp(sm, end)) as int;
        lemma_exp_range(end, 12, 22);
        lemma_exp_range(grown_size(sm, end), 12, 22);
        lemma_frag_bytes(write_exp(sm, end));
        let last = (end - 1) / fs;
        let first = ws[0].0 as int / fs;
        assert(first >= 0) by (nonlinear_arith)
            requires
                first == ws[0].0 as int / fs,
                ws[0].0 >= 0,
                fs >= 1,
        ;
        self.lemma_all_readable(
            r,
            first,
            if last < sm.n() {
                last
            } else {
                sm.n() - 1
            },
        );
    }
}

fn copy_writes(ws: &Vec<PendingWrite>) -> (r: Vec<PendingWrite>)
    ensures
        writes_view(r@) == writes_view(ws@),
        r@.len() == ws@.len(),
{
    let mut r: Vec<PendingWrite> = Vec::new();
    let mut i: usize = 0;
    while i < ws.len()
        invariant
            i <= ws.len(),
            r@.len() == i,
            forall|k: int| 0 <= k < i ==> write_view(#[trigger] r@[k]) == write_view(ws@[k]),
        decreases ws.len() - i,
    {
        r.push(PendingWrite { offset: ws[i].offset, data: copy_bytes(&ws[i].data) });
        i = i + 1;
    }
    proof {
        assert(writes_view(r@) =~= writes_view(ws@));
    }
    r
}

proof fn lemma_path_of(pairs: Seq<(Seq<u8>, Uuid)>, uuid: Uuid)
    ensures
        path_of(pairs, uuid) is Some ==> pairs.contains((path_of(pairs, uuid)->Some_0, uuid)),
    decreases pairs.len(),
{
    if pairs.len() > 0 {
        let p = pairs.drop_last();
        lemma_path_of(p, uuid);
        if pairs.last().1 == uuid && valid_utf8(pairs.last().0) {
            assert(pairs[pairs.len() - 1] == (pairs.last().0, uuid));
        } else if path_of(p, uuid) is Some {
            let e = (path_of(p, uuid)->Some_0, uuid);
            let i = choose|i: int| 0 <= i < p.len() && p[i] == e;
            assert(pairs[i] == e);
        }
    }
}

impl<C: Crypto> Engine<C> {
    /// The path that the pending writes of the `j`th unit are flushed through.
    pub open spec fn flush_path(&self, j: int) -> Option<Seq<u8>> {
        path_of(self.keys.pairs(), self.overlay@[j].uuid)
    }

    /// The units whose pending writes are flushed.
    pub open spec fn flushed(&self, n: int) -> Set<Seq<u8>> {
        Set::new(
            |k: Seq<u8>|
                exists|j: int|
                    0 <= j < n && (#[trigger] self.overlay@[j]).uuid@ == k && self.flush_path(j)
                        is Some,
        )
    }

    /// The pending writes stay within machine limits.
    pub open spec fn checkpoint_fits(&self) -> bool {
        forall|j: int|
            0 <= j < self.overlay@.len() && #[trigger] self.flush_path(j) is Some && self.head(
                self.flush_path(j)->Some_0,
            ) is Ok ==> writes_fit_stream(
                self.head(self.flush_path(j)->Some_0)->Ok_0.2.stream(),
                self.local_alias,
                writes_view(self.overlay@[j].writes@),
            )
    }

    /// Every pending write goes through.
    pub open spec fn checkpoint_owed(&self) -> bool {
        forall|j: int|
            0 <= j < self.overlay@.len() && #[trigger] self.flush_path(j) is Some ==> self.head(
                self.flush_path(j)->Some_0,
            ) is Ok && self.can_flush(
                self.head(self.flush_path(j)->Some_0)->Ok_0.2,
                writes_view(self.overlay@[j].writes@),
            )
    }

    /// The number of the last log record.
    pub open spec fn last_logged(&self) -> u64 {
        match self.wal {
            Some(w) => if w.next_seq > 1 {
                (w.next_seq - 1) as u64
            } else {
                self.header.wal_applied_seq
            },
            None => self.header.wal_applied_seq,
        }
    }

    /// Each of the first `n` units that has a path holds its content with the
    /// pending writes over it; all others are as before.
    pub open spec fn flush_done(o: &Self, e: &Self, n: int) -> bool {
        &&& Self::units_same(o, e, o.flushed(n))
        &&& forall|l: Seq<u8>| #[trigger] e.ids@.contains_key(l) ==> o.ids@.contains_key(l)
        &&& forall|j: int|
            0 <= j < n && #[trigger] o.flush_path(j) is Some ==> {
                let k = o.overlay@[j].uuid@;
                &&& o.ids@.contains_key(k)
                &&& e.ids@.contains_key(k)
                &&& e.unit_bytes(k) == overlaid(
                    o.unit_bytes(k),
                    writes_view(o.overlay@[j].writes@),
                )
                &&& e.head_of(k).stream().geometry_ok()
                &&& stream_settled(
                    o.head_of(k).stream(),
                    e.head_of(k).stream(),
                    o.local_alias,
                    o.overlay@[j].writes@.len(),
                )
                &&& o.sound(o.head_of(k)) ==> e.sound(e.head_of(k))
            }
    }

    /// The units before number `j` are flushed in state `s`, and of unit `j` the
    /// writes before number `i` are made in state `m`; the next one fails with
    /// `x`.
    pub open spec fn flush_blocked(o: &Self, s: &Self, m: &Self, j: int, i: int, x: Error) -> bool {
        &&& 0 <= j < o.overlay@.len()
        &&& o.flush_path(j) is Some
        &&& Self::flush_done(o, s, j)
        &&& s.head(o.flush_path(j)->Some_0) == o.head(o.flush_path(j)->Some_0)
        &&& Self::write_blocked(
            s,
            m,
            o.flush_path(j)->Some_0,
            writes_view(o.overlay@[j].writes@),
            i,
            x,
        )
    }

    /// What a checkpoint did.
    pub open spec fn checkpointed(o: &Self, e: &Self, r: Result<(), Error>) -> bool {
        if o.overlay@.len() == 0 && o.wal is None {
            r is Ok && *e == *o
        } else {
            &&& o.checkpoint_owed() ==> r is Ok
            &&& e.keys@ == o.keys@
            &&& o.recs().len() <= e.recs().len()
            &&& e.recs().take(o.recs().len() as int) == o.recs()
            &&& Self::tail_grew(o, e)
            &&& r is Err ==> {
                &&& Self::same_setup(o, e)
                &&& e.header == o.header
                &&& e.disk.committed == o.disk.committed
                &&& e.snap == o.snap
                &&& e.pending_wal_applied_seq == o.pending_wal_applied_seq
                &&& exists|m: Self, s: Self, j: int, i: int| #[trigger]
                    Self::flush_blocked(o, &s, &m, j, i, r->Err_0)
            }
            &&& r is Ok && o.records_fit() ==> e.records_fit()
            &&& r is Ok ==> {
                &&& Self::flush_done(o, e, o.overlay@.len() as int)
                &&& e.overlay@.len() == 0
                &&& e.wal == match o.wal {
                    None => None,
                    Some(w) => Some(WalState { write_cursor: 0, ..w }),
                }
                &&& Self::same_setup(
                    o,
                    &(Engine { wal: o.wal, overlay: o.overlay, ..*e }),
                )
                &&& Self::commit_step(
                    &(Engine { pending_wal_applied_seq: Some(o.last_logged()), ..*o }),
                    &(Engine { wal: o.wal, ..*e }),
                )
            }
        }
    }

    fn find_path(&self, uuid: &Uuid) -> (r: Option<Vec<u8>>)
        ensures
            r is None <==> path_of(self.keys.pairs(), *uuid) is None,
            r is Some ==> path_of(self.keys.pairs(), *uuid) == Some(r->Some_0@),
    {
        let ghost pairs = self.keys.pairs();
        let mut i: usize = self.keys.len();
        proof {
            assert(pairs.take(i as int) =~= pairs);
        }
        while i > 0
            invariant
                pairs == self.keys.pairs(),
                i <= pairs.len(),
                path_of(pairs, *uuid) == path_of(pairs.take(i as int), *uuid),
            decreases i,
        {
            let (k, u): (Vec<u8>, Uuid) = self.keys.pair_at(i - 1);
            proof {
                assert(pairs.take(i as int).last() == pairs[i - 1]);
                assert(pairs.take(i as int).drop_last() =~= pairs.take(i - 1));
            }
            if same16(&u, uuid) {
                let copy: Vec<u8> = copy_range(k.as_slice(), 0, k.len());
                proof {
                    assert(copy@ =~= k@);
                }
                if string_from_utf8(copy).is_some() {
                    return Some(k);
                }
            }
            i = i - 1;
        }
        None
    }

    /// A path leads to its unit.
    proof fn lemma_path_head(&self, j: int)
        requires
            self.inv(),
            0 <= j < self.overlay@.len(),
            self.flush_path(j) is Some,
        ensures
            self.keys@.contains_key(self.flush_path(j)->Some_0),
            self.keys@[self.flush_path(j)->Some_0] == self.overlay@[j].uuid,
    {
        let pairs = self.keys.pairs();
        let uuid = self.overlay@[j].uuid;
        lemma_path_of(pairs, uuid);
        lemma_map_of(pairs);
        let e = (self.flush_path(j)->Some_0, uuid);
        let i = choose|i: int| 0 <= i < pairs.len() && pairs[i] == e;
        assert(map_of(pairs).contains_key(pairs[i].0));
    }

    /// Makes all pending writes part of the content. While it runs nothing is
    /// committed; the commit at the end takes everything up at once. The pending
    /// writes of units without a path are dropped.
    pub fn checkpoint_inner(&mut self) -> (r: Result<(), Error>)
        requires
            old(self).inv(),
            old(self).header.commit_seq < u64::MAX,
            old(self).checkpoint_fits(),
        ensures
            final(self).inv(),
            old(self).recoverable() ==> final(self).recoverable(),
            Self::checkpointed(old(self), final(self), r),
    {
        if self.overlay.len() == 0 && self.wal.is_none() {
            return Ok(());
        }
        let max_seq: u64 = match &self.wal {
            None => self.header.wal_applied_seq,
            Some(w) => if w.next_seq > 1 {
                w.next_seq - 1
            } else {
                self.header.wal_applied_seq
            },
        };
        let ghost o = *self;
        let outer: bool = self.suppress_commit;
        self.suppress_commit = true;
        let n: usize = self.overlay.len();
        let mut j: usize = 0;
        proof {
            assert(o.flushed(0) =~= Set::<Seq<u8>>::empty());
            Self::lemma_tail_same(&o, &*self);
            assert(o.recs().take(o.recs().len() as int) =~= o.recs());
        }
        while j < n
            invariant
                o == *old(self),
                o.inv(),
                o.checkpoint_fits(),
                outer == o.suppress_commit,
                n == o.overlay@.len(),
                j <= n,
                self.inv(),
                o.recoverable() ==> self.recoverable(),
                o.header.commit_seq < u64::MAX,
                self.suppress_commit,
                Self::same_setup(&o, &(Engine { suppress_commit: outer, ..*self })),
                self.header == o.header,
                self.disk.committed == o.disk.committed,
                self.snap == o.snap,
                self.pending_wal_applied_seq == o.pending_wal_applied_seq,
                self.keys@ == o.keys@,
                Self::flush_done(&o, &*self, j as int),
                o.records_fit() ==> self.records_fit(),
                o.recs().len() <= self.recs().len(),
                self.recs().take(o.recs().len() as int) == o.recs(),
                Self::tail_grew(&o, &*self),
            decreases n - j,
        {
            let uuid: Uuid = self.overlay[j].uuid;
            let ghost before = *self;
            proof {
                crate::catalog::lemma_map_of_canonical(o.keys.pairs(), self.keys.pairs());
                assert(self.keys.pairs() == o.keys.pairs());
            }
            let path: Option<Vec<u8>> = self.find_path(&uuid);
            match path {
                None => {
                    proof {
                        assert(o.flush_path(j as int) is None);
                        assert(o.flushed(j + 1) =~= o.flushed(j as int));
                    }
                },
                Some(key) => {
                    let ghost k = uuid@;
                    let writes: Vec<PendingWrite> = copy_writes(&self.overlay[j].writes);
                    proof {
                        assert(o.flush_path(j as int) == Some(key@));
                        o.lemma_path_head(j as int);
                        assert(!o.flushed(j as int).contains(k)) by {
                            if o.flushed(j as int).contains(k) {
                                let i = choose|i: int|
                                    0 <= i < j && (#[trigger] o.overlay@[i]).uuid@ == k
                                        && o.flush_path(i) is Some;
                                assert(o.overlay@[i].uuid =~= o.overlay@[j as int].uuid);
                            }
                        }
                        if o.ids@.contains_key(k) {
                            assert(self.ids@.contains_key(k));
                            assert(self.head_of(k) == o.head_of(k));
                        }
                        assert(self.trust() == o.trust());
                        assert(self.head(key@) == o.head(key@));
                        assert(writes_view(self.overlay@[j as int].writes@).len()
                            == self.overlay@[j as int].writes@.len());
                        if o.head(key@) is Ok {
                            let r = o.head(key@)->Ok_0.2;
                            assert(r == o.head_of(k));
                            Self::lemma_units_same_reads(
                                &o,
                                &*self,
                                o.flushed(j as int),
                                k,
                            );
                            if o.can_flush(r, writes_view(writes@)) {
                                assert forall|f: int| 0 <= f < r.stream().n() implies
                                    #[trigger] self.readable(r, f) by {
                                    assert(o.readable(r, f));
                                }
                                assert(self.can_flush(r, writes_view(writes@)));
                            }
                        }
                    }
                    let (done, at): (Result<(), Error>, Ghost<(Self, int)>) = self.flush_unit(
                        key.as_slice(),
                        &writes,
                    );
                    proof {
                        Self::lemma_tail_grew_trans(&o, &before, &*self);
                    }
                    match done {
                        Err(e) => {
                            proof {
                                lemma_prefix_trans(o.recs(), before.recs(), self.recs());
                                assert(o.flush_path(j as int) is Some);
                                assert(!o.checkpoint_owed());
                                assert(Self::flush_blocked(
                                    &o,
                                    &before,
                                    &at@.0,
                                    j as int,
                                    at@.1,
                                    e,
                                ));
                            }
                            self.suppress_commit = outer;
                            return Err(e);
                        },
                        Ok(()) => {},
                    }
                    proof {
                        assert(o.flushed(j + 1) =~= o.flushed(j as int).insert(k)) by {
                            assert forall|x: Seq<u8>| o.flushed(j + 1).contains(x) == o.flushed(
                                j as int,
                            ).insert(k).contains(x) by {
                                if o.flushed(j + 1).contains(x) {
                                    let i = choose|i: int|
                                        0 <= i < j + 1 && (#[trigger] o.overlay@[i]).uuid@ == x
                                            && o.flush_path(i) is Some;
                                    if i < j {
                                        assert(o.overlay@[i].uuid@ == x);
                                    }
                                }
                                if o.flushed(j as int).contains(x) {
                                    let i = choose|i: int|
                                        0 <= i < j && (#[trigger] o.overlay@[i]).uuid@ == x
                                            && o.flush_path(i) is Some;
                                    assert(o.overlay@[i].uuid@ == x);
                                }
                                assert(o.overlay@[j as int].uuid@ == k);
                            }
                        }
                        Self::lemma_flush_done_step(&o, &before, &*self, j as int);
                        lemma_prefix_trans(o.recs(), before.recs(), self.recs());
                    }
                },
            }
            j = j + 1;
        }
        let ghost looped = *self;
        self.pending_wal_applied_seq = Some(max_seq);
        self.suppress_commit = outer;
        self.publish();
        self.overlay = Vec::new();
        match self.wal {
            None => {},
            Some(w) => {
                self.wal = Some(WalState { write_cursor: 0, next_seq: w.next_seq });
            },
        }
        proof {
            Self::lemma_flush_done_kept(&o, &looped, &*self, n as int);
        }
        Ok(())
    }

    proof fn lemma_flush_done_step(o: &Self, a: &Self, b: &Self, j: int)
        requires
            o.inv(),
            a.inv(),
            0 <= j < o.overlay@.len(),
            o.flush_path(j) is Some,
            Self::flush_done(o, a, j),
            !o.flushed(j).contains(o.overlay@[j].uuid@),
            o.flushed(j + 1) == o.flushed(j).insert(o.overlay@[j].uuid@),
            forall|l: Seq<u8>| #[trigger] b.ids@.contains_key(l) ==> a.ids@.contains_key(l),
            ({
                let k = o.overlay@[j].uuid@;
                &&& o.ids@.contains_key(k)
                &&& Self::units_same(a, b, Set::<Seq<u8>>::empty().insert(k))
                &&& b.ids@.contains_key(k)
                &&& a.unit_bytes(k) == o.unit_bytes(k)
                &&& b.unit_bytes(k) == overlaid(
                    a.unit_bytes(k),
                    writes_view(o.overlay@[j].writes@),
                )
                &&& b.head_of(k).stream().geometry_ok()
                &&& stream_settled(
                    o.head_of(k).stream(),
                    b.head_of(k).stream(),
                    o.local_alias,
                    o.overlay@[j].writes@.len(),
                )
                &&& o.sound(o.head_of(k)) ==> b.sound(b.head_of(k))
            }),
            a.root_key == b.root_key,
            a.header == b.header,
        ensures
            Self::flush_done(o, b, j + 1),
    {
        let k = o.overlay@[j].uuid@;
        let only = Set::<Seq<u8>>::empty().insert(k);
        Self::lemma_units_same_trans(o, a, b, o.flushed(j), k);
        assert forall|i: int| 0 <= i < j + 1 && #[trigger] o.flush_path(i) is Some implies {
            let l = o.overlay@[i].uuid@;
            &&& o.ids@.contains_key(l)
            &&& b.ids@.contains_key(l)
            &&& b.unit_bytes(l) == overlaid(o.unit_bytes(l), writes_view(o.overlay@[i].writes@))
            &&& b.head_of(l).stream().geometry_ok()
            &&& stream_settled(
                o.head_of(l).stream(),
                b.head_of(l).stream(),
                o.local_alias,
                o.overlay@[i].writes@.len(),
            )
            &&& o.sound(o.head_of(l)) ==> b.sound(b.head_of(l))
        } by {
            if i < j {
                let l = o.overlay@[i].uuid@;
                assert(o.overlay@[i].uuid != o.overlay@[j].uuid);
                if l == k {
                    assert(o.overlay@[i].uuid =~= o.overlay@[j].uuid);
                }
                assert(a.ids@.contains_key(l));
                Self::lemma_units_same_reads(a, b, only, l);
            }
        }
        assert forall|l: Seq<u8>| #[trigger] b.ids@.contains_key(l) implies o.ids@.contains_key(
            l,
        ) by {
            assert(a.ids@.contains_key(l));
        }
    }

    /// Committing changes nothing of what was flushed.
    proof fn lemma_flush_done_kept(o: &Self, a: &Self, b: &Self, n: int)
        requires
            Self::flush_done(o, a, n),
            b.ids@ == a.ids@,
            b.recs() == a.recs(),
            Self::same_reads(a, b),
        ensures
            Self::flush_done(o, b, n),
    {
        assert forall|j: int| 0 <= j < n && #[trigger] o.flush_path(j) is Some implies {
            let k = o.overlay@[j].uuid@;
            &&& o.ids@.contains_key(k)
            &&& b.ids@.contains_key(k)
            &&& b.unit_bytes(k) == overlaid(o.unit_bytes(k), writes_view(o.overlay@[j].writes@))
            &&& b.head_of(k).stream().geometry_ok()
            &&& stream_settled(
                o.head_of(k).stream(),
                b.head_of(k).stream(),
                o.local_alias,
                o.overlay@[j].writes@.len(),
            )
            &&& o.sound(o.head_of(k)) ==> b.sound(b.head_of(k))
        } by {
            let k = o.overlay@[j].uuid@;
            let m = a.head_of(k);
            Self::lemma_same_contents(a, b, m);
            if o.sound(o.head_of(k)) {
                assert(a.sound(m));
                assert forall|f: int|
                    0 <= f < m.stream().n() && !Self::hole_at(m, f) implies #[trigger] b.frag(
                    m,
                    f,
                ) is Ok && b.frag(m, f)->Ok_0.len() <= crate::block::frag_bytes(
                    m.stream().fragsize_exp,
                ) by {
                    assert(a.frag(m, f) is Ok);
                }
            }
        }
        assert forall|l: Seq<u8>|
            #![trigger o.ids@.contains_key(l)]
            #![trigger b.ids@.contains_key(l)]
            !o.flushed(n).contains(l) && o.ids@.contains_key(l) implies b.ids@.contains_key(l)
            && b.ids@[l] == o.ids@[l] && b.head_of(l) == o.head_of(l) by {
            assert(a.ids@.contains_key(l));
        }
        assert forall|l: Seq<u8>| #[trigger] b.ids@.contains_key(l) implies o.ids@.contains_key(
            l,
        ) by {
            assert(a.ids@.contains_key(l));
        }
    }
}

/// The records of the log that the last commit does not contain.
pub open spec fn unapplied(ws: Seq<WalModel>, applied: u64) -> Seq<WalModel>
    decreases ws.len(),
{
    if ws.len() == 0 {
        Seq::empty()
    } else {
        let p = unapplied(ws.drop_last(), applied);
        if ws.last().seq > applied {
            p.push(ws.last())
        } else {
            p
        }
    }
}

/// The number of the last log record, `applied` without any.
pub open spec fn last_seq(ws: Seq<WalModel>, applied: u64) -> u64
    decreases ws.len(),
{
    if ws.len() == 0 {
        applied
    } else {
        let p = last_seq(ws.drop_last(), applied);
        if ws.last().seq > p {
            ws.last().seq
        } else {
            p
        }
    }
}

impl<C: Crypto> Engine<C> {
    /// Makes all pending writes part of the content and commits.
    pub fn checkpoint(&mut self) -> (r: Result<(), Error>)
        requires
            old(self).inv(),
            old(self).header.commit_seq < u64::MAX,
            old(self).checkpoint_fits(),
        ensures
            final(self).inv(),
            old(self).recoverable() ==> final(self).recoverable(),
            Self::checkpointed(old(self), final(self), r),
    {
        self.checkpoint_inner()
    }

    /// The engine with commits held back.
    pub open spec fn held_back(&self) -> Self {
        Engine { suppress_commit: true, ..*self }
    }

    /// A checkpoint whose commit never lands.
    pub fn checkpoint_simulate_crash_before_publish(&mut self) -> (r: Result<(), Error>)
        requires
            old(self).inv(),
            old(self).header.commit_seq < u64::MAX,
            old(self).checkpoint_fits(),
        ensures
            final(self).inv(),
            old(self).recoverable() ==> final(self).recoverable(),
            exists|mid: Self| #[trigger]
                Self::checkpointed(&old(self).held_back(), &mid, r) && *final(self) == (Engine {
                    suppress_commit: old(self).suppress_commit,
                    pending_wal_applied_seq: None,
                    ..mid
                }),
            final(self).disk.committed == old(self).disk.committed,
    {
        let outer: bool = self.suppress_commit;
        self.suppress_commit = true;
        proof {
            let s = *self;
            let o = *old(self);
            assert forall|j: int|
                0 <= j < s.overlay@.len() && #[trigger] s.flush_path(j) is Some && s.head(
                    s.flush_path(j)->Some_0,
                ) is Ok implies writes_fit_stream(
                s.head(s.flush_path(j)->Some_0)->Ok_0.2.stream(),
                s.local_alias,
                writes_view(s.overlay@[j].writes@),
            ) by {
                assert(o.flush_path(j) is Some);
                assert(o.head(o.flush_path(j)->Some_0) == s.head(s.flush_path(j)->Some_0));
            }
        }
        let r: Result<(), Error> = self.checkpoint_inner();
        let ghost mid = *self;
        self.suppress_commit = outer;
        self.pending_wal_applied_seq = None;
        proof {
            assert(Self::checkpointed(&old(self).held_back(), &mid, r));
        }
        r
    }

    /// Gives the container a log. A container that has one keeps it.
    pub fn enable_wal(&mut self)
        requires
            old(self).inv(),
            old(self).header.commit_seq < u64::MAX,
            old(self).header.wal_applied_seq < u64::MAX,
        ensures
            final(self).inv(),
            old(self).recoverable() ==> final(self).recoverable(),
            old(self).wal is Some ==> *final(self) == *old(self),
            old(self).wal is None ==> {
                let armed = Engine {
                    wal: Some(
                        WalState {
                            write_cursor: 0,
                            next_seq: (old(self).header.wal_applied_seq + 1) as u64,
                        },
                    ),
                    ..*old(self)
                };
                &&& final(self).suppress_commit ==> *final(self) == armed
                &&& !final(self).suppress_commit ==> Self::published(&armed, final(self))
            },
    {
        if self.wal.is_some() {
            return;
        }
        self.wal = Some(WalState { write_cursor: 0, next_seq: self.header.wal_applied_seq + 1 });
        self.publish();
    }

    /// Whether the container has a log.
    pub fn wal_mode_active(&self) -> (r: bool)
        ensures
            r == self.wal is Some,
    {
        self.wal.is_some()
    }

    /// What a log record is sealed in: a fragment number that no fragment has,
    /// and the record's number.
    pub open spec fn log_ctx(&self, uuid: Uuid, seq: u64) -> BlockCtx {
        BlockCtx { uuid, frag: 0xffff_ffff, version: seq, key_epoch: self.header.key_epoch }
    }

    /// A payload as it is logged: padded to the suite's minimum.
    pub open spec fn log_payload(&self, data: Seq<u8>) -> Seq<u8> {
        resized(
            data,
            if data.len() >= C::min_len(self.header.content_cipher) {
                data.len()
            } else {
                C::min_len(self.header.content_cipher)
            },
        )
    }

    /// The log record of a write.
    pub open spec fn log_record(&self, uuid: Uuid, offset: u64, data: Seq<u8>) -> WalModel {
        let seq = self.wal->Some_0.next_seq;
        WalModel {
            seq,
            uuid,
            logical_offset: offset,
            plaintext_len: data.len() as u32,
            ciphertext: C::sealed(
                self.header.content_cipher,
                self.root_key,
                self.log_ctx(uuid, seq),
                self.log_payload(data),
            ),
        }
    }

    /// A write was logged, and is pending.
    pub open spec fn log_step(o: &Self, e: &Self, uuid: Uuid, offset: u64, data: Seq<u8>) -> bool {
        let w = o.wal->Some_0;
        let rec = o.log_record(uuid, offset, data);
        &&& o.wal is Some
        &&& w.write_cursor + 48 + rec.ciphertext.len() <= 8388608
        &&& wal_view(e.disk.wal@) == (if w.write_cursor == 0 {
            Seq::empty()
        } else {
            wal_view(o.disk.wal@)
        }).push(rec)
        &&& e.wal == Some(
            WalState {
                write_cursor: (w.write_cursor + 48 + rec.ciphertext.len()) as u64,
                next_seq: (w.next_seq + 1) as u64,
            },
        )
        &&& pending_of(e.overlay@, uuid) == put_write(pending_of(o.overlay@, uuid), offset, data)
        &&& forall|v: Uuid|
            v != uuid ==> #[trigger] pending_of(e.overlay@, v) == pending_of(o.overlay@, v)
        &&& *e == (Engine {
            disk: (Container { wal: e.disk.wal, ..o.disk }),
            wal: e.wal,
            overlay: e.overlay,
            ..*o
        })
    }

    /// The bytes that the log record of a write takes.
    pub open spec fn log_len(&self, uuid: Uuid, offset: u64, data: Seq<u8>) -> nat {
        48 + self.log_record(uuid, offset, data).ciphertext.len()
    }

    fn append_log(&mut self, uuid: &Uuid, offset: u64, data: &[u8], ciphertext: Vec<u8>)
        requires
            old(self).inv(),
            old(self).wal is Some,
            old(self).wal->Some_0.next_seq < u64::MAX,
            offset + data@.len() <= usize::MAX,
            ciphertext@ == old(self).log_record(*uuid, offset, data@).ciphertext,
            old(self).wal->Some_0.write_cursor + 48 + ciphertext@.len() <= 8388608,
            data@.len() <= u32::MAX,
        ensures
            final(self).inv(),
            old(self).recoverable() ==> final(self).recoverable(),
            Self::log_step(old(self), final(self), *uuid, offset, data@),
    {
        let w: WalState = match self.wal {
            None => {
                return;
            },
            Some(w) => w,
        };
        let len: u64 = WAL_RECORD_OVERHEAD + ciphertext.len() as u64;
        if w.write_cursor == 0 {
            self.disk.wal = Vec::new();
            proof {
                assert(wal_view(self.disk.wal@) =~= Seq::<WalModel>::empty());
            }
        }
        let ghost before = wal_view(self.disk.wal@);
        proof {
            assert(w.write_cursor == wal_total(before));
        }
        let rec: WalRecord = WalRecord {
            seq: w.next_seq,
            uuid: *uuid,
            logical_offset: offset,
            plaintext_len: data.len() as u32,
            ciphertext,
        };
        self.disk.wal.push(rec);
        proof {
            let after = wal_view(self.disk.wal@);
            assert(after =~= before.push(rec@));
            assert(after.drop_last() =~= before);
            assert(after.last() == rec@);
            assert(wal_total(after) == wal_total(before) + 48 + rec.ciphertext@.len());
            assert forall|i: int| 0 <= i < after.len() implies (
            #[trigger] after[i]).logical_offset + after[i].plaintext_len <= usize::MAX
                && after[i].seq < u64::MAX by {
                if i < before.len() {
                    assert(after[i] == before[i]);
                }
            }
        }
        self.wal = Some(
            WalState { write_cursor: w.write_cursor + len, next_seq: w.next_seq + 1 },
        );
        let copy: Vec<u8> = copy_range(data, 0, data.len());
        proof {
            assert(copy@ =~= data@);
        }
        add_pending(&mut self.overlay, uuid, offset, copy);
    }

    /// Why a write cannot be logged, before its size is looked at.
    pub open spec fn log_error(&self, key: Seq<u8>, len: nat) -> Option<Error> {
        if len == 0 || self.wal is None {
            Some(Error::Integrity)
        } else if !self.keys@.contains_key(key) {
            Some(Error::NotFound)
        } else if !C::known(self.header.content_cipher) {
            Some(Error::Crypto)
        } else {
            None
        }
    }

    /// Logs a write: it is durable and reads see it, but it is not part of the
    /// committed content before the next checkpoint. A full log is checkpointed
    /// first; a write that does not even fit an empty log is refused.
    pub fn write_async(&mut self, path: &str, offset: u64, data: &[u8]) -> (r: Result<(), Error>)
        requires
            old(self).inv(),
            old(self).header.commit_seq < u64::MAX,
            old(self).wal is Some ==> old(self).wal->Some_0.next_seq < u64::MAX,
            old(self).checkpoint_fits(),
            offset + data@.len() <= usize::MAX,
            data@.len() <= u32::MAX,
        ensures
            final(self).inv(),
            old(self).recoverable() ==> final(self).recoverable(),
            match old(self).log_error(path.spec_bytes(), data@.len()) {
                Some(e) => r == Err::<(), Error>(e) && *final(self) == *old(self),
                None => {
                    let uuid = old(self).keys@[path.spec_bytes()];
                    let len = old(self).log_len(uuid, offset, data@);
                    if old(self).wal->Some_0.write_cursor + len <= 8388608 {
                        r is Ok && Self::log_step(old(self), final(self), uuid, offset, data@)
                    } else {
                        ||| r is Err && Self::checkpointed(old(self), final(self), r)
                        ||| len > 8388608 && r == Err::<(), Error>(Error::Integrity)
                            && Self::checkpointed(old(self), final(self), Ok(()))
                        ||| len <= 8388608 && r is Ok && exists|mid: Self|
                            #![trigger Self::checkpointed(old(self), &mid, Ok(()))]
                            Self::checkpointed(old(self), &mid, Ok(())) && Self::log_step(
                                &mid,
                                final(self),
                                uuid,
                                offset,
                                data@,
                            )
                    }
                },
            },
    {
        if data.len() == 0 {
            return Err(Error::Integrity);
        }
        let w: WalState = match self.wal {
            None => {
                return Err(Error::Integrity);
            },
            Some(w) => w,
        };
        let uuid: Uuid = match self.keys.get(path.as_bytes()) {
            None => {
                return Err(Error::NotFound);
            },
            Some(u) => u,
        };
        let suite: u8 = self.header.content_cipher;
        if !C::is_known(suite) {
            return Err(Error::Crypto);
        }
        let min: usize = C::min_plaintext_len(suite);
        let mut payload: Vec<u8> = copy_range(data, 0, data.len());
        if payload.len() < min {
            let gap: usize = min - payload.len();
            push_zeros(&mut payload, gap);
        }
        proof {
            assert(payload@ =~= self.log_payload(data@));
        }
        let ctx: BlockCtx = BlockCtx {
            uuid,
            frag: u32::MAX,
            version: w.next_seq,
            key_epoch: self.header.key_epoch,
        };
        proof {
            C::lemma_seal_len(suite, self.root_key, ctx, payload@);
        }
        let ciphertext: Vec<u8> = C::seal(suite, &self.root_key, &ctx, payload.as_slice());
        let len: u64 = WAL_RECORD_OVERHEAD + ciphertext.len() as u64;
        if w.write_cursor + len > WAL_REGION_SIZE {
            match self.checkpoint() {
                Err(e) => {
                    return Err(e);
                },
                Ok(()) => {},
            }
            if len > WAL_REGION_SIZE {
                return Err(Error::Integrity);
            }
        }
        let ghost mid = *self;
        self.append_log(&uuid, offset, data, ciphertext);
        proof {
            if w.write_cursor + len > WAL_REGION_SIZE {
                assert(Self::checkpointed(old(self), &mid, Ok(())));
            }
        }
        Ok(())
    }
}


impl<C: Crypto> Engine<C> {
    /// What a log record holds, if it opens.
    pub open spec fn log_plain(&self, w: WalModel) -> Option<Seq<u8>> {
        if !C::known(self.header.content_cipher) {
            None
        } else {
            match C::opened(
                self.header.content_cipher,
                self.root_key,
                self.log_ctx(w.uuid, w.seq),
                w.ciphertext,
            ) {
                None => None,
                Some(p) => Some(
                    if p.len() > w.plaintext_len {
                        p.take(w.plaintext_len as int)
                    } else {
                        p
                    },
                ),
            }
        }
    }

    /// Every one of the log records opens.
    pub open spec fn log_opens(&self, ws: Seq<WalModel>) -> bool {
        forall|i: int| 0 <= i < ws.len() ==> self.log_plain(#[trigger] ws[i]) is Some
    }

    /// The pending writes to unit `u` that the log records make up.
    pub open spec fn log_writes(&self, ws: Seq<WalModel>, u: Uuid) -> Seq<(u64, Seq<u8>)>
        decreases ws.len(),
    {
        if ws.len() == 0 {
            Seq::empty()
        } else {
            let p = self.log_writes(ws.drop_last(), u);
            if ws.last().uuid == u && self.log_plain(ws.last()) is Some {
                put_write(p, ws.last().logical_offset, self.log_plain(ws.last())->Some_0)
            } else {
                p
            }
        }
    }

    /// The log records that are not part of the committed content.
    pub open spec fn log_left(&self) -> Seq<WalModel> {
        unapplied(wal_view(self.disk.wal@), self.header.wal_applied_seq)
    }

    /// What replaying the log gives.
    pub open spec fn replayed(o: &Self, e: &Self) -> bool {
        let ws = o.log_left();
        &&& wal_view(e.disk.wal@) == ws
        &&& e.wal == Some(
            WalState {
                write_cursor: wal_total(ws) as u64,
                next_seq: (last_seq(ws, o.header.wal_applied_seq) + 1) as u64,
            },
        )
        &&& forall|u: Uuid| #[trigger] pending_of(e.overlay@, u) == o.log_writes(ws, u)
        &&& *e == (Engine {
            disk: (Container { wal: e.disk.wal, ..o.disk }),
            wal: e.wal,
            overlay: e.overlay,
            ..*o
        })
    }

    /// Keeps the log records that are not part of the committed content.
    fn trim_log(&mut self)
        requires
            old(self).inv(),
            old(self).wal is None,
        ensures
            final(self).inv(),
            old(self).recoverable() ==> final(self).recoverable(),
            wal_view(final(self).disk.wal@) == old(self).log_left(),
            *final(self) == (Engine {
                disk: (Container { wal: final(self).disk.wal, ..old(self).disk }),
                ..*old(self)
            }),
    {
        let min: u64 = self.header.wal_applied_seq;
        let ghost all = wal_view(self.disk.wal@);
        let mut left: Vec<WalRecord> = Vec::new();
        let n: usize = self.disk.wal.len();
        let mut i: usize = 0;
        proof {
            assert(all.take(0) =~= Seq::empty());
            assert(wal_view(left@) =~= Seq::empty());
        }
        while i < n
            invariant
                n == self.disk.wal@.len(),
                i <= n,
                *self == *old(self),
                min == self.header.wal_applied_seq,
                all == wal_view(self.disk.wal@),
                wal_log_ok(all),
                wal_view(left@) == unapplied(all.take(i as int), min),
                wal_total(wal_view(left@)) <= wal_total(all.take(i as int)),
                forall|k: int|
                    0 <= k < left@.len() ==> (#[trigger] left@[k])@.logical_offset
                        + left@[k]@.plaintext_len <= usize::MAX && left@[k]@.seq < u64::MAX,
            decreases n - i,
        {
            let w: &WalRecord = &self.disk.wal[i];
            proof {
                assert(all.take(i + 1).drop_last() =~= all.take(i as int));
                assert(all.take(i + 1).last() == all[i as int]);
            }
            if w.seq > min {
                let ghost before = wal_view(left@);
                left.push(
                    WalRecord {
                        seq: w.seq,
                        uuid: w.uuid,
                        logical_offset: w.logical_offset,
                        plaintext_len: w.plaintext_len,
                        ciphertext: copy_bytes(&w.ciphertext),
                    },
                );
                proof {
                    assert(wal_view(left@) =~= before.push(all[i as int]));
                    assert(before.push(all[i as int]).drop_last() =~= before);
                }
            }
            i = i + 1;
        }
        proof {
            assert(all.take(n as int) =~= all);
        }
        self.disk.wal = left;
    }

    /// Takes up the writes that were logged and not checkpointed: they are
    /// pending again.
    pub fn replay_wal(&mut self) -> (r: Result<(), Error>)
        requires
            old(self).inv(),
            old(self).wal is None,
            old(self).overlay@.len() == 0,
            old(self).header.wal_applied_seq < u64::MAX,
        ensures
            r is Ok ==> final(self).inv(),
            r is Ok && old(self).recoverable() ==> final(self).recoverable(),
            match old(self).replay_error() {
                Some(e) => r == Err::<(), Error>(e),
                None => r is Ok && Self::replayed(old(self), final(self)),
            },
    {
        self.trim_log();
        let ghost o = *self;
        let ghost ws = wal_view(self.disk.wal@);
        let n: usize = self.disk.wal.len();
        let suite: u8 = self.header.content_cipher;
        if n > 0 && !C::is_known(suite) {
            return Err(Error::Crypto);
        }
        let mut overlay: Vec<PendingUnit> = Vec::new();
        let mut top: u64 = self.header.wal_applied_seq;
        let mut used: u64 = 0;
        let mut i: usize = 0;
        proof {
            assert(ws.take(0) =~= Seq::empty());
            lemma_total_take(ws, 0);
        }
        while i < n
            invariant
                n == self.disk.wal@.len(),
                n > 0 ==> C::known(suite),
                suite == self.header.content_cipher,
                i <= n,
                *self == o,
                ws == wal_view(self.disk.wal@),
                wal_log_ok(ws),
                ws == old(self).log_left(),
                old(self).header == self.header,
                old(self).root_key == self.root_key,
                overlay_ok(overlay@),
                forall|u: Uuid| #[trigger]
                    pending_of(overlay@, u) == old(self).log_writes(ws.take(i as int), u),
                forall|k: int| 0 <= k < i ==> old(self).log_plain(#[trigger] ws[k]) is Some,
                top == last_seq(ws.take(i as int), self.header.wal_applied_seq),
                top < u64::MAX,
                used == wal_total(ws.take(i as int)),
            decreases n - i,
        {
            proof {
                assert(ws.take(i + 1).drop_last() =~= ws.take(i as int));
                assert(ws.take(i + 1).last() == ws[i as int]);
                lemma_total_take(ws, i + 1);
            }
            let w: &WalRecord = &self.disk.wal[i];
            proof {
                assert(w@ == ws[i as int]);
            }
            let ctx: BlockCtx = BlockCtx {
                uuid: w.uuid,
                frag: u32::MAX,
                version: w.seq,
                key_epoch: self.header.key_epoch,
            };
            let mut plain: Vec<u8> = match C::open(
                suite,
                &self.root_key,
                &ctx,
                w.ciphertext.as_slice(),
            ) {
                None => {
                    proof {
                        assert(old(self).log_plain(ws[i as int]) is None);
                    }
                    return Err(Error::Integrity);
                },
                Some(p) => p,
            };
            if plain.len() > w.plaintext_len as usize {
                plain.truncate(w.plaintext_len as usize);
            }
            used = used + WAL_RECORD_OVERHEAD + w.ciphertext.len() as u64;
            if w.seq > top {
                top = w.seq;
            }
            let off: u64 = w.logical_offset;
            let uuid: Uuid = w.uuid;
            add_pending(&mut overlay, &uuid, off, plain);
            i = i + 1;
        }
        proof {
            assert(ws.take(n as int) =~= ws);
        }
        self.overlay = overlay;
        self.wal = Some(WalState { write_cursor: used, next_seq: top + 1 });
        Ok(())
    }

    /// Why the log cannot be replayed.
    pub open spec fn replay_error(&self) -> Option<Error> {
        let ws = self.log_left();
        if ws.len() > 0 && !C::known(self.header.content_cipher) {
            Some(Error::Crypto)
        } else if !self.log_opens(ws) {
            Some(Error::Integrity)
        } else {
            None
        }
    }
}

proof fn lemma_total_take(ws: Seq<WalModel>, i: int)
    requires
        0 <= i <= ws.len(),
    ensures
        wal_total(ws.take(i)) <= wal_total(ws),
    decreases ws.len() - i,
{
    if i < ws.len() {
        lemma_total_take(ws, i + 1);
        assert(ws.take(i + 1).drop_last() =~= ws.take(i));
    } else {
        assert(ws.take(i) =~= ws);
    }
}

} // verus!
