//! Laws on what a read gives back of a write.
use vstd::prelude::*;

use crate::block::{frag_bytes, frags_for, lemma_exp_range, lemma_frag_bytes, lemma_frags};
use crate::bytes::resized;
use crate::content::{byte_or_zero, lemma_in_fragment};
use crate::crypto::Crypto;
use crate::engine::{lemma_own_records_read_back, live, Engine};
use crate::error::Error;
use crate::heap::in_heap;
use crate::overlay::{
    gaps_shown, law_windows_show_the_writes, overlaid, overlaid_window, splice, window,
};
use crate::resize::lemma_suites_form;
use crate::unit::{hole, RecordModel, Uuid};
use crate::write::{frag_slice, grown_size, touches, write_exp, write_fits};
use crate::writerset::SignMode;

verus! {

impl<C: Crypto> Engine<C> {
    /// Every stored fragment opens, to no more than a fragment.
    pub open spec fn whole(&self, r: RecordModel) -> bool {
        forall|f: int|
            0 <= f < r.stream().n() && !Self::hole_at(r, f) ==> #[trigger] self.frag(r, f) is Ok
                && self.frag(r, f)->Ok_0.len() <= frag_bytes(r.stream().fragsize_exp)
    }

    /// The same, with fragments of a size that every suite can seal.
    pub open spec fn sound(&self, r: RecordModel) -> bool {
        &&& self.whole(r)
        &&& r.stream().n() > 0 ==> r.stream().fragsize_exp >= 6
    }

    proof fn lemma_whole_pieces(&self, r: RecordModel, k: nat)
        requires
            r.stream().geometry_ok(),
            self.whole(r),
            k < r.stream().n(),
        ensures
            self.pieces(r, k) is Ok,
            self.pieces(r, k)->Ok_0.len() == k * frag_bytes(r.stream().fragsize_exp),
            forall|i: int|
                0 <= i < self.pieces(r, k)->Ok_0.len() ==> #[trigger] self.pieces(r, k)->Ok_0[i]
                    == self.byte(r, i),
        decreases k,
    {
        let fs = frag_bytes(r.stream().fragsize_exp) as int;
        lemma_frag_bytes(r.stream().fragsize_exp);
        if k > 0 {
            let f = k - 1;
            self.lemma_whole_pieces(r, f as nat);
            let front = self.pieces(r, f as nat)->Ok_0;
            let p = self.piece(r, f)->Ok_0;
            assert(Self::hole_at(r, f) || self.frag(r, f) is Ok);
            assert(self.piece(r, f) is Ok);
            assert(p.len() == fs);
            assert(f * fs + fs == k * fs) by (nonlinear_arith)
                requires
                    f == k - 1,
            ;
            let all = self.pieces(r, k)->Ok_0;
            assert(all == front + p);
            assert forall|i: int| 0 <= i < all.len() implies #[trigger] all[i] == self.byte(r, i) by {
                if i < front.len() {
                    assert(all[i] == front[i]);
                } else {
                    lemma_in_fragment(i, f, fs);
                    assert(p[i - f * fs] == byte_or_zero(self.plain(r, f), i - f * fs));
                }
            }
        } else {
            assert(0 * fs == 0);
        }
    }

    /// Reading everything gives the content, byte by byte.
    pub proof fn law_full_read_is_the_content(&self, r: RecordModel)
        requires
            r.stream().geometry_ok(),
            self.whole(r),
        ensures
            self.full(r) == Ok::<Seq<u8>, Error>(self.contents(r)),
    {
        let sm = r.stream();
        let n = sm.n();
        let fs = frag_bytes(sm.fragsize_exp) as int;
        lemma_frag_bytes(sm.fragsize_exp);
        if n > 0 {
            let f = n - 1;
            self.lemma_whole_pieces(r, f as nat);
            let front = self.pieces(r, f as nat)->Ok_0;
            assert(Self::hole_at(r, f) || self.frag(r, f) is Ok);
            let p = self.piece(r, f)->Ok_0;
            assert(p.len() == sm.last_frag_length);
            let all = self.full(r)->Ok_0;
            assert(all == front + p);
            assert forall|i: int| 0 <= i < all.len() implies #[trigger] all[i] == self.byte(r, i) by {
                if i < front.len() {
                    assert(all[i] == front[i]);
                } else {
                    lemma_in_fragment(i, f, fs);
                    assert(p[i - f * fs] == byte_or_zero(self.plain(r, f), i - f * fs));
                }
            }
            assert(all =~= self.contents(r));
        } else {
            assert(self.contents(r) =~= Seq::<u8>::empty());
        }
    }

    proof fn lemma_range_open(&self, r: RecordModel, f: int, end: int)
        requires
            self.whole(r),
            0 <= f,
            end < r.stream().n(),
        ensures
            self.range_error(r, f, end) is None,
        decreases end + 1 - f,
    {
        if f <= end {
            assert(Self::hole_at(r, f) || self.frag(r, f) is Ok);
            self.lemma_range_open(r, f + 1, end);
        }
    }

    /// A ranged read gives that part of what reading everything gives, pending
    /// writes included.
    pub proof fn law_ranged_read_is_a_part(
        &self,
        r: RecordModel,
        ws: Seq<(u64, Seq<u8>)>,
        offset: int,
        len: int,
    )
        requires
            r.stream().geometry_ok(),
            self.whole(r),
            0 <= offset,
            0 < len,
            gaps_shown(self.full(r)->Ok_0, ws, offset + len),
        ensures
            self.full(r) is Ok,
            self.range(r, offset, len) is Ok,
            overlaid_window(self.range(r, offset, len)->Ok_0, ws, offset, offset + len) == window(
                overlaid(self.full(r)->Ok_0, ws),
                offset,
                offset + len,
            ),
    {
        let sm = r.stream();
        let size = sm.size() as int;
        let fs = frag_bytes(sm.fragsize_exp) as int;
        lemma_frag_bytes(sm.fragsize_exp);
        self.law_full_read_is_the_content(r);
        let s = self.contents(r);
        if offset < size {
            let to = if offset + len <= size {
                offset + len
            } else {
                size
            };
            crate::content::lemma_last_fragment(sm, to - 1);
            crate::content::lemma_last_fragment(sm, offset);
            self.lemma_range_open(r, offset / fs, (to - 1) / fs);
            assert forall|f: int| offset / fs <= f <= (to - 1) / fs implies #[trigger] self.readable(
                r,
                f,
            ) by {
                assert(Self::hole_at(r, f) || self.frag(r, f) is Ok);
            }
            assert(self.range(r, offset, len)->Ok_0 =~= window(s, offset, offset + len));
        } else {
            assert(window(s, offset, offset + len) =~= Seq::<u8>::empty());
        }
        law_windows_show_the_writes(s, ws, offset, offset + len);
    }

    /// A write took place at `key`.
    pub open spec fn wrote_over(
        o: &Self,
        e: &Self,
        key: Seq<u8>,
        offset: int,
        data: Seq<u8>,
    ) -> bool {
        &&& o.inv()
        &&& 0 <= offset
        &&& o.head(key) is Ok
        &&& Self::write_step(o, e, key, offset, data, Ok(()))
        &&& write_fits(o.head(key)->Ok_0.2.stream(), o.local_alias, offset, data.len())
        &&& o.reads_own_records()
    }

    /// The new head is found and can be read.
    pub proof fn lemma_head_after_write(
        o: &Self,
        e: &Self,
        key: Seq<u8>,
        offset: int,
        data: Seq<u8>,
    )
        requires
            Self::wrote_over(o, e, key, offset, data),
        ensures
            e.trust() == o.trust(),
            e.head(key) == Ok::<(Uuid, u64, RecordModel), Error>(
                (o.head(key)->Ok_0.0, e.recs().len() as u64, e.recs().last()),
            ),
    {
        let m = e.recs().last();
        let base = RecordModel { signature: None, ..m };
        o.lemma_may_sign(base);
        assert(o.may_sign());
        lemma_own_records_read_back::<C>(base, o.trust(), o.signing_key);
        assert(e.trust() == o.trust());
        if o.header.sign_mode == SignMode::Unsigned {
            assert(m == base);
        }
        assert(crate::tags::signer_ok(e, m));
    }

    /// Fragments stay whole under a write.
    pub proof fn lemma_whole_after(
        o: &Self,
        e: &Self,
        head_addr: u64,
        r0: RecordModel,
        offset: int,
        data: Seq<u8>,
        r1: RecordModel,
    )
        requires
            Self::wrote(o, e, head_addr, r0, offset, data, r1),
            o.whole(r0),
            write_fits(r0.stream(), o.local_alias, offset, data.len()),
            0 <= offset <= r0.stream().size(),
            data.len() > 0,
            64 <= frag_bytes(write_exp(r0.stream(), (offset + data.len()) as nat)),
        ensures
            e.whole(r1),
    {
        let sm0 = r0.stream();
        let sm1 = r1.stream();
        let end = (offset + data.len()) as nat;
        let exp = write_exp(sm0, end);
        let fs = frag_bytes(exp) as int;
        lemma_exp_range(end, 12, 22);
        lemma_exp_range(grown_size(sm0, end), 12, 22);
        lemma_frag_bytes(exp);
        lemma_frags(grown_size(sm0, end), exp);
        assert forall|f: int| 0 <= f < sm1.n() && !Self::hole_at(r1, f) implies #[trigger] e.frag(
            r1,
            f,
        ) is Ok && e.frag(r1, f)->Ok_0.len() <= fs by {
            if touches(sm0, offset, end, f) {
                let slice = frag_slice(o.target(r0, offset, data), fs, f);
                C::lemma_seal_len(
                    o.header.content_cipher,
                    o.root_key,
                    o.ctx(r0.uuid, f, 0),
                    slice,
                );
                assert(e.frag(r1, f) == Ok::<Seq<u8>, Error>(o.padded(slice, exp)));
                assert(f * fs <= (sm1.n() - 1) * fs) by (nonlinear_arith)
                    requires
                        f <= sm1.n() - 1,
                        fs >= 1,
                ;
                assert(slice.len() <= fs);
            } else {
                assert(sm1.locations[f] == sm0.locations[f]);
                assert(o.frag(r0, f) is Ok);
                assert(e.frag(r1, f) == o.frag(r0, f));
            }
        }
    }

    /// Metadata whose slot did not change reads the same.
    pub proof fn lemma_metadata_kept(o: &Self, e: &Self, k: Seq<u8>, r: RecordModel)
        requires
            o.inv(),
            o.ids@.contains_key(k),
            r.uuid == o.recs()[o.ids@[k] - 1].uuid,
            r.meta == o.recs()[o.ids@[k] - 1].meta,
            o.slots().len() <= e.slots().len(),
            e.root_key == o.root_key,
            e.header.cipher == o.header.cipher,
            live(o.ids@, o.recs(), k, -1) != 0 ==> e.slots()[live(o.ids@, o.recs(), k, -1) - 1]
                == o.slots()[live(o.ids@, o.recs(), k, -1) - 1],
        ensures
            e.metadata(r) == o.metadata(o.recs()[o.ids@[k] - 1]),
    {
        let a = live(o.ids@, o.recs(), k, -1);
        assert(a <= o.slots().len());
    }

    /// A read after a write gives the old content with the written bytes in it.
    /// Reads of all other units give what they gave. The write moves no path, and
    /// leaves the metadata and the document head of every unit alone.
    pub proof fn law_read_gives_back_the_write(
        o: &Self,
        e: &Self,
        key: Seq<u8>,
        offset: int,
        data: Seq<u8>,
        other: Seq<u8>,
    )
        requires
            Self::wrote_over(o, e, key, offset, data),
            o.whole(o.head(key)->Ok_0.2),
            64 <= frag_bytes(
                write_exp(o.head(key)->Ok_0.2.stream(), (offset + data.len()) as nat),
            ),
        ensures
            e.head(key) is Ok,
            e.whole(e.head(key)->Ok_0.2),
            o.full(o.head(key)->Ok_0.2) is Ok,
            e.full(e.head(key)->Ok_0.2) == Ok::<Seq<u8>, Error>(
                splice(o.full(o.head(key)->Ok_0.2)->Ok_0, offset, data),
            ),
            o.head(other) is Ok && o.keys@[other] != o.keys@[key] && o.head(
                other,
            )->Ok_0.2.stream().geometry_ok() ==> e.head(other) == o.head(other) && e.full(
                o.head(other)->Ok_0.2,
            ) == o.full(o.head(other)->Ok_0.2),
            e.keys@ == o.keys@,
            o.head(other) is Ok ==> e.head(other) is Ok && e.metadata(e.head(other)->Ok_0.2)
                == o.metadata(o.head(other)->Ok_0.2) && e.head(other)->Ok_0.2.db == o.head(
                other,
            )->Ok_0.2.db,
            e.metadata(e.head(key)->Ok_0.2) == o.metadata(o.head(key)->Ok_0.2),
            e.head(key)->Ok_0.2.db == o.head(key)->Ok_0.2.db,
    {
        let (uuid, a0, r0) = o.head(key)->Ok_0;
        let r1 = e.recs().last();
        let sm0 = r0.stream();
        let sm1 = r1.stream();
        let end = (offset + data.len()) as nat;
        let exp = write_exp(sm0, end);
        let fs = frag_bytes(exp) as int;
        Self::lemma_head_after_write(o, e, key, offset, data);
        lemma_exp_range(end, 12, 22);
        lemma_exp_range(grown_size(sm0, end), 12, 22);
        lemma_frag_bytes(exp);
        lemma_frags(grown_size(sm0, end), exp);
        Self::lemma_whole_after(o, e, a0, r0, offset, data, r1);
        o.law_full_read_is_the_content(r0);
        e.law_full_read_is_the_content(r1);
        Self::lemma_other_reads(o, e, key, offset, data, other);
        assert(e.trust() == o.trust());
        Self::lemma_metadata_kept(o, e, uuid@, r1);
        if o.head(other) is Ok {
            let (u, a, m) = o.head(other)->Ok_0;
            if u == uuid {
                assert(e.head(other)->Ok_0.2 == r1);
            } else {
                Self::lemma_other_head(o, e, uuid, other);
                Self::lemma_metadata_kept(o, e, u@, m);
            }
        }
    }

    /// A write to another unit changes nothing of what a read gives.
    pub proof fn lemma_other_reads(
        o: &Self,
        e: &Self,
        key: Seq<u8>,
        offset: int,
        data: Seq<u8>,
        other: Seq<u8>,
    )
        requires
            o.inv(),
            o.head(key) is Ok,
            Self::write_step(o, e, key, offset, data, Ok(())),
        ensures
            o.head(other) is Ok && o.keys@[other] != o.keys@[key] && o.head(
                other,
            )->Ok_0.2.stream().geometry_ok() ==> {
                let m = o.head(other)->Ok_0.2;
                &&& e.head(other) == o.head(other)
                &&& e.full(m) == o.full(m)
                &&& forall|f: int|
                    0 <= f < m.stream().n() ==> #[trigger] e.frag(m, f) == o.frag(m, f)
            },
    {
        let uuid = o.head(key)->Ok_0.0;
        assert(e.trust() == o.trust());
        if o.head(other) is Ok && o.keys@[other] != uuid && o.head(
            other,
        )->Ok_0.2.stream().geometry_ok() {
            let (u, a, m) = o.head(other)->Ok_0;
            Self::lemma_other_head(o, e, uuid, other);
            assert(u@ != uuid@) by {
                if u@ == uuid@ {
                    assert(u =~= uuid);
                }
            }
            let sm = m.stream();
            assert forall|f: int| 0 <= f < sm.n() implies (#[trigger] sm.locations[f]).addr
                <= o.slots().len() by {
                assert(live(o.ids@, o.recs(), u@, f) == sm.locations[f].addr);
            }
            assert forall|f: int|
                0 <= f < sm.n() && (#[trigger] sm.locations[f]).addr != 0 implies e.slots()[
            sm.locations[f].addr - 1] == o.slots()[sm.locations[f].addr - 1] by {
                assert(live(o.ids@, o.recs(), u@, f) == sm.locations[f].addr);
                assert(in_heap(o.slots(), sm.locations[f].addr));
            }
            Self::lemma_reads_kept(o, e, m);
            Self::lemma_pieces_kept(o, e, m, sm.n());
        }
    }

    /// Fragments that read the same give the same pieces.
    pub proof fn lemma_pieces_kept(o: &Self, e: &Self, r: RecordModel, n: nat)
        requires
            forall|f: int| 0 <= f < n ==> #[trigger] e.frag(r, f) == o.frag(r, f),
        ensures
            e.pieces(r, n) == o.pieces(r, n),
        decreases n,
    {
        if n > 0 {
            Self::lemma_pieces_kept(o, e, r, (n - 1) as nat);
            assert(e.frag(r, n - 1) == o.frag(r, n - 1));
            assert(e.piece(r, n - 1) == o.piece(r, n - 1));
        }
    }
}

impl<C: Crypto> Engine<C> {
    /// A read of extended content gives the content that there was, then zeros.
    pub proof fn law_extended_content_reads(
        o: &Self,
        e: &Self,
        r0: RecordModel,
        head_addr: u64,
        size: nat,
        r1: RecordModel,
    )
        requires
            o.extended(r0, head_addr, size, r1),
            Self::same_reads(o, e),
            o.whole(r0),
            r0.stream().geometry_ok(),
            r1.stream().geometry_ok(),
            size > r0.stream().size(),
            size <= 0x7fff_ffff_ffff_ffff,
            forall|j: int|
                r0.stream().n() > 0 && r0.stream().last_frag_length <= j < frag_bytes(
                    r0.stream().fragsize_exp,
                ) ==> #[trigger] byte_or_zero(o.plain(r0, r0.stream().n() - 1), j) == 0,
        ensures
            e.whole(r1),
            o.full(r0) is Ok,
            e.full(r1) == Ok::<Seq<u8>, Error>(resized(o.full(r0)->Ok_0, size)),
    {
        let sm0 = r0.stream();
        let sm1 = r1.stream();
        let exp = Self::extend_exp(sm0, size);
        let n = frags_for(size, exp);
        let fs = frag_bytes(exp) as int;
        let n0 = sm0.n() as int;
        lemma_exp_range(size, 12, 22);
        lemma_frag_bytes(exp);
        lemma_frags(size, exp);
        if n0 > 0 {
            assert(n >= n0) by (nonlinear_arith)
                requires
                    size <= n * fs,
                    size > (n0 - 1) * fs,
                    fs >= 1,
            ;
        }
        assert(sm1.n() == n);
        Self::law_extend_keeps_content(o, e, r0, head_addr, size, r1);
        assert forall|f: int| 0 <= f < sm1.n() && !Self::hole_at(r1, f) implies #[trigger] e.frag(
            r1,
            f,
        ) is Ok && e.frag(r1, f)->Ok_0.len() <= frag_bytes(sm1.fragsize_exp) by {
            if f < sm0.n() {
                assert(sm1.locations[f] == sm0.locations[f]);
                assert(sm1.unit_map[f] == sm0.unit_map[f]);
                lemma_suites_form(
                    o.carried(r0, n),
                    o.header.content_cipher,
                    o.header.cipher,
                    r1,
                    f,
                );
                assert(e.frag(r1, f) == o.frag(r0, f));
                assert(o.frag(r0, f) is Ok);
            } else {
                assert(sm1.locations[f] == hole());
            }
        }
        o.law_full_read_is_the_content(r0);
        e.law_full_read_is_the_content(r1);
        let s = e.contents(r1);
        let want = resized(o.contents(r0), size);
        assert forall|i: int| 0 <= i < size implies s[i] == want[i] by {
            if i < sm0.size() {
                assert(s.subrange(0, sm0.size() as int)[i] == s[i]);
            }
        }
        assert(s =~= want);
    }

    /// A read of content that was cut gives the front of the content that there
    /// was.
    pub proof fn law_truncated_content_reads(
        o: &Self,
        e: &Self,
        r0: RecordModel,
        head_addr: u64,
        size: nat,
        r1: RecordModel,
    )
        requires
            Self::truncated(o, e, r0, head_addr, size, r1),
            Self::blocks_kept(o, e),
            e.root_key == o.root_key,
            e.header.key_epoch == o.header.key_epoch,
            e.header.cipher == o.header.cipher,
            o.whole(r0),
            r0.stream().geometry_ok(),
            0 < size < r0.stream().size(),
            crate::overlay::pending_of(o.overlay@, r0.uuid).len() == 0,
            64 <= frag_bytes(r0.stream().fragsize_exp),
        ensures
            e.whole(r1),
            o.full(r0) is Ok,
            e.full(r1) == Ok::<Seq<u8>, Error>(o.full(r0)->Ok_0.subrange(0, size as int)),
    {
        let sm0 = r0.stream();
        let sm1 = r1.stream();
        let exp = sm0.fragsize_exp;
        let fs = frag_bytes(exp) as int;
        let n = frags_for(size, exp) as int;
        lemma_frag_bytes(exp);
        lemma_frags(size, exp);
        crate::content::lemma_last_fragment(sm0, size - 1);
        Self::law_truncate_keeps_the_front(o, e, r0, head_addr, size, r1);
        assert(n <= sm0.n());
        assert forall|f: int| 0 <= f < sm1.n() && !Self::hole_at(r1, f) implies #[trigger] e.frag(
            r1,
            f,
        ) is Ok && e.frag(r1, f)->Ok_0.len() <= fs by {
            if Self::reseals(sm0, size) && f == n - 1 {
                crate::overlay::lemma_window_len(
                    o.contents(r0).subrange(0, size as int),
                    crate::overlay::pending_of(o.overlay@, r0.uuid),
                    0,
                    size as int,
                );
                let part = o.cut(r0, size as int).subrange((n - 1) * fs, size as int);
                C::lemma_seal_len(o.suite(r0, n - 1), o.root_key, o.ctx(r0.uuid, f, 0), part);
                assert(part.len() <= fs);
            } else {
                let loc = sm0.locations[f];
                assert(sm1.locations[f] == loc);
                assert(sm1.unit_map[f] == sm0.unit_map[f]);
                lemma_suites_form(
                    o.carried(r0, n as nat),
                    o.header.content_cipher,
                    o.header.cipher,
                    r1,
                    f,
                );
                assert(o.frag(r0, f) is Ok);
                assert(in_heap(o.slots(), loc.addr));
                assert(e.frag(r1, f) == o.frag(r0, f));
            }
        }
        assert(sm1.unit_map.len() == n);
        o.law_full_read_is_the_content(r0);
        e.law_full_read_is_the_content(r1);
    }
}

/// Fragments of that size, or larger, hold 64 bytes.
pub proof fn lemma_frag_bytes_64(exp: u8)
    requires
        6 <= exp <= 31,
    ensures
        64 <= frag_bytes(exp),
{
    vstd::arithmetic::power2::lemma2_to64();
    if exp > 6 {
        vstd::arithmetic::power2::lemma_pow2_strictly_increases(6, exp as nat);
    }
}

impl<C: Crypto> Engine<C> {
    /// Sound content stays sound under a write.
    pub proof fn lemma_sound_after(
        o: &Self,
        e: &Self,
        head_addr: u64,
        r0: RecordModel,
        offset: int,
        data: Seq<u8>,
        r1: RecordModel,
    )
        requires
            Self::wrote(o, e, head_addr, r0, offset, data, r1),
            o.sound(r0),
            write_fits(r0.stream(), o.local_alias, offset, data.len()),
            0 <= offset <= r0.stream().size(),
            data.len() > 0,
        ensures
            e.sound(r1),
    {
        let sm = r0.stream();
        let end = (offset + data.len()) as nat;
        lemma_exp_range(end, 12, 22);
        lemma_exp_range(grown_size(sm, end), 12, 22);
        lemma_frag_bytes_64(write_exp(sm, end));
        Self::lemma_whole_after(o, e, head_addr, r0, offset, data, r1);
    }
}

impl<C: Crypto> Engine<C> {
    /// A write that is refused changes nothing that can be read.
    pub proof fn law_refused_writes_change_nothing(
        o: &Self,
        e: &Self,
        key: Seq<u8>,
        offset: int,
        data: Seq<u8>,
        r: Result<(), Error>,
        other: Seq<u8>,
    )
        requires
            o.inv(),
            Self::write_step(o, e, key, offset, data, r),
            o.write_error(key, offset, data.len()) is Some,
            o.head(other) is Ok,
            o.head(other)->Ok_0.2.stream().geometry_ok(),
        ensures
            r == Err::<(), Error>(o.write_error(key, offset, data.len())->Some_0),
            e.head(other) == o.head(other),
            e.contents(o.head(other)->Ok_0.2) == o.contents(o.head(other)->Ok_0.2),
            e.full(o.head(other)->Ok_0.2) == o.full(o.head(other)->Ok_0.2),
    {
        let (u, _, m) = o.head(other)->Ok_0;
        let sm = m.stream();
        assert(e.trust() == o.trust());
        assert forall|f: int| 0 <= f < sm.n() implies (#[trigger] sm.locations[f]).addr
            <= o.slots().len() by {
            assert(live(o.ids@, o.recs(), u@, f) == sm.locations[f].addr);
        }
        assert forall|f: int|
            0 <= f < sm.n() && (#[trigger] sm.locations[f]).addr != 0 implies e.slots()[
        sm.locations[f].addr - 1] == o.slots()[sm.locations[f].addr - 1] by {
            assert(in_heap(o.slots(), sm.locations[f].addr));
        }
        Self::lemma_reads_kept(o, e, m);
        Self::lemma_pieces_kept(o, e, m, sm.n());
    }
}

} // verus!
