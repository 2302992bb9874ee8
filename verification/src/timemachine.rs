//! Laws on earlier versions: what was once the content stays readable as such.
use vstd::prelude::*;

use crate::block::{dot, dot_seen, frag_bytes, frags_for, law_dot_parts, lemma_frags};
use crate::bytes::{resized, zeros};
use crate::content::lemma_last_fragment;
use crate::crypto::Crypto;
use crate::engine::{journal_has, loaded, Engine};
use crate::error::Error;
use crate::evicted::EvictedModel;
use crate::history::{in_tail, noted_suite, resolved, stream_as_of, versions_from};
use crate::retention::{kept_tail, stays, EvictReport, EvictionStrategy};
use crate::supersede::old_block;
use crate::unit::{hole, lemma_seq_max, pinning, RecordModel, StreamModel, Uuid};
use crate::vector::vv_get;
use crate::write::{rechunks, touches, write_exp, write_fits};
use crate::writerset::TrustModel;

verus! {

// ── Longer heaps and tails ──────────────────────────────────────────────────

/// Records that were added since do not change what an old address leads to.
pub proof fn lemma_chain_kept<C: Crypto>(
    a: Seq<RecordModel>,
    b: Seq<RecordModel>,
    t: TrustModel,
    addr: u64,
    f: int,
    at: u64,
)
    requires
        a.len() <= b.len(),
        b.take(a.len() as int) == a,
        addr <= a.len(),
    ensures
        loaded::<C>(b, t, addr) == loaded::<C>(a, t, addr),
        resolved::<C>(b, t, addr, f, at) == resolved::<C>(a, t, addr, f, at),
        stream_as_of::<C>(b, t, addr, at) == stream_as_of::<C>(a, t, addr, at),
        versions_from::<C>(b, t, addr) == versions_from::<C>(a, t, addr),
    decreases addr,
{
    if addr > 0 {
        assert(b.take(a.len() as int)[addr - 1] == b[addr - 1]);
        let p = a[addr - 1].parent;
        if p is Some && p->Some_0 < addr {
            lemma_chain_kept::<C>(a, b, t, p->Some_0, f, at);
        }
    }
}

/// A fragment is never resolved to a version that came later.
pub proof fn lemma_resolved_version<C: Crypto>(
    recs: Seq<RecordModel>,
    t: TrustModel,
    addr: u64,
    f: int,
    at: u64,
)
    ensures
        resolved::<C>(recs, t, addr, f, at) is Ok && resolved::<C>(recs, t, addr, f, at)->Ok_0
            is Some ==> resolved::<C>(recs, t, addr, f, at)->Ok_0->Some_0.1 <= at,
    decreases addr,
{
    match loaded::<C>(recs, t, addr) {
        Err(_) => {},
        Ok(r) => {
            if r.parent is Some && r.parent->Some_0 < addr {
                lemma_resolved_version::<C>(recs, t, r.parent->Some_0, f, at);
            }
        },
    }
}

/// No image in the tail is of this version of this fragment.
pub open spec fn tail_lacks(tail: Seq<EvictedModel>, uuid: Uuid, f: int, version: u64) -> bool {
    forall|i: int|
        0 <= i < tail.len() ==> !((#[trigger] tail[i]).uuid == uuid && tail[i].frag == f
            && tail[i].old_version == version)
}

/// What was added to the tail is found first.
pub proof fn lemma_tail_longer(
    a: Seq<EvictedModel>,
    b: Seq<EvictedModel>,
    uuid: Uuid,
    f: int,
    version: u64,
)
    ensures
        in_tail(b, uuid, f, version) is Some ==> in_tail(a + b, uuid, f, version) == in_tail(
            b,
            uuid,
            f,
            version,
        ),
        in_tail(b, uuid, f, version) is None ==> in_tail(a + b, uuid, f, version) == in_tail(
            a,
            uuid,
            f,
            version,
        ),
    decreases b.len(),
{
    if b.len() == 0 {
        assert(a + b =~= a);
    } else {
        assert((a + b).last() == b.last());
        assert((a + b).drop_last() =~= a + b.drop_last());
        lemma_tail_longer(a, b.drop_last(), uuid, f, version);
    }
}

pub proof fn lemma_tail_lacks(tail: Seq<EvictedModel>, uuid: Uuid, f: int, version: u64)
    requires
        tail_lacks(tail, uuid, f, version),
    ensures
        in_tail(tail, uuid, f, version) is None,
    decreases tail.len(),
{
    if tail.len() > 0 {
        let p = tail.drop_last();
        assert(tail[tail.len() - 1] == tail.last());
        assert forall|i: int| 0 <= i < p.len() implies !((#[trigger] p[i]).uuid == uuid
            && p[i].frag == f && p[i].old_version == version) by {
            assert(p[i] == tail[i]);
        }
        lemma_tail_lacks(p, uuid, f, version);
    }
}

// ── What a write puts into the tail ─────────────────────────────────────────

impl<C: Crypto> Engine<C> {
    /// The images of a write are of the fragments that it touches, each of the
    /// version that the head had.
    pub proof fn lemma_images_of(
        &self,
        r: RecordModel,
        offset: int,
        data: Seq<u8>,
        exp: u8,
        version: u64,
        first: int,
        upto: int,
    )
        requires
            0 <= first,
            r.stream().n() <= u32::MAX,
        ensures
            forall|i: int|
                0 <= i < self.images(r, offset, data, exp, version, first, upto).len() ==> {
                    let x = #[trigger] self.images(r, offset, data, exp, version, first, upto)[i];
                    &&& x.uuid == r.uuid
                    &&& first <= x.frag < upto
                    &&& x.frag < r.stream().n()
                    &&& x.old_version == r.stream().unit_map[x.frag as int]
                    &&& old_block(r, x.frag as int) is Some
                    &&& x.commits == pinning(r.stream().pins, x.frag as int)
                },
        decreases upto - first,
    {
        if upto > first {
            self.lemma_images_of(r, offset, data, exp, version, first, upto - 1);
            let p = self.images(r, offset, data, exp, version, first, upto - 1);
            let s = self.images(r, offset, data, exp, version, first, upto);
            assert forall|i: int| 0 <= i < s.len() implies {
                let x = #[trigger] s[i];
                &&& x.uuid == r.uuid
                &&& first <= x.frag < upto
                &&& x.frag < r.stream().n()
                &&& x.old_version == r.stream().unit_map[x.frag as int]
                &&& old_block(r, x.frag as int) is Some
                &&& x.commits == pinning(r.stream().pins, x.frag as int)
            } by {
                if i < p.len() {
                    assert(s[i] == p[i]);
                }
            }
        }
    }

    pub proof fn lemma_pinned_images_of(&self, r: RecordModel, upto: int)
        requires
            r.stream().n() <= u32::MAX,
        ensures
            forall|i: int|
                0 <= i < self.pinned_images(r, upto).len() ==> {
                    let x = #[trigger] self.pinned_images(r, upto)[i];
                    &&& x.uuid == r.uuid
                    &&& x.frag < upto
                    &&& x.frag < r.stream().n()
                    &&& x.old_version == r.stream().unit_map[x.frag as int]
                    &&& x.commits.len() > 0
                },
        decreases upto,
    {
        if upto > 0 {
            self.lemma_pinned_images_of(r, upto - 1);
            let p = self.pinned_images(r, upto - 1);
            let s = self.pinned_images(r, upto);
            assert forall|i: int| 0 <= i < s.len() implies {
                let x = #[trigger] s[i];
                &&& x.uuid == r.uuid
                &&& x.frag < upto
                &&& x.frag < r.stream().n()
                &&& x.old_version == r.stream().unit_map[x.frag as int]
                &&& x.commits.len() > 0
            } by {
                if i < p.len() {
                    assert(s[i] == p[i]);
                }
            }
        }
    }

    /// A superseded block is among the images.
    pub proof fn lemma_image_found(
        &self,
        r: RecordModel,
        offset: int,
        data: Seq<u8>,
        exp: u8,
        version: u64,
        first: int,
        upto: int,
        f: int,
    )
        requires
            0 <= first <= f < upto,
            r.stream().n() <= u32::MAX,
            self.retires(r, f),
        ensures
            in_tail(
                self.images(r, offset, data, exp, version, first, upto),
                r.uuid,
                f,
                r.stream().unit_map[f],
            ) == Some(self.slots()[r.stream().locations[f].addr - 1]),
        decreases upto - first,
    {
        let s = self.images(r, offset, data, exp, version, first, upto);
        let p = self.images(r, offset, data, exp, version, first, upto - 1);
        if f < upto - 1 {
            self.lemma_image_found(r, offset, data, exp, version, first, upto - 1, f);
        }
        if self.retires(r, upto - 1) {
            assert(s.drop_last() =~= p);
        }
    }

    pub proof fn lemma_pinned_image_found(&self, r: RecordModel, upto: int, f: int)
        requires
            0 <= f < upto,
            r.stream().n() <= u32::MAX,
            old_block(r, f) is Some,
            pinning(r.stream().pins, f).len() > 0,
        ensures
            in_tail(self.pinned_images(r, upto), r.uuid, f, r.stream().unit_map[f]) == Some(
                self.slots()[r.stream().locations[f].addr - 1],
            ),
        decreases upto,
    {
        let s = self.pinned_images(r, upto);
        let p = self.pinned_images(r, upto - 1);
        let g = upto - 1;
        if f < g {
            self.lemma_pinned_image_found(r, g, f);
        }
        if old_block(r, g) is Some && pinning(r.stream().pins, g).len() > 0 {
            assert(s.drop_last() =~= p);
        }
    }

    // ── The past of a unit ──────────────────────────────────────────────────

    /// Every version of the unit, live or superseded, was counted by the vector
    /// of its head.
    pub open spec fn versions_counted(&self, r: RecordModel) -> bool {
        let sm = r.stream();
        &&& forall|f: int| 0 <= f < sm.n() ==> dot_seen(sm.vv, #[trigger] sm.unit_map[f])
        &&& forall|i: int|
            0 <= i < self.tail().len() && (#[trigger] self.tail()[i]).uuid == r.uuid ==> dot_seen(
                sm.vv,
                self.tail()[i].old_version,
            )
    }

    /// The write of `len` bytes keeps every block that it supersedes and that
    /// was there by version `at`: nothing of the unit was superseded since the
    /// last commit, and fragments change their size only where commits pin all
    /// of those blocks.
    pub open spec fn keeps_superseded(&self, r: RecordModel, offset: int, len: nat, at: u64) -> bool {
        let sm = r.stream();
        &&& forall|f: int|
            0 <= f < sm.n() ==> !#[trigger] journal_has(self.journaled@, r.uuid@, f as u32)
        &&& rechunks(sm, (offset + len) as nat) ==> forall|f: int|
            #![trigger old_block(r, f)]
            old_block(r, f) is Some && sm.unit_map[f] <= at ==> pinning(sm.pins, f).len() > 0
    }

    /// The version that a write by this engine to the unit gets.
    pub open spec fn next_version(&self, r: RecordModel) -> u64 {
        dot(self.local_alias, (vv_get(r.stream().vv, self.local_alias) + 1) as u64)
    }

    /// A superseded block is found in the tail after the write.
    pub proof fn lemma_superseded_found(
        o: &Self,
        e: &Self,
        r: RecordModel,
        offset: int,
        data: Seq<u8>,
        at: u64,
        f: int,
    )
        requires
            Self::superseded(o, e, r, offset, data),
            o.keeps_superseded(r, offset, data.len(), at),
            r.stream().unit_map[f] <= at,
            write_fits(r.stream(), o.local_alias, offset, data.len()),
            0 <= offset <= r.stream().size(),
            data.len() > 0,
            old_block(r, f) is Some,
            touches(r.stream(), offset, (offset + data.len()) as nat, f),
        ensures
            in_tail(e.tail(), r.uuid, f, r.stream().unit_map[f]) == Some(
                o.slots()[r.stream().locations[f].addr - 1],
            ),
    {
        let sm = r.stream();
        let end = (offset + data.len()) as nat;
        let exp = write_exp(sm, end);
        let fs = frag_bytes(exp) as int;
        let v = sm.unit_map[f];
        if rechunks(sm, end) {
            o.lemma_pinned_image_found(r, sm.n() as int, f);
            lemma_tail_longer(o.tail(), o.pinned_images(r, sm.n() as int), r.uuid, f, v);
        } else {
            let first = offset / fs;
            let upto = (end - 1) / fs + 1;
            crate::block::lemma_frag_bytes(exp);
            assert(0 <= first) by (nonlinear_arith)
                requires
                    first == offset / fs,
                    offset >= 0,
                    fs >= 1,
            ;
            let version = o.next_version(r);
            assert(!journal_has(o.journaled@, r.uuid@, f as u32));
            assert(o.retires(r, f));
            o.lemma_image_found(r, offset, data, exp, version, first, upto, f);
            lemma_tail_longer(
                o.tail(),
                o.images(r, offset, data, exp, version, first, upto),
                r.uuid,
                f,
                v,
            );
        }
    }
}

impl<C: Crypto> Engine<C> {
    /// Checking the newest version out gives the present content.
    pub proof fn law_checkout_of_the_present(&self, key: Seq<u8>)
        requires
            self.head(key) is Ok,
            self.head(key)->Ok_0.2.content is Some,
            self.head(key)->Ok_0.2.stream().n() > 0,
            self.head(key)->Ok_0.2.stream().geometry_ok(),
        ensures
            self.as_of(key, self.head(key)->Ok_0.2.stream().max_version(), None) == self.full(
                self.head(key)->Ok_0.2,
            ),
    {
        let (uuid, addr, r) = self.head(key)->Ok_0;
        self.lemma_present_pieces(addr, r, r.stream().n());
    }

    proof fn lemma_present_pieces(&self, addr: u64, r: RecordModel, n: nat)
        requires
            self.record(addr) == Ok::<RecordModel, Error>(r),
            r.content is Some,
            r.stream().geometry_ok(),
            n <= r.stream().n(),
        ensures
            self.old_pieces(addr, r, r.stream(), r.stream().max_version(), None, n)
                == self.pieces(r, n),
        decreases n,
    {
        if n > 0 {
            let sm = r.stream();
            let f = n - 1;
            let at = sm.max_version();
            self.lemma_present_pieces(addr, r, f as nat);
            lemma_seq_max(sm.unit_map);
            assert(sm.unit_map[f] <= at);
            assert(resolved::<C>(self.recs(), self.trust(), addr, f, at) == Ok::<
                Option<(crate::unit::BlockLoc, u64, Option<u8>)>,
                Error,
            >(Some((sm.locations[f], sm.unit_map[f], noted_suite(r, f)))));
            crate::block::lemma_frag_bytes(sm.fragsize_exp);
            let want = Self::want(r, f);
            assert(resized(Seq::<u8>::empty(), want) =~= zeros(want));
            assert(self.old_piece(addr, r, sm, at, None, f) == self.piece(r, f));
        }
    }

    /// A fragment of an earlier version is found as before.
    proof fn lemma_old_piece_kept(
        o: &Self,
        e: &Self,
        key: Seq<u8>,
        offset: int,
        data: Seq<u8>,
        at: u64,
        sm: StreamModel,
        f: int,
    )
        requires
            Self::wrote_over(o, e, key, offset, data),
            o.head(key)->Ok_0.2.content is Some,
            o.keeps_superseded(o.head(key)->Ok_0.2, offset, data.len(), at),
            at < o.next_version(o.head(key)->Ok_0.2),
            f >= 0,
            o.old_piece(o.head(key)->Ok_0.1, o.head(key)->Ok_0.2, sm, at, None, f) is Ok,
        ensures
            e.old_piece(e.head(key)->Ok_0.1, e.head(key)->Ok_0.2, sm, at, None, f) == o.old_piece(
                o.head(key)->Ok_0.1,
                o.head(key)->Ok_0.2,
                sm,
                at,
                None,
                f,
            ),
    {
        let (u0, a0, r0) = o.head(key)->Ok_0;
        Self::lemma_head_after_write(o, e, key, offset, data);
        let (u1, a1, r1) = e.head(key)->Ok_0;
        let h0 = r0.stream();
        let h1 = r1.stream();
        let t = o.trust();
        let end = (offset + data.len()) as nat;
        assert(e.trust() == t);
        assert(r1 == e.recs().last());
        assert(a1 == e.recs().len());
        assert(a0 <= o.recs().len());
        lemma_chain_kept::<C>(o.recs(), e.recs(), t, a0, f, at);
        lemma_resolved_version::<C>(o.recs(), t, a0, f, at);
        let images = if rechunks(h0, end) {
            o.pinned_images(r0, h0.n() as int)
        } else {
            let fs = frag_bytes(write_exp(h0, end)) as int;
            o.images(
                r0,
                offset,
                data,
                write_exp(h0, end),
                o.next_version(r0),
                offset / fs,
                (end - 1) / fs + 1,
            )
        };
        assert(e.tail() == o.tail() + images);
        if f < h1.n() && h1.unit_map[f] <= at {
            assert(!touches(h0, offset, end, f));
            assert(h1.locations[f] == h0.locations[f]);
            assert(h1.unit_map[f] == h0.unit_map[f]);
            assert(e.frag(r1, f) == o.frag(r0, f));
            assert(e.header.cipher == o.header.cipher);
        } else {
            let found = resolved::<C>(o.recs(), t, a0, f, at);
            assert(resolved::<C>(e.recs(), t, a1, f, at) == found);
            let (loc, version, suite) = found->Ok_0->Some_0;
            if loc != hole() {
                if f < h0.n() && h0.locations[f] != hole() && h0.unit_map[f] == version {
                    if !rechunks(h0, end) {
                        lemma_grows(o, r0, offset, data.len());
                    }
                    assert(touches(h0, offset, end, f));
                    Self::lemma_superseded_found(o, e, r0, offset, data, at, f);
                } else {
                    o.lemma_pinned_images_of(r0, h0.n() as int);
                    lemma_touched_exists(o, r0, offset, data.len());
                    let fs = frag_bytes(write_exp(h0, end)) as int;
                    o.lemma_images_of(
                        r0,
                        offset,
                        data,
                        write_exp(h0, end),
                        o.next_version(r0),
                        offset / fs,
                        (end - 1) / fs + 1,
                    );
                    assert(tail_lacks(images, r0.uuid, f, version));
                    lemma_tail_lacks(images, r0.uuid, f, version);
                    lemma_tail_longer(o.tail(), images, r0.uuid, f, version);
                }
            }
        }
    }
}

impl<C: Crypto> Engine<C> {
    proof fn lemma_old_pieces_kept(
        o: &Self,
        e: &Self,
        key: Seq<u8>,
        offset: int,
        data: Seq<u8>,
        at: u64,
        sm: StreamModel,
        n: nat,
    )
        requires
            Self::wrote_over(o, e, key, offset, data),
            o.head(key)->Ok_0.2.content is Some,
            o.keeps_superseded(o.head(key)->Ok_0.2, offset, data.len(), at),
            at < o.next_version(o.head(key)->Ok_0.2),
            o.old_pieces(o.head(key)->Ok_0.1, o.head(key)->Ok_0.2, sm, at, None, n) is Ok,
        ensures
            e.old_pieces(e.head(key)->Ok_0.1, e.head(key)->Ok_0.2, sm, at, None, n)
                == o.old_pieces(o.head(key)->Ok_0.1, o.head(key)->Ok_0.2, sm, at, None, n),
        decreases n,
    {
        if n > 0 {
            Self::lemma_old_pieces_kept(o, e, key, offset, data, at, sm, (n - 1) as nat);
            Self::lemma_old_piece_kept(o, e, key, offset, data, at, sm, n - 1);
        }
    }

    /// A write changes nothing of the past: what could be checked out before
    /// can be checked out after it and reads the same, and the history gains
    /// one entry at its front. So every content that a unit ever had stays
    /// readable under its version.
    pub proof fn law_write_keeps_the_past(
        o: &Self,
        e: &Self,
        key: Seq<u8>,
        offset: int,
        data: Seq<u8>,
        at: u64,
    )
        requires
            Self::wrote_over(o, e, key, offset, data),
            o.head(key)->Ok_0.2.content is Some,
            o.keeps_superseded(o.head(key)->Ok_0.2, offset, data.len(), at),
            at < o.next_version(o.head(key)->Ok_0.2),
            o.as_of(key, at, None) is Ok,
        ensures
            e.head(key) is Ok,
            e.as_of(key, at, None) == o.as_of(key, at, None),
            versions_from::<C>(o.recs(), o.trust(), o.head(key)->Ok_0.1) is Ok ==> versions_from::<
                C,
            >(e.recs(), e.trust(), e.head(key)->Ok_0.1) == Ok::<Seq<u64>, Error>(
                seq![e.head(key)->Ok_0.2.stream().max_version()] + versions_from::<C>(
                    o.recs(),
                    o.trust(),
                    o.head(key)->Ok_0.1,
                )->Ok_0,
            ),
    {
        let (u0, a0, r0) = o.head(key)->Ok_0;
        Self::lemma_head_after_write(o, e, key, offset, data);
        let (u1, a1, r1) = e.head(key)->Ok_0;
        let h0 = r0.stream();
        let h1 = r1.stream();
        let t = o.trust();
        let end = (offset + data.len()) as nat;
        let exp = write_exp(h0, end);
        let fs = frag_bytes(exp) as int;
        assert(e.trust() == t);
        lemma_chain_kept::<C>(o.recs(), e.recs(), t, a0, 0, at);
        let g = if rechunks(h0, end) {
            0
        } else {
            offset / fs
        };
        lemma_touched_exists(o, r0, offset, data.len());
        assert(touches(h0, offset, end, g));
        assert(0 <= g < h1.n());
        assert(h1.unit_map[g] == o.next_version(r0));
        lemma_seq_max(h1.unit_map);
        assert(h1.max_version() > at);
        let sm = stream_as_of::<C>(o.recs(), t, a0, at)->Ok_0->Some_0;
        assert(stream_as_of::<C>(e.recs(), t, a1, at) == stream_as_of::<C>(o.recs(), t, a0, at));
        Self::lemma_old_pieces_kept(o, e, key, offset, data, at, sm, sm.n());
    }

    /// A write puts one version before the history of its unit, and leaves every
    /// other history as it was.
    pub proof fn law_writes_make_history(
        o: &Self,
        e: &Self,
        key: Seq<u8>,
        offset: int,
        data: Seq<u8>,
        other: Seq<u8>,
    )
        requires
            Self::wrote_over(o, e, key, offset, data),
            versions_from::<C>(o.recs(), o.trust(), o.head(key)->Ok_0.1) is Ok,
        ensures
            e.head(key) is Ok,
            versions_from::<C>(e.recs(), e.trust(), e.head(key)->Ok_0.1) == Ok::<Seq<u64>, Error>(
                seq![e.head(key)->Ok_0.2.stream().max_version()] + versions_from::<C>(
                    o.recs(),
                    o.trust(),
                    o.head(key)->Ok_0.1,
                )->Ok_0,
            ),
            o.head(other) is Ok && o.keys@[other] != o.keys@[key] ==> e.head(other) == o.head(
                other,
            ) && versions_from::<C>(e.recs(), e.trust(), e.head(other)->Ok_0.1)
                == versions_from::<C>(o.recs(), o.trust(), o.head(other)->Ok_0.1),
    {
        let (u0, a0, r0) = o.head(key)->Ok_0;
        Self::lemma_head_after_write(o, e, key, offset, data);
        let t = o.trust();
        assert(e.trust() == t);
        lemma_chain_kept::<C>(o.recs(), e.recs(), t, a0, 0, 0);
        lemma_touched_exists(o, r0, offset, data.len());
        let end = (offset + data.len()) as nat;
        let fs = frag_bytes(write_exp(r0.stream(), end)) as int;
        let g = if rechunks(r0.stream(), end) {
            0
        } else {
            offset / fs
        };
        assert(touches(r0.stream(), offset, end, g));
        assert(0 <= g < e.recs().last().stream().n());
        if o.head(other) is Ok && o.keys@[other] != u0 {
            Self::lemma_other_head(o, e, u0, other);
            lemma_chain_kept::<C>(o.recs(), e.recs(), t, o.head(other)->Ok_0.1, 0, 0);
        }
    }

    /// The version that a write gets was never used for the unit before: no
    /// block of it, live or superseded, was sealed under it.
    pub proof fn law_new_versions_are_fresh(&self, r: RecordModel)
        requires
            self.versions_counted(r),
            vv_get(r.stream().vv, self.local_alias) < 0xffff_ffff_ffff,
        ensures
            forall|f: int|
                0 <= f < r.stream().n() ==> #[trigger] r.stream().unit_map[f]
                    != self.next_version(r),
            forall|i: int|
                0 <= i < self.tail().len() && (#[trigger] self.tail()[i]).uuid == r.uuid
                    ==> self.tail()[i].old_version != self.next_version(r),
    {
        let sm = r.stream();
        law_dot_parts(self.local_alias, (vv_get(sm.vv, self.local_alias) + 1) as u64);
        assert(!dot_seen(sm.vv, self.next_version(r)));
    }

    /// What is kept of a unit are blocks that its head named.
    proof fn lemma_kept_images_of(&self, r: RecordModel, first: int, upto: int)
        requires
            0 <= first,
            upto <= r.stream().n() <= u32::MAX,
        ensures
            forall|i: int|
                0 <= i < self.kept_images(r, first, upto).len() ==> {
                    let x = #[trigger] self.kept_images(r, first, upto)[i];
                    &&& x.uuid == r.uuid
                    &&& first <= x.frag < upto
                    &&& old_block(r, x.frag as int) is Some
                    &&& x.old_version == r.stream().unit_map[x.frag as int]
                },
        decreases upto - first,
    {
        if upto > first {
            self.lemma_kept_images_of(r, first, upto - 1);
        }
    }

    proof fn lemma_kept_image_found(&self, r: RecordModel, first: int, upto: int, f: int)
        requires
            0 <= first <= f < upto <= r.stream().n() <= u32::MAX,
            self.keeps(r, f),
        ensures
            in_tail(self.kept_images(r, first, upto), r.uuid, f, r.stream().unit_map[f]) == Some(
                self.slots()[r.stream().locations[f].addr - 1],
            ),
        decreases upto - first,
    {
        let s = self.kept_images(r, first, upto);
        let p = self.kept_images(r, first, upto - 1);
        if f < upto - 1 {
            self.lemma_kept_image_found(r, first, upto - 1, f);
        }
        if self.keeps(r, upto - 1) {
            assert(s.drop_last() =~= p);
        }
    }

    /// The content at `key` was cut to `size` bytes.
    pub open spec fn cut_over(o: &Self, e: &Self, key: Seq<u8>, size: u64) -> bool {
        &&& o.inv()
        &&& o.head(key) is Ok
        &&& o.head(key)->Ok_0.2.content is Some
        &&& o.head(key)->Ok_0.2.stream().geometry_ok()
        &&& size < o.head(key)->Ok_0.2.stream().size()
        &&& o.may_sign()
        &&& o.reads_own_records()
        &&& Self::truncate_step(o, e, key, size, Ok(()))
    }

    proof fn lemma_head_after_cut(o: &Self, e: &Self, key: Seq<u8>, size: u64)
        requires
            Self::cut_over(o, e, key, size),
        ensures
            e.trust() == o.trust(),
            o.recs().len() <= e.recs().len(),
            e.recs().take(o.recs().len() as int) == o.recs(),
            e.head(key) == Ok::<(Uuid, u64, RecordModel), Error>(
                (o.head(key)->Ok_0.0, e.recs().len() as u64, e.recs().last()),
            ),
    {
        let m = e.recs().last();
        let base = RecordModel { signature: None, ..m };
        assert(e.recs().take(o.recs().len() as int) =~= o.recs());
        o.lemma_may_sign(base);
        crate::engine::lemma_own_records_read_back::<C>(base, o.trust(), o.signing_key);
        assert(e.trust() == o.trust());
        assert(crate::tags::signer_ok(e, m));
        Self::lemma_other_head(o, e, o.head(key)->Ok_0.0, key);
    }

    /// A fragment of an earlier version is found after a cut as before.
    proof fn lemma_old_piece_cut(
        o: &Self,
        e: &Self,
        key: Seq<u8>,
        size: u64,
        at: u64,
        sm: StreamModel,
        f: int,
    )
        requires
            Self::cut_over(o, e, key, size),
            forall|g: int|
                0 <= g < o.head(key)->Ok_0.2.stream().n() ==> !#[trigger] journal_has(
                    o.journaled@,
                    o.head(key)->Ok_0.2.uuid@,
                    g as u32,
                ),
            at < o.next_version(o.head(key)->Ok_0.2),
            f >= 0,
            o.old_piece(o.head(key)->Ok_0.1, o.head(key)->Ok_0.2, sm, at, None, f) is Ok,
        ensures
            e.old_piece(e.head(key)->Ok_0.1, e.head(key)->Ok_0.2, sm, at, None, f) == o.old_piece(
                o.head(key)->Ok_0.1,
                o.head(key)->Ok_0.2,
                sm,
                at,
                None,
                f,
            ),
    {
        let (u0, a0, r0) = o.head(key)->Ok_0;
        Self::lemma_head_after_cut(o, e, key, size);
        let (u1, a1, r1) = e.head(key)->Ok_0;
        let h0 = r0.stream();
        let h1 = r1.stream();
        let t = o.trust();
        let from = Self::cut_from(h0, size as nat);
        let images = o.kept_images(r0, from, h0.n() as int);
        lemma_chain_kept::<C>(o.recs(), e.recs(), t, a0, f, at);
        lemma_resolved_version::<C>(o.recs(), t, a0, f, at);
        o.lemma_kept_images_of(r0, from, h0.n() as int);
        if size > 0 {
            lemma_frags(size as nat, h0.fragsize_exp);
            lemma_last_fragment(h0, size - 1);
            assert(frags_for(size as nat, h0.fragsize_exp) <= h0.n());
        }
        assert(0 <= from <= h0.n());
        assert(e.tail() == o.tail() + images);
        assert forall|g: int| 0 <= g < h0.n() implies (#[trigger] h0.locations[g]).addr
            <= o.slots().len() by {
            assert(crate::engine::live(o.ids@, o.recs(), u0@, g) == h0.locations[g].addr);
        }
        if f < h1.n() && h1.unit_map[f] <= at {
            assert(f < from);
            assert(h1.locations[f] == h0.locations[f]);
            assert(h1.unit_map[f] == h0.unit_map[f]);
            let full = o.carried(r0, h1.n());
            crate::resize::lemma_suites_form(
                full,
                o.header.content_cipher,
                o.header.cipher,
                r1,
                f,
            );
            let loc = h0.locations[f];
            if loc.addr != 0 {
                assert(e.slots().take(o.slots().len() as int)[loc.addr - 1] == e.slots()[loc.addr
                    - 1]);
            }
        } else {
            let found = resolved::<C>(o.recs(), t, a0, f, at);
            assert(resolved::<C>(e.recs(), t, a1, f, at) == found);
            let (loc, version, suite) = found->Ok_0->Some_0;
            if loc != hole() {
                if f < h0.n() && h0.locations[f] != hole() && h0.unit_map[f] == version {
                    assert(f >= from);
                    assert(!journal_has(o.journaled@, r0.uuid@, f as u32));
                    assert(o.keeps(r0, f));
                    o.lemma_kept_image_found(r0, from, h0.n() as int, f);
                    lemma_tail_longer(o.tail(), images, r0.uuid, f, version);
                } else {
                    assert(tail_lacks(images, r0.uuid, f, version));
                    lemma_tail_lacks(images, r0.uuid, f, version);
                    lemma_tail_longer(o.tail(), images, r0.uuid, f, version);
                }
            }
        }
    }

    proof fn lemma_old_pieces_cut(
        o: &Self,
        e: &Self,
        key: Seq<u8>,
        size: u64,
        at: u64,
        sm: StreamModel,
        n: nat,
    )
        requires
            Self::cut_over(o, e, key, size),
            forall|g: int|
                0 <= g < o.head(key)->Ok_0.2.stream().n() ==> !#[trigger] journal_has(
                    o.journaled@,
                    o.head(key)->Ok_0.2.uuid@,
                    g as u32,
                ),
            at < o.next_version(o.head(key)->Ok_0.2),
            o.old_pieces(o.head(key)->Ok_0.1, o.head(key)->Ok_0.2, sm, at, None, n) is Ok,
        ensures
            e.old_pieces(e.head(key)->Ok_0.1, e.head(key)->Ok_0.2, sm, at, None, n)
                == o.old_pieces(o.head(key)->Ok_0.1, o.head(key)->Ok_0.2, sm, at, None, n),
        decreases n,
    {
        if n > 0 {
            Self::lemma_old_pieces_cut(o, e, key, size, at, sm, (n - 1) as nat);
            Self::lemma_old_piece_cut(o, e, key, size, at, sm, n - 1);
        }
    }

    /// A cut changes nothing of the past: what could be checked out before can be
    /// checked out after it and reads the same. Nothing of the unit may have been
    /// superseded since the last commit. A cut that seals no fragment anew, at a
    /// boundary, makes no version that could be told from the one before.
    pub proof fn law_cuts_keep_the_past(o: &Self, e: &Self, key: Seq<u8>, size: u64, at: u64)
        requires
            Self::cut_over(o, e, key, size),
            size == 0 || Self::reseals(o.head(key)->Ok_0.2.stream(), size as nat),
            forall|g: int|
                0 <= g < o.head(key)->Ok_0.2.stream().n() ==> !#[trigger] journal_has(
                    o.journaled@,
                    o.head(key)->Ok_0.2.uuid@,
                    g as u32,
                ),
            at < o.next_version(o.head(key)->Ok_0.2),
            o.as_of(key, at, None) is Ok,
        ensures
            e.head(key) is Ok,
            e.as_of(key, at, None) == o.as_of(key, at, None),
    {
        let (u0, a0, r0) = o.head(key)->Ok_0;
        Self::lemma_head_after_cut(o, e, key, size);
        let (u1, a1, r1) = e.head(key)->Ok_0;
        let h1 = r1.stream();
        let t = o.trust();
        lemma_chain_kept::<C>(o.recs(), e.recs(), t, a0, 0, at);
        if size > 0 {
            lemma_frags(size as nat, r0.stream().fragsize_exp);
            lemma_last_fragment(r0.stream(), size - 1);
            let g = h1.n() - 1;
            assert(h1.unit_map[g] == o.next_version(r0));
            lemma_seq_max(h1.unit_map);
            assert(h1.max_version() > at);
        }
        let sm = stream_as_of::<C>(o.recs(), t, a0, at)->Ok_0->Some_0;
        assert(stream_as_of::<C>(e.recs(), t, a1, at) == stream_as_of::<C>(o.recs(), t, a0, at));
        Self::lemma_old_pieces_cut(o, e, key, size, at, sm, sm.n());
    }

    /// A cut leaves every version counted.
    pub proof fn law_cuts_leave_versions_counted(
        o: &Self,
        e: &Self,
        key: Seq<u8>,
        size: u64,
    )
        requires
            o.inv(),
            o.head(key) is Ok,
            o.may_sign(),
            Self::truncate_step(o, e, key, size, Ok(())),
            o.head(key)->Ok_0.2.stream().geometry_ok(),
            size < o.head(key)->Ok_0.2.stream().size(),
            o.head(key)->Ok_0.2.content is Some,
            o.versions_counted(o.head(key)->Ok_0.2),
            vv_get(o.head(key)->Ok_0.2.stream().vv, o.local_alias) < 0xffff_ffff_ffff,
        ensures
            e.versions_counted(e.recs().last()),
    {
        let (u0, a0, r0) = o.head(key)->Ok_0;
        let r1 = e.recs().last();
        let h0 = r0.stream();
        let h1 = r1.stream();
        let v = o.next_version(r0);
        law_dot_parts(o.local_alias, (vv_get(h0.vv, o.local_alias) + 1) as u64);
        assert(dot_seen(h1.vv, v)) by {
            assert(vv_get(h1.vv, o.local_alias) == vv_get(h0.vv, o.local_alias) + 1);
        }
        assert forall|d: u64| dot_seen(h0.vv, d) implies #[trigger] dot_seen(h1.vv, d) by {
            let k = crate::block::dot_host(d);
            assert(vv_get(h1.vv, k) >= vv_get(h0.vv, k));
        }
        if size > 0 {
            lemma_frags(size as nat, h0.fragsize_exp);
            lemma_last_fragment(h0, size - 1);
            assert(frags_for(size as nat, h0.fragsize_exp) <= h0.n());
        }
        assert forall|f: int| 0 <= f < h1.n() implies dot_seen(h1.vv, #[trigger] h1.unit_map[f]) by {
            if h1.unit_map[f] != v {
                assert(h1.unit_map[f] == h0.unit_map[f]);
                assert(dot_seen(h0.vv, h0.unit_map[f]));
            }
        }
        let from = Self::cut_from(h0, size as nat);
        let images = o.kept_images(r0, from, h0.n() as int);
        assert(e.tail() == o.tail() + images);
        o.lemma_kept_images_of(r0, from, h0.n() as int);
        assert forall|i: int|
            0 <= i < e.tail().len() && (#[trigger] e.tail()[i]).uuid == r1.uuid implies dot_seen(
            h1.vv,
            e.tail()[i].old_version,
        ) by {
            let x = e.tail()[i];
            if i < o.tail().len() {
                assert(x == o.tail()[i]);
            } else {
                assert(x == images[i - o.tail().len()]);
                assert(dot_seen(h0.vv, h0.unit_map[x.frag as int]));
            }
        }
    }

    /// A write leaves every version counted.
    pub proof fn law_versions_stay_counted(
        o: &Self,
        e: &Self,
        key: Seq<u8>,
        offset: int,
        data: Seq<u8>,
    )
        requires
            Self::wrote_over(o, e, key, offset, data),
            o.head(key)->Ok_0.2.content is Some,
            o.versions_counted(o.head(key)->Ok_0.2),
            vv_get(o.head(key)->Ok_0.2.stream().vv, o.local_alias) < 0xffff_ffff_ffff,
        ensures
            e.head(key) is Ok,
            e.versions_counted(e.head(key)->Ok_0.2),
    {
        let (u0, a0, r0) = o.head(key)->Ok_0;
        Self::lemma_head_after_write(o, e, key, offset, data);
        let (u1, a1, r1) = e.head(key)->Ok_0;
        let h0 = r0.stream();
        let h1 = r1.stream();
        let end = (offset + data.len()) as nat;
        let v = o.next_version(r0);
        let fs = frag_bytes(write_exp(h0, end)) as int;
        law_dot_parts(o.local_alias, (vv_get(h0.vv, o.local_alias) + 1) as u64);
        assert(!dot_seen(h0.vv, v));
        assert(dot_seen(h1.vv, v)) by {
            assert(vv_get(h1.vv, o.local_alias) == vv_get(h0.vv, o.local_alias) + 1);
        }
        assert forall|d: u64| dot_seen(h0.vv, d) implies #[trigger] dot_seen(h1.vv, d) by {
            let k = crate::block::dot_host(d);
            assert(vv_get(h1.vv, k) >= vv_get(h0.vv, k));
        }
        assert forall|f: int| 0 <= f < h1.n() implies dot_seen(h1.vv, #[trigger] h1.unit_map[f]) by {
            if !touches(h0, offset, end, f) {
                assert(h1.locations[f] == h0.locations[f]);
                assert(dot_seen(h0.vv, h0.unit_map[f]));
            }
        }
        let images = if rechunks(h0, end) {
            o.pinned_images(r0, h0.n() as int)
        } else {
            o.images(
                r0,
                offset,
                data,
                write_exp(h0, end),
                v,
                offset / fs,
                (end - 1) / fs + 1,
            )
        };
        assert(e.tail() == o.tail() + images);
        lemma_touched_exists(o, r0, offset, data.len());
        o.lemma_pinned_images_of(r0, h0.n() as int);
        o.lemma_images_of(
            r0,
            offset,
            data,
            write_exp(h0, end),
            v,
            offset / fs,
            (end - 1) / fs + 1,
        );
        assert forall|i: int|
            0 <= i < e.tail().len() && (#[trigger] e.tail()[i]).uuid == r1.uuid implies dot_seen(
            h1.vv,
            e.tail()[i].old_version,
        ) by {
            let x = e.tail()[i];
            if i < o.tail().len() {
                assert(x == o.tail()[i]);
            } else {
                assert(x == images[i - o.tail().len()]);
                assert(dot_seen(h0.vv, h0.unit_map[x.frag as int]));
            }
            assert(dot_seen(h0.vv, x.old_version));
        }
    }
}

/// A write touches some fragment of the new head.
pub proof fn lemma_touched_exists<C: Crypto>(o: &Engine<C>, r: RecordModel, offset: int, len: nat)
    requires
        write_fits(r.stream(), o.local_alias, offset, len),
        0 <= offset <= r.stream().size(),
        len > 0,
    ensures
        ({
            let sm = r.stream();
            let end = (offset + len) as nat;
            let exp = write_exp(sm, end);
            let fs = frag_bytes(exp) as int;
            let n = crate::block::frags_for(crate::write::grown_size(sm, end), exp);
            &&& n > 0
            &&& 0 <= offset / fs
            &&& !rechunks(sm, end) ==> offset / fs <= (end - 1) / fs && offset / fs < n
        }),
{
    let sm = r.stream();
    let end = (offset + len) as nat;
    let exp = write_exp(sm, end);
    let fs = frag_bytes(exp) as int;
    let size = crate::write::grown_size(sm, end);
    crate::block::lemma_exp_range(end, 12, 22);
    crate::block::lemma_exp_range(size, 12, 22);
    crate::block::lemma_frag_bytes(exp);
    crate::block::lemma_frags(size, exp);
    assert(0 <= offset / fs) by (nonlinear_arith)
        requires
            offset >= 0,
            fs >= 1,
    ;
    if !rechunks(sm, end) {
        Engine::<C>::lemma_write_shape(sm, offset, end, exp);
    }
}

/// A write that keeps the fragment size keeps every fragment.
proof fn lemma_grows<C: Crypto>(o: &Engine<C>, r: RecordModel, offset: int, len: nat)
    requires
        write_fits(r.stream(), o.local_alias, offset, len),
        0 <= offset <= r.stream().size(),
        len > 0,
        !rechunks(r.stream(), (offset + len) as nat),
    ensures
        ({
            let sm = r.stream();
            let end = (offset + len) as nat;
            sm.n() <= crate::block::frags_for(
                crate::write::grown_size(sm, end),
                write_exp(sm, end),
            )
        }),
{
    let sm = r.stream();
    let end = (offset + len) as nat;
    crate::block::lemma_exp_range(end, 12, 22);
    Engine::<C>::lemma_write_shape(sm, offset, end, write_exp(sm, end));
}

impl<C: Crypto> Engine<C> {
    /// Two states that agree on all that history is read from.
    pub open spec fn same_past(a: &Self, b: &Self) -> bool {
        &&& b.keys@ == a.keys@
        &&& b.ids@ == a.ids@
        &&& b.recs() == a.recs()
        &&& b.tail() == a.tail()
        &&& b.trust() == a.trust()
        &&& Self::same_reads(a, b)
    }

    proof fn lemma_same_old_pieces(
        a: &Self,
        b: &Self,
        addr: u64,
        r: RecordModel,
        sm: StreamModel,
        at: u64,
        bits: Option<Seq<u8>>,
        n: nat,
    )
        requires
            Self::same_past(a, b),
        ensures
            b.old_pieces(addr, r, sm, at, bits, n) == a.old_pieces(addr, r, sm, at, bits, n),
        decreases n,
    {
        if n > 0 {
            Self::lemma_same_old_pieces(a, b, addr, r, sm, at, bits, (n - 1) as nat);
            assert(b.found_at(addr, r, n - 1, at, bits) == a.found_at(addr, r, n - 1, at, bits));
            assert(b.old_piece(addr, r, sm, at, bits, n - 1) == a.old_piece(
                addr,
                r,
                sm,
                at,
                bits,
                n - 1,
            ));
        }
    }

    /// States that agree on it have the same past.
    pub proof fn lemma_same_as_of(
        a: &Self,
        b: &Self,
        key: Seq<u8>,
        at: u64,
        bits: Option<Seq<u8>>,
    )
        requires
            Self::same_past(a, b),
        ensures
            b.as_of(key, at, bits) == a.as_of(key, at, bits),
    {
        assert(b.head(key) == a.head(key));
        if a.head(key) is Ok {
            let (_, addr, m) = a.head(key)->Ok_0;
            match stream_as_of::<C>(a.recs(), a.trust(), addr, at) {
                Ok(Some(sm)) => {
                    Self::lemma_same_old_pieces(a, b, addr, m, sm, at, bits, sm.n());
                },
                _ => {},
            }
        }
    }

    /// Closing a store after a commit and opening it again keeps its past: every
    /// version can be checked out as before.
    pub proof fn law_reopening_keeps_the_past(
        &self,
        c: crate::engine::Container,
        after: &Self,
        key: Seq<u8>,
        at: u64,
        bits: Option<Seq<u8>>,
    )
        requires
            self.inv(),
            self.recoverable(),
            self.snap@ == self.slots(),
            self.slots().len() <= u64::MAX,
            self.header == self.disk.committed.header,
            self.keys@ == self.disk.committed.keys@,
            self.ids@ == self.disk.committed.ids@,
            self.writer_set is None,
            c.blocks@ == self.slots(),
            c.tail@ == self.tail(),
            c.records@ == self.recs(),
            c.committed.header == self.disk.committed.header,
            c.committed.keys@ == self.disk.committed.keys@,
            c.committed.ids@ == self.disk.committed.ids@,
            after.mounted(c, self.root_key),
        ensures
            after.as_of(key, at, bits) == self.as_of(key, at, bits),
    {
        crate::heap::lemma_undone_len(c.blocks@, c.tail@, c.committed.header.commit_seq);
        assert forall|i: int| 0 <= i < self.slots().len() implies after.slots()[i]
            == self.slots()[i] by {
            let a = (i + 1) as u64;
            assert(crate::heap::in_heap(self.snap@, a));
        }
        assert(after.slots() =~= self.slots());
        Self::lemma_same_as_of(self, after, key, at, bits);
    }
}

/// Eviction keeps what stays: a version of a fragment of which every block stays
/// is found as before.
pub proof fn law_eviction_keeps_what_stays<S: EvictionStrategy>(
    tail: Seq<EvictedModel>,
    s: S,
    now: i64,
    uuid: Uuid,
    f: int,
    version: u64,
)
    requires
        forall|i: int|
            0 <= i < tail.len() && (#[trigger] tail[i]).uuid == uuid && tail[i].frag == f
                && tail[i].old_version == version ==> stays(tail[i], s, now),
    ensures
        in_tail(kept_tail(tail, s, now), uuid, f, version) == in_tail(tail, uuid, f, version),
    decreases tail.len(),
{
    if tail.len() > 0 {
        let t = tail.drop_last();
        assert(tail[tail.len() - 1] == tail.last());
        assert forall|i: int|
            0 <= i < t.len() && (#[trigger] t[i]).uuid == uuid && t[i].frag == f
                && t[i].old_version == version implies stays(t[i], s, now) by {
            assert(tail[i] == t[i]);
        }
        law_eviction_keeps_what_stays(t, s, now, uuid, f, version);
        if stays(tail.last(), s, now) {
            assert(kept_tail(tail, s, now).drop_last() =~= kept_tail(t, s, now));
        }
    }
}

impl<C: Crypto> Engine<C> {
    proof fn lemma_evicted_pieces<S: EvictionStrategy>(
        o: &Self,
        e: &Self,
        s: S,
        now: i64,
        addr: u64,
        r: RecordModel,
        sm: StreamModel,
        at: u64,
        bits: Option<Seq<u8>>,
        n: nat,
    )
        requires
            e.recs() == o.recs(),
            e.trust() == o.trust(),
            Self::same_reads(o, e),
            e.tail() == kept_tail(o.tail(), s, now),
            forall|i: int|
                0 <= i < o.tail().len() && o.needs(addr, r.uuid, at, #[trigger] o.tail()[i])
                    ==> stays(o.tail()[i], s, now),
        ensures
            e.old_pieces(addr, r, sm, at, bits, n) == o.old_pieces(addr, r, sm, at, bits, n),
        decreases n,
    {
        if n > 0 {
            let f = n - 1;
            Self::lemma_evicted_pieces(o, e, s, now, addr, r, sm, at, bits, f as nat);
            match resolved::<C>(o.recs(), o.trust(), addr, f, at) {
                Ok(Some((_, version, _))) => {
                    assert forall|i: int|
                        0 <= i < o.tail().len() && (#[trigger] o.tail()[i]).uuid == r.uuid
                            && o.tail()[i].frag == f && o.tail()[i].old_version
                            == version implies stays(o.tail()[i], s, now) by {
                        assert(o.needs(addr, r.uuid, at, o.tail()[i]));
                    }
                    law_eviction_keeps_what_stays(o.tail(), s, now, r.uuid, f, version);
                },
                _ => {},
            }
            assert(e.found_at(addr, r, f, at, bits) == o.found_at(addr, r, f, at, bits));
            assert(e.old_piece(addr, r, sm, at, bits, f) == o.old_piece(
                addr,
                r,
                sm,
                at,
                bits,
                f,
            ));
        }
    }

    /// The version `at` of the unit `uuid`, with its head at `addr`, holds the block
    /// that `x` is an image of.
    pub open spec fn needs(&self, addr: u64, uuid: Uuid, at: u64, x: EvictedModel) -> bool {
        &&& x.uuid == uuid
        &&& match resolved::<C>(self.recs(), self.trust(), addr, x.frag as int, at) {
            Ok(Some((_, version, _))) => version == x.old_version,
            _ => false,
        }
    }

    /// Eviction spares what commits pin: a version of a unit, all of whose
    /// superseded blocks stay, can be checked out as before.
    pub proof fn law_eviction_keeps_checkouts<S: EvictionStrategy>(
        o: &Self,
        e: &Self,
        s: S,
        now: i64,
        report: EvictReport,
        key: Seq<u8>,
        at: u64,
        bits: Option<Seq<u8>>,
    )
        requires
            Self::tail_evicted(o, e, s, now, report),
            o.head(key) is Ok,
            forall|i: int|
                0 <= i < o.tail().len() && o.needs(
                    o.head(key)->Ok_0.1,
                    o.head(key)->Ok_0.2.uuid,
                    at,
                    #[trigger] o.tail()[i],
                ) ==> stays(o.tail()[i], s, now),
        ensures
            e.as_of(key, at, bits) == o.as_of(key, at, bits),
    {
        assert(e.trust() == o.trust());
        assert(e.head(key) == o.head(key));
        let (_, addr, m) = o.head(key)->Ok_0;
        match stream_as_of::<C>(o.recs(), o.trust(), addr, at) {
            Ok(Some(sm)) => {
                Self::lemma_evicted_pieces(o, e, s, now, addr, m, sm, at, bits, sm.n());
            },
            _ => {},
        }
    }
}

} // verus!
