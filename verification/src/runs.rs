//! Laws on runs of writes to one unit.
use vstd::prelude::*;

use crate::block::{bit_set, dot, dot_host, dot_sync, law_dot_parts, law_dots_ascend};
use crate::crypto::Crypto;
use crate::engine::{journal_has, loaded, Engine};
use crate::error::Error;
use crate::evicted::EvictedModel;
use crate::history::{stream_as_of, versions_from};
use crate::retention::{kept_tail, EvictReport, EvictionStrategy};
use crate::tags::commit_key;
use crate::unit::{lemma_seq_max, RecordModel, Uuid};
use crate::vector::vv_get;
use crate::write::{rechunks, touches, write_exp};
use crate::writerset::TrustModel;

verus! {

/// A version that `host` made with one of its first `count` writes.
pub open spec fn own_version(v: u64, host: u16, count: u64) -> bool {
    dot_host(v) == host && dot_sync(v) <= count
}

proof fn lemma_own_version(v: u64, host: u16, count: u64)
    requires
        own_version(v, host, count),
        count < 0x1_0000_0000_0000,
    ensures
        v <= dot(host, count),
{
}

impl<C: Crypto> Engine<C> {
    /// This host alone wrote the content of a record.
    pub open spec fn own_head(&self, r: RecordModel) -> bool {
        forall|f: int|
            0 <= f < r.stream().n() ==> own_version(
                #[trigger] r.stream().unit_map[f],
                self.local_alias,
                vv_get(r.stream().vv, self.local_alias),
            )
    }

    /// Nothing of the unit was superseded since the last commit.
    pub open spec fn settled(&self, r: RecordModel) -> bool {
        forall|f: int|
            0 <= f < r.stream().n() ==> !#[trigger] journal_has(
                self.journaled@,
                r.uuid@,
                f as u32,
            )
    }

    /// A write of the only host leaves it the only one, counts once, and its
    /// version is the largest.
    proof fn lemma_own_after(o: &Self, e: &Self, key: Seq<u8>, offset: int, data: Seq<u8>)
        requires
            Self::wrote_over(o, e, key, offset, data),
            o.own_head(o.head(key)->Ok_0.2),
            vv_get(o.head(key)->Ok_0.2.stream().vv, o.local_alias) + 1 < 0x1_0000_0000_0000,
        ensures
            e.head(key) is Ok,
            e.local_alias == o.local_alias,
            e.own_head(e.head(key)->Ok_0.2),
            e.head(key)->Ok_0.2.content is Some,
            e.head(key)->Ok_0.2.stream().n() > 0,
            e.head(key)->Ok_0.2.stream().geometry_ok(),
            vv_get(e.head(key)->Ok_0.2.stream().vv, e.local_alias) == vv_get(
                o.head(key)->Ok_0.2.stream().vv,
                o.local_alias,
            ) + 1,
            e.head(key)->Ok_0.2.stream().max_version() == o.next_version(o.head(key)->Ok_0.2),
    {
        let (u0, a0, r0) = o.head(key)->Ok_0;
        Self::lemma_head_after_write(o, e, key, offset, data);
        let r1 = e.head(key)->Ok_0.2;
        let h0 = r0.stream();
        let h1 = r1.stream();
        let end = (offset + data.len()) as nat;
        let v = o.next_version(r0);
        let c = vv_get(h0.vv, o.local_alias);
        law_dot_parts(o.local_alias, (c + 1) as u64);
        crate::timemachine::lemma_touched_exists(o, r0, offset, data.len());
        let fs = crate::block::frag_bytes(write_exp(h0, end)) as int;
        let g = if rechunks(h0, end) {
            0
        } else {
            offset / fs
        };
        assert(touches(h0, offset, end, g));
        assert(0 <= g < h1.n());
        assert(h1.unit_map[g] == v);
        assert(vv_get(h1.vv, o.local_alias) == c + 1);
        assert forall|f: int| 0 <= f < h1.n() implies own_version(
            #[trigger] h1.unit_map[f],
            o.local_alias,
            vv_get(h1.vv, o.local_alias),
        ) && h1.unit_map[f] <= v by {
            if !touches(h0, offset, end, f) {
                assert(h1.locations[f] == h0.locations[f]);
                assert(own_version(h0.unit_map[f], o.local_alias, c));
                lemma_own_version(h0.unit_map[f], o.local_alias, c);
                law_dots_ascend(o.local_alias, c, (c + 1) as u64);
            }
        }
        lemma_seq_max(h1.unit_map);
    }

    /// The writes `ws` were made to the unit at `key`, one after the other, each
    /// committed before the next, by the only host that ever wrote to it, and
    /// without a change of the fragment size.
    pub open spec fn write_run(
        t: Seq<Self>,
        key: Seq<u8>,
        ws: Seq<(int, Seq<u8>)>,
        n: nat,
    ) -> bool {
        &&& n < t.len()
        &&& t[0].head(key) is Ok
        &&& t[0].head(key)->Ok_0.2.content is Some
        &&& t[0].own_head(t[0].head(key)->Ok_0.2)
        &&& vv_get(t[0].head(key)->Ok_0.2.stream().vv, t[0].local_alias) + n < 0x1_0000_0000_0000
        &&& forall|i: int|
            #![trigger t[i + 1]]
            0 <= i < n ==> {
                let r = t[i].head(key)->Ok_0.2;
                &&& Self::wrote_over(&t[i], &t[i + 1], key, ws[i].0, ws[i].1)
                &&& t[i].settled(r)
                &&& r.stream().n() > 0 ==> !rechunks(
                    r.stream(),
                    (ws[i].0 + ws[i].1.len()) as nat,
                )
            }
    }

    proof fn lemma_run(t: Seq<Self>, key: Seq<u8>, ws: Seq<(int, Seq<u8>)>, n: nat, i: nat)
        requires
            Self::write_run(t, key, ws, n),
            i <= n,
        ensures
            t[i as int].head(key) is Ok,
            t[i as int].head(key)->Ok_0.2.content is Some,
            t[i as int].own_head(t[i as int].head(key)->Ok_0.2),
            t[i as int].local_alias == t[0].local_alias,
            vv_get(t[i as int].head(key)->Ok_0.2.stream().vv, t[0].local_alias) == vv_get(
                t[0].head(key)->Ok_0.2.stream().vv,
                t[0].local_alias,
            ) + i,
            i > 0 ==> {
                let h = t[i as int].head(key)->Ok_0.2.stream();
                &&& h.n() > 0
                &&& h.geometry_ok()
                &&& h.max_version() == dot(
                    t[0].local_alias,
                    (vv_get(t[0].head(key)->Ok_0.2.stream().vv, t[0].local_alias) + i) as u64,
                )
            },
        decreases i,
    {
        if i > 0 {
            Self::lemma_run(t, key, ws, n, (i - 1) as nat);
            let a = t[i - 1];
            let b = t[i - 1 + 1];
            assert(Self::wrote_over(&a, &b, key, ws[i - 1].0, ws[i - 1].1));
            Self::lemma_own_after(&a, &b, key, ws[i - 1].0, ws[i - 1].1);
        }
    }

    /// Every version of a run of writes checks out after all of them: it gives what
    /// a read gave right after its write, byte for byte.
    pub proof fn law_every_version_checks_out(
        t: Seq<Self>,
        key: Seq<u8>,
        ws: Seq<(int, Seq<u8>)>,
        n: nat,
        i: nat,
    )
        requires
            Self::write_run(t, key, ws, n),
            1 <= i <= n,
            t[i as int].full(t[i as int].head(key)->Ok_0.2) is Ok,
        ensures
            t[n as int].head(key) is Ok,
            t[n as int].as_of(
                key,
                t[i as int].head(key)->Ok_0.2.stream().max_version(),
                None,
            ) == t[i as int].full(t[i as int].head(key)->Ok_0.2),
        decreases n,
    {
        Self::lemma_run(t, key, ws, n, i);
        Self::lemma_run(t, key, ws, n, n);
        if n == i {
            t[n as int].law_checkout_of_the_present(key);
        } else {
            let p = (n - 1) as nat;
            Self::lemma_run(t, key, ws, n, p);
            assert(Self::write_run(t, key, ws, p));
            Self::law_every_version_checks_out(t, key, ws, p, i);
            let a = t[n - 1];
            let b = t[n - 1 + 1];
            let (off, data) = ws[n - 1];
            let r = a.head(key)->Ok_0.2;
            let c0 = vv_get(t[0].head(key)->Ok_0.2.stream().vv, t[0].local_alias);
            law_dots_ascend(t[0].local_alias, (c0 + i) as u64, (c0 + n) as u64);
            assert(Self::wrote_over(&a, &b, key, off, data));
            Self::law_write_keeps_the_past(
                &a,
                &b,
                key,
                off,
                data,
                t[i as int].head(key)->Ok_0.2.stream().max_version(),
            );
        }
    }

    /// A write by the only host puts its version before the history; it is the
    /// version of the unit, and larger than every one before it.
    pub proof fn law_history_ascends(
        o: &Self,
        e: &Self,
        key: Seq<u8>,
        offset: int,
        data: Seq<u8>,
        h: Seq<u64>,
    )
        requires
            Self::wrote_over(o, e, key, offset, data),
            o.own_head(o.head(key)->Ok_0.2),
            vv_get(o.head(key)->Ok_0.2.stream().vv, o.local_alias) + 1 < 0x1_0000_0000_0000,
            versions_from::<C>(o.recs(), o.trust(), o.head(key)->Ok_0.1) == Ok::<Seq<u64>, Error>(
                h,
            ),
            forall|i: int|
                0 <= i < h.len() ==> own_version(
                    #[trigger] h[i],
                    o.local_alias,
                    vv_get(o.head(key)->Ok_0.2.stream().vv, o.local_alias),
                ),
        ensures
            e.head(key) is Ok,
            ({
                let v = Self::summary(e.head(key)->Ok_0.2).version;
                let now = seq![v] + h;
                &&& versions_from::<C>(e.recs(), e.trust(), e.head(key)->Ok_0.1) == Ok::<
                    Seq<u64>,
                    Error,
                >(now)
                &&& forall|i: int| 0 <= i < h.len() ==> #[trigger] h[i] < v
                &&& forall|i: int|
                    0 <= i < now.len() ==> own_version(
                        #[trigger] now[i],
                        e.local_alias,
                        vv_get(e.head(key)->Ok_0.2.stream().vv, e.local_alias),
                    )
            }),
    {
        Self::lemma_own_after(o, e, key, offset, data);
        Self::law_writes_make_history(o, e, key, offset, data, key);
        let c = vv_get(o.head(key)->Ok_0.2.stream().vv, o.local_alias);
        law_dot_parts(o.local_alias, (c + 1) as u64);
        law_dots_ascend(o.local_alias, c, (c + 1) as u64);
        let v = Self::summary(e.head(key)->Ok_0.2).version;
        let now = seq![v] + h;
        assert forall|i: int| 0 <= i < h.len() implies #[trigger] h[i] < v by {
            lemma_own_version(h[i], o.local_alias, c);
        }
        assert forall|i: int| 0 <= i < now.len() implies own_version(
            #[trigger] now[i],
            e.local_alias,
            vv_get(e.head(key)->Ok_0.2.stream().vv, e.local_alias),
        ) by {
            if i > 0 {
                assert(now[i] == h[i - 1]);
            }
        }
    }

    /// Before the first version of its history a unit has no content to check out.
    pub proof fn law_nothing_before_the_first_version(&self, key: Seq<u8>, h: Seq<u64>, at: u64)
        requires
            self.head(key) is Ok,
            self.head(key)->Ok_0.2.content is Some,
            versions_from::<C>(self.recs(), self.trust(), self.head(key)->Ok_0.1) == Ok::<
                Seq<u64>,
                Error,
            >(h),
            forall|i: int| 0 <= i < h.len() ==> at < #[trigger] h[i],
        ensures
            self.as_of(key, at, None) == Err::<Seq<u8>, Error>(Error::NotFound),
    {
        lemma_nothing_before::<C>(self.recs(), self.trust(), self.head(key)->Ok_0.1, h, at);
    }
}

impl<C: Crypto> Engine<C> {
    /// The commit can be checked out at `key`, where it holds version `at`, and
    /// pins what it holds: the fragments that did not change since, and the images
    /// of the others.
    pub open spec fn holds_commit(&self, key: Seq<u8>, commitish: Uuid, at: u64) -> bool {
        let (uuid, addr, m) = self.head(key)->Ok_0;
        &&& self.head(key) is Ok
        &&& m.content is Some
        &&& Self::pinned_by(m, commitish, at)
        &&& self.commit_stored(commitish) is Ok
        &&& Self::committed_version(self.commit_stored(commitish)->Ok_0.entries, uuid) == Some(at)
        &&& self.geometry_at(commit_key(commitish))
        &&& self.keys@[commit_key(commitish)] != self.keys@[key]
        &&& self.at_commit(key, commitish) is Ok
        &&& forall|i: int|
            0 <= i < self.tail().len() && self.needs(addr, m.uuid, at, #[trigger] self.tail()[i])
                ==> self.tail()[i].commits.len() > 0
    }

    /// The unit at `key` was written after the commit that holds version `at`, with
    /// everything before committed.
    pub open spec fn written_later(a: &Self, b: &Self, key: Seq<u8>, at: u64) -> bool {
        exists|offset: int, data: Seq<u8>|
            #[trigger] Self::wrote_over(a, b, key, offset, data) && a.settled(
                a.head(key)->Ok_0.2,
            ) && at < a.next_version(a.head(key)->Ok_0.2)
    }

    /// Superseded blocks were let go by strategy `s`.
    pub open spec fn evicted_once<S: EvictionStrategy>(a: &Self, b: &Self, s: S) -> bool {
        exists|now: i64, report: EvictReport| #[trigger] Self::tail_evicted(a, b, s, now, report)
    }

    proof fn lemma_needs_after_write(
        o: &Self,
        e: &Self,
        key: Seq<u8>,
        offset: int,
        data: Seq<u8>,
        at: u64,
        x: EvictedModel,
    )
        requires
            Self::wrote_over(o, e, key, offset, data),
            o.head(key)->Ok_0.2.content is Some,
            at < o.next_version(o.head(key)->Ok_0.2),
            e.head(key) is Ok,
            e.needs(e.head(key)->Ok_0.1, e.head(key)->Ok_0.2.uuid, at, x),
        ensures
            o.needs(o.head(key)->Ok_0.1, o.head(key)->Ok_0.2.uuid, at, x),
    {
        Self::lemma_head_after_write(o, e, key, offset, data);
        let (u0, a0, r0) = o.head(key)->Ok_0;
        let (u1, a1, r1) = e.head(key)->Ok_0;
        let f = x.frag as int;
        let end = (offset + data.len()) as nat;
        crate::timemachine::lemma_chain_kept::<C>(o.recs(), e.recs(), o.trust(), a0, f, at);
        if f < r1.stream().n() && !touches(r0.stream(), offset, end, f) {
            assert(r1.stream().locations[f] == r0.stream().locations[f]);
        }
    }

    proof fn lemma_images_pinned(
        o: &Self,
        e: &Self,
        key: Seq<u8>,
        offset: int,
        data: Seq<u8>,
        commitish: Uuid,
        at: u64,
    )
        requires
            Self::wrote_over(o, e, key, offset, data),
            o.holds_commit(key, commitish, at),
            at < o.next_version(o.head(key)->Ok_0.2),
            e.head(key) is Ok,
        ensures
            forall|i: int|
                0 <= i < e.tail().len() && e.needs(
                    e.head(key)->Ok_0.1,
                    e.head(key)->Ok_0.2.uuid,
                    at,
                    #[trigger] e.tail()[i],
                ) ==> e.tail()[i].commits.len() > 0,
    {
        let (u0, a0, r0) = o.head(key)->Ok_0;
        let h0 = r0.stream();
        let end = (offset + data.len()) as nat;
        let exp = write_exp(h0, end);
        let fs = crate::block::frag_bytes(exp) as int;
        let v = o.next_version(r0);
        crate::block::lemma_exp_range(end, 12, 22);
        crate::block::lemma_exp_range(crate::write::grown_size(h0, end), 12, 22);
        crate::block::lemma_frag_bytes(exp);
        vstd::arithmetic::div_mod::lemma_div_pos_is_pos(offset, fs);
        o.lemma_pinned_images_of(r0, h0.n() as int);
        o.lemma_images_of(r0, offset, data, exp, v, offset / fs, (end - 1) / fs + 1);
        assert forall|i: int|
            0 <= i < e.tail().len() && e.needs(
                e.head(key)->Ok_0.1,
                e.head(key)->Ok_0.2.uuid,
                at,
                #[trigger] e.tail()[i],
            ) implies e.tail()[i].commits.len() > 0 by {
            let x = e.tail()[i];
            Self::lemma_needs_after_write(o, e, key, offset, data, at, x);
            if i < o.tail().len() {
                assert(o.tail()[i] == x);
            } else if !rechunks(h0, end) {
                let f = x.frag as int;
                let k = i - o.tail().len();
                assert(x == o.images(r0, offset, data, exp, v, offset / fs, (end - 1) / fs + 1)[k]);
                crate::timemachine::lemma_resolved_version::<C>(
                    o.recs(),
                    o.trust(),
                    a0,
                    f,
                    at,
                );
                let bits = Self::pin_bits(h0.pins, commitish)->Some_0;
                assert(bit_set(bits, f));
                Self::lemma_bit_pins(h0.pins, commitish, f);
            } else {
                let k = i - o.tail().len();
                assert(x == o.pinned_images(r0, h0.n() as int)[k]);
            }
        }
    }

    proof fn lemma_commit_held_by_write(
        o: &Self,
        e: &Self,
        key: Seq<u8>,
        offset: int,
        data: Seq<u8>,
        commitish: Uuid,
        at: u64,
    )
        requires
            Self::wrote_over(o, e, key, offset, data),
            o.holds_commit(key, commitish, at),
            o.settled(o.head(key)->Ok_0.2),
            at < o.next_version(o.head(key)->Ok_0.2),
        ensures
            e.holds_commit(key, commitish, at),
            e.at_commit(key, commitish) == o.at_commit(key, commitish),
    {
        let ck = commit_key(commitish);
        Self::law_write_keeps_commits(o, e, key, offset, data, commitish, at);
        Self::lemma_head_after_write(o, e, key, offset, data);
        Self::lemma_other_reads(o, e, key, offset, data, ck);
        Self::lemma_images_pinned(o, e, key, offset, data, commitish, at);
        assert(e.commit_stored(commitish) == o.commit_stored(commitish));
    }

    proof fn lemma_commit_held_by_eviction<S: EvictionStrategy>(
        o: &Self,
        e: &Self,
        s: S,
        now: i64,
        report: EvictReport,
        key: Seq<u8>,
        commitish: Uuid,
        at: u64,
    )
        requires
            Self::tail_evicted(o, e, s, now, report),
            o.holds_commit(key, commitish, at),
        ensures
            e.holds_commit(key, commitish, at),
            e.at_commit(key, commitish) == o.at_commit(key, commitish),
    {
        let ck = commit_key(commitish);
        let bits = Self::pin_bits(o.head(key)->Ok_0.2.stream().pins, commitish);
        assert(e.trust() == o.trust());
        assert(e.head(key) == o.head(key));
        assert(e.head(ck) == o.head(ck));
        let c = o.head(ck)->Ok_0.2;
        if c.content is Some {
            assert forall|f: int| 0 <= f < c.stream().n() implies #[trigger] e.frag(c, f)
                == o.frag(c, f) by {}
            Self::lemma_same_content_reads(o, c, e, c, c.stream().n());
        }
        assert(e.full(c) == o.full(c));
        Self::law_eviction_keeps_checkouts(o, e, s, now, report, key, at, bits);
        let (_, addr, m) = o.head(key)->Ok_0;
        assert forall|i: int|
            0 <= i < e.tail().len() && e.needs(addr, m.uuid, at, #[trigger] e.tail()[i]) implies
            e.tail()[i].commits.len() > 0 by {
            lemma_kept_from(o.tail(), s, now, i);
            let j = choose|j: int|
                0 <= j < o.tail().len() && #[trigger] o.tail()[j] == e.tail()[i];
            assert(o.needs(addr, m.uuid, at, o.tail()[j]));
        }
    }

    /// What a commit holds of a unit can be checked out for good: however often the
    /// unit is written afterwards, and however often superseded blocks are let go,
    /// a checkout at the commit gives the bytes that it gave at first.
    pub proof fn law_commits_last<S: EvictionStrategy>(
        t: Seq<Self>,
        key: Seq<u8>,
        commitish: Uuid,
        at: u64,
        s: S,
        n: nat,
    )
        requires
            n < t.len(),
            t[0].holds_commit(key, commitish, at),
            forall|i: int|
                #![trigger t[i + 1]]
                0 <= i < n ==> Self::written_later(&t[i], &t[i + 1], key, at)
                    || Self::evicted_once(&t[i], &t[i + 1], s),
        ensures
            t[n as int].holds_commit(key, commitish, at),
            t[n as int].at_commit(key, commitish) == t[0].at_commit(key, commitish),
        decreases n,
    {
        if n > 0 {
            Self::law_commits_last(t, key, commitish, at, s, (n - 1) as nat);
            let a = t[n - 1];
            let b = t[n - 1 + 1];
            if Self::written_later(&a, &b, key, at) {
                let (offset, data) = choose|offset: int, data: Seq<u8>|
                    #[trigger] Self::wrote_over(&a, &b, key, offset, data) && a.settled(
                        a.head(key)->Ok_0.2,
                    ) && at < a.next_version(a.head(key)->Ok_0.2);
                Self::lemma_commit_held_by_write(&a, &b, key, offset, data, commitish, at);
            } else {
                assert(Self::evicted_once(&a, &b, s));
                let (now, report) = choose|now: i64, report: EvictReport| #[trigger]
                    Self::tail_evicted(&a, &b, s, now, report);
                Self::lemma_commit_held_by_eviction(
                    &a,
                    &b,
                    s,
                    now,
                    report,
                    key,
                    commitish,
                    at,
                );
            }
        }
    }
}

/// What stays in the tail was there before.
proof fn lemma_kept_from<S: EvictionStrategy>(tail: Seq<EvictedModel>, s: S, now: i64, i: int)
    requires
        0 <= i < kept_tail(tail, s, now).len(),
    ensures
        exists|j: int| 0 <= j < tail.len() && #[trigger] tail[j] == kept_tail(tail, s, now)[i],
    decreases tail.len(),
{
    if tail.len() > 0 {
        let p = tail.drop_last();
        let k = kept_tail(p, s, now);
        if i < k.len() {
            lemma_kept_from(p, s, now, i);
            let j = choose|j: int| 0 <= j < p.len() && #[trigger] p[j] == k[i];
            assert(tail[j] == k[i]);
            assert(kept_tail(tail, s, now)[i] == k[i]);
        } else {
            assert(kept_tail(tail, s, now)[i] == tail[tail.len() - 1]);
        }
    }
}

proof fn lemma_nothing_before<C: Crypto>(
    recs: Seq<RecordModel>,
    t: TrustModel,
    addr: u64,
    h: Seq<u64>,
    at: u64,
)
    requires
        versions_from::<C>(recs, t, addr) == Ok::<Seq<u64>, Error>(h),
        forall|i: int| 0 <= i < h.len() ==> at < #[trigger] h[i],
    ensures
        stream_as_of::<C>(recs, t, addr, at) == Ok::<Option<crate::unit::StreamModel>, Error>(None),
    decreases addr,
{
    let r = loaded::<C>(recs, t, addr)->Ok_0;
    let own = r.content is Some && r.stream().n() > 0;
    if own {
        assert(h[0] == r.stream().max_version());
    }
    if r.parent is Some && r.parent->Some_0 < addr {
        let p = r.parent->Some_0;
        let rest = versions_from::<C>(recs, t, p)->Ok_0;
        assert forall|i: int| 0 <= i < rest.len() implies at < #[trigger] rest[i] by {
            if own {
                assert(h[i + 1] == rest[i]);
            } else {
                assert(h[i] == rest[i]);
            }
        }
        lemma_nothing_before::<C>(recs, t, p, rest, at);
    }
}

} // verus!
