//! Laws on commits: what a commit holds can be checked out for good.
use vstd::prelude::*;

use crate::block::{bit_set, frag_bytes};
use crate::crypto::Crypto;
use crate::engine::{journal_has, Engine};
use crate::error::Error;
use crate::history::versions_from;
use crate::supersede::old_block;
use crate::tags::commit_key;
use crate::unit::{lemma_seq_max, pinning, pins_cleared, PinModel, RecordModel, StreamModel, Uuid};
use crate::write::{rechunks, touches, write_exp};

verus! {

impl<C: Crypto> Engine<C> {
    /// A commit of version `at` pins the fragments that have not changed since,
    /// and no others.
    pub open spec fn pinned_by(r: RecordModel, commitish: Uuid, at: u64) -> bool {
        let bits = Self::pin_bits(r.stream().pins, commitish);
        &&& bits is Some
        &&& forall|f: int|
            0 <= f < r.stream().n() ==> #[trigger] bit_set(bits->Some_0, f) == (
            r.stream().unit_map[f] <= at)
    }

    /// Where the pins are right, they only save the search for a fragment: a
    /// checkout with their help gives the same bytes as one without.
    pub proof fn law_pins_only_help(&self, key: Seq<u8>, commitish: Uuid, at: u64)
        requires
            self.head(key) is Ok,
            self.head(key)->Ok_0.2.content is Some,
            self.head(key)->Ok_0.2.stream().geometry_ok(),
            Self::pinned_by(self.head(key)->Ok_0.2, commitish, at),
        ensures
            self.as_of(
                key,
                at,
                Self::pin_bits(self.head(key)->Ok_0.2.stream().pins, commitish),
            ) == self.as_of(key, at, None),
    {
        let (uuid, addr, r) = self.head(key)->Ok_0;
        match crate::history::stream_as_of::<C>(self.recs(), self.trust(), addr, at) {
            Ok(Some(sm)) => {
                self.lemma_pins_pieces(addr, r, commitish, at, sm, sm.n());
            },
            _ => {},
        }
    }

    proof fn lemma_pins_pieces(
        &self,
        addr: u64,
        r: RecordModel,
        commitish: Uuid,
        at: u64,
        sm: StreamModel,
        n: nat,
    )
        requires
            self.record(addr) == Ok::<RecordModel, Error>(r),
            r.content is Some,
            r.stream().geometry_ok(),
            Self::pinned_by(r, commitish, at),
        ensures
            self.old_pieces(addr, r, sm, at, Self::pin_bits(r.stream().pins, commitish), n)
                == self.old_pieces(addr, r, sm, at, None, n),
        decreases n,
    {
        if n > 0 {
            let f = n - 1;
            let bits = Self::pin_bits(r.stream().pins, commitish);
            self.lemma_pins_pieces(addr, r, commitish, at, sm, f as nat);
            if f < r.stream().n() && bit_set(bits->Some_0, f) {
                assert(r.stream().unit_map[f] <= at);
            }
            assert(self.found_at(addr, r, f, at, bits) == self.found_at(addr, r, f, at, None));
            assert(self.old_piece(addr, r, sm, at, bits, f) == self.old_piece(
                addr,
                r,
                sm,
                at,
                None,
                f,
            ));
        }
    }

    /// A fragment whose bit is set is pinned.
    pub proof fn lemma_bit_pins(pins: Seq<PinModel>, commitish: Uuid, f: int)
        requires
            Self::pin_bits(pins, commitish) is Some,
            bit_set(Self::pin_bits(pins, commitish)->Some_0, f),
        ensures
            pinning(pins, f).len() > 0,
        decreases pins.len(),
    {
        if Self::pin_bits(pins.drop_last(), commitish) is Some {
            Self::lemma_bit_pins(pins.drop_last(), commitish, f);
        }
    }

    /// Clearing bits leaves a commit its pin.
    proof fn lemma_pin_cleared(
        a: Seq<PinModel>,
        b: Seq<PinModel>,
        lo: int,
        hi: int,
        commitish: Uuid,
    )
        requires
            pins_cleared(a, b, lo, hi),
        ensures
            Self::pin_bits(a, commitish) is Some <==> Self::pin_bits(b, commitish) is Some,
            Self::pin_bits(a, commitish) is Some ==> forall|f: int| #[trigger]
                bit_set(Self::pin_bits(b, commitish)->Some_0, f) == (bit_set(
                    Self::pin_bits(a, commitish)->Some_0,
                    f,
                ) && !(lo <= f < hi)),
        decreases a.len(),
    {
        if a.len() > 0 {
            let x = a.drop_last();
            let y = b.drop_last();
            assert forall|i: int| 0 <= i < x.len() implies (#[trigger] y[i]).commit
                == x[i].commit by {
                assert(b[i].commit == a[i].commit);
            }
            assert forall|i: int, k: int|
                #![trigger bit_set(y[i].bits, k)]
                0 <= i < x.len() implies bit_set(y[i].bits, k) == (bit_set(x[i].bits, k) && !(lo
                <= k < hi)) by {
                assert(bit_set(b[i].bits, k) == (bit_set(a[i].bits, k) && !(lo <= k < hi)));
            }
            Self::lemma_pin_cleared(x, y, lo, hi, commitish);
            let l = a.len() - 1;
            assert(b[l].commit == a[l].commit);
            assert forall|f: int| #[trigger] bit_set(b[l].bits, f) == (bit_set(a[l].bits, f) && !(
            lo <= f < hi)) by {}
        }
    }

    /// Emptying all bits leaves a commit its pin, with nothing in it.
    proof fn lemma_pin_emptied(a: Seq<PinModel>, b: Seq<PinModel>, commitish: Uuid)
        requires
            b.len() == a.len(),
            forall|i: int|
                0 <= i < a.len() ==> (#[trigger] b[i]).commit == a[i].commit && b[i].bits == Seq::<
                    u8,
                >::empty(),
        ensures
            Self::pin_bits(a, commitish) is Some ==> Self::pin_bits(b, commitish) == Some(
                Seq::<u8>::empty(),
            ),
            Self::pin_bits(b, commitish) is Some ==> Self::pin_bits(a, commitish) is Some,
        decreases a.len(),
    {
        if a.len() > 0 {
            let x = a.drop_last();
            let y = b.drop_last();
            assert forall|i: int| 0 <= i < x.len() implies (#[trigger] y[i]).commit == x[i].commit
                && y[i].bits == Seq::<u8>::empty() by {
                assert(b[i].commit == a[i].commit);
            }
            Self::lemma_pin_emptied(x, y, commitish);
            let l = a.len() - 1;
            assert(b[l].commit == a[l].commit);
        }
    }

    /// A write leaves every commit of the unit as it is: what could be checked
    /// out at the commit can be checked out after the write and reads the same,
    /// however often the unit is written and even where its fragments change
    /// their size.
    pub proof fn law_write_keeps_commits(
        o: &Self,
        e: &Self,
        key: Seq<u8>,
        offset: int,
        data: Seq<u8>,
        commitish: Uuid,
        at: u64,
    )
        requires
            Self::wrote_over(o, e, key, offset, data),
            o.head(key)->Ok_0.2.content is Some,
            forall|f: int|
                0 <= f < o.head(key)->Ok_0.2.stream().n() ==> !#[trigger] journal_has(
                    o.journaled@,
                    o.head(key)->Ok_0.2.uuid@,
                    f as u32,
                ),
            at < o.next_version(o.head(key)->Ok_0.2),
            Self::pinned_by(o.head(key)->Ok_0.2, commitish, at),
            o.commit_stored(commitish) is Ok,
            Self::committed_version(
                o.commit_stored(commitish)->Ok_0.entries,
                o.head(key)->Ok_0.0,
            ) == Some(at),
            o.geometry_at(commit_key(commitish)),
            o.keys@[commit_key(commitish)] != o.keys@[key],
            o.at_commit(key, commitish) is Ok,
        ensures
            e.head(key) is Ok,
            Self::pinned_by(e.head(key)->Ok_0.2, commitish, at),
            e.at_commit(key, commitish) == o.at_commit(key, commitish),
    {
        Self::lemma_head_after_write(o, e, key, offset, data);
        let (uuid, a0, r0) = o.head(key)->Ok_0;
        let (u1, a1, r1) = e.head(key)->Ok_0;
        let h0 = r0.stream();
        let h1 = r1.stream();
        let end = (offset + data.len()) as nat;
        let fs = crate::block::frag_bytes(write_exp(h0, end)) as int;
        let ck = commit_key(commitish);
        assert forall|f: int|
            #![trigger old_block(r0, f)]
            old_block(r0, f) is Some && h0.unit_map[f] <= at implies pinning(h0.pins, f).len()
            > 0 by {
            let bits = Self::pin_bits(h0.pins, commitish)->Some_0;
            assert(bit_set(bits, f));
            Self::lemma_bit_pins(h0.pins, commitish, f);
        }
        assert(o.keeps_superseded(r0, offset, data.len(), at));
        o.law_pins_only_help(key, commitish, at);
        Self::law_write_keeps_the_past(o, e, key, offset, data, at);
        if rechunks(h0, end) {
            Self::lemma_pin_emptied(h0.pins, h1.pins, commitish);
        } else {
            Self::lemma_pin_cleared(
                h0.pins,
                h1.pins,
                offset / fs,
                (end - 1) / fs + 1,
                commitish,
            );
        }
        let bits = Self::pin_bits(h1.pins, commitish)->Some_0;
        assert forall|f: int| 0 <= f < h1.n() implies #[trigger] bit_set(bits, f) == (
        h1.unit_map[f] <= at) by {
            if !touches(h0, offset, end, f) {
                assert(h1.locations[f] == h0.locations[f]);
                assert(bit_set(Self::pin_bits(h0.pins, commitish)->Some_0, f) == (h0.unit_map[f]
                    <= at));
            }
        }
        assert(Self::pinned_by(r1, commitish, at));
        e.law_pins_only_help(key, commitish, at);
        Self::lemma_other_reads(o, e, key, offset, data, ck);
    }
}

impl<C: Crypto> Engine<C> {
    /// Record `x` in state `s` holds what record `m` holds in state `o`.
    pub open spec fn same_content(o: &Self, m: RecordModel, s: &Self, x: RecordModel) -> bool {
        &&& x.content is Some
        &&& x.stream() == (StreamModel { pins: x.stream().pins, ..m.stream() })
        &&& forall|f: int|
            0 <= f < m.stream().n() ==> #[trigger] s.frag(x, f) == o.frag(m, f)
    }

    /// The same content reads the same.
    pub proof fn lemma_same_content_reads(o: &Self, m: RecordModel, s: &Self, x: RecordModel, n: nat)
        requires
            Self::same_content(o, m, s, x),
            n <= m.stream().n(),
        ensures
            s.pieces(x, n) == o.pieces(m, n),
        decreases n,
    {
        if n > 0 {
            Self::lemma_same_content_reads(o, m, s, x, (n - 1) as nat);
            assert(s.frag(x, n - 1) == o.frag(m, n - 1));
            assert(s.piece(x, n - 1) == o.piece(m, n - 1));
        }
    }

    /// Records were added at most, and the same ones are believed.
    pub open spec fn records_grew(o: &Self, s: &Self) -> bool {
        &&& s.trust() == o.trust()
        &&& o.recs().len() <= s.recs().len()
        &&& s.recs().take(o.recs().len() as int) == o.recs()
    }

    pub proof fn lemma_records_grew(o: &Self, a: &Self, b: &Self)
        requires
            Self::records_grew(o, a),
            Self::records_grew(a, b),
        ensures
            Self::records_grew(o, b),
    {
        let n = o.recs().len() as int;
        assert(b.recs().take(n) =~= b.recs().take(a.recs().len() as int).take(n));
    }

    /// The unit at `key` holds what it held in state `o`, where `m` was its
    /// head, with the same history, and what the commit pins of it is all of it.
    pub open spec fn kept_for(
        o: &Self,
        m: RecordModel,
        s: &Self,
        key: Seq<u8>,
        commitish: Uuid,
    ) -> bool {
        let x = s.head(key)->Ok_0.2;
        let bits = Self::pin_bits(x.stream().pins, commitish);
        &&& s.head(key) is Ok
        &&& s.keys@[key] == o.keys@[key]
        &&& Self::same_content(o, m, s, x)
        &&& x.parent == m.parent
        &&& Self::records_grew(o, s)
        &&& bits is Some ==> crate::tags::all_set(bits->Some_0, m.stream().n() as int)
    }

    /// A unit whose slots and head did not change is kept.
    proof fn lemma_kept_elsewhere(
        o: &Self,
        m: RecordModel,
        a: &Self,
        b: &Self,
        key: Seq<u8>,
        commitish: Uuid,
    )
        requires
            Self::kept_for(o, m, a, key, commitish),
            b.head(key) == a.head(key),
            b.keys@[key] == a.keys@[key],
            Self::records_grew(a, b),
            forall|f: int|
                0 <= f < m.stream().n() ==> #[trigger] b.frag(a.head(key)->Ok_0.2, f) == a.frag(
                    a.head(key)->Ok_0.2,
                    f,
                ),
        ensures
            Self::kept_for(o, m, b, key, commitish),
    {
        let x = a.head(key)->Ok_0.2;
        Self::lemma_records_grew(o, a, b);
        assert forall|f: int| 0 <= f < m.stream().n() implies #[trigger] b.frag(x, f) == o.frag(
            m,
            f,
        ) by {
            assert(a.frag(x, f) == o.frag(m, f));
        }
    }

    /// Pinning a unit keeps every unit.
    proof fn lemma_kept_by_pin(
        o: &Self,
        m: RecordModel,
        a: &Self,
        b: &Self,
        pin_key: Seq<u8>,
        key: Seq<u8>,
        commitish: Uuid,
    )
        requires
            a.inv(),
            a.may_sign(),
            a.reads_own_records(),
            Self::pin_step(a, b, pin_key, commitish),
            Self::kept_for(o, m, a, key, commitish),
        ensures
            Self::kept_for(o, m, b, key, commitish),
            m.stream().n() > 0 && (pin_key == key || Self::pin_bits(
                a.head(key)->Ok_0.2.stream().pins,
                commitish,
            ) is Some) ==> Self::pin_bits(b.head(key)->Ok_0.2.stream().pins, commitish) is Some,
            b.may_sign(),
            b.reads_own_records(),
            b.trust() == a.trust(),
    {
        let (uuid, _, y) = a.head(pin_key)->Ok_0;
        let x = b.recs().last();
        let z = RecordModel { content: x.content, ..y };
        assert(b.recs().take(a.recs().len() as int) =~= a.recs());
        a.lemma_may_sign(z);
        crate::engine::lemma_own_records_read_back::<C>(z, a.trust(), a.signing_key);
        assert(crate::tags::signer_ok(b, x));
        Self::lemma_other_head(a, b, uuid, key);
        let before = a.head(key)->Ok_0.2;
        Self::lemma_records_grew(o, a, b);
        if a.keys@[key] == uuid {
            assert(before == y);
            assert(b.head(key)->Ok_0.2 == x);
            let old_pins = y.stream().pins;
            let pins = x.stream().pins;
            assert(y.stream().n() > 0 ==> pins.drop_last() == old_pins);
            assert forall|f: int| 0 <= f < m.stream().n() implies #[trigger] b.frag(x, f)
                == o.frag(m, f) by {
                assert(a.frag(y, f) == o.frag(m, f));
                assert(b.frag(x, f) == a.frag(y, f));
            }
        } else {
            assert forall|f: int| 0 <= f < m.stream().n() implies #[trigger] b.frag(before, f)
                == a.frag(before, f) by {}
            Self::lemma_kept_elsewhere(o, m, a, b, key, commitish);
        }
    }

    /// Pinning units changes no name and no setting, and makes no unit.
    proof fn lemma_pins_frame(t: Seq<Self>, keys: Seq<Seq<u8>>, commitish: Uuid, i: int)
        requires
            Self::pin_trace(t, keys, commitish),
            t[0].may_sign(),
            t[0].reads_own_records(),
            0 <= i <= keys.len(),
        ensures
            t[i].may_sign(),
            t[i].reads_own_records(),
            t[i].keys@ == t[0].keys@,
            t[i].overlay == t[0].overlay,
            t[i].header == t[0].header,
            t[i].local_alias == t[0].local_alias,
            t[i].suppress_commit == t[0].suppress_commit,
            t[i].trust() == t[0].trust(),
            forall|u: Seq<u8>| #[trigger] t[i].ids@.contains_key(u) ==> t[0].ids@.contains_key(u),
        decreases i,
    {
        if i > 0 {
            Self::lemma_pins_frame(t, keys, commitish, i - 1);
            assert(t[i - 1 + 1] == t[i]);
            assert(t[i - 1].inv());
            let (uuid, _, y) = t[i - 1].head(keys[i - 1])->Ok_0;
            assert(t[i].trust() == t[i - 1].trust());
            assert forall|u: Seq<u8>| #[trigger] t[i].ids@.contains_key(u) implies t[
            0].ids@.contains_key(u) by {
                assert(t[i - 1].ids@.contains_key(u));
            }
        }
    }

    /// After all units are pinned the units that the commit names are, and every
    /// unit holds what it held.
    proof fn lemma_kept_by_pins(
        o: &Self,
        m: RecordModel,
        t: Seq<Self>,
        keys: Seq<Seq<u8>>,
        key: Seq<u8>,
        commitish: Uuid,
        i: int,
    )
        requires
            Self::pin_trace(t, keys, commitish),
            t[0].may_sign(),
            t[0].reads_own_records(),
            0 <= i <= keys.len(),
            Self::kept_for(o, m, &t[0], key, commitish),
        ensures
            Self::kept_for(o, m, &t[i], key, commitish),
            forall|j: int|
                m.stream().n() > 0 && 0 <= j < i && #[trigger] keys[j] == key ==> Self::pin_bits(
                    t[i].head(key)->Ok_0.2.stream().pins,
                    commitish,
                ) is Some,
        decreases i,
    {
        if i > 0 {
            Self::lemma_kept_by_pins(o, m, t, keys, key, commitish, i - 1);
            Self::lemma_pins_frame(t, keys, commitish, i - 1);
            assert(t[i - 1 + 1] == t[i]);
            assert(t[i - 1].inv());
            Self::lemma_kept_by_pin(o, m, &t[i - 1], &t[i], keys[i - 1], key, commitish);
        }
    }
}

impl<C: Crypto> Engine<C> {
    /// Creating a unit keeps every other.
    proof fn lemma_kept_by_create(
        o: &Self,
        m: RecordModel,
        a: &Self,
        b: &Self,
        new_key: Seq<u8>,
        unit: Uuid,
        key: Seq<u8>,
        commitish: Uuid,
    )
        requires
            a.inv(),
            a.suppress_commit,
            Self::create_step(a, b, new_key, unit, true, None, None, Ok(unit)),
            Self::kept_for(o, m, a, key, commitish),
            a.keys@[key] != unit,
        ensures
            Self::kept_for(o, m, b, key, commitish),
            b.head(key) == a.head(key),
            b.overlay == a.overlay,
            b.suppress_commit,
            b.keys@ == a.keys@.insert(new_key, unit),
    {
        assert(b.recs().take(a.recs().len() as int) =~= a.recs());
        assert(a.keys@.contains_key(key));
        assert(key != new_key);
        Self::lemma_other_head(a, b, unit, key);
        let x = a.head(key)->Ok_0.2;
        assert forall|f: int| 0 <= f < m.stream().n() implies #[trigger] b.frag(x, f) == a.frag(
            x,
            f,
        ) by {}
        Self::lemma_kept_elsewhere(o, m, a, b, key, commitish);
    }

    /// Writing a unit keeps every other.
    proof fn lemma_kept_by_write(
        o: &Self,
        m: RecordModel,
        a: &Self,
        b: &Self,
        wrote_key: Seq<u8>,
        data: Seq<u8>,
        key: Seq<u8>,
        commitish: Uuid,
    )
        requires
            a.inv(),
            Self::write_step(a, b, wrote_key, 0, data, Ok(())),
            Self::kept_for(o, m, a, key, commitish),
            m.stream().geometry_ok(),
            a.keys@[key] != a.keys@[wrote_key],
        ensures
            Self::kept_for(o, m, b, key, commitish),
            b.head(key) == a.head(key),
            b.overlay == a.overlay,
            b.suppress_commit == a.suppress_commit,
            b.keys@ == a.keys@,
    {
        assert(a.write_error(wrote_key, 0, data.len()) is None);
        assert(a.head(wrote_key) is Ok);
        Self::lemma_other_reads(a, b, wrote_key, 0, data, key);
        assert(b.recs().take(a.recs().len() as int) =~= a.recs());
        Self::lemma_kept_elsewhere(o, m, a, b, key, commitish);
    }

    /// A new unit reads back once it is written.
    pub proof fn lemma_new_unit_reads(
        p: &Self,
        a: &Self,
        b: &Self,
        key: Seq<u8>,
        unit: Uuid,
        bytes: Seq<u8>,
        commitish: Uuid,
    )
        requires
            p.inv(),
            p.suppress_commit,
            p.reads_own_records(),
            p.may_sign(),
            !p.keys@.contains_key(key),
            Self::create_step(p, a, key, unit, true, None, None, Ok(unit)),
            a.inv(),
            Self::write_step(a, b, key, 0, bytes, Ok(())),
            0 < bytes.len(),
            crate::wal::small_enough(bytes.len()),
        ensures
            b.head(key) is Ok,
            b.keys@[key] == unit,
            b.head(key)->Ok_0.2.content is Some,
            b.head(key)->Ok_0.2.stream().geometry_ok(),
            b.full(b.head(key)->Ok_0.2) == Ok::<Seq<u8>, Error>(bytes),
            Self::kept_for(b, b.head(key)->Ok_0.2, b, key, commitish),
    {
        let y = p.fresh_record(unit, true, None, None);
        let none = crate::unit::empty_stream();
        p.lemma_may_sign(y);
        assert(!crate::vector::vv_has(none.vv, p.local_alias));
        crate::engine::lemma_own_records_read_back::<C>(y, p.trust(), p.signing_key);
        assert(crate::tags::signer_ok(a, a.recs().last()));
        assert(a.head(key)->Ok_0.2.stream() == none);
        a.lemma_small_fits(key, bytes);
        assert(a.reads_own_records());
        assert(Self::wrote_over(a, b, key, 0, bytes));
        let exp = write_exp(none, bytes.len());
        crate::block::lemma_exp_range(bytes.len(), 12, 22);
        crate::block::lemma_frag_bytes(exp);
        assert(a.whole(a.head(key)->Ok_0.2));
        Self::law_read_gives_back_the_write(a, b, key, 0, bytes, key);
        Self::lemma_head_after_write(a, b, key, 0, bytes);
        let w = b.head(key)->Ok_0.2;
        assert(a.full(a.head(key)->Ok_0.2) == Ok::<Seq<u8>, Error>(Seq::empty()));
        assert(crate::overlay::splice(Seq::<u8>::empty(), 0, bytes) =~= bytes);
        assert(w.stream().pins.len() == 0);
        assert(b.recs().take(b.recs().len() as int) =~= b.recs());
    }
}

impl<C: Crypto> Engine<C> {
    /// The version that the commit of these units holds of one of them.
    proof fn lemma_entry_version(&self, keys: Seq<Seq<u8>>, j: int)
        requires
            self.tag_entries(keys) is Ok,
            0 <= j < keys.len(),
            self.head(keys[j]) is Ok,
        ensures
            Self::committed_version(self.tag_entries(keys)->Ok_0, self.head(keys[j])->Ok_0.0)
                == Some(crate::tags::version_of(self.head(keys[j])->Ok_0.2.content)),
        decreases keys.len(),
    {
        let p = keys.drop_last();
        let uuid = self.head(keys[j])->Ok_0.0;
        let entries = self.tag_entries(keys)->Ok_0;
        assert(entries.drop_last() =~= self.tag_entries(p)->Ok_0);
        if j < p.len() {
            assert(p[j] == keys[j]);
            self.lemma_entry_version(p, j);
        } else {
            self.lemma_version_or_none(p, keys[j]);
        }
    }

    /// A unit has one version in a commit, however often it is named.
    proof fn lemma_version_or_none(&self, keys: Seq<Seq<u8>>, key: Seq<u8>)
        requires
            self.tag_entries(keys) is Ok,
            self.head(key) is Ok,
        ensures
            ({
                let v = Self::committed_version(
                    self.tag_entries(keys)->Ok_0,
                    self.head(key)->Ok_0.0,
                );
                v is None || v == Some(crate::tags::version_of(self.head(key)->Ok_0.2.content))
            }),
        decreases keys.len(),
    {
        if keys.len() > 0 {
            let p = keys.drop_last();
            let entries = self.tag_entries(keys)->Ok_0;
            assert(entries.drop_last() =~= self.tag_entries(p)->Ok_0);
            self.lemma_version_or_none(p, key);
        }
    }

    /// The identities that a commit is given are new, and the units of commits
    /// are none of those that it names.
    pub open spec fn commit_apart(
        &self,
        keys: Seq<Seq<u8>>,
        unit: Uuid,
        head_unit: Uuid,
    ) -> bool {
        let hu = self.commit_head_unit(head_unit);
        &&& !self.ids@.contains_key(unit@)
        &&& crate::overlay::pending_of(self.overlay@, unit).len() == 0
        &&& hu != unit
        &&& forall|i: int|
            0 <= i < keys.len() ==> self.keys@.contains_key(#[trigger] keys[i])
                && self.keys@[keys[i]] != hu
    }

    /// Where the latest commit is noted.
    pub open spec fn commit_head_unit(&self, head_unit: Uuid) -> Uuid {
        let hk = crate::tags::head_key();
        if self.keys@.contains_key(hk) {
            self.keys@[hk]
        } else {
            head_unit
        }
    }

    /// A commit keeps every unit but the one that notes the latest commit, and
    /// pins those that it names.
    proof fn lemma_commit_keeps(
        o: &Self,
        e: &Self,
        keys: Seq<Seq<u8>>,
        c: crate::commit_record::CommitModel,
        unit: Uuid,
        head_unit: Uuid,
        t: crate::tags::CommitTrace<C>,
        key: Seq<u8>,
    )
        requires
            o.inv(),
            o.reads_own_records(),
            o.may_sign(),
            Self::commit_done(o, e, keys, c, unit, head_unit, t),
            o.commit_apart(keys, unit, head_unit),
            o.head(key) is Ok,
            o.keys@[key] != o.commit_head_unit(head_unit),
            o.head(key)->Ok_0.2.content is Some,
            o.head(key)->Ok_0.2.stream().geometry_ok(),
            Self::pin_bits(o.head(key)->Ok_0.2.stream().pins, c.commitish) is None,
        ensures
            Self::kept_for(o, o.head(key)->Ok_0.2, e, key, c.commitish),
            o.head(key)->Ok_0.2.stream().n() > 0 && keys.contains(key) ==> Self::pin_bits(
                e.head(key)->Ok_0.2.stream().pins,
                c.commitish,
            ) is Some,
            e.overlay == o.overlay,
    {
        let commitish = c.commitish;
        let (uuid, _, m) = o.head(key)->Ok_0;
        let ck = commit_key(commitish);
        let hk = crate::tags::head_key();
        let bytes = crate::commit_record::commit_bytes(c);
        let p = t.pins[keys.len() as int];
        Self::lemma_kept_at_first(o, t, key, m, commitish);
        Self::lemma_kept_by_pins(o, m, t.pins, keys, key, commitish, keys.len() as int);
        Self::lemma_pins_frame(t.pins, keys, commitish, keys.len() as int);
        assert(p.inv());
        crate::tags::lemma_keys_differ(commitish);
        assert(uuid != unit) by {
            assert(o.ids@.contains_key(uuid@));
        }
        Self::lemma_kept_by_create(o, m, &p, &t.created, ck, unit, key, commitish);
        Self::lemma_kept_by_write(o, m, &t.created, &t.written, ck, bytes, key, commitish);
        if !t.written.keys@.contains_key(hk) {
            Self::lemma_kept_by_create(
                o,
                m,
                &t.written,
                &t.headed,
                hk,
                head_unit,
                key,
                commitish,
            );
        }
        Self::lemma_kept_by_write(o, m, &t.headed, &t.advanced, hk, commitish@, key, commitish);
        Self::lemma_kept_published(o, m, &t.advanced, e, o.suppress_commit, key, commitish);
    }

    /// Before anything is pinned every unit is as it was.
    proof fn lemma_kept_at_first(
        o: &Self,
        t: crate::tags::CommitTrace<C>,
        key: Seq<u8>,
        m: RecordModel,
        commitish: Uuid,
    )
        requires
            t.pins[0] == o.held_back(),
            o.head(key) is Ok,
            o.head(key)->Ok_0.2 == m,
            m.content is Some,
            Self::pin_bits(m.stream().pins, commitish) is None,
        ensures
            Self::kept_for(o, m, &t.pins[0], key, commitish),
            t.pins[0].may_sign() == o.may_sign(),
            t.pins[0].reads_own_records() == o.reads_own_records(),
    {
        assert(o.held_back().head(key) == o.head(key));
        assert(o.recs().take(o.recs().len() as int) =~= o.recs());
        assert forall|f: int| 0 <= f < m.stream().n() implies #[trigger] o.held_back().frag(m, f)
            == o.frag(m, f) by {}
    }

    /// The record of a commit reads back.
    proof fn lemma_commit_reads(
        o: &Self,
        e: &Self,
        keys: Seq<Seq<u8>>,
        c: crate::commit_record::CommitModel,
        unit: Uuid,
        head_unit: Uuid,
        t: crate::tags::CommitTrace<C>,
    )
        requires
            o.inv(),
            o.reads_own_records(),
            o.may_sign(),
            crate::wal::small_enough(crate::commit_record::commit_bytes(c).len()),
            Self::commit_done(o, e, keys, c, unit, head_unit, t),
            o.commit_apart(keys, unit, head_unit),
        ensures
            e.overlay == o.overlay,
            e.head(commit_key(c.commitish)) is Ok,
            e.head(commit_key(c.commitish))->Ok_0.0 == unit,
            e.full(e.head(commit_key(c.commitish))->Ok_0.2) == Ok::<Seq<u8>, Error>(
                crate::commit_record::commit_bytes(c),
            ),
    {
        let commitish = c.commitish;
        let ck = commit_key(commitish);
        let hk = crate::tags::head_key();
        let bytes = crate::commit_record::commit_bytes(c);
        let p = t.pins[keys.len() as int];
        assert(o.held_back().may_sign() == o.may_sign());
        assert(o.held_back().reads_own_records() == o.reads_own_records());
        Self::lemma_pins_frame(t.pins, keys, commitish, keys.len() as int);
        assert(p.inv());
        crate::tags::lemma_keys_differ(commitish);
        assert(!p.keys@.contains_key(ck));
        assert(bytes.len() > 0) by {
            assert(t.created.write_error(ck, 0, bytes.len()) is None);
        }
        Self::lemma_new_unit_reads(&p, &t.created, &t.written, ck, unit, bytes, commitish);
        let w = t.written.head(ck)->Ok_0.2;
        assert(t.written.overlay == o.overlay);
        if !t.written.keys@.contains_key(hk) {
            Self::lemma_kept_by_create(
                &t.written,
                w,
                &t.written,
                &t.headed,
                hk,
                head_unit,
                ck,
                commitish,
            );
        }
        Self::lemma_kept_by_write(
            &t.written,
            w,
            &t.headed,
            &t.advanced,
            hk,
            commitish@,
            ck,
            commitish,
        );
        Self::lemma_kept_published(
            &t.written,
            w,
            &t.advanced,
            e,
            o.suppress_commit,
            ck,
            commitish,
        );
        Self::lemma_same_content_reads(&t.written, w, e, w, w.stream().n());
    }

    /// What a commit was made of reads back: its title, its message, the commit
    /// before it and the version of every unit that it names.
    #[verifier::rlimit(60)]
    pub proof fn law_commits_read_back(
        o: &Self,
        e: &Self,
        keys: Seq<Seq<u8>>,
        title: Seq<char>,
        message: Seq<char>,
        commitish: Uuid,
        unit: Uuid,
        head_unit: Uuid,
        t: crate::tags::CommitTrace<C>,
    )
        requires
            o.inv(),
            o.reads_own_records(),
            o.may_sign(),
            o.tag_entries(keys) is Ok,
            crate::commit_record::commit_fits(o.commit_of(keys, title, message, commitish)),
            crate::wal::small_enough(
                crate::commit_record::commit_bytes(
                    o.commit_of(keys, title, message, commitish),
                ).len(),
            ),
            Self::commit_done(
                o,
                e,
                keys,
                o.commit_of(keys, title, message, commitish),
                unit,
                head_unit,
                t,
            ),
            o.commit_apart(keys, unit, head_unit),
        ensures
            e.commit_stored(commitish) == Ok::<crate::commit_record::CommitModel, Error>(
                o.commit_of(keys, title, message, commitish),
            ),
    {
        let c = o.commit_of(keys, title, message, commitish);
        Self::lemma_commit_reads(o, e, keys, c, unit, head_unit, t);
        crate::commit_record::law_commit_round_trip(c);
    }

    /// The unit that notes the latest commit is as a commit leaves it: new, or with
    /// nothing in it but an identity.
    pub open spec fn notes_one_commit(&self, commitish: Uuid, head_unit: Uuid) -> bool {
        let hk = crate::tags::head_key();
        &&& crate::overlay::pending_of(
            self.overlay@,
            self.commit_head_unit(head_unit),
        ).len() == 0
        &&& self.keys@.contains_key(hk) ==> {
            let m = self.head(hk)->Ok_0.2;
            &&& self.head(hk) is Ok
            &&& m.content is Some
            &&& m.stream().size() <= 16
            &&& m.stream().n() > 0 ==> m.stream().fragsize_exp >= 6
            &&& self.whole(m)
            &&& crate::write::write_fits(m.stream(), self.local_alias, 0, 16)
            &&& Self::pin_bits(m.stream().pins, commitish) is None
        }
    }

    /// The commit made after this one names it as its parent, and no other.
    pub proof fn law_the_next_commit_follows(
        o: &Self,
        e: &Self,
        keys: Seq<Seq<u8>>,
        c: crate::commit_record::CommitModel,
        unit: Uuid,
        head_unit: Uuid,
        t: crate::tags::CommitTrace<C>,
    )
        requires
            o.inv(),
            o.reads_own_records(),
            o.may_sign(),
            Self::commit_done(o, e, keys, c, unit, head_unit, t),
            o.commit_apart(keys, unit, head_unit),
            o.notes_one_commit(c.commitish, head_unit),
        ensures
            e.tag_parents() == seq![c.commitish],
    {
        let commitish = c.commitish;
        let ck = commit_key(commitish);
        let hk = crate::tags::head_key();
        let bytes = crate::commit_record::commit_bytes(c);
        let p = t.pins[keys.len() as int];
        let id = commitish@;
        assert(o.held_back().may_sign() == o.may_sign());
        assert(o.held_back().reads_own_records() == o.reads_own_records());
        Self::lemma_pins_frame(t.pins, keys, commitish, keys.len() as int);
        assert(p.inv());
        crate::tags::lemma_keys_differ(commitish);
        if o.keys@.contains_key(hk) {
            let (uuid, _, m) = o.head(hk)->Ok_0;
            Self::lemma_kept_at_first(o, t, hk, m, commitish);
            Self::lemma_kept_by_pins(o, m, t.pins, keys, hk, commitish, keys.len() as int);
            assert(uuid != unit) by {
                assert(o.ids@.contains_key(uuid@));
            }
            Self::lemma_kept_by_create(o, m, &p, &t.created, ck, unit, hk, commitish);
            Self::lemma_kept_by_write(o, m, &t.created, &t.written, ck, bytes, hk, commitish);
            let w = t.headed.head(hk)->Ok_0.2;
            Self::lemma_same_content_reads(o, m, &t.headed, w, m.stream().n());
            assert(t.headed.whole(w)) by {
                assert forall|f: int|
                    0 <= f < w.stream().n() && !Self::hole_at(w, f) implies #[trigger] t.headed.frag(
                    w,
                    f,
                ) is Ok && t.headed.frag(w, f)->Ok_0.len() <= frag_bytes(
                    w.stream().fragsize_exp,
                ) by {
                    assert(o.frag(m, f) is Ok);
                }
            }
            o.law_full_read_is_the_content(m);
            Self::lemma_noted(&t.headed, &t.advanced, id);
        } else {
            assert(!t.written.keys@.contains_key(hk));
            crate::wal::lemma_small_identity();
            Self::lemma_new_unit_reads(
                &t.written,
                &t.headed,
                &t.advanced,
                hk,
                head_unit,
                id,
                commitish,
            );
        }
        let x = t.advanced.head(hk)->Ok_0.2;
        assert(e.trust() == t.advanced.trust());
        assert(e.head(hk) == t.advanced.head(hk));
        assert forall|f: int| 0 <= f < x.stream().n() implies #[trigger] e.frag(x, f)
            == t.advanced.frag(x, f) by {}
        Self::lemma_same_content_reads(&t.advanced, x, e, x, x.stream().n());
        assert(e.overlay == o.overlay);
        let a = crate::bytes::array16(id);
        assert(commitish@ == id);
        assert(a@ == id);
        assert(a =~= commitish);
    }

    /// Noting a commit over another leaves its identity and nothing else.
    proof fn lemma_noted(a: &Self, b: &Self, id: Seq<u8>)
        requires
            a.inv(),
            a.reads_own_records(),
            a.head(crate::tags::head_key()) is Ok,
            a.whole(a.head(crate::tags::head_key())->Ok_0.2),
            a.head(crate::tags::head_key())->Ok_0.2.stream().size() <= 16,
            a.head(crate::tags::head_key())->Ok_0.2.stream().n() > 0 ==> a.head(
                crate::tags::head_key(),
            )->Ok_0.2.stream().fragsize_exp >= 6,
            crate::write::write_fits(
                a.head(crate::tags::head_key())->Ok_0.2.stream(),
                a.local_alias,
                0,
                16,
            ),
            id.len() == 16,
            Self::write_step(a, b, crate::tags::head_key(), 0, id, Ok(())),
        ensures
            b.head(crate::tags::head_key()) is Ok,
            b.head(crate::tags::head_key())->Ok_0.0 == a.head(crate::tags::head_key())->Ok_0.0,
            b.head(crate::tags::head_key())->Ok_0.2.content is Some,
            b.full(b.head(crate::tags::head_key())->Ok_0.2) == Ok::<Seq<u8>, Error>(id),
    {
        let hk = crate::tags::head_key();
        let m = a.head(hk)->Ok_0.2;
        let sm = m.stream();
        crate::block::lemma_exp_range(16, 12, 22);
        crate::block::lemma_exp_range(crate::write::grown_size(sm, 16), 12, 22);
        crate::readback::lemma_frag_bytes_64(write_exp(sm, 16));
        a.law_full_read_is_the_content(m);
        Self::law_read_gives_back_the_write(a, b, hk, 0, id, hk);
        Self::lemma_head_after_write(a, b, hk, 0, id);
        assert(crate::overlay::splice(a.full(m)->Ok_0, 0, id) =~= id);
    }

    /// A commit changes nothing of the units, whether it names them or not: each
    /// reads as before, with the same vector and the same history.
    pub proof fn law_commits_leave_units_alone(
        o: &Self,
        e: &Self,
        keys: Seq<Seq<u8>>,
        c: crate::commit_record::CommitModel,
        unit: Uuid,
        head_unit: Uuid,
        t: crate::tags::CommitTrace<C>,
        key: Seq<u8>,
    )
        requires
            o.inv(),
            o.reads_own_records(),
            o.may_sign(),
            Self::commit_done(o, e, keys, c, unit, head_unit, t),
            o.commit_apart(keys, unit, head_unit),
            o.head(key) is Ok,
            o.keys@[key] != o.commit_head_unit(head_unit),
            o.head(key)->Ok_0.2.content is Some,
            o.head(key)->Ok_0.2.stream().geometry_ok(),
            Self::pin_bits(o.head(key)->Ok_0.2.stream().pins, c.commitish) is None,
        ensures
            e.head(key) is Ok,
            e.full(e.head(key)->Ok_0.2) == o.full(o.head(key)->Ok_0.2),
            e.head(key)->Ok_0.2.content_vv() == o.head(key)->Ok_0.2.content_vv(),
            e.head(key)->Ok_0.2.stream().unit_map == o.head(key)->Ok_0.2.stream().unit_map,
            versions_from::<C>(e.recs(), e.trust(), e.head(key)->Ok_0.1) == versions_from::<C>(
                o.recs(),
                o.trust(),
                o.head(key)->Ok_0.1,
            ),
            e.overlay == o.overlay,
    {
        Self::lemma_commit_keeps(o, e, keys, c, unit, head_unit, t, key);
        let m = o.head(key)->Ok_0.2;
        let x = e.head(key)->Ok_0.2;
        Self::lemma_same_content_reads(o, m, e, x, m.stream().n());
        if m.parent is Some {
            let p = m.parent->Some_0;
            let a0 = o.head(key)->Ok_0.1;
            let a1 = e.head(key)->Ok_0.1;
            assert(t.advanced.recs() == e.recs());
            assert(crate::engine::record_ok(o.recs()[a0 - 1], a0 - 1));
            assert(crate::engine::record_ok(t.advanced.recs()[a1 - 1], a1 - 1));
            crate::timemachine::lemma_chain_kept::<C>(o.recs(), e.recs(), o.trust(), p, 0, 0);
        }
    }

    /// What is committed can be checked out: right after a commit, each unit
    /// that it names reads at the commit as it read before it. The commit reads
    /// back as it was made, and the history of the unit has gained nothing.
    #[verifier::rlimit(80)]
    pub proof fn law_commits_check_out(
        o: &Self,
        e: &Self,
        keys: Seq<Seq<u8>>,
        title: Seq<char>,
        message: Seq<char>,
        commitish: Uuid,
        unit: Uuid,
        head_unit: Uuid,
        t: crate::tags::CommitTrace<C>,
        j: int,
    )
        requires
            o.inv(),
            o.reads_own_records(),
            o.may_sign(),
            o.tag_entries(keys) is Ok,
            crate::commit_record::commit_fits(o.commit_of(keys, title, message, commitish)),
            crate::wal::small_enough(
                crate::commit_record::commit_bytes(
                    o.commit_of(keys, title, message, commitish),
                ).len(),
            ),
            Self::commit_done(
                o,
                e,
                keys,
                o.commit_of(keys, title, message, commitish),
                unit,
                head_unit,
                t,
            ),
            o.commit_apart(keys, unit, head_unit),
            0 <= j < keys.len(),
            o.head(keys[j]) is Ok,
            o.head(keys[j])->Ok_0.2.stream().geometry_ok(),
            o.head(keys[j])->Ok_0.2.stream().n() > 0,
            Self::pin_bits(o.head(keys[j])->Ok_0.2.stream().pins, commitish) is None,
        ensures
            e.at_commit(keys[j], commitish) == o.full(o.head(keys[j])->Ok_0.2),
            e.commit_stored(commitish) == Ok::<crate::commit_record::CommitModel, Error>(
                o.commit_of(keys, title, message, commitish),
            ),
            versions_from::<C>(e.recs(), e.trust(), e.head(keys[j])->Ok_0.1) == versions_from::<C>(
                o.recs(),
                o.trust(),
                o.head(keys[j])->Ok_0.1,
            ),
            e.head(keys[j]) is Ok,
            Self::pinned_by(
                e.head(keys[j])->Ok_0.2,
                commitish,
                o.head(keys[j])->Ok_0.2.stream().max_version(),
            ),
    {
        let key = keys[j];
        let m = o.head(key)->Ok_0.2;
        let c = o.commit_of(keys, title, message, commitish);
        assert(m.content is Some);
        Self::lemma_commit_keeps(o, e, keys, c, unit, head_unit, t, key);
        Self::law_commits_leave_units_alone(o, e, keys, c, unit, head_unit, t, key);
        Self::law_commits_read_back(o, e, keys, title, message, commitish, unit, head_unit, t);
        let x = e.head(key)->Ok_0.2;
        o.lemma_entry_version(keys, j);
        let at = m.stream().max_version();
        lemma_seq_max(m.stream().unit_map);
        assert forall|f: int| 0 <= f < x.stream().n() implies #[trigger] bit_set(
            Self::pin_bits(x.stream().pins, commitish)->Some_0,
            f,
        ) == (x.stream().unit_map[f] <= at) by {
            assert(m.stream().unit_map[f] <= at);
        }
        e.law_pins_only_help(key, commitish, at);
        e.law_checkout_of_the_present(key);
    }

    /// Publishing keeps every unit.
    pub proof fn lemma_kept_published(
        o: &Self,
        m: RecordModel,
        a: &Self,
        e: &Self,
        suppress: bool,
        key: Seq<u8>,
        commitish: Uuid,
    )
        requires
            Self::kept_for(o, m, a, key, commitish),
            suppress ==> *e == (Engine { suppress_commit: suppress, ..*a }),
            !suppress ==> Self::published(&(Engine { suppress_commit: suppress, ..*a }), e),
        ensures
            Self::kept_for(o, m, e, key, commitish),
            e.head(key) == a.head(key),
            e.overlay == a.overlay,
    {
        assert(e.trust() == a.trust());
        assert(e.recs().take(a.recs().len() as int) =~= a.recs());
        let x = a.head(key)->Ok_0.2;
        assert forall|f: int| 0 <= f < m.stream().n() implies #[trigger] e.frag(x, f) == a.frag(
            x,
            f,
        ) by {}
        Self::lemma_kept_elsewhere(o, m, a, e, key, commitish);
    }
}

} // verus!
