//! What whole calls promise of every unit.
use vstd::prelude::*;
use vstd::utf8::valid_utf8;

use crate::catalog::lemma_map_of;
use crate::compact::law_defrag_keeps_content;
use crate::content::stored_at;
use crate::crypto::Crypto;
use crate::engine::{live, record_ok, Engine};
use crate::error::Error;
use crate::history::{resolved, stream_as_of, versions_from};
use crate::overlay::{lemma_pending_at, overlaid, pending_of};
use crate::recipher::{law_recipher_keeps_content, law_recipher_keeps_every_content};
use crate::recovery::law_checkpoint_keeps_what_is_read;
use crate::rekey::{has_meta, law_rekey_keeps_every_content};
use crate::reseal::units_of;
use crate::timemachine::lemma_chain_kept;
use crate::unit::{hole, payload_of, BlockLoc, RecordModel, StreamModel, Uuid};

verus! {

impl<C: Crypto> Engine<C> {
    /// Every unit is in the list that goes through all of them.
    proof fn lemma_unit_listed(&self, k: Seq<u8>) -> (i: int)
        requires
            self.inv(),
            self.ids@.contains_key(k),
        ensures
            0 <= i < self.ids.pairs().len(),
            units_of(self.ids.pairs())[i]@ == k,
    {
        let pairs = self.ids.pairs();
        lemma_map_of(pairs);
        let i = choose|i: int| 0 <= i < pairs.len() && (#[trigger] pairs[i]).0 == k;
        Self::lemma_units_distinct(self);
        assert(units_of(pairs)[i]@ == pairs[i].0);
        i
    }

    /// A checkpoint does not touch a unit without pending writes.
    proof fn lemma_checkpoint_unit(o: &Self, m: &Self, path: Seq<u8>)
        requires
            o.inv(),
            Self::checkpointed(o, m, Ok(())),
            o.head_at(path) is Ok,
            o.head_of(o.keys@[path]@).stream().geometry_ok(),
        ensures
            m.trust() == o.trust(),
            m.keys@ == o.keys@,
            m.overlay@.len() == 0,
            m.ids@.contains_key(o.keys@[path]@),
            pending_of(o.overlay@, o.keys@[path]).len() == 0 ==> {
                let k = o.keys@[path]@;
                &&& m.ids@[k] == o.ids@[k]
                &&& m.head_of(k) == o.head_of(k)
                &&& m.full(m.head_of(k)) == o.full(o.head_of(k))
                &&& m.metadata(m.head_of(k)) == o.metadata(o.head_of(k))
            },
    {
        let uuid = o.keys@[path];
        let k = uuid@;
        if !(o.overlay@.len() == 0 && o.wal is None) {
            let n = o.overlay@.len() as int;
            assert(Self::flush_done(o, m, n));
            if o.flushed(n).contains(k) {
                let j = choose|j: int|
                    0 <= j < n && (#[trigger] o.overlay@[j]).uuid@ == k && o.flush_path(j) is Some;
                assert(o.overlay@[j].uuid =~= uuid);
                lemma_pending_at(o.overlay@, uuid, j);
                assert(o.flush_path(j) is Some);
            } else {
                assert(o.ids@.contains_key(k));
                Self::lemma_units_same_reads(o, m, o.flushed(n), k);
                Self::lemma_metadata_kept(o, m, k, o.head_of(k));
            }
        }
    }
}

/// Rotating the key keeps every unit: under the new key, one epoch later, it reads
/// as it read before, with the same metadata and as many strains. No path moves.
/// A unit without pending writes keeps its vector, its versions and its signer.
pub proof fn law_rotation_keeps_every_unit<C: Crypto>(
    o: &Engine<C>,
    e: &Engine<C>,
    key: [u8; 32],
    epoch: u64,
    path: Seq<u8>,
)
    requires
        o.inv(),
        Engine::<C>::rekeyed(o, e, key, epoch, None, false, Ok(())),
        valid_utf8(path),
        o.head_at(path) is Ok,
        o.head_of(o.keys@[path]@).stream().geometry_ok(),
        o.sound(o.head_of(o.keys@[path]@)),
    ensures
        e.root_key == key,
        e.header.key_epoch == epoch,
        e.keys@ == o.keys@,
        e.overlay@.len() == 0,
        ({
            let k = o.keys@[path]@;
            let pending = pending_of(o.overlay@, o.keys@[path]);
            &&& e.ids@.contains_key(k)
            &&& o.full(o.head_of(k)) is Ok
            &&& e.full(e.head_of(k)) == Ok::<Seq<u8>, Error>(
                overlaid(o.full(o.head_of(k))->Ok_0, pending),
            )
            &&& pending.len() == 0 ==> {
                &&& e.unit_signer(k) == o.unit_signer(k)
                &&& e.head_of(k).content_vv() == o.head_of(k).content_vv()
                &&& e.head_of(k).stream().unit_map == o.head_of(k).stream().unit_map
                &&& e.head_of(k).strains.len() == o.head_of(k).strains.len()
                &&& has_meta(o.head_of(k)) ==> e.metadata(e.head_of(k)) == o.metadata(
                    o.head_of(k),
                )
            }
        }),
{
    let (m, f, g, t, n) = choose|
        m: Engine<C>,
        f: Engine<C>,
        g: Engine<C>,
        t: Seq<(Engine<C>, Map<Seq<u8>, u64>)>,
        n: nat,
    | #[trigger]
        Engine::<C>::rekey_end(o, e, &m, &f, &g, t, n, key, epoch, None, false, Ok(()));
    let uuid = o.keys@[path];
    let k = uuid@;
    law_checkpoint_keeps_what_is_read(o, &m, path);
    Engine::<C>::lemma_checkpoint_unit(o, &m, path);
    assert(Engine::<C>::grew(&m, &f));
    Engine::<C>::lemma_units_distinct(&m);
    let i = m.lemma_unit_listed(k);
    law_rekey_keeps_every_content(&m, &f, e, key, epoch, t, n, i);
    assert(e.trust() == m.trust());
}

impl<C: Crypto> Engine<C> {
    /// Unit `k` is what it was: the same versions and vector, the same signer,
    /// history, metadata and document head. Its blocks may lie elsewhere, and
    /// under another suite.
    pub open spec fn unit_kept(o: &Self, e: &Self, k: Seq<u8>) -> bool {
        let a = o.head_of(k);
        let b = e.head_of(k);
        &&& Self::records_grew(o, e)
        &&& e.ids@.contains_key(k)
        &&& b.uuid == a.uuid
        &&& b.content_vv() == a.content_vv()
        &&& b.stream().unit_map == a.stream().unit_map
        &&& (b.content is Some) == (a.content is Some)
        &&& b.parent == a.parent
        &&& b.strains == a.strains
        &&& b.db == a.db
        &&& e.metadata(b) == o.metadata(a)
        &&& e.unit_signer(k) == o.unit_signer(k)
    }

    pub proof fn lemma_unit_kept_trans(a: &Self, b: &Self, c: &Self, k: Seq<u8>)
        requires
            Self::unit_kept(a, b, k),
            Self::unit_kept(b, c, k),
        ensures
            Self::unit_kept(a, c, k),
    {
        Self::lemma_records_grew(a, b, c);
    }

    pub proof fn lemma_unit_kept_same(a: &Self, k: Seq<u8>)
        requires
            a.ids@.contains_key(k),
        ensures
            Self::unit_kept(a, a, k),
    {
        assert(a.recs().take(a.recs().len() as int) =~= a.recs());
    }

    /// A commit keeps every unit.
    pub proof fn lemma_unit_kept_published(a: &Self, b: &Self, k: Seq<u8>)
        requires
            a.ids@.contains_key(k),
            b.trust() == a.trust(),
            b.recs() == a.recs(),
            b.ids@ == a.ids@,
            b.slots() == a.slots(),
            b.root_key == a.root_key,
            b.header.cipher == a.header.cipher,
        ensures
            Self::unit_kept(a, b, k),
    {
        assert(b.recs().take(a.recs().len() as int) =~= a.recs());
    }

    /// A unit that is what it was has the history that it had.
    pub proof fn lemma_history_kept(o: &Self, e: &Self, k: Seq<u8>)
        requires
            o.inv(),
            e.inv(),
            o.ids@.contains_key(k),
            Self::unit_kept(o, e, k),
        ensures
            versions_from::<C>(e.recs(), e.trust(), e.ids@[k]) == versions_from::<C>(
                o.recs(),
                o.trust(),
                o.ids@[k],
            ),
    {
        let a0 = o.ids@[k];
        let a1 = e.ids@[k];
        assert(record_ok(o.recs()[a0 - 1], a0 - 1));
        assert(record_ok(e.recs()[a1 - 1], a1 - 1));
        if o.head_of(k).parent is Some {
            let p = o.head_of(k).parent->Some_0;
            lemma_chain_kept::<C>(o.recs(), e.recs(), o.trust(), p, 0, 0);
        }
    }
}

/// Moving all content to another suite keeps every unit: it reads as before, with
/// the same history, metadata and document head. The header names the new suite
/// for content and keeps the other one. A unit without pending writes keeps its
/// vector, its versions and its signer.
pub proof fn law_recipher_keeps_every_unit<C: Crypto>(
    o: &Engine<C>,
    e: &Engine<C>,
    suite: u8,
    set: Seq<(Uuid, u32, u64)>,
    path: Seq<u8>,
)
    requires
        o.inv(),
        e.inv(),
        Engine::<C>::reciphered(o, e, suite, false, Ok(set)),
        suite != o.header.content_cipher,
        valid_utf8(path),
        o.head_at(path) is Ok,
        o.head_of(o.keys@[path]@).stream().geometry_ok(),
        o.sound(o.head_of(o.keys@[path]@)),
    ensures
        e.header.content_cipher == suite,
        e.header.cipher == o.header.cipher,
        e.keys@ == o.keys@,
        e.overlay@.len() == 0,
        ({
            let k = o.keys@[path]@;
            let pending = pending_of(o.overlay@, o.keys@[path]);
            &&& e.ids@.contains_key(k)
            &&& o.full(o.head_of(k)) is Ok
            &&& e.full(e.head_of(k)) == Ok::<Seq<u8>, Error>(
                overlaid(o.full(o.head_of(k))->Ok_0, pending),
            )
            &&& pending.len() == 0 ==> Engine::<C>::unit_kept(o, e, k) && versions_from::<C>(
                e.recs(),
                e.trust(),
                e.ids@[k],
            ) == versions_from::<C>(o.recs(), o.trust(), o.ids@[k])
        }),
{
    let (m, f, t, n) = choose|m: Engine<C>, f: Engine<C>, t: Seq<Engine<C>>, n: nat| #[trigger]
        Engine::<C>::recipher_end(o, e, &m, &f, t, n, suite, false, Ok(set));
    let k = o.keys@[path]@;
    law_checkpoint_keeps_what_is_read(o, &m, path);
    Engine::<C>::lemma_checkpoint_unit(o, &m, path);
    let units = units_of(m.ids.pairs());
    law_recipher_keeps_every_content(t, units, suite, n, k);
    lemma_recipher_kept(t, units, suite, n, k);
    let h = f.head_of(k);
    assert(e.head_of(k) == h);
    assert forall|x: int| 0 <= x < h.stream().n() implies #[trigger] e.frag(h, x) == f.frag(h, x) by {}
    Engine::<C>::lemma_pieces_kept(&f, e, h, h.stream().n());
    if pending_of(o.overlay@, o.keys@[path]).len() == 0 {
        assert(o.recs().len() <= m.recs().len() && m.recs().take(o.recs().len() as int)
            == o.recs()) by {
            if o.overlay@.len() == 0 && o.wal is None {
                assert(o.recs().take(o.recs().len() as int) =~= o.recs());
            }
        }
        assert(Engine::<C>::unit_kept(o, &m, k));
        Engine::<C>::lemma_unit_kept_published(&f, e, k);
        Engine::<C>::lemma_unit_kept_trans(o, &m, &f, k);
        Engine::<C>::lemma_unit_kept_trans(o, &f, e, k);
        Engine::<C>::lemma_history_kept(o, e, k);
    }
}

proof fn lemma_recipher_kept<C: Crypto>(
    t: Seq<Engine<C>>,
    units: Seq<Uuid>,
    suite: u8,
    n: nat,
    k: Seq<u8>,
)
    requires
        Engine::<C>::recipher_trace(t, units, suite, n),
        t[0].ids@.contains_key(k),
        t[0].head_of(k).stream().geometry_ok(),
    ensures
        Engine::<C>::unit_kept(&t[0], &t[n as int], k),
        t[n as int].head_of(k).stream().geometry_ok(),
        t[n as int].header == t[0].header,
        t[n as int].keys@ == t[0].keys@,
        t[n as int].overlay == t[0].overlay,
        t[n as int].root_key == t[0].root_key,
    decreases n,
{
    if n == 0 {
        Engine::<C>::lemma_unit_kept_same(&t[0], k);
    } else {
        let before = t.drop_last();
        assert forall|i: int|
            #![trigger before[i + 1]]
            0 <= i < n - 1 implies Engine::<C>::recipher_step(
            &before[i],
            &before[i + 1],
            before[i].suite_plan(suite),
            units[i],
        ) by {
            assert(t[i + 1] == before[i + 1]);
        }
        assert forall|i: int| 0 <= i < before.len() implies (#[trigger] before[i]).inv() by {
            assert(t[i] == before[i]);
        }
        lemma_recipher_kept(before, units, suite, (n - 1) as nat, k);
        let a = t[n - 1];
        let b = t[n - 1 + 1];
        assert(before[n - 1] == a);
        assert(Engine::<C>::recipher_step(&a, &b, a.suite_plan(suite), units[n - 1]));
        law_recipher_keeps_content(&a, &b, suite, units[n - 1], k);
        assert(b.recs().take(a.recs().len() as int) =~= a.recs());
        let ma = live(a.ids@, a.recs(), k, -1);
        if ma != 0 && a.unit_reseals(a.suite_plan(suite), units[n - 1]) {
            assert(ma <= a.slots().len());
            assert(b.slots().take(a.slots().len() as int)[ma - 1] == b.slots()[ma - 1]);
        }
        Engine::<C>::lemma_metadata_kept(&a, &b, k, b.head_of(k));
        Engine::<C>::lemma_unit_kept_trans(&t[0], &a, &b, k);
    }
}

impl<C: Crypto> Engine<C> {
    /// Two answers to where a fragment was differ in the slot at most.
    spec fn same_find(
        a: Result<Option<(BlockLoc, u64, Option<u8>)>, Error>,
        b: Result<Option<(BlockLoc, u64, Option<u8>)>, Error>,
    ) -> bool {
        match (a, b) {
            (Ok(Some(x)), Ok(Some(y))) => x.1 == y.1 && x.2 == y.2 && (x.0 == hole()) == (y.0
                == hole()),
            _ => a == b,
        }
    }

    /// Head `h1` holds what head `h0` held, in other slots perhaps.
    spec fn same_head(o: &Self, e: &Self, h0: RecordModel, h1: RecordModel) -> bool {
        let s0 = h0.stream();
        let s1 = h1.stream();
        &&& h1.uuid == h0.uuid
        &&& s1.unit_map == s0.unit_map
        &&& s0.locations.len() == s0.unit_map.len()
        &&& s1.locations.len() == s0.locations.len()
        &&& h1.content_suite == h0.content_suite
        &&& h1.frag_suites == h0.frag_suites
        &&& e.tail() == o.tail()
        &&& e.root_key == o.root_key
        &&& e.header.key_epoch == o.header.key_epoch
        &&& e.header.cipher == o.header.cipher
        &&& forall|f: int|
            0 <= f < s0.locations.len() ==> (#[trigger] s1.locations[f] == hole()) == (
            s0.locations[f] == hole()) && stored_at(e.slots(), s1.locations[f]) == stored_at(
                o.slots(),
                s0.locations[f],
            )
    }

    proof fn lemma_pieces_moved(
        o: &Self,
        e: &Self,
        a0: u64,
        h0: RecordModel,
        a1: u64,
        h1: RecordModel,
        sm0: StreamModel,
        sm1: StreamModel,
        at: u64,
        n: nat,
    )
        requires
            Self::same_head(o, e, h0, h1),
            sm1.unit_map == sm0.unit_map,
            sm1.fragsize_exp == sm0.fragsize_exp,
            sm1.last_frag_length == sm0.last_frag_length,
            forall|f: int|
                0 <= f < n ==> Self::same_find(
                    #[trigger] resolved::<C>(o.recs(), o.trust(), a0, f, at),
                    resolved::<C>(e.recs(), e.trust(), a1, f, at),
                ),
        ensures
            e.old_pieces(a1, h1, sm1, at, None, n) == o.old_pieces(a0, h0, sm0, at, None, n),
        decreases n,
    {
        if n > 0 {
            let f = n - 1;
            Self::lemma_pieces_moved(o, e, a0, h0, a1, h1, sm0, sm1, at, f as nat);
            let x = resolved::<C>(o.recs(), o.trust(), a0, f, at);
            let y = resolved::<C>(e.recs(), e.trust(), a1, f, at);
            assert(Self::same_find(x, y));
            if f < h0.stream().n() {
                assert((h1.stream().locations[f] == hole()) == (h0.stream().locations[f]
                    == hole()));
            }
            assert(e.old_piece(a1, h1, sm1, at, None, f) == o.old_piece(
                a0,
                h0,
                sm0,
                at,
                None,
                f,
            ));
        }
    }

    /// Compacting a unit changes nothing of what was checked out before.
    proof fn lemma_compaction_past(o: &Self, e: &Self, uuid: Uuid, key: Seq<u8>, at: u64)
        requires
            o.inv(),
            o.slots().len() <= u64::MAX,
            o.movable(uuid),
            Self::compact_step(o, e, uuid, o.known_head(uuid)->Ok_0->Some_0.1),
            o.head(key) is Ok,
        ensures
            e.head(key) is Ok,
            e.as_of(key, at, None) == o.as_of(key, at, None),
            Self::unit_kept(o, e, o.keys@[key]@),
    {
        let m = o.known_head(uuid)->Ok_0->Some_0.1;
        let (u, a0, h0) = o.head(key)->Ok_0;
        let k = u@;
        assert(e.trust() == o.trust());
        assert(e.recs().take(o.recs().len() as int) =~= o.recs());
        Self::lemma_compaction_slots(o, e, uuid, k);
        let t = o.trust();
        if u@ != uuid@ {
            assert(e.recs()[a0 - 1] == o.recs()[a0 - 1]);
            assert(e.head(key) == o.head(key));
            lemma_chain_kept::<C>(o.recs(), e.recs(), t, a0, 0, at);
            assert forall|f: int| Self::same_find(
                #[trigger] resolved::<C>(o.recs(), t, a0, f, at),
                resolved::<C>(e.recs(), t, a0, f, at),
            ) by {
                lemma_chain_kept::<C>(o.recs(), e.recs(), t, a0, f, at);
            }
            let st = stream_as_of::<C>(o.recs(), t, a0, at);
            if st is Ok && st->Ok_0 is Some {
                let sm = st->Ok_0->Some_0;
                Self::lemma_pieces_moved(o, e, a0, h0, a0, h0, sm, sm, at, sm.n());
            }
        } else {
            assert(u =~= uuid);
            assert(h0 == m);
            let a1 = e.recs().len() as u64;
            let h1 = e.recs().last();
            assert(h1 == o.moved_record(m));
            assert(payload_of(h1) == payload_of(m));
            assert(e.head(key)->Ok_0 == (u, a1, h1));
            assert forall|f: int| 0 <= f implies Self::same_find(
                #[trigger] resolved::<C>(o.recs(), t, a0, f, at),
                resolved::<C>(e.recs(), t, a1, f, at),
            ) by {
                if 0 <= f < m.stream().n() {
                    assert((h1.stream().locations[f] == hole()) == (m.stream().locations[f]
                        == hole()));
                }
            }
            if m.stream().n() > 0 && m.stream().max_version() <= at {
                Self::lemma_pieces_moved(
                    o,
                    e,
                    a0,
                    m,
                    a1,
                    h1,
                    m.stream(),
                    h1.stream(),
                    at,
                    m.stream().n(),
                );
            }
        }
    }
}

proof fn lemma_defrag_step_kept<C: Crypto>(
    a: &Engine<C>,
    b: &Engine<C>,
    uuid: Uuid,
    key: Seq<u8>,
    at: u64,
)
    requires
        a.inv(),
        a.slots().len() <= u64::MAX,
        b.inv(),
        Engine::<C>::defrag_step(a, b, uuid),
        a.head(key) is Ok,
    ensures
        b.head(key) is Ok,
        b.keys@ == a.keys@,
        b.overlay == a.overlay,
        b.as_of(key, at, None) == a.as_of(key, at, None),
        Engine::<C>::unit_kept(a, b, a.keys@[key]@),
{
    let k = a.keys@[key]@;
    if a.movable(uuid) {
        let m = a.known_head(uuid)->Ok_0->Some_0.1;
        let mid = choose|mid: Engine<C>|
            {
                &&& #[trigger] Engine::<C>::compact_step(a, &mid, uuid, m)
                &&& if a.suppress_commit {
                    *b == mid
                } else {
                    Engine::<C>::published(&mid, b)
                }
            };
        Engine::<C>::lemma_compaction_past(a, &mid, uuid, key, at);
        assert(b.trust() == mid.trust());
        assert(b.head(key) == mid.head(key));
        Engine::<C>::lemma_unit_kept_published(&mid, b, k);
        let (u, ad, h) = mid.head(key)->Ok_0;
        assert(record_ok(b.recs()[ad - 1], ad - 1));
        lemma_past_published(&mid, b, key, at);
        Engine::<C>::lemma_unit_kept_trans(a, &mid, b, k);
    } else {
        Engine::<C>::lemma_unit_kept_same(a, k);
    }
}

/// A commit changes nothing of what can be checked out.
proof fn lemma_past_published<C: Crypto>(a: &Engine<C>, b: &Engine<C>, key: Seq<u8>, at: u64)
    requires
        a.head(key) is Ok,
        b.head(key) == a.head(key),
        a.head(key)->Ok_0.2.content is Some ==> a.head(key)->Ok_0.2.stream().locations.len()
            == a.head(key)->Ok_0.2.stream().unit_map.len(),
        b.trust() == a.trust(),
        b.recs() == a.recs(),
        b.slots() == a.slots(),
        b.tail() == a.tail(),
        b.root_key == a.root_key,
        b.header.cipher == a.header.cipher,
        b.header.key_epoch == a.header.key_epoch,
    ensures
        b.as_of(key, at, None) == a.as_of(key, at, None),
{
    let (u, ad, h) = a.head(key)->Ok_0;
    let st = stream_as_of::<C>(a.recs(), a.trust(), ad, at);
    if h.content is Some && st is Ok && st->Ok_0 is Some {
        let sm = st->Ok_0->Some_0;
        Engine::<C>::lemma_pieces_moved(a, b, ad, h, ad, h, sm, sm, at, sm.n());
    }
}

proof fn lemma_defrag_kept<C: Crypto>(
    t: Seq<Engine<C>>,
    units: Seq<Uuid>,
    n: nat,
    key: Seq<u8>,
    at: u64,
)
    requires
        Engine::<C>::defrag_trace(t, units, n),
        t[0].head(key) is Ok,
    ensures
        t[n as int].head(key) is Ok,
        t[n as int].keys@ == t[0].keys@,
        t[n as int].overlay == t[0].overlay,
        t[n as int].as_of(key, at, None) == t[0].as_of(key, at, None),
        Engine::<C>::unit_kept(&t[0], &t[n as int], t[0].keys@[key]@),
    decreases n,
{
    let k = t[0].keys@[key]@;
    if n == 0 {
        Engine::<C>::lemma_unit_kept_same(&t[0], k);
    } else {
        let before = t.drop_last();
        assert forall|i: int|
            #![trigger before[i + 1]]
            0 <= i < n - 1 implies Engine::<C>::defrag_step(&before[i], &before[i + 1], units[i]) by {
            assert(t[i + 1] == before[i + 1]);
        }
        assert forall|i: int| 0 <= i < before.len() implies (#[trigger] before[i]).inv()
            && before[i].slots().len() <= u64::MAX by {
            assert(t[i] == before[i]);
        }
        lemma_defrag_kept(before, units, (n - 1) as nat, key, at);
        let a = t[n - 1];
        let b = t[n - 1 + 1];
        let uuid = units[n - 1];
        assert(before[n - 1] == a);
        assert(Engine::<C>::defrag_step(&a, &b, uuid));
        lemma_defrag_step_kept(&a, &b, uuid, key, at);
        Engine::<C>::lemma_unit_kept_trans(&t[0], &a, &b, k);
    }
}

/// Defragmentation keeps every unit: it reads as before, moves no path, and leaves
/// a unit without pending writes its metadata, its versions and vector, its
/// history and everything that can be checked out of it, and its signer.
pub proof fn law_defrag_keeps_every_unit<C: Crypto>(
    o: &Engine<C>,
    e: &Engine<C>,
    report: crate::compact::DefragReport,
    path: Seq<u8>,
    at: u64,
)
    requires
        o.inv(),
        e.inv(),
        Engine::<C>::defrag_done(o, e, false, Ok(report)),
        valid_utf8(path),
        o.head(path) is Ok,
        o.head_of(o.keys@[path]@).stream().geometry_ok(),
        o.sound(o.head_of(o.keys@[path]@)),
    ensures
        e.keys@ == o.keys@,
        e.overlay@.len() == 0,
        ({
            let k = o.keys@[path]@;
            let pending = pending_of(o.overlay@, o.keys@[path]);
            &&& e.ids@.contains_key(k)
            &&& o.full(o.head_of(k)) is Ok
            &&& e.full(e.head_of(k)) == Ok::<Seq<u8>, Error>(
                overlaid(o.full(o.head_of(k))->Ok_0, pending),
            )
            &&& pending.len() == 0 ==> {
                &&& e.head(path) is Ok
                &&& Engine::<C>::unit_kept(o, e, k)
                &&& versions_from::<C>(e.recs(), e.trust(), e.ids@[k]) == versions_from::<C>(
                    o.recs(),
                    o.trust(),
                    o.ids@[k],
                )
                &&& o.overlay@.len() == 0 && o.wal is None ==> e.as_of(path, at, None) == o.as_of(
                    path,
                    at,
                    None,
                )
            }
        }),
{
    let (m, t, n) = choose|m: Engine<C>, t: Seq<Engine<C>>, n: nat|
        Engine::<C>::checkpointed(o, &m, Ok(())) && #[trigger] Engine::<C>::defragged(
            &m,
            e,
            false,
            t,
            n,
            Ok(report),
        );
    let k = o.keys@[path]@;
    law_checkpoint_keeps_what_is_read(o, &m, path);
    Engine::<C>::lemma_checkpoint_unit(o, &m, path);
    let units = crate::compact::text_units(m.keys.pairs());
    law_defrag_keeps_content(t, units, n, k);
    lemma_defrag_keys(t, units, n);
    if pending_of(o.overlay@, o.keys@[path]).len() == 0 {
        assert(m.head(path) == o.head(path)) by {
            assert(m.recs()[o.ids@[k] - 1] == o.recs()[o.ids@[k] - 1]);
        }
        lemma_defrag_kept(t, units, n, path, at);
        assert(o.recs().len() <= m.recs().len() && m.recs().take(o.recs().len() as int)
            == o.recs()) by {
            if o.overlay@.len() == 0 && o.wal is None {
                assert(o.recs().take(o.recs().len() as int) =~= o.recs());
            }
        }
        assert(Engine::<C>::unit_kept(o, &m, k));
        Engine::<C>::lemma_unit_kept_trans(o, &m, e, k);
        Engine::<C>::lemma_history_kept(o, e, k);
    }
}

proof fn lemma_defrag_keys<C: Crypto>(t: Seq<Engine<C>>, units: Seq<Uuid>, n: nat)
    requires
        Engine::<C>::defrag_trace(t, units, n),
    ensures
        t[n as int].keys@ == t[0].keys@,
        t[n as int].overlay == t[0].overlay,
    decreases n,
{
    if n > 0 {
        let before = t.drop_last();
        assert forall|i: int|
            #![trigger before[i + 1]]
            0 <= i < n - 1 implies Engine::<C>::defrag_step(&before[i], &before[i + 1], units[i]) by {
            assert(t[i + 1] == before[i + 1]);
        }
        assert forall|i: int| 0 <= i < before.len() implies (#[trigger] before[i]).inv()
            && before[i].slots().len() <= u64::MAX by {
            assert(t[i] == before[i]);
        }
        lemma_defrag_keys(before, units, (n - 1) as nat);
        assert(before[n - 1] == t[n - 1]);
        assert(Engine::<C>::defrag_step(&t[n - 1], &t[n - 1 + 1], units[n - 1]));
    }
}

impl<C: Crypto> Engine<C> {
    /// Everything was sealed under another suite.
    pub open spec fn reciphered_once(o: &Self, e: &Self) -> bool {
        exists|suite: u8, set: Seq<(Uuid, u32, u64)>|
            #[trigger] Self::reciphered(o, e, suite, false, Ok(set)) && suite
                != o.header.content_cipher
    }

    /// Blocks were moved together.
    pub open spec fn defragged_once(o: &Self, e: &Self) -> bool {
        exists|report: crate::compact::DefragReport| #[trigger]
            Self::defrag_done(o, e, false, Ok(report))
    }

    /// Everything was sealed under another key.
    pub open spec fn rekeyed_once(o: &Self, e: &Self) -> bool {
        exists|key: [u8; 32], epoch: u64| #[trigger]
            Self::rekeyed(o, e, key, epoch, None, false, Ok(()))
    }
}

/// Maintenance is no authorship: who signed a unit is who signed it after its
/// suite, its key or the place of its blocks was changed. Writes that wait in the
/// log are written first, and signed by who writes them.
pub proof fn law_maintenance_keeps_the_signer<C: Crypto>(
    o: &Engine<C>,
    e: &Engine<C>,
    path: Seq<u8>,
)
    requires
        o.inv(),
        e.inv(),
        Engine::<C>::reciphered_once(o, e) || Engine::<C>::defragged_once(o, e)
            || Engine::<C>::rekeyed_once(o, e),
        valid_utf8(path),
        o.head(path) is Ok,
        o.head_of(o.keys@[path]@).stream().geometry_ok(),
        o.sound(o.head_of(o.keys@[path]@)),
        pending_of(o.overlay@, o.keys@[path]).len() == 0,
    ensures
        e.unit_signer(o.keys@[path]@) == o.unit_signer(o.keys@[path]@),
{
    if Engine::<C>::reciphered_once(o, e) {
        let (suite, set) = choose|suite: u8, set: Seq<(Uuid, u32, u64)>|
            #[trigger] Engine::<C>::reciphered(o, e, suite, false, Ok(set)) && suite
                != o.header.content_cipher;
        law_recipher_keeps_every_unit(o, e, suite, set, path);
    } else if Engine::<C>::defragged_once(o, e) {
        let report = choose|report: crate::compact::DefragReport| #[trigger]
            Engine::<C>::defrag_done(o, e, false, Ok(report));
        law_defrag_keeps_every_unit(o, e, report, path, 0);
    } else {
        let (key, epoch) = choose|key: [u8; 32], epoch: u64| #[trigger]
            Engine::<C>::rekeyed(o, e, key, epoch, None, false, Ok(()));
        law_rotation_keeps_every_unit(o, e, key, epoch, path);
    }
}

} // verus!
