//! Laws on what single operations leave behind.
use vstd::prelude::*;

use crate::block::lemma_frags;
use crate::content::stored_at;
use crate::crypto::Crypto;
use crate::engine::{journal_has, lemma_own_records_read_back, Engine};
use crate::error::Error;
use crate::history::versions_from;
use crate::resize::lemma_suites_form;
use crate::storage::stamp_of;
use crate::supersede::{old_block, stamped};
use crate::unit::{lemma_seq_max, DbHead, RecordModel, UnitKind, Uuid};
use crate::vector::vv_get;
use crate::write::{rechunks, touches, write_exp};
use crate::writerset::SignMode;

verus! {

/// A record that was signed for this store can be read in it.
proof fn lemma_reads<C: Crypto>(o: &Engine<C>, e: &Engine<C>, m: RecordModel)
    requires
        o.may_sign(),
        o.reads_own_records(),
        e.trust() == o.trust(),
        m == o.signed_fresh((RecordModel { signature: None, ..m })),
    ensures
        crate::tags::signer_ok(e, m),
{
    let base = RecordModel { signature: None, ..m };
    o.lemma_may_sign(base);
    lemma_own_records_read_back::<C>(base, o.trust(), o.signing_key);
    if o.header.sign_mode == SignMode::Unsigned {
        assert(m == base);
    }
}

/// A new unit is found at its path, which must have been free, and nowhere else. It
/// has no history and no strain. With content it reads as nothing; without, it is
/// what a directory is, metadata alone. Metadata that it was made with reads back.
/// Every other unit stays where and as it was.
pub proof fn law_new_units_are_empty<C: Crypto>(
    o: &Engine<C>,
    e: &Engine<C>,
    key: Seq<u8>,
    uuid: Uuid,
    content: bool,
    db: Option<DbHead>,
    meta: Option<(Seq<u8>, Seq<u8>)>,
    r: Result<Uuid, Error>,
)
    requires
        o.inv(),
        o.reads_own_records(),
        o.slots().len() < u64::MAX,
        meta is Some ==> meta->Some_0.0.len() + 28 <= u32::MAX && meta->Some_0.1.len() == 12,
        Engine::<C>::create_step(o, e, key, uuid, content, db, meta, r),
    ensures
        o.keys@.contains_key(key) ==> r == Err::<Uuid, Error>(Error::Integrity) && *e == *o,
        !o.keys@.contains_key(key) ==> (r is Ok <==> o.may_sign()),
        r is Err ==> r == Err::<Uuid, Error>(Error::Integrity) && e.keys@ == o.keys@ && e.recs()
            == o.recs(),
        r is Ok ==> {
            let h = e.head(key)->Ok_0.2;
            &&& r == Ok::<Uuid, Error>(uuid)
            &&& e.keys@.contains_key(key)
            &&& e.keys@[key] == uuid
            &&& e.head(key) is Ok
            &&& e.head(key)->Ok_0.0 == uuid
            &&& h.uuid == uuid
            &&& h.content is Some <==> content
            &&& e.full(h) == Ok::<Seq<u8>, Error>(Seq::empty())
            &&& h.db == db
            &&& h.parent is None
            &&& h.strains.len() == 0
            &&& forall|host: u16| #[trigger] vv_get(h.stream().vv, host) == 0
            &&& versions_from::<C>(e.recs(), e.trust(), e.head(key)->Ok_0.1) == Ok::<
                Seq<u64>,
                Error,
            >(Seq::empty())
            &&& !content ==> h.meta is Some
            &&& meta is None ==> e.metadata(h) == Ok::<Option<Seq<u8>>, Error>(None)
            &&& meta is Some ==> e.metadata(h) == Ok::<Option<Seq<u8>>, Error>(
                Some(meta->Some_0.0),
            )
            &&& forall|k: Seq<u8>|
                #![trigger e.head(k)]
                k != key && o.keys@.contains_key(k) && o.keys@[k] != uuid ==> e.keys@.contains_key(
                    k,
                ) && e.keys@[k] == o.keys@[k] && (o.head_at(k) is Ok ==> e.head(k) == o.head(k))
            &&& forall|k: Seq<u8>|
                #![trigger e.keys@.contains_key(k)]
                k != key ==> e.keys@.contains_key(k) == o.keys@.contains_key(k)
        },
{
    if r is Ok {
        let m = e.recs().last();
        assert(e.trust() == o.trust());
        let fresh = o.fresh_record(uuid, content, db, match meta {
            None => None,
            Some(_) => m.meta,
        });
        o.lemma_may_sign(fresh);
        assert(m == o.signed_fresh(fresh));
        assert(fresh == (RecordModel { signature: None, ..m }));
        lemma_reads(o, e, m);
        assert(e.recs().take(o.recs().len() as int) =~= o.recs());
        assert(e.head(key) == Ok::<(Uuid, u64, RecordModel), Error>(
            (uuid, e.recs().len() as u64, m),
        ));
        assert forall|host: u16| #[trigger] vv_get(m.stream().vv, host) == 0 by {
            assert(!crate::vector::vv_has(m.stream().vv, host));
        }
        if meta is Some {
            lemma_new_metadata(o, e, uuid, meta->Some_0.0, meta->Some_0.1, m);
        }
        assert forall|k: Seq<u8>|
            #![trigger e.head(k)]
            k != key && o.keys@.contains_key(k) && o.keys@[k] != uuid implies e.keys@.contains_key(
            k,
        ) && e.keys@[k] == o.keys@[k] && (o.head_at(k) is Ok ==> e.head(k) == o.head(k)) by {
            Engine::<C>::lemma_other_head(o, e, uuid, k);
        }
    }
}

proof fn lemma_new_metadata<C: Crypto>(
    o: &Engine<C>,
    e: &Engine<C>,
    uuid: Uuid,
    plain: Seq<u8>,
    nonce: Seq<u8>,
    m: RecordModel,
)
    requires
        o.slots().len() < u64::MAX,
        plain.len() + 28 <= u32::MAX,
        nonce.len() == 12,
        e.root_key == o.root_key,
        e.header.cipher == o.header.cipher,
        m.uuid == uuid,
        ({
            let version = crate::block::dot(o.local_alias, 1);
            let addr = (o.slots().len() + 1) as u64;
            &&& e.slots() == o.slots().push(o.meta_block(uuid, addr, version, nonce, plain))
            &&& m.meta is Some
            &&& m.meta->Some_0 == Engine::<C>::meta_stream(
                m.meta_vv(),
                version,
                (crate::unit::BlockLoc { addr, len: e.slots().last().len() as u32 }),
            )
        }),
    ensures
        e.metadata(m) == Ok::<Option<Seq<u8>>, Error>(Some(plain)),
{
    let sm = m.meta->Some_0;
    let loc = sm.locations[0];
    let b = e.slots().last();
    let aad = crate::meta::meta_aad(uuid, loc.addr, sm.unit_map[0]);
    C::lemma_meta_open_of_seal(o.root_key, nonce, aad, plain);
    assert(stored_at(e.slots(), loc) == Some(b));
    if o.seals_meta() {
        assert(b.subrange(0, 12) =~= nonce);
        assert(b.subrange(12, b.len() as int) =~= C::meta_sealed(o.root_key, nonce, aad, plain));
    }
}

/// The identity of a key-value unit and of its store is what it was made with.
pub proof fn law_key_value_units_say_so<C: Crypto>(
    o: &Engine<C>,
    e: &Engine<C>,
    key: Seq<u8>,
    uuid: Uuid,
    store: [u8; 16],
    pk: [u8; 16],
)
    requires
        o.inv(),
        o.reads_own_records(),
        o.slots().len() < u64::MAX,
        Engine::<C>::create_step(
            o,
            e,
            key,
            uuid,
            true,
            Some(DbHead { store, pk, kind: UnitKind::KvRecord }),
            None,
            Ok(uuid),
        ),
    ensures
        e.head(key) is Ok,
        e.head(key)->Ok_0.2.db is Some,
        e.head(key)->Ok_0.2.db->Some_0.store == store,
        e.head(key)->Ok_0.2.db->Some_0.pk == pk,
        e.head(key)->Ok_0.2.db->Some_0.kind == UnitKind::KvRecord,
{
    law_new_units_are_empty(
        o,
        e,
        key,
        uuid,
        true,
        Some(DbHead { store, pk, kind: UnitKind::KvRecord }),
        None,
        Ok(uuid),
    );
}

/// A summary tells the length of what a read gives, how many fragments that is, the
/// newest version among them, and whether there is content at all. A unit without
/// content has the newest version of its metadata.
pub proof fn law_summaries_tell_of_the_content<C: Crypto>(e: &Engine<C>, m: RecordModel)
    requires
        m.stream().geometry_ok(),
        e.whole(m),
    ensures
        ({
            let s = Engine::<C>::summary(m);
            let versions = if m.content is Some {
                m.content->Some_0.unit_map
            } else if m.meta is Some {
                m.meta->Some_0.unit_map
            } else {
                Seq::empty()
            };
            &&& s.uuid == m.uuid
            &&& s.is_dir <==> m.content is None
            &&& e.full(m) is Ok
            &&& s.size == e.full(m)->Ok_0.len() as u64
            &&& m.content is Some ==> s.fragment_count == m.content->Some_0.unit_map.len() as u64
            &&& m.content is None ==> s.fragment_count == 0 && s.size == 0
            &&& forall|f: int| 0 <= f < versions.len() ==> #[trigger] versions[f] <= s.version
            &&& versions.len() > 0 ==> versions.contains(s.version)
            &&& versions.len() == 0 ==> s.version == 0
        }),
{
    e.law_full_read_is_the_content(m);
    lemma_seq_max(m.stream().unit_map);
    if m.meta is Some {
        lemma_seq_max(m.meta->Some_0.unit_map);
    }
}

/// Fragments that read the same give the same content.
proof fn lemma_pieces_if_read<C: Crypto>(
    o: &Engine<C>,
    m: RecordModel,
    e: &Engine<C>,
    x: RecordModel,
    n: nat,
)
    requires
        n <= m.stream().n(),
        x.stream() == m.stream(),
        forall|f: int|
            0 <= f < m.stream().n() && o.frag(m, f) is Ok ==> #[trigger] e.frag(x, f) == o.frag(m, f),
        o.pieces(m, n) is Ok,
    ensures
        e.pieces(x, n) == o.pieces(m, n),
    decreases n,
{
    if n > 0 {
        lemma_pieces_if_read(o, m, e, x, (n - 1) as nat);
        assert(o.piece(m, n - 1) is Ok);
        if !Engine::<C>::hole_at(m, n - 1) {
            assert(e.frag(x, n - 1) == o.frag(m, n - 1));
        }
        assert(e.piece(x, n - 1) == o.piece(m, n - 1));
    }
}

/// Metadata that was written reads back, and its vector counts one write more of
/// this host and as many as before of every other. Content, its vector and its
/// fragments stay as they were.
pub proof fn law_metadata_is_written_beside_content<C: Crypto>(
    o: &Engine<C>,
    e: &Engine<C>,
    key: Seq<u8>,
    plain: Seq<u8>,
    nonce: Seq<u8>,
    r: Result<(), Error>,
)
    requires
        o.inv(),
        o.reads_own_records(),
        o.slots().len() < u64::MAX,
        o.meta_fits(key, plain.len()),
        nonce.len() == 12,
        Engine::<C>::write_meta_step(o, e, key, plain, nonce, r),
    ensures
        r is Ok <==> o.head(key) is Ok && o.may_sign(),
        o.head(key) is Err ==> r is Err && r->Err_0 == o.head(key)->Err_0,
        r is Err ==> e.keys@ == o.keys@ && e.recs() == o.recs(),
        r is Ok ==> {
            let m = o.head(key)->Ok_0.2;
            let h = e.head(key)->Ok_0.2;
            &&& e.head(key) is Ok
            &&& e.metadata(h) == Ok::<Option<Seq<u8>>, Error>(Some(plain))
            &&& vv_get(h.meta_vv(), o.local_alias) == vv_get(m.meta_vv(), o.local_alias) + 1
            &&& forall|host: u16|
                host != o.local_alias ==> #[trigger] vv_get(h.meta_vv(), host) == vv_get(
                    m.meta_vv(),
                    host,
                )
            &&& h.content == m.content
            &&& h.db == m.db
            &&& o.full(m) is Ok ==> e.full(h) == o.full(m)
        },
{
    if r is Ok {
        let (uuid, addr, m) = o.head(key)->Ok_0;
        let h = e.recs().last();
        assert(e.trust() == o.trust());
        lemma_reads(o, e, h);
        assert(e.head(key) == Ok::<(Uuid, u64, RecordModel), Error>(
            (uuid, e.recs().len() as u64, h),
        ));
        Engine::<C>::law_metadata_reads_back(o, e, m, addr, plain, nonce, h);
        let n = m.stream().n();
        if o.full(m) is Ok {
            assert forall|f: int| 0 <= f < n && o.frag(m, f) is Ok implies #[trigger] e.frag(h, f)
                == o.frag(m, f) by {
                lemma_suites_form(
                    o.carried(m, n),
                    o.header.content_cipher,
                    e.header.cipher,
                    h,
                    f,
                );
                let at = m.stream().locations[f];
                assert(stored_at(o.slots(), at) is Some);
                assert(stored_at(e.slots(), at) == stored_at(o.slots(), at));
            }
            lemma_pieces_if_read(o, m, e, h, n);
        }
    }
}

proof fn lemma_stamped_at(
    s: Seq<(Uuid, u32, i64)>,
    uuid: Uuid,
    t: i64,
    first: int,
    upto: int,
    f: int,
)
    requires
        0 <= first <= f < upto,
        f <= u32::MAX,
        upto <= u32::MAX + 1,
    ensures
        stamp_of(s + stamped(uuid, t, first, upto), uuid, f as u32) == Some(t),
    decreases upto - first,
{
    let all = s + stamped(uuid, t, first, upto);
    let p = s + stamped(uuid, t, first, upto - 1);
    assert(stamped(uuid, t, first, upto).last() == (uuid, (upto - 1) as u32, t));
    assert(all.drop_last() =~= p);
    if f < upto - 1 {
        lemma_stamped_at(s, uuid, t, first, upto - 1, f);
    }
}

impl<C: Crypto> Engine<C> {
    proof fn lemma_image_listed(
        &self,
        r: RecordModel,
        offset: int,
        data: Seq<u8>,
        exp: u8,
        version: u64,
        first: int,
        upto: int,
        f: int,
    ) -> (i: int)
        requires
            0 <= first <= f < upto,
            r.stream().n() <= u32::MAX,
            self.retires(r, f),
        ensures
            ({
                let s = self.images(r, offset, data, exp, version, first, upto);
                &&& 0 <= i < s.len()
                &&& s[i].uuid == r.uuid
                &&& s[i].frag == f
                &&& s[i].old_version == r.stream().unit_map[f]
                &&& s[i].bytes == self.slots()[r.stream().locations[f].addr - 1]
                &&& s[i].commits == crate::unit::pinning(r.stream().pins, f)
                &&& s[i].timestamp == self.age(r.uuid, f as u32)
            }),
        decreases upto - first,
    {
        let s = self.images(r, offset, data, exp, version, first, upto);
        if f == upto - 1 {
            s.len() - 1
        } else {
            self.lemma_image_listed(r, offset, data, exp, version, first, upto - 1, f)
        }
    }
}

/// A superseded block carries the time at which it was written, not the time at
/// which it was superseded: a fragment is written at one time, the clock moves to any
/// other, and a second write supersedes it. The block kept of the first has the
/// fragment's old version, its sealed bytes, the commits that pinned it and the time
/// of the first.
pub proof fn law_superseded_blocks_carry_their_time<C: Crypto>(
    o: &Engine<C>,
    w: &Engine<C>,
    a: &Engine<C>,
    b: &Engine<C>,
    key: Seq<u8>,
    offset1: int,
    data1: Seq<u8>,
    offset2: int,
    data2: Seq<u8>,
    f: int,
) -> (i: int)
    requires
        Engine::<C>::wrote_over(o, w, key, offset1, data1),
        *a == (Engine { clock: a.clock, eviction_clock: a.eviction_clock, ..*w }),
        Engine::<C>::wrote_over(a, b, key, offset2, data2),
        !rechunks(a.head(key)->Ok_0.2.stream(), (offset2 + data2.len()) as nat),
        0 <= f < a.head(key)->Ok_0.2.stream().n(),
        touches(o.head(key)->Ok_0.2.stream(), offset1, (offset1 + data1.len()) as nat, f),
        touches(a.head(key)->Ok_0.2.stream(), offset2, (offset2 + data2.len()) as nat, f),
        old_block(a.head(key)->Ok_0.2, f) is Some,
        !journal_has(a.journaled@, a.head(key)->Ok_0.2.uuid@, f as u32),
    ensures
        a.tail().len() <= i < b.tail().len(),
        b.tail()[i].uuid == a.head(key)->Ok_0.2.uuid,
        b.tail()[i].frag == f,
        b.tail()[i].old_version == a.head(key)->Ok_0.2.stream().unit_map[f],
        b.tail()[i].bytes == a.slots()[a.head(key)->Ok_0.2.stream().locations[f].addr - 1],
        b.tail()[i].commits == crate::unit::pinning(a.head(key)->Ok_0.2.stream().pins, f),
        b.tail()[i].timestamp == match o.eviction_clock {
            Some(t) => t,
            None => o.clock,
        },
{
    Engine::<C>::lemma_head_after_write(o, w, key, offset1, data1);
    assert(a.head(key) == w.head(key));
    let r0 = o.head(key)->Ok_0.2;
    let r1 = a.head(key)->Ok_0.2;
    let end1 = (offset1 + data1.len()) as nat;
    let end2 = (offset2 + data2.len()) as nat;
    let exp1 = write_exp(r0.stream(), end1);
    let exp2 = write_exp(r1.stream(), end2);
    let fs1 = crate::block::frag_bytes(exp1) as int;
    let fs2 = crate::block::frag_bytes(exp2) as int;
    crate::block::lemma_exp_range(end1, 12, 22);
    crate::block::lemma_exp_range(crate::write::grown_size(r0.stream(), end1), 12, 22);
    crate::block::lemma_exp_range(end2, 12, 22);
    crate::block::lemma_exp_range(crate::write::grown_size(r1.stream(), end2), 12, 22);
    crate::block::lemma_frag_bytes(exp1);
    crate::block::lemma_frag_bytes(exp2);
    vstd::arithmetic::div_mod::lemma_div_pos_is_pos(offset1, fs1);
    vstd::arithmetic::div_mod::lemma_div_pos_is_pos(offset2, fs2);
    lemma_frags(crate::write::grown_size(r0.stream(), end1), exp1);
    assert(stamp_of(a.stamps@, r1.uuid, f as u32) == Some(o.time())) by {
        let n1 = crate::block::frags_for(crate::write::grown_size(r0.stream(), end1), exp1) as int;
        assert(r1.stream().n() == n1);
        if rechunks(r0.stream(), end1) {
            lemma_stamped_at(o.stamps@, r0.uuid, o.time(), 0, n1, f);
        } else {
            let upto = (end1 - 1) / fs1 + 1;
            vstd::arithmetic::div_mod::lemma_div_is_ordered(
                end1 - 1,
                crate::write::grown_size(r0.stream(), end1) - 1,
                fs1,
            );
            lemma_stamped_at(o.stamps@, r0.uuid, o.time(), offset1 / fs1, upto, f);
        }
    }
    let v = a.next_version(r1);
    let j = a.lemma_image_listed(
        r1,
        offset2,
        data2,
        exp2,
        v,
        offset2 / fs2,
        (end2 - 1) / fs2 + 1,
        f,
    );
    a.tail().len() + j
}

/// A block that the head names is exported as it is stored, with the suite that it
/// was sealed under.
pub proof fn law_stored_blocks_are_exported<C: Crypto>(
    e: &Engine<C>,
    uuid: Uuid,
    m: RecordModel,
    f: int,
    b: Seq<u8>,
)
    requires
        e.ids@.contains_key(uuid@),
        e.record(e.ids@[uuid@]) == Ok::<RecordModel, Error>(m),
        m.content is Some,
        0 <= f < m.stream().n(),
        f < m.stream().locations.len(),
        m.stream().locations[f].addr != 0,
        stored_at(e.slots(), m.stream().locations[f]) == Some(b),
    ensures
        e.block_of(uuid, f, m.stream().unit_map[f]) is Ok,
        e.block_of(uuid, f, m.stream().unit_map[f])->Ok_0.0 == b,
        ({
            let s = e.block_of(uuid, f, m.stream().unit_map[f])->Ok_0.1;
            s is Some ==> s->Some_0 == e.suite(m, f)
        }),
{
}

/// A version that was superseded is exported as it was before.
pub proof fn law_superseded_blocks_are_exported<C: Crypto>(
    o: &Engine<C>,
    e: &Engine<C>,
    key: Seq<u8>,
    offset: int,
    data: Seq<u8>,
    f: int,
)
    requires
        Engine::<C>::wrote_over(o, e, key, offset, data),
        o.head(key)->Ok_0.2.content is Some,
        o.settled(o.head(key)->Ok_0.2),
        !rechunks(o.head(key)->Ok_0.2.stream(), (offset + data.len()) as nat),
        touches(o.head(key)->Ok_0.2.stream(), offset, (offset + data.len()) as nat, f),
        old_block(o.head(key)->Ok_0.2, f) is Some,
        stored_at(o.slots(), o.head(key)->Ok_0.2.stream().locations[f]) is Some,
        o.head(key)->Ok_0.2.stream().unit_map[f] < o.next_version(o.head(key)->Ok_0.2),
    ensures
        ({
            let m = o.head(key)->Ok_0.2;
            let v = m.stream().unit_map[f];
            &&& o.block_of(o.keys@[key], f, v) is Ok
            &&& e.block_of(o.keys@[key], f, v) == o.block_of(o.keys@[key], f, v)
        }),
{
    Engine::<C>::lemma_head_after_write(o, e, key, offset, data);
    let (u0, a0, r0) = o.head(key)->Ok_0;
    let (u1, a1, r1) = e.head(key)->Ok_0;
    let v = r0.stream().unit_map[f];
    let end = (offset + data.len()) as nat;
    let b = stored_at(o.slots(), r0.stream().locations[f])->Some_0;
    assert(o.block_of(u0, f, v) is Ok);
    Engine::<C>::lemma_superseded_found(o, e, r0, offset, data, v, f);
    crate::timemachine::lemma_chain_kept::<C>(o.recs(), e.recs(), o.trust(), a0, f, v);
    assert(e.trust() == o.trust());
    assert(r1.uuid == r0.uuid);
    if f < r1.stream().n() {
        assert(r1.stream().unit_map[f] == o.next_version(r0));
    }
    assert(crate::history::resolved::<C>(e.recs(), e.trust(), a1, f, v)
        == crate::history::resolved::<C>(o.recs(), o.trust(), a0, f, v));
}

/// What is found along the chain of a record is in one of its records, in a version
/// that is not newer than the one asked for.
pub proof fn law_resolution_stays_in_the_chain<C: Crypto>(
    recs: Seq<RecordModel>,
    t: crate::writerset::TrustModel,
    addr: u64,
    f: int,
    at: u64,
) -> (a: u64)
    requires
        0 <= f,
        crate::history::resolved::<C>(recs, t, addr, f, at) is Ok,
        crate::history::resolved::<C>(recs, t, addr, f, at)->Ok_0 is Some,
    ensures
        ({
            let (loc, v, suite) = crate::history::resolved::<C>(recs, t, addr, f, at)->Ok_0->Some_0;
            let m = crate::engine::loaded::<C>(recs, t, a)->Ok_0;
            &&& v <= at
            &&& a <= addr
            &&& crate::engine::loaded::<C>(recs, t, a) is Ok
            &&& m.content is Some
            &&& f < m.stream().unit_map.len()
            &&& f < m.stream().locations.len()
            &&& m.stream().unit_map[f] == v
            &&& m.stream().locations[f] == loc
        }),
        ({
            let m = crate::engine::loaded::<C>(recs, t, addr)->Ok_0;
            m.content is Some && f < m.stream().unit_map.len() && m.stream().unit_map[f] <= at
                ==> a == addr
        }),
    decreases addr,
{
    let m = crate::engine::loaded::<C>(recs, t, addr)->Ok_0;
    if m.content is Some && f < m.stream().unit_map.len() && m.stream().unit_map[f] <= at {
        addr
    } else {
        law_resolution_stays_in_the_chain::<C>(recs, t, m.parent->Some_0, f, at)
    }
}

/// A write under a raw key puts its bytes in place and leaves the others; fragments
/// keep their size, and the vector counts one write more of this host and as many
/// as before of every other.
pub proof fn law_raw_writes_read_back<C: Crypto>(
    o: &Engine<C>,
    e: &Engine<C>,
    key: Seq<u8>,
    offset: int,
    data: Seq<u8>,
)
    requires
        o.inv(),
        o.may_sign(),
        o.reads_own_records(),
        o.head(key) is Ok,
        o.whole(o.head(key)->Ok_0.2),
        o.raw_write_error(key, offset, data.len()) is None,
        o.raw_fits_at(key, offset, data.len()),
        0 <= offset,
        data.len() > 0,
        o.head(key)->Ok_0.2.stream().n() > 0 ==> o.head(key)->Ok_0.2.stream().fragsize_exp >= 6,
        Engine::<C>::raw_written(o, e, key, offset, data),
        Engine::<C>::same_setup(o, e),
        Engine::<C>::commit_step(o, e),
    ensures
        e.head(key) is Ok,
        o.full(o.head(key)->Ok_0.2) is Ok,
        e.full(e.head(key)->Ok_0.2) is Ok,
        ({
            let before = o.full(o.head(key)->Ok_0.2)->Ok_0;
            let after = e.full(e.head(key)->Ok_0.2)->Ok_0;
            let host = o.local_alias;
            let m = o.head(key)->Ok_0.2;
            let h = e.head(key)->Ok_0.2;
            &&& offset <= before.len()
            &&& after.len() == if before.len() > offset + data.len() {
                before.len() as int
            } else {
                offset + data.len()
            }
            &&& forall|i: int|
                0 <= i < after.len() ==> #[trigger] after[i] == if offset <= i < offset
                    + data.len() {
                    data[i - offset]
                } else {
                    before[i]
                }
            &&& m.stream().n() > 0 ==> h.stream().fragsize_exp == m.stream().fragsize_exp
            &&& vv_get(h.stream().vv, host) == vv_get(m.stream().vv, host) + 1
            &&& forall|k: u16|
                k != host ==> #[trigger] vv_get(h.stream().vv, k) == vv_get(m.stream().vv, k)
            &&& h.meta == m.meta
        }),
{
    let (uuid, addr, m) = o.head(key)->Ok_0;
    let h = e.recs().last();
    assert(e.trust() == o.trust());
    lemma_reads(o, e, h);
    assert(e.head(key) == Ok::<(Uuid, u64, RecordModel), Error>(
        (uuid, e.recs().len() as u64, h),
    ));
    let sm0 = m.stream();
    let sm1 = h.stream();
    let end = (offset + data.len()) as nat;
    let exp = crate::write::start_exp(sm0, end);
    let fs = crate::block::frag_bytes(exp) as int;
    let size = crate::write::grown_size(sm0, end);
    crate::block::lemma_exp_range(end, 12, 22);
    crate::readback::lemma_frag_bytes_64(exp);
    crate::block::lemma_frag_bytes(exp);
    lemma_frags(size, exp);
    o.law_full_read_is_the_content(m);
    assert forall|f: int| 0 <= f < sm1.n() && !Engine::<C>::hole_at(h, f) implies #[trigger] e.frag(
        h,
        f,
    ) is Ok && e.frag(h, f)->Ok_0.len() <= fs by {
        if offset / fs <= f <= (end - 1) / fs {
            let slice = crate::write::frag_slice(o.target(m, offset, data), fs, f);
            C::lemma_seal_len(o.header.content_cipher, o.root_key, o.ctx(m.uuid, f, 0), slice);
            assert(e.frag(h, f) == Ok::<Seq<u8>, Error>(o.padded(slice, exp)));
            assert(f * fs <= (sm1.n() - 1) * fs) by (nonlinear_arith)
                requires
                    f <= sm1.n() - 1,
                    fs >= 1,
            ;
            assert(slice.len() <= fs);
        } else {
            assert(sm1.locations[f] == sm0.locations[f]);
            assert(o.frag(m, f) is Ok);
        }
    }
    e.law_full_read_is_the_content(h);
}

} // verus!
