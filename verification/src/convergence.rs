//! Laws on units that replicas share: conflicts that are resolved, and blocks
//! that arrive.
use vstd::prelude::*;

use crate::block::{frag_bytes, lemma_exp_range, lemma_frag_bytes, lemma_frags};
use crate::conflict::{strain_info, Resolution, StrainModel};
use crate::content::stored_at;
use crate::crypto::Crypto;
use crate::engine::{lemma_own_records_read_back, record_ok, Engine};
use crate::error::Error;
use crate::merge::longer;
use crate::readback::lemma_frag_bytes_64;
use crate::resize::lemma_suites_form;
use crate::unit::{hole, payload_of, BlockLoc, RecordModel, StreamModel, Uuid};
use crate::vector::vv_get;
use crate::write::frag_slice;
use crate::writerset::SignMode;

verus! {

/// A resolution ends the conflict: the head after it has no strain. It reads as
/// the content that was chosen or merged. Its vector is the join of the vectors of
/// the old head and of every strain, moved ahead by one write of this host.
pub proof fn law_resolution_ends_the_conflict<C: Crypto>(
    o: &Engine<C>,
    e: &Engine<C>,
    key: Seq<u8>,
    r: Resolution,
)
    requires
        o.inv(),
        o.reads_own_records(),
        o.head(key) is Ok,
        o.head(key)->Ok_0.2.stream().geometry_ok(),
        o.head(key)->Ok_0.2.stream().n() > 0 ==> o.head(key)->Ok_0.2.stream().fragsize_exp >= 6,
        o.resolve_error(key, o.head(key)->Ok_0.2, r) is None,
        o.resolution_fits(key, r),
        Engine::<C>::resolution_done(o, e, key, r),
    ensures
        e.head(key) is Ok,
        ({
            let m = o.head(key)->Ok_0.2;
            let h = e.head(key)->Ok_0.2;
            &&& h.strains.len() == 0
            &&& e.full(h) == o.resolution(key, m, r)
            &&& vv_get(h.content_vv(), o.local_alias) == o.reached(
                m.content_vv(),
                m.strains,
                o.local_alias,
            ) + 1
            &&& forall|host: u16|
                host != o.local_alias ==> #[trigger] vv_get(h.content_vv(), host) == o.reached(
                    m.content_vv(),
                    m.strains,
                    host,
                )
            &&& h.superseded == m.strains
            &&& h.meta == m.meta
            &&& h.uuid == m.uuid
        }),
{
    let (uuid, addr, m) = o.head(key)->Ok_0;
    let h = e.recs().last();
    let bytes = o.resolution(key, m, r)->Ok_0;
    let base = RecordModel { signature: None, ..h };
    o.lemma_may_sign(base);
    lemma_own_records_read_back::<C>(base, o.trust(), o.signing_key);
    assert(e.trust() == o.trust());
    if o.header.sign_mode == SignMode::Unsigned {
        assert(h == base);
    }
    assert(crate::tags::signer_ok(e, h));
    assert(e.head(key) == Ok::<(Uuid, u64, RecordModel), Error>(
        (uuid, e.recs().len() as u64, h),
    ));
    let exp = Engine::<C>::resolved_exp(m, bytes.len());
    lemma_exp_range(longer(bytes.len(), 1), 12, 22);
    lemma_frag_bytes_64(exp);
    lemma_frag_bytes(exp);
    lemma_frags(bytes.len(), exp);
    let fs = frag_bytes(exp) as int;
    assert forall|f: int|
        0 <= f < h.stream().n() && !Engine::<C>::hole_at(h, f) implies #[trigger] e.frag(h, f) is Ok
        && e.frag(h, f)->Ok_0.len() <= frag_bytes(exp) by {
        let slice = frag_slice(bytes, fs, f);
        C::lemma_seal_len(o.header.content_cipher, o.root_key, o.ctx(h.uuid, f, 0), slice);
        assert(f * fs <= (h.stream().n() - 1) * fs) by (nonlinear_arith)
            requires
                f <= h.stream().n() - 1,
                fs >= 1,
        ;
        assert(e.frag(h, f) == Ok::<Seq<u8>, Error>(o.padded(slice, exp)));
    }
    assert(h.stream().geometry_ok());
    e.law_full_read_is_the_content(h);
}

/// Choosing a strain makes its content that of the unit: a read after the choice
/// gives what a read of the strain gave before it. Strain zero is the head as it
/// was, and strain `i` the record in place `i - 1` of the head's strains.
pub proof fn law_the_chosen_strain_goes_on<C: Crypto>(
    o: &Engine<C>,
    e: &Engine<C>,
    key: Seq<u8>,
    i: usize,
)
    requires
        o.inv(),
        o.reads_own_records(),
        o.head(key) is Ok,
        o.head(key)->Ok_0.2.stream().geometry_ok(),
        o.head(key)->Ok_0.2.stream().n() > 0 ==> o.head(key)->Ok_0.2.stream().fragsize_exp >= 6,
        crate::overlay::pending_of(o.overlay@, o.head(key)->Ok_0.0).len() == 0,
        o.resolve_error(key, o.head(key)->Ok_0.2, Resolution::ChooseStrain(i)) is None,
        o.resolution_fits(key, Resolution::ChooseStrain(i)),
        Engine::<C>::resolution_done(o, e, key, Resolution::ChooseStrain(i)),
    ensures
        e.head(key) is Ok,
        e.full(e.head(key)->Ok_0.2) == o.strain_read(key, i as nat),
        e.strain_read(key, 0) == o.strain_read(key, i as nat),
        i == 0 ==> e.full(e.head(key)->Ok_0.2) == o.full(o.head(key)->Ok_0.2),
        i > 0 ==> {
            let at = o.head(key)->Ok_0.2.strains[i - 1];
            &&& i <= o.head(key)->Ok_0.2.strains.len()
            &&& o.record(at) is Ok
            &&& e.full(e.head(key)->Ok_0.2) == o.full(o.record(at)->Ok_0)
        },
{
    law_resolution_ends_the_conflict(o, e, key, Resolution::ChooseStrain(i));
    assert(e.overlay == o.overlay);
}

/// Merged content makes that content the unit's.
pub proof fn law_merged_content_goes_on<C: Crypto>(
    o: &Engine<C>,
    e: &Engine<C>,
    key: Seq<u8>,
    b: Vec<u8>,
)
    requires
        o.inv(),
        o.reads_own_records(),
        o.head(key) is Ok,
        o.head(key)->Ok_0.2.stream().geometry_ok(),
        o.head(key)->Ok_0.2.stream().n() > 0 ==> o.head(key)->Ok_0.2.stream().fragsize_exp >= 6,
        o.resolve_error(key, o.head(key)->Ok_0.2, Resolution::MergedContent(b)) is None,
        o.resolution_fits(key, Resolution::MergedContent(b)),
        Engine::<C>::resolution_done(o, e, key, Resolution::MergedContent(b)),
    ensures
        e.head(key) is Ok,
        e.full(e.head(key)->Ok_0.2) == Ok::<Seq<u8>, Error>(b@),
{
    law_resolution_ends_the_conflict(o, e, key, Resolution::MergedContent(b));
}

/// The vector of a resolution is the join of all: for every host it has the largest
/// counter that the head or any strain has, and one more for this host.
pub proof fn law_a_resolution_joins_the_vectors<C: Crypto>(
    o: &Engine<C>,
    e: &Engine<C>,
    key: Seq<u8>,
    r: Resolution,
    host: u16,
)
    requires
        o.inv(),
        o.reads_own_records(),
        o.head(key) is Ok,
        o.head(key)->Ok_0.2.stream().geometry_ok(),
        o.head(key)->Ok_0.2.stream().n() > 0 ==> o.head(key)->Ok_0.2.stream().fragsize_exp >= 6,
        o.resolve_error(key, o.head(key)->Ok_0.2, r) is None,
        o.resolution_fits(key, r),
        Engine::<C>::resolution_done(o, e, key, r),
    ensures
        ({
            let m = o.head(key)->Ok_0.2;
            let extra: int = if host == o.local_alias {
                1
            } else {
                0
            };
            let c = vv_get(e.head(key)->Ok_0.2.stream().vv, host);
            &&& c >= vv_get(m.stream().vv, host) + extra
            &&& forall|i: int|
                0 <= i < m.strains.len() && o.record(#[trigger] m.strains[i]) is Ok ==> c >= vv_get(
                    o.record(m.strains[i])->Ok_0.stream().vv,
                    host,
                ) + extra
            &&& c == vv_get(m.stream().vv, host) + extra || exists|i: int|
                0 <= i < m.strains.len() && o.record(#[trigger] m.strains[i]) is Ok && c == vv_get(
                    o.record(m.strains[i])->Ok_0.stream().vv,
                    host,
                ) + extra
        }),
{
    law_resolution_ends_the_conflict(o, e, key, r);
    let m = o.head(key)->Ok_0.2;
    lemma_reached_is_largest(o, m.content_vv(), m.strains, host);
}

proof fn lemma_reached_is_largest<C: Crypto>(
    o: &Engine<C>,
    vv: Seq<(u16, u64)>,
    strains: Seq<u64>,
    host: u16,
)
    ensures
        o.reached(vv, strains, host) >= vv_get(vv, host),
        forall|i: int|
            0 <= i < strains.len() && o.record(#[trigger] strains[i]) is Ok ==> o.reached(
                vv,
                strains,
                host,
            ) >= vv_get(o.record(strains[i])->Ok_0.stream().vv, host),
        o.reached(vv, strains, host) == vv_get(vv, host) || exists|i: int|
            0 <= i < strains.len() && o.record(#[trigger] strains[i]) is Ok && o.reached(
                vv,
                strains,
                host,
            ) == vv_get(o.record(strains[i])->Ok_0.stream().vv, host),
    decreases strains.len(),
{
    if strains.len() > 0 {
        let p = strains.drop_last();
        let n = p.len() as int;
        let c = o.reached(vv, strains, host);
        let c0 = o.reached(vv, p, host);
        lemma_reached_is_largest(o, vv, p, host);
        assert(!crate::vector::vv_has(crate::unit::empty_stream().vv, host));
        assert forall|i: int|
            0 <= i < strains.len() && o.record(#[trigger] strains[i]) is Ok implies c >= vv_get(
            o.record(strains[i])->Ok_0.stream().vv,
            host,
        ) by {
            if i < n {
                assert(p[i] == strains[i]);
            }
        }
        if c == c0 {
            if c0 != vv_get(vv, host) {
                let i = choose|i: int|
                    0 <= i < p.len() && o.record(#[trigger] p[i]) is Ok && c0 == vv_get(
                        o.record(p[i])->Ok_0.stream().vv,
                        host,
                    );
                assert(strains[i] == p[i]);
            }
        } else {
            assert(strains[n] == strains.last());
        }
    }
}

/// A strain is read as its own record holds it; there is none behind the last.
pub proof fn law_strains_are_read<C: Crypto>(e: &Engine<C>, key: Seq<u8>, i: nat)
    requires
        e.head(key) is Ok,
        i > 0,
    ensures
        i > e.head(key)->Ok_0.2.strains.len() ==> e.strain_read(key, i) == Err::<Seq<u8>, Error>(
            Error::NotFound,
        ),
        i <= e.head(key)->Ok_0.2.strains.len() ==> {
            let s = e.record(e.head(key)->Ok_0.2.strains[i - 1]);
            &&& s is Err ==> e.strain_read(key, i) == Err::<Seq<u8>, Error>(s->Err_0)
            &&& s is Ok && s->Ok_0.content is None ==> e.strain_read(key, i) == Err::<
                Seq<u8>,
                Error,
            >(Error::NotFound)
            &&& s is Ok && (exists|f: int|
                0 <= f < s->Ok_0.stream().locations.len() && (
                #[trigger] s->Ok_0.stream().locations[f]).addr == 0
                    && s->Ok_0.stream().locations[f].len == 0) ==> e.strain_read(key, i) == Err::<
                Seq<u8>,
                Error,
            >(Error::NotFound)
            &&& s is Ok && s->Ok_0.content is Some && (forall|f: int|
                0 <= f < s->Ok_0.stream().locations.len() ==> (
                #[trigger] s->Ok_0.stream().locations[f]).addr != 0) ==> e.strain_read(key, i)
                == e.full(s->Ok_0)
        },
{
    if i <= e.head(key)->Ok_0.2.strains.len() {
        let s = e.record(e.head(key)->Ok_0.2.strains[i - 1]);
        if s is Ok {
            let m = s->Ok_0;
            if exists|f: int|
                0 <= f < m.stream().locations.len() && (#[trigger] m.stream().locations[f]).addr
                    == 0 && m.stream().locations[f].len == 0 {
                let f = choose|f: int|
                    0 <= f < m.stream().locations.len() && (
                    #[trigger] m.stream().locations[f]).addr == 0 && m.stream().locations[f].len
                        == 0;
                assert(Engine::<C>::hole_at(m, f));
            }
        }
    }
}

/// What is said of the strains of a unit: the head comes first, then every strain in
/// its place. Each has the vector and the fragment versions of its own record, and
/// its size is the length of what a read of the strain gives.
pub proof fn law_strains_are_described<C: Crypto>(
    e: &Engine<C>,
    m: RecordModel,
    v: Seq<StrainModel>,
    i: int,
)
    requires
        e.strain_infos(m, m.strains.len()) == Ok::<Seq<StrainModel>, Error>(v),
        0 <= i <= m.strains.len(),
    ensures
        v.len() == m.strains.len() + 1,
        i > 0 ==> e.record(m.strains[i - 1]) is Ok,
        ({
            let s = if i == 0 {
                m
            } else {
                e.record(m.strains[i - 1])->Ok_0
            };
            &&& s.content is Some
            &&& v[i].vv == s.content->Some_0.vv
            &&& v[i].frag_versions == s.content->Some_0.unit_map
            &&& v[i].last_frag_length == s.content->Some_0.last_frag_length
            &&& v[i].fragsize_exp == s.content->Some_0.fragsize_exp
            &&& v[i].present.len() == s.stream().locations.len()
            &&& forall|f: int|
                0 <= f < v[i].present.len() ==> #[trigger] v[i].present[f] == !(
                s.stream().locations[f].addr == 0 && s.stream().locations[f].len == 0)
            &&& s.stream().geometry_ok() && e.whole(s) ==> e.full(s) is Ok && e.full(
                s,
            )->Ok_0.len() as u64 == v[i].size
        }),
{
    lemma_described(e, m, m.strains.len(), v);
    let s = if i == 0 {
        m
    } else {
        e.record(m.strains[i - 1])->Ok_0
    };
    if i > 0 {
        assert(described(e, m, i as nat, v[i]));
    }
    lemma_info_fields(i as nat, s, v[i]);
    if s.stream().geometry_ok() && e.whole(s) {
        e.law_full_read_is_the_content(s);
    }
}

proof fn lemma_info_fields(i: nat, s: RecordModel, x: StrainModel)
    requires
        strain_info(i, s) is Ok,
        strain_info(i, s)->Ok_0 == x,
    ensures
        s.content is Some,
        x.vv == s.content->Some_0.vv,
        x.size == s.content->Some_0.size() as u64,
        x.frag_versions == s.content->Some_0.unit_map,
        x.last_frag_length == s.content->Some_0.last_frag_length,
        x.fragsize_exp == s.content->Some_0.fragsize_exp,
        x.present.len() == s.stream().locations.len(),
        forall|f: int|
            0 <= f < x.present.len() ==> #[trigger] x.present[f] == !(
            s.stream().locations[f].addr == 0 && s.stream().locations[f].len == 0),
{
}

spec fn described<C: Crypto>(e: &Engine<C>, m: RecordModel, i: nat, x: StrainModel) -> bool {
    let s = e.record(m.strains[i - 1]);
    s is Ok && strain_info(i, s->Ok_0) is Ok && strain_info(i, s->Ok_0)->Ok_0 == x
}

proof fn lemma_described<C: Crypto>(e: &Engine<C>, m: RecordModel, n: nat, v: Seq<StrainModel>)
    requires
        e.strain_infos(m, n) == Ok::<Seq<StrainModel>, Error>(v),
    ensures
        v.len() == n + 1,
        strain_info(0, m) is Ok,
        strain_info(0, m)->Ok_0 == v[0],
        forall|i: int| 1 <= i < v.len() ==> described(e, m, i as nat, #[trigger] v[i]),
    decreases n,
{
    if n > 0 {
        let w = e.strain_infos(m, (n - 1) as nat)->Ok_0;
        lemma_described(e, m, (n - 1) as nat, w);
        assert forall|i: int| 1 <= i < v.len() implies described(
            e,
            m,
            i as nat,
            #[trigger] v[i],
        ) by {
            if i < w.len() {
                assert(v[i] == w[i]);
            } else {
                assert(i == n);
            }
        }
    }
}

/// A block that the head was waiting for fills its fragment and touches nothing
/// else: versions, vector, strains and signer stay, and every other fragment that
/// could be read reads as before.
pub proof fn law_block_import_fills_one_fragment<C: Crypto>(
    o: &Engine<C>,
    e: &Engine<C>,
    uuid: Uuid,
    frag: u32,
    cipher: Seq<u8>,
    frag_len: u32,
    suite: u8,
)
    requires
        o.inv(),
        o.ids@.contains_key(uuid@),
        o.head_of(uuid@).content is Some,
        frag < o.head_of(uuid@).stream().n(),
        frag == o.head_of(uuid@).stream().n() - 1 ==> frag_len == o.head_of(
            uuid@,
        ).stream().last_frag_length,
        Engine::<C>::block_imported(
            o,
            e,
            uuid,
            frag,
            o.head_of(uuid@).stream().unit_map[frag as int],
            cipher,
            frag_len,
            suite,
            Ok(()),
        ),
    ensures
        ({
            let h0 = o.head_of(uuid@);
            let h1 = e.head_of(uuid@);
            &&& h1.content is Some
            &&& h1.stream() == (StreamModel {
                locations: h0.stream().locations.update(
                    frag as int,
                    h1.stream().locations[frag as int],
                ),
                ..h0.stream()
            })
            &&& h1.stream().locations[frag as int] != hole()
            &&& h1.strains == h0.strains
            &&& h1.meta == h0.meta
            &&& e.unit_signer(uuid@) == o.unit_signer(uuid@)
            &&& forall|g: int|
                0 <= g < h0.stream().n() && g != frag && o.frag(h0, g) is Ok ==> #[trigger] e.frag(
                    h1,
                    g,
                ) == o.frag(h0, g)
        }),
{
    let f = frag as int;
    let h0 = o.head_of(uuid@);
    let h1 = e.head_of(uuid@);
    let addr = o.ids@[uuid@];
    let version = h0.stream().unit_map[f];
    let loc = BlockLoc { addr: (o.slots().len() + 1) as u64, len: cipher.len() as u32 };
    assert(record_ok(o.recs()[addr - 1], addr - 1));
    let w = o.with_block(h0, f, version, loc, frag_len, suite);
    assert(h1 == Engine::<C>::follow_up(w, addr));
    assert(h1.stream().unit_map =~= h0.stream().unit_map);
    assert(payload_of(h1) == payload_of(h0));
    assert(e.trust() == o.trust());
    let n = w.stream().n();
    assert forall|g: int|
        0 <= g < h0.stream().n() && g != frag && o.frag(h0, g) is Ok implies #[trigger] e.frag(
        h1,
        g,
    ) == o.frag(h0, g) by {
        lemma_suites_form(
            o.imported_suites(h0, n, f, suite),
            suite,
            e.header.cipher,
            h1,
            g,
        );
        let at = h0.stream().locations[g];
        assert(h1.stream().locations[g] == at);
        assert(stored_at(o.slots(), at) is Some);
        assert(stored_at(e.slots(), at) == stored_at(o.slots(), at));
    }
}

/// Once all its blocks are there, a unit reads as it does where it came from.
pub proof fn law_complete_units_read_the_same<C: Crypto>(
    a: &Engine<C>,
    m: RecordModel,
    e: &Engine<C>,
    h: RecordModel,
)
    requires
        h.stream().n() == m.stream().n(),
        h.stream().fragsize_exp == m.stream().fragsize_exp,
        h.stream().last_frag_length == m.stream().last_frag_length,
        forall|f: int|
            0 <= f < m.stream().n() ==> #[trigger] e.frag(h, f) == a.frag(m, f)
                && !Engine::<C>::hole_at(h, f) && !Engine::<C>::hole_at(m, f),
    ensures
        e.full(h) == a.full(m),
{
    lemma_complete(a, m, e, h, m.stream().n());
}

proof fn lemma_complete<C: Crypto>(
    a: &Engine<C>,
    m: RecordModel,
    e: &Engine<C>,
    h: RecordModel,
    n: nat,
)
    requires
        n <= m.stream().n(),
        h.stream().n() == m.stream().n(),
        h.stream().fragsize_exp == m.stream().fragsize_exp,
        h.stream().last_frag_length == m.stream().last_frag_length,
        forall|f: int|
            0 <= f < m.stream().n() ==> #[trigger] e.frag(h, f) == a.frag(m, f)
                && !Engine::<C>::hole_at(h, f) && !Engine::<C>::hole_at(m, f),
    ensures
        e.pieces(h, n) == a.pieces(m, n),
    decreases n,
{
    if n > 0 {
        lemma_complete(a, m, e, h, (n - 1) as nat);
        assert(e.frag(h, n - 1) == a.frag(m, n - 1));
        assert(e.piece(h, n - 1) == a.piece(m, n - 1));
    }
}

} // verus!
