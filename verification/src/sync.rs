//! What replicas tell each other about their units, in the clear.
use vstd::arithmetic::power2::pow2;
use vstd::prelude::*;
use vstd::string::StringSliceAdditionalSpecFns;

use crate::block::{dot_seen, frag_bytes, lemma_exp_range, lemma_frag_bytes, lemma_frags};
use crate::bytes::{copy_range, same16};
use crate::catalog::{lemma_map_of, lex_lt};
use crate::crypto::Crypto;
use crate::engine::{record_ok, Engine, RecordSignIntent};
use crate::error::Error;
use crate::import::first_key;
use crate::unit::{
    copy_u64s, empty_content_stream, empty_stream, hole, is_hole, BlockLoc, RecordModel, UnitRecord,
    Uuid,
};
use crate::vector::{vv_get, VersionVector};
use crate::write::{grown_size, touches, write_exp};

verus! {

/// What a replica says of a unit: enough to see which blocks another replica
/// lacks.
#[derive(Debug)]
pub struct UnitSyncState {
    pub uuid: Uuid,
    pub key: Vec<u8>,
    /// The vector of the content, or of the metadata where there is no content.
    pub vv: VersionVector,
    pub frag_versions: Vec<u64>,
    /// Which fragments are stored here.
    pub present: Vec<bool>,
    pub last_frag_length: u32,
    pub fragsize_exp: u8,
}

/// A [`UnitSyncState`] as a value.
#[verifier::ext_equal]
pub struct SyncModel {
    pub uuid: Uuid,
    pub key: Seq<u8>,
    pub vv: Seq<(u16, u64)>,
    pub frag_versions: Seq<u64>,
    pub present: Seq<bool>,
    pub last_frag_length: u32,
    pub fragsize_exp: u8,
}

impl View for UnitSyncState {
    type V = SyncModel;

    open spec fn view(&self) -> SyncModel {
        SyncModel {
            uuid: self.uuid,
            key: self.key@,
            vv: self.vv@,
            frag_versions: self.frag_versions@,
            present: self.present@,
            last_frag_length: self.last_frag_length,
            fragsize_exp: self.fragsize_exp,
        }
    }
}

/// Which locations hold something.
pub open spec fn presence(locs: Seq<BlockLoc>) -> Seq<bool> {
    Seq::new(locs.len(), |i: int| locs[i] != hole())
}

pub fn present_flags(locs: &Vec<BlockLoc>) -> (r: Vec<bool>)
    ensures
        r@ == presence(locs@),
{
    let mut r: Vec<bool> = Vec::new();
    let mut i: usize = 0;
    while i < locs.len()
        invariant
            i <= locs@.len(),
            r@.len() == i,
            forall|k: int| 0 <= k < i ==> #[trigger] r@[k] == presence(locs@)[k],
        decreases locs@.len() - i,
    {
        r.push(!is_hole(locs[i]));
        i = i + 1;
    }
    proof {
        assert(r@ =~= presence(locs@));
    }
    r
}

/// What is said of the unit with head `m`.
pub open spec fn sync_state(key: Seq<u8>, m: RecordModel) -> SyncModel {
    match m.content {
        Some(sm) => SyncModel {
            uuid: m.uuid,
            key,
            vv: sm.vv,
            frag_versions: sm.unit_map,
            present: presence(sm.locations),
            last_frag_length: sm.last_frag_length,
            fragsize_exp: sm.fragsize_exp,
        },
        None => SyncModel {
            uuid: m.uuid,
            key,
            vv: m.meta_vv(),
            frag_versions: Seq::empty(),
            present: Seq::empty(),
            last_frag_length: 0,
            fragsize_exp: 0,
        },
    }
}

fn state_of(key: &[u8], rec: &UnitRecord) -> (r: UnitSyncState)
    ensures
        r@ == sync_state(key@, rec@),
{
    let key: Vec<u8> = copy_range(key, 0, key.len());
    let r: UnitSyncState = match &rec.content {
        Some(sm) => UnitSyncState {
            uuid: rec.uuid,
            key,
            vv: sm.vv.clone(),
            frag_versions: copy_u64s(&sm.unit_map),
            present: present_flags(&sm.locations),
            last_frag_length: sm.last_frag_length,
            fragsize_exp: sm.fragsize_exp,
        },
        None => UnitSyncState {
            uuid: rec.uuid,
            key,
            vv: rec.meta_vector(),
            frag_versions: Vec::new(),
            present: Vec::new(),
            last_frag_length: 0,
            fragsize_exp: 0,
        },
    };
    proof {
        assert(r@ =~= sync_state(key@, rec@));
    }
    r
}

impl<C: Crypto> Engine<C> {
    /// The states of the units behind the given keys; a key whose unit has no
    /// record is passed over.
    pub open spec fn manifest_of(&self, pairs: Seq<(Seq<u8>, Uuid)>) -> Result<Seq<SyncModel>, Error>
        decreases pairs.len(),
    {
        if pairs.len() == 0 {
            Ok(Seq::empty())
        } else {
            match self.manifest_of(pairs.drop_last()) {
                Err(e) => Err(e),
                Ok(s) => match self.known_head(pairs.last().1) {
                    Err(e) => Err(e),
                    Ok(None) => Ok(s),
                    Ok(Some((_, m))) => Ok(s.push(sync_state(pairs.last().0, m))),
                },
            }
        }
    }

    pub open spec fn states_view(v: Seq<UnitSyncState>) -> Seq<SyncModel> {
        Seq::new(v.len(), |i: int| v[i]@)
    }

    proof fn lemma_manifest(&self, pairs: Seq<(Seq<u8>, Uuid)>, i: int)
        requires
            0 <= i <= pairs.len(),
            self.manifest_of(pairs.take(i)) is Err,
        ensures
            self.manifest_of(pairs) == self.manifest_of(pairs.take(i)),
        decreases pairs.len() - i,
    {
        if i < pairs.len() {
            assert(pairs.take(i + 1).drop_last() =~= pairs.take(i));
            self.lemma_manifest(pairs, i + 1);
        } else {
            assert(pairs.take(i) =~= pairs);
        }
    }

    /// What this replica says of all its units, in the order of their keys.
    pub fn sync_manifest(&self) -> (r: Result<Vec<UnitSyncState>, Error>)
        requires
            self.inv(),
        ensures
            match self.manifest_of(self.keys.pairs()) {
                Err(e) => r is Err && r->Err_0 == e,
                Ok(s) => r is Ok && Self::states_view(r->Ok_0@) == s,
            },
    {
        let ghost pairs = self.keys.pairs();
        let n: usize = self.keys.len();
        let mut out: Vec<UnitSyncState> = Vec::new();
        let mut i: usize = 0;
        proof {
            assert(pairs.take(0) =~= Seq::empty());
            assert(Self::states_view(out@) =~= Seq::empty());
        }
        while i < n
            invariant
                self.inv(),
                pairs == self.keys.pairs(),
                n == pairs.len(),
                i <= n,
                self.manifest_of(pairs.take(i as int)) == Ok::<Seq<SyncModel>, Error>(
                    Self::states_view(out@),
                ),
            decreases n - i,
        {
            let (key, uuid): (Vec<u8>, Uuid) = self.keys.pair_at(i);
            proof {
                assert(pairs.take(i + 1).drop_last() =~= pairs.take(i as int));
                assert(pairs.take(i + 1).last() == pairs[i as int]);
            }
            match self.find_known(&uuid) {
                Err(e) => {
                    proof {
                        self.lemma_manifest(pairs, i + 1);
                    }
                    return Err(e);
                },
                Ok(None) => {},
                Ok(Some(h)) => {
                    let ghost before = Self::states_view(out@);
                    let s: UnitSyncState = state_of(key.as_slice(), &h.1);
                    out.push(s);
                    proof {
                        assert(Self::states_view(out@) =~= before.push(s@));
                    }
                },
            }
            i = i + 1;
        }
        proof {
            assert(pairs.take(n as int) =~= pairs);
        }
        Ok(out)
    }

    /// What is said of one unit.
    pub open spec fn state_told(&self, uuid: Uuid) -> Result<Option<SyncModel>, Error> {
        match first_key(self.keys.pairs(), uuid) {
            None => Ok(None),
            Some(key) => match self.known_head(uuid) {
                Err(e) => Err(e),
                Ok(None) => Ok(None),
                Ok(Some((_, m))) => Ok(Some(sync_state(key, m))),
            },
        }
    }

    /// What this replica says of one unit, under its first key. `None` where it
    /// knows no such unit.
    pub fn unit_sync_state(&self, uuid: Uuid) -> (r: Result<Option<UnitSyncState>, Error>)
        requires
            self.inv(),
        ensures
            if !self.ids@.contains_key(uuid@) || first_key(self.keys.pairs(), uuid) is None {
                r == Ok::<Option<UnitSyncState>, Error>(None)
            } else {
                match self.known_head(uuid) {
                    Err(e) => r is Err && r->Err_0 == e,
                    Ok(h) => r is Ok && r->Ok_0 is Some && h is Some && r->Ok_0->Some_0@
                        == sync_state(first_key(self.keys.pairs(), uuid)->Some_0, h->Some_0.1),
                }
            },
            match self.state_told(uuid) {
                Err(e) => r is Err && r->Err_0 == e,
                Ok(None) => r == Ok::<Option<UnitSyncState>, Error>(None),
                Ok(Some(x)) => r is Ok && r->Ok_0 is Some && r->Ok_0->Some_0@ == x,
            },
    {
        if self.ids.get(uuid.as_slice()).is_none() {
            return Ok(None);
        }
        match self.find_first_key(&uuid) {
            None => Ok(None),
            Some(key) => match self.find_known(&uuid) {
                Err(e) => Err(e),
                Ok(None) => Ok(None),
                Ok(Some(h)) => Ok(Some(state_of(key.as_slice(), &h.1))),
            },
        }
    }

    /// The record that a unit starts with when only its identity is known.
    pub open spec fn registered_record(&self, uuid: Uuid) -> RecordModel {
        RecordModel {
            uuid,
            content: Some(empty_stream()),
            meta: None,
            parent: None,
            strains: Seq::empty(),
            content_suite: Some(self.header.content_cipher),
            frag_suites: Seq::empty(),
            signature: None,
            db: None,
            superseded: Seq::empty(),
        }
    }

    /// What registering a unit at `key` does.
    pub open spec fn registered(o: &Self, e: &Self, key: Seq<u8>, uuid: Uuid, r: Result<(), Error>) -> bool {
        let bound = o.keys@.contains_key(key);
        let known = o.ids@.contains_key(uuid@);
        if bound && o.keys@[key] != uuid {
            r == Err::<(), Error>(Error::Integrity) && *e == *o
        } else if bound && known {
            r is Ok && *e == *o
        } else if !known && !o.may_sign() {
            r == Err::<(), Error>(Error::Integrity) && *e == *o
        } else {
            &&& r is Ok
            &&& e.keys@ == o.keys@.insert(key, uuid)
            &&& known ==> e.ids@ == o.ids@ && e.recs() == o.recs()
            &&& !known ==> {
                &&& e.recs() == o.recs().push(o.signed_fresh(o.registered_record(uuid)))
                &&& e.recs().len() <= u64::MAX
                &&& e.ids@ == o.ids@.insert(uuid@, e.recs().len() as u64)
            }
            &&& e.slots() == o.slots()
            &&& Self::past_kept(o, e)
            &&& Self::same_setup(o, e)
            &&& Self::commit_step(o, e)
        }
    }

    /// Binds a path to the unit of another replica, so that its blocks can be
    /// taken in. Doing it again changes nothing.
    pub fn register_unit_uuid(&mut self, path: &str, uuid: Uuid) -> (r: Result<(), Error>)
        requires
            old(self).inv(),
            old(self).header.commit_seq < u64::MAX,
        ensures
            final(self).inv(),
            old(self).recoverable() ==> final(self).recoverable(),
            Self::registered(old(self), final(self), path.spec_bytes(), uuid, r),
    {
        let ghost o = *self;
        let ghost lo = o.slots().len();
        let bound: bool = match self.keys.get(path.as_bytes()) {
            None => false,
            Some(u) => {
                if !same16(&u, &uuid) {
                    return Err(Error::Integrity);
                }
                true
            },
        };
        let known: bool = self.ids.get(uuid.as_slice()).is_some();
        if bound && known {
            return Ok(());
        }
        if !known {
            let rec: UnitRecord = UnitRecord {
                uuid,
                content: Some(empty_content_stream()),
                meta: None,
                parent: None,
                concurrent_strains: Vec::new(),
                content_suite: Some(self.header.content_cipher),
                frag_suites: Vec::new(),
                signature: None,
                db: None,
                superseded: Vec::new(),
            };
            proof {
                assert(rec@ =~= o.registered_record(uuid));
                o.lemma_kept_places(uuid, rec@);
                o.lemma_may_sign(rec@);
            }
            match self.install_head(rec, RecordSignIntent::Fresh, Ghost(lo)) {
                Err(e) => {
                    return Err(e);
                },
                Ok(_) => {},
            }
        }
        if !bound {
            self.keys.put(path.as_bytes(), uuid);
        }
        proof {
            assert(self.keys@ =~= o.keys@.insert(path.spec_bytes(), uuid));
        }
        self.publish();
        Ok(())
    }
}

/// A unit that was registered stays as it is when it is registered again.
pub proof fn law_registering_twice_changes_nothing<C: Crypto>(
    o: &Engine<C>,
    e: &Engine<C>,
    f: &Engine<C>,
    key: Seq<u8>,
    uuid: Uuid,
    r: Result<(), Error>,
)
    requires
        Engine::<C>::registered(o, e, key, uuid, Ok(())),
        Engine::<C>::registered(e, f, key, uuid, r),
    ensures
        r is Ok,
        *f == *e,
{
}

/// A manifest has one entry for every path whose unit has a record, in the order of
/// the paths. An entry speaks of the unit at its path. For content it carries the
/// content's own vector, the version of every fragment, and of each whether it is
/// stored here; without content it carries the vector of the metadata and no
/// fragment.
pub proof fn law_manifest_tells_of_every_unit<C: Crypto>(e: &Engine<C>, s: Seq<SyncModel>)
    requires
        e.inv(),
        e.manifest_of(e.keys.pairs()) == Ok::<Seq<SyncModel>, Error>(s),
    ensures
        forall|i: int|
            0 <= i < s.len() ==> {
                let x = #[trigger] s[i];
                let m = e.recs()[e.ids@[x.uuid@] - 1];
                &&& e.keys@.contains_key(x.key)
                &&& e.keys@[x.key] == x.uuid
                &&& e.ids@.contains_key(x.uuid@)
                &&& e.record(e.ids@[x.uuid@]) == Ok::<RecordModel, Error>(m)
                &&& m.content is Some ==> {
                    let sm = m.content->Some_0;
                    &&& x.vv == sm.vv
                    &&& x.frag_versions == sm.unit_map
                    &&& x.last_frag_length == sm.last_frag_length
                    &&& x.fragsize_exp == sm.fragsize_exp
                    &&& x.present.len() == sm.locations.len()
                    &&& forall|f: int|
                        0 <= f < sm.locations.len() ==> #[trigger] x.present[f]
                            == !(sm.locations[f].addr == 0 && sm.locations[f].len == 0)
                }
                &&& m.content is None ==> {
                    &&& x.frag_versions.len() == 0
                    &&& x.present.len() == 0
                    &&& m.meta is Some ==> x.vv == m.meta->Some_0.vv
                    &&& m.meta is None ==> x.vv.len() == 0
                }
            },
        forall|i: int, j: int| 0 <= i < j < s.len() ==> lex_lt(s[i].key, s[j].key),
        forall|k: Seq<u8>| #[trigger]
            e.keys@.contains_key(k) && e.ids@.contains_key(e.keys@[k]@) ==> exists|i: int|
                0 <= i < s.len() && (#[trigger] s[i]).key == k,
{
    let pairs = e.keys.pairs();
    lemma_map_of(pairs);
    let at = lemma_manifest_entries(e, pairs, s);
    assert forall|k: Seq<u8>| #[trigger]
        e.keys@.contains_key(k) && e.ids@.contains_key(e.keys@[k]@) implies exists|i: int|
        0 <= i < s.len() && (#[trigger] s[i]).key == k by {
        let a = choose|a: int| 0 <= a < pairs.len() && pairs[a].0 == k;
        assert(e.keys@[pairs[a].0] == pairs[a].1);
        let i = choose|i: int| 0 <= i < at.len() && at[i] == a;
        assert(s[i].key == k);
    }
    assert forall|i: int, j: int| 0 <= i < j < s.len() implies lex_lt(s[i].key, s[j].key) by {
        assert(lex_lt(pairs[at[i]].0, pairs[at[j]].0));
    }
    assert forall|i: int| 0 <= i < s.len() implies {
        let x = #[trigger] s[i];
        let m = e.recs()[e.ids@[x.uuid@] - 1];
        &&& e.keys@.contains_key(x.key)
        &&& e.keys@[x.key] == x.uuid
        &&& e.ids@.contains_key(x.uuid@)
        &&& e.record(e.ids@[x.uuid@]) == Ok::<RecordModel, Error>(m)
        &&& x == sync_state(x.key, m)
    } by {
        assert(0 <= at[i] < pairs.len());
    }
}

/// Gives for each entry the place of its pair.
proof fn lemma_manifest_entries<C: Crypto>(
    e: &Engine<C>,
    pairs: Seq<(Seq<u8>, Uuid)>,
    s: Seq<SyncModel>,
) -> (at: Seq<int>)
    requires
        e.inv(),
        e.manifest_of(pairs) == Ok::<Seq<SyncModel>, Error>(s),
    ensures
        at.len() == s.len(),
        forall|i: int| 0 <= i < at.len() ==> 0 <= #[trigger] at[i] < pairs.len(),
        forall|i: int, j: int| 0 <= i < j < at.len() ==> at[i] < at[j],
        forall|i: int|
            0 <= i < at.len() ==> e.ids@.contains_key(pairs[#[trigger] at[i]].1@) && e.record(
                e.ids@[pairs[at[i]].1@],
            ) == Ok::<RecordModel, Error>(e.recs()[e.ids@[pairs[at[i]].1@] - 1]) && s[i]
                == sync_state(pairs[at[i]].0, e.recs()[e.ids@[pairs[at[i]].1@] - 1]) && s[i].uuid
                == pairs[at[i]].1,
        forall|a: int|
            0 <= a < pairs.len() && e.ids@.contains_key((#[trigger] pairs[a]).1@) ==> at.contains(
                a,
            ),
    decreases pairs.len(),
{
    if pairs.len() == 0 {
        Seq::empty()
    } else {
        let front = pairs.drop_last();
        let p = pairs.last();
        let n = front.len() as int;
        let before = e.manifest_of(front)->Ok_0;
        let prev = lemma_manifest_entries(e, front, before);
        if e.ids@.contains_key(p.1@) {
            let addr = e.ids@[p.1@];
            assert(record_ok(e.recs()[addr - 1], addr - 1));
            assert(e.recs()[addr - 1].uuid@ == p.1@);
            assert(e.recs()[addr - 1].uuid =~= p.1);
            let at = prev.push(n);
            assert forall|a: int|
                0 <= a < pairs.len() && e.ids@.contains_key((#[trigger] pairs[a]).1@) implies
                at.contains(a) by {
                if a < n {
                    assert(front[a] == pairs[a]);
                    let j = choose|j: int| 0 <= j < prev.len() && prev[j] == a;
                    assert(at[j] == a);
                } else {
                    assert(at[prev.len() as int] == a);
                }
            }
            at
        } else {
            assert forall|a: int|
                0 <= a < pairs.len() && e.ids@.contains_key((#[trigger] pairs[a]).1@) implies
                prev.contains(a) by {
                assert(front[a] == pairs[a]);
            }
            prev
        }
    }
}

/// A write shows in the manifest: the entry of the unit counts one write more of
/// this host and as many as before of every other, and the written fragments have a
/// version of this host and of that count, and are stored here. The entry of
/// every other unit stays as it was.
pub proof fn law_writes_show_in_the_manifest<C: Crypto>(
    o: &Engine<C>,
    e: &Engine<C>,
    key: Seq<u8>,
    offset: int,
    data: Seq<u8>,
    before: Seq<SyncModel>,
    after: Seq<SyncModel>,
    i: int,
    j: int,
)
    requires
        e.inv(),
        Engine::<C>::wrote_over(o, e, key, offset, data),
        o.head(key)->Ok_0.2.content is Some,
        o.manifest_of(o.keys.pairs()) == Ok::<Seq<SyncModel>, Error>(before),
        e.manifest_of(e.keys.pairs()) == Ok::<Seq<SyncModel>, Error>(after),
        0 <= i < before.len(),
        0 <= j < after.len(),
        before[i].key == after[j].key,
    ensures
        before[i].uuid == after[j].uuid,
        before[i].uuid == o.keys@[key] ==> {
            let host = o.local_alias;
            let count = vv_get(after[j].vv, host);
            &&& count == vv_get(before[i].vv, host) + 1
            &&& forall|h: u16|
                h != host ==> #[trigger] vv_get(after[j].vv, h) == vv_get(before[i].vv, h)
            &&& forall|p: int|
                offset <= p < offset + data.len() && count < 0x1_0000_0000_0000 ==> {
                    let f = #[trigger] (p / pow2(after[j].fragsize_exp as nat) as int);
                    &&& 0 <= f < after[j].frag_versions.len()
                    &&& after[j].frag_versions[f] == count * 0x1_0000 + host
                }
        },
        before[i].uuid != o.keys@[key] ==> after[j] == before[i],
{
    law_manifest_tells_of_every_unit(o, before);
    law_manifest_tells_of_every_unit(e, after);
    Engine::<C>::lemma_head_after_write(o, e, key, offset, data);
    let u = o.keys@[key];
    let x = before[i];
    let y = after[j];
    assert(e.keys@[y.key] == o.keys@[x.key]);
    assert(o.recs()[o.ids@[u@] - 1].uuid =~= u) by {
        let addr = o.ids@[u@];
        assert(record_ok(o.recs()[addr - 1], addr - 1));
    }
    if x.uuid != u {
        assert(x.uuid@ != u@) by {
            if x.uuid@ == u@ {
                assert(x.uuid =~= u);
            }
        }
        let a = o.ids@[x.uuid@];
        assert(e.ids@[x.uuid@] == a);
        assert(record_ok(o.recs()[a - 1], a - 1));
        assert(e.recs().take(o.recs().len() as int)[a - 1] == e.recs()[a - 1]);
        assert(y.vv =~= x.vv);
        assert(y.present =~= x.present);
        assert(y.frag_versions =~= x.frag_versions);
        lemma_one_state(o, before, i);
        lemma_one_state(e, after, j);
    } else {
        let sm = o.head(key)->Ok_0.2.stream();
        let end = (offset + data.len()) as nat;
        let exp = write_exp(sm, end);
        let fs = frag_bytes(exp) as int;
        lemma_exp_range(end, 12, 22);
        lemma_exp_range(grown_size(sm, end), 12, 22);
        lemma_frag_bytes(exp);
        lemma_frags(grown_size(sm, end), exp);
        assert forall|p: int| offset <= p < offset + data.len() implies {
            let f = #[trigger] (p / pow2(exp as nat) as int);
            &&& 0 <= f < y.frag_versions.len()
            &&& touches(sm, offset, end, f)
        } by {
            vstd::arithmetic::div_mod::lemma_div_is_ordered(offset, p, fs);
            vstd::arithmetic::div_mod::lemma_div_is_ordered(p, end - 1, fs);
            vstd::arithmetic::div_mod::lemma_div_pos_is_pos(p, fs);
            vstd::arithmetic::div_mod::lemma_div_is_ordered(
                p,
                grown_size(sm, end) - 1,
                fs,
            );
        }
    }
}

proof fn lemma_one_state<C: Crypto>(e: &Engine<C>, s: Seq<SyncModel>, i: int)
    requires
        e.inv(),
        e.manifest_of(e.keys.pairs()) == Ok::<Seq<SyncModel>, Error>(s),
        0 <= i < s.len(),
    ensures
        s[i] == sync_state(s[i].key, e.recs()[e.ids@[s[i].uuid@] - 1]),
{
    let at = lemma_manifest_entries(e, e.keys.pairs(), s);
    assert(0 <= at[i] < e.keys.pairs().len());
}

/// The vector of an entry knows every version that the entry names.
pub proof fn law_manifest_vectors_know_the_versions<C: Crypto>(
    e: &Engine<C>,
    s: Seq<SyncModel>,
    i: int,
    f: int,
)
    requires
        e.inv(),
        e.manifest_of(e.keys.pairs()) == Ok::<Seq<SyncModel>, Error>(s),
        0 <= i < s.len(),
        e.versions_counted(e.recs()[e.ids@[s[i].uuid@] - 1]),
        0 <= f < s[i].frag_versions.len(),
    ensures
        vv_get(s[i].vv, (s[i].frag_versions[f] % 0x1_0000) as u16) >= s[i].frag_versions[f]
            / 0x1_0000,
{
    law_manifest_tells_of_every_unit(e, s);
    let m = e.recs()[e.ids@[s[i].uuid@] - 1];
    assert(m.content is Some);
    assert(dot_seen(m.stream().vv, m.stream().unit_map[f]));
}

/// What is said of one unit is its entry of the manifest under its first path, and
/// nothing is said of a unit that has none there.
pub proof fn law_one_state_is_that_of_the_manifest<C: Crypto>(
    e: &Engine<C>,
    s: Seq<SyncModel>,
    uuid: Uuid,
)
    requires
        e.inv(),
        e.manifest_of(e.keys.pairs()) == Ok::<Seq<SyncModel>, Error>(s),
    ensures
        e.state_told(uuid) is Ok,
        match e.state_told(uuid)->Ok_0 {
            None => forall|i: int| 0 <= i < s.len() ==> (#[trigger] s[i]).uuid != uuid,
            Some(x) => x.uuid == uuid && exists|i: int|
                0 <= i < s.len() && #[trigger] s[i] == x && forall|j: int|
                    0 <= j < i ==> (#[trigger] s[j]).uuid != uuid,
        },
{
    let pairs = e.keys.pairs();
    lemma_map_of(pairs);
    lemma_first_state(e, pairs, s, uuid);
    law_manifest_tells_of_every_unit(e, s);
    match first_key(pairs, uuid) {
        None => {},
        Some(k) => if e.ids@.contains_key(uuid@) {
            let addr = e.ids@[uuid@];
            assert(record_ok(e.recs()[addr - 1], addr - 1));
            assert(e.recs()[addr - 1].uuid =~= uuid);
        },
    }
}

proof fn lemma_first_state<C: Crypto>(
    e: &Engine<C>,
    pairs: Seq<(Seq<u8>, Uuid)>,
    s: Seq<SyncModel>,
    uuid: Uuid,
)
    requires
        e.inv(),
        e.manifest_of(pairs) == Ok::<Seq<SyncModel>, Error>(s),
    ensures
        first_key(pairs, uuid) is Some ==> e.known_head(uuid) is Ok,
        first_key(pairs, uuid) is Some && e.ids@.contains_key(uuid@) ==> exists|i: int|
            0 <= i < s.len() && #[trigger] s[i] == sync_state(
                first_key(pairs, uuid)->Some_0,
                e.known_head(uuid)->Ok_0->Some_0.1,
            ) && forall|j: int| 0 <= j < i ==> (#[trigger] s[j]).uuid != uuid,
        first_key(pairs, uuid) is None || !e.ids@.contains_key(uuid@) ==> forall|i: int|
            0 <= i < s.len() ==> (#[trigger] s[i]).uuid != uuid,
    decreases pairs.len(),
{
    if pairs.len() > 0 {
        let front = pairs.drop_last();
        let p = pairs.last();
        let before = e.manifest_of(front)->Ok_0;
        lemma_first_state(e, front, before, uuid);
        if e.ids@.contains_key(p.1@) {
            let addr = e.ids@[p.1@];
            assert(record_ok(e.recs()[addr - 1], addr - 1));
            assert(e.recs()[addr - 1].uuid =~= p.1);
            assert(s.last().uuid == p.1);
        }
        if first_key(front, uuid) is Some && e.ids@.contains_key(uuid@) {
            let i = choose|i: int|
                0 <= i < before.len() && #[trigger] before[i] == sync_state(
                    first_key(front, uuid)->Some_0,
                    e.known_head(uuid)->Ok_0->Some_0.1,
                ) && forall|j: int| 0 <= j < i ==> (#[trigger] before[j]).uuid != uuid;
            assert(s[i] == before[i]);
            assert forall|j: int| 0 <= j < i implies (#[trigger] s[j]).uuid != uuid by {
                assert(s[j] == before[j]);
            }
        } else if p.1 == uuid && e.ids@.contains_key(uuid@) {
            let i = before.len() as int;
            assert(s[i] == sync_state(p.0, e.known_head(uuid)->Ok_0->Some_0.1));
            assert forall|j: int| 0 <= j < i implies (#[trigger] s[j]).uuid != uuid by {
                assert(s[j] == before[j]);
            }
        } else {
            assert forall|i: int| 0 <= i < s.len() implies (#[trigger] s[i]).uuid != uuid by {
                if i < before.len() {
                    assert(s[i] == before[i]);
                }
            }
        }
    }
}

} // verus!
