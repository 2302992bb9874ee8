//! Taking in the records of other replicas.
use vstd::prelude::*;

use crate::bytes::{push_zeros, same16, same_bytes};
use crate::crypto::Crypto;
use crate::engine::{
    live, place, places_step, record_ok, signed_record, Container, Engine, RecordSignIntent,
};
use crate::error::Error;
use crate::heap::in_heap;
use crate::merge::{
    conflicts, forward_locations, is_strictly_ahead, keep_forward, loc_at, merge_fragments,
    merged_locations, merged_map, record_view, stream_or_empty, strictly_ahead,
};
use crate::outside::random_bytes;
use crate::projection::{MetaModel, MetaPart, Projection, ProjectionModel};
use crate::resize::suites_form;
use crate::unit::{
    copy_u64s, empty_content_stream, hole, payload_of, BlockLoc, DbHead, RecordModel, StreamMeta,
    StreamModel, UnitRecord, Uuid,
};
use crate::vector::{vv_concurrent, vv_dominates, vv_is_join, vv_ordered, VersionVector};
use crate::writerset::{signer_of, MembershipScope, SignMode};

verus! {

/// The first key, in order, that names a unit.
pub open spec fn first_key(pairs: Seq<(Seq<u8>, Uuid)>, uuid: Uuid) -> Option<Seq<u8>>
    decreases pairs.len(),
{
    if pairs.len() == 0 {
        None
    } else {
        match first_key(pairs.drop_last(), uuid) {
            Some(k) => Some(k),
            None => if pairs.last().1 == uuid {
                Some(pairs.last().0)
            } else {
                None
            },
        }
    }
}

/// A head, or that there is none.
pub type KnownHead = Option<(u64, RecordModel)>;

pub open spec fn head_record(h: KnownHead) -> Option<RecordModel> {
    match h {
        Some(x) => Some(x.1),
        None => None,
    }
}

pub open spec fn head_address(h: KnownHead) -> Option<u64> {
    match h {
        Some(x) => Some(x.0),
        None => None,
    }
}

pub open spec fn head_strains(h: KnownHead) -> Seq<u64> {
    match h {
        Some(x) => x.1.strains,
        None => Seq::empty(),
    }
}

pub open spec fn head_db(h: KnownHead) -> Option<DbHead> {
    match h {
        Some(x) => x.1.db,
        None => None,
    }
}

pub open spec fn carried_signature(p: ProjectionModel) -> Option<[u8; 64]> {
    match p.attest {
        Some(a) => Some(a.signature),
        None => None,
    }
}

impl<C: Crypto> Engine<C> {
    /// The head of a unit, if the unit is known here.
    pub open spec fn known_head(&self, uuid: Uuid) -> Result<KnownHead, Error> {
        if self.ids@.contains_key(uuid@) {
            match self.record(self.ids@[uuid@]) {
                Ok(m) => Ok(Some((self.ids@[uuid@], m))),
                Err(e) => Err(e),
            }
        } else {
            Ok(None)
        }
    }

    /// The paths once `uuid` goes by `key`: a unit that is known here under
    /// another key gives that key up.
    pub open spec fn keys_moved(&self, uuid: Uuid, key: Seq<u8>) -> Map<Seq<u8>, Uuid> {
        let old_key = first_key(self.keys.pairs(), uuid);
        if self.ids@.contains_key(uuid@) && old_key is Some && old_key->Some_0 != key {
            self.keys@.remove(old_key->Some_0)
        } else {
            self.keys@
        }
    }

    /// The head of a unit that moves on to what the projection says.
    pub open spec fn forward_record(&self, uuid: Uuid, h: KnownHead, p: ProjectionModel) -> RecordModel {
        let locations = forward_locations(stream_or_empty(head_record(h)), p.unit_map);
        let form = suites_form(
            self.preserved_suites(head_record(h), locations),
            self.header.content_cipher,
        );
        RecordModel {
            uuid,
            content: Some(
                StreamModel {
                    unit_map: p.unit_map,
                    locations,
                    vv: p.vv,
                    fragsize_exp: p.fragsize_exp,
                    last_frag_length: p.last_frag_length,
                    pins: Seq::empty(),
                },
            ),
            meta: None,
            parent: head_address(h),
            strains: self.kept_strains(head_strains(h), p.vv),
            content_suite: Some(form.0),
            frag_suites: form.1,
            signature: carried_signature(p),
            db: head_db(h),
            superseded: Seq::empty(),
        }
    }

    /// The head that joins the local versions and those of the projection, with
    /// the joined vector `vv`.
    pub open spec fn merged_record(
        &self,
        uuid: Uuid,
        h: KnownHead,
        p: ProjectionModel,
        vv: Seq<(u16, u64)>,
    ) -> RecordModel {
        let sm = stream_or_empty(head_record(h));
        let locations = merged_locations(sm, p.unit_map, p.vv);
        let form = suites_form(
            self.preserved_suites(head_record(h), locations),
            self.header.content_cipher,
        );
        RecordModel {
            uuid,
            content: Some(
                StreamModel {
                    unit_map: merged_map(sm, p.unit_map, p.vv),
                    locations,
                    vv,
                    fragsize_exp: sm.fragsize_exp,
                    last_frag_length: if p.unit_map.len() >= sm.unit_map.len() {
                        p.last_frag_length
                    } else {
                        sm.last_frag_length
                    },
                    pins: Seq::empty(),
                },
            ),
            meta: None,
            parent: head_address(h),
            strains: self.kept_strains(head_strains(h), vv),
            content_suite: Some(form.0),
            frag_suites: form.1,
            signature: None,
            db: None,
            superseded: Seq::empty(),
        }
    }

    /// The projection as a strain beside the head.
    pub open spec fn strain_record(&self, uuid: Uuid, h: KnownHead, p: ProjectionModel) -> RecordModel {
        RecordModel {
            uuid,
            content: Some(
                StreamModel {
                    unit_map: p.unit_map,
                    locations: Seq::new(p.unit_map.len(), |i: int| hole()),
                    vv: p.vv,
                    fragsize_exp: p.fragsize_exp,
                    last_frag_length: p.last_frag_length,
                    pins: Seq::empty(),
                },
            ),
            meta: None,
            parent: head_address(h),
            strains: Seq::empty(),
            content_suite: Some(self.header.content_cipher),
            frag_suites: Seq::empty(),
            signature: carried_signature(p),
            db: None,
            superseded: Seq::empty(),
        }
    }

    /// Strain `addr` has exactly the vector `vv`.
    pub open spec fn strain_has(&self, addr: u64, vv: Seq<(u16, u64)>) -> bool {
        match self.record(addr) {
            Ok(m) => m.content is Some && m.content_vv() == vv,
            Err(_) => false,
        }
    }

    /// The head, or one of its strains, has exactly the vector `vv`.
    pub open spec fn strain_known(&self, m: RecordModel, vv: Seq<(u16, u64)>) -> bool {
        m.content_vv() == vv || exists|i: int|
            0 <= i < m.strains.len() && self.strain_has(#[trigger] m.strains[i], vv)
    }

    /// The head with the strain at `addr` beside it, unless the strain's vector
    /// was there before.
    pub open spec fn split_head(&self, m: RecordModel, addr: u64, vv: Seq<(u16, u64)>) -> RecordModel {
        RecordModel {
            strains: if self.strain_known(m, vv) {
                m.strains
            } else {
                m.strains.push(addr)
            },
            ..m
        }
    }

    /// The head of a unit that has metadata only.
    pub open spec fn meta_only_record(
        &self,
        uuid: Uuid,
        h: KnownHead,
        m: MetaModel,
        loc: BlockLoc,
    ) -> RecordModel {
        RecordModel {
            uuid,
            content: None,
            meta: Some(Self::meta_stream(m.vv, m.version, loc)),
            parent: head_address(h),
            strains: Seq::empty(),
            content_suite: None,
            frag_suites: Seq::empty(),
            signature: None,
            db: head_db(h),
            superseded: Seq::empty(),
        }
    }

    /// The records after the content of a projection was taken in.
    pub open spec fn content_taken(
        o: &Self,
        recs: Seq<RecordModel>,
        uuid: Uuid,
        p: ProjectionModel,
    ) -> bool {
        let h = o.known_head(uuid)->Ok_0;
        let sm = stream_or_empty(head_record(h));
        if !vv_concurrent(sm.vv, p.vv) {
            recs == o.recs().push(o.forward_record(uuid, h, p))
        } else if !conflicts(sm, p.unit_map, p.vv) {
            exists|vv: Seq<(u16, u64)>| #[trigger]
                vv_is_join(sm.vv, p.vv, vv) && recs == o.recs().push(
                    o.signed_fresh(o.merged_record(uuid, h, p, vv)),
                )
        } else {
            recs == o.recs().push(o.strain_record(uuid, h, p)).push(
                o.split_head(h->Some_0.1, (o.recs().len() + 1) as u64, p.vv),
            )
        }
    }

    /// Why the content of a projection cannot be taken in.
    pub open spec fn content_refused(&self, uuid: Uuid, p: ProjectionModel) -> Option<Error> {
        let h = self.known_head(uuid)->Ok_0;
        let sm = stream_or_empty(head_record(h));
        let preserve = |r: RecordModel|
            match signed_record::<C>(
                r,
                self.trust(),
                self.signing_key,
                RecordSignIntent::Preserve,
            ) {
                Ok(_) => None,
                Err(e) => Some(e),
            };
        if !vv_concurrent(sm.vv, p.vv) {
            preserve(self.forward_record(uuid, h, p))
        } else if !conflicts(sm, p.unit_map, p.vv) {
            if self.may_sign() {
                None
            } else {
                Some(Error::Integrity)
            }
        } else {
            preserve(self.strain_record(uuid, h, p))
        }
    }
}


/// A head as read, as a value.
pub open spec fn found_view(h: Option<(u64, UnitRecord)>) -> KnownHead {
    match h {
        Some(x) => Some((x.0, x.1@)),
        None => None,
    }
}

fn found_record(h: &Option<(u64, UnitRecord)>) -> (r: Option<UnitRecord>)
    ensures
        record_view(r) == head_record(found_view(*h)),
{
    match h {
        Some(x) => Some(x.1.clone()),
        None => None,
    }
}

impl<C: Crypto> Engine<C> {
    /// The head of a unit, if the unit is known here.
    pub fn find_known(&self, uuid: &Uuid) -> (r: Result<Option<(u64, UnitRecord)>, Error>)
        requires
            self.inv(),
        ensures
            match self.known_head(*uuid) {
                Err(e) => r == Err::<Option<(u64, UnitRecord)>, Error>(e),
                Ok(h) => r is Ok && found_view(r->Ok_0) == h,
            },
            self.known_head(*uuid) is Ok && self.known_head(*uuid)->Ok_0 is Some ==> {
                let (addr, m) = self.known_head(*uuid)->Ok_0->Some_0;
                &&& in_heap(self.recs(), addr)
                &&& self.recs()[addr - 1] == m
                &&& m.uuid == *uuid
                &&& record_ok(m, addr - 1)
            },
    {
        match self.ids.get(uuid.as_slice()) {
            None => Ok(None),
            Some(addr) => {
                proof {
                    assert(self.ids@.contains_key(uuid@));
                    let ru = self.recs()[addr - 1].uuid;
                    assert(ru@ == uuid@);
                    assert(ru =~= *uuid);
                    assert(record_ok(self.recs()[addr - 1], addr - 1));
                }
                match self.read_record_at(addr) {
                    Err(e) => Err(e),
                    Ok(rec) => Ok(Some((addr, rec))),
                }
            },
        }
    }

    /// A head that keeps blocks only where the present head has them, or has
    /// none, shares no slot.
    pub proof fn lemma_kept_places(&self, uuid: Uuid, r1: RecordModel)
        requires
            self.inv(),
            self.ids@.contains_key(uuid@) || r1.content is None || forall|f: int|
                0 <= f < r1.stream().locations.len() ==> (#[trigger] r1.stream().locations[f]).addr
                    == 0,
            r1.meta is None || self.ids@.contains_key(uuid@) && r1.meta == self.head_of(
                uuid@,
            ).meta,
            r1.content is Some && self.ids@.contains_key(uuid@) ==> forall|f: int|
                0 <= f < r1.stream().locations.len() ==> (#[trigger] r1.stream().locations[f]).addr
                    == 0 || r1.stream().locations[f] == loc_at(
                    self.head_of(uuid@).stream().locations,
                    f,
                ),
        ensures
            places_step(
                self.ids@,
                self.recs(),
                uuid@,
                r1,
                self.slots().len(),
                self.slots().len(),
            ),
    {
        let n = self.slots().len();
        let k = uuid@;
        assert forall|p: int| #[trigger]
            place(r1, p) == 0 || place(r1, p) == live(self.ids@, self.recs(), k, p) || n < place(
                r1,
                p,
            ) <= n by {
            if p >= 0 && r1.content is Some && p < r1.content->Some_0.locations.len() {
                assert(r1.stream().locations[p].addr == place(r1, p));
            }
        }
        assert forall|p: int, q: int|
            #![trigger place(r1, p), place(r1, q)]
            place(r1, p) > n && place(r1, p) == place(r1, q) implies p == q by {
            assert(live(self.ids@, self.recs(), k, p) <= n);
        }
    }

    fn build_forward(&self, uuid: &Uuid, h: &Option<(u64, UnitRecord)>, p: &Projection) -> (r: UnitRecord)
        ensures
            r@ == self.forward_record(*uuid, found_view(*h), p@),
    {
        let existing: Option<UnitRecord> = found_record(h);
        let (sm, parent, strains, db): (StreamMeta, Option<u64>, Vec<u64>, Option<DbHead>) =
            match h {
            None => (empty_content_stream(), None, Vec::new(), None),
            Some(x) => (
                x.1.content_or_empty(),
                Some(x.0),
                self.strains_left(&x.1.concurrent_strains, &p.vv),
                x.1.db,
            ),
        };
        let locations: Vec<BlockLoc> = keep_forward(&sm, &p.unit_map);
        let (suite, frag_suites): (u8, Vec<u8>) = self.preserve_frag_suites(&existing, &locations);
        let r: UnitRecord = UnitRecord {
            uuid: *uuid,
            content: Some(
                StreamMeta {
                    unit_map: copy_u64s(&p.unit_map),
                    locations,
                    vv: p.vv.clone(),
                    fragsize_exp: p.fragsize_exp,
                    last_frag_length: p.last_frag_length,
                    pins: Vec::new(),
                },
            ),
            meta: None,
            parent,
            concurrent_strains: strains,
            content_suite: Some(suite),
            frag_suites,
            signature: match &p.attest {
                None => None,
                Some(a) => Some(a.signature),
            },
            db,
            superseded: Vec::new(),
        };
        proof {
            let want = self.forward_record(*uuid, found_view(*h), p@);
            assert(r@.content->Some_0 =~= want.content->Some_0);
            assert(r@ =~= want);
        }
        r
    }

    fn build_merged(
        &self,
        uuid: &Uuid,
        addr: u64,
        head: &UnitRecord,
        p: &Projection,
        unit_map: Vec<u64>,
        locations: Vec<BlockLoc>,
    ) -> (r: UnitRecord)
        requires
            unit_map@ == merged_map(head@.stream(), p@.unit_map, p@.vv),
            locations@ == merged_locations(head@.stream(), p@.unit_map, p@.vv),
        ensures
            vv_is_join(head@.content_vv(), p@.vv, r@.content_vv()),
            r@ == self.merged_record(*uuid, Some((addr, head@)), p@, r@.content_vv()),
    {
        let sm: StreamMeta = head.content_or_empty();
        let vv: VersionVector = sm.vv.join(&p.vv);
        let strains: Vec<u64> = self.strains_left(&head.concurrent_strains, &vv);
        let existing: Option<UnitRecord> = Some(head.clone());
        let (suite, frag_suites): (u8, Vec<u8>) = self.preserve_frag_suites(&existing, &locations);
        let last: u32 = if p.unit_map.len() >= sm.unit_map.len() {
            p.last_frag_length
        } else {
            sm.last_frag_length
        };
        let r: UnitRecord = UnitRecord {
            uuid: *uuid,
            content: Some(
                StreamMeta {
                    unit_map,
                    locations,
                    vv,
                    fragsize_exp: sm.fragsize_exp,
                    last_frag_length: last,
                    pins: Vec::new(),
                },
            ),
            meta: None,
            parent: Some(addr),
            concurrent_strains: strains,
            content_suite: Some(suite),
            frag_suites,
            signature: None,
            db: None,
            superseded: Vec::new(),
        };
        proof {
            let want = self.merged_record(*uuid, Some((addr, head@)), p@, vv@);
            assert(r@.content->Some_0 =~= want.content->Some_0);
            assert(r@ =~= want);
        }
        r
    }

    fn build_strain(&self, uuid: &Uuid, addr: u64, Ghost(m): Ghost<RecordModel>, p: &Projection) -> (r: UnitRecord)
        ensures
            r@ == self.strain_record(*uuid, Some((addr, m)), p@),
    {
        let mut locations: Vec<BlockLoc> = Vec::new();
        let n: usize = p.unit_map.len();
        let mut i: usize = 0;
        while i < n
            invariant
                i <= n,
                n == p.unit_map@.len(),
                locations@ == Seq::new(i as nat, |k: int| hole()),
            decreases n - i,
        {
            locations.push(BlockLoc { addr: 0, len: 0 });
            i = i + 1;
            proof {
                assert(locations@ =~= Seq::new(i as nat, |k: int| hole()));
            }
        }
        let r: UnitRecord = UnitRecord {
            uuid: *uuid,
            content: Some(
                StreamMeta {
                    unit_map: copy_u64s(&p.unit_map),
                    locations,
                    vv: p.vv.clone(),
                    fragsize_exp: p.fragsize_exp,
                    last_frag_length: p.last_frag_length,
                    pins: Vec::new(),
                },
            ),
            meta: None,
            parent: Some(addr),
            concurrent_strains: Vec::new(),
            content_suite: Some(self.header.content_cipher),
            frag_suites: Vec::new(),
            signature: match &p.attest {
                None => None,
                Some(a) => Some(a.signature),
            },
            db: None,
            superseded: Vec::new(),
        };
        proof {
            let want = self.strain_record(*uuid, Some((addr, m)), p@);
            assert(r@.content->Some_0 =~= want.content->Some_0);
            assert(r@ =~= want);
        }
        r
    }

    fn knows_strain(&self, rec: &UnitRecord, vv: &VersionVector) -> (r: bool)
        ensures
            r == self.strain_known(rec@, vv@),
    {
        let own: VersionVector = rec.vector();
        if own.same(vv) {
            return true;
        }
        let n: usize = rec.concurrent_strains.len();
        let mut i: usize = 0;
        while i < n
            invariant
                n == rec@.strains.len(),
                i <= n,
                forall|k: int| 0 <= k < i ==> !self.strain_has(#[trigger] rec@.strains[k], vv@),
            decreases n - i,
        {
            let addr: u64 = rec.concurrent_strains[i];
            match self.read_record_at(addr) {
                Err(_) => {},
                Ok(s) => {
                    let theirs: VersionVector = s.vector();
                    if s.content.is_some() && theirs.same(vv) {
                        proof {
                            assert(self.strain_has(rec@.strains[i as int], vv@));
                        }
                        return true;
                    }
                },
            }
            i = i + 1;
        }
        false
    }
}


impl<C: Crypto> Engine<C> {
    /// Records were added, the last of which is the head of unit `uuid`.
    pub open spec fn head_moved(o: &Self, e: &Self, uuid: Uuid) -> bool {
        &&& o.recs().len() < e.recs().len() <= u64::MAX
        &&& e.ids@ == o.ids@.insert(uuid@, e.recs().len() as u64)
        &&& e.recs().last().uuid == uuid
        &&& *e == (Engine {
            disk: (Container { records: e.disk.records, ..o.disk }),
            ids: e.ids,
            ..*o
        })
    }

    proof fn lemma_head_ok(&self, uuid: Uuid, h: KnownHead, r: RecordModel)
        requires
            self.inv(),
            self.known_head(uuid) == Ok::<KnownHead, Error>(h),
            r.parent == head_address(h),
            r.content is Some,
            r.content->Some_0.locations.len() == r.content->Some_0.unit_map.len(),
            forall|i: int|
                0 <= i < r.strains.len() ==> head_strains(h).contains(#[trigger] r.strains[i]),
            r.meta is None,
            forall|f: int|
                0 <= f < r.stream().locations.len() ==> (#[trigger] r.stream().locations[f]).addr
                    == 0 || r.stream().locations[f] == loc_at(
                    stream_or_empty(head_record(h)).locations,
                    f,
                ),
        ensures
            record_ok(r, self.recs().len() as int),
            places_step(
                self.ids@,
                self.recs(),
                uuid@,
                r,
                self.slots().len(),
                self.slots().len(),
            ),
    {
        if h is Some {
            assert(self.ids@.contains_key(uuid@));
            assert(record_ok(self.recs()[self.ids@[uuid@] - 1], self.ids@[uuid@] - 1));
        }
        assert forall|j: int| 0 <= j < r.strains.len() implies 1 <= #[trigger] r.strains[j]
            <= self.recs().len() by {
            let s = head_strains(h);
            let i = choose|i: int| 0 <= i < s.len() && s[i] == r.strains[j];
            assert(1 <= s[i] <= self.recs().len());
        }
        self.lemma_kept_places(uuid, r);
    }

    /// Stores the projection beside the head, as a strain of its own.
    fn import_split(
        &mut self,
        uuid: &Uuid,
        addr: u64,
        head: &UnitRecord,
        p: &Projection,
    ) -> (r: Result<(), Error>)
        requires
            old(self).inv(),
            old(self).known_head(*uuid) == Ok::<KnownHead, Error>(Some((addr, head@))),
        ensures
            final(self).inv(),
            old(self).recoverable() ==> final(self).recoverable(),
            match signed_record::<C>(
                old(self).strain_record(*uuid, Some((addr, head@)), p@),
                old(self).trust(),
                old(self).signing_key,
                RecordSignIntent::Preserve,
            ) {
                Err(e) => r == Err::<(), Error>(e) && *final(self) == *old(self),
                Ok(_) => {
                    &&& r is Ok
                    &&& Self::head_moved(old(self), final(self), *uuid)
                    &&& final(self).recs() == old(self).recs().push(
                        old(self).strain_record(*uuid, Some((addr, head@)), p@),
                    ).push(
                        old(self).split_head(head@, (old(self).recs().len() + 1) as u64, p@.vv),
                    )
                },
            },
    {
        let ghost o = *self;
        let ghost h: KnownHead = Some((addr, head@));
        let known: bool = self.knows_strain(head, &p.vv);
        let strain: UnitRecord = self.build_strain(uuid, addr, Ghost(head@), p);
        let ghost m = strain@;
        proof {
            self.lemma_head_ok(*uuid, h, m);
            assert(o.ids@.contains_key(uuid@));
            assert(o.recs()[addr - 1] == head@);
            assert(record_ok(o.recs()[addr - 1], addr - 1));
            let ru = o.recs()[addr - 1].uuid;
            assert(ru@ == uuid@);
            assert(ru =~= *uuid);
        }
        let strain_addr: u64 = match self.write_unit_record(strain, RecordSignIntent::Preserve) {
            Err(e) => {
                return Err(e);
            },
            Ok(a) => a,
        };
        let ghost mid = *self;
        let mut primary: UnitRecord = head.clone();
        if !known {
            primary.concurrent_strains.push(strain_addr);
        }
        proof {
            let want = o.split_head(head@, strain_addr, p@.vv);
            assert(primary@.strains =~= want.strains);
            assert(primary@ =~= want);
            assert(mid.recs()[addr - 1] == head@);
            assert(payload_of(primary@) == payload_of(head@));
            mid.lemma_kept_places(*uuid, primary@);
            assert(signed_record::<C>(
                primary@,
                mid.trust(),
                mid.signing_key,
                RecordSignIntent::Preserve,
            ) == Ok::<RecordModel, Error>(primary@));
            assert forall|j: int| 0 <= j < want.strains.len() implies 1 <= #[trigger] want.strains[j]
                <= mid.recs().len() by {
                if j < head@.strains.len() {
                    assert(want.strains[j] == head@.strains[j]);
                }
            }
            assert(record_ok(primary@, mid.recs().len() as int));
        }
        let ghost lo = o.slots().len();
        match self.install_head(primary, RecordSignIntent::Preserve, Ghost(lo)) {
            Err(e) => Err(e),
            Ok(_) => Ok(()),
        }
    }

    /// Takes in the content of a projection that the local head does not contain.
    fn import_content(
        &mut self,
        uuid: &Uuid,
        h: &Option<(u64, UnitRecord)>,
        p: &Projection,
    ) -> (r: Result<(), Error>)
        requires
            old(self).inv(),
            old(self).known_head(*uuid) == Ok::<KnownHead, Error>(found_view(*h)),
        ensures
            final(self).inv(),
            old(self).recoverable() ==> final(self).recoverable(),
            match old(self).content_refused(*uuid, p@) {
                Some(e) => r == Err::<(), Error>(e) && *final(self) == *old(self),
                None => {
                    &&& r is Ok
                    &&& Self::head_moved(old(self), final(self), *uuid)
                    &&& Self::content_taken(old(self), final(self).recs(), *uuid, p@)
                },
            },
    {
        let ghost o = *self;
        let ghost k = found_view(*h);
        let ghost lo = o.slots().len();
        let sm: StreamMeta = match h {
            None => empty_content_stream(),
            Some(x) => x.1.content_or_empty(),
        };
        if !sm.vv.concurrent_with(&p.vv) {
            let rec: UnitRecord = self.build_forward(uuid, h, p);
            proof {
                self.lemma_kept_strains(head_strains(k), p@.vv);
                self.lemma_head_ok(*uuid, k, rec@);
            }
            return match self.install_head(rec, RecordSignIntent::Preserve, Ghost(lo)) {
                Err(e) => Err(e),
                Ok(_) => Ok(()),
            };
        }
        let (addr, head): (u64, &UnitRecord) = match h {
            None => {
                proof {
                    assert(forall|x: u16| crate::vector::vv_get(sm@.vv, x) == 0);
                }
                return Err(Error::Integrity);
            },
            Some(x) => (x.0, &x.1),
        };
        let (conflict, map, locs): (bool, Vec<u64>, Vec<BlockLoc>) = merge_fragments(
            &sm,
            &p.unit_map,
            &p.vv,
        );
        if conflict {
            return self.import_split(uuid, addr, head, p);
        }
        let rec: UnitRecord = self.build_merged(uuid, addr, head, p, map, locs);
        let ghost m = rec@;
        proof {
            self.lemma_kept_strains(head_strains(k), m.content_vv());
            self.lemma_head_ok(*uuid, k, m);
            self.lemma_may_sign(m);
        }
        match self.install_head(rec, RecordSignIntent::Fresh, Ghost(lo)) {
            Err(e) => Err(e),
            Ok(_) => {
                proof {
                    assert(vv_is_join(head@.content_vv(), p@.vv, m.content_vv()));
                    assert(self.recs() == o.recs().push(o.signed_fresh(m)));
                }
                Ok(())
            },
        }
    }
}


impl<C: Crypto> Engine<C> {
    /// The slot that metadata of a projection was put in.
    pub open spec fn meta_slot(e: &Self) -> BlockLoc {
        BlockLoc { addr: e.slots().len() as u64, len: e.slots().last().len() as u32 }
    }

    /// The slots after metadata of a projection was stored.
    pub open spec fn meta_stored(o: &Self, e: &Self, uuid: Uuid, m: MetaModel, nonce: Seq<u8>) -> bool {
        &&& o.slots().len() < u64::MAX
        &&& e.slots() == o.slots().push(
            o.meta_block(uuid, (o.slots().len() + 1) as u64, m.version, nonce, m.plain),
        )
    }

    /// Gives the head of a unit the metadata that came with a projection.
    fn attach_meta(&mut self, uuid: &Uuid, m: &MetaPart, nonce: &[u8])
        requires
            old(self).inv(),
            old(self).ids@.contains_key(uuid@),
            old(self).header.sign_mode == SignMode::Unsigned,
            nonce@.len() == 12,
            m@.plain.len() + 28 <= u32::MAX,
        ensures
            final(self).inv(),
            old(self).recoverable() ==> final(self).recoverable(),
            strictly_ahead(old(self).head_of(uuid@).meta_vv(), m@.vv) ==> *final(self) == *old(
                self,
            ),
            !strictly_ahead(old(self).head_of(uuid@).meta_vv(), m@.vv) ==> {
                &&& Self::meta_stored(old(self), final(self), *uuid, m@, nonce@)
                &&& final(self).recs().len() <= u64::MAX
                &&& final(self).recs() == old(self).recs().push(
                    RecordModel {
                        meta: Some(
                            Self::meta_stream(m@.vv, m@.version, Self::meta_slot(final(self))),
                        ),
                        ..old(self).head_of(uuid@)
                    },
                )
                &&& final(self).ids@ == old(self).ids@.insert(
                    uuid@,
                    final(self).recs().len() as u64,
                )
                &&& *final(self) == (Engine {
                    disk: (Container {
                        records: final(self).disk.records,
                        blocks: final(self).disk.blocks,
                        ..old(self).disk
                    }),
                    ids: final(self).ids,
                    ..*old(self)
                })
            },
    {
        let ghost o = *self;
        let ghost lo = o.slots().len();
        let found: Result<Option<(u64, UnitRecord)>, Error> = self.find_known(uuid);
        let mut rec: UnitRecord = match found {
            Ok(Some(x)) => x.1,
            _ => {
                return;
            },
        };
        proof {
            assert(rec@ == o.head_of(uuid@));
        }
        let local: VersionVector = rec.meta_vector();
        if is_strictly_ahead(&local, &m.vv) {
            return;
        }
        let sm: StreamMeta = self.stage_meta(uuid, m.plain.as_slice(), m.version, m.vv.clone(), nonce);
        let ghost mid = *self;
        let ghost r0 = rec@;
        rec.meta = Some(sm);
        let ghost r1 = rec@;
        proof {
            assert(r0.uuid == *uuid);
            Self::lemma_meta_places(&o, &mid, r0, r1);
            assert(record_ok(r1, mid.recs().len() as int));
            assert(signed_record::<C>(
                r1,
                mid.trust(),
                mid.signing_key,
                RecordSignIntent::Fresh,
            ) == Ok::<RecordModel, Error>(r1));
            assert forall|a: u64| #[trigger] mid.dirty@.contains(a) implies a <= lo by {
                assert(in_heap(o.slots(), a));
            }
        }
        let done: Result<u64, Error> = self.install_head(rec, RecordSignIntent::Fresh, Ghost(lo));
        proof {
            assert(done is Ok);
            assert(r1 == (RecordModel {
                meta: Some(Self::meta_stream(m@.vv, m@.version, Self::meta_slot(&*self))),
                ..r0
            }));
        }
    }

    /// What taking in a unit that has metadata only does to records and slots.
    pub open spec fn meta_only_taken(
        o: &Self,
        e: &Self,
        uuid: Uuid,
        m: MetaModel,
        nonce: Seq<u8>,
    ) -> bool {
        let h = o.known_head(uuid)->Ok_0;
        if strictly_ahead(local_meta_vv(h), m.vv) {
            e.recs() == o.recs() && e.slots() == o.slots() && e.ids@ == o.ids@
        } else {
            &&& Self::meta_stored(o, e, uuid, m, nonce)
            &&& e.recs().len() <= u64::MAX
            &&& e.recs() == o.recs().push(
                o.signed_fresh(o.meta_only_record(uuid, h, m, Self::meta_slot(e))),
            )
            &&& e.ids@ == o.ids@.insert(uuid@, e.recs().len() as u64)
        }
    }

    /// Takes in a unit that has metadata only.
    fn import_meta_only(
        &mut self,
        uuid: &Uuid,
        h: &Option<(u64, UnitRecord)>,
        m: &MetaPart,
        nonce: &[u8],
    ) -> (r: Result<(), Error>)
        requires
            old(self).inv(),
            old(self).known_head(*uuid) == Ok::<KnownHead, Error>(found_view(*h)),
            nonce@.len() == 12,
            m@.plain.len() + 28 <= u32::MAX,
        ensures
            final(self).inv(),
            old(self).recoverable() ==> final(self).recoverable(),
            *final(self) == (Engine {
                disk: (Container {
                    records: final(self).disk.records,
                    blocks: final(self).disk.blocks,
                    ..old(self).disk
                }),
                ids: final(self).ids,
                ..*old(self)
            }),
            if !strictly_ahead(local_meta_vv(found_view(*h)), m@.vv) && !old(self).may_sign() {
                &&& r == Err::<(), Error>(Error::Integrity)
                &&& final(self).recs() == old(self).recs()
                &&& final(self).ids == old(self).ids
            } else {
                r is Ok && Self::meta_only_taken(old(self), final(self), *uuid, m@, nonce@)
            },
    {
        let ghost o = *self;
        let ghost k = found_view(*h);
        let ghost lo = o.slots().len();
        let (local, parent, db): (VersionVector, Option<u64>, Option<DbHead>) = match h {
            None => (VersionVector::new(), None, None),
            Some(x) => (x.1.meta_vector(), Some(x.0), x.1.db),
        };
        if is_strictly_ahead(&local, &m.vv) {
            return Ok(());
        }
        let sm: StreamMeta = self.stage_meta(uuid, m.plain.as_slice(), m.version, m.vv.clone(), nonce);
        let ghost mid = *self;
        let rec: UnitRecord = UnitRecord {
            uuid: *uuid,
            content: None,
            meta: Some(sm),
            parent,
            concurrent_strains: Vec::new(),
            content_suite: None,
            frag_suites: Vec::new(),
            signature: None,
            db,
            superseded: Vec::new(),
        };
        let ghost r1 = rec@;
        proof {
            assert(r1 =~= o.meta_only_record(*uuid, k, m@, Self::meta_slot(&mid)));
            assert forall|p: int| #[trigger]
                place(r1, p) == 0 || place(r1, p) == live(o.ids@, o.recs(), uuid@, p) || lo < place(
                    r1,
                    p,
                ) <= mid.slots().len() by {}
            assert forall|p: int, q: int|
                #![trigger place(r1, p), place(r1, q)]
                place(r1, p) > lo && place(r1, p) == place(r1, q) implies p == q by {}
            assert forall|a: u64| #[trigger] mid.dirty@.contains(a) implies a <= lo by {
                assert(in_heap(o.slots(), a));
            }
            if k is Some {
                assert(o.ids@.contains_key(uuid@));
            }
            o.lemma_may_sign(r1);
            mid.lemma_may_sign(r1);
        }
        match self.install_head(rec, RecordSignIntent::Fresh, Ghost(lo)) {
            Err(e) => Err(e),
            Ok(_) => Ok(()),
        }
    }

    /// The first key, in order, that names a unit.
    pub fn find_first_key(&self, uuid: &Uuid) -> (r: Option<Vec<u8>>)
        ensures
            match first_key(self.keys.pairs(), *uuid) {
                None => r is None,
                Some(k) => r is Some && r->Some_0@ == k,
            },
    {
        let ghost pairs = self.keys.pairs();
        let n: usize = self.keys.len();
        let mut i: usize = 0;
        let mut stale: Option<Vec<u8>> = None;
        proof {
            assert(pairs.take(0) =~= Seq::empty());
        }
        while i < n && stale.is_none()
            invariant
                pairs == self.keys.pairs(),
                n == pairs.len(),
                i <= n,
                stale is None ==> first_key(pairs.take(i as int), *uuid) is None,
                stale is Some ==> first_key(pairs, *uuid) == Some(stale->Some_0@),
            decreases n - i,
        {
            let (k, u): (Vec<u8>, Uuid) = self.keys.pair_at(i);
            proof {
                assert(pairs.take(i + 1).drop_last() =~= pairs.take(i as int));
                assert(pairs.take(i + 1).last() == pairs[i as int]);
            }
            if same16(&u, uuid) {
                proof {
                    lemma_first_key(pairs, *uuid, i + 1);
                }
                stale = Some(k);
            }
            i = i + 1;
        }
        proof {
            assert(pairs.take(n as int) =~= pairs);
        }
        stale
    }

    /// Drops the key that a known unit has here, where it comes in under another.
    fn move_key(&mut self, uuid: &Uuid, key: &[u8])
        requires
            old(self).inv(),
        ensures
            final(self).inv(),
            old(self).recoverable() ==> final(self).recoverable(),
            *final(self) == (Engine { keys: final(self).keys, ..*old(self) }),
            final(self).keys@ == match first_key(old(self).keys.pairs(), *uuid) {
                None => old(self).keys@,
                Some(k) => if k != key@ {
                    old(self).keys@.remove(k)
                } else {
                    old(self).keys@
                },
            },
    {
        let stale: Option<Vec<u8>> = self.find_first_key(uuid);
        match stale {
            None => {},
            Some(k) => {
                if !same_bytes(k.as_slice(), key) {
                    self.keys.remove(k.as_slice());
                }
            },
        }
    }
}

proof fn lemma_first_key(pairs: Seq<(Seq<u8>, Uuid)>, uuid: Uuid, i: int)
    requires
        0 <= i <= pairs.len(),
        first_key(pairs.take(i), uuid) is Some,
    ensures
        first_key(pairs, uuid) == first_key(pairs.take(i), uuid),
    decreases pairs.len() - i,
{
    if i < pairs.len() {
        assert(pairs.take(i + 1).drop_last() =~= pairs.take(i));
        lemma_first_key(pairs, uuid, i + 1);
    } else {
        assert(pairs.take(i) =~= pairs);
    }
}

/// The vector of the local metadata, empty without any.
pub open spec fn local_meta_vv(h: KnownHead) -> Seq<(u16, u64)> {
    match h {
        Some(x) => x.1.meta_vv(),
        None => Seq::empty(),
    }
}


impl<C: Crypto> Engine<C> {
    /// The local content contains all that the projection says.
    pub open spec fn outdated(&self, uuid: Uuid, p: ProjectionModel) -> bool {
        p.has_content && strictly_ahead(
            stream_or_empty(head_record(self.known_head(uuid)->Ok_0)).vv,
            p.vv,
        )
    }

    /// Why a projection cannot be taken in.
    pub open spec fn projection_refused(&self, uuid: Uuid, p: ProjectionModel) -> Option<Error> {
        if !p.has_content && p.meta is None {
            Some(Error::Integrity)
        } else {
            match self.known_head(uuid) {
                Err(e) => Some(e),
                Ok(h) => if !p.has_content {
                    if !strictly_ahead(local_meta_vv(h), p.meta->Some_0.vv) && !self.may_sign() {
                        Some(Error::Integrity)
                    } else {
                        None
                    }
                } else if self.outdated(uuid, p) {
                    None
                } else {
                    self.content_refused(uuid, p)
                },
            }
        }
    }

    /// The metadata of the projection goes on top of head `m`.
    pub open spec fn meta_applies(&self, p: ProjectionModel, m: RecordModel) -> bool {
        self.header.sign_mode == SignMode::Unsigned && p.meta is Some && !strictly_ahead(
            m.meta_vv(),
            p.meta->Some_0.vv,
        )
    }

    /// What taking in a projection does to records, heads and slots.
    pub open spec fn projection_taken(
        o: &Self,
        e: &Self,
        uuid: Uuid,
        p: ProjectionModel,
        nonce: Seq<u8>,
    ) -> bool {
        if !p.has_content {
            Self::meta_only_taken(o, e, uuid, p.meta->Some_0, nonce)
        } else if o.outdated(uuid, p) {
            e.recs() == o.recs() && e.slots() == o.slots() && e.ids@ == o.ids@
        } else {
            &&& e.recs().len() <= u64::MAX
            &&& e.ids@ == o.ids@.insert(uuid@, e.recs().len() as u64)
            &&& exists|recs: Seq<RecordModel>| #[trigger]
                Self::content_taken(o, recs, uuid, p) && if o.meta_applies(p, recs.last()) {
                    &&& Self::meta_stored(o, e, uuid, p.meta->Some_0, nonce)
                    &&& e.recs() == recs.push(
                        RecordModel {
                            meta: Some(
                                Self::meta_stream(
                                    p.meta->Some_0.vv,
                                    p.meta->Some_0.version,
                                    Self::meta_slot(e),
                                ),
                            ),
                            ..recs.last()
                        },
                    )
                } else {
                    e.recs() == recs && e.slots() == o.slots()
                }
        }
    }

    fn take_projection(&mut self, uuid: &Uuid, p: &Projection, nonce: &[u8]) -> (r: Result<
        bool,
        Error,
    >)
        requires
            old(self).inv(),
            nonce@.len() == 12,
            p@.meta is Some ==> p@.meta->Some_0.plain.len() + 28 <= u32::MAX,
        ensures
            final(self).inv(),
            old(self).recoverable() ==> final(self).recoverable(),
            *final(self) == (Engine {
                disk: (Container {
                    records: final(self).disk.records,
                    blocks: final(self).disk.blocks,
                    ..old(self).disk
                }),
                ids: final(self).ids,
                ..*old(self)
            }),
            match old(self).projection_refused(*uuid, p@) {
                Some(e) => {
                    &&& r == Err::<bool, Error>(e)
                    &&& final(self).recs() == old(self).recs()
                    &&& final(self).ids == old(self).ids
                },
                None => {
                    &&& r == Ok::<bool, Error>(!old(self).outdated(*uuid, p@))
                    &&& Self::projection_taken(old(self), final(self), *uuid, p@, nonce@)
                    &&& old(self).outdated(*uuid, p@) ==> *final(self) == *old(self)
                },
            },
    {
        let ghost o = *self;
        if !p.has_content && p.meta.is_none() {
            return Err(Error::Integrity);
        }
        let h: Option<(u64, UnitRecord)> = match self.find_known(uuid) {
            Err(e) => {
                return Err(e);
            },
            Ok(h) => h,
        };
        if !p.has_content {
            return match &p.meta {
                None => Err(Error::Integrity),
                Some(m) => match self.import_meta_only(uuid, &h, m, nonce) {
                    Err(e) => Err(e),
                    Ok(()) => Ok(true),
                },
            };
        }
        let local: VersionVector = match &h {
            None => VersionVector::new(),
            Some(x) => x.1.vector(),
        };
        if is_strictly_ahead(&local, &p.vv) {
            return Ok(false);
        }
        match self.import_content(uuid, &h, p) {
            Err(e) => {
                return Err(e);
            },
            Ok(()) => {},
        }
        let ghost mid = *self;
        proof {
            assert(Self::content_taken(&o, mid.recs(), *uuid, p@));
            assert(mid.ids@.contains_key(uuid@));
            assert(mid.head_of(uuid@) == mid.recs().last());
        }
        match self.header.sign_mode {
            SignMode::Unsigned => match &p.meta {
                None => {},
                Some(m) => {
                    self.attach_meta(uuid, m, nonce);
                    proof {
                        assert(self.ids@ =~= o.ids@.insert(uuid@, self.recs().len() as u64));
                    }
                },
            },
            _ => {},
        }
        Ok(true)
    }

    /// Why received bytes cannot be imported.
    pub open spec fn import_refused(&self, b: Seq<u8>) -> Option<Error> {
        match self.incoming(b) {
            None => Some(Error::Integrity),
            Some((uuid, p)) => if self.keys@.contains_key(p.key) && self.keys@[p.key] != uuid {
                Some(Error::Integrity)
            } else {
                self.projection_refused(uuid, p)
            },
        }
    }

    /// What an import that succeeded did.
    pub open spec fn imported(o: &Self, e: &Self, uuid: Uuid, p: ProjectionModel, nonce: Seq<u8>) -> bool {
        &&& e.keys@ == o.keys_moved(uuid, p.key).insert(p.key, uuid)
        &&& Self::same_setup(o, e)
        &&& Self::past_kept(o, e)
        &&& Self::projection_taken(o, e, uuid, p, nonce)
        &&& if o.outdated(uuid, p) && o.keys@.contains_key(p.key) {
            *e == (Engine { keys: e.keys, ..*o })
        } else {
            Self::commit_step(o, e)
        }
    }

    /// Nothing of a refused import is left but perhaps that the unit gave its
    /// key up, uncommitted.
    pub open spec fn import_undone(o: &Self, e: &Self, b: Seq<u8>) -> bool {
        &&& Self::nothing_installed(&(Engine { keys: e.keys, ..*o }), e)
        &&& match o.incoming(b) {
            None => e.keys@ == o.keys@,
            Some((uuid, p)) => if o.keys@.contains_key(p.key) && o.keys@[p.key] != uuid {
                e.keys@ == o.keys@
            } else {
                e.keys@ == o.keys_moved(uuid, p.key)
            },
        }
    }

    pub open spec fn import_step(
        o: &Self,
        e: &Self,
        b: Seq<u8>,
        nonce: Seq<u8>,
        r: Result<Uuid, Error>,
    ) -> bool {
        match o.import_refused(b) {
            Some(err) => r == Err::<Uuid, Error>(err) && Self::import_undone(o, e, b),
            None => r == Ok::<Uuid, Error>(o.incoming(b)->Some_0.0) && Self::imported(
                o,
                e,
                o.incoming(b)->Some_0.0,
                o.incoming(b)->Some_0.1,
                nonce,
            ),
        }
    }

    /// Imports a record, sealing its metadata with the given nonce.
    pub fn import_record_with(&mut self, opaque: &[u8], nonce: &[u8]) -> (r: Result<Uuid, Error>)
        requires
            old(self).inv(),
            old(self).header.commit_seq < u64::MAX,
            nonce@.len() == 12,
            opaque@.len() + 28 <= u32::MAX,
        ensures
            final(self).inv(),
            old(self).recoverable() ==> final(self).recoverable(),
            Self::import_step(old(self), final(self), opaque@, nonce@, r),
    {
        let ghost o = *self;
        let (uuid, p): (Uuid, Projection) = match self.open_incoming(opaque) {
            Err(e) => {
                return Err(e);
            },
            Ok(x) => x,
        };
        let bound: bool = match self.keys.get(p.key.as_slice()) {
            None => false,
            Some(u) => {
                if !same16(&u, &uuid) {
                    return Err(Error::Integrity);
                }
                true
            },
        };
        let known: bool = self.ids.get(uuid.as_slice()).is_some();
        proof {
            self.lemma_incoming_len(opaque@);
        }
        let taken: Result<bool, Error> = self.take_projection(&uuid, &p, nonce);
        if known {
            self.move_key(&uuid, p.key.as_slice());
        }
        let ghost moved = *self;
        let fresh: bool = match taken {
            Err(e) => {
                return Err(e);
            },
            Ok(f) => f,
        };
        if !bound {
            self.keys.put(p.key.as_slice(), uuid);
        }
        proof {
            assert(self.keys@ =~= o.keys_moved(uuid, p@.key).insert(p@.key, uuid));
        }
        if fresh || !bound {
            self.publish();
        }
        Ok(uuid)
    }

    /// No metadata is longer than what it came in.
    proof fn lemma_incoming_len(&self, b: Seq<u8>)
        requires
            self.incoming(b) is Some,
        ensures
            self.incoming(b)->Some_0.1.meta is Some ==> self.incoming(
                b,
            )->Some_0.1.meta->Some_0.plain.len() <= b.len(),
    {
        if b.len() >= 28 {
            C::lemma_meta_opened_len(
                self.root_key,
                b.subrange(16, 28),
                crate::transport::projection_aad(self.unwrapped(b)->Some_0.0),
                b.subrange(28, b.len() as int),
            );
        }
    }

    /// What was received can be opened, its key is free or its own, and it brings
    /// metadata that has to be sealed.
    pub open spec fn seals_incoming(&self, b: Seq<u8>) -> bool {
        match self.incoming(b) {
            None => false,
            Some((uuid, p)) => p.meta is Some && (self.keys@.contains_key(p.key)
                ==> self.keys@[p.key] == uuid),
        }
    }

    /// Imports the record of another replica: creates the unit, moves it on,
    /// merges concurrent changes, or keeps both sides where they conflict.
    pub fn import_record(&mut self, opaque: &[u8]) -> (r: Result<Uuid, Error>)
        requires
            old(self).inv(),
            old(self).header.commit_seq < u64::MAX,
            opaque@.len() + 28 <= u32::MAX,
        ensures
            final(self).inv(),
            old(self).recoverable() ==> final(self).recoverable(),
            r == Err::<Uuid, Error>(Error::Entropy) && *final(self) == *old(self) && old(
                self,
            ).seals_incoming(opaque@) || exists|nonce: Seq<u8>|
                nonce.len() == 12 && #[trigger] Self::import_step(
                    old(self),
                    final(self),
                    opaque@,
                    nonce,
                    r,
                ),
    {
        let needed: bool = match self.open_incoming(opaque) {
            Err(_) => false,
            Ok((uuid, p)) => p.meta.is_some() && match self.keys.get(p.key.as_slice()) {
                None => true,
                Some(u) => same16(&u, &uuid),
            },
        };
        let mut nonce: Vec<u8> = Vec::new();
        if needed {
            match random_bytes(12) {
                None => {
                    return Err(Error::Entropy);
                },
                Some(n) => {
                    nonce = n;
                },
            }
        } else {
            push_zeros(&mut nonce, 12);
        }
        self.import_record_with(opaque, nonce.as_slice())
    }
}


// ── Laws ────────────────────────────────────────────────────────────────────

/// Importing never takes a unit back: the vector of its head dominates the one
/// that it had.
pub proof fn law_import_never_goes_back<C: Crypto>(
    o: &Engine<C>,
    e: &Engine<C>,
    uuid: Uuid,
    p: ProjectionModel,
    nonce: Seq<u8>,
)
    requires
        o.inv(),
        p.has_content,
        o.projection_refused(uuid, p) is None,
        Engine::<C>::projection_taken(o, e, uuid, p, nonce),
        o.ids@.contains_key(uuid@),
    ensures
        e.ids@.contains_key(uuid@),
        vv_dominates(e.head_of(uuid@).content_vv(), o.head_of(uuid@).content_vv()),
{
    lemma_import_head(o, e, uuid, p, nonce);
}

/// What the new head of an imported unit is.
proof fn lemma_import_head<C: Crypto>(
    o: &Engine<C>,
    e: &Engine<C>,
    uuid: Uuid,
    p: ProjectionModel,
    nonce: Seq<u8>,
)
    requires
        o.inv(),
        p.has_content,
        o.projection_refused(uuid, p) is None,
        Engine::<C>::projection_taken(o, e, uuid, p, nonce),
    ensures
        e.ids@.contains_key(uuid@) || o.outdated(uuid, p),
        o.outdated(uuid, p) ==> e.recs() == o.recs() && e.ids@ == o.ids@,
        !o.outdated(uuid, p) ==> {
            let sm = stream_or_empty(head_record(o.known_head(uuid)->Ok_0));
            let h = e.head_of(uuid@);
            &&& o.recs().len() < e.recs().len()
            &&& e.recs().take(o.recs().len() as int) =~= o.recs()
            &&& if !vv_concurrent(sm.vv, p.vv) {
                h.content_vv() == p.vv && vv_dominates(p.vv, sm.vv)
            } else if !conflicts(sm, p.unit_map, p.vv) {
                vv_is_join(sm.vv, p.vv, h.content_vv())
            } else {
                let m = o.known_head(uuid)->Ok_0->Some_0.1;
                &&& h.content_vv() == sm.vv
                &&& h.strains == o.split_head(m, (o.recs().len() + 1) as u64, p.vv).strains
                &&& o.known_head(uuid)->Ok_0 is Some
                &&& e.recs()[o.recs().len() as int] == o.strain_record(
                    uuid,
                    o.known_head(uuid)->Ok_0,
                    p,
                )
            }
        },
{
    if !o.outdated(uuid, p) {
        let recs = choose|recs: Seq<RecordModel>| #[trigger]
            Engine::<C>::content_taken(o, recs, uuid, p) && if o.meta_applies(p, recs.last()) {
                &&& Engine::<C>::meta_stored(o, e, uuid, p.meta->Some_0, nonce)
                &&& e.recs() == recs.push(
                    RecordModel {
                        meta: Some(
                            Engine::<C>::meta_stream(
                                p.meta->Some_0.vv,
                                p.meta->Some_0.version,
                                Engine::<C>::meta_slot(e),
                            ),
                        ),
                        ..recs.last()
                    },
                )
            } else {
                e.recs() == recs && e.slots() == o.slots()
            };
        let sm = stream_or_empty(head_record(o.known_head(uuid)->Ok_0));
        assert(e.head_of(uuid@) == e.recs().last());
        if vv_concurrent(sm.vv, p.vv) && o.known_head(uuid)->Ok_0 is None {
            assert(forall|x: u16| crate::vector::vv_get(sm.vv, x) == 0);
        }
        if !vv_concurrent(sm.vv, p.vv) {
            if !vv_dominates(p.vv, sm.vv) {
                assert(vv_dominates(sm.vv, p.vv));
                assert(sm.vv != p.vv);
            }
        }
    }
}

/// Nothing that the sender knew is lost: the head contains it, or it stands
/// beside the head as a strain.
pub proof fn law_import_keeps_what_was_sent<C: Crypto>(
    o: &Engine<C>,
    e: &Engine<C>,
    uuid: Uuid,
    p: ProjectionModel,
    nonce: Seq<u8>,
)
    requires
        o.inv(),
        p.has_content,
        o.projection_refused(uuid, p) is None,
        Engine::<C>::projection_taken(o, e, uuid, p, nonce),
        vv_ordered(p.vv),
        e.trust() == o.trust(),
    ensures
        vv_dominates(e.head_of(uuid@).content_vv(), p.vv) || e.strain_known(
            e.head_of(uuid@),
            p.vv,
        ),
{
    lemma_import_head(o, e, uuid, p, nonce);
    let h = o.known_head(uuid)->Ok_0;
    let sm = stream_or_empty(head_record(h));
    let head = e.head_of(uuid@);
    if o.outdated(uuid, p) {
        if h is None {
            assert(forall|x: u16| crate::vector::vv_get(sm.vv, x) == 0);
            if p.vv.len() > 0 {
                crate::vector::lemma_vv_get_at(p.vv, 0);
                assert(crate::vector::vv_get(sm.vv, p.vv[0].0) >= crate::vector::vv_get(
                    p.vv,
                    p.vv[0].0,
                ));
            }
            assert(p.vv =~= sm.vv);
        }
    } else if vv_concurrent(sm.vv, p.vv) && conflicts(sm, p.unit_map, p.vv) {
        let m = h->Some_0.1;
        let n = o.recs().len();
        if o.strain_known(m, p.vv) {
            if m.content_vv() != p.vv {
                let i = choose|i: int|
                    0 <= i < m.strains.len() && o.strain_has(#[trigger] m.strains[i], p.vv);
                let a = m.strains[i];
                assert(e.recs().take(n as int)[a - 1] == e.recs()[a - 1]);
                assert(e.strain_has(head.strains[i], p.vv));
            }
        } else {
            let a = (n + 1) as u64;
            assert(head.strains[m.strains.len() as int] == a);
            assert(e.strain_has(head.strains[m.strains.len() as int], p.vv));
        }
    }
}

/// A replica that knows nothing newer comes to the state of the sender: its head
/// has the sender's vector, versions and geometry.
pub proof fn law_import_catches_up<C: Crypto>(
    o: &Engine<C>,
    e: &Engine<C>,
    uuid: Uuid,
    p: ProjectionModel,
    nonce: Seq<u8>,
)
    requires
        o.inv(),
        p.has_content,
        o.projection_refused(uuid, p) is None,
        Engine::<C>::projection_taken(o, e, uuid, p, nonce),
        !o.outdated(uuid, p),
        !vv_concurrent(stream_or_empty(head_record(o.known_head(uuid)->Ok_0)).vv, p.vv),
    ensures
        e.ids@.contains_key(uuid@),
        e.head_of(uuid@).content is Some,
        e.head_of(uuid@).content_vv() == p.vv,
        e.head_of(uuid@).stream().unit_map == p.unit_map,
        e.head_of(uuid@).stream().fragsize_exp == p.fragsize_exp,
        e.head_of(uuid@).stream().last_frag_length == p.last_frag_length,
        e.head_of(uuid@).signature == carried_signature(p),
{
    lemma_import_head(o, e, uuid, p, nonce);
}

/// Whoever signed a record is still who signed it once it is imported: the head
/// taken over from a record `r` of the sender has the signer that `r` has.
pub proof fn law_import_keeps_the_signer<C: Crypto>(
    o: &Engine<C>,
    e: &Engine<C>,
    uuid: Uuid,
    p: ProjectionModel,
    nonce: Seq<u8>,
    r: RecordModel,
)
    requires
        o.inv(),
        p.has_content,
        o.projection_refused(uuid, p) is None,
        Engine::<C>::projection_taken(o, e, uuid, p, nonce),
        !o.outdated(uuid, p),
        !vv_concurrent(stream_or_empty(head_record(o.known_head(uuid)->Ok_0)).vv, p.vv),
        r.uuid == uuid,
        r.content is Some,
        r.stream().unit_map == p.unit_map,
        r.stream().vv == p.vv,
        r.stream().fragsize_exp == p.fragsize_exp,
        r.stream().last_frag_length == p.last_frag_length,
        r.signature == carried_signature(p),
        e.inv(),
    ensures
        e.unit_signer(uuid@) == signer_of::<C>(r, e.trust(), MembershipScope::CurrentOrRemoved),
{
    law_import_catches_up(o, e, uuid, p, nonce);
    assert(e.head_of(uuid@).uuid =~= uuid);
    assert(payload_of(e.head_of(uuid@)) == payload_of(r));
}

/// Importing what is here already keeps every block: a second import of the same
/// projection is harmless.
pub proof fn law_import_again_keeps_the_blocks<C: Crypto>(
    o: &Engine<C>,
    uuid: Uuid,
    addr: u64,
    m: RecordModel,
    p: ProjectionModel,
)
    requires
        o.known_head(uuid) == Ok::<KnownHead, Error>(Some((addr, m))),
        m.content is Some,
        m.stream().unit_map == p.unit_map,
        m.stream().locations.len() == m.stream().unit_map.len(),
        m.content_vv() == p.vv,
        m.stream().fragsize_exp == p.fragsize_exp,
        m.stream().last_frag_length == p.last_frag_length,
    ensures
        !o.outdated(uuid, p),
        !vv_concurrent(m.content_vv(), p.vv),
        o.forward_record(uuid, Some((addr, m)), p).stream().locations == m.stream().locations,
        o.forward_record(uuid, Some((addr, m)), p).stream().unit_map == m.stream().unit_map,
        o.forward_record(uuid, Some((addr, m)), p).content_vv() == m.content_vv(),
        forall|f: int|
            0 <= f < m.stream().n() && m.stream().locations[f] != hole() ==> o.suite(
                o.forward_record(uuid, Some((addr, m)), p),
                f,
            ) == #[trigger] o.suite(m, f),
{
    let r = o.forward_record(uuid, Some((addr, m)), p);
    assert(r.stream().locations =~= m.stream().locations);
    let full = o.preserved_suites(Some(m), r.stream().locations);
    assert forall|f: int| 0 <= f < m.stream().n() && m.stream().locations[f] != hole() implies o.suite(
        r,
        f,
    ) == #[trigger] o.suite(m, f) by {
        crate::resize::lemma_suites_form(
            full,
            o.header.content_cipher,
            o.header.cipher,
            r,
            f,
        );
    }
}

/// An imported unit goes by the path that came with it. A unit that was known here
/// gives up the first path that it had, if that is another one; every path of
/// another unit is bound as before, and no other path comes.
pub proof fn law_import_binds_the_path<C: Crypto>(
    o: &Engine<C>,
    e: &Engine<C>,
    uuid: Uuid,
    p: ProjectionModel,
    nonce: Seq<u8>,
)
    requires
        o.inv(),
        Engine::<C>::imported(o, e, uuid, p, nonce),
        o.keys@.contains_key(p.key) ==> o.keys@[p.key] == uuid,
    ensures
        e.keys@.contains_key(p.key),
        e.keys@[p.key] == uuid,
        forall|k: Seq<u8>|
            #![trigger e.keys@.contains_key(k)]
            o.keys@.contains_key(k) && o.keys@[k] != uuid ==> e.keys@.contains_key(k) && e.keys@[k]
                == o.keys@[k],
        forall|k: Seq<u8>| #[trigger]
            e.keys@.contains_key(k) ==> k == p.key || (o.keys@.contains_key(k) && e.keys@[k]
                == o.keys@[k]),
        forall|k: Seq<u8>|
            #![trigger o.keys@[k]]
            o.ids@.contains_key(uuid@) && k != p.key && o.keys@.contains_key(k) && o.keys@[k]
                == uuid && (forall|l: Seq<u8>|
                #![trigger o.keys@.contains_key(l)]
                o.keys@.contains_key(l) && o.keys@[l] == uuid ==> !crate::catalog::lex_lt(l, k))
                ==> !e.keys@.contains_key(k),
{
    let pairs = o.keys.pairs();
    crate::catalog::lemma_map_of(pairs);
    lemma_first_key_is_first(pairs, uuid);
    assert forall|k: Seq<u8>|
        #![trigger o.keys@[k]]
        o.ids@.contains_key(uuid@) && k != p.key && o.keys@.contains_key(k) && o.keys@[k] == uuid
            && (forall|l: Seq<u8>|
            #![trigger o.keys@.contains_key(l)]
            o.keys@.contains_key(l) && o.keys@[l] == uuid ==> !crate::catalog::lex_lt(l, k))
        implies !e.keys@.contains_key(k) by {
        let a = choose|a: int| 0 <= a < pairs.len() && pairs[a].0 == k;
        assert(pairs[a].1 == uuid);
        let b = choose|b: int|
            0 <= b < pairs.len() && first_key(pairs, uuid) == Some((#[trigger] pairs[b]).0)
                && pairs[b].1 == uuid && forall|c: int|
                0 <= c < b ==> (#[trigger] pairs[c]).1 != uuid;
        if b < a {
            assert(crate::catalog::lex_lt(pairs[b].0, pairs[a].0));
            assert(o.keys@.contains_key(pairs[b].0));
        }
        assert(a == b);
    }
}

proof fn lemma_first_key_is_first(pairs: Seq<(Seq<u8>, Uuid)>, uuid: Uuid)
    ensures
        first_key(pairs, uuid) is None ==> forall|a: int|
            0 <= a < pairs.len() ==> (#[trigger] pairs[a]).1 != uuid,
        first_key(pairs, uuid) is Some ==> exists|b: int|
            0 <= b < pairs.len() && first_key(pairs, uuid) == Some((#[trigger] pairs[b]).0)
                && pairs[b].1 == uuid && forall|c: int|
                0 <= c < b ==> (#[trigger] pairs[c]).1 != uuid,
    decreases pairs.len(),
{
    if pairs.len() > 0 {
        let p = pairs.drop_last();
        lemma_first_key_is_first(p, uuid);
        if first_key(p, uuid) is Some {
            let b = choose|b: int|
                0 <= b < p.len() && first_key(p, uuid) == Some((#[trigger] p[b]).0) && p[b].1
                    == uuid && forall|c: int| 0 <= c < b ==> (#[trigger] p[c]).1 != uuid;
            assert(pairs[b] == p[b]);
            assert forall|c: int| 0 <= c < b implies (#[trigger] pairs[c]).1 != uuid by {
                assert(pairs[c] == p[c]);
            }
        } else {
            assert forall|c: int| 0 <= c < p.len() implies (#[trigger] pairs[c]).1 != uuid by {
                assert(pairs[c] == p[c]);
            }
            if pairs.last().1 == uuid {
                assert(pairs[pairs.len() - 1].1 == uuid);
            }
        }
    }
}

/// Content that is not newer than what is here is not taken: no record is added.
pub proof fn law_import_ignores_what_is_old<C: Crypto>(
    o: &Engine<C>,
    e: &Engine<C>,
    uuid: Uuid,
    p: ProjectionModel,
    nonce: Seq<u8>,
)
    requires
        o.inv(),
        p.has_content,
        o.projection_refused(uuid, p) is None,
        Engine::<C>::projection_taken(o, e, uuid, p, nonce),
        o.ids@.contains_key(uuid@),
        forall|h: u16| #[trigger]
            crate::vector::vv_get(o.head_of(uuid@).stream().vv, h) >= crate::vector::vv_get(p.vv, h),
        o.head_of(uuid@).stream().vv != p.vv,
    ensures
        e.recs() == o.recs(),
        e.ids@ == o.ids@,
        e.slots() == o.slots(),
{
    assert(vv_dominates(o.head_of(uuid@).stream().vv, p.vv));
}

/// Changes that were made on both sides to different fragments come together: the
/// vector has for every host the larger counter, and each fragment the version that
/// the merge gives it. The head has no strain for what came in.
pub proof fn law_import_joins_disjoint_changes<C: Crypto>(
    o: &Engine<C>,
    e: &Engine<C>,
    uuid: Uuid,
    p: ProjectionModel,
    nonce: Seq<u8>,
)
    requires
        o.inv(),
        p.has_content,
        o.projection_refused(uuid, p) is None,
        Engine::<C>::projection_taken(o, e, uuid, p, nonce),
        o.ids@.contains_key(uuid@),
        !vv_dominates(o.head_of(uuid@).stream().vv, p.vv),
        !vv_dominates(p.vv, o.head_of(uuid@).stream().vv),
        !conflicts(o.head_of(uuid@).stream(), p.unit_map, p.vv),
    ensures
        ({
            let sm = o.head_of(uuid@).stream();
            let h = e.head_of(uuid@);
            &&& forall|x: u16|
                #![trigger crate::vector::vv_get(h.stream().vv, x)]
                crate::vector::vv_get(h.stream().vv, x) >= crate::vector::vv_get(sm.vv, x)
                    && crate::vector::vv_get(h.stream().vv, x) >= crate::vector::vv_get(p.vv, x) && (
                crate::vector::vv_get(h.stream().vv, x) == crate::vector::vv_get(sm.vv, x)
                    || crate::vector::vv_get(h.stream().vv, x) == crate::vector::vv_get(p.vv, x))
            &&& h.content is Some
            &&& h.stream().unit_map == merged_map(sm, p.unit_map, p.vv)
            &&& h.stream().locations == merged_locations(sm, p.unit_map, p.vv)
            &&& h.stream().fragsize_exp == sm.fragsize_exp
            &&& p.unit_map.len() >= sm.unit_map.len() ==> h.stream().last_frag_length
                == p.last_frag_length
            &&& p.unit_map.len() < sm.unit_map.len() ==> h.stream().last_frag_length
                == sm.last_frag_length
            &&& forall|i: int|
                0 <= i < h.strains.len() ==> o.head_of(uuid@).strains.contains(
                    #[trigger] h.strains[i],
                )
        }),
{
    lemma_import_head(o, e, uuid, p, nonce);
    let h = o.known_head(uuid)->Ok_0;
    let sm = o.head_of(uuid@).stream();
    let vv = e.head_of(uuid@).content_vv();
    assert(vv_concurrent(sm.vv, p.vv));
    lemma_import_record(o, e, uuid, p, nonce);
    o.lemma_kept_strains(head_strains(h), vv);
    let r = o.merged_record(uuid, h, p, vv);
    assert(e.head_of(uuid@).content == r.content);
    assert(e.head_of(uuid@).strains == r.strains);
}

/// The new head but for its metadata and its signature.
proof fn lemma_import_record<C: Crypto>(
    o: &Engine<C>,
    e: &Engine<C>,
    uuid: Uuid,
    p: ProjectionModel,
    nonce: Seq<u8>,
)
    requires
        o.inv(),
        p.has_content,
        o.projection_refused(uuid, p) is None,
        Engine::<C>::projection_taken(o, e, uuid, p, nonce),
        !o.outdated(uuid, p),
    ensures
        ({
            let h = o.known_head(uuid)->Ok_0;
            let sm = stream_or_empty(head_record(h));
            let head = e.head_of(uuid@);
            if !vv_concurrent(sm.vv, p.vv) {
                let r = o.forward_record(uuid, h, p);
                head.content == r.content && head.strains == r.strains && head.parent == r.parent
            } else if !conflicts(sm, p.unit_map, p.vv) {
                let r = o.merged_record(uuid, h, p, head.content_vv());
                head.content == r.content && head.strains == r.strains && head.parent == r.parent
            } else {
                head.content == h->Some_0.1.content
            }
        }),
        ({
            let head = e.head_of(uuid@);
            o.header.sign_mode == SignMode::Unsigned && p.meta is Some && !strictly_ahead(
                o.head_of(uuid@).meta_vv(),
                p.meta->Some_0.vv,
            ) && o.ids@.contains_key(uuid@) && (exists|x: u16| #[trigger]
                crate::vector::vv_get(p.meta->Some_0.vv, x) > 0) ==> {
                &&& Engine::<C>::meta_stored(o, e, uuid, p.meta->Some_0, nonce)
                &&& head.meta == Some(
                    Engine::<C>::meta_stream(
                        p.meta->Some_0.vv,
                        p.meta->Some_0.version,
                        Engine::<C>::meta_slot(e),
                    ),
                )
            }
        }),
{
    let recs = choose|recs: Seq<RecordModel>| #[trigger]
        Engine::<C>::content_taken(o, recs, uuid, p) && if o.meta_applies(p, recs.last()) {
            &&& Engine::<C>::meta_stored(o, e, uuid, p.meta->Some_0, nonce)
            &&& e.recs() == recs.push(
                RecordModel {
                    meta: Some(
                        Engine::<C>::meta_stream(
                            p.meta->Some_0.vv,
                            p.meta->Some_0.version,
                            Engine::<C>::meta_slot(e),
                        ),
                    ),
                    ..recs.last()
                },
            )
        } else {
            e.recs() == recs && e.slots() == o.slots()
        };
    assert(e.head_of(uuid@) == e.recs().last());
    let h = o.known_head(uuid)->Ok_0;
    let sm = stream_or_empty(head_record(h));
    let none = Seq::<(u16, u64)>::empty();
    if p.meta is Some && exists|x: u16| #[trigger] crate::vector::vv_get(p.meta->Some_0.vv, x) > 0 {
        let x = choose|x: u16| #[trigger] crate::vector::vv_get(p.meta->Some_0.vv, x) > 0;
        assert(!crate::vector::vv_has(none, x));
        assert(crate::vector::vv_get(none, x) == 0);
        assert(!vv_dominates(none, p.meta->Some_0.vv));
        let last = recs.last();
        if !vv_concurrent(sm.vv, p.vv) || !conflicts(sm, p.unit_map, p.vv) {
            assert(last.meta is None);
            assert(last.meta_vv() == none);
        } else {
            assert(last.meta == o.head_of(uuid@).meta);
        }
    }
}

/// Where both sides changed the same fragment, the content here stays as it is, and
/// what came in stands beside it as a strain with the sender's vector, versions and
/// geometry; the strains that were there stay.
pub proof fn law_import_keeps_both_sides_of_a_conflict<C: Crypto>(
    o: &Engine<C>,
    e: &Engine<C>,
    uuid: Uuid,
    p: ProjectionModel,
    nonce: Seq<u8>,
)
    requires
        o.inv(),
        p.has_content,
        o.projection_refused(uuid, p) is None,
        Engine::<C>::projection_taken(o, e, uuid, p, nonce),
        o.ids@.contains_key(uuid@),
        !vv_dominates(o.head_of(uuid@).stream().vv, p.vv),
        !vv_dominates(p.vv, o.head_of(uuid@).stream().vv),
        conflicts(o.head_of(uuid@).stream(), p.unit_map, p.vv),
    ensures
        ({
            let m = o.head_of(uuid@);
            let h = e.head_of(uuid@);
            let known = exists|i: int|
                0 <= i < m.strains.len() && o.record(#[trigger] m.strains[i]) is Ok && o.record(
                    m.strains[i],
                )->Ok_0.content is Some && o.record(m.strains[i])->Ok_0.stream().vv == p.vv;
            &&& h.content == m.content
            &&& m.strains.len() <= h.strains.len() <= m.strains.len() + 1
            &&& h.strains.take(m.strains.len() as int) == m.strains
            &&& known ==> h.strains == m.strains
            &&& !known ==> {
                let s = e.recs()[h.strains.last() - 1];
                &&& h.strains.len() == m.strains.len() + 1
                &&& 1 <= h.strains.last() <= e.recs().len()
                &&& s.uuid == uuid
                &&& s.content is Some
                &&& s.stream().vv == p.vv
                &&& s.stream().unit_map == p.unit_map
                &&& s.stream().fragsize_exp == p.fragsize_exp
                &&& s.stream().last_frag_length == p.last_frag_length
                &&& s.stream().locations.len() == p.unit_map.len()
                &&& forall|f: int|
                    0 <= f < p.unit_map.len() ==> (#[trigger] s.stream().locations[f]).addr == 0
            }
        }),
{
    lemma_import_head(o, e, uuid, p, nonce);
    lemma_import_record(o, e, uuid, p, nonce);
    let m = o.head_of(uuid@);
    let h = e.head_of(uuid@);
    assert(vv_concurrent(m.stream().vv, p.vv));
    assert(m.content_vv() != p.vv) by {
        if m.content_vv() == p.vv {
            assert(vv_dominates(p.vv, p.vv));
        }
    }
    if exists|i: int|
        0 <= i < m.strains.len() && o.record(#[trigger] m.strains[i]) is Ok && o.record(
            m.strains[i],
        )->Ok_0.content is Some && o.record(m.strains[i])->Ok_0.stream().vv == p.vv {
        let i = choose|i: int|
            0 <= i < m.strains.len() && o.record(#[trigger] m.strains[i]) is Ok && o.record(
                m.strains[i],
            )->Ok_0.content is Some && o.record(m.strains[i])->Ok_0.stream().vv == p.vv;
        assert(o.strain_has(m.strains[i], p.vv));
    }
    assert(h.strains.take(m.strains.len() as int) =~= m.strains);
    if !o.strain_known(m, p.vv) {
        assert(h.strains.last() == o.recs().len() + 1);
    }
}

/// Metadata that came with content, and is not older than what is here, reads back.
pub proof fn law_import_brings_metadata<C: Crypto>(
    o: &Engine<C>,
    e: &Engine<C>,
    uuid: Uuid,
    p: ProjectionModel,
    nonce: Seq<u8>,
)
    requires
        o.inv(),
        p.has_content,
        o.projection_refused(uuid, p) is None,
        Engine::<C>::projection_taken(o, e, uuid, p, nonce),
        !o.outdated(uuid, p),
        o.ids@.contains_key(uuid@),
        e.head_of(uuid@).uuid == uuid,
        o.header.sign_mode == SignMode::Unsigned,
        p.meta is Some,
        !(vv_dominates(o.head_of(uuid@).meta_vv(), p.meta->Some_0.vv) && o.head_of(uuid@).meta_vv()
            != p.meta->Some_0.vv),
        exists|x: u16| #[trigger] crate::vector::vv_get(p.meta->Some_0.vv, x) > 0,
        p.meta->Some_0.plain.len() + 28 <= u32::MAX,
        nonce.len() == 12,
        e.root_key == o.root_key,
        e.header.cipher == o.header.cipher,
    ensures
        e.metadata(e.head_of(uuid@)) == Ok::<Option<Seq<u8>>, Error>(Some(p.meta->Some_0.plain)),
        e.head_of(uuid@).meta_vv() == p.meta->Some_0.vv,
{
    lemma_import_record(o, e, uuid, p, nonce);
    let m = e.head_of(uuid@);
    let sm = m.meta->Some_0;
    let loc = sm.locations[0];
    let b = e.slots().last();
    let plain = p.meta->Some_0.plain;
    let aad = crate::meta::meta_aad(uuid, loc.addr, sm.unit_map[0]);
    C::lemma_meta_open_of_seal(o.root_key, nonce, aad, plain);
    assert(crate::content::stored_at(e.slots(), loc) == Some(b));
    if o.seals_meta() {
        assert(b.subrange(0, 12) =~= nonce);
        assert(b.subrange(12, b.len() as int) =~= C::meta_sealed(o.root_key, nonce, aad, plain));
    }
}

} // verus!
