//! Rotating the root key.
use vstd::prelude::*;

use crate::bytes::take16;
use crate::catalog::{lemma_map_of, ByteMap};
use crate::content::{lemma_last_fragment, stored_at};
use crate::crypto::Crypto;
use crate::engine::{
    ids_ok, journal_has, journal_ok, lemma_live_grow, live, live_ok, place, record_ok, records_ok,
    signed_record, Container, ContainerHeader, Engine, RecordSignIntent,
};
use crate::error::Error;
use crate::heap::in_heap;
use crate::import::KnownHead;
use crate::meta::meta_aad;
use crate::outside::random_bytes;
use crate::reseal::{record_fits, units_of, SealPlan};
use crate::unit::{
    clone_stream, payload_of, BlockLoc, RecordModel, StreamMeta, StreamModel, UnitRecord, Uuid,
};
use crate::writerset::SignMode;

verus! {

/// The record has content that is laid out in fragments.
pub open spec fn has_content(m: RecordModel) -> bool {
    m.content is Some && m.content->Some_0.locations.len() > 0
}

/// The record has metadata that is stored.
pub open spec fn has_meta(m: RecordModel) -> bool {
    m.meta is Some && m.meta->Some_0.unit_map.len() > 0 && m.meta->Some_0.locations.len() > 0
}

impl<C: Crypto> Engine<C> {
    /// The plan for sealing everything under another key.
    pub open spec fn key_plan(key: [u8; 32], epoch: u64) -> SealPlan {
        SealPlan { target: None, key, epoch }
    }

    /// How many slots the content of record `m` takes anew.
    pub open spec fn content_slots(&self, plan: SealPlan, m: RecordModel) -> nat {
        if has_content(m) {
            self.reseal_count(plan, m, m.stream().n())
        } else {
            0
        }
    }

    /// Why a record cannot be sealed under another key.
    pub open spec fn rekey_error(&self, plan: SealPlan, m: RecordModel) -> Option<Error> {
        let first = if has_content(m) {
            self.reseal_error(plan, m, m.stream().n())
        } else {
            None
        };
        match first {
            Some(e) => Some(e),
            None => if has_meta(m) {
                match self.meta_plain(m.uuid, m.meta->Some_0) {
                    Err(e) => Some(e),
                    Ok(_) => None,
                }
            } else {
                None
            },
        }
    }

    /// The content stream of `m` under the new key: pins are not carried over.
    pub open spec fn rekeyed_content(&self, plan: SealPlan, m: RecordModel) -> Option<StreamModel> {
        if has_content(m) {
            Some(
                StreamModel {
                    locations: self.next_locs(plan, m),
                    pins: Seq::empty(),
                    ..m.stream()
                },
            )
        } else {
            m.content
        }
    }

    /// The metadata stream of `m` under the new key, its block in slot `addr`.
    pub open spec fn rekeyed_meta(m: RecordModel, addr: u64, len: u32) -> Option<StreamModel> {
        if has_meta(m) {
            Some(
                Self::meta_stream(
                    m.meta->Some_0.vv,
                    m.meta->Some_0.unit_map[0],
                    (BlockLoc { addr, len }),
                ),
            )
        } else {
            m.meta
        }
    }

    /// The blocks of record `m` were sealed under the new key into fresh slots.
    pub open spec fn record_sealed(
        o: &Self,
        e: &Self,
        plan: SealPlan,
        m: RecordModel,
        nonce: Seq<u8>,
        content: Option<StreamModel>,
        meta: Option<StreamModel>,
    ) -> bool {
        let lo = o.slots().len();
        let count = o.content_slots(plan, m);
        let addr = (lo + count + 1) as u64;
        &&& e.slots().len() <= u64::MAX
        &&& e.slots().len() == lo + count + (if has_meta(m) {
            1nat
        } else {
            0nat
        })
        &&& e.slots().take(lo as int) == o.slots()
        &&& has_content(m) ==> Self::blocks_resealed(
            o,
            e.slots().take((lo + count) as int),
            plan,
            m,
            m.stream().n(),
        )
        &&& has_meta(m) ==> e.slots().last() == o.meta_block_under(
            plan.key,
            m.uuid,
            addr,
            m.meta->Some_0.unit_map[0],
            nonce,
            o.meta_plain(m.uuid, m.meta->Some_0)->Ok_0,
        ) && e.slots().last().len() <= u32::MAX
        &&& content == o.rekeyed_content(plan, m)
        &&& meta == Self::rekeyed_meta(m, addr, e.slots().last().len() as u32)
        &&& *e == (Engine { disk: (Container { blocks: e.disk.blocks, ..o.disk }), ..*o })
    }

    /// Seals the blocks of a record under another key, into fresh slots. The nonce
    /// is for its metadata, if it has any.
    pub fn seal_record_with(&mut self, rec: &UnitRecord, plan: &SealPlan, nonce: &[u8]) -> (r:
        Result<(Option<StreamMeta>, Option<StreamMeta>), Error>)
        requires
            old(self).inv(),
            record_fits(rec@),
            rec@.content is Some ==> rec@.stream().locations.len() == rec@.stream().n(),
            plan.target is None,
            has_meta(rec@) ==> nonce@.len() == 12,
        ensures
            final(self).inv(),
            old(self).recoverable() ==> final(self).recoverable(),
            *final(self) == (Engine {
                disk: (Container { blocks: final(self).disk.blocks, ..old(self).disk }),
                ..*old(self)
            }),
            old(self).slots().len() <= final(self).slots().len(),
            final(self).slots().take(old(self).slots().len() as int) == old(self).slots(),
            match old(self).rekey_error(*plan, rec@) {
                Some(e) => r is Err && r->Err_0 == e,
                None => r is Ok && Self::record_sealed(
                    old(self),
                    final(self),
                    *plan,
                    rec@,
                    nonce@,
                    crate::unit::stream_view(r->Ok_0.0),
                    crate::unit::stream_view(r->Ok_0.1),
                ),
            },
    {
        let ghost o = *self;
        let ghost m = rec@;
        let ghost lo = o.slots().len() as int;
        let start: usize = self.disk.blocks.len();
        let mut content: Option<StreamMeta> = clone_stream(&rec.content);
        match &rec.content {
            None => {},
            Some(sm) => if sm.locations.len() > 0 {
                let locs: Vec<BlockLoc> = match self.reseal_blocks(rec, sm, plan) {
                    Err(e) => {
                        return Err(e);
                    },
                    Ok(l) => l,
                };
                let mut new_sm: StreamMeta = sm.clone();
                new_sm.locations = locs;
                new_sm.pins = Vec::new();
                proof {
                    assert(new_sm@ =~= o.rekeyed_content(*plan, m)->Some_0);
                }
                content = Some(new_sm);
            },
        }
        let ghost mid = *self;
        let ghost mid_slots = mid.slots();
        let mids: usize = self.disk.blocks.len();
        proof {
            assert(mid_slots.take(lo) =~= o.slots());
            assert(mid_slots.take(mid_slots.len() as int) =~= mid_slots);
            assert(mid_slots.len() == lo + o.content_slots(*plan, m));
        }
        match &rec.meta {
            None => {
                proof {
                    assert(Self::record_sealed(
                        &o,
                        &*self,
                        *plan,
                        m,
                        nonce@,
                        crate::unit::stream_view(content),
                        None,
                    ));
                }
                Ok((content, None))
            },
            Some(sm) => {
                if sm.unit_map.len() == 0 || sm.locations.len() == 0 {
                    let meta: Option<StreamMeta> = clone_stream(&rec.meta);
                    proof {
                        assert(Self::record_sealed(
                            &o,
                            &*self,
                            *plan,
                            m,
                            nonce@,
                            crate::unit::stream_view(content),
                            crate::unit::stream_view(meta),
                        ));
                    }
                    return Ok((content, meta));
                }
                let loc: BlockLoc = sm.locations[0];
                if loc.addr > start as u64 {
                    return Err(Error::Integrity);
                }
                proof {
                    if loc.addr != 0 {
                        assert(mid_slots.take(lo)[loc.addr - 1] == mid_slots[loc.addr - 1]);
                    }
                    assert(stored_at(mid_slots, loc) == stored_at(o.slots(), loc));
                    assert(mid.meta_plain(m.uuid, sm@) == o.meta_plain(m.uuid, sm@));
                }
                let plain: Vec<u8> = match self.read_meta_plaintext(&rec.uuid, sm) {
                    Err(e) => {
                        return Err(e);
                    },
                    Ok(p) => p,
                };
                proof {
                    let b = stored_at(o.slots(), loc)->Some_0;
                    if b.len() >= 28 {
                        C::lemma_meta_opened_len(
                            o.root_key,
                            b.subrange(0, 12),
                            meta_aad(m.uuid, loc.addr, sm@.unit_map[0]),
                            b.subrange(12, b.len() as int),
                        );
                    }
                    assert(plain@.len() + 28 <= u32::MAX);
                }
                let staged: StreamMeta = self.stage_meta_under(
                    &plan.key,
                    &rec.uuid,
                    plain.as_slice(),
                    sm.unit_map[0],
                    sm.vv.clone(),
                    nonce,
                );
                proof {
                    let last = self.slots().last();
                    assert(self.slots() == mid_slots.push(last));
                    assert(self.slots().take(lo) =~= o.slots());
                    assert(self.slots().take(mid_slots.len() as int) =~= mid_slots);
                    assert(Self::record_sealed(
                        &o,
                        &*self,
                        *plan,
                        m,
                        nonce@,
                        crate::unit::stream_view(content),
                        Some(staged@),
                    ));
                }
                Ok((content, Some(staged)))
            },
        }
    }

    /// Seals the blocks of a record under another key, into fresh slots. A nonce
    /// is drawn only where there is metadata.
    fn seal_record(&mut self, rec: &UnitRecord, plan: &SealPlan) -> (r: Result<
        (Option<StreamMeta>, Option<StreamMeta>),
        Error,
    >)
        requires
            old(self).inv(),
            record_fits(rec@),
            rec@.content is Some ==> rec@.stream().locations.len() == rec@.stream().n(),
            plan.target is None,
        ensures
            final(self).inv(),
            old(self).recoverable() ==> final(self).recoverable(),
            *final(self) == (Engine {
                disk: (Container { blocks: final(self).disk.blocks, ..old(self).disk }),
                ..*old(self)
            }),
            old(self).slots().len() <= final(self).slots().len(),
            final(self).slots().take(old(self).slots().len() as int) == old(self).slots(),
            match old(self).rekey_error(*plan, rec@) {
                Some(e) => r is Err && (r->Err_0 == e || has_meta(rec@) && r->Err_0
                    == Error::Entropy),
                None => {
                    ||| has_meta(rec@) && r is Err && r->Err_0 == Error::Entropy
                    ||| r is Ok && exists|nonce: Seq<u8>|
                        (has_meta(rec@) ==> nonce.len() == 12) && #[trigger] Self::record_sealed(
                            old(self),
                            final(self),
                            *plan,
                            rec@,
                            nonce,
                            crate::unit::stream_view(r->Ok_0.0),
                            crate::unit::stream_view(r->Ok_0.1),
                        )
                },
            },
    {
        let meta: bool = match &rec.meta {
            None => false,
            Some(sm) => sm.unit_map.len() > 0 && sm.locations.len() > 0,
        };
        proof {
            assert(self.slots().take(self.slots().len() as int) =~= self.slots());
        }
        let mut nonce: Vec<u8> = Vec::new();
        if meta {
            match random_bytes(12) {
                None => {
                    return Err(Error::Entropy);
                },
                Some(n) => {
                    nonce = n;
                },
            }
        }
        self.seal_record_with(rec, plan, nonce.as_slice())
    }
}


/// Record `m` as it is stored again: without what came before it.
pub open spec fn severed(
    m: RecordModel,
    content: Option<StreamModel>,
    meta: Option<StreamModel>,
    strains: Seq<u64>,
) -> RecordModel {
    RecordModel { content, meta, parent: None, strains, superseded: Seq::empty(), ..m }
}

impl<C: Crypto> Engine<C> {
    /// Record `m` was sealed under the new key and stored again, with the given
    /// strains.
    pub open spec fn record_rekeyed(
        a: &Self,
        b: &Self,
        plan: SealPlan,
        m: RecordModel,
        nonce: Seq<u8>,
        mid: &Self,
    ) -> bool {
        let r1 = b.recs().last();
        &&& Self::record_sealed(a, mid, plan, m, nonce, r1.content, r1.meta)
        &&& r1 == severed(m, r1.content, r1.meta, Seq::empty())
        &&& b.recs() == a.recs().push(r1)
        &&& b.recs().len() <= u64::MAX
        &&& *b == (Engine { disk: (Container { records: b.disk.records, ..mid.disk }), ..*mid })
    }

    /// The strain at `addr`, taken to be of unit `uuid`.
    pub open spec fn strain_of(&self, addr: u64, uuid: Uuid) -> RecordModel {
        RecordModel { uuid, ..self.record(addr)->Ok_0 }
    }

    /// Why a strain cannot be sealed under another key.
    pub open spec fn strain_rekey_error(&self, plan: SealPlan, addr: u64, uuid: Uuid) -> Option<Error> {
        match self.record(addr) {
            Err(e) => Some(e),
            Ok(_) => {
                let s = self.strain_of(addr, uuid);
                match self.rekey_error(plan, s) {
                    Some(e) => Some(e),
                    None => match signed_record::<C>(
                        s,
                        self.trust(),
                        self.signing_key,
                        RecordSignIntent::Preserve,
                    ) {
                        Err(e) => Some(e),
                        Ok(_) => None,
                    },
                }
            },
        }
    }

    /// The strain at `addr` was sealed under the new key and stored again.
    pub open spec fn strain_step(a: &Self, b: &Self, plan: SealPlan, addr: u64, uuid: Uuid) -> bool {
        &&& a.record(addr) is Ok
        &&& exists|nonce: Seq<u8>, mid: Self|
            (has_meta(a.strain_of(addr, uuid)) ==> nonce.len() == 12) && #[trigger] Self::record_rekeyed(
                a,
                b,
                plan,
                a.strain_of(addr, uuid),
                nonce,
                &mid,
            )
    }

    /// The states that sealing the first `k` strains goes through.
    pub open spec fn strain_trace(
        t: Seq<Self>,
        plan: SealPlan,
        uuid: Uuid,
        strains: Seq<u64>,
        k: nat,
    ) -> bool {
        &&& t.len() == k + 1
        &&& forall|i: int|
            #![trigger t[i + 1]]
            0 <= i < k ==> Self::strain_step(&t[i], &t[i + 1], plan, strains[i], uuid)
    }

    /// The addresses of the strains that were stored again.
    pub open spec fn new_strains(t: Seq<Self>, k: nat) -> Seq<u64> {
        Seq::new(k, |i: int| t[i + 1].recs().len() as u64)
    }

    /// The state grew: records and slots were added, and nothing else changed.
    pub open spec fn grew(o: &Self, e: &Self) -> bool {
        &&& o.recs().len() <= e.recs().len()
        &&& e.recs().take(o.recs().len() as int) == o.recs()
        &&& o.slots().len() <= e.slots().len()
        &&& e.slots().take(o.slots().len() as int) == o.slots()
        &&& *e == (Engine {
            disk: (Container { records: e.disk.records, blocks: e.disk.blocks, ..o.disk }),
            ..*o
        })
    }

    proof fn lemma_grew(a: &Self, b: &Self, c: &Self)
        requires
            Self::grew(a, b),
            Self::grew(b, c),
        ensures
            Self::grew(a, c),
    {
        assert forall|i: int| 0 <= i < a.recs().len() implies c.recs()[i] == a.recs()[i] by {
            assert(c.recs().take(b.recs().len() as int)[i] == c.recs()[i]);
            assert(b.recs().take(a.recs().len() as int)[i] == b.recs()[i]);
        }
        assert forall|i: int| 0 <= i < a.slots().len() implies c.slots()[i] == a.slots()[i] by {
            assert(c.slots().take(b.slots().len() as int)[i] == c.slots()[i]);
            assert(b.slots().take(a.slots().len() as int)[i] == b.slots()[i]);
        }
        assert(c.recs().take(a.recs().len() as int) =~= a.recs());
        assert(c.slots().take(a.slots().len() as int) =~= a.slots());
    }

    /// Seals a strain under another key and stores it again.
    fn rekey_strain(&mut self, addr: u64, uuid: &Uuid, plan: &SealPlan) -> (r: Result<u64, Error>)
        requires
            old(self).inv(),
            in_heap(old(self).recs(), addr),
            record_fits(old(self).recs()[addr - 1]),
            plan.target is None,
        ensures
            final(self).inv(),
            old(self).recoverable() ==> final(self).recoverable(),
            Self::grew(old(self), final(self)),
            match old(self).strain_rekey_error(*plan, addr, *uuid) {
                Some(e) => r == Err::<u64, Error>(e) || r == Err::<u64, Error>(Error::Entropy)
                    && old(self).record(addr) is Ok && has_meta(
                    old(self).strain_of(addr, *uuid),
                ),
                None => {
                    ||| r == Err::<u64, Error>(Error::Entropy) && has_meta(
                        old(self).strain_of(addr, *uuid),
                    )
                    ||| r is Ok && r->Ok_0 == final(self).recs().len() && Self::strain_step(
                        old(self),
                        final(self),
                        *plan,
                        addr,
                        *uuid,
                    )
                },
            },
    {
        let ghost o = *self;
        proof {
            assert(record_ok(o.recs()[addr - 1], addr - 1));
            assert(o.recs().take(o.recs().len() as int) =~= o.recs());
            assert(o.slots().take(o.slots().len() as int) =~= o.slots());
        }
        let mut strain: UnitRecord = match self.read_record_at(addr) {
            Err(e) => {
                return Err(e);
            },
            Ok(s) => s,
        };
        strain.uuid = *uuid;
        let ghost s = strain@;
        proof {
            assert(s =~= o.strain_of(addr, *uuid));
            assert(record_fits(s));
        }
        let (content, meta): (Option<StreamMeta>, Option<StreamMeta>) = match self.seal_record(
            &strain,
            plan,
        ) {
            Err(e) => {
                return Err(e);
            },
            Ok(x) => x,
        };
        let ghost mid = *self;
        let ghost nonce = choose|nonce: Seq<u8>|
            (has_meta(s) ==> nonce.len() == 12) && #[trigger] Self::record_sealed(
                &o,
                &mid,
                *plan,
                s,
                nonce,
                crate::unit::stream_view(content),
                crate::unit::stream_view(meta),
            );
        strain.content = content;
        strain.meta = meta;
        strain.parent = None;
        strain.concurrent_strains = Vec::new();
        strain.superseded = Vec::new();
        let ghost r1 = strain@;
        proof {
            assert(r1.strains =~= Seq::<u64>::empty());
            assert(r1.superseded =~= Seq::<u64>::empty());
            assert(r1 =~= severed(s, r1.content, r1.meta, Seq::empty()));
            assert(payload_of(r1) == payload_of(s));
            assert(record_ok(r1, mid.recs().len() as int));
        }
        match self.write_unit_record(strain, RecordSignIntent::Preserve) {
            Err(e) => Err(e),
            Ok(a) => {
                proof {
                    assert(self.recs().take(o.recs().len() as int) =~= o.recs());
                    assert(Self::record_rekeyed(&o, &*self, *plan, s, nonce, &mid));
                }
                Ok(a)
            },
        }
    }
}


impl<C: Crypto> Engine<C> {
    /// The unit with head `m` was stored again under the new key: its blocks were
    /// sealed, then its strains, and last its head was stored.
    pub open spec fn unit_rekeyed(
        a: &Self,
        b: &Self,
        plan: SealPlan,
        uuid: Uuid,
        m: RecordModel,
        nonce: Seq<u8>,
        t: Seq<Self>,
    ) -> bool {
        let k = m.strains.len();
        let r1 = b.recs().last();
        &&& has_meta(m) ==> nonce.len() == 12
        &&& Self::record_sealed(a, &t[0], plan, m, nonce, r1.content, r1.meta)
        &&& Self::strain_trace(t, plan, uuid, m.strains, k)
        &&& r1 == severed(m, r1.content, r1.meta, Self::new_strains(t, k))
        &&& b.recs() == t[k as int].recs().push(r1)
        &&& b.recs().len() <= u64::MAX
        &&& *b == (Engine {
            disk: (Container { records: b.disk.records, ..t[k as int].disk }),
            ..t[k as int]
        })
    }

    /// Sealing the unit failed with `x`: its head could not be read or sealed, or
    /// one of its strains could not, or there was no randomness for metadata.
    pub open spec fn unit_blocked(a: &Self, plan: SealPlan, uuid: Uuid, t: Seq<Self>, x: Error) -> bool {
        let k = (t.len() - 1) as nat;
        ||| a.known_head(uuid) == Err::<KnownHead, Error>(x)
        ||| {
            &&& a.known_head(uuid) is Ok
            &&& a.known_head(uuid)->Ok_0 is Some
            &&& {
                let m = a.known_head(uuid)->Ok_0->Some_0.1;
                ||| a.rekey_error(plan, m) == Some(x)
                ||| x == Error::Entropy && has_meta(m)
                ||| {
                    let s = t[k as int];
                    let addr = m.strains[k as int];
                    &&& k < m.strains.len()
                    &&& Self::strain_trace(t, plan, uuid, m.strains, k)
                    &&& Self::grew(a, &s)
                    &&& {
                        ||| s.strain_rekey_error(plan, addr, uuid) == Some(x)
                        ||| x == Error::Entropy && s.record(addr) is Ok && has_meta(
                            s.strain_of(addr, uuid),
                        )
                    }
                }
            }
        }
    }

    /// Seals a unit under another key, strains included, and stores it again. It
    /// does not become the head yet.
    #[verifier::rlimit(40)]
    fn rekey_unit(&mut self, uuid: &Uuid, plan: &SealPlan, Ghost(n0): Ghost<nat>) -> (r: (
        Result<u64, Error>,
        Ghost<(Seq<u8>, Seq<Self>)>,
    ))
        requires
            old(self).inv(),
            old(self).ids@.contains_key(uuid@),
            old(self).ids@[uuid@] <= n0 <= old(self).recs().len(),
            forall|i: int| 0 <= i < n0 ==> record_fits(#[trigger] old(self).recs()[i]),
            plan.target is None,
        ensures
            final(self).inv(),
            old(self).recoverable() ==> final(self).recoverable(),
            Self::grew(old(self), final(self)),
            match r.0 {
                Err(x) => Self::unit_blocked(old(self), *plan, *uuid, r.1@.1, x),
                Ok(addr) => {
                    &&& old(self).known_head(*uuid) is Ok
                    &&& addr == final(self).recs().len()
                    &&& final(self).recs().last().uuid == *uuid
                    &&& old(self).rekey_error(*plan, old(self).head_of(uuid@)) is None
                    &&& Self::unit_rekeyed(
                        old(self),
                        final(self),
                        *plan,
                        *uuid,
                        old(self).head_of(uuid@),
                        r.1@.0,
                        r.1@.1,
                    )
                    &&& old(self).head_of(uuid@) == old(self).known_head(*uuid)->Ok_0->Some_0.1
                },
            },
    {
        let ghost o = *self;
        let ghost start: Seq<Self> = seq![o];
        let ghost zero: Seq<u8> = Seq::empty();
        proof {
            assert(o.recs().take(o.recs().len() as int) =~= o.recs());
            assert(o.slots().take(o.slots().len() as int) =~= o.slots());
            assert(Self::grew(&o, &o));
        }
        let (addr, rec): (u64, UnitRecord) = match self.find_known(uuid) {
            Err(e) => {
                proof {
                    assert(Self::unit_blocked(&o, *plan, *uuid, start, e));
                }
                return (Err(e), Ghost((zero, start)));
            },
            Ok(None) => {
                proof {
                    assert(false);
                }
                return (Err(Error::NotFound), Ghost((zero, start)));
            },
            Ok(Some(x)) => x,
        };
        let ghost m = rec@;
        proof {
            assert(o.head_of(uuid@) == m);
            assert(record_fits(o.recs()[addr - 1]));
        }
        let (content, meta): (Option<StreamMeta>, Option<StreamMeta>) = match self.seal_record(
            &rec,
            plan,
        ) {
            Err(e) => {
                proof {
                    assert(self.recs().take(o.recs().len() as int) =~= o.recs());
                    assert(Self::unit_blocked(&o, *plan, *uuid, start, e));
                }
                return (Err(e), Ghost((zero, start)));
            },
            Ok(x) => x,
        };
        let ghost sealed = *self;
        let ghost nonce = choose|nonce: Seq<u8>|
            (has_meta(m) ==> nonce.len() == 12) && #[trigger] Self::record_sealed(
                &o,
                &sealed,
                *plan,
                m,
                nonce,
                crate::unit::stream_view(content),
                crate::unit::stream_view(meta),
            );
        proof {
            assert(sealed.recs().take(o.recs().len() as int) =~= o.recs());
            assert(Self::grew(&o, &sealed));
        }
        let ghost mut t: Seq<Self> = seq![sealed];
        let mut strains: Vec<u64> = Vec::new();
        let n: usize = rec.concurrent_strains.len();
        let mut i: usize = 0;
        while i < n
            invariant
                o == *old(self),
                o.inv(),
                m == rec@,
                o.known_head(*uuid) == Ok::<KnownHead, Error>(Some((addr, m))),
                in_heap(o.recs(), addr),
                addr <= n0 <= o.recs().len(),
                record_ok(m, addr - 1),
                forall|x: int| 0 <= x < n0 ==> record_fits(#[trigger] o.recs()[x]),
                plan.target is None,
                n == m.strains.len(),
                i <= n,
                self.inv(),
                o.recoverable() ==> self.recoverable(),
                Self::grew(&o, &*self),
                t[0] == sealed,
                t[i as int] == *self,
                Self::strain_trace(t, *plan, *uuid, m.strains, i as nat),
                strains@ == Self::new_strains(t, i as nat),
                forall|x: int| 0 <= x < i ==> 1 <= #[trigger] strains@[x] <= self.recs().len(),
            decreases n - i,
        {
            let at: u64 = rec.concurrent_strains[i];
            let ghost a = *self;
            proof {
                assert(m.strains[i as int] == at);
                assert(1 <= at <= addr - 1);
                assert(self.recs().take(o.recs().len() as int)[at - 1] == self.recs()[at - 1]);
                assert(record_fits(o.recs()[at - 1]));
            }
            match self.rekey_strain(at, uuid, plan) {
                Err(e) => {
                    proof {
                        Self::lemma_grew(&o, &a, &*self);
                        assert(Self::unit_blocked(&o, *plan, *uuid, t, e));
                    }
                    return (Err(e), Ghost((nonce, t)));
                },
                Ok(x) => {
                    strains.push(x);
                },
            }
            proof {
                Self::lemma_grew(&o, &a, &*self);
                let t0 = t;
                t = t.push(*self);
                assert forall|x: int|
                    #![trigger t[x + 1]]
                    0 <= x < i + 1 implies Self::strain_step(
                    &t[x],
                    &t[x + 1],
                    *plan,
                    m.strains[x],
                    *uuid,
                ) by {
                    if x < i {
                        assert(t[x + 1] == t0[x + 1]);
                        assert(t[x] == t0[x]);
                    }
                }
                let now = Self::new_strains(t, (i + 1) as nat);
                assert forall|x: int| 0 <= x < i + 1 implies strains@[x] == #[trigger] now[x] by {
                    if x < i {
                        assert(t[x + 1] == t0[x + 1]);
                        assert(Self::new_strains(t0, i as nat)[x] == strains@[x]);
                    }
                }
                assert(strains@ =~= now);
            }
            i = i + 1;
        }
        let mut next: UnitRecord = rec;
        next.content = content;
        next.meta = meta;
        next.parent = None;
        next.concurrent_strains = strains;
        next.superseded = Vec::new();
        let ghost r1 = next@;
        let ghost last = *self;
        proof {
            assert(r1.superseded =~= Seq::<u64>::empty());
            assert(r1 =~= severed(m, r1.content, r1.meta, Self::new_strains(t, n as nat)));
            assert(payload_of(r1) == payload_of(m));
            assert(record_ok(r1, last.recs().len() as int));
        }
        match self.write_unit_record(next, RecordSignIntent::Preserve) {
            Err(e) => {
                proof {
                    assert(false);
                }
                (Err(e), Ghost((nonce, t)))
            },
            Ok(a) => {
                proof {
                    assert(self.recs().take(last.recs().len() as int) =~= last.recs());
                    assert(self.slots().take(last.slots().len() as int) =~= last.slots());
                    assert(Self::grew(&last, &*self));
                    Self::lemma_grew(&o, &last, &*self);
                    assert(Self::unit_rekeyed(&o, &*self, *plan, *uuid, m, nonce, t));
                }
                (Ok(a), Ghost((nonce, t)))
            },
        }
    }
}


/// The header after the key was rotated, and a writer set adopted with it.
pub open spec fn rekeyed_header(
    h: ContainerHeader,
    epoch: u64,
    adopt: Option<([u8; 16], u64)>,
) -> ContainerHeader {
    ContainerHeader {
        key_epoch: epoch,
        writer_set: match adopt {
            Some(x) => Some(x.0),
            None => h.writer_set,
        },
        writer_set_epoch: match adopt {
            Some(x) => x.1,
            None => h.writer_set_epoch,
        },
        ..h
    }
}

impl<C: Crypto> Engine<C> {
    /// One more unit was stored again; `a.1` and `b.1` are the heads so far.
    pub open spec fn rekey_step(
        a: (Self, Map<Seq<u8>, u64>),
        b: (Self, Map<Seq<u8>, u64>),
        plan: SealPlan,
        uuid: Uuid,
    ) -> bool {
        &&& a.0.known_head(uuid) is Ok
        &&& a.0.ids@.contains_key(uuid@)
        &&& b.0.recs().len() <= u64::MAX
        &&& b.1 == a.1.insert(uuid@, b.0.recs().len() as u64)
        &&& a.0.rekey_error(plan, a.0.head_of(uuid@)) is None
        &&& Self::grew(&a.0, &b.0)
        &&& exists|nonce: Seq<u8>, t: Seq<Self>| #[trigger]
            Self::unit_rekeyed(&a.0, &b.0, plan, uuid, a.0.head_of(uuid@), nonce, t)
    }

    /// The states that storing the first `n` units again goes through.
    pub open spec fn rekey_trace(
        t: Seq<(Self, Map<Seq<u8>, u64>)>,
        plan: SealPlan,
        units: Seq<Uuid>,
        n: nat,
    ) -> bool {
        &&& t.len() == n + 1
        &&& t[0].1 == Map::<Seq<u8>, u64>::empty()
        &&& forall|i: int|
            #![trigger t[i + 1]]
            0 <= i < n ==> Self::rekey_step(t[i], t[i + 1], plan, units[i])
    }

    /// Nothing stands in the way of sealing everything under another key, and no
    /// randomness is needed: all heads and strains can be read and sealed, and
    /// none has metadata.
    pub open spec fn rekey_owed(&self, plan: SealPlan) -> bool {
        forall|k: Seq<u8>| #[trigger]
            self.ids@.contains_key(k) ==> {
                let m = self.head_of(k);
                &&& self.record(self.ids@[k]) is Ok
                &&& !has_meta(m)
                &&& self.rekey_error(plan, m) is None
                &&& forall|i: int|
                    0 <= i < m.strains.len() ==> {
                        &&& self.record(#[trigger] m.strains[i]) is Ok
                        &&& !has_meta(self.strain_of(m.strains[i], m.uuid))
                        &&& self.strain_rekey_error(plan, m.strains[i], m.uuid) is None
                    }
            }
    }

    /// What could be sealed can be sealed in a state that grew.
    proof fn lemma_sealable_grew(o: &Self, e: &Self, plan: SealPlan, m: RecordModel, n: nat)
        requires
            Self::grew(o, e),
            o.reseal_error(plan, m, n) is None,
        ensures
            e.reseal_error(plan, m, n) is None,
        decreases n,
    {
        if n > 0 {
            Self::lemma_sealable_grew(o, e, plan, m, (n - 1) as nat);
            let loc = m.stream().locations[n - 1];
            if o.reseals_frag(plan, m, n - 1) && loc.addr != 0 && loc.addr <= o.slots().len() {
                assert(e.slots().take(o.slots().len() as int)[loc.addr - 1] == e.slots()[loc.addr
                    - 1]);
            }
        }
    }

    proof fn lemma_error_grew(o: &Self, e: &Self, plan: SealPlan, m: RecordModel)
        requires
            Self::grew(o, e),
            !has_meta(m),
            o.rekey_error(plan, m) is None,
        ensures
            e.rekey_error(plan, m) is None,
    {
        if has_content(m) {
            Self::lemma_sealable_grew(o, e, plan, m, m.stream().n());
        }
    }

    /// Where success is owed, no unit is in the way.
    proof fn lemma_not_blocked(
        o: &Self,
        a: &Self,
        plan: SealPlan,
        uuid: Uuid,
        t: Seq<Self>,
        x: Error,
    )
        requires
            o.inv(),
            Self::grew(o, a),
            o.ids@.contains_key(uuid@),
            o.rekey_owed(plan),
        ensures
            !Self::unit_blocked(a, plan, uuid, t, x),
    {
        let m = o.head_of(uuid@);
        let ad = o.ids@[uuid@];
        assert(a.recs().take(o.recs().len() as int)[ad - 1] == a.recs()[ad - 1]);
        assert(a.trust() == o.trust());
        assert(a.known_head(uuid) == Ok::<KnownHead, Error>(Some((ad, m))));
        assert(m.uuid =~= uuid);
        Self::lemma_error_grew(o, a, plan, m);
        assert(record_ok(o.recs()[ad - 1], ad - 1));
        let k = t.len() - 1;
        if 0 <= k < m.strains.len() && Self::grew(a, &t[k]) {
            let s = t[k];
            let addr = m.strains[k];
            Self::lemma_grew(o, a, &s);
            assert(o.record(addr) is Ok);
            assert(s.recs().take(o.recs().len() as int)[addr - 1] == s.recs()[addr - 1]);
            assert(s.trust() == o.trust());
            assert(s.strain_of(addr, uuid) == o.strain_of(addr, uuid));
            Self::lemma_error_grew(o, &s, plan, o.strain_of(addr, uuid));
        }
    }

    /// What storing all units again, from `o` on, came to.
    pub open spec fn units_rekeyed(
        o: &Self,
        e: &Self,
        plan: SealPlan,
        t: Seq<(Self, Map<Seq<u8>, u64>)>,
        n: nat,
        ids: Map<Seq<u8>, u64>,
        failed: Option<Error>,
    ) -> bool {
        let units = units_of(o.ids.pairs());
        &&& n <= units.len()
        &&& Self::rekey_trace(t, plan, units, n)
        &&& t[0].0 == *o
        &&& Self::grew(o, e)
        &&& match failed {
            Some(x) => n < units.len() && !o.rekey_owed(plan) && exists|tr: Seq<Self>| #[trigger]
                Self::unit_blocked(&t[n as int].0, plan, units[n as int], tr, x),
            None => n == units.len() && t[n as int].0 == *e && t[n as int].1 == ids,
        }
    }

    /// The new heads share no slot, and take only fresh ones, apart from a place
    /// that a unit had before.
    spec fn heads_fresh(o: &Self, ids: Map<Seq<u8>, u64>, recs: Seq<RecordModel>) -> bool {
        forall|k: Seq<u8>, p: int| #[trigger]
            live(ids, recs, k, p) == 0 || live(ids, recs, k, p) > o.slots().len() || (p == -1
                && live(ids, recs, k, p) == live(o.ids@, o.recs(), k, p))
    }

    /// Where the head of a unit lies that was stored again.
    proof fn lemma_rekeyed_places(
        a: &Self,
        b: &Self,
        plan: SealPlan,
        uuid: Uuid,
        m: RecordModel,
        nonce: Seq<u8>,
        t: Seq<Self>,
    )
        requires
            a.inv(),
            b.inv(),
            Self::unit_rekeyed(a, b, plan, uuid, m, nonce, t),
            Self::grew(&t[m.strains.len() as int], b),
            Self::grew(&t[0], b),
            plan.target is None,
            m.content is Some ==> m.stream().locations.len() == m.stream().n(),
            a.ids@.contains_key(uuid@),
            a.head_of(uuid@) == m,
        ensures
            forall|p: int| #[trigger]
                place(b.recs().last(), p) == 0 || a.slots().len() < place(b.recs().last(), p)
                    <= b.slots().len() || (p == -1 && place(b.recs().last(), p) == place(m, p)),
            forall|p: int, q: int|
                #![trigger place(b.recs().last(), p), place(b.recs().last(), q)]
                place(b.recs().last(), p) > a.slots().len() && place(b.recs().last(), p) == place(
                    b.recs().last(),
                    q,
                ) ==> p == q,
    {
        let r1 = b.recs().last();
        let lo = a.slots().len();
        let n = m.stream().n();
        let count = a.content_slots(plan, m);
        assert forall|p: int| 0 <= p implies {
            let x = #[trigger] place(r1, p);
            ||| x == 0
            ||| 0 <= p < n && has_content(m) && a.reseals_frag(plan, m, p) && x == lo
                + a.reseal_count(plan, m, p as nat) + 1 && x <= lo + count
        } by {
            if has_content(m) && p < n {
                assert(r1.stream().locations[p] == a.next_loc(plan, m, p));
                a.lemma_reseal_count(plan, m, (p + 1) as nat, n);
            }
        }
        assert forall|p: int, q: int|
            #![trigger place(r1, p), place(r1, q)]
            place(r1, p) > lo && place(r1, p) == place(r1, q) implies p == q by {
            assert(live(a.ids@, a.recs(), uuid@, -1) == place(m, -1));
            if 0 <= p && 0 <= q {
                if p < q {
                    a.lemma_reseal_count(plan, m, (p + 1) as nat, q as nat);
                } else if q < p {
                    a.lemma_reseal_count(plan, m, (q + 1) as nat, p as nat);
                }
            }
        }
    }
}


impl<C: Crypto> Engine<C> {
    /// Stores all units again under the new key, and gives their new heads.
    fn rekey_units(&mut self, plan: &SealPlan) -> (r: (Result<ByteMap<u64>, Error>, Ghost<
        (Seq<(Self, Map<Seq<u8>, u64>)>, nat),
    >))
        requires
            old(self).inv(),
            old(self).records_fit(),
            plan.target is None,
        ensures
            final(self).inv(),
            old(self).recoverable() ==> final(self).recoverable(),
            r.0 is Err ==> Self::units_rekeyed(
                old(self),
                final(self),
                *plan,
                r.1@.0,
                r.1@.1,
                Map::empty(),
                Some(r.0->Err_0),
            ),
            r.0 is Ok ==> {
                &&& Self::units_rekeyed(
                    old(self),
                    final(self),
                    *plan,
                    r.1@.0,
                    r.1@.1,
                    r.0->Ok_0@,
                    None,
                )
                &&& r.0->Ok_0.wf()
                &&& ids_ok(r.0->Ok_0@, final(self).recs())
                &&& live_ok(r.0->Ok_0@, final(self).recs(), final(self).slots().len())
                &&& Self::heads_fresh(old(self), r.0->Ok_0@, final(self).recs())
            },
    {
        let ghost o = *self;
        let ghost pairs = self.ids.pairs();
        let ghost units = units_of(pairs);
        let total: usize = self.ids.len();
        let mut list: Vec<Uuid> = Vec::new();
        let mut j: usize = 0;
        proof {
            lemma_map_of(pairs);
            Self::lemma_units_distinct(&o);
            assert(o.recs().take(o.recs().len() as int) =~= o.recs());
            assert(o.slots().take(o.slots().len() as int) =~= o.slots());
        }
        while j < total
            invariant
                *self == o,
                o.inv(),
                pairs == self.ids.pairs(),
                units == units_of(pairs),
                total == pairs.len(),
                j <= total,
                list@.len() == j,
                forall|i: int| 0 <= i < j ==> #[trigger] list@[i] == units[i],
                forall|i: int| 0 <= i < pairs.len() ==> o.ids@.contains_key((#[trigger] pairs[i]).0),
            decreases total - j,
        {
            let (k, a): (Vec<u8>, u64) = self.ids.pair_at(j);
            proof {
                assert(o.ids@.contains_key(pairs[j as int].0));
                assert(k@.subrange(0, 16) =~= k@);
            }
            list.push(take16(k.as_slice(), 0));
            j = j + 1;
        }
        let mut ids: ByteMap<u64> = ByteMap::new();
        let ghost mut t: Seq<(Self, Map<Seq<u8>, u64>)> = seq![(*self, ids@)];
        let mut i: usize = 0;
        proof {
            assert(list@ =~= units);
            assert(Self::grew(&o, &o));
        }
        while i < total
            invariant
                o == *old(self),
                o.inv(),
                o.records_fit(),
                plan.target is None,
                pairs == o.ids.pairs(),
                units == units_of(pairs),
                list@ == units,
                total == units.len(),
                i <= total,
                forall|x: int, y: int| 0 <= x < y < units.len() ==> units[x]@ != units[y]@,
                forall|x: int| 0 <= x < units.len() ==> o.ids@.contains_key(#[trigger] units[x]@),
                self.inv(),
                o.recoverable() ==> self.recoverable(),
                Self::grew(&o, &*self),
                ids.wf(),
                ids_ok(ids@, self.recs()),
                live_ok(ids@, self.recs(), self.slots().len()),
                Self::heads_fresh(&o, ids@, self.recs()),
                forall|x: int| i <= x < units.len() ==> !ids@.contains_key(#[trigger] units[x]@),
                t[0].0 == o,
                t[i as int] == (*self, ids@),
                Self::rekey_trace(t, *plan, units, i as nat),
            decreases total - i,
        {
            let ghost a = *self;
            let ghost ids0 = ids@;
            let uuid: Uuid = list[i];
            let ghost ad = o.ids@[uuid@];
            proof {
                assert(o.ids@.contains_key(units[i as int]@));
                assert(in_heap(o.recs(), ad));
                assert forall|x: int| 0 <= x < o.recs().len() implies record_fits(
                    #[trigger] a.recs()[x],
                ) by {
                    assert(a.recs().take(o.recs().len() as int)[x] == a.recs()[x]);
                    assert(record_fits(o.recs()[x]));
                }
            }
            let (done, tr): (Result<u64, Error>, Ghost<(Seq<u8>, Seq<Self>)>) = self.rekey_unit(
                &uuid,
                plan,
                Ghost(o.recs().len()),
            );
            proof {
                Self::lemma_grew(&o, &a, &*self);
            }
            let addr: u64 = match done {
                Err(e) => {
                    proof {
                        assert(Self::unit_blocked(
                            &t[i as int].0,
                            *plan,
                            units[i as int],
                            tr@.1,
                            e,
                        ));
                        if o.rekey_owed(*plan) {
                            Self::lemma_not_blocked(&o, &a, *plan, uuid, tr@.1, e);
                        }
                        assert(Self::units_rekeyed(
                            &o,
                            &*self,
                            *plan,
                            t,
                            i as nat,
                            Map::empty(),
                            Some(e),
                        ));
                    }
                    return (Err(e), Ghost((t, i as nat)));
                },
                Ok(x) => x,
            };
            ids.put(uuid.as_slice(), addr);
            proof {
                let m = a.head_of(uuid@);
                assert(a.recs().take(o.recs().len() as int)[ad - 1] == a.recs()[ad - 1]);
                assert(m == o.head_of(uuid@));
                assert(record_ok(a.recs()[ad - 1], ad - 1));
                Self::lemma_unit_grew(&a, &*self, *plan, uuid, m, tr@.0, tr@.1);
                Self::lemma_rekeyed_places(&a, &*self, *plan, uuid, m, tr@.0, tr@.1);
                Self::lemma_heads_step(&o, &a, &*self, ids0, uuid, m);
                assert(ids@ == ids0.insert(uuid@, self.recs().len() as u64));
                assert(Self::rekey_step((a, ids0), (*self, ids@), *plan, uuid)) by {
                    assert(Self::unit_rekeyed(&a, &*self, *plan, uuid, m, tr@.0, tr@.1));
                }
                let t0 = t;
                t = t.push((*self, ids@));
                assert forall|x: int|
                    #![trigger t[x + 1]]
                    0 <= x < i + 1 implies Self::rekey_step(t[x], t[x + 1], *plan, units[x]) by {
                    if x < i {
                        assert(t[x + 1] == t0[x + 1]);
                        assert(t[x] == t0[x]);
                    }
                }
                assert forall|x: int| i + 1 <= x < units.len() implies !ids@.contains_key(
                    #[trigger] units[x]@,
                ) by {
                    assert(units[i as int]@ != units[x]@);
                    assert(!ids0.contains_key(units[x]@));
                }
            }
            i = i + 1;
        }
        proof {
            assert(Self::units_rekeyed(&o, &*self, *plan, t, total as nat, ids@, None));
        }
        (Ok(ids), Ghost((t, total as nat)))
    }

    /// While a unit is stored again, the state only grows.
    proof fn lemma_unit_grew(
        a: &Self,
        b: &Self,
        plan: SealPlan,
        uuid: Uuid,
        m: RecordModel,
        nonce: Seq<u8>,
        t: Seq<Self>,
    )
        requires
            Self::unit_rekeyed(a, b, plan, uuid, m, nonce, t),
        ensures
            Self::grew(&t[m.strains.len() as int], b),
            Self::grew(&t[0], b),
            a.recs().len() < b.recs().len(),
    {
        let k = m.strains.len();
        let l = t[k as int];
        assert(b.recs().take(l.recs().len() as int) =~= l.recs());
        assert(b.slots().take(l.slots().len() as int) =~= l.slots());
        Self::lemma_strains_grew(t, plan, uuid, m.strains, 0, k);
        Self::lemma_grew(&t[0], &l, b);
    }

    proof fn lemma_strains_grew(
        t: Seq<Self>,
        plan: SealPlan,
        uuid: Uuid,
        strains: Seq<u64>,
        i: nat,
        k: nat,
    )
        requires
            i <= k,
            Self::strain_trace(t, plan, uuid, strains, k),
        ensures
            Self::grew(&t[i as int], &t[k as int]),
        decreases k - i,
    {
        if i == k {
            let l = t[k as int];
            assert(l.recs().take(l.recs().len() as int) =~= l.recs());
            assert(l.slots().take(l.slots().len() as int) =~= l.slots());
        } else {
            let a = t[i as int];
            let b = t[i as int + 1];
            assert(Self::strain_step(&a, &b, plan, strains[i as int], uuid));
            assert(b.recs().take(a.recs().len() as int) =~= a.recs());
            assert(Self::grew(&a, &b));
            Self::lemma_strains_grew(t, plan, uuid, strains, i + 1, k);
            Self::lemma_grew(&a, &b, &t[k as int]);
        }
    }

    /// One more head keeps slots unshared.
    proof fn lemma_heads_step(
        o: &Self,
        a: &Self,
        b: &Self,
        ids: Map<Seq<u8>, u64>,
        uuid: Uuid,
        m: RecordModel,
    )
        requires
            o.inv(),
            b.inv(),
            Self::grew(o, a),
            Self::grew(a, b),
            a.recs().len() < b.recs().len() <= u64::MAX,
            o.ids@.contains_key(uuid@),
            o.head_of(uuid@) == m,
            ids_ok(ids, a.recs()),
            live_ok(ids, a.recs(), a.slots().len()),
            Self::heads_fresh(o, ids, a.recs()),
            !ids.contains_key(uuid@),
            b.recs().last().uuid == uuid,
            forall|p: int| #[trigger]
                place(b.recs().last(), p) == 0 || a.slots().len() < place(b.recs().last(), p)
                    <= b.slots().len() || (p == -1 && place(b.recs().last(), p) == place(m, p)),
            forall|p: int, q: int|
                #![trigger place(b.recs().last(), p), place(b.recs().last(), q)]
                place(b.recs().last(), p) > a.slots().len() && place(b.recs().last(), p) == place(
                    b.recs().last(),
                    q,
                ) ==> p == q,
        ensures
            ids_ok(ids.insert(uuid@, b.recs().len() as u64), b.recs()),
            live_ok(ids.insert(uuid@, b.recs().len() as u64), b.recs(), b.slots().len()),
            Self::heads_fresh(o, ids.insert(uuid@, b.recs().len() as u64), b.recs()),
    {
        let k = uuid@;
        let r1 = b.recs().last();
        let front = b.recs().drop_last();
        let ids2 = ids.insert(k, b.recs().len() as u64);
        assert(front.take(a.recs().len() as int) =~= a.recs()) by {
            assert(b.recs().take(a.recs().len() as int) =~= a.recs());
            assert forall|i: int| 0 <= i < a.recs().len() implies front[i] == a.recs()[i] by {
                assert(b.recs().take(a.recs().len() as int)[i] == b.recs()[i]);
            }
        }
        lemma_live_grow(ids, a.recs(), front, a.slots().len(), b.slots().len());
        assert(front.push(r1) =~= b.recs());
        assert(records_ok(front)) by {
            assert forall|i: int| 0 <= i < front.len() implies record_ok(#[trigger] front[i], i) by {
                assert(record_ok(b.recs()[i], i));
            }
        }
        assert(record_ok(b.recs()[b.recs().len() - 1], b.recs().len() - 1));
        assert forall|p: int| #[trigger]
            place(r1, p) == 0 || place(r1, p) == live(ids, front, k, p) || place(r1, p)
                <= b.slots().len() && forall|l: Seq<u8>, q: int| #[trigger]
                live(ids, front, l, q) != place(r1, p) by {
            if place(r1, p) != 0 {
                let x = place(r1, p);
                assert(live(o.ids@, o.recs(), k, -1) == place(m, -1));
                assert(live(o.ids@, o.recs(), k, -1) <= o.slots().len());
                assert forall|l: Seq<u8>, q: int| #[trigger] live(ids, front, l, q) != x by {
                    let y = live(ids, a.recs(), l, q);
                    assert(live(ids, front, l, q) == y);
                    assert(y <= a.slots().len());
                    if x <= a.slots().len() && y == x {
                        assert(x == live(o.ids@, o.recs(), k, -1));
                        assert(y == live(o.ids@, o.recs(), l, q));
                        assert(l == k);
                    }
                }
            }
        }
        assert forall|p: int, q: int|
            #![trigger place(r1, p), place(r1, q)]
            place(r1, p) != 0 && place(r1, p) == place(r1, q) implies p == q by {}
        crate::compact::lemma_moved_head(ids, front, k, r1, b.slots().len());
        assert forall|l: Seq<u8>, p: int| #[trigger]
            live(ids2, b.recs(), l, p) == 0 || live(ids2, b.recs(), l, p) > o.slots().len() || (p
                == -1 && live(ids2, b.recs(), l, p) == live(o.ids@, o.recs(), l, p)) by {
            if l == k {
                assert(live(ids2, b.recs(), l, p) == place(r1, p));
                assert(live(o.ids@, o.recs(), k, -1) == place(m, -1));
            } else {
                assert(live(ids2, b.recs(), l, p) == live(ids, front, l, p));
                assert(live(ids, front, l, p) == live(ids, a.recs(), l, p));
            }
        }
    }
}


impl<C: Crypto> Engine<C> {
    /// The engine `f` with the new heads, under the new key.
    pub open spec fn under_key(
        f: &Self,
        g: &Self,
        ids: Map<Seq<u8>, u64>,
        key: [u8; 32],
        epoch: u64,
        adopt: Option<([u8; 16], u64)>,
    ) -> bool {
        &&& g.ids@ == ids
        &&& *g == (Engine {
            ids: g.ids,
            root_key: key,
            header: rekeyed_header(f.header, epoch, adopt),
            ..*f
        })
    }

    /// After the checkpoint gave `m`, storing the units again gave `f`, putting
    /// the new heads and the new key in gave `g`, and what followed gave `e`.
    pub open spec fn rekey_end(
        o: &Self,
        e: &Self,
        m: &Self,
        f: &Self,
        g: &Self,
        t: Seq<(Self, Map<Seq<u8>, u64>)>,
        n: nat,
        key: [u8; 32],
        epoch: u64,
        adopt: Option<([u8; 16], u64)>,
        simulate: bool,
        r: Result<(), Error>,
    ) -> bool {
        let plan = Self::key_plan(key, epoch);
        &&& Self::checkpointed(o, m, Ok(()))
        &&& m.inv()
        &&& match r {
            Err(x) => Self::units_rekeyed(m, f, plan, t, n, Map::empty(), Some(x)) && *e == *f,
            Ok(_) => {
                &&& Self::units_rekeyed(m, f, plan, t, n, t[n as int].1, None)
                &&& if simulate {
                    *e == *f
                } else {
                    &&& Self::under_key(f, g, t[n as int].1, key, epoch, adopt)
                    &&& if o.suppress_commit {
                        *e == *g
                    } else {
                        Self::published(g, e)
                    }
                }
            },
        }
    }

    /// What rotating the key does: a checkpoint, then everything sealed anew, in
    /// one commit.
    pub open spec fn rekeyed(
        o: &Self,
        e: &Self,
        key: [u8; 32],
        epoch: u64,
        adopt: Option<([u8; 16], u64)>,
        simulate: bool,
        r: Result<(), Error>,
    ) -> bool {
        ||| r is Err && Self::checkpointed(o, e, r)
        ||| exists|
            m: Self,
            f: Self,
            g: Self,
            t: Seq<(Self, Map<Seq<u8>, u64>)>,
            n: nat,
        | #[trigger]
            Self::rekey_end(o, e, &m, &f, &g, t, n, key, epoch, adopt, simulate, r)
    }

    /// Seals everything under another key, in one commit. The writer set given,
    /// if any, goes into the header with the same commit.
    pub fn rekey_core(
        &mut self,
        new_root_key: &[u8; 32],
        target_key_epoch: u64,
        adopt_ws: Option<([u8; 16], u64)>,
        simulate_crash: bool,
    ) -> (r: Result<(), Error>)
        requires
            old(self).inv(),
            old(self).header.commit_seq < u64::MAX,
            old(self).checkpoint_fits(),
            old(self).reseal_ready(),
        ensures
            final(self).inv(),
            old(self).recoverable() ==> final(self).recoverable(),
            Self::rekeyed(
                old(self),
                final(self),
                *new_root_key,
                target_key_epoch,
                adopt_ws,
                simulate_crash,
                r,
            ),
    {
        match self.checkpoint() {
            Err(e) => {
                return Err(e);
            },
            Ok(()) => {},
        }
        let ghost m = *self;
        proof {
            assert(Self::checkpointed(old(self), &m, Ok(())));
        }
        let plan: SealPlan = SealPlan {
            target: None,
            key: *new_root_key,
            epoch: target_key_epoch,
        };
        let (done, tr): (Result<ByteMap<u64>, Error>, Ghost<
            (Seq<(Self, Map<Seq<u8>, u64>)>, nat),
        >) = self.rekey_units(&plan);
        let ghost f = *self;
        let ghost t = tr@.0;
        let ghost n = tr@.1;
        let ids: ByteMap<u64> = match done {
            Err(e) => {
                proof {
                    assert(Self::rekey_end(
                        old(self),
                        &f,
                        &m,
                        &f,
                        &f,
                        t,
                        n,
                        *new_root_key,
                        target_key_epoch,
                        adopt_ws,
                        simulate_crash,
                        Err(e),
                    ));
                }
                return Err(e);
            },
            Ok(x) => x,
        };
        if simulate_crash {
            proof {
                assert(Self::rekey_end(
                    old(self),
                    &f,
                    &m,
                    &f,
                    &f,
                    t,
                    n,
                    *new_root_key,
                    target_key_epoch,
                    adopt_ws,
                    simulate_crash,
                    Ok(()),
                ));
            }
            return Ok(());
        }
        self.ids = ids;
        self.root_key = *new_root_key;
        self.header.key_epoch = target_key_epoch;
        match adopt_ws {
            None => {},
            Some(x) => {
                self.header.writer_set = Some(x.0);
                self.header.writer_set_epoch = x.1;
            },
        }
        let ghost g = *self;
        proof {
            if f.recoverable() {
                assert forall|k: Seq<u8>, p: int|
                    #![trigger live(g.ids@, g.recs(), k, p)]
                    0 <= p <= u32::MAX && g.dirty@.contains(
                        live(g.ids@, g.recs(), k, p),
                    ) implies journal_has(g.journaled@, k, p as u32) by {
                    let a = live(g.ids@, g.recs(), k, p);
                    assert(in_heap(m.slots(), a));
                }
                assert(journal_ok(g.ids@, g.recs(), g.dirty@, g.journaled@));
            }
        }
        self.publish();
        proof {
            assert(Self::rekey_end(
                old(self),
                &*self,
                &m,
                &f,
                &g,
                t,
                n,
                *new_root_key,
                target_key_epoch,
                adopt_ws,
                simulate_crash,
                Ok(()),
            ));
        }
        Ok(())
    }

    /// Who may rotate the key: anyone who has it where nothing is signed, and
    /// only the owner elsewhere.
    pub open spec fn may_rotate(&self) -> bool {
        match self.header.sign_mode {
            SignMode::Unsigned => true,
            SignMode::Signed => self.signing_key is Some && C::pubkey_of(
                self.signing_key->Some_0,
            ) == self.header.writer_pubkey,
            SignMode::WriterSet => self.signing_key is Some && C::pubkey_of(
                self.signing_key->Some_0,
            ) == self.header.owner_pubkey,
        }
    }

    /// What rotating the key to `key` does: nothing for who may not, and the next key
    /// epoch for who may.
    pub open spec fn rotated(
        o: &Self,
        e: &Self,
        key: [u8; 32],
        simulate: bool,
        r: Result<(), Error>,
    ) -> bool {
        &&& !o.may_rotate() ==> r == Err::<(), Error>(Error::Integrity) && *e == *o
        &&& o.may_rotate() ==> Self::rekeyed(
            o,
            e,
            key,
            (o.header.key_epoch + 1) as u64,
            None,
            simulate,
            r,
        )
    }

    fn require_rotate_owner(&self) -> (r: Result<(), Error>)
        ensures
            r == if self.may_rotate() {
                Ok::<(), Error>(())
            } else {
                Err::<(), Error>(Error::Integrity)
            },
    {
        let owner: [u8; 32] = match self.header.sign_mode {
            SignMode::Unsigned => {
                return Ok(());
            },
            SignMode::Signed => self.header.writer_pubkey,
            SignMode::WriterSet => self.header.owner_pubkey,
        };
        match &self.signing_key {
            None => Err(Error::Integrity),
            Some(seed) => {
                let pk: [u8; 32] = C::pubkey(seed);
                if crate::bytes::same32(&pk, &owner) {
                    Ok(())
                } else {
                    Err(Error::Integrity)
                }
            },
        }
    }

    fn rotate_root_key_inner(&mut self, new_root_key: &[u8; 32], simulate_crash: bool) -> (r: Result<
        (),
        Error,
    >)
        requires
            old(self).inv(),
            old(self).header.commit_seq < u64::MAX,
            old(self).header.key_epoch < u64::MAX,
            old(self).checkpoint_fits(),
            old(self).reseal_ready(),
        ensures
            final(self).inv(),
            old(self).recoverable() ==> final(self).recoverable(),
            Self::rotated(old(self), final(self), *new_root_key, simulate_crash, r),
    {
        match self.require_rotate_owner() {
            Err(e) => {
                return Err(e);
            },
            Ok(()) => {},
        }
        let epoch: u64 = self.header.key_epoch + 1;
        self.rekey_core(new_root_key, epoch, None, simulate_crash)
    }

    /// Seals everything under a new root key and counts the key epoch up, in one
    /// commit. History and pins are not carried over; strains are.
    pub fn rotate_root_key(&mut self, new_root_key: &[u8; 32]) -> (r: Result<(), Error>)
        requires
            old(self).inv(),
            old(self).header.commit_seq < u64::MAX,
            old(self).header.key_epoch < u64::MAX,
            old(self).checkpoint_fits(),
            old(self).reseal_ready(),
        ensures
            final(self).inv(),
            old(self).recoverable() ==> final(self).recoverable(),
            Self::rotated(old(self), final(self), *new_root_key, false, r),
    {
        self.rotate_root_key_inner(new_root_key, false)
    }

    /// Rotating the key, with a commit that never lands.
    pub fn rotate_root_key_simulate_crash_before_commit(&mut self, new_root_key: &[u8; 32]) -> (r:
        Result<(), Error>)
        requires
            old(self).inv(),
            old(self).header.commit_seq < u64::MAX,
            old(self).header.key_epoch < u64::MAX,
            old(self).checkpoint_fits(),
            old(self).reseal_ready(),
        ensures
            final(self).inv(),
            old(self).recoverable() ==> final(self).recoverable(),
            Self::rotated(old(self), final(self), *new_root_key, true, r),
    {
        self.rotate_root_key_inner(new_root_key, true)
    }

    /// How often the root key was rotated.
    pub fn key_epoch(&self) -> (r: u64)
        ensures
            r == self.header.key_epoch,
    {
        self.header.key_epoch
    }
}

/// Under the new key a unit holds what it held under the old one, and no version
/// changed.
pub proof fn law_rekey_keeps_content<C: Crypto>(
    a: &Engine<C>,
    b: &Engine<C>,
    e: &Engine<C>,
    key: [u8; 32],
    epoch: u64,
    uuid: Uuid,
    nonce: Seq<u8>,
    t: Seq<Engine<C>>,
)
    requires
        a.ids@.contains_key(uuid@),
        a.rekey_error(Engine::<C>::key_plan(key, epoch), a.head_of(uuid@)) is None,
        Engine::<C>::unit_rekeyed(
            a,
            b,
            Engine::<C>::key_plan(key, epoch),
            uuid,
            a.head_of(uuid@),
            nonce,
            t,
        ),
        a.head_of(uuid@).stream().geometry_ok(),
        e.root_key == key,
        e.header.key_epoch == epoch,
        e.header.cipher == a.header.cipher,
        b.slots().len() <= e.slots().len(),
        e.slots().take(b.slots().len() as int) == b.slots(),
    ensures
        e.contents(b.recs().last()) == a.contents(a.head_of(uuid@)),
        b.recs().last().content_vv() == a.head_of(uuid@).content_vv(),
        b.recs().last().stream().unit_map == a.head_of(uuid@).stream().unit_map,
        b.recs().last().signature == a.head_of(uuid@).signature,
        payload_of(b.recs().last()) == payload_of(a.head_of(uuid@)),
        b.recs().last().strains.len() == a.head_of(uuid@).strains.len(),
        has_meta(a.head_of(uuid@)) ==> e.metadata(b.recs().last()) == a.metadata(
            a.head_of(uuid@),
        ),
        b.recs().last().stream().geometry_ok(),
        a.sound(a.head_of(uuid@)) ==> e.sound(b.recs().last()) && e.full(b.recs().last())
            == a.full(a.head_of(uuid@)),
{
    let plan = Engine::<C>::key_plan(key, epoch);
    let m = a.head_of(uuid@);
    let r1 = b.recs().last();
    let sm = m.stream();
    let s0 = t[0].slots();
    let lo = a.slots().len();
    let count = a.content_slots(plan, m);
    Engine::<C>::lemma_unit_grew(a, b, plan, uuid, m, nonce, t);
    assert forall|i: int| 0 <= i < s0.len() implies e.slots()[i] == s0[i] by {
        assert(b.slots().take(s0.len() as int)[i] == b.slots()[i]);
        assert(e.slots().take(b.slots().len() as int)[i] == e.slots()[i]);
    }
    if has_content(m) {
        let sc = s0.take((lo + count) as int);
        assert forall|f: int| 0 <= f < sm.n() implies #[trigger] e.plain(r1, f) == a.plain(m, f) by {
            assert(r1.stream().locations[f] == a.next_loc(plan, m, f));
            if a.reseals_frag(plan, m, f) {
                let l = a.next_loc(plan, m, f);
                assert(stored_at(sc, l) == Some(a.next_block(plan, m, f)));
                assert(sc[l.addr - 1] == s0[l.addr - 1]);
                assert(stored_at(e.slots(), l) == Some(a.next_block(plan, m, f)));
                lemma_frag_ok(a, plan, m, f, sm.n());
                assert(e.suite(r1, f) == a.suite(m, f));
                assert(e.frag(r1, f) == Ok::<Seq<u8>, Error>(a.next_plain(plan, m, f)));
            }
        }
        assert(e.contents(r1) =~= a.contents(m)) by {
            assert forall|i: int| 0 <= i < sm.size() implies e.byte(r1, i) == a.byte(m, i) by {
                lemma_last_fragment(sm, i);
                assert(e.plain(r1, i / crate::block::frag_bytes(sm.fragsize_exp) as int)
                    == a.plain(m, i / crate::block::frag_bytes(sm.fragsize_exp) as int));
            }
        }
        if a.sound(m) {
            assert forall|f: int|
                0 <= f < sm.n() && !Engine::<C>::hole_at(r1, f) implies #[trigger] e.frag(r1, f)
                is Ok && e.frag(r1, f)->Ok_0.len() <= crate::block::frag_bytes(sm.fragsize_exp) by {
                assert(r1.stream().locations[f] == a.next_loc(plan, m, f));
                assert(a.reseals_frag(plan, m, f));
                let l = a.next_loc(plan, m, f);
                assert(stored_at(sc, l) == Some(a.next_block(plan, m, f)));
                assert(sc[l.addr - 1] == s0[l.addr - 1]);
                assert(stored_at(e.slots(), l) == Some(a.next_block(plan, m, f)));
                lemma_frag_ok(a, plan, m, f, sm.n());
                assert(e.suite(r1, f) == a.suite(m, f));
                assert(e.frag(r1, f) == Ok::<Seq<u8>, Error>(a.next_plain(plan, m, f)));
                assert(!Engine::<C>::hole_at(m, f));
                assert(a.frag(m, f) is Ok);
            }
        }
    } else {
        assert(sm.n() == 0);
        assert(e.contents(r1) =~= a.contents(m));
    }
    if a.sound(m) {
        a.law_full_read_is_the_content(m);
        e.law_full_read_is_the_content(r1);
    }
    if has_meta(m) {
        let addr = (lo + count + 1) as u64;
        let v = m.meta->Some_0.unit_map[0];
        let plain = a.meta_plain(m.uuid, m.meta->Some_0)->Ok_0;
        let blk = s0.last();
        C::lemma_meta_open_of_seal(key, nonce, meta_aad(m.uuid, addr, v), plain);
        assert(e.slots()[addr - 1] == blk);
        assert(stored_at(e.slots(), r1.meta->Some_0.locations[0]) == Some(blk));
        if a.seals_meta() {
            assert(blk.subrange(0, 12) =~= nonce);
            assert(blk.subrange(12, blk.len() as int) =~= C::meta_sealed(
                key,
                nonce,
                meta_aad(m.uuid, addr, v),
                plain,
            ));
        }
    }
}

proof fn lemma_frag_ok<C: Crypto>(a: &Engine<C>, plan: SealPlan, m: RecordModel, f: int, n: nat)
    requires
        0 <= f < n,
        a.reseals_frag(plan, m, f),
        a.reseal_error(plan, m, n) is None,
    ensures
        a.frag(m, f) is Ok,
    decreases n,
{
    if f < n - 1 {
        lemma_frag_ok(a, plan, m, f, (n - 1) as nat);
    }
}

impl<C: Crypto> Engine<C> {
    /// Later states of a change of keys hold all that earlier ones hold, and the
    /// new head of a unit stays its new head.
    proof fn lemma_rekey_trace(
        t: Seq<(Self, Map<Seq<u8>, u64>)>,
        plan: SealPlan,
        units: Seq<Uuid>,
        n: nat,
        i: int,
        j: int,
    )
        requires
            Self::rekey_trace(t, plan, units, n),
            0 <= i <= j <= n,
            n <= units.len(),
            forall|x: int, y: int| 0 <= x < y < units.len() ==> units[x]@ != units[y]@,
        ensures
            Self::grew(&t[i].0, &t[j].0),
            i < j ==> t[j].1.contains_key(units[i]@) && t[j].1[units[i]@] == t[i
                + 1].0.recs().len(),
        decreases j - i,
    {
        if i < j {
            Self::lemma_rekey_trace(t, plan, units, n, i, j - 1);
            assert(Self::rekey_step(t[j - 1], t[j - 1 + 1], plan, units[j - 1]));
            Self::lemma_grew(&t[i].0, &t[j - 1].0, &t[j].0);
            if i < j - 1 {
                assert(units[i]@ != units[j - 1]@);
            }
        } else {
            let e = t[i].0;
            assert(e.recs().take(e.recs().len() as int) =~= e.recs());
            assert(e.slots().take(e.slots().len() as int) =~= e.slots());
        }
    }
}

/// Changing the root key keeps the content of every unit, and its versions.
pub proof fn law_rekey_keeps_every_content<C: Crypto>(
    o: &Engine<C>,
    f: &Engine<C>,
    e: &Engine<C>,
    key: [u8; 32],
    epoch: u64,
    t: Seq<(Engine<C>, Map<Seq<u8>, u64>)>,
    n: nat,
    i: int,
)
    requires
        o.inv(),
        Engine::<C>::units_rekeyed(
            o,
            f,
            Engine::<C>::key_plan(key, epoch),
            t,
            n,
            t[n as int].1,
            None,
        ),
        e.ids@ == t[n as int].1,
        e.recs() == f.recs(),
        e.slots() == f.slots(),
        e.root_key == key,
        e.header.key_epoch == epoch,
        e.header.cipher == o.header.cipher,
        0 <= i < n,
        o.head_of(units_of(o.ids.pairs())[i]@).stream().geometry_ok(),
    ensures
        ({
            let k = units_of(o.ids.pairs())[i]@;
            &&& e.ids@.contains_key(k)
            &&& e.unit_bytes(k) == o.unit_bytes(k)
            &&& e.head_of(k).content_vv() == o.head_of(k).content_vv()
            &&& e.head_of(k).stream().unit_map == o.head_of(k).stream().unit_map
            &&& e.head_of(k).signature == o.head_of(k).signature
            &&& payload_of(e.head_of(k)) == payload_of(o.head_of(k))
            &&& e.head_of(k).strains.len() == o.head_of(k).strains.len()
            &&& has_meta(o.head_of(k)) ==> e.metadata(e.head_of(k)) == o.metadata(o.head_of(k))
            &&& o.sound(o.head_of(k)) ==> e.sound(e.head_of(k)) && e.full(e.head_of(k)) == o.full(
                o.head_of(k),
            )
        }),
{
    let units = units_of(o.ids.pairs());
    let plan = Engine::<C>::key_plan(key, epoch);
    let uuid = units[i];
    let k = uuid@;
    Engine::<C>::lemma_units_distinct(o);
    Engine::<C>::lemma_rekey_trace(t, plan, units, n, 0, i);
    Engine::<C>::lemma_rekey_trace(t, plan, units, n, i, n as int);
    Engine::<C>::lemma_rekey_trace(t, plan, units, n, i + 1, n as int);
    let a = t[i].0;
    let b = t[i + 1].0;
    assert(Engine::<C>::rekey_step(t[i], t[i + 1], plan, uuid));
    let m = o.head_of(k);
    let ad = o.ids@[k];
    assert(o.ids@.contains_key(k));
    assert(a.recs().take(o.recs().len() as int)[ad - 1] == a.recs()[ad - 1]);
    assert(a.head_of(k) == m);
    let (nonce, tr) = choose|nonce: Seq<u8>, tr: Seq<Engine<C>>| #[trigger]
        Engine::<C>::unit_rekeyed(&a, &b, plan, uuid, m, nonce, tr);
    law_rekey_keeps_content(&a, &b, e, key, epoch, uuid, nonce, tr);
    let last = b.recs().len() as int;
    assert(f.recs().take(last)[last - 1] == f.recs()[last - 1]);
    assert(e.head_of(k) == b.recs().last());
    let sm = m.stream();
    assert forall|g: int| 0 <= g < sm.n() implies (#[trigger] sm.locations[g]).addr
        <= o.slots().len() by {
        assert(crate::engine::live(o.ids@, o.recs(), k, g) == sm.locations[g].addr);
    }
    assert forall|g: int| 0 <= g < sm.n() && (#[trigger] sm.locations[g]).addr != 0 implies
        a.slots()[sm.locations[g].addr - 1] == o.slots()[sm.locations[g].addr - 1] by {
        assert(a.slots().take(o.slots().len() as int)[sm.locations[g].addr - 1] == a.slots()[
        sm.locations[g].addr - 1]);
    }
    Engine::<C>::lemma_reads_kept(o, &a, m);
    Engine::<C>::lemma_pieces_kept(o, &a, m, sm.n());
    let ma = crate::engine::live(o.ids@, o.recs(), k, -1);
    if ma != 0 {
        assert(ma <= o.slots().len());
        assert(a.slots().take(o.slots().len() as int)[ma - 1] == a.slots()[ma - 1]);
    }
    Engine::<C>::lemma_metadata_kept(o, &a, k, m);
    if o.sound(m) {
        assert forall|g: int|
            0 <= g < sm.n() && !Engine::<C>::hole_at(m, g) implies #[trigger] a.frag(m, g) is Ok
            && a.frag(m, g)->Ok_0.len() <= crate::block::frag_bytes(sm.fragsize_exp) by {
            assert(o.frag(m, g) is Ok);
        }
    }
}

} // verus!
