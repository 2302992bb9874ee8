//! The metadata stream of a unit.
use vstd::prelude::*;
use vstd::string::StringSliceAdditionalSpecFns;

use crate::block::{dot, pack_dot};
use crate::bytes::{copy_range, le, push_all, push_le};
use crate::content::stored_at;
use crate::crypto::{Crypto, CIPHER_AES256_GCM};
use crate::engine::{live, place, places_step, Container, Engine, RecordSignIntent};
use crate::error::Error;
use crate::outside::random_bytes;
use crate::resize::suites_form;
use crate::unit::{clone_stream, BlockLoc, RecordModel, StreamMeta, StreamModel, UnitRecord, Uuid};
use crate::vector::{vv_get, vv_is_bump, VersionVector};

verus! {

/// What sealed metadata is bound to: a marker, the unit, the slot and the
/// version.
pub open spec fn meta_aad(uuid: Uuid, addr: u64, version: u64) -> Seq<u8> {
    seq![2u8] + uuid@ + le(addr as nat, 8) + le(version as nat, 8)
}

pub fn meta_stream_aad(uuid: &Uuid, addr: u64, version: u64) -> (r: Vec<u8>)
    ensures
        r@ == meta_aad(*uuid, addr, version),
{
    let mut r: Vec<u8> = Vec::new();
    r.push(2);
    push_all(&mut r, uuid.as_slice());
    push_le(&mut r, addr, 8);
    push_le(&mut r, version, 8);
    proof {
        assert(r@ =~= meta_aad(*uuid, addr, version));
    }
    r
}

impl<C: Crypto> Engine<C> {
    /// Whether metadata is sealed in this container.
    pub open spec fn seals_meta(&self) -> bool {
        self.header.cipher == CIPHER_AES256_GCM
    }

    /// Whether metadata is sealed in this container.
    pub fn meta_seal_active(&self) -> (r: bool)
        ensures
            r == self.seals_meta(),
    {
        self.header.cipher == CIPHER_AES256_GCM
    }

    /// Metadata as it is stored in slot `addr`.
    pub open spec fn meta_block(
        &self,
        uuid: Uuid,
        addr: u64,
        version: u64,
        nonce: Seq<u8>,
        plain: Seq<u8>,
    ) -> Seq<u8> {
        self.meta_block_under(self.root_key, uuid, addr, version, nonce, plain)
    }

    /// Metadata as it is stored in slot `addr` under a given key.
    pub open spec fn meta_block_under(
        &self,
        key: [u8; 32],
        uuid: Uuid,
        addr: u64,
        version: u64,
        nonce: Seq<u8>,
        plain: Seq<u8>,
    ) -> Seq<u8> {
        if self.seals_meta() {
            nonce + C::meta_sealed(key, nonce, meta_aad(uuid, addr, version), plain)
        } else {
            plain
        }
    }

    /// The stream of metadata stored at `loc`.
    pub open spec fn meta_stream(vv: Seq<(u16, u64)>, version: u64, loc: BlockLoc) -> StreamModel {
        StreamModel {
            unit_map: seq![version],
            locations: seq![loc],
            vv,
            fragsize_exp: 0,
            last_frag_length: loc.len,
            pins: Seq::empty(),
        }
    }

    /// Stores metadata in a fresh slot, sealed under a given key.
    pub fn stage_meta_under(
        &mut self,
        key: &[u8; 32],
        uuid: &Uuid,
        plain: &[u8],
        version: u64,
        vv: VersionVector,
        nonce: &[u8],
    ) -> (r: StreamMeta)
        requires
            old(self).inv(),
            nonce@.len() == 12,
            plain@.len() + 28 <= u32::MAX,
        ensures
            final(self).inv(),
            old(self).recoverable() ==> final(self).recoverable(),
            final(self).slots().len() <= u64::MAX,
            final(self).slots() == old(self).slots().push(
                old(self).meta_block_under(
                    *key,
                    *uuid,
                    final(self).slots().len() as u64,
                    version,
                    nonce@,
                    plain@,
                ),
            ),
            *final(self) == (Engine {
                disk: (Container { blocks: final(self).disk.blocks, ..old(self).disk }),
                ..*old(self)
            }),
            r@ == Self::meta_stream(
                vv@,
                version,
                (BlockLoc {
                    addr: final(self).slots().len() as u64,
                    len: final(self).slots().last().len() as u32,
                }),
            ),
            final(self).slots().last().len() == if old(self).seals_meta() {
                plain@.len() + 28
            } else {
                plain@.len()
            },
    {
        let n: usize = self.disk.blocks.len();
        let empty: Vec<u8> = Vec::new();
        let addr: u64 = self.disk.blocks.push(empty);
        let ghost pushed = self.disk.blocks@;
        let mut block: Vec<u8> = Vec::new();
        if self.meta_seal_active() {
            let aad: Vec<u8> = meta_stream_aad(uuid, addr, version);
            let cipher: Vec<u8> = C::seal_meta(key, nonce, aad.as_slice(), plain);
            push_all(&mut block, nonce);
            push_all(&mut block, cipher.as_slice());
            proof {
                C::lemma_meta_open_of_seal(*key, nonce@, aad@, plain@);
                assert(block@ =~= nonce@ + cipher@);
            }
        } else {
            push_all(&mut block, plain);
            proof {
                assert(block@ =~= plain@);
            }
        }
        let len: u32 = block.len() as u32;
        let ghost bytes = block@;
        self.disk.blocks.set(addr, block);
        proof {
            assert(self.slots() =~= old(self).slots().push(bytes));
            Self::lemma_slot_added(old(self), &*self, bytes);
        }
        let loc: BlockLoc = BlockLoc { addr, len };
        let r: StreamMeta = StreamMeta {
            unit_map: vec![version],
            locations: vec![loc],
            vv,
            fragsize_exp: 0,
            last_frag_length: len,
            pins: Vec::new(),
        };
        proof {
            assert(r@ =~= Self::meta_stream(vv@, version, loc));
        }
        r
    }

    /// Stores metadata in a fresh slot, sealed with the given nonce.
    pub fn stage_meta(
        &mut self,
        uuid: &Uuid,
        plain: &[u8],
        version: u64,
        vv: VersionVector,
        nonce: &[u8],
    ) -> (r: StreamMeta)
        requires
            old(self).inv(),
            nonce@.len() == 12,
            plain@.len() + 28 <= u32::MAX,
        ensures
            final(self).inv(),
            old(self).recoverable() ==> final(self).recoverable(),
            final(self).slots().len() <= u64::MAX,
            final(self).slots() == old(self).slots().push(
                old(self).meta_block(
                    *uuid,
                    final(self).slots().len() as u64,
                    version,
                    nonce@,
                    plain@,
                ),
            ),
            *final(self) == (Engine {
                disk: (Container { blocks: final(self).disk.blocks, ..old(self).disk }),
                ..*old(self)
            }),
            r@ == Self::meta_stream(
                vv@,
                version,
                (BlockLoc {
                    addr: final(self).slots().len() as u64,
                    len: final(self).slots().last().len() as u32,
                }),
            ),
            final(self).slots().last().len() == if old(self).seals_meta() {
                plain@.len() + 28
            } else {
                plain@.len()
            },
    {
        let key: [u8; 32] = self.root_key;
        self.stage_meta_under(&key, uuid, plain, version, vv, nonce)
    }

    /// A fresh slot leaves everything in order.
    pub proof fn lemma_slot_added(o: &Self, e: &Self, bytes: Seq<u8>)
        requires
            o.inv(),
            e.slots() == o.slots().push(bytes),
            *e == (Engine { disk: (Container { blocks: e.disk.blocks, ..o.disk }), ..*o }),
        ensures
            e.inv(),
            o.recoverable() ==> e.recoverable(),
    {
        let recs = o.recs();
        assert(recs.take(recs.len() as int) =~= recs);
        crate::engine::lemma_live_grow(o.ids@, recs, recs, o.slots().len(), e.slots().len());
        if o.recoverable() {
            let seq = o.disk.committed.header.commit_seq;
            crate::heap::lemma_undone_push(o.slots(), o.tail(), seq, bytes);
            crate::heap::lemma_undone_len(o.slots(), o.tail(), seq);
            assert(crate::engine::undo_ok(e.slots(), e.tail(), seq, e.snap@, e.dirty@));
        }
    }

    /// The metadata of a record: none, or what its slot opens to.
    pub open spec fn metadata(&self, r: RecordModel) -> Result<Option<Seq<u8>>, Error> {
        match r.meta {
            None => Ok(None),
            Some(sm) => if sm.unit_map.len() == 0 || sm.locations.len() == 0 {
                Ok(None)
            } else {
                match self.meta_plain(r.uuid, sm) {
                    Ok(p) => Ok(Some(p)),
                    Err(e) => Err(e),
                }
            },
        }
    }

    /// What the slot of a metadata stream opens to.
    pub open spec fn meta_plain(&self, uuid: Uuid, sm: StreamModel) -> Result<Seq<u8>, Error> {
        let loc = sm.locations[0];
        match stored_at(self.slots(), loc) {
            None => Err(Error::Integrity),
            Some(b) => if !self.seals_meta() {
                Ok(b)
            } else if b.len() < 28 {
                Err(Error::Integrity)
            } else {
                match C::meta_opened(
                    self.root_key,
                    b.subrange(0, 12),
                    meta_aad(uuid, loc.addr, sm.unit_map[0]),
                    b.subrange(12, b.len() as int),
                ) {
                    None => Err(Error::Integrity),
                    Some(p) => Ok(p),
                }
            },
        }
    }

    /// Opens the metadata of a stream that has some.
    pub fn read_meta_plaintext(&self, uuid: &Uuid, sm: &StreamMeta) -> (r: Result<Vec<u8>, Error>)
        requires
            sm@.unit_map.len() > 0,
            sm@.locations.len() > 0,
        ensures
            match self.meta_plain(*uuid, sm@) {
                Ok(p) => r is Ok && r->Ok_0@ == p,
                Err(e) => r == Err::<Vec<u8>, Error>(e),
            },
    {
        let loc: BlockLoc = sm.locations[0];
        let stored: Vec<u8> = match self.disk.blocks.get(loc.addr) {
            None => {
                return Err(Error::Integrity);
            },
            Some(b) => b,
        };
        if stored.len() as u64 != loc.len as u64 {
            return Err(Error::Integrity);
        }
        if !self.meta_seal_active() {
            return Ok(stored);
        }
        if stored.len() < 28 {
            return Err(Error::Integrity);
        }
        let nonce: Vec<u8> = copy_range(stored.as_slice(), 0, 12);
        let cipher: Vec<u8> = copy_range(stored.as_slice(), 12, stored.len());
        let aad: Vec<u8> = meta_stream_aad(uuid, loc.addr, sm.unit_map[0]);
        match C::open_meta(&self.root_key, nonce.as_slice(), aad.as_slice(), cipher.as_slice()) {
            None => Err(Error::Integrity),
            Some(p) => Ok(p),
        }
    }

    /// The metadata of a record.
    pub fn metadata_of(&self, rec: &UnitRecord) -> (r: Result<Option<Vec<u8>>, Error>)
        ensures
            match self.metadata(rec@) {
                Ok(None) => r == Ok::<Option<Vec<u8>>, Error>(None),
                Ok(Some(p)) => r is Ok && r->Ok_0 is Some && r->Ok_0->Some_0@ == p,
                Err(e) => r == Err::<Option<Vec<u8>>, Error>(e),
            },
    {
        let sm: &StreamMeta = match &rec.meta {
            None => {
                return Ok(None);
            },
            Some(sm) => sm,
        };
        if sm.unit_map.len() == 0 || sm.locations.len() == 0 {
            return Ok(None);
        }
        match self.read_meta_plaintext(&rec.uuid, sm) {
            Ok(p) => Ok(Some(p)),
            Err(e) => Err(e),
        }
    }

    /// The metadata of the unit at `path`, `None` where it has none.
    pub fn read_meta(&self, path: &str) -> (r: Result<Option<Vec<u8>>, Error>)
        requires
            self.inv(),
        ensures
            match self.head(path.spec_bytes()) {
                Err(e) => r == Err::<Option<Vec<u8>>, Error>(e),
                Ok((_, _, m)) => match self.metadata(m) {
                    Ok(None) => r == Ok::<Option<Vec<u8>>, Error>(None),
                    Ok(Some(p)) => r is Ok && r->Ok_0 is Some && r->Ok_0->Some_0@ == p,
                    Err(e) => r == Err::<Option<Vec<u8>>, Error>(e),
                },
            },
    {
        match self.find_head(path.as_bytes()) {
            Err(e) => Err(e),
            Ok((uuid, addr, rec)) => self.metadata_of(&rec),
        }
    }

    /// The vector of the metadata stream at `path`, `None` without one.
    pub fn meta_stream_vv(&self, path: &str) -> (r: Result<Option<VersionVector>, Error>)
        requires
            self.inv(),
        ensures
            match self.head(path.spec_bytes()) {
                Err(e) => r == Err::<Option<VersionVector>, Error>(e),
                Ok((_, _, m)) => match m.meta {
                    None => r == Ok::<Option<VersionVector>, Error>(None),
                    Some(sm) => r is Ok && r->Ok_0 is Some && r->Ok_0->Some_0@ == sm.vv,
                },
            },
    {
        match self.find_head(path.as_bytes()) {
            Err(e) => Err(e),
            Ok((uuid, addr, rec)) => match &rec.meta {
                None => Ok(None),
                Some(sm) => Ok(Some(sm.vv.clone())),
            },
        }
    }

    /// The record of `r0` after `plain` was written as its metadata.
    pub open spec fn meta_wrote(
        o: &Self,
        e: &Self,
        r0: RecordModel,
        head_addr: u64,
        plain: Seq<u8>,
        nonce: Seq<u8>,
        r1: RecordModel,
    ) -> bool {
        let version = dot(o.local_alias, (vv_get(r0.meta_vv(), o.local_alias) + 1) as u64);
        let addr = (o.slots().len() + 1) as u64;
        let form = suites_form(o.carried(r0, r0.stream().n()), o.header.content_cipher);
        &&& e.slots() == o.slots().push(o.meta_block(r0.uuid, addr, version, nonce, plain))
        &&& r1 == (RecordModel {
            uuid: r0.uuid,
            content: r0.content,
            meta: r1.meta,
            parent: Some(head_addr),
            strains: Seq::empty(),
            content_suite: Some(form.0),
            frag_suites: form.1,
            signature: r1.signature,
            db: r0.db,
            superseded: Seq::empty(),
        })
        &&& r1.meta is Some
        &&& vv_is_bump(r0.meta_vv(), o.local_alias, r1.meta_vv())
        &&& r1.meta->Some_0 == Self::meta_stream(
            r1.meta_vv(),
            version,
            (BlockLoc { addr, len: e.slots().last().len() as u32 }),
        )
    }

    /// What writing metadata with a given nonce does.
    pub open spec fn write_meta_step(
        o: &Self,
        e: &Self,
        key: Seq<u8>,
        plain: Seq<u8>,
        nonce: Seq<u8>,
        r: Result<(), Error>,
    ) -> bool {
        match o.head(key) {
            Err(err) => r == Err::<(), Error>(err) && *e == *o,
            Ok((uuid, head_addr, r0)) => if !o.may_sign() {
                r == Err::<(), Error>(Error::Integrity) && Self::nothing_installed(o, e)
            } else {
                let m = e.recs().last();
                &&& r is Ok
                &&& e.recs() == o.recs().push(m)
                &&& e.recs().len() <= u64::MAX
                &&& e.ids@ == o.ids@.insert(uuid@, e.recs().len() as u64)
                &&& e.keys@ == o.keys@
                &&& Self::same_setup(o, e)
                &&& Self::past_kept(o, e)
                &&& Self::commit_step(o, e)
                &&& Self::meta_wrote(o, e, r0, head_addr, plain, nonce, m)
                &&& m == o.signed_fresh((RecordModel { signature: None, ..m }))
            },
        }
    }

    /// The limits that writing metadata at `key` must stay within.
    pub open spec fn meta_fits(&self, key: Seq<u8>, len: nat) -> bool {
        &&& len + 28 <= u32::MAX
        &&& self.head(key) is Ok ==> vv_get(
            self.head(key)->Ok_0.2.meta_vv(),
            self.local_alias,
        ) < u64::MAX
    }

    /// Writes metadata, sealed with the given nonce; content stays as it is.
    pub fn write_meta_with(&mut self, key: &[u8], plain: &[u8], nonce: &[u8]) -> (r: Result<
        (),
        Error,
    >)
        requires
            old(self).inv(),
            old(self).header.commit_seq < u64::MAX,
            old(self).meta_fits(key@, plain@.len()),
            nonce@.len() == 12,
        ensures
            final(self).inv(),
            old(self).recoverable() ==> final(self).recoverable(),
            Self::write_meta_step(old(self), final(self), key@, plain@, nonce@, r),
    {
        let ghost o = *self;
        let (uuid, head_addr, rec): (Uuid, u64, UnitRecord) = match self.find_head(key) {
            Err(e) => {
                return Err(e);
            },
            Ok(x) => x,
        };
        let ghost r0 = rec@;
        let ghost k = r0.uuid@;
        let ghost lo = o.slots().len();
        let mut vv: VersionVector = match &rec.meta {
            None => VersionVector::new(),
            Some(sm) => sm.vv.clone(),
        };
        let sync_id: u64 = vv.bump(self.local_alias);
        let version: u64 = pack_dot(self.local_alias, sync_id);
        let sm: StreamMeta = self.stage_meta(&uuid, plain, version, vv, nonce);
        let n: usize = match &rec.content {
            None => 0,
            Some(s) => s.unit_map.len(),
        };
        let (suite, frag_suites): (u8, Vec<u8>) = self.frag_suites_carryover(&rec, n);
        let out: UnitRecord = UnitRecord {
            uuid,
            content: clone_stream(&rec.content),
            meta: Some(sm),
            parent: Some(head_addr),
            concurrent_strains: Vec::new(),
            content_suite: Some(suite),
            frag_suites,
            signature: None,
            db: rec.db,
            superseded: Vec::new(),
        };
        let ghost r1 = out@;
        proof {
            assert(r1.strains =~= Seq::<u64>::empty());
            assert(r1.superseded =~= Seq::<u64>::empty());
            assert(self.carried(r0, n as nat) =~= o.carried(r0, n as nat));
            Self::lemma_meta_places(&o, &*self, r0, r1);
            o.lemma_may_sign(r1);
            self.lemma_may_sign(r1);
            assert((RecordModel { signature: None, ..o.signed_fresh(r1) }) == r1);
        }
        self.commit_head(out, RecordSignIntent::Fresh, Ghost(lo))
    }

    pub proof fn lemma_meta_places(o: &Self, e: &Self, r0: RecordModel, r1: RecordModel)
        requires
            o.inv(),
            o.ids@.contains_key(r0.uuid@),
            o.recs()[o.ids@[r0.uuid@] - 1] == r0,
            r1.content == r0.content,
            o.slots().len() <= e.slots().len(),
            r1.meta is Some ==> r1.meta->Some_0.locations.len() > 0 && o.slots().len()
                < r1.meta->Some_0.locations[0].addr <= e.slots().len(),
        ensures
            places_step(o.ids@, o.recs(), r0.uuid@, r1, o.slots().len(), e.slots().len()),
    {
        let lo = o.slots().len();
        let k = r0.uuid@;
        assert forall|p: int| #[trigger]
            place(r1, p) == 0 || place(r1, p) == live(o.ids@, o.recs(), k, p) || lo < place(r1, p)
                <= e.slots().len() by {}
        assert forall|p: int, q: int|
            #![trigger place(r1, p), place(r1, q)]
            place(r1, p) > lo && place(r1, p) == place(r1, q) implies p == q by {
            assert(live(o.ids@, o.recs(), k, p) <= lo);
            assert(live(o.ids@, o.recs(), k, q) <= lo);
        }
    }

    /// Writes metadata at `path`, sealed with a random nonce.
    pub fn write_meta(&mut self, path: &str, meta_bytes: &[u8]) -> (r: Result<(), Error>)
        requires
            old(self).inv(),
            old(self).header.commit_seq < u64::MAX,
            old(self).meta_fits(path.spec_bytes(), meta_bytes@.len()),
        ensures
            final(self).inv(),
            old(self).recoverable() ==> final(self).recoverable(),
            r == Err::<(), Error>(Error::Entropy) && *final(self) == *old(self) && old(self).head(
                path.spec_bytes(),
            ) is Ok || exists|nonce: Seq<u8>|
                nonce.len() == 12 && #[trigger] Self::write_meta_step(
                    old(self),
                    final(self),
                    path.spec_bytes(),
                    meta_bytes@,
                    nonce,
                    r,
                ),
    {
        match self.find_head(path.as_bytes()) {
            Err(e) => {
                proof {
                    let nonce = Seq::new(12, |i: int| 0u8);
                    assert(Self::write_meta_step(
                        old(self),
                        &*self,
                        path.spec_bytes(),
                        meta_bytes@,
                        nonce,
                        Err(e),
                    ));
                }
                return Err(e);
            },
            Ok(_) => {},
        }
        let nonce: Vec<u8> = match random_bytes(12) {
            None => {
                return Err(Error::Entropy);
            },
            Some(n) => n,
        };
        self.write_meta_with(path.as_bytes(), meta_bytes, nonce.as_slice())
    }

    /// Metadata that was written reads back.
    pub proof fn law_metadata_reads_back(
        o: &Self,
        e: &Self,
        r0: RecordModel,
        head_addr: u64,
        plain: Seq<u8>,
        nonce: Seq<u8>,
        r1: RecordModel,
    )
        requires
            Self::meta_wrote(o, e, r0, head_addr, plain, nonce, r1),
            nonce.len() == 12,
            plain.len() + 28 <= u32::MAX,
            o.slots().len() < u64::MAX,
            o.root_key == e.root_key,
            o.header.cipher == e.header.cipher,
        ensures
            e.metadata(r1) == Ok::<Option<Seq<u8>>, Error>(Some(plain)),
    {
        let sm = r1.meta->Some_0;
        let loc = sm.locations[0];
        let b = e.slots().last();
        let aad = meta_aad(r0.uuid, loc.addr, sm.unit_map[0]);
        C::lemma_meta_open_of_seal(o.root_key, nonce, aad, plain);
        assert(stored_at(e.slots(), loc) == Some(b));
        if o.seals_meta() {
            assert(b.subrange(0, 12) =~= nonce);
            assert(b.subrange(12, b.len() as int) =~= C::meta_sealed(
                o.root_key,
                nonce,
                aad,
                plain,
            ));
        }
    }
}

} // verus!
