//! Records on their way between replicas: projecting, sealing and opening them.
use vstd::prelude::*;

use crate::bytes::{array16, copy_range, push_all, same16, same_bytes, take16};
use crate::crypto::{Crypto, CIPHER_AES256_GCM};
use crate::engine::Engine;
use crate::error::Error;
use crate::outside::random_bytes;
use crate::projection::{
    encode_projection, law_projection_round_trip, parse_projection, projection_bytes,
    projection_fits, projection_parse, AttestModel, Attestation, MetaModel, MetaPart, Projection,
    ProjectionModel,
};
use crate::unit::{
    copy_u64s, parse_signing_payload, payload_of, payload_parse, RecordModel, SignedModel,
    SigningPayload, UnitRecord, Uuid,
};
use crate::vector::vv_bytes;
use crate::verify_trailer::{frame_bytes, frame_record};
use crate::writerset::{
    first_verifying, scope_keys, signer_of, writerset_verifying_member, MembershipScope, SignMode,
};

verus! {

/// What a sealed projection is bound to: the unit, and `rec-proj-v1`.
pub open spec fn projection_aad(uuid: Uuid) -> Seq<u8> {
    uuid@ + seq![114u8, 101, 99, 45, 112, 114, 111, 106, 45, 118, 49]
}

fn record_aad(uuid: &Uuid) -> (r: Vec<u8>)
    ensures
        r@ == projection_aad(*uuid),
{
    let mut r: Vec<u8> = Vec::new();
    push_all(&mut r, uuid.as_slice());
    let name: [u8; 11] = [114, 101, 99, 45, 112, 114, 111, 106, 45, 118, 49];
    push_all(&mut r, name.as_slice());
    proof {
        assert(r@ =~= projection_aad(*uuid));
    }
    r
}

impl<C: Crypto> Engine<C> {
    /// A record as it travels, if its metadata can be read.
    pub open spec fn projected(&self, key: Seq<u8>, uuid: Uuid, r: RecordModel) -> Result<
        ProjectionModel,
        Error,
    > {
        let meta = match r.meta {
            None => Ok(None),
            Some(sm) => if sm.unit_map.len() == 0 || sm.locations.len() == 0 {
                Ok(None)
            } else {
                match self.meta_plain(uuid, sm) {
                    Err(e) => Err(e),
                    Ok(plain) => Ok(Some(MetaModel { plain, version: sm.unit_map[0], vv: sm.vv })),
                }
            },
        };
        match meta {
            Err(e) => Err(e),
            Ok(meta) => Ok(
                ProjectionModel {
                    key,
                    fragsize_exp: if r.content is Some {
                        r.stream().fragsize_exp
                    } else {
                        0
                    },
                    last_frag_length: if r.content is Some {
                        r.stream().last_frag_length
                    } else {
                        0
                    },
                    unit_map: r.stream().unit_map,
                    vv: r.content_vv(),
                    attest: if self.header.sign_mode != SignMode::Unsigned && r.signature is Some {
                        Some(
                            AttestModel {
                                signature: r.signature->Some_0,
                                payload: payload_of(r),
                            },
                        )
                    } else {
                        None
                    },
                    has_content: r.content is Some,
                    meta,
                },
            ),
        }
    }

    /// Puts a record in the form in which it travels.
    pub fn project(&self, key: &[u8], uuid: &Uuid, rec: &UnitRecord) -> (r: Result<
        Projection,
        Error,
    >)
        ensures
            match self.projected(key@, *uuid, rec@) {
                Err(e) => r == Err::<Projection, Error>(e),
                Ok(p) => r is Ok && r->Ok_0@ == p,
            },
    {
        let meta: Option<MetaPart> = match &rec.meta {
            None => None,
            Some(sm) => if sm.unit_map.len() == 0 || sm.locations.len() == 0 {
                None
            } else {
                match self.read_meta_plaintext(uuid, sm) {
                    Err(e) => {
                        return Err(e);
                    },
                    Ok(plain) => Some(
                        MetaPart { plain, version: sm.unit_map[0], vv: sm.vv.clone() },
                    ),
                }
            },
        };
        let attest: Option<Attestation> = match self.header.sign_mode {
            SignMode::Unsigned => None,
            _ => match rec.signature {
                None => None,
                Some(signature) => Some(
                    Attestation { signature, payload: rec.signing_payload() },
                ),
            },
        };
        let (fragsize_exp, last_frag_length, unit_map): (u8, u32, Vec<u64>) = match &rec.content {
            None => (0, 0, Vec::new()),
            Some(sm) => (sm.fragsize_exp, sm.last_frag_length, copy_u64s(&sm.unit_map)),
        };
        let p: Projection = Projection {
            key: copy_range(key, 0, key.len()),
            fragsize_exp,
            last_frag_length,
            unit_map,
            vv: rec.vector(),
            attest,
            has_content: rec.content.is_some(),
            meta,
        };
        proof {
            assert(p@.key =~= key@);
            assert(p@.unit_map =~= rec@.stream().unit_map);
            assert(p@ =~= self.projected(key@, *uuid, rec@)->Ok_0);
        }
        Ok(p)
    }

    /// A projection as it is sent: the unit in the clear, then the projection,
    /// sealed where metadata is.
    pub open spec fn envelope(&self, uuid: Uuid, nonce: Seq<u8>, plain: Seq<u8>) -> Seq<u8> {
        if self.header.cipher == CIPHER_AES256_GCM {
            self.sealed_envelope(uuid, nonce, plain)
        } else {
            uuid@ + plain
        }
    }

    /// A projection, sealed.
    pub open spec fn sealed_envelope(&self, uuid: Uuid, nonce: Seq<u8>, plain: Seq<u8>) -> Seq<u8> {
        uuid@ + nonce + C::meta_sealed(self.root_key, nonce, projection_aad(uuid), plain)
    }

    /// The unit and the projection that sealed bytes hold, if they open.
    pub open spec fn unsealed(&self, b: Seq<u8>) -> Option<(Uuid, Seq<u8>)> {
        if b.len() < 44 {
            None
        } else {
            let uuid = array16(b.subrange(0, 16));
            match C::meta_opened(
                self.root_key,
                b.subrange(16, 28),
                projection_aad(uuid),
                b.subrange(28, b.len() as int),
            ) {
                None => None,
                Some(p) => Some((uuid, p)),
            }
        }
    }

    /// The unit and the projection that received bytes hold, if they open.
    pub open spec fn unwrapped(&self, b: Seq<u8>) -> Option<(Uuid, Seq<u8>)> {
        if b.len() < 16 {
            None
        } else if self.header.cipher == CIPHER_AES256_GCM {
            self.unsealed(b)
        } else {
            Some((array16(b.subrange(0, 16)), b.subrange(16, b.len() as int)))
        }
    }

    fn seal_projection(&self, uuid: &Uuid, nonce: &[u8], plain: &[u8]) -> (out: Vec<u8>)
        ensures
            out@ == self.sealed_envelope(*uuid, nonce@, plain@),
    {
        let mut out: Vec<u8> = Vec::new();
        push_all(&mut out, uuid.as_slice());
        let aad: Vec<u8> = record_aad(uuid);
        let sealed: Vec<u8> = C::seal_meta(&self.root_key, nonce, aad.as_slice(), plain);
        push_all(&mut out, nonce);
        push_all(&mut out, sealed.as_slice());
        proof {
            assert(out@ =~= self.sealed_envelope(*uuid, nonce@, plain@));
        }
        out
    }

    /// Wraps a projection with the given nonce.
    pub fn wrap_projection(&self, uuid: &Uuid, nonce: &[u8], plain: &[u8]) -> (out: Vec<u8>)
        ensures
            out@ == self.envelope(*uuid, nonce@, plain@),
    {
        if self.header.cipher == CIPHER_AES256_GCM {
            return self.seal_projection(uuid, nonce, plain);
        }
        let mut out: Vec<u8> = Vec::new();
        push_all(&mut out, uuid.as_slice());
        push_all(&mut out, plain);
        proof {
            assert(out@ =~= self.envelope(*uuid, nonce@, plain@));
        }
        out
    }

    /// Opens sealed bytes.
    pub fn debug_unwrap_projection(&self, blob: &[u8]) -> (r: Result<(Uuid, Vec<u8>), Error>)
        ensures
            match self.unsealed(blob@) {
                None => r == Err::<(Uuid, Vec<u8>), Error>(Error::Integrity),
                Some(x) => r is Ok && r->Ok_0.0 == x.0 && r->Ok_0.1@ == x.1,
            },
    {
        if blob.len() < 44 {
            return Err(Error::Integrity);
        }
        let uuid: Uuid = take16(blob, 0);
        let nonce: Vec<u8> = copy_range(blob, 16, 28);
        let sealed: Vec<u8> = copy_range(blob, 28, blob.len());
        let aad: Vec<u8> = record_aad(&uuid);
        match C::open_meta(&self.root_key, nonce.as_slice(), aad.as_slice(), sealed.as_slice()) {
            None => Err(Error::Integrity),
            Some(p) => Ok((uuid, p)),
        }
    }

    /// Seals a projection with a random nonce.
    pub fn debug_wrap_projection(&self, uuid: &Uuid, plaintext: &[u8]) -> (r: Result<Vec<u8>, Error>)
        ensures
            r == Err::<Vec<u8>, Error>(Error::Entropy) || r is Ok && exists|nonce: Seq<u8>|
                nonce.len() == 12 && r->Ok_0@ == #[trigger] self.sealed_envelope(
                    *uuid,
                    nonce,
                    plaintext@,
                ),
    {
        match random_bytes(12) {
            None => Err(Error::Entropy),
            Some(nonce) => Ok(self.seal_projection(uuid, nonce.as_slice(), plaintext)),
        }
    }

    /// Opens received bytes.
    pub fn unwrap_projection(&self, b: &[u8]) -> (r: Result<(Uuid, Vec<u8>), Error>)
        ensures
            match self.unwrapped(b@) {
                None => r == Err::<(Uuid, Vec<u8>), Error>(Error::Integrity),
                Some(x) => r is Ok && r->Ok_0.0 == x.0 && r->Ok_0.1@ == x.1,
            },
    {
        if b.len() < 16 {
            return Err(Error::Integrity);
        }
        if self.header.cipher == CIPHER_AES256_GCM {
            return self.debug_unwrap_projection(b);
        }
        Ok((take16(b, 0), copy_range(b, 16, b.len())))
    }

    /// What is sent can be opened by whoever has the key.
    pub proof fn law_envelope_round_trip(&self, uuid: Uuid, nonce: Seq<u8>, plain: Seq<u8>)
        requires
            nonce.len() == 12,
        ensures
            self.unwrapped(self.envelope(uuid, nonce, plain)) == Some((uuid, plain)),
    {
        let b = self.envelope(uuid, nonce, plain);
        C::lemma_meta_open_of_seal(self.root_key, nonce, projection_aad(uuid), plain);
        assert(b.subrange(0, 16) =~= uuid@);
        assert(array16(uuid@)@ == uuid@);
        assert(array16(uuid@) =~= uuid);
        if self.header.cipher == CIPHER_AES256_GCM {
            assert(b.subrange(16, 28) =~= nonce);
            assert(b.subrange(28, b.len() as int) =~= C::meta_sealed(
                self.root_key,
                nonce,
                projection_aad(uuid),
                plain,
            ));
        } else {
            assert(b.subrange(16, b.len() as int) =~= plain);
        }
    }

    /// `out` is what is sent of record `m`, under some nonce.
    pub open spec fn sent(&self, key: Seq<u8>, uuid: Uuid, m: RecordModel, out: Seq<u8>) -> bool {
        exists|nonce: Seq<u8>|
            nonce.len() == 12 && out == #[trigger] self.envelope(
                uuid,
                nonce,
                projection_bytes(self.projected(key, uuid, m)->Ok_0),
            )
    }

    /// Projects and wraps a record, with a random nonce.
    fn project_record(&self, key: &[u8], uuid: &Uuid, rec: &UnitRecord) -> (r: Result<
        Vec<u8>,
        Error,
    >)
        ensures
            match self.projected(key@, *uuid, rec@) {
                Err(e) => r == Err::<Vec<u8>, Error>(e),
                Ok(p) => r == Err::<Vec<u8>, Error>(Error::Entropy) || r is Ok && self.sent(
                    key@,
                    *uuid,
                    rec@,
                    r->Ok_0@,
                ),
            },
    {
        let p: Projection = match self.project(key, uuid, rec) {
            Err(e) => {
                return Err(e);
            },
            Ok(p) => p,
        };
        let plain: Vec<u8> = encode_projection(&p);
        let nonce: Vec<u8> = match random_bytes(12) {
            None => {
                return Err(Error::Entropy);
            },
            Some(n) => n,
        };
        Ok(self.wrap_projection(uuid, nonce.as_slice(), plain.as_slice()))
    }

    /// The record at `key` as another replica can import it.
    pub fn export_record(&self, key: &[u8]) -> (r: Result<Vec<u8>, Error>)
        requires
            self.inv(),
        ensures
            match self.head(key@) {
                Err(e) => r == Err::<Vec<u8>, Error>(e),
                Ok((uuid, _, m)) => match self.projected(key@, uuid, m) {
                    Err(e) => r == Err::<Vec<u8>, Error>(e),
                    Ok(p) => r == Err::<Vec<u8>, Error>(Error::Entropy) || r is Ok && self.sent(
                        key@,
                        uuid,
                        m,
                        r->Ok_0@,
                    ),
                },
            },
    {
        match self.find_head(key) {
            Err(e) => Err(e),
            Ok((uuid, addr, rec)) => self.project_record(key, &uuid, &rec),
        }
    }

    /// Why the `i`th record of a unit with strains cannot be sent: the strains
    /// come first, the head last.
    pub open spec fn frontier_error(
        &self,
        key: Seq<u8>,
        uuid: Uuid,
        m: RecordModel,
        i: int,
    ) -> Option<Error> {
        if i < m.strains.len() {
            match self.record(m.strains[i]) {
                Err(e) => Some(e),
                Ok(s) => match self.projected(key, uuid, s) {
                    Err(e) => Some(e),
                    Ok(_) => None,
                },
            }
        } else {
            match self.projected(key, uuid, m) {
                Err(e) => Some(e),
                Ok(_) => None,
            }
        }
    }

    /// The first error in the way of sending all records of a unit.
    pub open spec fn frontier_blocked(
        &self,
        key: Seq<u8>,
        uuid: Uuid,
        m: RecordModel,
        n: int,
    ) -> Option<Error>
        decreases n,
    {
        if n <= 0 {
            None
        } else {
            match self.frontier_blocked(key, uuid, m, n - 1) {
                Some(e) => Some(e),
                None => self.frontier_error(key, uuid, m, n - 1),
            }
        }
    }

    /// The `i`th record of a unit with strains.
    pub open spec fn frontier_at(&self, m: RecordModel, i: int) -> RecordModel {
        if i < m.strains.len() {
            self.record(m.strains[i])->Ok_0
        } else {
            m
        }
    }

    /// All records at `key` as another replica can import them: one for each
    /// unresolved strain, then the head.
    pub fn export_records_frontier(&self, key: &[u8]) -> (r: Result<Vec<Vec<u8>>, Error>)
        requires
            self.inv(),
        ensures
            match self.head(key@) {
                Err(e) => r == Err::<Vec<Vec<u8>>, Error>(e),
                Ok((uuid, _, m)) => match self.frontier_blocked(
                    key@,
                    uuid,
                    m,
                    m.strains.len() as int + 1,
                ) {
                    Some(e) => r == Err::<Vec<Vec<u8>>, Error>(e) || r == Err::<
                        Vec<Vec<u8>>,
                        Error,
                    >(Error::Entropy),
                    None => {
                        ||| r == Err::<Vec<Vec<u8>>, Error>(Error::Entropy)
                        ||| r is Ok && r->Ok_0@.len() == m.strains.len() + 1 && forall|i: int|
                            0 <= i <= m.strains.len() ==> #[trigger] self.sent(
                                key@,
                                uuid,
                                self.frontier_at(m, i),
                                r->Ok_0@[i]@,
                            )
                    },
                },
            },
    {
        let (uuid, addr, rec): (Uuid, u64, UnitRecord) = match self.find_head(key) {
            Err(e) => {
                return Err(e);
            },
            Ok(x) => x,
        };
        let ghost m = rec@;
        let mut out: Vec<Vec<u8>> = Vec::new();
        let n: usize = rec.concurrent_strains.len();
        let mut i: usize = 0;
        while i < n
            invariant
                n == rec.concurrent_strains@.len(),
                m == rec@,
                self.head(key@) == Ok::<(Uuid, u64, RecordModel), Error>((uuid, addr, m)),
                i <= n,
                self.frontier_blocked(key@, uuid, m, i as int) is None,
                out@.len() == i,
                forall|k: int|
                    0 <= k < i ==> #[trigger] self.sent(
                        key@,
                        uuid,
                        self.frontier_at(m, k),
                        out@[k]@,
                    ),
            decreases n - i,
        {
            proof {
                self.lemma_blocked(key@, uuid, m, i as int + 1, n as int + 1);
            }
            let strain: UnitRecord = match self.read_record_at(rec.concurrent_strains[i]) {
                Err(e) => {
                    return Err(e);
                },
                Ok(s) => s,
            };
            match self.project_record(key, &uuid, &strain) {
                Err(e) => {
                    return Err(e);
                },
                Ok(b) => {
                    out.push(b);
                },
            }
            i = i + 1;
        }
        match self.project_record(key, &uuid, &rec) {
            Err(e) => Err(e),
            Ok(b) => {
                out.push(b);
                Ok(out)
            },
        }
    }

    proof fn lemma_blocked(&self, key: Seq<u8>, uuid: Uuid, m: RecordModel, i: int, n: int)
        requires
            0 <= i <= n,
        ensures
            self.frontier_blocked(key, uuid, m, i) is Some ==> self.frontier_blocked(
                key,
                uuid,
                m,
                n,
            ) == self.frontier_blocked(key, uuid, m, i),
        decreases n,
    {
        if i < n {
            self.lemma_blocked(key, uuid, m, i, n - 1);
        }
    }
}


impl<C: Crypto> Engine<C> {
    /// The record at `key` in a frame that anyone can verify who knows the
    /// writers, without the container's key.
    pub fn export_record_verifiable(&self, key: &[u8]) -> (r: Result<Vec<u8>, Error>)
        requires
            self.inv(),
        ensures
            match self.head(key@) {
                Err(e) => r == Err::<Vec<u8>, Error>(e),
                Ok((uuid, _, m)) => match self.projected(key@, uuid, m) {
                    Err(e) => r == Err::<Vec<u8>, Error>(e),
                    Ok(p) => {
                        ||| r == Err::<Vec<u8>, Error>(Error::Entropy)
                        ||| self.header.sign_mode == SignMode::Unsigned && r == Err::<Vec<u8>, Error>(
                            Error::Integrity,
                        )
                        ||| self.header.sign_mode != SignMode::Unsigned && r is Ok && exists|
                            sent: Seq<u8>,
                        | #[trigger]
                            self.sent(key@, uuid, m, sent) && r->Ok_0@ == frame_bytes(
                                sent,
                                self.author(m),
                                m.signature->Some_0,
                                payload_of(m),
                            )
                    },
                },
            },
    {
        let projection: Vec<u8> = match self.export_record(key) {
            Err(e) => {
                return Err(e);
            },
            Ok(p) => p,
        };
        let (uuid, addr, rec): (Uuid, u64, UnitRecord) = match self.find_head(key) {
            Err(e) => {
                return Err(e);
            },
            Ok(x) => x,
        };
        let signature: [u8; 64] = match rec.signature {
            None => {
                return Err(Error::Integrity);
            },
            Some(s) => s,
        };
        let payload: Vec<u8> = rec.signing_payload();
        let pubkey: [u8; 32] = match self.header.sign_mode {
            SignMode::Unsigned => {
                return Err(Error::Integrity);
            },
            SignMode::Signed => self.header.writer_pubkey,
            SignMode::WriterSet => match &self.writer_set {
                None => {
                    return Err(Error::Integrity);
                },
                Some(ws) => match writerset_verifying_member::<C>(
                    ws,
                    payload.as_slice(),
                    &signature,
                    MembershipScope::CurrentOrRemoved,
                ) {
                    None => {
                        return Err(Error::Integrity);
                    },
                    Some(pk) => pk,
                },
            },
        };
        Ok(frame_record(projection.as_slice(), &pubkey, &signature, payload.as_slice()))
    }

    /// The writer whose key verifies the signature of record `m`.
    pub open spec fn author(&self, m: RecordModel) -> [u8; 32] {
        signer_of::<C>(m, self.trust(), MembershipScope::CurrentOrRemoved)->Ok_0->Some_0
    }

    /// The signature that came with a projection is one that this container
    /// takes: of its writer, or of a present member of its writer set, over
    /// exactly what the projection says of the unit's content.
    pub open spec fn attested(&self, uuid: Uuid, p: ProjectionModel) -> bool {
        if self.header.sign_mode == SignMode::Unsigned {
            true
        } else {
            let a = p.attest->Some_0;
            &&& p.attest is Some
            &&& if self.header.sign_mode == SignMode::Signed {
                C::verified(self.header.writer_pubkey, a.payload, a.signature)
            } else {
                &&& self.writer_set is Some
                &&& first_verifying::<C>(
                    scope_keys(self.writer_set->Some_0@, MembershipScope::Current),
                    a.payload,
                    a.signature,
                ) is Some
            }
            &&& payload_parse(a.payload) == Some(
                (
                    uuid,
                    Some(
                        SignedModel {
                            unit_map: p.unit_map,
                            fragsize_exp: p.fragsize_exp,
                            last_frag_length: p.last_frag_length,
                            vv_bytes: vv_bytes(p.vv),
                        },
                    ),
                ),
            )
        }
    }

    /// The unit and the projection that received bytes hold, if they open and
    /// this container takes them.
    pub open spec fn incoming(&self, b: Seq<u8>) -> Option<(Uuid, ProjectionModel)> {
        match self.unwrapped(b) {
            None => None,
            Some((uuid, plain)) => match projection_parse(
                plain,
                self.header.sign_mode != SignMode::Unsigned,
            ) {
                None => None,
                Some(p) => if self.attested(uuid, p) {
                    Some((uuid, p))
                } else {
                    None
                },
            },
        }
    }

    fn attests(&self, uuid: &Uuid, p: &Projection) -> (r: bool)
        ensures
            r == self.attested(*uuid, p@),
    {
        let a: &Attestation = match self.header.sign_mode {
            SignMode::Unsigned => {
                return true;
            },
            _ => match &p.attest {
                None => {
                    return false;
                },
                Some(a) => a,
            },
        };
        match self.header.sign_mode {
            SignMode::WriterSet => match &self.writer_set {
                None => {
                    return false;
                },
                Some(ws) => if writerset_verifying_member::<C>(
                    ws,
                    a.payload.as_slice(),
                    &a.signature,
                    MembershipScope::Current,
                ).is_none() {
                    return false;
                },
            },
            _ => {
                if !C::verify(&self.header.writer_pubkey, a.payload.as_slice(), &a.signature) {
                    return false;
                }
            },
        }
        let signed: SigningPayload = match parse_signing_payload(a.payload.as_slice()) {
            Err(_) => {
                return false;
            },
            Ok(x) => x,
        };
        let vv: Vec<u8> = p.vv.to_bytes();
        match &signed.content {
            None => false,
            Some(c) => {
                let same: bool = same16(&signed.uuid, uuid) && same_words(&c.unit_map, &p.unit_map)
                    && c.fragsize_exp == p.fragsize_exp && c.last_frag_length == p.last_frag_length
                    && same_bytes(c.vv_bytes.as_slice(), vv.as_slice());
                proof {
                    let want = SignedModel {
                        unit_map: p@.unit_map,
                        fragsize_exp: p@.fragsize_exp,
                        last_frag_length: p@.last_frag_length,
                        vv_bytes: vv_bytes(p@.vv),
                    };
                    assert(same <==> signed.uuid == *uuid && c@ == want);
                }
                same
            },
        }
    }

    /// Opens received bytes and checks that this container takes them.
    pub fn open_incoming(&self, b: &[u8]) -> (r: Result<(Uuid, Projection), Error>)
        ensures
            match self.incoming(b@) {
                None => r == Err::<(Uuid, Projection), Error>(Error::Integrity),
                Some(x) => r is Ok && r->Ok_0.0 == x.0 && r->Ok_0.1@ == x.1,
            },
    {
        let (uuid, plain): (Uuid, Vec<u8>) = match self.unwrap_projection(b) {
            Err(_) => {
                return Err(Error::Integrity);
            },
            Ok(x) => x,
        };
        let signed: bool = match self.header.sign_mode {
            SignMode::Unsigned => false,
            _ => true,
        };
        let p: Projection = match parse_projection(plain.as_slice(), signed) {
            Err(_) => {
                return Err(Error::Integrity);
            },
            Ok(p) => p,
        };
        if self.attests(&uuid, &p) {
            Ok((uuid, p))
        } else {
            Err(Error::Integrity)
        }
    }
}

fn same_words(a: &Vec<u64>, b: &Vec<u64>) -> (r: bool)
    ensures
        r == (a@ == b@),
{
    if a.len() != b.len() {
        return false;
    }
    let mut i: usize = 0;
    while i < a.len()
        invariant
            i <= a@.len(),
            a@.len() == b@.len(),
            forall|k: int| 0 <= k < i ==> a@[k] == b@[k],
        decreases a@.len() - i,
    {
        if a[i] != b[i] {
            return false;
        }
        i = i + 1;
    }
    proof {
        assert(a@ =~= b@);
    }
    true
}

/// A record that one replica exports, another replica with the same key and the
/// same writers takes in, as it was.
pub proof fn law_exported_records_are_taken<C: Crypto>(
    a: &Engine<C>,
    b: &Engine<C>,
    key: Seq<u8>,
    uuid: Uuid,
    m: RecordModel,
    sent: Seq<u8>,
)
    requires
        m.uuid == uuid,
        m.content is Some,
        a.projected(key, uuid, m) is Ok,
        projection_fits(a.projected(key, uuid, m)->Ok_0),
        m.stream().unit_map.len() <= u32::MAX,
        a.sent(key, uuid, m, sent),
        b.root_key == a.root_key,
        b.header.cipher == a.header.cipher,
        b.header.sign_mode == a.header.sign_mode,
        b.header.writer_pubkey == a.header.writer_pubkey,
        signer_of::<C>(m, b.trust(), MembershipScope::Current) is Ok,
    ensures
        b.incoming(sent) == Some((uuid, a.projected(key, uuid, m)->Ok_0)),
{
    let p = a.projected(key, uuid, m)->Ok_0;
    let nonce = choose|nonce: Seq<u8>|
        nonce.len() == 12 && sent == #[trigger] a.envelope(uuid, nonce, projection_bytes(p));
    assert(sent == b.envelope(uuid, nonce, projection_bytes(p)));
    b.law_envelope_round_trip(uuid, nonce, projection_bytes(p));
    law_projection_round_trip(p);
    if a.header.sign_mode != SignMode::Unsigned {
        crate::unit::law_payload_round_trip(m);
    }
}

} // verus!
