//! Creating and opening containers.
use vstd::prelude::*;

use crate::bytes::{array16, array32, same32, zeros};
use crate::commit::blobs_view;
use crate::crypto::{
    Crypto, CIPHER_AES256_GCM, CIPHER_NONE, CIPHER_XTS_AES256,
};
use crate::engine::{
    journal_ok, phase1_key, undo_ok, Committed, Container, ContainerHeader, Engine,
};
use crate::error::Error;
use crate::evicted::EvictedModel;
use crate::header::header_tag;
use crate::heap::lemma_undone_none;
use crate::members::{blob_addr, blob_len, load_and_verify_writerset, sealed_len, vouched};
use crate::unit::{RecordModel, Uuid};
use crate::writerset::{
    set_payload, set_view, SealedModel, SealedWriterSet, SignMode, WriterSet, WriterSetModel,
};

verus! {

/// The header of a fresh container.
pub open spec fn fresh_header(content_cipher: u8, salt: [u8; 16]) -> ContainerHeader {
    ContainerHeader {
        cipher: CIPHER_AES256_GCM,
        content_cipher,
        sign_mode: SignMode::Unsigned,
        writer_pubkey: array32(zeros(32)),
        owner_pubkey: array32(zeros(32)),
        writer_set: None,
        writer_set_epoch: 0,
        key_epoch: 0,
        commit_seq: 1,
        wal_applied_seq: 0,
        wal_enabled: false,
        pad_blocks: false,
        eviction_code: 0,
        salt,
    }
}

/// The suites that content can be created under.
pub open spec fn content_suite_ok(suite: u8) -> bool {
    suite == CIPHER_NONE || suite == CIPHER_AES256_GCM || suite == CIPHER_XTS_AES256
}

fn no_key() -> (r: [u8; 32])
    ensures
        r == array32(zeros(32)),
{
    let r: [u8; 32] = [0u8; 32];
    proof {
        assert(r@ =~= zeros(32));
        assert(array32(r@)@ == r@);
        assert(array32(r@) =~= r);
    }
    r
}

fn no_salt() -> (r: [u8; 16])
    ensures
        r == array16(zeros(16)),
{
    let r: [u8; 16] = [0u8; 16];
    proof {
        assert(r@ =~= zeros(16));
        assert(array16(r@)@ == r@);
        assert(array16(r@) =~= r);
    }
    r
}

fn new_header(content_cipher: u8, salt: [u8; 16]) -> (h: ContainerHeader)
    ensures
        h == fresh_header(content_cipher, salt),
{
    ContainerHeader {
        cipher: CIPHER_AES256_GCM,
        content_cipher,
        sign_mode: SignMode::Unsigned,
        writer_pubkey: no_key(),
        owner_pubkey: no_key(),
        writer_set: None,
        writer_set_epoch: 0,
        key_epoch: 0,
        commit_seq: 1,
        wal_applied_seq: 0,
        wal_enabled: false,
        pad_blocks: false,
        eviction_code: 0,
        salt,
    }
}

/// The key that containers without a key of their own use.
pub open spec fn default_key() -> [u8; 32] {
    array32(Seq::new(32, |i: int| 0x42u8))
}

fn shared_key() -> (r: [u8; 32])
    ensures
        r == default_key(),
{
    let r: [u8; 32] = phase1_key();
    proof {
        assert(r@ =~= Seq::new(32, |i: int| 0x42u8));
        assert(array32(r@)@ == r@);
        assert(array32(r@) =~= r);
    }
    r
}

impl<C: Crypto> Engine<C> {
    /// A container that nothing is stored in yet, ready for work.
    pub open spec fn created_with(r: Result<Self, Error>, header: ContainerHeader, key: [u8; 32]) -> bool {
        &&& r is Ok
        &&& r->Ok_0.inv()
        &&& r->Ok_0.recoverable()
        &&& r->Ok_0.is_fresh(header, key)
    }

    /// A fresh container with content under `cipher_id`, and the salt that its
    /// key was derived with.
    pub fn create_in_memory_with_cipher_key_and_salt(
        cipher_id: u8,
        root_key: [u8; 32],
        salt: [u8; 16],
    ) -> (r: Result<Self, Error>)
        ensures
            content_suite_ok(cipher_id) ==> Self::created_with(
                r,
                fresh_header(cipher_id, salt),
                root_key,
            ),
            !content_suite_ok(cipher_id) ==> r == Err::<Self, Error>(Error::Integrity),
    {
        if cipher_id != CIPHER_NONE && cipher_id != CIPHER_AES256_GCM && cipher_id
            != CIPHER_XTS_AES256 {
            return Err(Error::Integrity);
        }
        Ok(Self::boot(new_header(cipher_id, salt), root_key))
    }

    /// A fresh container with content under `cipher_id`.
    pub fn create_in_memory_with_cipher_and_key(cipher_id: u8, root_key: [u8; 32]) -> (r: Result<
        Self,
        Error,
    >)
        ensures
            content_suite_ok(cipher_id) ==> Self::created_with(
                r,
                fresh_header(cipher_id, array16(zeros(16))),
                root_key,
            ),
            !content_suite_ok(cipher_id) ==> r == Err::<Self, Error>(Error::Integrity),
    {
        Self::create_in_memory_with_cipher_key_and_salt(cipher_id, root_key, no_salt())
    }

    /// A fresh container with a key.
    pub fn create_in_memory_with_key(root_key: [u8; 32]) -> (r: Result<Self, Error>)
        ensures
            Self::created_with(
                r,
                fresh_header(CIPHER_AES256_GCM, array16(zeros(16))),
                root_key,
            ),
    {
        Self::create_in_memory_with_cipher_and_key(CIPHER_AES256_GCM, root_key)
    }

    /// A fresh container with a key.
    pub fn create_with_key(root_key: [u8; 32]) -> (r: Result<Self, Error>)
        ensures
            Self::created_with(
                r,
                fresh_header(CIPHER_AES256_GCM, array16(zeros(16))),
                root_key,
            ),
    {
        Self::create_in_memory_with_key(root_key)
    }

    /// A fresh container with the default key.
    pub fn create() -> (r: Result<Self, Error>)
        ensures
            Self::created_with(
                r,
                fresh_header(CIPHER_AES256_GCM, array16(zeros(16))),
                default_key(),
            ),
    {
        Self::create_with_key(shared_key())
    }

    /// A fresh container with content under `cipher_id`, a key, and the salt that
    /// the key was derived with.
    pub fn create_with_cipher_key_and_salt(cipher_id: u8, root_key: [u8; 32], salt: [u8; 16]) -> (r:
        Result<Self, Error>)
        ensures
            content_suite_ok(cipher_id) ==> Self::created_with(
                r,
                fresh_header(cipher_id, salt),
                root_key,
            ),
            !content_suite_ok(cipher_id) ==> r == Err::<Self, Error>(Error::Integrity),
    {
        Self::create_in_memory_with_cipher_key_and_salt(cipher_id, root_key, salt)
    }

    /// A fresh container with content under `cipher_id`, and a key.
    pub fn create_with_cipher_and_key(cipher_id: u8, root_key: [u8; 32]) -> (r: Result<Self, Error>)
        ensures
            content_suite_ok(cipher_id) ==> Self::created_with(
                r,
                fresh_header(cipher_id, array16(zeros(16))),
                root_key,
            ),
            !content_suite_ok(cipher_id) ==> r == Err::<Self, Error>(Error::Integrity),
    {
        Self::create_with_cipher_key_and_salt(cipher_id, root_key, no_salt())
    }

    /// A fresh container with content under `cipher_id`, and the default key.
    pub fn create_with_cipher(cipher_id: u8) -> (r: Result<Self, Error>)
        ensures
            content_suite_ok(cipher_id) ==> Self::created_with(
                r,
                fresh_header(cipher_id, array16(zeros(16))),
                default_key(),
            ),
            !content_suite_ok(cipher_id) ==> r == Err::<Self, Error>(Error::Integrity),
    {
        Self::create_with_cipher_and_key(cipher_id, shared_key())
    }

    /// Commits another header; nothing else changes.
    fn commit_header(&mut self, h: ContainerHeader)
        requires
            old(self).inv(),
            old(self).recoverable(),
            old(self).journaled@.len() == 0,
            h.commit_seq == old(self).header.commit_seq + 1,
        ensures
            final(self).inv(),
            final(self).recoverable(),
            *final(self) == (Engine {
                header: h,
                disk: (Container {
                    committed: (Committed {
                        header: h,
                        tag: header_tag::<C>(old(self).root_key, h),
                        ..old(self).disk.committed
                    }),
                    ..old(self).disk
                }),
                ..*old(self)
            }),
    {
        self.header = h;
        self.disk.committed.header = h;
        self.disk.committed.tag = h.tag::<C>(&self.root_key);
        proof {
            lemma_undone_none(self.slots(), self.tail(), h.commit_seq);
            assert(undo_ok(self.slots(), self.tail(), h.commit_seq, self.snap@, self.dirty@));
            assert(journal_ok(self.ids@, self.recs(), self.dirty@, self.journaled@));
        }
    }

    /// A fresh container that pads its blocks to full fragments, with a key.
    pub fn create_padded_with_key(root_key: [u8; 32]) -> (r: Result<Self, Error>)
        ensures
            Self::created_with(
                r,
                (ContainerHeader {
                    pad_blocks: true,
                    commit_seq: 2,
                    ..fresh_header(CIPHER_AES256_GCM, array16(zeros(16)))
                }),
                root_key,
            ),
    {
        let mut e: Self = match Self::create_with_key(root_key) {
            Err(x) => {
                return Err(x);
            },
            Ok(e) => e,
        };
        let mut h: ContainerHeader = e.header;
        h.pad_blocks = true;
        h.commit_seq = 2;
        e.commit_header(h);
        Ok(e)
    }

    /// A fresh container that pads its blocks to full fragments, with the default
    /// key.
    pub fn create_padded() -> (r: Result<Self, Error>)
        ensures
            Self::created_with(
                r,
                (ContainerHeader {
                    pad_blocks: true,
                    commit_seq: 2,
                    ..fresh_header(CIPHER_AES256_GCM, array16(zeros(16)))
                }),
                default_key(),
            ),
    {
        Self::create_padded_with_key(shared_key())
    }

    /// A fresh container whose records one writer signs.
    pub open spec fn signed_created(
        r: Result<Self, Error>,
        cipher: u8,
        key: [u8; 32],
        seed: [u8; 32],
    ) -> bool {
        &&& content_suite_ok(cipher) ==> {
            &&& r is Ok
            &&& r->Ok_0.inv()
            &&& r->Ok_0.recoverable()
            &&& r->Ok_0.signing_key == Some(seed)
            &&& (Engine { signing_key: None, ..r->Ok_0 }).is_fresh(
                (ContainerHeader {
                    sign_mode: SignMode::Signed,
                    writer_pubkey: C::pubkey_of(seed),
                    commit_seq: 2,
                    ..fresh_header(cipher, array16(zeros(16)))
                }),
                key,
            )
        }
        &&& !content_suite_ok(cipher) ==> r == Err::<Self, Error>(Error::Integrity)
    }

    /// A fresh container whose records one writer signs, with content under
    /// `cipher_id`.
    pub fn create_signed_in_memory_with_cipher_and_key(
        cipher_id: u8,
        root_key: [u8; 32],
        signing_seed: [u8; 32],
    ) -> (r: Result<Self, Error>)
        ensures
            Self::signed_created(r, cipher_id, root_key, signing_seed),
    {
        let mut e: Self = match Self::create_in_memory_with_cipher_and_key(cipher_id, root_key) {
            Err(x) => {
                return Err(x);
            },
            Ok(e) => e,
        };
        let mut h: ContainerHeader = e.header;
        h.sign_mode = SignMode::Signed;
        h.writer_pubkey = C::pubkey(&signing_seed);
        h.commit_seq = 2;
        e.commit_header(h);
        e.signing_key = Some(signing_seed);
        Ok(e)
    }

    /// A fresh container whose records one writer signs, with content under
    /// `cipher_id`.
    pub fn create_signed_with_key_and_cipher(
        root_key: [u8; 32],
        signing_seed: [u8; 32],
        cipher_id: u8,
    ) -> (r: Result<Self, Error>)
        ensures
            Self::signed_created(r, cipher_id, root_key, signing_seed),
    {
        Self::create_signed_in_memory_with_cipher_and_key(cipher_id, root_key, signing_seed)
    }

    /// A fresh container whose records one writer signs.
    pub fn create_signed_with_key(root_key: [u8; 32], signing_seed: [u8; 32]) -> (r: Result<
        Self,
        Error,
    >)
        ensures
            Self::signed_created(r, CIPHER_AES256_GCM, root_key, signing_seed),
    {
        Self::create_signed_in_memory_with_cipher_and_key(
            CIPHER_AES256_GCM,
            root_key,
            signing_seed,
        )
    }

    /// The writer set that a container starts with: its owner.
    pub open spec fn first_set(owner: [u8; 32]) -> WriterSetModel {
        WriterSetModel {
            epoch: 0,
            key_epoch: 0,
            owner_pubkey: owner,
            writers: seq![owner],
            removed: Seq::empty(),
        }
    }

    /// A fresh container with a writer set of which the seed's holder is the
    /// owner.
    pub fn create_writerset_with_key(root_key: [u8; 32], owner_signing_seed: [u8; 32]) -> (r: Result<
        Self,
        Error,
    >)
        ensures
            r is Ok,
            ({
                let e = r->Ok_0;
                let owner = C::pubkey_of(owner_signing_seed);
                let set = Self::first_set(owner);
                let sealed = SealedModel {
                    set,
                    signature: C::signed(owner_signing_seed, set_payload(set)),
                };
                &&& e.inv()
                &&& e.recoverable()
                &&& e.signing_key == Some(owner_signing_seed)
                &&& set_view(e.writer_set) == Some(set)
                &&& blobs_view(e.disk.blobs@) == seq![sealed]
                &&& e.header.writer_set is Some
                &&& blob_addr(e.header.writer_set->Some_0) == 1
                &&& blob_len(e.header.writer_set->Some_0) == sealed_len(sealed)
                &&& e.header == (ContainerHeader {
                    sign_mode: SignMode::WriterSet,
                    owner_pubkey: owner,
                    writer_set: e.header.writer_set,
                    commit_seq: 2,
                    ..fresh_header(CIPHER_AES256_GCM, array16(zeros(16)))
                })
                &&& e.disk.committed.header == e.header
                &&& e.disk.committed.tag == header_tag::<C>(root_key, e.header)
                &&& e.disk.committed.keys@ == Map::<Seq<u8>, Uuid>::empty()
                &&& e.disk.committed.ids@ == Map::<Seq<u8>, u64>::empty()
                &&& e.keys@ == Map::<Seq<u8>, Uuid>::empty()
                &&& e.ids@ == Map::<Seq<u8>, u64>::empty()
                &&& e.recs() == Seq::<RecordModel>::empty()
                &&& e.slots() == Seq::<Seq<u8>>::empty()
                &&& e.tail() == Seq::<EvictedModel>::empty()
                &&& e.disk.wal@.len() == 0
                &&& e.root_key == root_key
                &&& e.is_idle()
                &&& e.wal is None
                &&& e.overlay@.len() == 0
            }),
    {
        let mut e: Self = match Self::create_with_key(root_key) {
            Err(x) => {
                return Err(x);
            },
            Ok(e) => e,
        };
        let owner: [u8; 32] = C::pubkey(&owner_signing_seed);
        let set: WriterSet = WriterSet {
            epoch: 0,
            key_epoch: 0,
            owner_pubkey: owner,
            writers: vec![owner],
            removed: Vec::new(),
        };
        proof {
            assert(set@.writers =~= seq![owner]);
            assert(set@.removed =~= Seq::<[u8; 32]>::empty());
            assert(set@ =~= Self::first_set(owner));
        }
        e.header.sign_mode = SignMode::WriterSet;
        e.header.owner_pubkey = owner;
        e.signing_key = Some(owner_signing_seed);
        let sealed: SealedWriterSet = set.seal::<C>(&owner_signing_seed);
        proof {
            lemma_first_len(sealed@);
            assert(blobs_view(e.disk.blobs@) =~= Seq::<SealedModel>::empty());
        }
        let ghost s = sealed@;
        e.commit_writer_set(sealed);
        proof {
            assert(blobs_view(e.disk.blobs@) =~= seq![s]);
        }
        Ok(e)
    }
}

proof fn lemma_first_len(s: SealedModel)
    requires
        s.set.writers.len() == 1,
        s.set.removed.len() == 0,
    ensures
        sealed_len(s) <= u64::MAX,
{
    crate::bytes::lemma_le_len(s.set.epoch as nat, 8);
    crate::bytes::lemma_le_len(s.set.key_epoch as nat, 8);
    crate::bytes::lemma_le_len(1, 8);
    crate::bytes::lemma_le_len(0, 8);
    crate::members::lemma_key_run_len(s.set.writers);
    crate::members::lemma_key_run_len(s.set.removed);
}


impl<C: Crypto> Engine<C> {
    /// Opens a container with a key.
    pub fn open_with_key(c: Container, root_key: [u8; 32]) -> (r: Result<Self, Error>)
        requires
            c.wf(),
            c.committed.header.wal_applied_seq < u64::MAX,
        ensures
            Self::open_step(c, root_key, r),
            r is Ok ==> r->Ok_0.inv() && r->Ok_0.recoverable(),
    {
        Self::finish_open(c, root_key)
    }

    /// Opens a container with a key.
    pub fn open_in_memory_with_key(c: Container, root_key: [u8; 32]) -> (r: Result<Self, Error>)
        requires
            c.wf(),
            c.committed.header.wal_applied_seq < u64::MAX,
        ensures
            Self::open_step(c, root_key, r),
            r is Ok ==> r->Ok_0.inv() && r->Ok_0.recoverable(),
    {
        Self::finish_open(c, root_key)
    }

    /// Opens a container with the default key.
    pub fn open(c: Container) -> (r: Result<Self, Error>)
        requires
            c.wf(),
            c.committed.header.wal_applied_seq < u64::MAX,
        ensures
            Self::open_step(c, default_key(), r),
            r is Ok ==> r->Ok_0.inv() && r->Ok_0.recoverable(),
    {
        Self::open_with_key(c, shared_key())
    }

    /// The engine `e` for the writer with this seed, if the container is that
    /// writer's.
    pub open spec fn signed_opened(e: &Self, seed: [u8; 32]) -> Result<Self, Error> {
        if e.header.sign_mode == SignMode::Signed && C::pubkey_of(seed) == e.header.writer_pubkey {
            Ok(Engine { signing_key: Some(seed), ..*e })
        } else {
            Err(Error::Integrity)
        }
    }

    /// Opens a container whose records one writer signs, for that writer.
    pub fn open_signed_with_key(c: Container, root_key: [u8; 32], signing_seed: [u8; 32]) -> (r:
        Result<Self, Error>)
        requires
            c.wf(),
            c.committed.header.wal_applied_seq < u64::MAX,
        ensures
            r is Ok ==> r->Ok_0.inv() && r->Ok_0.recoverable(),
            exists|x: Result<Self, Error>| #[trigger]
                Self::open_step(c, root_key, x) && r == match x {
                    Err(e) => Err::<Self, Error>(e),
                    Ok(e) => Self::signed_opened(&e, signing_seed),
                },
    {
        let opened: Result<Self, Error> = Self::open_with_key(c, root_key);
        let ghost x = opened;
        proof {
            assert(Self::open_step(c, root_key, x));
        }
        let mut e: Self = match opened {
            Err(err) => {
                return Err(err);
            },
            Ok(e) => e,
        };
        match e.header.sign_mode {
            SignMode::Signed => {},
            _ => {
                return Err(Error::Integrity);
            },
        }
        let pk: [u8; 32] = C::pubkey(&signing_seed);
        if !same32(&pk, &e.header.writer_pubkey) {
            return Err(Error::Integrity);
        }
        e.signing_key = Some(signing_seed);
        Ok(e)
    }

    /// The engine `e` with the stored writer set loaded, and a key to sign with.
    pub open spec fn member_opened(
        e: &Self,
        r: Result<Self, Error>,
        seed: Option<[u8; 32]>,
    ) -> bool {
        match vouched::<C>(blobs_view(e.disk.blobs@), e.header) {
            Err(x) => r == Err::<Self, Error>(x),
            Ok(s) => {
                &&& r is Ok
                &&& set_view(r->Ok_0.writer_set) == Some(s)
                &&& r->Ok_0 == (Engine {
                    writer_set: r->Ok_0.writer_set,
                    signing_key: seed,
                    ..*e
                })
            },
        }
    }

    /// What opening a container with a writer set gives.
    pub open spec fn writerset_opened(
        c: Container,
        key: [u8; 32],
        seed: [u8; 32],
        x: Result<Self, Error>,
        r: Result<Self, Error>,
    ) -> bool {
        &&& Self::open_step(c, key, x)
        &&& match x {
            Err(e) => r == Err::<Self, Error>(e),
            Ok(e) => if e.header.sign_mode != SignMode::WriterSet {
                r == Err::<Self, Error>(Error::Integrity)
            } else {
                Self::member_opened(&e, r, Some(seed))
            },
        }
    }

    /// Opens a container with a writer set, for the holder of the seed.
    pub fn open_writerset_with_key(c: Container, root_key: [u8; 32], signing_seed: [u8; 32]) -> (r:
        Result<Self, Error>)
        requires
            c.wf(),
            c.committed.header.wal_applied_seq < u64::MAX,
        ensures
            r is Ok ==> r->Ok_0.inv() && r->Ok_0.recoverable(),
            exists|x: Result<Self, Error>| #[trigger]
                Self::writerset_opened(c, root_key, signing_seed, x, r),
    {
        let opened: Result<Self, Error> = Self::open_with_key(c, root_key);
        let ghost x = opened;
        let mut e: Self = match opened {
            Err(err) => {
                proof {
                    assert(Self::writerset_opened(c, root_key, signing_seed, x, Err(err)));
                }
                return Err(err);
            },
            Ok(e) => e,
        };
        match e.header.sign_mode {
            SignMode::WriterSet => {},
            _ => {
                proof {
                    assert(Self::writerset_opened(
                        c,
                        root_key,
                        signing_seed,
                        x,
                        Err(Error::Integrity),
                    ));
                }
                return Err(Error::Integrity);
            },
        }
        match load_and_verify_writerset::<C>(&e.disk.blobs, &e.header) {
            Err(err) => {
                proof {
                    assert(Self::writerset_opened(c, root_key, signing_seed, x, Err(err)));
                }
                Err(err)
            },
            Ok(ws) => {
                e.signing_key = Some(signing_seed);
                e.writer_set = Some(ws);
                proof {
                    assert(Self::writerset_opened(c, root_key, signing_seed, x, Ok(e)));
                }
                Ok(e)
            },
        }
    }

    /// What opening a container through a grant gives.
    pub open spec fn grant_opened(
        c: Container,
        grant: Seq<u8>,
        seed: [u8; 32],
        signs: bool,
        x: Result<Self, Error>,
        r: Result<Self, Error>,
    ) -> bool {
        match C::granted(seed, grant) {
            None => r == Err::<Self, Error>(Error::Integrity),
            Some((key, _)) => {
                &&& Self::open_step(c, key, x)
                &&& match x {
                    Err(e) => r == Err::<Self, Error>(e),
                    Ok(e) => {
                        let sk = if signs {
                            Some(seed)
                        } else {
                            e.signing_key
                        };
                        if e.header.sign_mode == SignMode::WriterSet {
                            Self::member_opened(&e, r, sk)
                        } else {
                            r == Ok::<Self, Error>(Engine { signing_key: sk, ..e })
                        }
                    },
                }
            },
        }
    }

    fn open_granted(c: Container, grant_blob: &[u8], grantee_seed: &[u8; 32], signs: bool) -> (r: (
        Result<Self, Error>,
        Ghost<Result<Self, Error>>,
    ))
        requires
            c.wf(),
            c.committed.header.wal_applied_seq < u64::MAX,
        ensures
            r.0 is Ok ==> r.0->Ok_0.inv() && r.0->Ok_0.recoverable(),
            Self::grant_opened(c, grant_blob@, *grantee_seed, signs, r.1@, r.0),
    {
        let key: [u8; 32] = match C::open_grant(grantee_seed, grant_blob) {
            None => {
                let ghost x = Err::<Self, Error>(Error::Integrity);
                return (Err(Error::Integrity), Ghost(x));
            },
            Some((k, _)) => k,
        };
        let opened: Result<Self, Error> = Self::open_with_key(c, key);
        let ghost x = opened;
        let mut e: Self = match opened {
            Err(err) => {
                return (Err(err), Ghost(x));
            },
            Ok(e) => e,
        };
        match e.header.sign_mode {
            SignMode::WriterSet => match load_and_verify_writerset::<C>(&e.disk.blobs, &e.header) {
                Err(err) => {
                    return (Err(err), Ghost(x));
                },
                Ok(ws) => {
                    e.writer_set = Some(ws);
                },
            },
            _ => {},
        }
        if signs {
            e.signing_key = Some(*grantee_seed);
        }
        (Ok(e), Ghost(x))
    }

    /// Opens a container through a grant, to read: there is no key to sign with.
    pub fn open_with_grant(c: Container, grant_blob: &[u8], grantee_seed: &[u8; 32]) -> (r: Result<
        Self,
        Error,
    >)
        requires
            c.wf(),
            c.committed.header.wal_applied_seq < u64::MAX,
        ensures
            r is Ok ==> r->Ok_0.inv() && r->Ok_0.recoverable(),
            exists|x: Result<Self, Error>| #[trigger]
                Self::grant_opened(c, grant_blob@, *grantee_seed, false, x, r),
    {
        let (r, x): (Result<Self, Error>, Ghost<Result<Self, Error>>) = Self::open_granted(
            c,
            grant_blob,
            grantee_seed,
            false,
        );
        proof {
            assert(Self::grant_opened(c, grant_blob@, *grantee_seed, false, x@, r));
        }
        r
    }

    /// Opens a container through a grant, with the grantee's key to sign with.
    /// Whether they may write is still for the writer set to say.
    pub fn open_with_grant_and_signing(
        c: Container,
        grant_blob: &[u8],
        grantee_seed: &[u8; 32],
    ) -> (r: Result<Self, Error>)
        requires
            c.wf(),
            c.committed.header.wal_applied_seq < u64::MAX,
        ensures
            r is Ok ==> r->Ok_0.inv() && r->Ok_0.recoverable(),
            exists|x: Result<Self, Error>| #[trigger]
                Self::grant_opened(c, grant_blob@, *grantee_seed, true, x, r),
    {
        let (r, x): (Result<Self, Error>, Ghost<Result<Self, Error>>) = Self::open_granted(
            c,
            grant_blob,
            grantee_seed,
            true,
        );
        proof {
            assert(Self::grant_opened(c, grant_blob@, *grantee_seed, true, x@, r));
        }
        r
    }

    // ── Accessors ───────────────────────────────────────────────────────────

    pub fn header(&self) -> (r: &ContainerHeader)
        ensures
            *r == self.header,
    {
        &self.header
    }

    /// The root key.
    pub fn root_key(&self) -> (r: [u8; 32])
        ensures
            r == self.root_key,
    {
        self.root_key
    }

    /// The alias that local writes are counted under.
    pub fn set_local_alias(&mut self, alias: u16)
        requires
            old(self).inv(),
        ensures
            final(self).inv(),
            old(self).recoverable() ==> final(self).recoverable(),
            *final(self) == (Engine { local_alias: alias, ..*old(self) }),
    {
        self.local_alias = alias;
    }

    pub fn local_alias(&self) -> (r: u16)
        ensures
            r == self.local_alias,
    {
        self.local_alias
    }

    /// How many head records were looked at when the container was opened.
    pub fn mount_head_decodes(&self) -> (r: u64)
        ensures
            r == self.mount_decodes,
    {
        self.mount_decodes
    }
}

/// A reader who was let in by a grant cannot write where records are signed.
pub proof fn law_grants_do_not_let_write<C: Crypto>(
    c: Container,
    grant: Seq<u8>,
    seed: [u8; 32],
    x: Result<Engine<C>, Error>,
    r: Result<Engine<C>, Error>,
)
    requires
        Engine::<C>::grant_opened(c, grant, seed, false, x, r),
        r is Ok,
        r->Ok_0.header.sign_mode != SignMode::Unsigned,
    ensures
        !r->Ok_0.may_sign(),
{
}

} // verus!
