//! The cryptographic primitives that the store is built on.
use vstd::prelude::*;

use crate::bytes::{
    array32, copy_range, le, lemma_le_len, lemma_pow256_values, lemma_un_le_of_le, push_all, push_le,
    push_zeros, read_le, take32, un_le, zeros,
};

verus! {

/// The number of a cipher suite.
pub type CipherSuiteId = u8;

/// Content is stored as it is.
pub const CIPHER_NONE: u8 = 0;

/// AES-256 in Galois counter mode.
pub const CIPHER_AES256_GCM: u8 = 1;

/// AES-256 in XTS mode.
pub const CIPHER_XTS_AES256: u8 = 2;

/// What a content fragment is bound to when it is sealed.
#[derive(Clone, Copy, Debug, PartialEq, Eq)]
pub struct BlockCtx {
    pub uuid: [u8; 16],
    pub frag: u32,
    pub version: u64,
    pub key_epoch: u64,
}

/// Cipher suites, authenticated encryption of metadata, signatures and key
/// grants.
///
/// Content suites are deterministic: a fragment sealed twice in one context
/// gives the same bytes. What was sealed opens under the same suite, key and
/// context; nothing is said of any other bytes.
pub trait Crypto {
    /// Whether the suite exists.
    spec fn known(suite: u8) -> bool;

    /// The shortest plaintext that the suite seals.
    spec fn min_len(suite: u8) -> nat;

    spec fn sealed(suite: u8, key: [u8; 32], ctx: BlockCtx, plain: Seq<u8>) -> Seq<u8>;

    spec fn opened(suite: u8, key: [u8; 32], ctx: BlockCtx, cipher: Seq<u8>) -> Option<Seq<u8>>;

    spec fn meta_sealed(key: [u8; 32], nonce: Seq<u8>, aad: Seq<u8>, plain: Seq<u8>) -> Seq<u8>;

    spec fn meta_opened(key: [u8; 32], nonce: Seq<u8>, aad: Seq<u8>, cipher: Seq<u8>) -> Option<
        Seq<u8>,
    >;

    /// A keyed checksum of a byte string.
    spec fn tagged(key: [u8; 32], data: Seq<u8>) -> [u8; 32];

    /// Whether signatures can be made at all.
    spec fn signs() -> bool;

    spec fn pubkey_of(seed: [u8; 32]) -> [u8; 32];

    spec fn signed(seed: [u8; 32], payload: Seq<u8>) -> [u8; 64];

    spec fn verified(pubkey: [u8; 32], payload: Seq<u8>, sig: [u8; 64]) -> bool;

    /// The public half of a recipient's identity.
    spec fn recipient_of(identity: [u8; 32]) -> [u8; 32];

    /// The root key that a grant holds for this identity, and its key epoch.
    spec fn granted(identity: [u8; 32], grant: Seq<u8>) -> Option<([u8; 32], u64)>;

    proof fn lemma_open_of_seal(suite: u8, key: [u8; 32], ctx: BlockCtx, plain: Seq<u8>)
        requires
            Self::known(suite),
            plain.len() >= Self::min_len(suite),
        ensures
            Self::opened(suite, key, ctx, Self::sealed(suite, key, ctx, plain)) == Some(plain),
    ;

    /// A suite needs at most 64 bytes and adds at most 64.
    proof fn lemma_seal_len(suite: u8, key: [u8; 32], ctx: BlockCtx, plain: Seq<u8>)
        ensures
            Self::min_len(suite) <= 64,
            Self::sealed(suite, key, ctx, plain).len() <= plain.len() + 64,
    ;

    /// What opens is no longer than its sealed form, and no shorter than the
    /// suite's minimum.
    proof fn lemma_opened_len(suite: u8, key: [u8; 32], ctx: BlockCtx, cipher: Seq<u8>)
        requires
            Self::known(suite),
        ensures
            Self::opened(suite, key, ctx, cipher) is Some ==> Self::min_len(suite) <= Self::opened(
                suite,
                key,
                ctx,
                cipher,
            )->Some_0.len() <= cipher.len(),
    ;

    proof fn lemma_meta_open_of_seal(
        key: [u8; 32],
        nonce: Seq<u8>,
        aad: Seq<u8>,
        plain: Seq<u8>,
    )
        ensures
            Self::meta_opened(key, nonce, aad, Self::meta_sealed(key, nonce, aad, plain)) == Some(
                plain,
            ),
            Self::meta_sealed(key, nonce, aad, plain).len() == plain.len() + 16,
    ;

    /// Opening takes the tag off.
    proof fn lemma_meta_opened_len(
        key: [u8; 32],
        nonce: Seq<u8>,
        aad: Seq<u8>,
        cipher: Seq<u8>,
    )
        ensures
            Self::meta_opened(key, nonce, aad, cipher) is Some ==> Self::meta_opened(
                key,
                nonce,
                aad,
                cipher,
            )->Some_0.len() + 16 == cipher.len(),
    ;

    proof fn lemma_verify_of_sign(seed: [u8; 32], payload: Seq<u8>)
        requires
            Self::signs(),
        ensures
            Self::verified(Self::pubkey_of(seed), payload, Self::signed(seed, payload)),
    ;

    fn is_known(suite: u8) -> (r: bool)
        ensures
            r == Self::known(suite),
    ;

    fn min_plaintext_len(suite: u8) -> (n: usize)
        ensures
            n == Self::min_len(suite),
    ;

    fn seal(suite: u8, key: &[u8; 32], ctx: &BlockCtx, plain: &[u8]) -> (out: Vec<u8>)
        requires
            Self::known(suite),
            plain@.len() >= Self::min_len(suite),
        ensures
            out@ == Self::sealed(suite, *key, *ctx, plain@),
    ;

    fn open(suite: u8, key: &[u8; 32], ctx: &BlockCtx, cipher: &[u8]) -> (out: Option<Vec<u8>>)
        requires
            Self::known(suite),
        ensures
            out is Some <==> Self::opened(suite, *key, *ctx, cipher@) is Some,
            out is Some ==> Self::opened(suite, *key, *ctx, cipher@) == Some(out->Some_0@),
    ;

    fn seal_meta(key: &[u8; 32], nonce: &[u8], aad: &[u8], plain: &[u8]) -> (out: Vec<u8>)
        ensures
            out@ == Self::meta_sealed(*key, nonce@, aad@, plain@),
    ;

    fn open_meta(key: &[u8; 32], nonce: &[u8], aad: &[u8], cipher: &[u8]) -> (out: Option<Vec<u8>>)
        ensures
            out is Some <==> Self::meta_opened(*key, nonce@, aad@, cipher@) is Some,
            out is Some ==> Self::meta_opened(*key, nonce@, aad@, cipher@) == Some(out->Some_0@),
    ;

    fn tag(key: &[u8; 32], data: &[u8]) -> (r: [u8; 32])
        ensures
            r == Self::tagged(*key, data@),
    ;

    fn pubkey(seed: &[u8; 32]) -> (r: [u8; 32])
        ensures
            r == Self::pubkey_of(*seed),
    ;

    fn sign(seed: &[u8; 32], payload: &[u8]) -> (r: [u8; 64])
        ensures
            r == Self::signed(*seed, payload@),
    ;

    fn verify(pubkey: &[u8; 32], payload: &[u8], sig: &[u8; 64]) -> (r: bool)
        ensures
            r == Self::verified(*pubkey, payload@, *sig),
    ;

    /// Seals a root key so that the holder of the recipient's identity, and
    /// nobody else, finds it.
    fn seal_grant(recipient: &[u8; 32], root_key: &[u8; 32], key_epoch: u64) -> (grant: Vec<u8>)
        ensures
            forall|identity: [u8; 32]|
                Self::recipient_of(identity) == *recipient ==> #[trigger] Self::granted(
                    identity,
                    grant@,
                ) == Some((*root_key, key_epoch)),
    ;

    fn open_grant(identity: &[u8; 32], grant: &[u8]) -> (r: Option<([u8; 32], u64)>)
        ensures
            r == Self::granted(*identity, grant@),
    ;
}

/// The provider of a container without secrets: the suite that copies, a
/// metadata tag of sixteen zero bytes, and no signatures.
pub struct Plaintext {}

impl Crypto for Plaintext {
    open spec fn known(suite: u8) -> bool {
        suite == CIPHER_NONE
    }

    open spec fn min_len(suite: u8) -> nat {
        0
    }

    open spec fn sealed(suite: u8, key: [u8; 32], ctx: BlockCtx, plain: Seq<u8>) -> Seq<u8> {
        plain
    }

    open spec fn opened(suite: u8, key: [u8; 32], ctx: BlockCtx, cipher: Seq<u8>) -> Option<
        Seq<u8>,
    > {
        Some(cipher)
    }

    open spec fn meta_sealed(
        key: [u8; 32],
        nonce: Seq<u8>,
        aad: Seq<u8>,
        plain: Seq<u8>,
    ) -> Seq<u8> {
        plain + zeros(16)
    }

    open spec fn meta_opened(
        key: [u8; 32],
        nonce: Seq<u8>,
        aad: Seq<u8>,
        cipher: Seq<u8>,
    ) -> Option<Seq<u8>> {
        if cipher.len() >= 16 {
            Some(cipher.subrange(0, cipher.len() - 16))
        } else {
            None
        }
    }

    open spec fn tagged(key: [u8; 32], data: Seq<u8>) -> [u8; 32] {
        key
    }

    open spec fn signs() -> bool {
        false
    }

    open spec fn pubkey_of(seed: [u8; 32]) -> [u8; 32] {
        seed
    }

    open spec fn signed(seed: [u8; 32], payload: Seq<u8>) -> [u8; 64] {
        crate::bytes::array64(zeros(64))
    }

    open spec fn verified(pubkey: [u8; 32], payload: Seq<u8>, sig: [u8; 64]) -> bool {
        false
    }

    open spec fn recipient_of(identity: [u8; 32]) -> [u8; 32] {
        identity
    }

    open spec fn granted(identity: [u8; 32], grant: Seq<u8>) -> Option<([u8; 32], u64)> {
        if grant.len() == 40 {
            Some((array32(grant.subrange(0, 32)), un_le(grant.subrange(32, 40)) as u64))
        } else {
            None
        }
    }

    proof fn lemma_open_of_seal(suite: u8, key: [u8; 32], ctx: BlockCtx, plain: Seq<u8>) {
    }

    proof fn lemma_seal_len(suite: u8, key: [u8; 32], ctx: BlockCtx, plain: Seq<u8>) {
    }

    proof fn lemma_opened_len(suite: u8, key: [u8; 32], ctx: BlockCtx, cipher: Seq<u8>) {
    }

    proof fn lemma_meta_opened_len(
        key: [u8; 32],
        nonce: Seq<u8>,
        aad: Seq<u8>,
        cipher: Seq<u8>,
    ) {
    }

    proof fn lemma_meta_open_of_seal(
        key: [u8; 32],
        nonce: Seq<u8>,
        aad: Seq<u8>,
        plain: Seq<u8>,
    ) {
        let c = plain + zeros(16);
        assert(c.subrange(0, c.len() - 16) =~= plain);
    }

    proof fn lemma_verify_of_sign(seed: [u8; 32], payload: Seq<u8>) {
    }

    fn is_known(suite: u8) -> (r: bool) {
        suite == CIPHER_NONE
    }

    fn min_plaintext_len(suite: u8) -> (n: usize) {
        0
    }

    fn seal(suite: u8, key: &[u8; 32], ctx: &BlockCtx, plain: &[u8]) -> (out: Vec<u8>) {
        let out: Vec<u8> = copy_range(plain, 0, plain.len());
        proof {
            assert(out@ =~= plain@);
        }
        out
    }

    fn open(suite: u8, key: &[u8; 32], ctx: &BlockCtx, cipher: &[u8]) -> (out: Option<Vec<u8>>) {
        let out: Vec<u8> = copy_range(cipher, 0, cipher.len());
        proof {
            assert(out@ =~= cipher@);
        }
        Some(out)
    }

    fn seal_meta(key: &[u8; 32], nonce: &[u8], aad: &[u8], plain: &[u8]) -> (out: Vec<u8>) {
        let mut out: Vec<u8> = Vec::new();
        push_all(&mut out, plain);
        push_zeros(&mut out, 16);
        proof {
            assert(out@ =~= plain@ + zeros(16));
        }
        out
    }

    fn open_meta(key: &[u8; 32], nonce: &[u8], aad: &[u8], cipher: &[u8]) -> (out: Option<
        Vec<u8>,
    >) {
        if cipher.len() < 16 {
            return None;
        }
        Some(copy_range(cipher, 0, cipher.len() - 16))
    }

    fn tag(key: &[u8; 32], data: &[u8]) -> (r: [u8; 32]) {
        *key
    }

    fn pubkey(seed: &[u8; 32]) -> (r: [u8; 32]) {
        *seed
    }

    fn sign(seed: &[u8; 32], payload: &[u8]) -> (r: [u8; 64]) {
        let r: [u8; 64] = [0u8; 64];
        proof {
            assert(r@ =~= zeros(64));
            assert(crate::bytes::array64(zeros(64)) =~= r);
        }
        r
    }

    fn verify(pubkey: &[u8; 32], payload: &[u8], sig: &[u8; 64]) -> (r: bool) {
        false
    }

    fn seal_grant(recipient: &[u8; 32], root_key: &[u8; 32], key_epoch: u64) -> (grant: Vec<u8>) {
        let mut grant: Vec<u8> = copy_range(root_key.as_slice(), 0, 32);
        push_le(&mut grant, key_epoch, 8);
        proof {
            lemma_pow256_values();
            lemma_le_len(key_epoch as nat, 8);
            lemma_un_le_of_le(key_epoch as nat, 8);
            assert(grant@.subrange(0, 32) =~= root_key@);
            assert(grant@.subrange(32, 40) =~= le(key_epoch as nat, 8));
            assert(array32(root_key@)@ == root_key@);
            assert(array32(root_key@) =~= *root_key);
        }
        grant
    }

    fn open_grant(identity: &[u8; 32], grant: &[u8]) -> (r: Option<([u8; 32], u64)>) {
        if grant.len() != 40 {
            return None;
        }
        Some((take32(grant, 0), read_le(grant, 32, 8)))
    }
}

} // verus!
