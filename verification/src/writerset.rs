//! The set of keys that may write, and what their signatures attest.
use vstd::prelude::*;

use crate::bytes::{le, push_all, push_le, same32};
use crate::crypto::Crypto;
use crate::error::Error;
use crate::unit::{payload_of, RecordModel, UnitRecord};

verus! {

/// Who may sign the records of a container.
#[derive(Clone, Copy, Debug, PartialEq, Eq, Structural)]
pub enum SignMode {
    /// Records carry no signature.
    Unsigned,
    /// One writer key signs every record.
    Signed,
    /// Any member of an owner-signed set signs.
    WriterSet,
}

/// The keys that may write, and those that once could.
#[derive(Debug, PartialEq, Eq)]
pub struct WriterSet {
    /// Rises with every change.
    pub epoch: u64,
    /// The content-key epoch that the set is bound to.
    pub key_epoch: u64,
    pub owner_pubkey: [u8; 32],
    pub writers: Vec<[u8; 32]>,
    /// Former members: what they signed stays readable.
    pub removed: Vec<[u8; 32]>,
}

/// A [`WriterSet`] as a value.
#[verifier::ext_equal]
pub struct WriterSetModel {
    pub epoch: u64,
    pub key_epoch: u64,
    pub owner_pubkey: [u8; 32],
    pub writers: Seq<[u8; 32]>,
    pub removed: Seq<[u8; 32]>,
}

impl View for WriterSet {
    type V = WriterSetModel;

    open spec fn view(&self) -> WriterSetModel {
        WriterSetModel {
            epoch: self.epoch,
            key_epoch: self.key_epoch,
            owner_pubkey: self.owner_pubkey,
            writers: self.writers@,
            removed: self.removed@,
        }
    }
}

pub open spec fn set_view(ws: Option<WriterSet>) -> Option<WriterSetModel> {
    match ws {
        Some(w) => Some(w@),
        None => None,
    }
}

/// The keys, 32 bytes each.
pub open spec fn key_run(s: Seq<[u8; 32]>) -> Seq<u8>
    decreases s.len(),
{
    if s.len() == 0 {
        Seq::empty()
    } else {
        key_run(s.drop_last()) + s.last()@
    }
}

/// The bytes that the owner signs.
pub open spec fn set_payload(ws: WriterSetModel) -> Seq<u8> {
    le(ws.epoch as nat, 8) + le(ws.key_epoch as nat, 8) + ws.owner_pubkey@ + le(
        ws.writers.len(),
        8,
    ) + key_run(ws.writers) + le(ws.removed.len(), 8) + key_run(ws.removed)
}

/// Every key of `a` is in `b`.
pub open spec fn keys_within(a: Seq<[u8; 32]>, b: Seq<[u8; 32]>) -> bool {
    forall|i: int| 0 <= i < a.len() ==> b.contains(#[trigger] a[i])
}

/// `next` may follow `cur`: same owner, later, never back behind a key epoch,
/// and without losing a writer unless the key epoch moved on.
pub open spec fn is_successor(next: WriterSetModel, cur: WriterSetModel) -> bool {
    &&& next.owner_pubkey == cur.owner_pubkey
    &&& next.epoch > cur.epoch
    &&& next.key_epoch >= cur.key_epoch
    &&& keys_within(cur.writers, next.writers) || next.key_epoch > cur.key_epoch
}

/// Membership that a signature is checked against.
#[derive(Clone, Copy, Debug, PartialEq, Eq, Structural)]
pub enum MembershipScope {
    /// Present writers: what may be written now.
    Current,
    /// Present and former writers: what may be read.
    CurrentOrRemoved,
}

/// The members that a scope admits, in the order they are tried.
pub open spec fn scope_keys(ws: WriterSetModel, scope: MembershipScope) -> Seq<[u8; 32]> {
    match scope {
        MembershipScope::Current => ws.writers,
        MembershipScope::CurrentOrRemoved => ws.writers + ws.removed,
    }
}

/// The first key of `keys` under which the signature holds.
pub open spec fn first_verifying<C: Crypto>(
    keys: Seq<[u8; 32]>,
    payload: Seq<u8>,
    sig: [u8; 64],
) -> Option<[u8; 32]>
    decreases keys.len(),
{
    if keys.len() == 0 {
        None
    } else if C::verified(keys[0], payload, sig) {
        Some(keys[0])
    } else {
        first_verifying::<C>(keys.subrange(1, keys.len() as int), payload, sig)
    }
}

/// Some key verifies exactly when one of them does.
pub proof fn lemma_first_verifying<C: Crypto>(
    keys: Seq<[u8; 32]>,
    payload: Seq<u8>,
    sig: [u8; 64],
)
    ensures
        first_verifying::<C>(keys, payload, sig) is Some <==> exists|i: int|
            0 <= i < keys.len() && C::verified(#[trigger] keys[i], payload, sig),
        first_verifying::<C>(keys, payload, sig) is Some ==> keys.contains(
            first_verifying::<C>(keys, payload, sig)->Some_0,
        ) && C::verified(first_verifying::<C>(keys, payload, sig)->Some_0, payload, sig),
    decreases keys.len(),
{
    if keys.len() > 0 {
        if C::verified(keys[0], payload, sig) {
            assert(keys.contains(keys[0]));
        } else {
            let rest = keys.subrange(1, keys.len() as int);
            lemma_first_verifying::<C>(rest, payload, sig);
            if first_verifying::<C>(rest, payload, sig) is Some {
                let i = choose|i: int|
                    0 <= i < rest.len() && C::verified(#[trigger] rest[i], payload, sig);
                assert(keys[i + 1] == rest[i]);
                let k = first_verifying::<C>(rest, payload, sig)->Some_0;
                let j = choose|j: int| 0 <= j < rest.len() && rest[j] == k;
                assert(keys[j + 1] == k);
            }
            if exists|i: int| 0 <= i < keys.len() && C::verified(#[trigger] keys[i], payload, sig) {
                let i = choose|i: int|
                    0 <= i < keys.len() && C::verified(#[trigger] keys[i], payload, sig);
                assert(rest[i - 1] == keys[i]);
            }
        }
    }
}

fn copy_keys(v: &Vec<[u8; 32]>) -> (r: Vec<[u8; 32]>)
    ensures
        r@ == v@,
{
    let mut r: Vec<[u8; 32]> = Vec::new();
    let mut i: usize = 0;
    while i < v.len()
        invariant
            i <= v.len(),
            r@ == v@.take(i as int),
        decreases v.len() - i,
    {
        r.push(v[i]);
        i = i + 1;
        proof {
            assert(r@ =~= v@.take(i as int));
        }
    }
    proof {
        assert(r@ =~= v@);
    }
    r
}

fn push_keys(out: &mut Vec<u8>, v: &Vec<[u8; 32]>)
    ensures
        final(out)@ == old(out)@ + key_run(v@),
{
    let mut i: usize = 0;
    proof {
        assert(v@.take(0) =~= Seq::empty());
        assert(out@ =~= old(out)@ + key_run(v@.take(0)));
    }
    while i < v.len()
        invariant
            i <= v.len(),
            out@ == old(out)@ + key_run(v@.take(i as int)),
        decreases v.len() - i,
    {
        push_all(out, v[i].as_slice());
        i = i + 1;
        proof {
            assert(v@.take(i as int).drop_last() =~= v@.take(i - 1));
            assert(out@ =~= old(out)@ + key_run(v@.take(i as int)));
        }
    }
    proof {
        assert(v@.take(i as int) =~= v@);
    }
}

/// Whether `key` is one of `keys`.
pub fn holds_key(keys: &[[u8; 32]], key: &[u8; 32]) -> (r: bool)
    ensures
        r == keys@.contains(*key),
{
    let mut i: usize = 0;
    while i < keys.len()
        invariant
            i <= keys.len(),
            forall|k: int| 0 <= k < i ==> keys@[k] != *key,
        decreases keys.len() - i,
    {
        if same32(&keys[i], key) {
            proof {
                assert(keys@[i as int] == *key);
            }
            return true;
        }
        i = i + 1;
    }
    false
}

/// `keys` without those in `drop`, order kept.
pub open spec fn keys_without(keys: Seq<[u8; 32]>, drop: Seq<[u8; 32]>) -> Seq<[u8; 32]>
    decreases keys.len(),
{
    if keys.len() == 0 {
        Seq::empty()
    } else {
        let p = keys_without(keys.drop_last(), drop);
        if drop.contains(keys.last()) {
            p
        } else {
            p.push(keys.last())
        }
    }
}

/// `keys` with each of `extra` that is not there yet put at the end, in order.
pub open spec fn keys_with(keys: Seq<[u8; 32]>, extra: Seq<[u8; 32]>) -> Seq<[u8; 32]>
    decreases extra.len(),
{
    if extra.len() == 0 {
        keys
    } else {
        let p = keys_with(keys, extra.drop_last());
        if p.contains(extra.last()) {
            p
        } else {
            p.push(extra.last())
        }
    }
}

/// What stays is what was there and is not dropped.
pub proof fn lemma_keys_without(keys: Seq<[u8; 32]>, drop: Seq<[u8; 32]>, k: [u8; 32])
    ensures
        keys_without(keys, drop).contains(k) <==> keys.contains(k) && !drop.contains(k),
    decreases keys.len(),
{
    if keys.len() > 0 {
        let p = keys_without(keys.drop_last(), drop);
        let r = keys_without(keys, drop);
        lemma_keys_without(keys.drop_last(), drop, k);
        if keys.contains(k) {
            let i = choose|i: int| 0 <= i < keys.len() && keys[i] == k;
            if i < keys.len() - 1 {
                assert(keys.drop_last()[i] == k);
            }
        }
        if keys.drop_last().contains(k) {
            let i = choose|i: int| 0 <= i < keys.drop_last().len() && keys.drop_last()[i] == k;
            assert(keys[i] == k);
        }
        if p.contains(k) {
            let i = choose|i: int| 0 <= i < p.len() && p[i] == k;
            assert(r[i] == k);
        }
        if !drop.contains(keys.last()) {
            assert(r[p.len() as int] == keys.last());
            assert(keys[keys.len() - 1] == keys.last());
            if r.contains(k) {
                let i = choose|i: int| 0 <= i < r.len() && r[i] == k;
                if i < p.len() {
                    assert(p[i] == k);
                }
            }
        }
    }
}

/// What is there afterwards was there or was put there.
pub proof fn lemma_keys_with(keys: Seq<[u8; 32]>, extra: Seq<[u8; 32]>, k: [u8; 32])
    ensures
        keys_with(keys, extra).contains(k) <==> keys.contains(k) || extra.contains(k),
    decreases extra.len(),
{
    if extra.len() > 0 {
        let p = keys_with(keys, extra.drop_last());
        let r = keys_with(keys, extra);
        lemma_keys_with(keys, extra.drop_last(), k);
        lemma_keys_with(keys, extra.drop_last(), extra.last());
        if extra.contains(k) {
            let i = choose|i: int| 0 <= i < extra.len() && extra[i] == k;
            if i < extra.len() - 1 {
                assert(extra.drop_last()[i] == k);
            }
        }
        if extra.drop_last().contains(k) {
            let i = choose|i: int| 0 <= i < extra.drop_last().len() && extra.drop_last()[i] == k;
            assert(extra[i] == k);
        }
        assert(extra[extra.len() - 1] == extra.last());
        if p.contains(k) {
            let i = choose|i: int| 0 <= i < p.len() && p[i] == k;
            assert(r[i] == k);
        }
        if !p.contains(extra.last()) {
            assert(r[p.len() as int] == extra.last());
            if r.contains(k) {
                let i = choose|i: int| 0 <= i < r.len() && r[i] == k;
                if i < p.len() {
                    assert(p[i] == k);
                }
            }
        }
    }
}

/// The set after `key` is admitted.
pub open spec fn set_with(cur: WriterSetModel, key: [u8; 32]) -> WriterSetModel {
    WriterSetModel {
        epoch: (cur.epoch + 1) as u64,
        writers: keys_with(cur.writers, seq![key]),
        ..cur
    }
}

/// The set after `members` are removed at `key_epoch`.
pub open spec fn set_without(
    cur: WriterSetModel,
    members: Seq<[u8; 32]>,
    key_epoch: u64,
) -> WriterSetModel {
    WriterSetModel {
        epoch: (cur.epoch + 1) as u64,
        key_epoch,
        owner_pubkey: cur.owner_pubkey,
        writers: keys_without(cur.writers, members),
        removed: keys_with(cur.removed, members),
    }
}

/// The same members, bound to `key_epoch`.
pub open spec fn set_rebound(cur: WriterSetModel, key_epoch: u64) -> WriterSetModel {
    WriterSetModel { epoch: (cur.epoch + 1) as u64, key_epoch, ..cur }
}

impl Clone for WriterSet {
    fn clone(&self) -> (r: Self)
        ensures
            r@ == self@,
    {
        WriterSet {
            epoch: self.epoch,
            key_epoch: self.key_epoch,
            owner_pubkey: self.owner_pubkey,
            writers: copy_keys(&self.writers),
            removed: copy_keys(&self.removed),
        }
    }
}

impl WriterSet {
    /// Whether `key` may write now.
    pub fn contains(&self, key: &[u8; 32]) -> (r: bool)
        ensures
            r == self@.writers.contains(*key),
    {
        holds_key(self.writers.as_slice(), key)
    }

    /// The bytes that the owner signs.
    pub fn payload(&self) -> (out: Vec<u8>)
        ensures
            out@ == set_payload(self@),
    {
        let mut out: Vec<u8> = Vec::new();
        push_le(&mut out, self.epoch, 8);
        push_le(&mut out, self.key_epoch, 8);
        push_all(&mut out, self.owner_pubkey.as_slice());
        push_le(&mut out, self.writers.len() as u64, 8);
        push_keys(&mut out, &self.writers);
        push_le(&mut out, self.removed.len() as u64, 8);
        push_keys(&mut out, &self.removed);
        proof {
            assert(out@ =~= set_payload(self@));
        }
        out
    }

    /// Whether this set may follow `cur`.
    pub fn is_valid_successor_of(&self, cur: &WriterSet) -> (r: bool)
        ensures
            r == is_successor(self@, cur@),
    {
        if !same32(&self.owner_pubkey, &cur.owner_pubkey) {
            return false;
        }
        if self.epoch <= cur.epoch || self.key_epoch < cur.key_epoch {
            return false;
        }
        if self.key_epoch > cur.key_epoch {
            return true;
        }
        let mut i: usize = 0;
        while i < cur.writers.len()
            invariant
                i <= cur.writers.len(),
                forall|k: int|
                    0 <= k < i ==> self.writers@.contains(#[trigger] cur.writers@[k]),
                self.key_epoch == cur.key_epoch,
            decreases cur.writers.len() - i,
        {
            if !self.contains(&cur.writers[i]) {
                proof {
                    assert(!self.writers@.contains(cur.writers@[i as int]));
                }
                return false;
            }
            i = i + 1;
        }
        true
    }

    /// This set with `key` admitted and the epoch raised.
    pub fn with_writer(&self, key: &[u8; 32]) -> (r: WriterSet)
        requires
            self.epoch < u64::MAX,
        ensures
            r@ == set_with(self@, *key),
    {
        let mut writers: Vec<[u8; 32]> = copy_keys(&self.writers);
        proof {
            let one = seq![*key];
            assert(one.drop_last() =~= Seq::empty());
            assert(keys_with(self.writers@, one.drop_last()) == self.writers@);
        }
        if !self.contains(key) {
            writers.push(*key);
        }
        WriterSet {
            epoch: self.epoch + 1,
            key_epoch: self.key_epoch,
            owner_pubkey: self.owner_pubkey,
            writers,
            removed: copy_keys(&self.removed),
        }
    }

    /// This set without `members`, bound to `key_epoch`, the epoch raised.
    pub fn without_writers(&self, members: &[[u8; 32]], key_epoch: u64) -> (r: WriterSet)
        requires
            self.epoch < u64::MAX,
        ensures
            r@ == set_without(self@, members@, key_epoch),
    {
        let mut writers: Vec<[u8; 32]> = Vec::new();
        let mut i: usize = 0;
        proof {
            assert(self.writers@.take(0) =~= Seq::empty());
        }
        while i < self.writers.len()
            invariant
                i <= self.writers.len(),
                writers@ == keys_without(self.writers@.take(i as int), members@),
            decreases self.writers.len() - i,
        {
            proof {
                assert(self.writers@.take(i + 1).drop_last() =~= self.writers@.take(i as int));
            }
            if !holds_key(members, &self.writers[i]) {
                writers.push(self.writers[i]);
            }
            i = i + 1;
        }
        proof {
            assert(self.writers@.take(i as int) =~= self.writers@);
        }
        let mut removed: Vec<[u8; 32]> = copy_keys(&self.removed);
        let mut j: usize = 0;
        proof {
            assert(members@.take(0) =~= Seq::empty());
        }
        while j < members.len()
            invariant
                j <= members.len(),
                removed@ == keys_with(self.removed@, members@.take(j as int)),
            decreases members.len() - j,
        {
            proof {
                assert(members@.take(j + 1).drop_last() =~= members@.take(j as int));
            }
            if !holds_key(removed.as_slice(), &members[j]) {
                removed.push(members[j]);
            }
            j = j + 1;
        }
        proof {
            assert(members@.take(j as int) =~= members@);
        }
        WriterSet {
            epoch: self.epoch + 1,
            key_epoch,
            owner_pubkey: self.owner_pubkey,
            writers,
            removed,
        }
    }

    /// The same members, bound to `key_epoch`, the epoch raised.
    pub fn rebound(&self, key_epoch: u64) -> (r: WriterSet)
        requires
            self.epoch < u64::MAX,
        ensures
            r@ == set_rebound(self@, key_epoch),
    {
        WriterSet {
            epoch: self.epoch + 1,
            key_epoch,
            owner_pubkey: self.owner_pubkey,
            writers: copy_keys(&self.writers),
            removed: copy_keys(&self.removed),
        }
    }

    /// Signs the set with the owner's seed.
    pub fn seal<C: Crypto>(&self, owner_seed: &[u8; 32]) -> (r: SealedWriterSet)
        ensures
            r.set@ == self@,
            r.signature == C::signed(*owner_seed, set_payload(self@)),
    {
        let payload: Vec<u8> = self.payload();
        SealedWriterSet { set: self.clone(), signature: C::sign(owner_seed, payload.as_slice()) }
    }
}

/// A writer set with the owner's signature over it.
#[derive(Debug, PartialEq, Eq)]
pub struct SealedWriterSet {
    pub set: WriterSet,
    pub signature: [u8; 64],
}

/// A [`SealedWriterSet`] as a value.
pub struct SealedModel {
    pub set: WriterSetModel,
    pub signature: [u8; 64],
}

impl View for SealedWriterSet {
    type V = SealedModel;

    open spec fn view(&self) -> SealedModel {
        SealedModel { set: self.set@, signature: self.signature }
    }
}

/// The signature is the owner's.
pub open spec fn owner_signed<C: Crypto>(s: SealedModel) -> bool {
    C::verified(s.set.owner_pubkey, set_payload(s.set), s.signature)
}

impl Clone for SealedWriterSet {
    fn clone(&self) -> (r: Self)
        ensures
            r@ == self@,
    {
        SealedWriterSet { set: self.set.clone(), signature: self.signature }
    }
}

impl SealedWriterSet {
    /// The set, if the owner signed it.
    pub fn open<C: Crypto>(&self) -> (r: Result<WriterSet, Error>)
        ensures
            owner_signed::<C>(self@) ==> r is Ok && r->Ok_0@ == self@.set,
            !owner_signed::<C>(self@) ==> r == Err::<WriterSet, Error>(Error::Integrity),
    {
        let payload: Vec<u8> = self.set.payload();
        if !C::verify(&self.set.owner_pubkey, payload.as_slice(), &self.signature) {
            return Err(Error::Integrity);
        }
        Ok(self.set.clone())
    }
}

/// The member whose key verifies the signature, within the scope.
pub fn writerset_verifying_member<C: Crypto>(
    ws: &WriterSet,
    payload: &[u8],
    sig: &[u8; 64],
    scope: MembershipScope,
) -> (r: Option<[u8; 32]>)
    ensures
        r == first_verifying::<C>(scope_keys(ws@, scope), payload@, *sig),
{
    let ghost keys = scope_keys(ws@, scope);
    proof {
        assert(keys.subrange(0, keys.len() as int) =~= keys);
    }
    let mut i: usize = 0;
    while i < ws.writers.len()
        invariant
            keys == scope_keys(ws@, scope),
            i <= ws.writers.len(),
            first_verifying::<C>(keys, payload@, *sig) == first_verifying::<C>(
                keys.subrange(i as int, keys.len() as int),
                payload@,
                *sig,
            ),
        decreases ws.writers.len() - i,
    {
        proof {
            let k = keys.subrange(i as int, keys.len() as int);
            assert(k[0] == ws.writers@[i as int]);
            assert(k.subrange(1, k.len() as int) =~= keys.subrange(i + 1, keys.len() as int));
        }
        if C::verify(&ws.writers[i], payload, sig) {
            return Some(ws.writers[i]);
        }
        i = i + 1;
    }
    match scope {
        MembershipScope::Current => {
            return None;
        },
        MembershipScope::CurrentOrRemoved => {},
    }
    let mut j: usize = 0;
    while j < ws.removed.len()
        invariant
            keys == scope_keys(ws@, scope),
            keys == ws.writers@ + ws.removed@,
            j <= ws.removed.len(),
            first_verifying::<C>(keys, payload@, *sig) == first_verifying::<C>(
                keys.subrange(ws.writers@.len() + j, keys.len() as int),
                payload@,
                *sig,
            ),
        decreases ws.removed.len() - j,
    {
        proof {
            let k = keys.subrange(ws.writers@.len() + j, keys.len() as int);
            assert(k[0] == ws.removed@[j as int]);
            assert(k.subrange(1, k.len() as int) =~= keys.subrange(
                ws.writers@.len() + j + 1,
                keys.len() as int,
            ));
        }
        if C::verify(&ws.removed[j], payload, sig) {
            return Some(ws.removed[j]);
        }
        j = j + 1;
    }
    None
}

/// Whom a record must be signed by: the container's mode, its writer key and
/// its loaded writer set.
pub struct TrustModel {
    pub mode: SignMode,
    pub writer_pubkey: [u8; 32],
    pub writer_set: Option<WriterSetModel>,
}

/// Who signed the record, `None` in an unsigned container; an error where the
/// signature is missing or nobody's.
pub open spec fn signer_of<C: Crypto>(
    r: RecordModel,
    t: TrustModel,
    scope: MembershipScope,
) -> Result<Option<[u8; 32]>, Error> {
    match t.mode {
        SignMode::Unsigned => Ok(None),
        SignMode::Signed => if r.signature is Some && C::verified(
            t.writer_pubkey,
            payload_of(r),
            r.signature->Some_0,
        ) {
            Ok(Some(t.writer_pubkey))
        } else {
            Err(Error::Integrity)
        },
        SignMode::WriterSet => if t.writer_set is Some && r.signature is Some && first_verifying::<C>(
            scope_keys(t.writer_set->Some_0, scope),
            payload_of(r),
            r.signature->Some_0,
        ) is Some {
            Ok(
                first_verifying::<C>(
                    scope_keys(t.writer_set->Some_0, scope),
                    payload_of(r),
                    r.signature->Some_0,
                ),
            )
        } else {
            Err(Error::Integrity)
        },
    }
}

/// Checks the signature of a record and names the signer.
pub fn verify_record_signature<C: Crypto>(
    rec: &UnitRecord,
    mode: SignMode,
    writer_pubkey: &[u8; 32],
    writer_set: &Option<WriterSet>,
    scope: MembershipScope,
) -> (r: Result<Option<[u8; 32]>, Error>)
    ensures
        r == signer_of::<C>(
            rec@,
            (TrustModel {
                mode,
                writer_pubkey: *writer_pubkey,
                writer_set: set_view(*writer_set),
            }),
            scope,
        ),
{
    match mode {
        SignMode::Unsigned => Ok(None),
        SignMode::Signed => match &rec.signature {
            None => Err(Error::Integrity),
            Some(sig) => {
                let payload: Vec<u8> = rec.signing_payload();
                if C::verify(writer_pubkey, payload.as_slice(), sig) {
                    Ok(Some(*writer_pubkey))
                } else {
                    Err(Error::Integrity)
                }
            },
        },
        SignMode::WriterSet => match writer_set {
            None => Err(Error::Integrity),
            Some(ws) => match &rec.signature {
                None => Err(Error::Integrity),
                Some(sig) => {
                    let payload: Vec<u8> = rec.signing_payload();
                    match writerset_verifying_member::<C>(ws, payload.as_slice(), sig, scope) {
                        Some(m) => Ok(Some(m)),
                        None => Err(Error::Integrity),
                    }
                },
            },
        },
    }
}

// ── Laws ────────────────────────────────────────────────────────────────────

/// Admitting a writer is a valid step, keeps every writer and every former
/// writer, and admits the key.
pub proof fn law_admission_only_adds(cur: WriterSetModel, key: [u8; 32])
    requires
        cur.epoch < u64::MAX,
    ensures
        is_successor(set_with(cur, key), cur),
        set_with(cur, key).writers.contains(key),
        keys_within(cur.writers, set_with(cur, key).writers),
        set_with(cur, key).removed == cur.removed,
        set_with(cur, key).key_epoch == cur.key_epoch,
{
    let one = seq![key];
    assert(one[0] == key);
    lemma_keys_with(cur.writers, one, key);
    assert forall|i: int| 0 <= i < cur.writers.len() implies set_with(cur, key).writers.contains(
        #[trigger] cur.writers[i],
    ) by {
        lemma_keys_with(cur.writers, one, cur.writers[i]);
    }
}

/// After a removal at a later key epoch the members may no longer write, what
/// they signed can still be read, everybody else stays, and the step is valid.
pub proof fn law_removal_bars_writing_not_reading(
    cur: WriterSetModel,
    members: Seq<[u8; 32]>,
    key_epoch: u64,
    k: [u8; 32],
)
    requires
        cur.epoch < u64::MAX,
        key_epoch > cur.key_epoch,
    ensures
        is_successor(set_without(cur, members, key_epoch), cur),
        members.contains(k) ==> !set_without(cur, members, key_epoch).writers.contains(k),
        members.contains(k) ==> set_without(cur, members, key_epoch).removed.contains(k),
        !members.contains(k) ==> (set_without(cur, members, key_epoch).writers.contains(k)
            <==> cur.writers.contains(k)),
        cur.removed.contains(k) ==> set_without(cur, members, key_epoch).removed.contains(k),
        cur.writers.contains(k) || cur.removed.contains(k) ==> scope_keys(
            set_without(cur, members, key_epoch),
            MembershipScope::CurrentOrRemoved,
        ).contains(k),
{
    let next = set_without(cur, members, key_epoch);
    lemma_keys_without(cur.writers, members, k);
    lemma_keys_with(cur.removed, members, k);
    let all = next.writers + next.removed;
    if next.writers.contains(k) {
        let i = choose|i: int| 0 <= i < next.writers.len() && next.writers[i] == k;
        assert(all[i] == k);
    }
    if next.removed.contains(k) {
        let i = choose|i: int| 0 <= i < next.removed.len() && next.removed[i] == k;
        assert(all[next.writers.len() + i] == k);
    }
}

/// A record that could be read under a set can be read under every later set
/// made by admissions and removals.
pub proof fn law_removed_members_stay_readable<C: Crypto>(
    r: RecordModel,
    t: TrustModel,
    members: Seq<[u8; 32]>,
    key_epoch: u64,
)
    requires
        t.mode == SignMode::WriterSet,
        t.writer_set is Some,
        t.writer_set->Some_0.epoch < u64::MAX,
        key_epoch > t.writer_set->Some_0.key_epoch,
        signer_of::<C>(r, t, MembershipScope::CurrentOrRemoved) is Ok,
    ensures
        signer_of::<C>(
            r,
            (TrustModel {
                writer_set: Some(set_without(t.writer_set->Some_0, members, key_epoch)),
                ..t
            }),
            MembershipScope::CurrentOrRemoved,
        ) is Ok,
{
    let cur = t.writer_set->Some_0;
    let next = set_without(cur, members, key_epoch);
    let sig = r.signature->Some_0;
    let old_keys = scope_keys(cur, MembershipScope::CurrentOrRemoved);
    let new_keys = scope_keys(next, MembershipScope::CurrentOrRemoved);
    lemma_first_verifying::<C>(old_keys, payload_of(r), sig);
    let k = first_verifying::<C>(old_keys, payload_of(r), sig)->Some_0;
    let i = choose|i: int| 0 <= i < old_keys.len() && old_keys[i] == k;
    if i < cur.writers.len() {
        assert(cur.writers[i] == k);
    } else {
        assert(cur.removed[i - cur.writers.len()] == k);
    }
    law_removal_bars_writing_not_reading(cur, members, key_epoch, k);
    lemma_first_verifying::<C>(new_keys, payload_of(r), sig);
    let j = choose|j: int| 0 <= j < new_keys.len() && new_keys[j] == k;
    assert(C::verified(new_keys[j], payload_of(r), sig));
}

/// Within one key epoch no successor loses a writer.
pub proof fn law_no_removal_within_a_key_epoch(next: WriterSetModel, cur: WriterSetModel)
    requires
        is_successor(next, cur),
        next.key_epoch == cur.key_epoch,
    ensures
        keys_within(cur.writers, next.writers),
{
}

/// A set that was adopted is never adopted again over a later one.
pub proof fn law_no_rollback(next: WriterSetModel, cur: WriterSetModel)
    requires
        is_successor(next, cur),
    ensures
        !is_successor(cur, next),
        !is_successor(next, next),
{
}

} // verus!
