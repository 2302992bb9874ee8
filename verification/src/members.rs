//! The writer set of a container: who may write, and how that changes.
use vstd::prelude::*;
use vstd::string::StringSliceAdditionalSpecFns;

use crate::bytes::{
    le, lemma_le_len, lemma_pow256_values, lemma_un_le_of_le, push_le, read_le, same32, take16,
    un_le,
};
use crate::commit::blobs_view;
use crate::crypto::Crypto;
use crate::engine::{undo_ok, Committed, Container, ContainerHeader, Engine};
use crate::error::Error;
use crate::header::header_tag;
use crate::heap::{in_heap, lemma_undone_restamped, restamped};
use crate::unit::Uuid;
use crate::writerset::{
    is_successor, keys_with, keys_without, law_admission_only_adds, owner_signed, set_payload, set_rebound, set_view,
    set_with, set_without, signer_of, verify_record_signature, MembershipScope, SealedModel,
    SealedWriterSet, SignMode, WriterSet, WriterSetModel,
};

verus! {

/// A number and a length in one field, eight bytes each.
pub open spec fn blob_field(addr: u64, len: u64) -> Seq<u8> {
    le(addr as nat, 8) + le(len as nat, 8)
}

pub open spec fn blob_addr(f: [u8; 16]) -> u64 {
    un_le(f@.subrange(0, 8)) as u64
}

pub open spec fn blob_len(f: [u8; 16]) -> u64 {
    un_le(f@.subrange(8, 16)) as u64
}

fn encode_blob_loc(addr: u64, len: u64) -> (r: [u8; 16])
    ensures
        blob_addr(r) == addr,
        blob_len(r) == len,
        r@ == blob_field(addr, len),
{
    let mut out: Vec<u8> = Vec::new();
    push_le(&mut out, addr, 8);
    push_le(&mut out, len, 8);
    proof {
        lemma_pow256_values();
        lemma_le_len(addr as nat, 8);
        lemma_le_len(len as nat, 8);
        lemma_un_le_of_le(addr as nat, 8);
        lemma_un_le_of_le(len as nat, 8);
        assert(out@ =~= blob_field(addr, len));
        assert(out@.subrange(0, 16) =~= out@);
    }
    let r: [u8; 16] = take16(out.as_slice(), 0);
    proof {
        assert(r@ =~= out@);
        assert(r@.subrange(0, 8) =~= le(addr as nat, 8));
        assert(r@.subrange(8, 16) =~= le(len as nat, 8));
    }
    r
}

fn decode_blob_loc(field: &[u8; 16]) -> (r: (u64, u64))
    ensures
        r.0 == blob_addr(*field),
        r.1 == blob_len(*field),
{
    let b: &[u8] = field.as_slice();
    (read_le(b, 0, 8), read_le(b, 8, 8))
}

/// The bytes that a sealed set takes: the set and the signature.
pub open spec fn sealed_len(s: SealedModel) -> nat {
    set_payload(s.set).len() + 64
}

/// The sealed set that a header field names.
pub open spec fn blob_at(blobs: Seq<SealedModel>, field: Option<[u8; 16]>) -> Option<SealedModel> {
    match field {
        None => None,
        Some(f) => if in_heap(blobs, blob_addr(f)) && sealed_len(blobs[blob_addr(f) - 1])
            == blob_len(f) {
            Some(blobs[blob_addr(f) - 1])
        } else {
            None
        },
    }
}

/// The stored set, if it is the one that the header vouches for: signed by the
/// owner, of the header's epoch, and claiming no key epoch that the container
/// has not reached.
pub open spec fn vouched<C: Crypto>(blobs: Seq<SealedModel>, h: ContainerHeader) -> Result<
    WriterSetModel,
    Error,
> {
    match blob_at(blobs, h.writer_set) {
        None => Err(Error::Integrity),
        Some(s) => if owner_signed::<C>(s) && s.set.owner_pubkey == h.owner_pubkey && s.set.epoch
            == h.writer_set_epoch && s.set.key_epoch <= h.key_epoch {
            Ok(s.set)
        } else {
            Err(Error::Integrity)
        },
    }
}

fn find_blob(blobs: &Vec<SealedWriterSet>, field: &Option<[u8; 16]>) -> (r: Option<SealedWriterSet>)
    ensures
        match blob_at(blobs_view(blobs@), *field) {
            None => r is None,
            Some(s) => r is Some && r->Some_0@ == s,
        },
{
    match field {
        None => None,
        Some(f) => {
            let (addr, len): (u64, u64) = decode_blob_loc(f);
            if addr == 0 || addr > blobs.len() as u64 {
                return None;
            }
            let s: SealedWriterSet = blobs[(addr - 1) as usize].clone();
            let payload: Vec<u8> = s.set.payload();
            if payload.len() as u64 > u64::MAX - 64 || payload.len() as u64 + 64 != len {
                return None;
            }
            Some(s)
        },
    }
}

/// Loads the stored set and checks it against the header.
pub fn load_and_verify_writerset<C: Crypto>(blobs: &Vec<SealedWriterSet>, h: &ContainerHeader) -> (r:
    Result<WriterSet, Error>)
    ensures
        match vouched::<C>(blobs_view(blobs@), *h) {
            Err(e) => r is Err && r->Err_0 == e,
            Ok(s) => r is Ok && r->Ok_0@ == s,
        },
{
    let s: SealedWriterSet = match find_blob(blobs, &h.writer_set) {
        None => {
            return Err(Error::Integrity);
        },
        Some(s) => s,
    };
    let ws: WriterSet = match s.open::<C>() {
        Err(_) => {
            return Err(Error::Integrity);
        },
        Ok(w) => w,
    };
    if !same32(&ws.owner_pubkey, &h.owner_pubkey) || ws.epoch != h.writer_set_epoch || ws.key_epoch
        > h.key_epoch {
        return Err(Error::Integrity);
    }
    Ok(ws)
}

impl<C: Crypto> Engine<C> {
    /// The header that names a new writer set, after so many commits more.
    pub open spec fn set_header(
        h: ContainerHeader,
        field: [u8; 16],
        epoch: u64,
        commits: u64,
    ) -> ContainerHeader {
        ContainerHeader {
            writer_set_epoch: epoch,
            writer_set: Some(field),
            commit_seq: (h.commit_seq + commits) as u64,
            ..h
        }
    }

    /// A sealed set was stored and is in force: the header names it. That is
    /// committed at once, without what is staged, whose undo images wait for the
    /// commit after.
    pub open spec fn set_committed(o: &Self, e: &Self, s: SealedModel) -> bool {
        let field = e.header.writer_set->Some_0;
        &&& e.header == Self::set_header(o.header, field, s.set.epoch, 1)
        &&& e.disk.committed.header == e.header
        &&& e.tail() == restamped(o.tail(), o.header.commit_seq)
        &&& *e == (Engine {
            header: e.header,
            writer_set: e.writer_set,
            disk: (Container {
                blobs: e.disk.blobs,
                tail: e.disk.tail,
                committed: (Committed {
                    header: e.header,
                    tag: header_tag::<C>(o.root_key, e.header),
                    ..o.disk.committed
                }),
                ..o.disk
            }),
            ..*o
        })
    }

    /// The same while commits are held back: the header that names the set is
    /// staged with everything else.
    pub open spec fn set_staged(o: &Self, e: &Self, s: SealedModel) -> bool {
        let field = e.header.writer_set->Some_0;
        &&& e.header == Self::set_header(o.header, field, s.set.epoch, 0)
        &&& *e == (Engine {
            header: e.header,
            writer_set: e.writer_set,
            disk: (Container { blobs: e.disk.blobs, ..o.disk }),
            ..*o
        })
    }

    /// What storing a sealed set does.
    pub open spec fn set_commits(o: &Self, e: &Self, s: SealedModel) -> bool {
        let field = e.header.writer_set->Some_0;
        &&& blobs_view(e.disk.blobs@) == blobs_view(o.disk.blobs@).push(s)
        &&& blob_addr(field) == o.disk.blobs@.len() + 1
        &&& blob_len(field) == sealed_len(s)
        &&& set_view(e.writer_set) == Some(s.set)
        &&& if o.suppress_commit {
            Self::set_staged(o, e, s)
        } else {
            Self::set_committed(o, e, s)
        }
    }

    /// Stores a sealed set and puts it in force.
    pub fn commit_writer_set(&mut self, sealed: SealedWriterSet)
        requires
            old(self).inv(),
            old(self).header.commit_seq + 1 < u64::MAX,
            sealed_len(sealed@) <= u64::MAX,
        ensures
            final(self).inv(),
            old(self).recoverable() ==> final(self).recoverable(),
            Self::set_commits(old(self), final(self), sealed@),
    {
        let ghost o = *self;
        let ghost s = sealed@;
        let ws: WriterSet = sealed.set.clone();
        let payload: Vec<u8> = sealed.set.payload();
        let len: u64 = payload.len() as u64 + 64;
        self.disk.blobs.push(sealed);
        let addr: u64 = self.disk.blobs.len() as u64;
        let field: [u8; 16] = encode_blob_loc(addr, len);
        let mut h: ContainerHeader = self.header;
        h.writer_set_epoch = ws.epoch;
        h.writer_set = Some(field);
        self.writer_set = Some(ws);
        if !self.suppress_commit {
            self.disk.tail.restamp(h.commit_seq);
            h.commit_seq = h.commit_seq + 1;
            self.disk.committed.header = h;
            self.disk.committed.tag = h.tag::<C>(&self.root_key);
        }
        self.header = h;
        proof {
            assert(blobs_view(self.disk.blobs@) =~= blobs_view(o.disk.blobs@).push(s));
            if o.recoverable() && !o.suppress_commit {
                let seq = o.header.commit_seq;
                lemma_undone_restamped(o.slots(), o.tail(), seq);
                assert forall|i: int| 0 <= i < self.tail().len() implies (#[trigger] self.tail()[i]).inplace_addr
                    <= self.slots().len() && self.tail()[i].target_commit_seq <= h.commit_seq + 1 by {
                    assert(o.tail()[i].inplace_addr <= o.slots().len());
                }
                assert(undo_ok(self.slots(), self.tail(), h.commit_seq, self.snap@, self.dirty@));
            }
        }
    }

    /// The engine acts for the owner of the writer set.
    pub open spec fn is_set_owner(&self) -> bool {
        self.writer_set is Some && self.signing_key is Some && C::pubkey_of(
            self.signing_key->Some_0,
        ) == self.writer_set->Some_0@.owner_pubkey
    }

    /// The set `next`, signed by this engine.
    pub open spec fn signed_set(&self, next: WriterSetModel) -> SealedModel {
        SealedModel { set: next, signature: C::signed(self.signing_key->Some_0, set_payload(next)) }
    }

    /// The machine limits of a change to the writer set.
    pub open spec fn set_fits(&self, extra: nat) -> bool {
        self.writer_set is Some ==> {
            let ws = self.writer_set->Some_0@;
            &&& ws.epoch < u64::MAX
            &&& (ws.writers.len() + ws.removed.len() + extra) * 32 + 256 <= u64::MAX
        }
    }

    /// What admitting a writer does.
    pub open spec fn writer_added(
        o: &Self,
        e: &Self,
        key: [u8; 32],
        r: Result<(), Error>,
    ) -> bool {
        if o.is_set_owner() {
            r is Ok && Self::set_commits(
                o,
                e,
                o.signed_set(set_with(o.writer_set->Some_0@, key)),
            )
        } else {
            r == Err::<(), Error>(Error::Integrity) && *e == *o
        }
    }

    /// Admits a writer. Only the owner can.
    pub fn add_writer(&mut self, new_writer_pubkey: [u8; 32]) -> (r: Result<(), Error>)
        requires
            old(self).inv(),
            old(self).header.commit_seq + 1 < u64::MAX,
            old(self).set_fits(1),
        ensures
            final(self).inv(),
            old(self).recoverable() ==> final(self).recoverable(),
            Self::writer_added(old(self), final(self), new_writer_pubkey, r),
    {
        let sealed: SealedWriterSet = match &self.writer_set {
            None => {
                return Err(Error::Integrity);
            },
            Some(ws) => match &self.signing_key {
                None => {
                    return Err(Error::Integrity);
                },
                Some(seed) => {
                    let pk: [u8; 32] = C::pubkey(seed);
                    if !same32(&pk, &ws.owner_pubkey) {
                        return Err(Error::Integrity);
                    }
                    let next: WriterSet = ws.with_writer(&new_writer_pubkey);
                    proof {
                        law_admission_only_adds(ws@, new_writer_pubkey);
                        lemma_with_len(ws@.writers, seq![new_writer_pubkey]);
                        lemma_set_len(ws@, next@, 1);
                    }
                    if !next.is_valid_successor_of(ws) {
                        return Err(Error::Integrity);
                    }
                    next.seal::<C>(seed)
                },
            },
        };
        proof {
            assert(sealed@ =~= self.signed_set(sealed@.set));
        }
        self.commit_writer_set(sealed);
        Ok(())
    }

    /// The members may be removed: none is the owner, all are members, and the
    /// key was rotated since the set was sealed.
    pub open spec fn may_remove(&self, members: Seq<[u8; 32]>) -> bool {
        let ws = self.writer_set->Some_0@;
        &&& self.is_set_owner()
        &&& forall|i: int|
            0 <= i < members.len() ==> (#[trigger] members[i]) != ws.owner_pubkey
                && ws.writers.contains(members[i])
        &&& self.header.key_epoch > ws.key_epoch
    }

    /// What removing members does.
    pub open spec fn writers_removed(
        o: &Self,
        e: &Self,
        members: Seq<[u8; 32]>,
        r: Result<(), Error>,
    ) -> bool {
        if members.len() == 0 {
            r is Ok && *e == *o
        } else if o.may_remove(members) {
            r is Ok && Self::set_commits(
                o,
                e,
                o.signed_set(
                    set_without(o.writer_set->Some_0@, members, o.header.key_epoch),
                ),
            )
        } else {
            r == Err::<(), Error>(Error::Integrity) && *e == *o
        }
    }

    /// Removes members, all in one step. Only the owner can, and only after the
    /// key was rotated. What the members wrote stays readable.
    pub fn remove_writers(&mut self, members: &[[u8; 32]]) -> (r: Result<(), Error>)
        requires
            old(self).inv(),
            old(self).header.commit_seq + 1 < u64::MAX,
            old(self).set_fits(members@.len()),
        ensures
            final(self).inv(),
            old(self).recoverable() ==> final(self).recoverable(),
            Self::writers_removed(old(self), final(self), members@, r),
    {
        if members.len() == 0 {
            return Ok(());
        }
        let key_epoch: u64 = self.header.key_epoch;
        let sealed: SealedWriterSet = match &self.writer_set {
            None => {
                return Err(Error::Integrity);
            },
            Some(ws) => match &self.signing_key {
                None => {
                    return Err(Error::Integrity);
                },
                Some(seed) => {
                    let pk: [u8; 32] = C::pubkey(seed);
                    if !same32(&pk, &ws.owner_pubkey) {
                        return Err(Error::Integrity);
                    }
                    let n: usize = members.len();
                    let mut i: usize = 0;
                    while i < n
                        invariant
                            n == members@.len(),
                            i <= n,
                            *self == *old(self),
                            self.inv(),
                            self.writer_set == Some(*ws),
                            forall|k: int|
                                0 <= k < i ==> (#[trigger] members@[k]) != ws@.owner_pubkey
                                    && ws@.writers.contains(members@[k]),
                        decreases n - i,
                    {
                        if same32(&members[i], &ws.owner_pubkey) || !ws.contains(&members[i]) {
                            proof {
                                let bad = members@[i as int];
                                assert(bad == ws@.owner_pubkey || !ws@.writers.contains(bad));
                            }
                            return Err(Error::Integrity);
                        }
                        i = i + 1;
                    }
                    if key_epoch <= ws.key_epoch {
                        return Err(Error::Integrity);
                    }
                    let next: WriterSet = ws.without_writers(members, key_epoch);
                    proof {
                        lemma_without_len(ws@.writers, members@);
                        lemma_with_len(ws@.removed, members@);
                        lemma_set_len(ws@, next@, members@.len());
                    }
                    if !next.is_valid_successor_of(ws) {
                        return Err(Error::Integrity);
                    }
                    next.seal::<C>(seed)
                },
            },
        };
        proof {
            assert(sealed@ =~= self.signed_set(sealed@.set));
        }
        self.commit_writer_set(sealed);
        Ok(())
    }

    /// Removes one member.
    pub fn remove_writer(&mut self, member_pubkey: &[u8; 32]) -> (r: Result<(), Error>)
        requires
            old(self).inv(),
            old(self).header.commit_seq + 1 < u64::MAX,
            old(self).set_fits(1),
        ensures
            final(self).inv(),
            old(self).recoverable() ==> final(self).recoverable(),
            Self::writers_removed(old(self), final(self), seq![*member_pubkey], r),
    {
        let one: Vec<[u8; 32]> = vec![*member_pubkey];
        proof {
            assert(one@ =~= seq![*member_pubkey]);
        }
        self.remove_writers(one.as_slice())
    }
}

/// A changed set is not much longer than the set before.
proof fn lemma_set_len(cur: WriterSetModel, next: WriterSetModel, extra: nat)
    requires
        next.writers.len() + next.removed.len() <= cur.writers.len() + cur.removed.len() + extra
            || next.writers.len() <= cur.writers.len() && next.removed.len() <= cur.removed.len()
            + extra,
        (cur.writers.len() + cur.removed.len() + extra) * 32 + 256 <= u64::MAX,
    ensures
        set_payload(next).len() + 64 <= u64::MAX,
{
    lemma_le_len(next.epoch as nat, 8);
    lemma_le_len(next.key_epoch as nat, 8);
    lemma_le_len(next.writers.len(), 8);
    lemma_le_len(next.removed.len(), 8);
    lemma_key_run_len(next.writers);
    lemma_key_run_len(next.removed);
}

proof fn lemma_with_len(keys: Seq<[u8; 32]>, extra: Seq<[u8; 32]>)
    ensures
        keys_with(keys, extra).len() <= keys.len() + extra.len(),
    decreases extra.len(),
{
    if extra.len() > 0 {
        lemma_with_len(keys, extra.drop_last());
    }
}

proof fn lemma_without_len(keys: Seq<[u8; 32]>, drop: Seq<[u8; 32]>)
    ensures
        keys_without(keys, drop).len() <= keys.len(),
    decreases keys.len(),
{
    if keys.len() > 0 {
        lemma_without_len(keys.drop_last(), drop);
    }
}

pub proof fn lemma_key_run_len(s: Seq<[u8; 32]>)
    ensures
        crate::writerset::key_run(s).len() == s.len() * 32,
    decreases s.len(),
{
    if s.len() > 0 {
        lemma_key_run_len(s.drop_last());
    }
}


/// Grants for readers: each opens, for its reader, to the key and the epoch.
pub open spec fn grants_ok<C: Crypto>(
    grants: Seq<([u8; 32], Vec<u8>)>,
    readers: Seq<[u8; 32]>,
    key: [u8; 32],
    epoch: u64,
) -> bool {
    &&& grants.len() == readers.len()
    &&& forall|i: int|
        0 <= i < readers.len() ==> (#[trigger] grants[i]).0 == readers[i] && opens_for::<C>(
            grants[i].1@,
            readers[i],
            key,
            epoch,
        )
}

/// The grant opens for whoever has the identity behind `reader`.
pub open spec fn opens_for<C: Crypto>(
    grant: Seq<u8>,
    reader: [u8; 32],
    key: [u8; 32],
    epoch: u64,
) -> bool {
    forall|identity: [u8; 32]|
        C::recipient_of(identity) == reader ==> #[trigger] C::granted(identity, grant) == Some(
            (key, epoch),
        )
}

impl<C: Crypto> Engine<C> {
    /// Seals the writer set again, bound to the present key epoch.
    pub open spec fn set_resealed(o: &Self, e: &Self, r: Result<(), Error>) -> bool {
        match set_view(o.writer_set) {
            None => r is Ok && *e == *o,
            Some(ws) => if ws.key_epoch == o.header.key_epoch {
                r is Ok && *e == *o
            } else if o.is_set_owner() && o.header.key_epoch > ws.key_epoch {
                r is Ok && Self::set_commits(
                    o,
                    e,
                    o.signed_set(set_rebound(ws, o.header.key_epoch)),
                )
            } else {
                r == Err::<(), Error>(Error::Integrity) && *e == *o
            },
        }
    }

    fn reseal_writer_set_at_key_epoch(&mut self) -> (r: Result<(), Error>)
        requires
            old(self).inv(),
            old(self).header.commit_seq + 1 < u64::MAX,
            old(self).set_fits(0),
        ensures
            final(self).inv(),
            old(self).recoverable() ==> final(self).recoverable(),
            Self::set_resealed(old(self), final(self), r),
    {
        let key_epoch: u64 = self.header.key_epoch;
        let sealed: SealedWriterSet = match &self.writer_set {
            None => {
                return Ok(());
            },
            Some(ws) => {
                if ws.key_epoch == key_epoch {
                    return Ok(());
                }
                match &self.signing_key {
                    None => {
                        return Err(Error::Integrity);
                    },
                    Some(seed) => {
                        let pk: [u8; 32] = C::pubkey(seed);
                        if !same32(&pk, &ws.owner_pubkey) {
                            return Err(Error::Integrity);
                        }
                        let next: WriterSet = ws.rebound(key_epoch);
                        proof {
                            lemma_set_len(ws@, next@, 0);
                        }
                        if !next.is_valid_successor_of(ws) {
                            return Err(Error::Integrity);
                        }
                        next.seal::<C>(seed)
                    },
                }
            },
        };
        proof {
            assert(sealed@ =~= self.signed_set(sealed@.set));
        }
        self.commit_writer_set(sealed);
        Ok(())
    }

    /// Seals the root key and its epoch for a reader.
    pub fn grant_read(&self, grantee_x25519_pub: &[u8; 32]) -> (r: Vec<u8>)
        ensures
            opens_for::<C>(r@, *grantee_x25519_pub, self.root_key, self.header.key_epoch),
    {
        C::seal_grant(grantee_x25519_pub, &self.root_key, self.header.key_epoch)
    }

    /// The writer set can be changed, and the commits that takes can be counted.
    pub open spec fn revoke_fits(&self, extra: nat) -> bool {
        &&& self.set_fits(extra)
        &&& self.header.commit_seq + 3 < u64::MAX
    }

    /// A change of keys takes two commits at most, and leaves the writer set.
    proof fn lemma_rekeyed_bounds(
        o: &Self,
        m: &Self,
        key: [u8; 32],
        epoch: u64,
    )
        requires
            Self::rekeyed(o, m, key, epoch, None, false, Ok(())),
            o.header.commit_seq + 2 < u64::MAX,
        ensures
            m.writer_set == o.writer_set,
            m.header.commit_seq <= o.header.commit_seq + 2,
    {
        let (c, f, g, t, n) = choose|
            c: Self,
            f: Self,
            g: Self,
            t: Seq<(Self, Map<Seq<u8>, u64>)>,
            n: nat,
        | #[trigger]
            Self::rekey_end(o, m, &c, &f, &g, t, n, key, epoch, None, false, Ok(()));
        assert(Self::checkpointed(o, &c, Ok(())));
        assert(Self::grew(&c, &f));
    }

    /// The state between rotating the key and removing the members.
    pub open spec fn revoke_mid(o: &Self, m: &Self, key: [u8; 32]) -> bool {
        Self::rekeyed(o, m, key, (o.header.key_epoch + 1) as u64, None, false, Ok(()))
    }

    /// What shutting readers and writers out does.
    pub open spec fn revoked(
        o: &Self,
        e: &Self,
        key: [u8; 32],
        readers: Seq<[u8; 32]>,
        remove: Seq<[u8; 32]>,
        r: Result<Vec<([u8; 32], Vec<u8>)>, Error>,
    ) -> bool {
        &&& !o.may_rotate() ==> r is Err && r->Err_0 == Error::Integrity && *e == *o
        &&& o.may_rotate() ==> {
            ||| r is Err && Self::rekeyed(
                o,
                e,
                key,
                (o.header.key_epoch + 1) as u64,
                None,
                false,
                Err(r->Err_0),
            )
            ||| exists|m: Self| #[trigger] Self::revoke_mid(o, &m, key) && Self::revoke_end(
                &m,
                e,
                readers,
                remove,
                r,
            )
        }
    }

    /// What follows the change of keys when readers and writers are shut out.
    pub open spec fn revoke_end(
        m: &Self,
        e: &Self,
        readers: Seq<[u8; 32]>,
        remove: Seq<[u8; 32]>,
        r: Result<Vec<([u8; 32], Vec<u8>)>, Error>,
    ) -> bool {
        let step = match r {
            Ok(_) => Ok(()),
            Err(x) => Err(x),
        };
        &&& remove.len() == 0 ==> Self::set_resealed(m, e, step)
        &&& remove.len() > 0 ==> Self::writers_removed(m, e, remove, step)
        &&& r is Ok ==> grants_ok::<C>(r->Ok_0@, readers, e.root_key, e.header.key_epoch)
    }

    /// Shuts readers and writers out for the future: rotates the key, removes the
    /// writers, and seals the new key for the readers that remain. Gives the
    /// grants for them.
    pub fn revoke(
        &mut self,
        new_root_key: &[u8; 32],
        remaining_reader_x25519_pubs: &[[u8; 32]],
        remove: &[[u8; 32]],
    ) -> (r: Result<Vec<([u8; 32], Vec<u8>)>, Error>)
        requires
            old(self).inv(),
            old(self).header.commit_seq < u64::MAX,
            old(self).header.key_epoch < u64::MAX,
            old(self).checkpoint_fits(),
            old(self).reseal_ready(),
            old(self).revoke_fits(remove@.len()),
        ensures
            final(self).inv(),
            old(self).recoverable() ==> final(self).recoverable(),
            Self::revoked(
                old(self),
                final(self),
                *new_root_key,
                remaining_reader_x25519_pubs@,
                remove@,
                r,
            ),
    {
        let rotated: Result<(), Error> = self.rotate_root_key(new_root_key);
        match rotated {
            Err(e) => {
                return Err(e);
            },
            Ok(u) => {
                proof {
                    assert(u == ());
                }
            },
        }
        let ghost m = *self;
        proof {
            assert(rotated == Ok::<(), Error>(()));
            assert(Self::rekeyed(
                old(self),
                &m,
                *new_root_key,
                (old(self).header.key_epoch + 1) as u64,
                None,
                false,
                Ok(()),
            ));
            assert(Self::revoke_mid(old(self), &m, *new_root_key));
            Self::lemma_rekeyed_bounds(
                old(self),
                &m,
                *new_root_key,
                (old(self).header.key_epoch + 1) as u64,
            );
        }
        let changed: Result<(), Error> = if remove.len() == 0 {
            self.reseal_writer_set_at_key_epoch()
        } else {
            self.remove_writers(remove)
        };
        match changed {
            Err(e) => {
                return Err(e);
            },
            Ok(()) => {},
        }
        let n: usize = remaining_reader_x25519_pubs.len();
        let mut grants: Vec<([u8; 32], Vec<u8>)> = Vec::new();
        let ghost done = *self;
        let mut i: usize = 0;
        while i < n
            invariant
                *self == done,
                n == remaining_reader_x25519_pubs@.len(),
                i <= n,
                grants@.len() == i,
                forall|k: int|
                    0 <= k < i ==> (#[trigger] grants@[k]).0 == remaining_reader_x25519_pubs@[k]
                        && opens_for::<C>(
                        grants@[k].1@,
                        remaining_reader_x25519_pubs@[k],
                        done.root_key,
                        done.header.key_epoch,
                    ),
            decreases n - i,
        {
            let who: [u8; 32] = remaining_reader_x25519_pubs[i];
            let g: Vec<u8> = self.grant_read(&who);
            grants.push((who, g));
            i = i + 1;
        }
        proof {
            assert(grants_ok::<C>(
                grants@,
                remaining_reader_x25519_pubs@,
                done.root_key,
                done.header.key_epoch,
            ));
        }
        Ok(grants)
    }

    /// The writer set in force, if it is loaded.
    pub fn current_writer_set(&self) -> (r: Option<&WriterSet>)
        ensures
            match self.writer_set {
                None => r is None,
                Some(ws) => r is Some && *r->Some_0 == ws,
            },
    {
        match &self.writer_set {
            None => None,
            Some(ws) => Some(ws),
        }
    }

    /// The stored set with the owner's signature, in containers that have one.
    pub fn sealed_writer_set_blob(&self) -> (r: Option<SealedWriterSet>)
        ensures
            if self.header.sign_mode != SignMode::WriterSet {
                r is None
            } else {
                match blob_at(blobs_view(self.disk.blobs@), self.header.writer_set) {
                    None => r is None,
                    Some(s) => r is Some && r->Some_0@ == s,
                }
            },
    {
        match self.header.sign_mode {
            SignMode::WriterSet => find_blob(&self.disk.blobs, &self.header.writer_set),
            _ => None,
        }
    }

    /// The set that is in force here: the loaded one, or else the stored one.
    pub open spec fn local_set(&self) -> Result<WriterSetModel, Error> {
        match set_view(self.writer_set) {
            Some(ws) => Ok(ws),
            None => vouched::<C>(blobs_view(self.disk.blobs@), self.header),
        }
    }

    fn find_local_set(&self) -> (r: Result<WriterSet, Error>)
        ensures
            match self.local_set() {
                Err(e) => r is Err && r->Err_0 == e,
                Ok(s) => r is Ok && r->Ok_0@ == s,
            },
    {
        match &self.writer_set {
            Some(ws) => Ok(ws.clone()),
            None => load_and_verify_writerset::<C>(&self.disk.blobs, &self.header),
        }
    }

    /// Loads the stored writer set, so that records can be verified. Nothing
    /// happens where it is loaded, or there is none.
    pub fn ensure_writer_set_loaded(&mut self) -> (r: Result<(), Error>)
        requires
            old(self).inv(),
        ensures
            final(self).inv(),
            old(self).recoverable() ==> final(self).recoverable(),
            if old(self).header.sign_mode == SignMode::WriterSet && old(self).writer_set is None {
                match vouched::<C>(blobs_view(old(self).disk.blobs@), old(self).header) {
                    Err(e) => r == Err::<(), Error>(e) && *final(self) == *old(self),
                    Ok(s) => {
                        &&& r is Ok
                        &&& set_view(final(self).writer_set) == Some(s)
                        &&& *final(self) == (Engine {
                            writer_set: final(self).writer_set,
                            ..*old(self)
                        })
                    },
                }
            } else {
                r is Ok && *final(self) == *old(self)
            },
    {
        match self.header.sign_mode {
            SignMode::WriterSet => {},
            _ => {
                return Ok(());
            },
        }
        if self.writer_set.is_some() {
            return Ok(());
        }
        match load_and_verify_writerset::<C>(&self.disk.blobs, &self.header) {
            Err(e) => Err(e),
            Ok(ws) => {
                self.writer_set = Some(ws);
                Ok(())
            },
        }
    }

    /// What offering a sealed set to this replica does: it is taken up only if
    /// the owner signed it and it may follow the set in force.
    pub open spec fn set_offered(o: &Self, e: &Self, s: SealedModel, r: Result<bool, Error>) -> bool {
        if o.header.sign_mode != SignMode::WriterSet {
            r == Ok::<bool, Error>(false) && *e == *o
        } else if !owner_signed::<C>(s) {
            r == Err::<bool, Error>(Error::Integrity) && *e == *o
        } else if s.set.owner_pubkey != o.header.owner_pubkey {
            r == Ok::<bool, Error>(false) && *e == *o
        } else {
            match o.local_set() {
                Err(x) => r == Err::<bool, Error>(x) && *e == *o,
                Ok(cur) => if is_successor(s.set, cur) {
                    r == Ok::<bool, Error>(true) && Self::set_commits(o, e, s)
                } else {
                    r == Ok::<bool, Error>(false) && *e == *o
                },
            }
        }
    }

    /// Takes up the writer set of another replica, if it may follow the one in
    /// force here. Says whether it did.
    pub fn adopt_writer_set(&mut self, blob: SealedWriterSet) -> (r: Result<bool, Error>)
        requires
            old(self).inv(),
            old(self).header.commit_seq + 1 < u64::MAX,
            sealed_len(blob@) <= u64::MAX,
        ensures
            final(self).inv(),
            old(self).recoverable() ==> final(self).recoverable(),
            Self::set_offered(old(self), final(self), blob@, r),
    {
        match self.header.sign_mode {
            SignMode::WriterSet => {},
            _ => {
                return Ok(false);
            },
        }
        let remote: WriterSet = match blob.open::<C>() {
            Err(e) => {
                return Err(e);
            },
            Ok(w) => w,
        };
        if !same32(&remote.owner_pubkey, &self.header.owner_pubkey) {
            return Ok(false);
        }
        let local: WriterSet = match self.find_local_set() {
            Err(e) => {
                return Err(e);
            },
            Ok(w) => w,
        };
        if remote.epoch == local.epoch {
            return Ok(false);
        }
        if !remote.is_valid_successor_of(&local) {
            return Ok(false);
        }
        self.commit_writer_set(blob);
        Ok(true)
    }

    /// Who wrote the head record at `path`: `None` where nothing is signed, and
    /// otherwise the writer whose key verifies the record, former members of the
    /// writer set included.
    pub fn record_signer(&self, path: &str) -> (r: Result<Option<[u8; 32]>, Error>)
        requires
            self.inv(),
        ensures
            match self.head_at(path.spec_bytes()) {
                Err(e) => r == Err::<Option<[u8; 32]>, Error>(e),
                Ok((_, addr)) => r == signer_of::<C>(
                    self.recs()[addr - 1],
                    self.trust(),
                    MembershipScope::CurrentOrRemoved,
                ),
            },
    {
        let (uuid, addr): (Uuid, u64) = match self.locate(path.as_bytes()) {
            Err(e) => {
                return Err(e);
            },
            Ok(x) => x,
        };
        match self.disk.records.get(addr) {
            None => Err(Error::Integrity),
            Some(rec) => verify_record_signature::<C>(
                &rec,
                self.header.sign_mode,
                &self.header.writer_pubkey,
                &self.writer_set,
                MembershipScope::CurrentOrRemoved,
            ),
        }
    }

    // ── Adopting another replica's re-key ───────────────────────────────────

    /// A re-key may be adopted: the set is the owner's, bound to exactly the new
    /// key epoch, and may follow the set in force.
    pub open spec fn rekey_authorised(&self, epoch: u64, s: SealedModel) -> Result<(), Error> {
        if self.header.sign_mode != SignMode::WriterSet || !owner_signed::<C>(s)
            || s.set.owner_pubkey != self.header.owner_pubkey || s.set.key_epoch != epoch {
            Err(Error::Integrity)
        } else {
            match self.local_set() {
                Err(e) => Err(e),
                Ok(cur) => if is_successor(s.set, cur) {
                    Ok(())
                } else {
                    Err(Error::Integrity)
                },
            }
        }
    }

    fn authorise_rekey(&self, epoch: u64, blob: &SealedWriterSet) -> (r: Result<WriterSet, Error>)
        ensures
            match self.rekey_authorised(epoch, blob@) {
                Err(e) => r is Err && r->Err_0 == e,
                Ok(_) => r is Ok && r->Ok_0@ == blob@.set,
            },
    {
        match self.header.sign_mode {
            SignMode::WriterSet => {},
            _ => {
                return Err(Error::Integrity);
            },
        }
        let next: WriterSet = match blob.open::<C>() {
            Err(e) => {
                return Err(e);
            },
            Ok(w) => w,
        };
        if !same32(&next.owner_pubkey, &self.header.owner_pubkey) {
            return Err(Error::Integrity);
        }
        if next.key_epoch != epoch {
            return Err(Error::Integrity);
        }
        let local: WriterSet = match self.find_local_set() {
            Err(e) => {
                return Err(e);
            },
            Ok(w) => w,
        };
        if next.is_valid_successor_of(&local) {
            Ok(next)
        } else {
            Err(Error::Integrity)
        }
    }

    /// The engine with a sealed set stored, not yet in force.
    pub open spec fn blob_staged(o: &Self, e: &Self, s: SealedModel) -> bool {
        &&& blobs_view(e.disk.blobs@) == blobs_view(o.disk.blobs@).push(s)
        &&& *e == (Engine { disk: (Container { blobs: e.disk.blobs, ..o.disk }), ..*o })
    }

    /// What adopting a re-key does: the set is stored, and then everything sealed
    /// under the new key, in one commit with the set.
    pub open spec fn rekey_adopted(
        o: &Self,
        e: &Self,
        key: [u8; 32],
        epoch: u64,
        s: SealedModel,
        simulate: bool,
        r: Result<(), Error>,
        m: &Self,
        f: &Self,
        field: [u8; 16],
    ) -> bool {
        &&& Self::blob_staged(o, m, s)
        &&& blob_addr(field) == o.disk.blobs@.len() + 1
        &&& blob_len(field) == sealed_len(s)
        &&& Self::rekeyed(m, f, key, epoch, Some((field, s.set.epoch)), simulate, r)
        &&& if r is Ok && !simulate {
            &&& set_view(e.writer_set) == Some(s.set)
            &&& *e == (Engine { writer_set: e.writer_set, ..*f })
        } else {
            *e == *f
        }
    }

    /// What offering a re-key does.
    pub open spec fn rekey_offered(
        o: &Self,
        e: &Self,
        key: [u8; 32],
        epoch: u64,
        s: SealedModel,
        simulate: bool,
        r: Result<(), Error>,
    ) -> bool {
        match o.rekey_authorised(epoch, s) {
            Err(x) => r == Err::<(), Error>(x) && *e == *o,
            Ok(_) => exists|m: Self, f: Self, field: [u8; 16]| #[trigger]
                Self::rekey_adopted(o, e, key, epoch, s, simulate, r, &m, &f, field),
        }
    }

    /// The limits that adopting a re-key must stay within.
    pub open spec fn adopt_fits(&self, s: SealedModel) -> bool {
        &&& sealed_len(s) <= u64::MAX
        &&& self.checkpoint_fits()
        &&& self.reseal_ready()
    }

    fn adopt_rekey_inner(
        &mut self,
        new_root_key: &[u8; 32],
        new_key_epoch: u64,
        new_ws_blob: SealedWriterSet,
        simulate_crash: bool,
    ) -> (r: Result<(), Error>)
        requires
            old(self).inv(),
            old(self).header.commit_seq < u64::MAX,
            old(self).adopt_fits(new_ws_blob@),
        ensures
            final(self).inv(),
            old(self).recoverable() ==> final(self).recoverable(),
            Self::rekey_offered(
                old(self),
                final(self),
                *new_root_key,
                new_key_epoch,
                new_ws_blob@,
                simulate_crash,
                r,
            ),
    {
        let ghost o = *self;
        let ghost s = new_ws_blob@;
        let next: WriterSet = match self.authorise_rekey(new_key_epoch, &new_ws_blob) {
            Err(e) => {
                return Err(e);
            },
            Ok(w) => w,
        };
        let payload: Vec<u8> = new_ws_blob.set.payload();
        let len: u64 = payload.len() as u64 + 64;
        self.disk.blobs.push(new_ws_blob);
        let addr: u64 = self.disk.blobs.len() as u64;
        let field: [u8; 16] = encode_blob_loc(addr, len);
        let ghost m = *self;
        proof {
            assert(blobs_view(m.disk.blobs@) =~= blobs_view(o.disk.blobs@).push(s));
            assert(Self::blob_staged(&o, &m, s));
            assert forall|j: int| #[trigger] m.flush_path(j) == o.flush_path(j) by {}
            assert forall|k: Seq<u8>| #[trigger] m.head(k) == o.head(k) by {}
            assert(m.checkpoint_fits()) by {
                assert forall|j: int|
                    0 <= j < m.overlay@.len() && #[trigger] m.flush_path(j) is Some && m.head(
                        m.flush_path(j)->Some_0,
                    ) is Ok implies crate::wal::writes_fit_stream(
                    m.head(m.flush_path(j)->Some_0)->Ok_0.2.stream(),
                    m.local_alias,
                    crate::overlay::writes_view(m.overlay@[j].writes@),
                ) by {
                    assert(o.flush_path(j) is Some);
                    assert(o.head(o.flush_path(j)->Some_0) is Ok);
                }
            }
        }
        let r: Result<(), Error> = self.rekey_core(
            new_root_key,
            new_key_epoch,
            Some((field, next.epoch)),
            simulate_crash,
        );
        let ghost f = *self;
        if r.is_ok() && !simulate_crash {
            self.writer_set = Some(next);
        }
        proof {
            assert(Self::rekey_adopted(
                &o,
                &*self,
                *new_root_key,
                new_key_epoch,
                s,
                simulate_crash,
                r,
                &m,
                &f,
                field,
            ));
        }
        r
    }

    /// Seals everything under the new key of the container's owner, and takes up
    /// the writer set that is bound to it, in one commit.
    pub fn adopt_rekey(
        &mut self,
        new_root_key: &[u8; 32],
        new_key_epoch: u64,
        new_ws_blob: SealedWriterSet,
    ) -> (r: Result<(), Error>)
        requires
            old(self).inv(),
            old(self).header.commit_seq < u64::MAX,
            old(self).adopt_fits(new_ws_blob@),
        ensures
            final(self).inv(),
            old(self).recoverable() ==> final(self).recoverable(),
            Self::rekey_offered(
                old(self),
                final(self),
                *new_root_key,
                new_key_epoch,
                new_ws_blob@,
                false,
                r,
            ),
    {
        self.adopt_rekey_inner(new_root_key, new_key_epoch, new_ws_blob, false)
    }

    /// Adopting a re-key, with a commit that never lands.
    pub fn adopt_rekey_simulate_crash_before_commit(
        &mut self,
        new_root_key: &[u8; 32],
        new_key_epoch: u64,
        new_ws_blob: SealedWriterSet,
    ) -> (r: Result<(), Error>)
        requires
            old(self).inv(),
            old(self).header.commit_seq < u64::MAX,
            old(self).adopt_fits(new_ws_blob@),
        ensures
            final(self).inv(),
            old(self).recoverable() ==> final(self).recoverable(),
            Self::rekey_offered(
                old(self),
                final(self),
                *new_root_key,
                new_key_epoch,
                new_ws_blob@,
                true,
                r,
            ),
    {
        self.adopt_rekey_inner(new_root_key, new_key_epoch, new_ws_blob, true)
    }
}

/// A set that the owner signed and that may follow the one in force is taken up:
/// it is in force from then on, its epoch stands in the header, it is stored as it
/// came, and offering it again changes nothing. The owner stays the owner.
pub proof fn law_adopted_sets_are_in_force<C: Crypto>(
    o: &Engine<C>,
    e: &Engine<C>,
    s: SealedModel,
    r: Result<bool, Error>,
)
    requires
        o.inv(),
        o.header.sign_mode == SignMode::WriterSet,
        owner_signed::<C>(s),
        s.set.owner_pubkey == o.header.owner_pubkey,
        o.local_set() is Ok,
        is_successor(s.set, o.local_set()->Ok_0),
        Engine::<C>::set_offered(o, e, s, r),
    ensures
        r == Ok::<bool, Error>(true),
        set_view(e.writer_set) == Some(s.set),
        e.header.writer_set_epoch == s.set.epoch,
        e.header.owner_pubkey == o.header.owner_pubkey,
        blobs_view(e.disk.blobs@).last() == s,
        blobs_view(e.disk.blobs@).drop_last() == blobs_view(o.disk.blobs@),
        e.recs() == o.recs(),
        e.slots() == o.slots(),
        forall|x: &Engine<C>, y: Result<bool, Error>| #[trigger]
            Engine::<C>::set_offered(e, x, s, y) ==> y == Ok::<bool, Error>(false) && *x == *e,
{
    assert(blobs_view(e.disk.blobs@).drop_last() =~= blobs_view(o.disk.blobs@));
    assert(e.local_set() == Ok::<WriterSetModel, Error>(s.set));
    assert(!is_successor(s.set, s.set));
}

} // verus!
