//! Laws on commits and transactions, on creating and opening containers, and on
//! changes of keys.
use vstd::prelude::*;

use crate::commit::blobs_view;
use crate::crypto::{Crypto, CIPHER_AES256_GCM};
use crate::engine::{Container, Engine};
use crate::error::Error;
use crate::writerset::{set_view, SealedModel, SignMode};

verus! {

/// A commit is one later than the one before. What it holds is what was staged:
/// every path, every head and every slot. Nothing about the container's keys,
/// members or suites changes with it.
pub proof fn law_commits_take_up_what_was_staged<C: Crypto>(o: &Engine<C>, e: &Engine<C>)
    requires
        Engine::<C>::published(o, e),
        o.header.commit_seq < u64::MAX,
    ensures
        e.header.commit_seq == o.header.commit_seq + 1,
        e.disk.committed.header.commit_seq == o.header.commit_seq + 1,
        e.disk.committed.keys@ == o.keys@,
        e.disk.committed.ids@ == o.ids@,
        e.keys@ == o.keys@,
        e.ids@ == o.ids@,
        e.recs() == o.recs(),
        e.slots() == o.slots(),
        e.tail() == o.tail(),
        e.header.key_epoch == o.header.key_epoch,
        e.header.sign_mode == o.header.sign_mode,
        e.header.writer_pubkey == o.header.writer_pubkey,
        e.header.owner_pubkey == o.header.owner_pubkey,
        e.header.writer_set == o.header.writer_set,
        e.header.writer_set_epoch == o.header.writer_set_epoch,
        e.header.cipher == o.header.cipher,
        e.header.content_cipher == o.header.content_cipher,
        e.header.salt == o.header.salt,
        e.root_key == o.root_key,
        o.pending_wal_applied_seq is Some ==> e.header.wal_applied_seq
            == o.pending_wal_applied_seq->Some_0,
        o.pending_wal_applied_seq is None ==> e.header.wal_applied_seq == o.header.wal_applied_seq,
        o.header.wal_enabled ==> e.header.wal_enabled,
        o.header.cipher == CIPHER_AES256_GCM ==> Engine::<C>::key_fits(e.disk, e.root_key),
{
}

/// A transaction is all or nothing. If its body succeeds, the outermost one commits
/// everything that the body did, in one commit; if it fails, or there is one around
/// it, it commits nothing.
pub proof fn law_transactions_are_all_or_nothing<C: Crypto>(
    o: &Engine<C>,
    mid: &Engine<C>,
    e: &Engine<C>,
    succeeded: bool,
)
    requires
        Engine::<C>::transacted(o, mid, e, succeeded),
        mid.header.commit_seq < u64::MAX,
    ensures
        e.suppress_commit == o.suppress_commit,
        e.keys@ == mid.keys@,
        e.ids@ == mid.ids@,
        e.recs() == mid.recs(),
        e.slots() == mid.slots(),
        succeeded && !o.suppress_commit ==> {
            &&& e.disk.committed.keys@ == mid.keys@
            &&& e.disk.committed.ids@ == mid.ids@
            &&& e.header.commit_seq == mid.header.commit_seq + 1
        },
        !succeeded || o.suppress_commit ==> {
            &&& e.disk.committed == mid.disk.committed
            &&& e.header.commit_seq == mid.header.commit_seq
        },
{
}

/// A new container holds nothing, is unsigned, has one commit and a key that was
/// never rotated, and opens with the key that it was made with.
pub proof fn law_new_containers_are_empty<C: Crypto>(
    r: Result<Engine<C>, Error>,
    suite: u8,
    salt: [u8; 16],
    key: [u8; 32],
    path: Seq<u8>,
)
    requires
        Engine::<C>::created_with(r, crate::setup::fresh_header(suite, salt), key),
    ensures
        r is Ok,
        ({
            let e = r->Ok_0;
            &&& !e.keys@.contains_key(path)
            &&& e.recs().len() == 0
            &&& e.slots().len() == 0
            &&& e.tail().len() == 0
            &&& e.root_key == key
            &&& e.header.content_cipher == suite
            &&& e.header.salt == salt
            &&& e.header.sign_mode == SignMode::Unsigned
            &&& e.header.key_epoch == 0
            &&& e.header.commit_seq == 1
            &&& !e.header.wal_enabled
            &&& !e.suppress_commit
            &&& e.signing_key is None
            &&& e.may_sign()
            &&& Engine::<C>::key_fits(e.disk, key)
        }),
{
}

/// A container that one writer signs is made with that writer's key, and its writer
/// may write to it.
pub proof fn law_signed_containers_have_one_writer<C: Crypto>(
    r: Result<Engine<C>, Error>,
    suite: u8,
    key: [u8; 32],
    seed: [u8; 32],
)
    requires
        Engine::<C>::signed_created(r, suite, key, seed),
        r is Ok,
        crate::setup::content_suite_ok(suite),
    ensures
        r->Ok_0.header.sign_mode == SignMode::Signed,
        r->Ok_0.header.writer_pubkey == C::pubkey_of(seed),
        r->Ok_0.signing_key == Some(seed),
        r->Ok_0.header.content_cipher == suite,
        r->Ok_0.may_sign(),
        r->Ok_0.may_rotate(),
        r->Ok_0.recs().len() == 0,
        Engine::<C>::key_fits(r->Ok_0.disk, key),
        Engine::<C>::signed_opened(&r->Ok_0, seed) is Ok,
{
}

/// Content can be put under three suites: none, the one that authenticates, and the
/// one for whole blocks.
pub proof fn law_three_suites_can_be_chosen(suite: u8)
    ensures
        crate::setup::content_suite_ok(suite) <==> suite == crate::crypto::CIPHER_NONE || suite
            == crate::crypto::CIPHER_AES256_GCM || suite == crate::crypto::CIPHER_XTS_AES256,
{
}

/// A container that one writer signs opens for signing only with that writer's key.
pub proof fn law_only_the_writer_opens_to_sign<C: Crypto>(e: &Engine<C>, seed: [u8; 32])
    ensures
        Engine::<C>::signed_opened(e, seed) is Ok <==> e.header.sign_mode == SignMode::Signed
            && C::pubkey_of(seed) == e.header.writer_pubkey,
        Engine::<C>::signed_opened(e, seed) is Err ==> Engine::<C>::signed_opened(e, seed)->Err_0
            == Error::Integrity,
        Engine::<C>::signed_opened(e, seed) is Ok ==> {
            let x = Engine::<C>::signed_opened(e, seed)->Ok_0;
            &&& x.signing_key == Some(seed)
            &&& x.keys == e.keys
            &&& x.ids == e.ids
            &&& x.disk == e.disk
            &&& x.header == e.header
            &&& x.root_key == e.root_key
        },
{
}

/// Opening with a key takes up the last commit: its paths, its heads and its records.
/// A key that the header was not tagged with opens nothing.
pub proof fn law_opening_takes_up_the_commit<C: Crypto>(
    c: Container,
    key: [u8; 32],
    r: Result<Engine<C>, Error>,
)
    requires
        Engine::<C>::open_step(c, key, r),
        !c.committed.header.wal_enabled,
    ensures
        r is Ok <==> Engine::<C>::key_fits(c, key),
        r is Err ==> r == Err::<Engine<C>, Error>(Error::Integrity),
        r is Ok ==> {
            &&& r->Ok_0.root_key == key
            &&& r->Ok_0.header == c.committed.header
            &&& r->Ok_0.keys@ == c.committed.keys@
            &&& r->Ok_0.ids@ == c.committed.ids@
            &&& r->Ok_0.recs() == c.records@
            &&& r->Ok_0.tail() == c.tail@
            &&& r->Ok_0.signing_key is None
            &&& !r->Ok_0.suppress_commit
            &&& r->Ok_0.overlay@.len() == 0
        },
{
}

/// A grant that was made for a reader opens the container for that reader, with the
/// key that was sealed in it. With the reader's key to sign with, they are who signs.
pub proof fn law_grants_open_for_their_reader<C: Crypto>(
    c: Container,
    grant: Seq<u8>,
    seed: [u8; 32],
    key: [u8; 32],
    epoch: u64,
    signs: bool,
    x: Result<Engine<C>, Error>,
    r: Result<Engine<C>, Error>,
)
    requires
        crate::members::opens_for::<C>(grant, C::recipient_of(seed), key, epoch),
        Engine::<C>::grant_opened(c, grant, seed, signs, x, r),
        Engine::<C>::key_fits(c, key),
        !c.committed.header.wal_enabled,
        c.committed.header.sign_mode != SignMode::WriterSet,
    ensures
        r is Ok,
        r->Ok_0.root_key == key,
        r->Ok_0.keys@ == c.committed.keys@,
        r->Ok_0.recs() == c.records@,
        signs ==> r->Ok_0.signing_key == Some(seed),
        !signs ==> r->Ok_0.signing_key is None,
{
    assert(C::granted(seed, grant) == Some((key, epoch)));
    law_opening_takes_up_the_commit::<C>(c, key, x);
}

/// Who may not rotate the key changes nothing. Who may, and can, leaves the container
/// under the new key, with the key epoch counted up by one and everything else about
/// it as it was.
pub proof fn law_rotation_counts_the_epoch_up<C: Crypto>(
    o: &Engine<C>,
    e: &Engine<C>,
    key: [u8; 32],
    r: Result<(), Error>,
)
    requires
        Engine::<C>::rotated(o, e, key, false, r),
        o.header.key_epoch < u64::MAX,
    ensures
        !o.may_rotate() ==> r == Err::<(), Error>(Error::Integrity) && *e == *o,
        r is Ok ==> {
            &&& o.may_rotate()
            &&& e.root_key == key
            &&& e.header.key_epoch == o.header.key_epoch + 1
            &&& e.header.sign_mode == o.header.sign_mode
            &&& e.header.writer_pubkey == o.header.writer_pubkey
            &&& e.header.owner_pubkey == o.header.owner_pubkey
            &&& e.header.writer_set == o.header.writer_set
            &&& e.header.content_cipher == o.header.content_cipher
            &&& e.writer_set == o.writer_set
            &&& e.signing_key == o.signing_key
            &&& e.keys@ == o.keys@
        },
{
    if r is Ok {
        lemma_rekeyed_header(o, e, key, (o.header.key_epoch + 1) as u64, None, r);
    }
}

proof fn lemma_rekeyed_header<C: Crypto>(
    o: &Engine<C>,
    e: &Engine<C>,
    key: [u8; 32],
    epoch: u64,
    adopt: Option<([u8; 16], u64)>,
    r: Result<(), Error>,
)
    requires
        Engine::<C>::rekeyed(o, e, key, epoch, adopt, false, r),
        r is Ok,
    ensures
        e.root_key == key,
        e.header.key_epoch == epoch,
        e.header.sign_mode == o.header.sign_mode,
        e.header.writer_pubkey == o.header.writer_pubkey,
        e.header.owner_pubkey == o.header.owner_pubkey,
        e.header.content_cipher == o.header.content_cipher,
        adopt is None ==> e.header.writer_set == o.header.writer_set,
        adopt is Some ==> e.header.writer_set == Some(adopt->Some_0.0),
        adopt is Some ==> e.header.writer_set_epoch == adopt->Some_0.1,
        e.writer_set == o.writer_set,
        e.signing_key == o.signing_key,
        e.keys@ == o.keys@,
        e.disk.blobs == o.disk.blobs,
{
    let (c, f, g, t, n) = choose|
        c: Engine<C>,
        f: Engine<C>,
        g: Engine<C>,
        t: Seq<(Engine<C>, Map<Seq<u8>, u64>)>,
        n: nat,
    | #[trigger]
        Engine::<C>::rekey_end(o, e, &c, &f, &g, t, n, key, epoch, adopt, false, r);
    assert(Engine::<C>::checkpointed(o, &c, Ok(())));
    assert(Engine::<C>::grew(&c, &f));
}

/// Shutting members out puts the container under the new key; every reader who stays
/// gets a grant that opens with the new key at the new epoch, in the order given; who
/// is removed may not write any more.
pub proof fn law_revocation_shuts_out<C: Crypto>(
    o: &Engine<C>,
    e: &Engine<C>,
    key: [u8; 32],
    readers: Seq<[u8; 32]>,
    remove: Seq<[u8; 32]>,
    r: Result<Vec<([u8; 32], Vec<u8>)>, Error>,
    i: int,
    identity: [u8; 32],
)
    requires
        Engine::<C>::revoked(o, e, key, readers, remove, r),
        o.header.key_epoch < u64::MAX,
        o.set_fits(remove.len()),
        r is Ok,
    ensures
        o.may_rotate(),
        e.root_key == key,
        e.header.key_epoch == o.header.key_epoch + 1,
        r->Ok_0@.len() == readers.len(),
        0 <= i < readers.len() ==> r->Ok_0@[i].0 == readers[i],
        0 <= i < readers.len() && C::recipient_of(identity) == readers[i] ==> C::granted(
            identity,
            r->Ok_0@[i].1@,
        ) == Some((key, (o.header.key_epoch + 1) as u64)),
        forall|x: [u8; 32]|
            remove.contains(x) ==> e.writer_set is Some
                && !#[trigger] e.writer_set->Some_0@.writers.contains(x),
        forall|x: [u8; 32]|
            remove.len() > 0 && o.writer_set is Some && !remove.contains(x) ==> (
            #[trigger] e.writer_set->Some_0@.writers.contains(x)
                <==> o.writer_set->Some_0@.writers.contains(x)),
{
    let m = choose|m: Engine<C>| #[trigger]
        Engine::<C>::revoke_mid(o, &m, key) && Engine::<C>::revoke_end(&m, e, readers, remove, r);
    lemma_rekeyed_header(o, &m, key, (o.header.key_epoch + 1) as u64, None, Ok(()));
    if remove.len() > 0 {
        crate::membership::law_only_the_owner_removes(&m, e, remove, Ok(()));
    }
    if 0 <= i < readers.len() && C::recipient_of(identity) == readers[i] {
        assert(crate::members::opens_for::<C>(
            r->Ok_0@[i].1@,
            readers[i],
            e.root_key,
            e.header.key_epoch,
        ));
    }
}

/// A re-key that is taken up puts the container under the new key, at the epoch that
/// came with it, with the set that came with it in force. One that may not be taken
/// up changes nothing.
pub proof fn law_adopted_rekeys_are_in_force<C: Crypto>(
    o: &Engine<C>,
    e: &Engine<C>,
    key: [u8; 32],
    epoch: u64,
    s: SealedModel,
    r: Result<(), Error>,
)
    requires
        Engine::<C>::rekey_offered(o, e, key, epoch, s, false, r),
    ensures
        o.rekey_authorised(epoch, s) is Err ==> r is Err && *e == *o,
        r is Ok ==> {
            &&& e.root_key == key
            &&& e.header.key_epoch == epoch
            &&& e.header.writer_set_epoch == s.set.epoch
            &&& e.header.owner_pubkey == o.header.owner_pubkey
            &&& set_view(e.writer_set) == Some(s.set)
            &&& blobs_view(e.disk.blobs@).last() == s
            &&& e.keys@ == o.keys@
        },
{
    if r is Ok {
        let (m, f, field) = choose|m: Engine<C>, f: Engine<C>, field: [u8; 16]| #[trigger]
            Engine::<C>::rekey_adopted(o, e, key, epoch, s, false, r, &m, &f, field);
        lemma_rekeyed_header(&m, &f, key, epoch, Some((field, s.set.epoch)), r);
    }
}

/// A container cannot be sealed to fit while it holds superseded blocks, nor where no
/// whole number of blocks holds what is live and is within the container.
pub proof fn law_sealing_needs_room<C: Crypto>(
    e: &Engine<C>,
    container_len: u64,
    live_hwm: u64,
    n: nat,
)
    requires
        live_hwm <= u64::MAX - 4095,
    ensures
        e.tail().len() > 0 ==> e.seal_size(container_len, live_hwm) == Err::<u64, Error>(
            Error::Integrity,
        ),
        e.tail().len() == 0 && live_hwm <= 4096 * n <= container_len ==> e.seal_size(
            container_len,
            live_hwm,
        ) is Ok && e.seal_size(container_len, live_hwm)->Ok_0 <= 4096 * n,
        e.seal_size(container_len, live_hwm) is Ok ==> e.seal_size(
            container_len,
            live_hwm,
        )->Ok_0 <= container_len,
{
}

} // verus!
