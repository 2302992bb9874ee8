//! Laws on who may write, admit, remove and re-key, and on what vouches for a record.
use vstd::prelude::*;

use crate::commit::blobs_view;
use crate::crypto::Crypto;
use crate::engine::{ContainerHeader, Engine};
use crate::error::Error;
use crate::members::vouched;
use crate::projection::ProjectionModel;
use crate::unit::{payload_of, payload_parse, RecordModel, Uuid};
use crate::verify_trailer::{frame_attested, frame_bytes, frame_parse, law_frame_round_trip, FrameModel};
use crate::writerset::{
    is_successor, lemma_first_verifying, lemma_keys_with, lemma_keys_without, scope_keys,
    set_payload, set_view, set_with, set_without, signer_of, MembershipScope, SealedModel,
    SignMode, TrustModel, WriterSetModel,
};

verus! {

/// Whoever admits a writer holds the owner's key. The new member may write, every
/// member stays, nobody else comes, and the set is one epoch on and carries the
/// owner's signature.
pub proof fn law_only_the_owner_admits<C: Crypto>(
    o: &Engine<C>,
    e: &Engine<C>,
    key: [u8; 32],
    r: Result<(), Error>,
)
    requires
        Engine::<C>::writer_added(o, e, key, r),
        o.set_fits(1),
    ensures
        r is Ok <==> o.writer_set is Some && o.signing_key is Some && C::pubkey_of(
            o.signing_key->Some_0,
        ) == o.writer_set->Some_0@.owner_pubkey,
        r is Err ==> r == Err::<(), Error>(Error::Integrity) && *e == *o,
        r is Ok ==> {
            let cur = o.writer_set->Some_0@;
            let s = blobs_view(e.disk.blobs@).last();
            &&& set_view(e.writer_set) == Some(s.set)
            &&& forall|k: [u8; 32]| #[trigger]
                s.set.writers.contains(k) <==> cur.writers.contains(k) || k == key
            &&& s.set.removed == cur.removed
            &&& s.set.owner_pubkey == cur.owner_pubkey
            &&& s.set.key_epoch == cur.key_epoch
            &&& s.set.epoch == cur.epoch + 1
            &&& e.header.writer_set_epoch == cur.epoch + 1
            &&& C::signs() ==> C::verified(cur.owner_pubkey, set_payload(s.set), s.signature)
        },
{
    if r is Ok {
        let cur = o.writer_set->Some_0@;
        let next = set_with(cur, key);
        let one = seq![key];
        assert forall|k: [u8; 32]| #[trigger]
            next.writers.contains(k) <==> cur.writers.contains(k) || k == key by {
            lemma_keys_with(cur.writers, one, k);
            assert(one[0] == key);
        }
        if C::signs() {
            C::lemma_verify_of_sign(o.signing_key->Some_0, set_payload(next));
        }
    }
}

/// Whoever removes members holds the owner's key, and the key of the container was
/// rotated since the set was made; only writers can be removed, and never the
/// owner. Who is removed may not write any more and is remembered; everybody else
/// stays.
pub proof fn law_only_the_owner_removes<C: Crypto>(
    o: &Engine<C>,
    e: &Engine<C>,
    members: Seq<[u8; 32]>,
    r: Result<(), Error>,
)
    requires
        Engine::<C>::writers_removed(o, e, members, r),
        o.set_fits(members.len()),
        members.len() > 0,
    ensures
        r is Ok <==> o.writer_set is Some && o.signing_key is Some && C::pubkey_of(
            o.signing_key->Some_0,
        ) == o.writer_set->Some_0@.owner_pubkey && o.header.key_epoch
            > o.writer_set->Some_0@.key_epoch && (forall|i: int|
            0 <= i < members.len() ==> (#[trigger] members[i]) != o.writer_set->Some_0@.owner_pubkey
                && o.writer_set->Some_0@.writers.contains(members[i])),
        r is Err ==> r == Err::<(), Error>(Error::Integrity) && *e == *o,
        r is Ok ==> {
            let cur = o.writer_set->Some_0@;
            let s = blobs_view(e.disk.blobs@).last();
            &&& set_view(e.writer_set) == Some(s.set)
            &&& forall|k: [u8; 32]| #[trigger]
                s.set.writers.contains(k) <==> cur.writers.contains(k) && !members.contains(k)
            &&& forall|k: [u8; 32]| #[trigger]
                s.set.removed.contains(k) <==> cur.removed.contains(k) || members.contains(k)
            &&& s.set.owner_pubkey == cur.owner_pubkey
            &&& s.set.key_epoch == o.header.key_epoch
            &&& s.set.epoch == cur.epoch + 1
            &&& e.header.writer_set_epoch == cur.epoch + 1
            &&& C::signs() ==> C::verified(cur.owner_pubkey, set_payload(s.set), s.signature)
        },
{
    if r is Ok {
        let cur = o.writer_set->Some_0@;
        let next = set_without(cur, members, o.header.key_epoch);
        assert forall|k: [u8; 32]| #[trigger]
            next.writers.contains(k) <==> cur.writers.contains(k) && !members.contains(k) by {
            lemma_keys_without(cur.writers, members, k);
        }
        assert forall|k: [u8; 32]| #[trigger]
            next.removed.contains(k) <==> cur.removed.contains(k) || members.contains(k) by {
            lemma_keys_with(cur.removed, members, k);
        }
        if C::signs() {
            C::lemma_verify_of_sign(o.signing_key->Some_0, set_payload(next));
        }
    }
}

/// Sealing the set again after a change of keys keeps everybody where they are, and binds the
/// set to the present key epoch. It takes the owner's key, unless the set is bound to that
/// epoch already, when nothing changes.
pub proof fn law_resealing_keeps_the_members<C: Crypto>(
    o: &Engine<C>,
    e: &Engine<C>,
    r: Result<(), Error>,
)
    requires
        Engine::<C>::set_resealed(o, e, r),
        o.set_fits(0),
        o.writer_set is Some,
    ensures
        o.writer_set->Some_0@.key_epoch == o.header.key_epoch ==> r is Ok && *e == *o,
        o.writer_set->Some_0@.key_epoch < o.header.key_epoch ==> (r is Ok <==> o.signing_key is Some
            && C::pubkey_of(o.signing_key->Some_0) == o.writer_set->Some_0@.owner_pubkey),
        o.writer_set->Some_0@.key_epoch > o.header.key_epoch ==> r is Err,
        r is Err ==> r == Err::<(), Error>(Error::Integrity) && *e == *o,
        r is Ok ==> {
            let was = o.writer_set->Some_0@;
            let now = e.writer_set->Some_0@;
            &&& e.writer_set is Some
            &&& now.writers == was.writers
            &&& now.removed == was.removed
            &&& now.owner_pubkey == was.owner_pubkey
            &&& now.key_epoch == o.header.key_epoch
            &&& was.key_epoch < o.header.key_epoch ==> now.epoch == was.epoch + 1
        },
{
}

/// A stored set counts only if it is one of those stored, the owner that the header
/// names signed it, it is of the header's epoch, and it is not ahead of the
/// container's key.
pub proof fn law_stored_sets_are_the_owners<C: Crypto>(
    blobs: Seq<SealedModel>,
    h: ContainerHeader,
    set: WriterSetModel,
) -> (i: int)
    requires
        vouched::<C>(blobs, h) == Ok::<WriterSetModel, Error>(set),
    ensures
        0 <= i < blobs.len(),
        blobs[i].set == set,
        C::verified(h.owner_pubkey, set_payload(set), blobs[i].signature),
        set.owner_pubkey == h.owner_pubkey,
        set.epoch == h.writer_set_epoch,
        set.key_epoch <= h.key_epoch,
        h.writer_set is Some,
{
    crate::members::blob_addr(h.writer_set->Some_0) - 1
}

/// A set that was put in force is the one that is found in the container.
pub proof fn law_sets_in_force_are_found_again<C: Crypto>(
    o: &Engine<C>,
    e: &Engine<C>,
    s: SealedModel,
)
    requires
        Engine::<C>::set_commits(o, e, s),
        e.header.writer_set is Some,
        C::verified(o.header.owner_pubkey, set_payload(s.set), s.signature),
        s.set.owner_pubkey == o.header.owner_pubkey,
        s.set.key_epoch <= o.header.key_epoch,
    ensures
        vouched::<C>(blobs_view(e.disk.blobs@), e.header) == Ok::<WriterSetModel, Error>(s.set),
{
    let b = blobs_view(e.disk.blobs@);
    assert(b[b.len() - 1] == s);
    assert(blobs_view(o.disk.blobs@).len() == o.disk.blobs@.len());
}

/// A set may follow another exactly if it has the same owner, is later, does not go
/// back behind a key epoch, and keeps every writer unless the key epoch moves on.
pub proof fn law_sets_follow_each_other(next: WriterSetModel, cur: WriterSetModel)
    ensures
        is_successor(next, cur) <==> next.owner_pubkey == cur.owner_pubkey && next.epoch > cur.epoch
            && (next.key_epoch > cur.key_epoch || (next.key_epoch == cur.key_epoch && forall|
            k: [u8; 32],
        |
            cur.writers.contains(k) ==> #[trigger] next.writers.contains(k))),
{
    if crate::writerset::keys_within(cur.writers, next.writers) {
        assert forall|k: [u8; 32]| cur.writers.contains(k) implies #[trigger] next.writers.contains(
            k,
        ) by {
            let i = choose|i: int| 0 <= i < cur.writers.len() && cur.writers[i] == k;
            assert(next.writers.contains(cur.writers[i]));
        }
    }
    if forall|k: [u8; 32]| cur.writers.contains(k) ==> #[trigger] next.writers.contains(k) {
        assert forall|i: int| 0 <= i < cur.writers.len() implies next.writers.contains(
            #[trigger] cur.writers[i],
        ) by {
            assert(cur.writers.contains(cur.writers[i]));
        }
    }
}

/// Whoever is named as the signer of a record holds a key under which its signature
/// verifies, and is trusted: the one writer, or a member, present or, where that
/// is enough, former. Where any such key verifies, a signer is named.
pub proof fn law_signers_are_trusted<C: Crypto>(
    r: RecordModel,
    t: TrustModel,
    scope: MembershipScope,
)
    ensures
        t.mode == SignMode::Unsigned ==> signer_of::<C>(r, t, scope) == Ok::<
            Option<[u8; 32]>,
            Error,
        >(None),
        t.mode != SignMode::Unsigned && signer_of::<C>(r, t, scope) is Ok ==> {
            let k = signer_of::<C>(r, t, scope)->Ok_0->Some_0;
            &&& signer_of::<C>(r, t, scope)->Ok_0 is Some
            &&& r.signature is Some
            &&& C::verified(k, payload_of(r), r.signature->Some_0)
            &&& t.mode == SignMode::Signed ==> k == t.writer_pubkey
            &&& t.mode == SignMode::WriterSet ==> {
                &&& t.writer_set is Some
                &&& t.writer_set->Some_0.writers.contains(k) || (scope
                    == MembershipScope::CurrentOrRemoved && t.writer_set->Some_0.removed.contains(
                    k,
                ))
            }
        },
        signer_of::<C>(r, t, scope) is Err ==> signer_of::<C>(r, t, scope)->Err_0
            == Error::Integrity,
        t.mode == SignMode::Signed && r.signature is Some && C::verified(
            t.writer_pubkey,
            payload_of(r),
            r.signature->Some_0,
        ) ==> signer_of::<C>(r, t, scope) is Ok,
        forall|k: [u8; 32]|
            t.mode == SignMode::WriterSet && t.writer_set is Some && r.signature is Some && (
            t.writer_set->Some_0.writers.contains(k) || (scope == MembershipScope::CurrentOrRemoved
                && t.writer_set->Some_0.removed.contains(k))) && #[trigger] C::verified(
                k,
                payload_of(r),
                r.signature->Some_0,
            ) ==> signer_of::<C>(r, t, scope) is Ok,
{
    if t.mode == SignMode::WriterSet && t.writer_set is Some && r.signature is Some {
        let ws = t.writer_set->Some_0;
        let keys = scope_keys(ws, scope);
        let sig = r.signature->Some_0;
        lemma_first_verifying::<C>(keys, payload_of(r), sig);
        if signer_of::<C>(r, t, scope) is Ok {
            let k = signer_of::<C>(r, t, scope)->Ok_0->Some_0;
            lemma_first_verifies::<C>(keys, payload_of(r), sig);
            let i = choose|i: int| 0 <= i < keys.len() && keys[i] == k;
            if i < ws.writers.len() {
                assert(ws.writers[i] == k);
            } else {
                assert(ws.removed[i - ws.writers.len()] == k);
            }
        }
        assert forall|k: [u8; 32]|
            (ws.writers.contains(k) || (scope == MembershipScope::CurrentOrRemoved
                && ws.removed.contains(k))) && #[trigger] C::verified(k, payload_of(r), sig) implies
            signer_of::<C>(r, t, scope) is Ok by {
            if ws.writers.contains(k) {
                let i = choose|i: int| 0 <= i < ws.writers.len() && ws.writers[i] == k;
                assert(keys[i] == k);
            } else {
                let i = choose|i: int| 0 <= i < ws.removed.len() && ws.removed[i] == k;
                assert(keys[ws.writers.len() + i] == k);
            }
        }
    }
}

proof fn lemma_first_verifies<C: Crypto>(keys: Seq<[u8; 32]>, payload: Seq<u8>, sig: [u8; 64])
    ensures
        crate::writerset::first_verifying::<C>(keys, payload, sig) is Some ==> C::verified(
            crate::writerset::first_verifying::<C>(keys, payload, sig)->Some_0,
            payload,
            sig,
        ),
    decreases keys.len(),
{
    if keys.len() > 0 && !C::verified(keys[0], payload, sig) {
        lemma_first_verifies::<C>(keys.subrange(1, keys.len() as int), payload, sig);
    }
}

/// A re-key is adopted only with a set that the container's owner signed, that is
/// bound to exactly the new key epoch, and that may follow the set in force.
pub proof fn law_rekeys_are_the_owners<C: Crypto>(e: &Engine<C>, epoch: u64, s: SealedModel)
    requires
        e.rekey_authorised(epoch, s) is Ok,
    ensures
        e.header.sign_mode == SignMode::WriterSet,
        C::verified(e.header.owner_pubkey, set_payload(s.set), s.signature),
        s.set.owner_pubkey == e.header.owner_pubkey,
        s.set.key_epoch == epoch,
        e.local_set() is Ok,
        s.set.epoch > e.local_set()->Ok_0.epoch,
        epoch >= e.local_set()->Ok_0.key_epoch,
{
}

/// Who may sign, and who may rotate the key: in a store with one writer whoever has a
/// key, and the writer; in a store with a set of writers a present member, and the
/// owner.
pub proof fn law_keys_decide_who_may_do_what<C: Crypto>(e: &Engine<C>)
    ensures
        e.header.sign_mode == SignMode::Unsigned ==> e.may_sign() && e.may_rotate(),
        e.header.sign_mode == SignMode::Signed ==> (e.may_sign() <==> e.signing_key is Some) && (
        e.may_rotate() <==> e.signing_key is Some && C::pubkey_of(e.signing_key->Some_0)
            == e.header.writer_pubkey),
        e.header.sign_mode == SignMode::WriterSet ==> (e.may_sign() <==> e.signing_key is Some
            && e.writer_set is Some && e.writer_set->Some_0@.writers.contains(
            C::pubkey_of(e.signing_key->Some_0),
        )) && (e.may_rotate() <==> e.signing_key is Some && C::pubkey_of(e.signing_key->Some_0)
            == e.header.owner_pubkey),
{
}

/// What a signed store takes in carries a signature of its writer, or of a present
/// member of its writer set, over a payload that says of the unit exactly what came
/// in.
pub proof fn law_imports_are_signed_by_members<C: Crypto>(
    e: &Engine<C>,
    b: Seq<u8>,
    uuid: Uuid,
    p: ProjectionModel,
) -> (k: [u8; 32])
    requires
        e.incoming(b) == Some((uuid, p)),
        e.header.sign_mode != SignMode::Unsigned,
    ensures
        p.attest is Some,
        C::verified(k, p.attest->Some_0.payload, p.attest->Some_0.signature),
        e.header.sign_mode == SignMode::Signed ==> k == e.header.writer_pubkey,
        e.header.sign_mode == SignMode::WriterSet ==> e.writer_set is Some
            && e.writer_set->Some_0@.writers.contains(k),
        payload_parse(p.attest->Some_0.payload) is Some,
        payload_parse(p.attest->Some_0.payload)->Some_0.0 == uuid,
        ({
            let said = payload_parse(p.attest->Some_0.payload)->Some_0.1;
            &&& said is Some
            &&& said->Some_0.unit_map == p.unit_map
            &&& said->Some_0.fragsize_exp == p.fragsize_exp
            &&& said->Some_0.last_frag_length == p.last_frag_length
            &&& said->Some_0.vv_bytes == crate::vector::vv_bytes(p.vv)
        }),
{
    let a = p.attest->Some_0;
    if e.header.sign_mode == SignMode::Signed {
        e.header.writer_pubkey
    } else {
        let keys = scope_keys(e.writer_set->Some_0@, MembershipScope::Current);
        lemma_first_verifying::<C>(keys, a.payload, a.signature);
        lemma_first_verifies::<C>(keys, a.payload, a.signature);
        crate::writerset::first_verifying::<C>(keys, a.payload, a.signature)->Some_0
    }
}

/// What is sent of a record: its path, the vector, versions and geometry of its
/// content, its metadata in the clear with its vector and version, and, in a
/// signed store, its signature over its payload.
pub proof fn law_exports_tell_of_the_record<C: Crypto>(
    e: &Engine<C>,
    key: Seq<u8>,
    m: RecordModel,
)
    requires
        e.projected(key, m.uuid, m) is Ok,
    ensures
        ({
            let p = e.projected(key, m.uuid, m)->Ok_0;
            &&& p.key == key
            &&& p.has_content <==> m.content is Some
            &&& m.content is Some ==> {
                &&& p.vv == m.content->Some_0.vv
                &&& p.unit_map == m.content->Some_0.unit_map
                &&& p.fragsize_exp == m.content->Some_0.fragsize_exp
                &&& p.last_frag_length == m.content->Some_0.last_frag_length
            }
            &&& e.metadata(m) is Ok
            &&& p.meta is Some <==> e.metadata(m)->Ok_0 is Some
            &&& p.meta is Some ==> {
                &&& e.metadata(m)->Ok_0 == Some(p.meta->Some_0.plain)
                &&& m.meta is Some
                &&& p.meta->Some_0.vv == m.meta->Some_0.vv
                &&& p.meta->Some_0.version == m.meta->Some_0.unit_map[0]
            }
            &&& p.attest is Some <==> e.header.sign_mode != SignMode::Unsigned
                && m.signature is Some
            &&& p.attest is Some ==> Some(p.attest->Some_0.signature) == m.signature
                && p.attest->Some_0.payload == payload_of(m)
        }),
{
}

/// All records of a unit are sent with the strains first, in their places, and the
/// head last.
pub proof fn law_the_frontier_ends_with_the_head<C: Crypto>(
    e: &Engine<C>,
    key: Seq<u8>,
    uuid: Uuid,
    m: RecordModel,
    i: int,
)
    requires
        0 <= i < m.strains.len(),
        e.frontier_blocked(key, uuid, m, m.strains.len() as int + 1) is None,
    ensures
        e.record(m.strains[i]) == Ok::<RecordModel, Error>(e.frontier_at(m, i)),
        e.frontier_at(m, m.strains.len() as int) == m,
{
    lemma_not_blocked(e, key, uuid, m, m.strains.len() as int + 1, i);
}

proof fn lemma_not_blocked<C: Crypto>(
    e: &Engine<C>,
    key: Seq<u8>,
    uuid: Uuid,
    m: RecordModel,
    n: int,
    i: int,
)
    requires
        0 <= i < n,
        e.frontier_blocked(key, uuid, m, n) is None,
    ensures
        e.frontier_error(key, uuid, m, i) is None,
    decreases n,
{
    if i < n - 1 {
        lemma_not_blocked(e, key, uuid, m, n - 1, i);
    }
}

/// A framed record vouches for itself only under a key that verifies its payload,
/// and only for the unit that the payload names.
pub proof fn law_frames_vouch_for_their_unit<C: Crypto>(f: FrameModel, pubkey: [u8; 32])
    ensures
        frame_attested::<C>(f, pubkey) <==> C::verified(pubkey, f.signing_payload, f.signature)
            && payload_parse(f.signing_payload) is Some && payload_parse(
            f.signing_payload,
        )->Some_0.0 == f.uuid,
{
}

/// A record that is exported in a frame verifies, under the key of its signer.
pub proof fn law_exported_frames_verify<C: Crypto>(
    e: &Engine<C>,
    key: Seq<u8>,
    m: RecordModel,
    sent: Seq<u8>,
)
    requires
        e.header.sign_mode != SignMode::Unsigned,
        signer_of::<C>(m, e.trust(), MembershipScope::CurrentOrRemoved) is Ok,
        m.content is Some,
        m.content->Some_0.unit_map.len() <= u32::MAX,
        m.content->Some_0.vv.len() < 0x1_0000,
        payload_of(m).len() <= u32::MAX,
        e.sent(key, m.uuid, m, sent),
        16 <= sent.len() <= u32::MAX,
    ensures
        ({
            let pk = signer_of::<C>(
                m,
                e.trust(),
                MembershipScope::CurrentOrRemoved,
            )->Ok_0->Some_0;
            let blob = frame_bytes(sent, pk, m.signature->Some_0, payload_of(m));
            &&& e.author(m) == pk
            &&& frame_parse(blob) is Some
            &&& frame_parse(blob)->Some_0.writer_pubkey == pk
            &&& frame_parse(blob)->Some_0.uuid == m.uuid
            &&& frame_attested::<C>(frame_parse(blob)->Some_0, pk)
        }),
{
    law_signers_are_trusted::<C>(m, e.trust(), MembershipScope::CurrentOrRemoved);
    let pk = signer_of::<C>(m, e.trust(), MembershipScope::CurrentOrRemoved)->Ok_0->Some_0;
    let sig = m.signature->Some_0;
    law_frame_round_trip(sent, pk, sig, payload_of(m));
    crate::unit::law_payload_round_trip(m);
    let nonce = choose|nonce: Seq<u8>|
        nonce.len() == 12 && sent == #[trigger] e.envelope(
            m.uuid,
            nonce,
            crate::projection::projection_bytes(e.projected(key, m.uuid, m)->Ok_0),
        );
    assert(sent.subrange(0, 16) =~= m.uuid@);
    assert(crate::bytes::array16(m.uuid@) =~= m.uuid) by {
        let a = crate::bytes::array16(m.uuid@);
        assert(a@ == m.uuid@);
    }
}

} // verus!
