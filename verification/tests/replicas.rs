use sfs_core::conflict::Resolution;
use sfs_core::crypto::{BlockCtx, Crypto};
use sfs_core::engine::Engine;
use sfs_core::error::Error;
use sfs_core::verify_trailer::{verify_record_trailer, verify_record_trailer_single};
use vstd::prelude::{nat, Seq};

/// A toy provider: a keystream, a checksum as tag, and signatures that anyone
/// could make.
struct Toy {}

fn mix(parts: &[&[u8]]) -> u64 {
    let mut h: u64 = 0xcbf2_9ce4_8422_2325;
    for p in parts {
        for b in p.iter() {
            h ^= *b as u64;
            h = h.wrapping_mul(0x0000_0100_0000_01b3);
        }
        h ^= 0xff;
        h = h.wrapping_mul(0x0000_0100_0000_01b3);
    }
    h ^ (h >> 29)
}

fn stream(key: &[u8], ctx: &[u8], data: &[u8]) -> Vec<u8> {
    let seed = mix(&[key, ctx]);
    data.iter()
        .enumerate()
        .map(|(i, b)| b ^ (seed.wrapping_mul(i as u64 * 2 + 3) >> 24) as u8)
        .collect()
}

fn tag(key: &[u8], ctx: &[u8], data: &[u8]) -> Vec<u8> {
    let mut t = mix(&[key, ctx, data]).to_le_bytes().to_vec();
    t.extend_from_slice(&mix(&[ctx, data, key]).to_le_bytes());
    t
}

fn ctx_bytes(suite: u8, ctx: &BlockCtx) -> Vec<u8> {
    let mut b = vec![suite];
    b.extend_from_slice(&ctx.uuid);
    b.extend_from_slice(&ctx.frag.to_le_bytes());
    b.extend_from_slice(&ctx.version.to_le_bytes());
    b.extend_from_slice(&ctx.key_epoch.to_le_bytes());
    b
}

fn opposite(seed: &[u8; 32]) -> [u8; 32] {
    let mut p = *seed;
    for b in p.iter_mut() {
        *b = !*b;
    }
    p
}

fn signature(pubkey: &[u8; 32], payload: &[u8]) -> [u8; 64] {
    let mut s = [0u8; 64];
    s[..16].copy_from_slice(&tag(pubkey, b"sign", payload));
    s
}

impl Crypto for Toy {
    fn known(_: u8) -> bool {
        unreachable!()
    }

    fn min_len(_: u8) -> nat {
        unreachable!()
    }

    fn sealed(_: u8, _: [u8; 32], _: BlockCtx, _: Seq<u8>) -> Seq<u8> {
        unreachable!()
    }

    fn opened(_: u8, _: [u8; 32], _: BlockCtx, _: Seq<u8>) -> Option<Seq<u8>> {
        unreachable!()
    }

    fn meta_sealed(_: [u8; 32], _: Seq<u8>, _: Seq<u8>, _: Seq<u8>) -> Seq<u8> {
        unreachable!()
    }

    fn meta_opened(_: [u8; 32], _: Seq<u8>, _: Seq<u8>, _: Seq<u8>) -> Option<Seq<u8>> {
        unreachable!()
    }

    fn signs() -> bool {
        unreachable!()
    }

    fn pubkey_of(_: [u8; 32]) -> [u8; 32] {
        unreachable!()
    }

    fn signed(_: [u8; 32], _: Seq<u8>) -> [u8; 64] {
        unreachable!()
    }

    fn verified(_: [u8; 32], _: Seq<u8>, _: [u8; 64]) -> bool {
        unreachable!()
    }

    fn recipient_of(_: [u8; 32]) -> [u8; 32] {
        unreachable!()
    }

    fn granted(_: [u8; 32], _: Seq<u8>) -> Option<([u8; 32], u64)> {
        unreachable!()
    }

    fn tagged(_: [u8; 32], _: Seq<u8>) -> [u8; 32] {
        unreachable!()
    }

    fn lemma_open_of_seal(_: u8, _: [u8; 32], _: BlockCtx, _: Seq<u8>) {}

    fn lemma_seal_len(_: u8, _: [u8; 32], _: BlockCtx, _: Seq<u8>) {}

    fn lemma_opened_len(_: u8, _: [u8; 32], _: BlockCtx, _: Seq<u8>) {}

    fn lemma_meta_open_of_seal(_: [u8; 32], _: Seq<u8>, _: Seq<u8>, _: Seq<u8>) {}

    fn lemma_meta_opened_len(_: [u8; 32], _: Seq<u8>, _: Seq<u8>, _: Seq<u8>) {}

    fn lemma_verify_of_sign(_: [u8; 32], _: Seq<u8>) {}

    fn is_known(suite: u8) -> bool {
        suite <= 2
    }

    fn min_plaintext_len(suite: u8) -> usize {
        if suite == 2 { 16 } else { 0 }
    }

    fn seal(suite: u8, key: &[u8; 32], ctx: &BlockCtx, plain: &[u8]) -> Vec<u8> {
        if suite == 0 {
            return plain.to_vec();
        }
        let c = ctx_bytes(suite, ctx);
        let mut out = stream(key, &c, plain);
        if suite == 1 {
            let t = tag(key, &c, plain);
            out.extend_from_slice(&t);
        }
        out
    }

    fn open(suite: u8, key: &[u8; 32], ctx: &BlockCtx, cipher: &[u8]) -> Option<Vec<u8>> {
        if suite == 0 {
            return Some(cipher.to_vec());
        }
        let c = ctx_bytes(suite, ctx);
        if suite == 2 {
            return if cipher.len() < 16 { None } else { Some(stream(key, &c, cipher)) };
        }
        if cipher.len() < 16 {
            return None;
        }
        let plain = stream(key, &c, &cipher[..cipher.len() - 16]);
        if tag(key, &c, &plain) == cipher[cipher.len() - 16..] { Some(plain) } else { None }
    }

    fn seal_meta(key: &[u8; 32], nonce: &[u8], aad: &[u8], plain: &[u8]) -> Vec<u8> {
        let c = [nonce, aad].concat();
        let mut out = stream(key, &c, plain);
        let t = tag(key, &c, plain);
        out.extend_from_slice(&t);
        out
    }

    fn open_meta(key: &[u8; 32], nonce: &[u8], aad: &[u8], cipher: &[u8]) -> Option<Vec<u8>> {
        if cipher.len() < 16 {
            return None;
        }
        let c = [nonce, aad].concat();
        let plain = stream(key, &c, &cipher[..cipher.len() - 16]);
        if tag(key, &c, &plain) == cipher[cipher.len() - 16..] { Some(plain) } else { None }
    }

    fn tag(key: &[u8; 32], data: &[u8]) -> [u8; 32] {
        let mut t = [0u8; 32];
        t[..16].copy_from_slice(&tag(key, b"header", data));
        t
    }

    fn pubkey(seed: &[u8; 32]) -> [u8; 32] {
        opposite(seed)
    }

    fn sign(seed: &[u8; 32], payload: &[u8]) -> [u8; 64] {
        signature(&opposite(seed), payload)
    }

    fn verify(pubkey: &[u8; 32], payload: &[u8], sig: &[u8; 64]) -> bool {
        signature(pubkey, payload) == *sig
    }

    fn seal_grant(recipient: &[u8; 32], root_key: &[u8; 32], key_epoch: u64) -> Vec<u8> {
        let mut plain = root_key.to_vec();
        plain.extend_from_slice(&key_epoch.to_le_bytes());
        let mut out = stream(recipient, b"grant", &plain);
        let t = tag(recipient, b"grant", &plain);
        out.extend_from_slice(&t);
        out
    }

    fn open_grant(identity: &[u8; 32], grant: &[u8]) -> Option<([u8; 32], u64)> {
        let recipient = opposite(identity);
        if grant.len() != 56 {
            return None;
        }
        let plain = stream(&recipient, b"grant", &grant[..40]);
        if tag(&recipient, b"grant", &plain) != grant[40..] {
            return None;
        }
        let mut key = [0u8; 32];
        key.copy_from_slice(&plain[..32]);
        let mut epoch = [0u8; 8];
        epoch.copy_from_slice(&plain[32..]);
        Some((key, u64::from_le_bytes(epoch)))
    }
}

type Store = Engine<Toy>;

const KEY: [u8; 32] = [7u8; 32];

/// A store of the writer with this alias.
fn replica(alias: u16) -> Store {
    let mut e = Store::create_with_key(KEY).unwrap();
    e.set_local_alias(alias);
    e
}

/// Sends the head of `key`, and the blocks of it that the other store lacks.
fn send(from: &Store, to: &mut Store, key: &str) -> [u8; 16] {
    let id = to.import_record(&from.export_record(key.as_bytes()).unwrap()).unwrap();
    send_blocks(from, to, id);
    id
}

/// Whether a head at `to` names this block and does not hold it.
fn lacks(to: &Store, id: [u8; 16], key: &[u8], f: usize, version: u64) -> bool {
    let head = to.unit_sync_state(id).unwrap().unwrap();
    if f < head.present.len() && head.frag_versions[f] == version && !head.present[f] {
        return true;
    }
    to.unit_strains(key)
        .unwrap()
        .iter()
        .any(|s| f < s.present.len() && s.frag_versions[f] == version && !s.present[f])
}

fn send_blocks(from: &Store, to: &mut Store, id: [u8; 16]) {
    let there = from.unit_sync_state(id).unwrap().unwrap();
    for (f, version) in there.frag_versions.iter().enumerate() {
        if there.present[f] && lacks(to, id, &there.key, f, *version) {
            let (block, suite) = from.export_block(id, f as u32, *version).unwrap();
            let len = if f + 1 == there.frag_versions.len() {
                there.last_frag_length
            } else {
                1u32 << there.fragsize_exp
            };
            to.import_block(id, f as u32, *version, &block, len, suite).unwrap();
        }
    }
}

fn pattern(len: usize, seed: u8) -> Vec<u8> {
    (0..len).map(|i| (i as u8).wrapping_mul(31).wrapping_add(seed)).collect()
}

#[test]
fn a_new_unit_arrives_whole() {
    let mut a = replica(1);
    let mut b = replica(2);
    let id = a.create_unit("f").unwrap();
    let data = pattern(100_000, 2);
    a.write("f", 0, &data).unwrap();
    assert_eq!(send(&a, &mut b, "f"), id);
    assert_eq!(b.read("f").unwrap(), data);
    assert_eq!(b.uuid_for_path("f").unwrap(), id);
    assert_eq!(b.sync_manifest().unwrap().len(), 1);
    assert!(!b.has_conflict(b"f").unwrap());
}

#[test]
fn a_later_head_goes_forward_and_an_older_one_is_ignored() {
    let mut a = replica(1);
    let mut b = replica(2);
    a.create_unit("f").unwrap();
    a.write("f", 0, b"one").unwrap();
    let old = a.export_record(b"f").unwrap();
    send(&a, &mut b, "f");
    a.write("f", 0, b"two").unwrap();
    send(&a, &mut b, "f");
    assert_eq!(b.read("f").unwrap(), b"two".to_vec());
    b.import_record(&old).unwrap();
    assert_eq!(b.read("f").unwrap(), b"two".to_vec());
    assert!(!b.has_conflict(b"f").unwrap());
}

#[test]
fn concurrent_writes_to_one_fragment_split() {
    let mut a = replica(1);
    let mut b = replica(2);
    a.create_unit("f").unwrap();
    a.write("f", 0, b"base").unwrap();
    send(&a, &mut b, "f");
    a.write("f", 0, b"AAAA").unwrap();
    b.write("f", 0, b"BBBB").unwrap();
    send(&a, &mut b, "f");
    assert!(b.has_conflict(b"f").unwrap());
    let strains = b.unit_strains(b"f").unwrap();
    assert_eq!(strains.len(), 2);
    assert_eq!(strains[0].size, 4);
    let both = vec![b.read_strain("f", 0).unwrap(), b.read_strain("f", 1).unwrap()];
    assert!(both.contains(&b"AAAA".to_vec()));
    assert!(both.contains(&b"BBBB".to_vec()));
    assert!(matches!(b.read_strain("f", 2), Err(Error::NotFound)));

    b.resolve_conflict(b"f", Resolution::MergedContent(b"ABAB".to_vec())).unwrap();
    assert!(!b.has_conflict(b"f").unwrap());
    assert_eq!(b.read("f").unwrap(), b"ABAB".to_vec());
    send(&b, &mut a, "f");
    assert!(!a.has_conflict(b"f").unwrap());
    assert_eq!(a.read("f").unwrap(), b"ABAB".to_vec());
}

#[test]
fn a_strain_can_be_chosen() {
    let mut a = replica(1);
    let mut b = replica(2);
    a.create_unit("f").unwrap();
    a.write("f", 0, b"base").unwrap();
    send(&a, &mut b, "f");
    a.write("f", 0, b"AAAA").unwrap();
    b.write("f", 0, b"BBBB").unwrap();
    send(&a, &mut b, "f");
    let chosen = b.read_strain("f", 1).unwrap();
    b.resolve_conflict(b"f", Resolution::ChooseStrain(1)).unwrap();
    assert_eq!(b.read("f").unwrap(), chosen);
    assert_eq!(b.unit_strains(b"f").unwrap().len(), 1);
}

#[test]
fn writes_to_different_fragments_merge() {
    let mut a = replica(1);
    let mut b = replica(2);
    a.create_unit("f").unwrap();
    let base = pattern(200_000, 2);
    a.write("f", 0, &base).unwrap();
    send(&a, &mut b, "f");
    a.write("f", 0, b"AAAA").unwrap();
    b.write("f", 190_000, b"BBBB").unwrap();
    send(&a, &mut b, "f");
    assert!(!b.has_conflict(b"f").unwrap());
    let mut want = base.clone();
    want[..4].copy_from_slice(b"AAAA");
    want[190_000..190_004].copy_from_slice(b"BBBB");
    assert_eq!(b.read("f").unwrap(), want);
    send(&b, &mut a, "f");
    assert_eq!(a.read("f").unwrap(), want);
}

#[test]
fn a_renamed_unit_moves_at_the_other_end() {
    let mut a = replica(1);
    let mut b = replica(2);
    a.create_unit("old").unwrap();
    a.write("old", 0, b"x").unwrap();
    send(&a, &mut b, "old");
    a.rename("old", "new").unwrap();
    send(&a, &mut b, "new");
    assert_eq!(b.read("new").unwrap(), b"x".to_vec());
}

#[test]
fn metadata_travels() {
    let mut a = replica(1);
    let mut b = replica(2);
    a.mkdir_with_meta("d", b"dir meta").unwrap();
    b.import_record(&a.export_record(b"d").unwrap()).unwrap();
    assert_eq!(b.read_meta("d").unwrap(), Some(b"dir meta".to_vec()));
    assert!(b.unit_summary("d").unwrap().is_dir);
}

#[test]
fn damaged_envelopes_are_refused() {
    let mut a = replica(1);
    let mut b = replica(2);
    a.create_unit("f").unwrap();
    let mut wire = a.export_record(b"f").unwrap();
    let last = wire.len() - 1;
    wire[last] ^= 1;
    assert!(b.import_record(&wire).is_err());
    assert!(b.import_record(&wire[..5]).is_err());
    assert!(b.import_record(&[]).is_err());
    assert!(matches!(b.read("f"), Err(Error::NotFound)));
    let (id, plain) = a.debug_unwrap_projection(&a.export_record(b"f").unwrap()).unwrap();
    let again = a.debug_wrap_projection(&id, &plain).unwrap();
    assert_eq!(a.debug_unwrap_projection(&again).unwrap(), (id, plain));
}

#[test]
fn raw_blocks_are_served_under_their_version() {
    let mut a = replica(1);
    let id = a.create_unit("f").unwrap();
    a.write("f", 0, b"one").unwrap();
    let v = a.unit_sync_state(id).unwrap().unwrap().frag_versions[0];
    assert!(a.export_block(id, 0, v).is_ok());
    assert!(matches!(a.export_block(id, 0, v + 1), Err(Error::NotFound)));
    assert!(matches!(a.export_block(id, 9, v), Err(Error::NotFound)));
    assert!(matches!(a.export_block([3u8; 16], 0, v), Err(Error::NotFound)));
}

#[test]
fn units_register_once() {
    let mut a = replica(1);
    a.register_unit_uuid("f", [4u8; 16]).unwrap();
    a.register_unit_uuid("f", [4u8; 16]).unwrap();
    assert_eq!(a.uuid_for_path("f").unwrap(), [4u8; 16]);
    assert_eq!(a.list("").unwrap(), vec!["f".to_string()]);
}

#[test]
fn signed_stores_sign_and_verify() {
    let seed = [3u8; 32];
    let mut e = Store::create_signed_with_key(KEY, seed).unwrap();
    e.create_unit("f").unwrap();
    e.write("f", 0, b"signed").unwrap();
    assert_eq!(e.record_signer("f").unwrap(), Some(opposite(&seed)));
    let wire = e.export_record_verifiable(b"f").unwrap();
    assert!(verify_record_trailer_single::<Toy>(&wire, &opposite(&seed)).is_ok());
    assert!(matches!(
        verify_record_trailer_single::<Toy>(&wire, &[1u8; 32]),
        Err(Error::Integrity)
    ));
    assert!(matches!(
        verify_record_trailer_single::<Toy>(&wire[1..], &opposite(&seed)),
        Err(Error::Integrity)
    ));

    let mut reader = Store::open_with_key(e.snapshot(), KEY).unwrap();
    assert_eq!(reader.read("f").unwrap(), b"signed".to_vec());
    assert!(matches!(reader.write("f", 0, b"x"), Err(_)));
    let mut writer = Store::open_signed_with_key(e.snapshot(), KEY, seed).unwrap();
    writer.write("f", 0, b"SIGNED").unwrap();
    assert_eq!(writer.read("f").unwrap(), b"SIGNED".to_vec());
}

#[test]
fn writer_sets_admit_and_remove() {
    let owner = [3u8; 32];
    let guest = [5u8; 32];
    let mut e = Store::create_writerset_with_key(KEY, owner).unwrap();
    e.create_unit("f").unwrap();
    e.write("f", 0, b"owner").unwrap();
    e.add_writer(opposite(&guest)).unwrap();
    assert!(e.current_writer_set().unwrap().contains(&opposite(&guest)));

    let mut g = Store::open_writerset_with_key(e.snapshot(), KEY, guest).unwrap();
    g.write("f", 0, b"guest").unwrap();
    assert_eq!(g.record_signer("f").unwrap(), Some(opposite(&guest)));
    assert!(matches!(g.add_writer([1u8; 32]), Err(Error::Integrity)));
    let wire = g.export_record_verifiable(b"f").unwrap();
    assert_eq!(
        verify_record_trailer::<Toy>(&wire, e.current_writer_set().unwrap()).unwrap(),
        opposite(&guest)
    );

    let mut o = Store::open_writerset_with_key(g.snapshot(), KEY, owner).unwrap();
    let grants = o.revoke(&[9u8; 32], &[opposite(&[6u8; 32])], &[opposite(&guest)]).unwrap();
    assert_eq!(grants.len(), 1);
    assert_eq!(o.key_epoch(), 1);
    assert!(!o.current_writer_set().unwrap().contains(&opposite(&guest)));
    assert_eq!(o.read("f").unwrap(), b"guest".to_vec());

    let reader = Store::open_with_grant(o.snapshot(), &grants[0].1, &[6u8; 32]).unwrap();
    assert_eq!(reader.read("f").unwrap(), b"guest".to_vec());
    assert!(Store::open_with_grant(o.snapshot(), &grants[0].1, &[8u8; 32]).is_err());
    match Store::open_writerset_with_key(o.snapshot(), [9u8; 32], guest) {
        Ok(mut out) => assert!(out.write("f", 0, b"no").is_err()),
        Err(x) => assert!(matches!(x, Error::Integrity)),
    }
}

#[test]
fn a_replica_follows_a_new_writer_set_and_a_new_key() {
    let owner = [3u8; 32];
    let mut a = Store::create_writerset_with_key(KEY, owner).unwrap();
    a.create_unit("f").unwrap();
    a.write("f", 0, b"content").unwrap();
    let mut b = Store::open_writerset_with_key(a.snapshot(), KEY, owner).unwrap();
    a.add_writer([8u8; 32]).unwrap();
    let blob = a.sealed_writer_set_blob().unwrap();
    assert!(b.adopt_writer_set(blob).unwrap());
    assert!(b.current_writer_set().unwrap().contains(&[8u8; 32]));
    assert!(!b.adopt_writer_set(a.sealed_writer_set_blob().unwrap()).unwrap());

    a.revoke(&[9u8; 32], &[], &[[8u8; 32]]).unwrap();
    b.adopt_rekey(&[9u8; 32], 1, a.sealed_writer_set_blob().unwrap()).unwrap();
    assert_eq!(b.key_epoch(), 1);
    assert_eq!(b.read("f").unwrap(), b"content".to_vec());
    assert!(matches!(
        b.adopt_rekey(&[9u8; 32], 1, a.sealed_writer_set_blob().unwrap()),
        Err(Error::Integrity)
    ));
}

#[test]
fn peers_get_aliases_that_are_never_reused() {
    let mut e = replica(0);
    let own = [1u8; 32];
    let first = e.admit_peer(own, [2u8; 32]).unwrap();
    assert_eq!(e.admit_peer(own, [2u8; 32]).unwrap(), first);
    e.retire_peer([2u8; 32]).unwrap();
    let second = e.admit_peer(own, [4u8; 32]).unwrap();
    assert!(second != first);
    let reg = e.peer_registry().unwrap();
    assert_eq!(reg.alias_of(&[4u8; 32]), Some(second));
    let found = e.adopt_local_alias(own).unwrap();
    assert_eq!(found, reg.alias_of(&own));
    assert!(matches!(e.retire_peer([77u8; 32]), Err(Error::NotFound)));
}

#[test]
fn a_single_writer_can_be_removed_with_a_new_key() {
    let owner = [3u8; 32];
    let guest = opposite(&[5u8; 32]);
    let mut e = Store::create_writerset_with_key(KEY, owner).unwrap();
    e.add_writer(guest).unwrap();
    e.ensure_writer_set_loaded().unwrap();
    assert!(matches!(e.remove_writer(&guest), Err(Error::Integrity)));
    e.rotate_root_key(&[9u8; 32]).unwrap();
    let before = e.current_writer_set().unwrap().epoch;
    assert!(matches!(e.remove_writer(&[77u8; 32]), Err(Error::Integrity)));
    assert!(matches!(e.remove_writer(&opposite(&owner)), Err(Error::Integrity)));
    e.remove_writer(&guest).unwrap();
    assert!(!e.current_writer_set().unwrap().contains(&guest));
    assert_eq!(e.current_writer_set().unwrap().removed, vec![guest]);
    assert_eq!(e.current_writer_set().unwrap().epoch, before + 1);
    e.remove_writers(&[]).unwrap();
}

#[test]
fn an_interrupted_change_of_keys_changes_nothing() {
    let owner = [3u8; 32];
    let mut a = Store::create_writerset_with_key(KEY, owner).unwrap();
    a.create_unit("f").unwrap();
    a.write("f", 0, b"content").unwrap();
    let mut b = Store::open_writerset_with_key(a.snapshot(), KEY, owner).unwrap();
    a.revoke(&[9u8; 32], &[], &[]).unwrap();
    b.adopt_rekey_simulate_crash_before_commit(&[9u8; 32], 1, a.sealed_writer_set_blob().unwrap())
        .unwrap();
    let back = Store::open_writerset_with_key(b.snapshot(), KEY, owner).unwrap();
    assert_eq!(back.key_epoch(), 0);
    assert_eq!(back.read("f").unwrap(), b"content".to_vec());
}

#[test]
fn all_heads_of_a_conflict_are_exported() {
    let mut a = replica(1);
    let mut b = replica(2);
    a.create_unit("f").unwrap();
    a.write("f", 0, b"base").unwrap();
    assert_eq!(a.export_records_frontier(b"f").unwrap().len(), 1);
    send(&a, &mut b, "f");
    a.write("f", 0, b"AAAA").unwrap();
    b.write("f", 0, b"BBBB").unwrap();
    send(&a, &mut b, "f");
    assert_eq!(b.export_records_frontier(b"f").unwrap().len(), 2);
    let infos = b.unit_strains(b"f").unwrap();
    assert!(infos[0].message.starts_with("primary strain \u{2014} 4 bytes @ VV "));
    assert!(infos[1].message.starts_with("conflict: concurrent strain #1 (diverged edit) "));
}

#[test]
fn a_grant_opens_and_may_sign() {
    let owner = [3u8; 32];
    let reader = [6u8; 32];
    let mut e = Store::create_writerset_with_key(KEY, owner).unwrap();
    e.create_unit("f").unwrap();
    e.write("f", 0, b"shared").unwrap();
    e.add_writer(opposite(&reader)).unwrap();
    let grant = e.grant_read(&opposite(&reader));
    let mut g = Store::open_with_grant_and_signing(e.snapshot(), &grant, &reader).unwrap();
    assert_eq!(g.read("f").unwrap(), b"shared".to_vec());
    g.write("f", 0, b"SHARED").unwrap();
    assert_eq!(g.record_signer("f").unwrap(), Some(opposite(&reader)));
    let mut quiet = Store::open_with_grant(e.snapshot(), &grant, &reader).unwrap();
    assert!(quiet.write("f", 0, b"no").is_err());
}

#[test]
fn signed_records_travel_with_their_signature() {
    let owner = [3u8; 32];
    let guest = [5u8; 32];
    let mut a = Store::create_writerset_with_key(KEY, owner).unwrap();
    a.add_writer(opposite(&guest)).unwrap();
    let mut b = Store::open_writerset_with_key(a.snapshot(), KEY, guest).unwrap();
    b.set_local_alias(2);
    a.create_unit("f").unwrap();
    a.write("f", 0, b"from the owner").unwrap();
    send(&a, &mut b, "f");
    assert_eq!(b.read("f").unwrap(), b"from the owner".to_vec());
    assert_eq!(b.record_signer("f").unwrap(), Some(opposite(&owner)));
    b.write("f", 0, b"FROM").unwrap();
    assert_eq!(b.record_signer("f").unwrap(), Some(opposite(&guest)));
    send(&b, &mut a, "f");
    assert_eq!(a.read("f").unwrap(), b"FROM the owner".to_vec());
    assert_eq!(a.record_signer("f").unwrap(), Some(opposite(&guest)));
}

#[test]
fn projections_that_disagree_with_what_was_signed_are_refused() {
    let seed = [3u8; 32];
    let mut a = Store::create_signed_with_key(KEY, seed).unwrap();
    let mut b = Store::create_signed_with_key(KEY, seed).unwrap();
    a.create_unit("f").unwrap();
    a.write("f", 0, b"signed").unwrap();
    let wire = a.export_record(b"f").unwrap();
    let (id, plain) = a.debug_unwrap_projection(&wire).unwrap();
    // The fragment size stands behind the key, which its length precedes.
    let at = 4 + 1;
    let mut bad = plain.clone();
    bad[at] ^= 1;
    let forged = a.debug_wrap_projection(&id, &bad).unwrap();
    assert!(matches!(b.import_record(&forged), Err(Error::Integrity)));
    assert!(matches!(b.read("f"), Err(Error::NotFound)));
    let honest = a.debug_wrap_projection(&id, &plain).unwrap();
    assert_eq!(b.import_record(&honest).unwrap(), id);
}

#[test]
fn a_key_that_another_unit_has_is_not_taken_over() {
    let mut a = replica(1);
    let mut b = replica(2);
    a.create_unit("f").unwrap();
    a.write("f", 0, b"a").unwrap();
    let here = b.create_unit("f").unwrap();
    assert!(matches!(b.import_record(&a.export_record(b"f").unwrap()), Err(Error::Integrity)));
    assert_eq!(b.uuid_for_path("f").unwrap(), here);
}

#[test]
fn importing_the_same_record_again_keeps_its_blocks() {
    let mut a = replica(1);
    let mut b = replica(2);
    a.create_unit("f").unwrap();
    a.write("f", 0, b"once").unwrap();
    send(&a, &mut b, "f");
    b.import_record(&a.export_record(b"f").unwrap()).unwrap();
    assert_eq!(b.read("f").unwrap(), b"once".to_vec());
    assert!(b.unit_sync_state(b.uuid_for_path("f").unwrap()).unwrap().unwrap().present[0]);
}

#[test]
fn the_writer_set_waits_for_the_batch() {
    let owner = [3u8; 32];
    let mut a = Store::create_writerset_with_key(KEY, owner).unwrap();
    a.create_unit("f").unwrap();
    a.write("f", 0, b"one").unwrap();
    a.begin_batch();
    a.write("f", 0, b"two").unwrap();
    a.add_writer([4u8; 32]).unwrap();
    assert!(a.current_writer_set().unwrap().contains(&[4u8; 32]));
    assert_eq!(a.read("f").unwrap(), b"two".to_vec());
    let back = Store::open_writerset_with_key(a.snapshot(), KEY, owner).unwrap();
    assert_eq!(back.read("f").unwrap(), b"one".to_vec());
    assert!(!back.current_writer_set().unwrap().contains(&[4u8; 32]));
    a.commit_batch();
    let back = Store::open_writerset_with_key(a.snapshot(), KEY, owner).unwrap();
    assert_eq!(back.read("f").unwrap(), b"two".to_vec());
    assert!(back.current_writer_set().unwrap().contains(&[4u8; 32]));
}

#[test]
fn maintenance_leaves_the_signer_alone() {
    let owner = [3u8; 32];
    let mut a = Store::create_writerset_with_key(KEY, owner).unwrap();
    a.create_unit("gone").unwrap();
    a.write("gone", 0, b"xx").unwrap();
    a.create_unit("f").unwrap();
    a.write("f", 0, b"content").unwrap();
    a.remove("gone").unwrap();
    let who = a.record_signer("f").unwrap();
    assert_eq!(who, Some(opposite(&owner)));
    a.defrag().unwrap();
    assert_eq!(a.record_signer("f").unwrap(), who);
    a.recipher(2).unwrap();
    assert_eq!(a.record_signer("f").unwrap(), who);
    assert_eq!(a.read("f").unwrap(), b"content".to_vec());
}

#[test]
fn a_set_offered_within_a_batch_is_taken_up() {
    let owner = [3u8; 32];
    let mut a = Store::create_writerset_with_key(KEY, owner).unwrap();
    a.create_unit("f").unwrap();
    a.write("f", 0, b"one").unwrap();
    let mut b = Store::open_writerset_with_key(a.snapshot(), KEY, owner).unwrap();
    a.add_writer([8u8; 32]).unwrap();
    b.begin_batch();
    b.write("f", 0, b"two").unwrap();
    assert!(b.adopt_writer_set(a.sealed_writer_set_blob().unwrap()).unwrap());
    assert!(b.current_writer_set().unwrap().contains(&[8u8; 32]));
    b.commit_batch();
    let back = Store::open_writerset_with_key(b.snapshot(), KEY, owner).unwrap();
    assert!(back.current_writer_set().unwrap().contains(&[8u8; 32]));
    assert_eq!(back.read("f").unwrap(), b"two".to_vec());
}

#[test]
fn strains_are_filled_up_with_zeros() {
    let mut a = replica(1);
    let mut b = replica(2);
    a.create_unit("f").unwrap();
    a.write("f", 0, b"base").unwrap();
    send(&a, &mut b, "f");
    a.write("f", 0, b"AAAA").unwrap();
    a.extend("f", 8).unwrap();
    b.write("f", 0, b"BBBB").unwrap();
    send(&a, &mut b, "f");
    assert!(b.has_conflict(b"f").unwrap());
    let both = vec![b.read_strain("f", 0).unwrap(), b.read_strain("f", 1).unwrap()];
    assert!(both.contains(&b"AAAA\0\0\0\0".to_vec()));
    assert!(both.contains(&b"BBBB".to_vec()));
}
