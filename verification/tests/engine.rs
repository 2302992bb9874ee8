use sfs_core::block::pack_dot;
use sfs_core::commit_record::Commit;
use sfs_core::crypto::{BlockCtx, Crypto};
use sfs_core::engine::Engine;
use sfs_core::error::Error;
use sfs_core::history::PersistenceStore;
use sfs_core::record_block::{
    decode_record_blocks, encode_record_blocks, unit_record_raw_size,
};
use sfs_core::retention::{EvictionStrategy, KeepAll};
use vstd::prelude::{int, nat, Seq};

/// A toy provider: a keystream, a checksum as tag, and signatures that anyone
/// could make.
struct Toy {}

fn mix(parts: &[&[u8]]) -> u64 {
    let mut h: u64 = 0xcbf2_9ce4_8422_2325;
    for p in parts {
        for b in p.iter() {
            h ^= *b as u64;
            h = h.wrapping_mul(0x0000_0100_0000_01b3);
        }
        h ^= 0xff;
        h = h.wrapping_mul(0x0000_0100_0000_01b3);
    }
    h ^ (h >> 29)
}

fn stream(key: &[u8], ctx: &[u8], data: &[u8]) -> Vec<u8> {
    let seed = mix(&[key, ctx]);
    data.iter()
        .enumerate()
        .map(|(i, b)| b ^ (seed.wrapping_mul(i as u64 * 2 + 3) >> 24) as u8)
        .collect()
}

fn tag(key: &[u8], ctx: &[u8], data: &[u8]) -> Vec<u8> {
    let mut t = mix(&[key, ctx, data]).to_le_bytes().to_vec();
    t.extend_from_slice(&mix(&[ctx, data, key]).to_le_bytes());
    t
}

fn ctx_bytes(suite: u8, ctx: &BlockCtx) -> Vec<u8> {
    let mut b = vec![suite];
    b.extend_from_slice(&ctx.uuid);
    b.extend_from_slice(&ctx.frag.to_le_bytes());
    b.extend_from_slice(&ctx.version.to_le_bytes());
    b.extend_from_slice(&ctx.key_epoch.to_le_bytes());
    b
}

fn opposite(seed: &[u8; 32]) -> [u8; 32] {
    let mut p = *seed;
    for b in p.iter_mut() {
        *b = !*b;
    }
    p
}

fn signature(pubkey: &[u8; 32], payload: &[u8]) -> [u8; 64] {
    let mut s = [0u8; 64];
    s[..16].copy_from_slice(&tag(pubkey, b"sign", payload));
    s
}

impl Crypto for Toy {
    fn known(_: u8) -> bool {
        unreachable!()
    }

    fn min_len(_: u8) -> nat {
        unreachable!()
    }

    fn sealed(_: u8, _: [u8; 32], _: BlockCtx, _: Seq<u8>) -> Seq<u8> {
        unreachable!()
    }

    fn opened(_: u8, _: [u8; 32], _: BlockCtx, _: Seq<u8>) -> Option<Seq<u8>> {
        unreachable!()
    }

    fn meta_sealed(_: [u8; 32], _: Seq<u8>, _: Seq<u8>, _: Seq<u8>) -> Seq<u8> {
        unreachable!()
    }

    fn meta_opened(_: [u8; 32], _: Seq<u8>, _: Seq<u8>, _: Seq<u8>) -> Option<Seq<u8>> {
        unreachable!()
    }

    fn signs() -> bool {
        unreachable!()
    }

    fn pubkey_of(_: [u8; 32]) -> [u8; 32] {
        unreachable!()
    }

    fn signed(_: [u8; 32], _: Seq<u8>) -> [u8; 64] {
        unreachable!()
    }

    fn verified(_: [u8; 32], _: Seq<u8>, _: [u8; 64]) -> bool {
        unreachable!()
    }

    fn recipient_of(_: [u8; 32]) -> [u8; 32] {
        unreachable!()
    }

    fn granted(_: [u8; 32], _: Seq<u8>) -> Option<([u8; 32], u64)> {
        unreachable!()
    }

    fn tagged(_: [u8; 32], _: Seq<u8>) -> [u8; 32] {
        unreachable!()
    }

    fn lemma_open_of_seal(_: u8, _: [u8; 32], _: BlockCtx, _: Seq<u8>) {}

    fn lemma_seal_len(_: u8, _: [u8; 32], _: BlockCtx, _: Seq<u8>) {}

    fn lemma_opened_len(_: u8, _: [u8; 32], _: BlockCtx, _: Seq<u8>) {}

    fn lemma_meta_open_of_seal(_: [u8; 32], _: Seq<u8>, _: Seq<u8>, _: Seq<u8>) {}

    fn lemma_meta_opened_len(_: [u8; 32], _: Seq<u8>, _: Seq<u8>, _: Seq<u8>) {}

    fn lemma_verify_of_sign(_: [u8; 32], _: Seq<u8>) {}

    fn is_known(suite: u8) -> bool {
        suite <= 2
    }

    fn min_plaintext_len(suite: u8) -> usize {
        if suite == 2 { 16 } else { 0 }
    }

    fn seal(suite: u8, key: &[u8; 32], ctx: &BlockCtx, plain: &[u8]) -> Vec<u8> {
        if suite == 0 {
            return plain.to_vec();
        }
        let c = ctx_bytes(suite, ctx);
        let mut out = stream(key, &c, plain);
        if suite == 1 {
            let t = tag(key, &c, plain);
            out.extend_from_slice(&t);
        }
        out
    }

    fn open(suite: u8, key: &[u8; 32], ctx: &BlockCtx, cipher: &[u8]) -> Option<Vec<u8>> {
        if suite == 0 {
            return Some(cipher.to_vec());
        }
        let c = ctx_bytes(suite, ctx);
        if suite == 2 {
            return if cipher.len() < 16 { None } else { Some(stream(key, &c, cipher)) };
        }
        if cipher.len() < 16 {
            return None;
        }
        let plain = stream(key, &c, &cipher[..cipher.len() - 16]);
        if tag(key, &c, &plain) == cipher[cipher.len() - 16..] { Some(plain) } else { None }
    }

    fn seal_meta(key: &[u8; 32], nonce: &[u8], aad: &[u8], plain: &[u8]) -> Vec<u8> {
        let c = [nonce, aad].concat();
        let mut out = stream(key, &c, plain);
        let t = tag(key, &c, plain);
        out.extend_from_slice(&t);
        out
    }

    fn open_meta(key: &[u8; 32], nonce: &[u8], aad: &[u8], cipher: &[u8]) -> Option<Vec<u8>> {
        if cipher.len() < 16 {
            return None;
        }
        let c = [nonce, aad].concat();
        let plain = stream(key, &c, &cipher[..cipher.len() - 16]);
        if tag(key, &c, &plain) == cipher[cipher.len() - 16..] { Some(plain) } else { None }
    }

    fn tag(key: &[u8; 32], data: &[u8]) -> [u8; 32] {
        let mut t = [0u8; 32];
        t[..16].copy_from_slice(&tag(key, b"header", data));
        t
    }

    fn pubkey(seed: &[u8; 32]) -> [u8; 32] {
        opposite(seed)
    }

    fn sign(seed: &[u8; 32], payload: &[u8]) -> [u8; 64] {
        signature(&opposite(seed), payload)
    }

    fn verify(pubkey: &[u8; 32], payload: &[u8], sig: &[u8; 64]) -> bool {
        signature(pubkey, payload) == *sig
    }

    fn seal_grant(recipient: &[u8; 32], root_key: &[u8; 32], key_epoch: u64) -> Vec<u8> {
        let mut plain = root_key.to_vec();
        plain.extend_from_slice(&key_epoch.to_le_bytes());
        let mut out = stream(recipient, b"grant", &plain);
        let t = tag(recipient, b"grant", &plain);
        out.extend_from_slice(&t);
        out
    }

    fn open_grant(identity: &[u8; 32], grant: &[u8]) -> Option<([u8; 32], u64)> {
        let recipient = opposite(identity);
        if grant.len() != 56 {
            return None;
        }
        let plain = stream(&recipient, b"grant", &grant[..40]);
        if tag(&recipient, b"grant", &plain) != grant[40..] {
            return None;
        }
        let mut key = [0u8; 32];
        key.copy_from_slice(&plain[..32]);
        let mut epoch = [0u8; 8];
        epoch.copy_from_slice(&plain[32..]);
        Some((key, u64::from_le_bytes(epoch)))
    }
}

type Store = Engine<Toy>;

fn fresh() -> Store {
    Store::create_with_key([7u8; 32]).unwrap()
}

fn pattern(len: usize, seed: u8) -> Vec<u8> {
    (0..len).map(|i| (i as u8).wrapping_mul(31).wrapping_add(seed)).collect()
}

#[test]
fn written_bytes_read_back() {
    let mut e = fresh();
    e.create_unit("a").unwrap();
    e.write("a", 0, b"hello world").unwrap();
    assert_eq!(e.read("a").unwrap(), b"hello world".to_vec());
    e.write("a", 6, b"there, you").unwrap();
    assert_eq!(e.read("a").unwrap(), b"hello there, you".to_vec());
    assert_eq!(e.read_at("a", 6, 5).unwrap(), b"there".to_vec());
    assert_eq!(e.read_at("a", 14, 10).unwrap(), b"ou".to_vec());
}

/// What is left after the process ends here.
fn reopened(e: &Store) -> Store {
    Store::open_with_key(e.snapshot(), [7u8; 32]).unwrap()
}

#[test]
fn long_content_spans_many_fragments() {
    let mut e = fresh();
    e.create_unit("big").unwrap();
    let first = pattern(300_000, 3);
    e.write("big", 0, &first).unwrap();
    assert_eq!(e.read("big").unwrap(), first);
    let patch = pattern(70_000, 90);
    e.write("big", 131_000, &patch).unwrap();
    let mut want = first.clone();
    want[131_000..201_000].copy_from_slice(&patch);
    assert_eq!(e.read("big").unwrap(), want);
    assert_eq!(e.read_at("big", 130_990, 20).unwrap(), want[130_990..131_010].to_vec());
    assert_eq!(e.unit_summary("big").unwrap().size, 300_000);
}

#[test]
fn a_write_past_the_end_is_refused() {
    let mut e = fresh();
    e.create_unit("a").unwrap();
    e.write("a", 0, b"ab").unwrap();
    assert!(matches!(e.write("a", 5, b"z"), Err(Error::Integrity)));
    assert_eq!(e.read("a").unwrap(), b"ab".to_vec());
    e.write("a", 2, b"z").unwrap();
    assert_eq!(e.read("a").unwrap(), b"abz".to_vec());
}

#[test]
fn writing_one_unit_leaves_the_others() {
    let mut e = fresh();
    e.create_unit("a").unwrap();
    e.create_unit("b").unwrap();
    e.write("a", 0, b"aaaa").unwrap();
    e.write("b", 0, b"bbbb").unwrap();
    e.write("a", 1, b"xx").unwrap();
    assert_eq!(e.read("a").unwrap(), b"axxa".to_vec());
    assert_eq!(e.read("b").unwrap(), b"bbbb".to_vec());
}

#[test]
fn unknown_paths_are_not_found() {
    let mut e = fresh();
    assert!(matches!(e.read("nope"), Err(Error::NotFound)));
    assert!(matches!(e.write("nope", 0, b"x"), Err(Error::NotFound)));
    assert!(matches!(e.extend("nope", 5), Err(Error::NotFound)));
    assert!(matches!(e.truncate("nope", 5), Err(Error::NotFound)));
    assert!(matches!(e.remove("nope"), Err(Error::NotFound)));
    assert!(matches!(e.history("nope"), Err(Error::NotFound)));
    assert!(matches!(e.read_meta("nope"), Err(Error::NotFound)));
    assert!(matches!(e.export_record(b"nope"), Err(Error::NotFound)));
}

#[test]
fn extended_and_truncated_content() {
    let mut e = fresh();
    e.create_unit("a").unwrap();
    e.write("a", 0, b"abcdef").unwrap();
    e.extend("a", 9).unwrap();
    assert_eq!(e.read("a").unwrap(), b"abcdef\0\0\0".to_vec());
    e.truncate("a", 4).unwrap();
    assert_eq!(e.read("a").unwrap(), b"abcd".to_vec());
    e.extend("a", 6).unwrap();
    assert_eq!(e.read("a").unwrap(), b"abcd\0\0".to_vec());
    e.truncate("a", 0).unwrap();
    assert_eq!(e.read("a").unwrap(), Vec::<u8>::new());
}

#[test]
fn long_content_shrinks_and_grows() {
    let mut e = fresh();
    e.create_unit("a").unwrap();
    let data = pattern(100_000, 8);
    e.write("a", 0, &data).unwrap();
    e.truncate("a", 50_001).unwrap();
    assert_eq!(e.read("a").unwrap(), data[..50_001].to_vec());
    e.extend("a", 120_000).unwrap();
    let mut want = data[..50_001].to_vec();
    want.resize(120_000, 0);
    assert_eq!(e.read("a").unwrap(), want);
}

#[test]
fn past_versions_read_back() {
    let mut e = fresh();
    e.create_unit("a").unwrap();
    e.write("a", 0, b"one").unwrap();
    e.write("a", 0, b"two").unwrap();
    e.write("a", 0, b"six").unwrap();
    let h = e.history("a").unwrap();
    assert!(h[0] > h[1] && h[1] > h[2]);
    assert_eq!(e.checkout("a", h[0]).unwrap(), b"six".to_vec());
    assert_eq!(e.checkout("a", h[1]).unwrap(), b"two".to_vec());
    assert_eq!(e.checkout("a", h[2]).unwrap(), b"one".to_vec());
    assert_eq!(reopened(&e).checkout("a", h[2]).unwrap(), b"one".to_vec());
}

#[test]
fn names_move_and_share_units() {
    let mut e = fresh();
    let id = e.create_unit("d/a").unwrap();
    e.write("d/a", 0, b"x").unwrap();
    e.link("d/a", "d/b").unwrap();
    assert_eq!(e.uuid_for_path("d/b").unwrap(), id);
    e.rename("d/a", "d/c").unwrap();
    assert!(matches!(e.read("d/a"), Err(Error::NotFound)));
    assert_eq!(e.read("d/c").unwrap(), b"x".to_vec());
    e.write("d/c", 0, b"y").unwrap();
    assert_eq!(e.read("d/b").unwrap(), b"y".to_vec());
    assert_eq!(e.list("d/").unwrap(), vec!["d/b".to_string(), "d/c".to_string()]);
    assert_eq!(e.rename_prefix("d", "q").unwrap(), 2);
    assert_eq!(e.list("").unwrap(), vec!["q/b".to_string(), "q/c".to_string()]);
    e.remove("q/b").unwrap();
    assert_eq!(e.read("q/c").unwrap(), b"y".to_vec());
    assert!(matches!(e.create_unit("q/c"), Err(Error::Integrity)));
}

#[test]
fn metadata_is_kept_beside_content() {
    let mut e = fresh();
    e.create_unit_with_meta("a", b"mode").unwrap();
    assert_eq!(e.read_meta("a").unwrap(), Some(b"mode".to_vec()));
    e.write("a", 0, b"content").unwrap();
    assert_eq!(e.read_meta("a").unwrap(), Some(b"mode".to_vec()));
    e.write_meta("a", b"other mode").unwrap();
    assert_eq!(e.read_meta("a").unwrap(), Some(b"other mode".to_vec()));
    assert_eq!(e.read("a").unwrap(), b"content".to_vec());
    assert_eq!(reopened(&e).read_meta("a").unwrap(), Some(b"other mode".to_vec()));
    e.create_unit("plain").unwrap();
    assert_eq!(e.read_meta("plain").unwrap(), None);
}

#[test]
fn committed_writes_outlive_the_process() {
    let mut e = fresh();
    e.create_unit("a").unwrap();
    e.write("a", 0, b"kept").unwrap();
    assert_eq!(reopened(&e).read("a").unwrap(), b"kept".to_vec());
}

#[test]
fn an_interrupted_write_leaves_the_last_commit() {
    let mut e = fresh();
    e.create_unit("a").unwrap();
    e.write("a", 0, b"first").unwrap();
    e.write_simulate_crash_before_commit("a", 0, b"other").unwrap();
    assert_eq!(reopened(&e).read("a").unwrap(), b"first".to_vec());

    let mut e = fresh();
    e.create_unit("a").unwrap();
    let before = pattern(200_000, 1);
    let after = pattern(200_000, 77);
    e.write("a", 0, &before).unwrap();
    let mut torn = reopened(&e);
    assert!(torn.write_simulate_crash_after_tail_copy("a", 0, &after).is_err());
    assert_eq!(reopened(&torn).read("a").unwrap(), before);
    for k in 1..3 {
        let mut torn = reopened(&e);
        assert!(torn.write_simulate_crash_after_n_inplace("a", 0, &after, k).is_err());
        assert_eq!(reopened(&torn).read("a").unwrap(), before);
    }
    e.write("a", 0, &after).unwrap();
    assert_eq!(reopened(&e).read("a").unwrap(), after);
}

#[test]
fn a_batch_is_kept_whole_or_not_at_all() {
    let mut e = fresh();
    e.create_unit("a").unwrap();
    e.create_unit("b").unwrap();
    e.begin_batch();
    assert!(e.batch_active());
    e.write("a", 0, b"one").unwrap();
    e.write("b", 0, b"two").unwrap();
    assert_eq!(e.read("a").unwrap(), b"one".to_vec());
    let torn = reopened(&e);
    assert_eq!(torn.read("a").unwrap(), Vec::<u8>::new());
    assert_eq!(torn.read("b").unwrap(), Vec::<u8>::new());
    e.commit_batch();
    assert!(!e.batch_active());
    let whole = reopened(&e);
    assert_eq!(whole.read("a").unwrap(), b"one".to_vec());
    assert_eq!(whole.read("b").unwrap(), b"two".to_vec());
}

#[test]
fn transactions_commit_once_at_the_end() {
    let mut e = fresh();
    let done: Result<u8, Error> = e.transaction(|t: &mut Store| {
        t.create_unit("a")?;
        t.write("a", 0, b"in")?;
        Ok(5)
    });
    assert!(matches!(done, Ok(5)));
    assert_eq!(reopened(&e).read("a").unwrap(), b"in".to_vec());

    let mut torn = reopened(&e);
    let done: Result<(), Error> = torn.transaction_simulate_crash_before_commit(|t: &mut Store| {
        t.write("a", 0, b"no")
    });
    assert!(done.is_ok());
    assert_eq!(reopened(&torn).read("a").unwrap(), b"in".to_vec());

    let failed: Result<(), Error> = e.transaction(|t: &mut Store| t.write("missing", 0, b"x"));
    assert!(matches!(failed, Err(Error::NotFound)));
}

#[test]
fn logged_writes_are_replayed() {
    let mut e = fresh();
    e.create_unit("a").unwrap();
    e.write("a", 0, b"base").unwrap();
    e.enable_wal();
    assert!(e.wal_mode_active());
    e.write_async("a", 1, b"AS").unwrap();
    e.write_async("a", 4, b"ment").unwrap();
    assert_eq!(e.read("a").unwrap(), b"bASement".to_vec());
    assert_eq!(e.read_at("a", 2, 4).unwrap(), b"Seme".to_vec());
    assert_eq!(reopened(&e).read("a").unwrap(), b"bASement".to_vec());
    e.checkpoint().unwrap();
    assert_eq!(e.read("a").unwrap(), b"bASement".to_vec());
    assert_eq!(reopened(&e).read("a").unwrap(), b"bASement".to_vec());
}

#[test]
fn a_torn_checkpoint_loses_nothing() {
    let mut e = fresh();
    e.create_unit("a").unwrap();
    e.write("a", 0, b"base").unwrap();
    e.enable_wal();
    e.write_async("a", 0, b"BA").unwrap();
    e.checkpoint_simulate_crash_before_publish().unwrap();
    assert_eq!(reopened(&e).read("a").unwrap(), b"BAse".to_vec());
}

#[test]
fn tagged_states_can_be_checked_out() {
    let mut e = fresh();
    e.create_unit("a").unwrap();
    e.create_unit("b").unwrap();
    e.write("a", 0, b"a1").unwrap();
    e.write("b", 0, b"b1").unwrap();
    let tag = e.commit(&["a", "b"], "title", "message").unwrap();
    e.write("a", 0, b"a2").unwrap();
    e.write("b", 0, b"b2").unwrap();
    assert_eq!(e.checkout_at_commit("a", tag).unwrap(), b"a1".to_vec());
    assert_eq!(e.checkout_at_commit("b", tag).unwrap(), b"b1".to_vec());
    assert!(matches!(e.checkout_at_commit("a", [9u8; 16]), Err(Error::NotFound)));
}

#[test]
fn compaction_keeps_what_is_read() {
    let mut e = fresh();
    e.create_unit("a").unwrap();
    e.create_unit("b").unwrap();
    e.write("a", 0, &pattern(90_000, 4)).unwrap();
    e.write("b", 0, b"small").unwrap();
    e.remove("a").unwrap();
    e.write("b", 0, b"SM").unwrap();
    e.defrag().unwrap();
    assert_eq!(e.read("b").unwrap(), b"SMall".to_vec());
    assert_eq!(reopened(&e).read("b").unwrap(), b"SMall".to_vec());
}

#[test]
fn resealing_keeps_what_is_read() {
    let mut e = Store::create_in_memory_with_cipher_and_key(1, [7u8; 32]).unwrap();
    e.create_unit_with_meta("a", b"m").unwrap();
    let data = pattern(100_000, 5);
    e.write("a", 0, &data).unwrap();
    let moved = e.recipher(2).unwrap();
    assert!(!moved.is_empty());
    assert_eq!(e.read("a").unwrap(), data);
    assert_eq!(reopened(&e).read("a").unwrap(), data);
    assert!(matches!(e.recipher(9), Err(Error::Crypto)));

    e.rotate_root_key(&[8u8; 32]).unwrap();
    assert_eq!(e.key_epoch(), 1);
    assert_eq!(e.root_key(), [8u8; 32]);
    assert_eq!(e.read("a").unwrap(), data);
    assert_eq!(e.read_meta("a").unwrap(), Some(b"m".to_vec()));
    assert_eq!(Store::open_with_key(e.snapshot(), [8u8; 32]).unwrap().read("a").unwrap(), data);
}

#[test]
fn a_wrong_key_opens_nothing() {
    let mut e = Store::create_in_memory_with_cipher_and_key(1, [7u8; 32]).unwrap();
    e.create_unit("a").unwrap();
    e.write("a", 0, b"secret").unwrap();
    assert!(matches!(Store::open_with_key(e.snapshot(), [1u8; 32]), Err(Error::Integrity)));
    assert!(matches!(Store::open_in_memory_with_key(e.snapshot(), [1u8; 32]), Err(Error::Integrity)));
    assert_eq!(reopened(&e).read("a").unwrap(), b"secret".to_vec());
}

#[test]
fn old_keys_open_nothing() {
    let mut e = fresh();
    e.create_unit_with_meta("a", b"m").unwrap();
    e.write("a", 0, b"secret").unwrap();
    let old_epoch = e.key_epoch();
    e.rotate_root_key(&[8u8; 32]).unwrap();
    assert!(matches!(Store::open_with_key(e.snapshot(), [7u8; 32]), Err(Error::Integrity)));
    let back = Store::open_with_key(e.snapshot(), [8u8; 32]).unwrap();
    assert_eq!(back.read("a").unwrap(), b"secret".to_vec());
    assert_eq!(back.read_meta("a").unwrap(), Some(b"m".to_vec()));
    assert_eq!(back.key_epoch(), old_epoch + 1);
}

#[test]
fn a_changed_header_is_noticed() {
    let e = fresh();
    let mut c = e.snapshot();
    c.committed.header.commit_seq += 1;
    assert!(matches!(Store::open_with_key(c, [7u8; 32]), Err(Error::Integrity)));
}

#[test]
fn cuts_keep_the_past() {
    let mut e = fresh();
    e.create_unit("f").unwrap();
    e.write("f", 0, b"hello").unwrap();
    e.truncate("f", 2).unwrap();
    assert_eq!(e.read("f").unwrap(), b"he".to_vec());
    assert_eq!(e.checkout("f", pack_dot(0, 1)).unwrap(), b"hello".to_vec());
    assert_eq!(reopened(&e).checkout("f", pack_dot(0, 1)).unwrap(), b"hello".to_vec());
    e.truncate("f", 0).unwrap();
    assert_eq!(e.read("f").unwrap(), Vec::<u8>::new());
    assert_eq!(e.checkout("f", pack_dot(0, 1)).unwrap(), b"hello".to_vec());
    assert_eq!(e.checkout("f", pack_dot(0, 2)).unwrap(), b"he".to_vec());
}

#[test]
fn cuts_to_nothing_count_in_the_vector() {
    let mut e = fresh();
    e.create_unit("f").unwrap();
    e.write("f", 0, b"hello").unwrap();
    e.truncate("f", 0).unwrap();
    let rec = e.find_head(b"f").unwrap().2;
    let content = rec.content.unwrap();
    assert_eq!(content.vv.get(0), 2);
    assert!(content.unit_map.is_empty());
    e.write("f", 0, b"anew").unwrap();
    assert_eq!(e.history("f").unwrap(), vec![pack_dot(0, 3), pack_dot(0, 1)]);
}

#[test]
fn later_logged_writes_count() {
    let mut e = fresh();
    e.create_unit("f").unwrap();
    e.enable_wal();
    e.write_async("f", 0, b"AAAA").unwrap();
    e.write_async("f", 0, b"B").unwrap();
    assert_eq!(e.read("f").unwrap(), b"BAAA".to_vec());
    assert_eq!(reopened(&e).read("f").unwrap(), b"BAAA".to_vec());
    e.checkpoint().unwrap();
    assert_eq!(e.read("f").unwrap(), b"BAAA".to_vec());
    e.write_async("f", 6, b"Z").unwrap();
    assert_eq!(e.read("f").unwrap(), b"BAAA\0\0Z".to_vec());
    e.checkpoint().unwrap();
    assert_eq!(e.read("f").unwrap(), b"BAAA\0\0Z".to_vec());
}

#[test]
fn directories_have_the_version_of_their_metadata() {
    let mut e = fresh();
    e.mkdir_with_meta("d", b"x").unwrap();
    assert_eq!(e.unit_summary_raw_key(b"d").unwrap().version, pack_dot(0, 1));
    assert_eq!(e.unit_summary("d").unwrap().version, pack_dot(0, 1));
}

#[test]
fn raw_reads_fill_up_with_zeros() {
    let mut e = fresh();
    e.create_unit("f").unwrap();
    e.write("f", 0, b"hello").unwrap();
    e.extend("f", 8).unwrap();
    assert_eq!(e.read_raw_key(b"f").unwrap(), b"hello\0\0\0".to_vec());
}

#[test]
fn raw_writes_keep_the_past() {
    let mut e = fresh();
    e.create_unit("f").unwrap();
    e.write("f", 0, b"hello").unwrap();
    let tag = e.commit(&["f"], "t", "m").unwrap();
    e.write_raw_key(b"f", 0, b"J").unwrap();
    assert_eq!(e.read("f").unwrap(), b"Jello".to_vec());
    assert_eq!(e.checkout("f", pack_dot(0, 1)).unwrap(), b"hello".to_vec());
    assert_eq!(e.checkout_at_commit("f", tag).unwrap(), b"hello".to_vec());
}

#[test]
fn superseded_blocks_are_exported_as_they_were() {
    let mut e = Store::create_in_memory_with_cipher_and_key(0, [7u8; 32]).unwrap();
    e.register_unit_uuid("f", [1u8; 16]).unwrap();
    e.write("f", 0, &[1u8; 4096]).unwrap();
    e.write("f", 0, &[2u8; 4096]).unwrap();
    assert_eq!(e.export_block([1u8; 16], 0, pack_dot(0, 1)).unwrap(), (vec![1u8; 4096], 0));
    assert_eq!(e.export_block([1u8; 16], 0, pack_dot(0, 2)).unwrap(), (vec![2u8; 4096], 0));
    assert!(matches!(e.export_block([1u8; 16], 0, pack_dot(0, 3)), Err(Error::NotFound)));
    assert!(matches!(e.export_block([2u8; 16], 0, pack_dot(0, 1)), Err(Error::NotFound)));
}

#[test]
fn taken_keys_are_refused_without_a_draw() {
    let mut e = fresh();
    e.create_unit("a").unwrap();
    assert!(matches!(e.create_unit("a"), Err(Error::Integrity)));
}

#[test]
fn sealing_to_fit_keeps_what_is_read() {
    let mut e = fresh();
    e.create_unit_with_meta("a", b"m").unwrap();
    e.write("a", 0, b"abc").unwrap();
    assert_eq!(e.seal_to_fit(1 << 20, 5000).unwrap(), 8192);
    let back = reopened(&e);
    assert_eq!(back.read("a").unwrap(), b"abc".to_vec());
    assert_eq!(back.read_meta("a").unwrap(), Some(b"m".to_vec()));
}

#[test]
fn a_commit_adds_nothing_to_the_history() {
    let mut e = fresh();
    e.create_unit("a").unwrap();
    e.write("a", 0, b"one").unwrap();
    e.write("a", 0, b"two").unwrap();
    let before = e.history("a").unwrap();
    assert_eq!(before.len(), 2);
    e.commit(&["a"], "t", "m").unwrap();
    assert_eq!(e.history("a").unwrap(), before);
    e.write("a", 0, b"six").unwrap();
    assert_eq!(e.history("a").unwrap()[1..], before[..]);
}

#[test]
fn ranged_reads_are_parts_of_the_whole() {
    let mut e = fresh();
    e.create_unit("a").unwrap();
    let data = pattern(20_000, 6);
    e.write("a", 0, &data).unwrap();
    e.enable_wal();
    e.write_async("a", 8_000, &pattern(500, 9)).unwrap();
    let all = e.read("a").unwrap();
    for (at, len) in [(0usize, 1usize), (4_095, 2), (7_990, 600), (19_999, 50), (30_000, 5)] {
        let from = at.min(all.len());
        let to = (at + len).min(all.len());
        assert_eq!(e.read_at("a", at as u64, len).unwrap(), all[from..to].to_vec());
    }
}

#[test]
fn padded_stores_read_back_what_was_written() {
    let mut e = Store::create_padded_with_key([7u8; 32]).unwrap();
    e.create_unit("a").unwrap();
    e.write("a", 0, b"short").unwrap();
    assert_eq!(e.read("a").unwrap(), b"short".to_vec());
    e.write("a", 5, b"er").unwrap();
    assert_eq!(reopened(&e).read("a").unwrap(), b"shorter".to_vec());
}

#[test]
fn eviction_without_a_policy_drops_nothing() {
    let mut e = fresh();
    e.create_unit("a").unwrap();
    e.write("a", 0, b"one").unwrap();
    e.write("a", 0, b"two").unwrap();
    e.evict::<KeepAll>(1_000_000).unwrap();
    let h = e.history("a").unwrap();
    assert_eq!(e.checkout("a", h[1]).unwrap(), b"one".to_vec());
}

/// Drops every past block that is older than a limit.
struct OlderThan {
    limit: i128,
}

impl EvictionStrategy for OlderThan {
    fn of_code(_: u8) -> OlderThan {
        unreachable!()
    }

    fn drops(&self, _: int) -> bool {
        unreachable!()
    }

    fn from_eviction_code(_: u8) -> OlderThan {
        OlderThan { limit: 0 }
    }

    fn is_due(&self, age: i128) -> bool {
        age > self.limit
    }
}

#[test]
fn eviction_spares_the_present_and_what_a_commit_pins() {
    let mut e = fresh();
    e.create_unit("a").unwrap();
    e.set_clock(100);
    e.write("a", 0, b"one").unwrap();
    e.write("a", 0, b"two").unwrap();
    let tag = e.commit(&["a"], "t", "m").unwrap();
    e.write("a", 0, b"six").unwrap();
    let first = e.history("a").unwrap()[2];
    assert_eq!(e.checkout("a", first).unwrap(), b"one".to_vec());

    let r = e.evict_with_strategy(105, &OlderThan { limit: 10 }).unwrap();
    assert_eq!(r.dropped, 0);
    let r = e.evict_with_strategy(200, &OlderThan { limit: 10 }).unwrap();
    assert!(r.dropped >= 1);
    assert!(matches!(e.checkout("a", first), Err(_)));
    assert_eq!(e.checkout_at_commit("a", tag).unwrap(), b"two".to_vec());
    assert_eq!(e.read("a").unwrap(), b"six".to_vec());
}

#[test]
fn growing_into_larger_fragments_keeps_content_and_commits() {
    let mut e = Store::create_in_memory_with_cipher_and_key(0, [7u8; 32]).unwrap();
    e.create_unit("a").unwrap();
    let half = pattern(16 * 1024 * 1024, 6);
    e.write("a", 0, &half).unwrap();
    assert_eq!(e.content_fragsize_exp("a").unwrap(), 12);
    let tag = e.commit(&["a"], "t", "m").unwrap();
    e.write("a", half.len() as u64, b"one more").unwrap();
    assert_eq!(e.content_fragsize_exp("a").unwrap(), 13);
    let now = e.read("a").unwrap();
    assert!(now[..half.len()] == half[..]);
    assert!(now[half.len()..] == b"one more"[..]);
    assert!(e.checkout_at_commit("a", tag).unwrap() == half);
}

#[test]
fn new_units_get_identities_of_their_own() {
    let mut e = fresh();
    let a = e.create_unit("a").unwrap();
    let b = e.create_unit("b").unwrap();
    assert_ne!(a, b);
    assert_ne!(a, [0u8; 16]);
    assert!(matches!(e.create_unit("a"), Err(Error::Integrity)));
    e.mkdir("d").unwrap();
    assert!(e.unit_summary("d").unwrap().is_dir);
    assert_eq!(e.read("d").unwrap(), Vec::<u8>::new());
}

#[test]
fn directories_are_listed() {
    let mut e = fresh();
    e.create_unit("d/a").unwrap();
    e.create_unit("d/sub/b").unwrap();
    e.create_unit("x").unwrap();
    assert_eq!(e.list("d/").unwrap(), vec!["d/a".to_string(), "d/sub/b".to_string()]);
    assert!(!e.list_dir("d/").unwrap().is_empty());
    e.create_unit_raw_key(&[0xff, 0xfe]).unwrap();
    assert!(matches!(e.list(""), Err(Error::Integrity)));
    assert_eq!(e.list("d/").unwrap().len(), 2);
    assert!(e.uuid_for_raw_key(&[0xff, 0xfe]).is_ok());
}

#[test]
fn damage_is_noticed() {
    let mut e = Store::create_in_memory_with_cipher_and_key(1, [7u8; 32]).unwrap();
    e.create_unit("a").unwrap();
    e.write("a", 0, b"content").unwrap();
    assert!(matches!(e.debug_write_raw(99, b"x"), Err(Error::Integrity)));
    e.debug_write_raw(1, &[0u8; 23]).unwrap();
    assert!(matches!(e.read("a"), Err(Error::Crypto)));
    e.debug_write_raw(1, b"short").unwrap();
    assert!(matches!(e.read("a"), Err(Error::Integrity)));
    assert!(matches!(e.write("a", 1, b"x"), Err(Error::Integrity)));
}

#[test]
fn records_that_were_changed_are_refused() {
    let seed = [3u8; 32];
    let mut e = Store::create_signed_with_key([7u8; 32], seed).unwrap();
    e.create_unit("a").unwrap();
    e.write("a", 0, b"content").unwrap();
    let addr = e.head_record_addr("a").unwrap();
    let mut rec = e.read_record_at(addr).unwrap();
    e.debug_reseal_record_at(addr, &rec).unwrap();
    assert_eq!(e.read("a").unwrap(), b"content".to_vec());
    rec.content.as_mut().unwrap().last_frag_length = 3;
    e.debug_reseal_record_at(addr, &rec).unwrap();
    assert!(matches!(e.read("a"), Err(Error::Integrity)));
}

#[test]
fn containers_are_sealed_at_their_size() {
    let mut e = fresh();
    e.create_unit("a").unwrap();
    e.write("a", 0, b"one").unwrap();
    assert_eq!(e.seal_to_fit(100_000, 5_000).unwrap(), 8_192);
    assert!(matches!(e.seal_to_fit(8_000, 5_000), Err(Error::Integrity)));
    assert_eq!(reopened(&e).read("a").unwrap(), b"one".to_vec());
    e.write("a", 0, b"two").unwrap();
    assert!(matches!(e.seal_to_fit(100_000, 5_000), Err(Error::Integrity)));
}

#[test]
fn unknown_suites_are_refused() {
    assert!(Store::create_in_memory_with_cipher_and_key(9, [7u8; 32]).is_err());
}

#[test]
fn raw_bytes_are_stored_as_they_are() {
    let mut e = Store::create_in_memory_with_cipher_and_key(0, [7u8; 32]).unwrap();
    e.create_unit_raw_key(b"k").unwrap();
    e.write_raw_key(b"k", 0, b"raw bytes").unwrap();
    assert_eq!(e.read_raw_key(b"k").unwrap(), b"raw bytes".to_vec());
    assert!(matches!(e.write_raw_key(b"k", 99, b"x"), Err(Error::Integrity)));
    assert!(matches!(e.read_raw_key(b"none"), Err(Error::NotFound)));
}

#[test]
fn superseded_blocks_carry_the_time_of_their_write() {
    let mut e = fresh();
    e.create_unit("a").unwrap();
    e.set_clock(100);
    e.write("a", 0, b"one").unwrap();
    e.write_with_timestamp("a", 0, b"two", 7).unwrap();
    e.write("a", 0, b"six").unwrap();
    let h = e.history("a").unwrap();
    e.evict_with_strategy(110, &OlderThan { limit: 50 }).unwrap();
    assert_eq!(e.checkout("a", h[2]).unwrap(), b"one".to_vec());
    assert!(matches!(e.checkout("a", h[1]), Err(Error::Integrity)));
    assert_eq!(e.checkout("a", h[0]).unwrap(), b"six".to_vec());
}

#[test]
fn decoded_records_are_kept_for_the_next_read() {
    let mut e = fresh();
    e.create_unit("a").unwrap();
    e.write("a", 0, b"abc").unwrap();
    e.reset_unit_record_decode_count();
    assert_eq!(e.unit_record_decode_count(), 0);
    e.read_at("a", 0, 1).unwrap();
    e.read_at("a", 1, 1).unwrap();
    assert_eq!(e.unit_record_decode_count(), 1);
}

#[test]
fn fragments_resolve_along_the_chain() {
    let mut e = fresh();
    e.create_unit("a").unwrap();
    e.write("a", 0, b"one").unwrap();
    e.write("a", 0, b"two").unwrap();
    let h = e.history("a").unwrap();
    let addr = e.head_record_addr("a").unwrap();
    let mode = e.header().sign_mode;
    let key = e.header().writer_pubkey;
    let recs = e.snapshot().records;
    let now = PersistenceStore::resolve_current::<Toy>(&recs, addr, 0, mode, &key, &None).unwrap();
    let same = PersistenceStore::resolve::<Toy>(&recs, addr, 0, h[0], mode, &key, &None).unwrap();
    assert_eq!(now, same);
    let (_, version, _) =
        PersistenceStore::resolve_with_version::<Toy>(&recs, addr, 0, h[1], mode, &key, &None)
            .unwrap()
            .unwrap();
    assert_eq!(version, h[1]);
    let early = PersistenceStore::resolve::<Toy>(&recs, addr, 0, 0, mode, &key, &None).unwrap();
    assert_eq!(early, None);
    let none = PersistenceStore::resolve_current::<Toy>(&recs, addr, 9, mode, &key, &None).unwrap();
    assert_eq!(none, None);
}

#[test]
fn interrupted_maintenance_leaves_the_last_commit() {
    let mut e = Store::create_in_memory_with_cipher_and_key(1, [7u8; 32]).unwrap();
    e.create_unit("gone").unwrap();
    e.write("gone", 0, &pattern(9_000, 1)).unwrap();
    e.create_unit("a").unwrap();
    let data = pattern(9_000, 2);
    e.write("a", 0, &data).unwrap();
    e.remove("gone").unwrap();

    let mut torn = reopened(&e);
    torn.recipher_simulate_crash_before_commit(2).unwrap();
    assert_eq!(reopened(&torn).read("a").unwrap(), data);
    let mut torn = reopened(&e);
    torn.rotate_root_key_simulate_crash_before_commit(&[8u8; 32]).unwrap();
    assert_eq!(reopened(&torn).read("a").unwrap(), data);
    assert_eq!(reopened(&torn).key_epoch(), 0);
    let mut torn = reopened(&e);
    torn.defrag_simulate_crash_before_commit().unwrap();
    assert_eq!(reopened(&torn).read("a").unwrap(), data);
}

#[test]
fn records_of_a_key_value_store_name_it() {
    let mut e = fresh();
    e.create_kv_unit("kv", [1u8; 16], [2u8; 16]).unwrap();
    assert!(e.unit_db_head("kv").unwrap().is_some());
    e.create_unit("plain").unwrap();
    assert!(e.unit_db_head("plain").unwrap().is_none());
    e.write("kv", 0, b"v").unwrap();
    assert!(e.unit_db_head("kv").unwrap().is_some());
}

#[test]
fn summaries_by_key() {
    let mut e = fresh();
    let id = e.create_unit_raw_key(&[0xff]).unwrap();
    let s = e.unit_summary_raw_key(&[0xff]).unwrap();
    assert_eq!(s.uuid, id);
    assert_eq!(s.size, 0);
    assert_eq!(s.fragment_count, 0);
    assert!(matches!(e.unit_summary_raw_key(b"no"), Err(Error::NotFound)));
    e.create_unit_with_meta("m", b"x").unwrap();
    assert_eq!(e.meta_stream_vv("m").unwrap().unwrap().get(e.local_alias()), 1);
}

#[test]
fn containers_are_made_in_many_ways() {
    let made: Vec<Store> = vec![
        Store::create().unwrap(),
        Store::create_with_cipher(1).unwrap(),
        Store::create_padded().unwrap(),
        Store::create_signed_with_key_and_cipher([7u8; 32], [3u8; 32], 2).unwrap(),
        Store::create_in_memory_with_key([7u8; 32]).unwrap(),
    ];
    for mut e in made {
        e.create_unit("a").unwrap();
        e.write("a", 0, b"abc").unwrap();
        assert_eq!(e.read("a").unwrap(), b"abc".to_vec());
        let key = e.root_key();
        let back = Store::open_in_memory_with_key(e.snapshot(), key).unwrap();
        assert_eq!(back.read("a").unwrap(), b"abc".to_vec());
        println!("{}", back.mount_head_decodes());
    }
}

#[test]
fn records_lie_in_whole_blocks() {
    let key = [7u8; 32];
    let plain = encode_record_blocks::<Toy>(&key, false, 4096, &[5u8; 12], b"record");
    assert_eq!(plain.len(), 4096);
    assert_eq!(plain[..10], *b"\x06\0\0\0record");
    assert!(plain[10..].iter().all(|b| *b == 0));

    let mut disk = vec![0u8; 4096];
    disk.extend_from_slice(&encode_record_blocks::<Toy>(&key, true, 4096, &[5u8; 12], b"record"));
    assert_eq!(disk.len(), 8192);
    assert_eq!(unit_record_raw_size(&disk, 4096, true).unwrap(), 4 + 12 + 6 + 16);
    let read = |disk: &[u8], addr: u64, key: &[u8; 32]| {
        decode_record_blocks::<Toy>(disk, addr, true, key)
    };
    assert_eq!(read(&disk, 4096, &key).unwrap(), b"record".to_vec());
    assert!(matches!(read(&disk, 4096, &[8u8; 32]), Err(Error::Crypto)));
    assert!(matches!(read(&disk[4096..], 0, &key), Err(Error::Crypto)));
    assert!(matches!(read(&disk[..8000], 4096, &key), Err(Error::Integrity)));
    assert!(matches!(read(&disk, 8190, &key), Err(Error::Integrity)));
    assert!(matches!(read(&disk, u64::MAX, &key), Err(Error::Integrity)));
}

#[test]
fn every_version_of_a_run_of_writes_checks_out() {
    let mut e = fresh();
    e.create_unit("a").unwrap();
    e.write("a", 0, b"one").unwrap();
    e.write("a", 3, b" and more").unwrap();
    e.write("a", 1, b"NE").unwrap();
    e.write("a", 0, b"last").unwrap();
    let h = e.history("a").unwrap();
    assert_eq!(h.len(), 4);
    assert!(h[0] > h[1] && h[1] > h[2] && h[2] > h[3]);
    assert_eq!(e.checkout("a", h[3]).unwrap(), b"one".to_vec());
    assert_eq!(e.checkout("a", h[2]).unwrap(), b"one and more".to_vec());
    assert_eq!(e.checkout("a", h[1]).unwrap(), b"oNE and more".to_vec());
    assert_eq!(e.checkout("a", h[0]).unwrap(), b"lastand more".to_vec());
    assert!(matches!(e.checkout("a", h[3] - 1), Err(Error::NotFound)));
}

#[test]
fn commits_last_through_writes_and_evictions() {
    let mut e = fresh();
    e.create_unit("a").unwrap();
    e.create_unit("b").unwrap();
    e.set_clock(100);
    e.write("a", 0, b"one").unwrap();
    e.write("b", 0, b"other").unwrap();
    let first = e.commit(&["a"], "t", "m").unwrap();
    for i in 0..4 {
        e.write("a", 0, &[b'0' + i as u8]).unwrap();
        e.evict_with_strategy(200 + i, &OlderThan { limit: 10 }).unwrap();
        assert_eq!(e.checkout_at_commit("a", first).unwrap(), b"one".to_vec());
    }
    let second = e.commit(&["a", "b"], "u", "n").unwrap();
    let hex: String = second.iter().map(|b| format!("{:02x}", b)).collect();
    let made = Commit::decode(&e.read(&format!(".sfs/commits/{}", hex)).unwrap()).unwrap();
    assert_eq!(made.commitish, second);
    assert_eq!(made.title, "u");
    assert_eq!(made.message, "n");
    assert_eq!(made.parents, vec![first]);
    assert_eq!(made.entries.len(), 2);
    assert_eq!(e.read("b").unwrap(), b"other".to_vec());
    assert_eq!(e.read("a").unwrap(), b"3ne".to_vec());
}

#[test]
fn a_refused_commit_leaves_no_batch_behind() {
    let mut e = fresh();
    e.create_unit("a").unwrap();
    e.write("a", 0, b"one").unwrap();
    assert!(matches!(e.commit(&["a", "missing"], "t", "m"), Err(Error::NotFound)));
    assert!(!e.batch_active());
    e.write("a", 0, b"two").unwrap();
    assert_eq!(reopened(&e).read("a").unwrap(), b"two".to_vec());
}

#[test]
fn blocks_move_only_where_they_fit() {
    let mut e = Store::create_in_memory_with_cipher_and_key(1, [7u8; 32]).unwrap();
    e.create_unit("small").unwrap();
    e.write("small", 0, b"few bytes").unwrap();
    e.rotate_root_key(&[8u8; 32]).unwrap();
    e.create_unit("wide").unwrap();
    e.write("wide", 0, &pattern(4096, 3)).unwrap();
    e.rotate_root_key(&[9u8; 32]).unwrap();
    assert_eq!(e.defrag().unwrap().blocks_moved, 1);
    assert_eq!(e.read("wide").unwrap(), pattern(4096, 3));
    // The slots that the small unit left are free and lie before it, and are too small.
    assert_eq!(e.defrag().unwrap().blocks_moved, 0);
    assert_eq!(e.read("wide").unwrap(), pattern(4096, 3));
    assert_eq!(e.read("small").unwrap(), b"few bytes".to_vec());
}

#[test]
fn sealing_again_gives_the_same_size() {
    let mut e = fresh();
    e.create_unit("a").unwrap();
    e.write("a", 0, b"abc").unwrap();
    let n = e.seal_to_fit(1 << 20, 5000).unwrap();
    assert_eq!(e.seal_to_fit(n, 5000).unwrap(), n);
    assert_eq!(e.seal_to_fit(n, n).unwrap(), n);
}

#[test]
fn what_a_record_says_can_be_tested_before_use() {
    let mut e = Store::create_in_memory_with_cipher_and_key(0, [7u8; 32]).unwrap();
    e.create_unit("a").unwrap();
    e.write("a", 0, b"content").unwrap();
    assert!(e.geometry_sound(b"a"));
    assert!(e.write_described(b"a", 7, 100));
    assert!(!e.write_described(b"a", 7, usize::MAX));
    let addr = e.head_record_addr("a").unwrap();
    let mut rec = e.read_record_at(addr).unwrap();
    rec.content.as_mut().unwrap().last_frag_length = 5000;
    e.debug_reseal_record_at(addr, &rec).unwrap();
    assert!(!e.geometry_sound(b"a"));
    assert!(!e.write_described(b"a", 0, 1));
}
