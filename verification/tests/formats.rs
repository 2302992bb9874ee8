use sfs_core::block::{
    bitmap_clear_bit, bitmap_get_bit, bitmap_set_bit, derive_fragsize_exp, frag_count, frag_index,
    fragsize, has_seen_dot, last_frag_length, pack_dot, round_up_block,
};
use sfs_core::bytes::{copy_range, push_le, read_le, same_bytes};
use sfs_core::commit_record::Commit;
use sfs_core::crypto::{Crypto, Plaintext};
use sfs_core::engine::Engine;
use sfs_core::error::Error;
use sfs_core::evicted::EvictedBlock;
use sfs_core::overlay::{apply_overlay_full, insert_write};
use sfs_core::projection::{encode_projection, parse_projection, Projection};
use sfs_core::text::{push_decimal, push_vector};
use sfs_core::vector::VersionVector;
use sfs_core::verify_trailer::frame_record;
use sfs_core::writerset::WriterSet;

#[test]
fn fragment_geometry() {
    assert_eq!(fragsize(12), 4096);
    assert_eq!(fragsize(22), 4_194_304);
    assert_eq!(frag_count(0, 12), 0);
    assert_eq!(frag_count(1, 12), 1);
    assert_eq!(frag_count(4096, 12), 1);
    assert_eq!(frag_count(4097, 12), 2);
    assert_eq!(last_frag_length(4096, 12), 4096);
    assert_eq!(last_frag_length(4097, 12), 1);
    assert_eq!(last_frag_length(0, 12), 0);
    assert_eq!(frag_index(8191, 12), 1);
    assert_eq!(derive_fragsize_exp(0, 12, 22), 12);
    assert_eq!(derive_fragsize_exp(16_777_216, 12, 22), 12);
    assert_eq!(derive_fragsize_exp(16_777_217, 12, 22), 13);
    assert_eq!(derive_fragsize_exp(u64::MAX, 12, 22), 22);
    assert_eq!(round_up_block(0), 4096);
    assert_eq!(round_up_block(4096), 4096);
    assert_eq!(round_up_block(4097), 8192);
}

#[test]
fn dots_name_host_and_write() {
    assert_eq!(pack_dot(3, 5), 5 * 65_536 + 3);
    let mut vv = VersionVector::new();
    assert!(!has_seen_dot(&vv, pack_dot(3, 1)));
    vv.bump(3);
    assert!(has_seen_dot(&vv, pack_dot(3, 1)));
    assert!(!has_seen_dot(&vv, pack_dot(3, 2)));
    assert!(!has_seen_dot(&vv, pack_dot(4, 1)));
}

#[test]
fn bitmaps_grow_as_bits_are_set() {
    let mut bits: Vec<u8> = Vec::new();
    assert!(!bitmap_get_bit(&bits, 9));
    bitmap_set_bit(&mut bits, 9);
    assert_eq!(bits, vec![0, 2]);
    assert!(bitmap_get_bit(&bits, 9));
    bitmap_clear_bit(&mut bits, 9);
    bitmap_clear_bit(&mut bits, 900);
    assert_eq!(bits, vec![0, 0]);
}

#[test]
fn little_endian_numbers() {
    let mut out: Vec<u8> = Vec::new();
    push_le(&mut out, 0x0102_0304, 4);
    assert_eq!(out, vec![4, 3, 2, 1]);
    assert_eq!(read_le(&out, 0, 4), 0x0102_0304);
    assert_eq!(read_le(&out, 1, 2), 0x0203);
    assert_eq!(copy_range(&out, 1, 3), vec![3, 2]);
    assert!(same_bytes(&[1, 2], &[1, 2]));
    assert!(!same_bytes(&[1, 2], &[1, 2, 3]));
}

fn image() -> EvictedBlock {
    EvictedBlock {
        uuid: [7u8; 16],
        frag: 3,
        length: 4,
        old_version: 65_537,
        commits: vec![[1u8; 16], [2u8; 16]],
        bytes: vec![9, 8, 7, 6],
        timestamp: -5,
        inplace_addr: 11,
        target_commit_seq: 12,
    }
}

#[test]
fn evicted_blocks_round_trip() {
    let e = image();
    let b = e.encode();
    let back = EvictedBlock::decode(&b, 4).unwrap();
    assert_eq!(back.uuid, e.uuid);
    assert_eq!(back.frag, 3);
    assert_eq!(back.length, 4);
    assert_eq!(back.old_version, 65_537);
    assert_eq!(back.commits, e.commits);
    assert_eq!(back.bytes, e.bytes);
    assert_eq!(back.timestamp, -5);
    assert_eq!(back.inplace_addr, 11);
    assert_eq!(back.target_commit_seq, 12);
}

#[test]
fn evicted_blocks_end_with_their_checksum() {
    assert_eq!(crc32fast::hash(b"123456789"), 0xcbf4_3926);
    let e = image();
    let body = e.body();
    let b = e.encode();
    assert_eq!(b[..body.len()], body[..]);
    assert_eq!(b[body.len()..], crc32fast::hash(&body).to_le_bytes());
    assert_eq!(EvictedBlock::covered_len(&b, 4), Some(body.len()));
    let odd = EvictedBlock::with_checksum(body, 7);
    assert_eq!(odd[odd.len() - 4..], [7, 0, 0, 0]);
    assert_eq!(EvictedBlock::decode_checked(&odd, 4, 7).unwrap().frag, 3);
    assert!(matches!(EvictedBlock::decode_checked(&odd, 4, 8), Err(Error::Integrity)));
    assert!(matches!(EvictedBlock::decode(&odd, 4), Err(Error::Integrity)));
}

fn remainder(data: &[u8]) -> u32 {
    let mut c = u32::MAX;
    for b in data {
        c ^= *b as u32;
        for _ in 0..8 {
            c = if c & 1 == 1 { (c >> 1) ^ 0xedb8_8320 } else { c >> 1 };
        }
    }
    !c
}

#[test]
fn checksums_are_remainders() {
    assert_eq!(remainder(b""), 0);
    assert_eq!(remainder(b"123456789"), 0xcbf4_3926);
    for n in [0usize, 1, 3, 15, 16, 17, 64, 1000] {
        let mut e = image();
        e.bytes = (0..n).map(|i| (i * 7 + n) as u8).collect();
        e.length = n as u32;
        let body = e.body();
        let b = e.encode();
        assert_eq!(b[body.len()..], remainder(&body).to_le_bytes());
    }
}

#[test]
fn damaged_evicted_blocks_are_refused() {
    let b = image().encode();
    for i in 0..b.len() {
        let mut bad = b.clone();
        bad[i] ^= 0x40;
        assert!(matches!(EvictedBlock::decode(&bad, 4), Err(Error::Integrity)), "byte {}", i);
    }
    assert!(matches!(EvictedBlock::decode(&b[..b.len() - 1], 4), Err(Error::Integrity)));
    assert!(matches!(EvictedBlock::decode(&b, 3), Err(Error::Integrity)));
}

#[test]
fn commits_round_trip() {
    let c = Commit {
        title: "Überschrift".to_string(),
        message: "message".to_string(),
        commitish: [5u8; 16],
        parents: vec![[6u8; 16]],
        entries: vec![([7u8; 16], 8, 9), ([1u8; 16], 2, 3)],
    };
    let b = c.encode();
    let back = Commit::decode(&b).unwrap();
    assert_eq!(back.title, "Überschrift");
    assert_eq!(back.message, "message");
    assert_eq!(back.commitish, [5u8; 16]);
    assert_eq!(back.parents, vec![[6u8; 16]]);
    assert_eq!(back.entries, vec![([7u8; 16], 8, 9), ([1u8; 16], 2, 3)]);
    assert!(matches!(Commit::decode(&b[..b.len() - 1]), Err(Error::Integrity)));
    assert!(matches!(Commit::decode(&[]), Err(Error::Integrity)));
}

#[test]
fn projections_round_trip() {
    let mut vv = VersionVector::new();
    vv.bump(2);
    let p = Projection {
        key: b"a/b".to_vec(),
        fragsize_exp: 12,
        last_frag_length: 77,
        unit_map: vec![pack_dot(2, 1), 0],
        vv,
        attest: None,
        has_content: true,
        meta: None,
    };
    let b = encode_projection(&p);
    let back = parse_projection(&b, false).unwrap();
    assert_eq!(back.key, b"a/b".to_vec());
    assert_eq!(back.fragsize_exp, 12);
    assert_eq!(back.last_frag_length, 77);
    assert_eq!(back.unit_map, vec![pack_dot(2, 1), 0]);
    assert_eq!(back.vv.get(2), 1);
    assert!(back.has_content);
    assert!(matches!(parse_projection(&[], false), Err(Error::Integrity)));
}

#[test]
fn vectors_in_words() {
    let mut s = String::new();
    push_decimal(&mut s, 0);
    s.push(' ');
    push_decimal(&mut s, u64::MAX);
    assert_eq!(s, "0 18446744073709551615");
    let mut vv = VersionVector::new();
    let mut t = String::new();
    push_vector(&mut t, &vv);
    println!("{}", t);
    vv.bump(1);
    vv.bump(1);
    vv.bump(7);
    let mut t = String::new();
    push_vector(&mut t, &vv);
    assert!(t.contains('2') && t.contains('7'), "{}", t);
}

#[test]
fn pending_writes_lie_over_content() {
    let mut ws = Vec::new();
    insert_write(&mut ws, 4, b"cd".to_vec());
    insert_write(&mut ws, 1, b"X".to_vec());
    insert_write(&mut ws, 4, b"e".to_vec());
    let mut out = b"abcd".to_vec();
    apply_overlay_full(&mut out, &ws);
    assert_eq!(out, b"aXcded".to_vec());
}

#[test]
fn framed_records_end_with_their_trailer() {
    let b = frame_record(b"projection", &[1u8; 32], &[2u8; 64], b"payload");
    let mut want = vec![10, 0, 0, 0];
    want.extend_from_slice(b"projection");
    want.extend_from_slice(&[1u8; 32]);
    want.extend_from_slice(&[2u8; 64]);
    want.extend_from_slice(&[7, 0, 0, 0]);
    want.extend_from_slice(b"payload");
    assert_eq!(b, want);
}

#[test]
fn successors_of_writer_sets() {
    let owner = [1u8; 32];
    let ws = WriterSet {
        epoch: 1,
        key_epoch: 0,
        owner_pubkey: owner,
        writers: vec![owner],
        removed: vec![],
    };
    let more = ws.with_writer(&[2u8; 32]);
    assert!(more.contains(&[2u8; 32]));
    assert_eq!(more.epoch, 2);
    assert!(more.is_valid_successor_of(&ws));
    assert!(!ws.is_valid_successor_of(&more));
    let less = more.without_writers(&[[2u8; 32]], 1);
    assert!(!less.contains(&[2u8; 32]));
    assert_eq!(less.removed, vec![[2u8; 32]]);
    assert!(less.is_valid_successor_of(&more));
    let within = more.without_writers(&[[2u8; 32]], 0);
    assert!(!within.is_valid_successor_of(&more));
}

#[test]
fn a_store_without_secrets() {
    let mut e: Engine<Plaintext> =
        Engine::create_in_memory_with_cipher_and_key(0, [0u8; 32]).unwrap();
    e.create_unit_with_meta("a", b"m").unwrap();
    e.write("a", 0, b"plain").unwrap();
    assert_eq!(e.read("a").unwrap(), b"plain".to_vec());
    assert_eq!(e.read_meta("a").unwrap(), Some(b"m".to_vec()));
    let back: Engine<Plaintext> = Engine::open_with_key(e.snapshot(), [0u8; 32]).unwrap();
    assert_eq!(back.read("a").unwrap(), b"plain".to_vec());
    let grant = Plaintext::seal_grant(&[1u8; 32], &[2u8; 32], 3);
    assert_eq!(Plaintext::open_grant(&[1u8; 32], &grant), Some(([2u8; 32], 3)));
    assert!(!Plaintext::verify(&[1u8; 32], b"x", &[0u8; 64]));
}
