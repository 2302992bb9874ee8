use sfs_core::error::Error;
use sfs_core::vector::{PeerEntry, PeerRegistry, VersionVector};

#[test]
fn empty_vector_dominates_empty() {
    let a = VersionVector::new();
    let b = VersionVector::new();
    assert!(a.dominates(&b));
    assert!(b.dominates(&a));
    assert!(!a.concurrent_with(&b));
}

#[test]
fn empty_dominated_by_nonempty() {
    let empty = VersionVector::new();
    let mut v = VersionVector::new();
    v.bump(0);
    // v >= empty, but empty is NOT >= v
    assert!(v.dominates(&empty));
    assert!(!empty.dominates(&v));
    assert!(!v.concurrent_with(&empty));
}

#[test]
fn get_absent_returns_zero() {
    let v = VersionVector::new();
    assert_eq!(v.get(0), 0);
    assert_eq!(v.get(u16::MAX), 0);
}

#[test]
fn bump_returns_correct_value() {
    let mut v = VersionVector::new();
    assert_eq!(v.bump(0), 1);
    assert_eq!(v.bump(0), 2);
    assert_eq!(v.bump(0), 3);
    assert_eq!(v.bump(1), 1);
}

#[test]
fn roundtrip_empty() {
    let v = VersionVector::new();
    let bytes = v.to_bytes();
    assert_eq!(bytes, vec![0, 0]); // count=0, no entries
    let v2 = VersionVector::from_bytes(&bytes).unwrap();
    assert_eq!(v, v2);
}

#[test]
fn roundtrip_single_entry() {
    let mut v = VersionVector::new();
    v.bump(0);
    v.bump(0); // sync_id=2
    let bytes = v.to_bytes();
    // count=1 (u16 LE) + alias=0 (u16 LE) + sync_id=2 (u64 LE)
    assert_eq!(bytes.len(), 12);
    assert_eq!(&bytes[0..2], &[1, 0]); // count = 1 LE
    assert_eq!(&bytes[2..4], &[0, 0]); // alias = 0 LE
    assert_eq!(&bytes[4..12], &[2, 0, 0, 0, 0, 0, 0, 0]); // sync_id = 2 LE
    let v2 = VersionVector::from_bytes(&bytes).unwrap();
    assert_eq!(v, v2);
}

#[test]
fn from_bytes_rejects_wrong_length() {
    assert!(VersionVector::from_bytes(&[]).is_err());
    assert!(VersionVector::from_bytes(&[1]).is_err());
    // count=1 but only 2 bytes total (need 12)
    assert!(VersionVector::from_bytes(&[1, 0]).is_err());
}

#[test]
fn from_bytes_rejects_zero_sync_id() {
    // count=1, alias=0, sync_id=0  → must be rejected
    let mut buf = vec![1, 0]; // count=1
    buf.extend_from_slice(&0_u16.to_le_bytes()); // alias=0
    buf.extend_from_slice(&0_u64.to_le_bytes()); // sync_id=0  ← invalid
    assert!(VersionVector::from_bytes(&buf).is_err());
}

#[test]
fn from_bytes_rejects_unsorted_aliases() {
    // count=2, alias=5 then alias=3 (not ascending)
    let mut buf = vec![2, 0]; // count=2
    buf.extend_from_slice(&5_u16.to_le_bytes());
    buf.extend_from_slice(&1_u64.to_le_bytes());
    buf.extend_from_slice(&3_u16.to_le_bytes());
    buf.extend_from_slice(&1_u64.to_le_bytes());
    assert!(VersionVector::from_bytes(&buf).is_err());
}

#[test]
fn from_bytes_rejects_duplicate_aliases() {
    // count=2, alias=1 twice (not strictly ascending)
    let mut buf = vec![2, 0];
    buf.extend_from_slice(&1_u16.to_le_bytes());
    buf.extend_from_slice(&1_u64.to_le_bytes());
    buf.extend_from_slice(&1_u16.to_le_bytes());
    buf.extend_from_slice(&2_u64.to_le_bytes());
    assert!(VersionVector::from_bytes(&buf).is_err());
}

#[test]
fn peer_registry_local() {
    let reg = PeerRegistry::local();
    assert_eq!(reg.local_alias(), 0);
}

/// Dominance with disjoint alias sets (the subtle case).
#[test]
fn dominance_disjoint_alias_sets() {
    let mut a = VersionVector::new();
    a.bump(0); // a = {0→1}

    let mut b = VersionVector::new();
    b.bump(1); // b = {1→1}

    // Neither dominates the other
    assert!(!a.dominates(&b)); // a.get(1)=0 < b.get(1)=1
    assert!(!b.dominates(&a)); // b.get(0)=0 < a.get(0)=1
    assert!(a.concurrent_with(&b));
}

/// A vector with more aliases still dominates one with a strict subset,
/// if all values are >=.
#[test]
fn dominance_superset_aliases() {
    let mut big = VersionVector::new();
    big.bump(0); // {0→1}
    big.bump(1); // {0→1, 1→1}

    let mut small = VersionVector::new();
    small.bump(0); // {0→1}

    assert!(big.dominates(&small));
    assert!(!small.dominates(&big)); // small.get(1)=0 < big.get(1)=1
    assert!(!big.concurrent_with(&small));
}

fn built(entries: &[(u16, u32)]) -> VersionVector {
    let mut v = VersionVector::new();
    for &(alias, count) in entries {
        for _ in 0..count {
            v.bump(alias);
        }
    }
    v
}

fn samples() -> Vec<VersionVector> {
    vec![
        built(&[]),
        built(&[(0, 1)]),
        built(&[(0, 3), (7, 2)]),
        built(&[(7, 5)]),
        built(&[(0, 3), (7, 2), (u16::MAX, 9)]),
    ]
}

#[test]
fn domination_excludes_concurrency() {
    for a in samples().iter() {
        for b in samples().iter() {
            if a.dominates(b) || b.dominates(a) {
                assert!(!a.concurrent_with(b));
            } else {
                assert!(a.concurrent_with(b));
            }
        }
    }
}

#[test]
fn every_vector_dominates_itself() {
    for a in samples().iter() {
        assert!(a.dominates(a));
        assert!(!a.concurrent_with(a));
        assert_eq!(*a, a.clone());
    }
}

#[test]
fn bumping_moves_ahead() {
    for a in samples().iter() {
        for alias in [0u16, 7, 9, u16::MAX] {
            let mut b = a.clone();
            let before = b.get(alias);
            assert_eq!(b.bump(alias), before + 1);
            assert_eq!(b.get(alias), before + 1);
            assert!(b.dominates(a));
            assert!(!a.dominates(&b));
        }
    }
}

#[test]
fn joining_gives_the_least_upper_bound() {
    let a = built(&[(0, 3), (7, 2)]);
    let b = built(&[(7, 5), (9, 1)]);
    let j = a.join(&b);
    assert_eq!(j, built(&[(0, 3), (7, 5), (9, 1)]));
    assert_eq!(j, b.join(&a));
    assert!(j.dominates(&a) && j.dominates(&b));
    assert_eq!(a.join(&a), a);
}

#[test]
fn vector_bytes_round_trip() {
    for a in samples().iter() {
        let bytes = a.to_bytes();
        assert_eq!(VersionVector::from_bytes(&bytes).unwrap(), *a);
    }
    let two = built(&[(1, 2), (3, 1)]);
    assert_eq!(
        two.to_bytes(),
        vec![2, 0, 1, 0, 2, 0, 0, 0, 0, 0, 0, 0, 3, 0, 1, 0, 0, 0, 0, 0, 0, 0]
    );
}

#[test]
fn peer_entries_round_trip() {
    let e = PeerEntry { alias: 4, pubkey: [9u8; 32], retired: true };
    let bytes = e.encode();
    assert_eq!(bytes.len(), 38);
    assert_eq!(&bytes[..6], &[0x53, 0x46, 0x50, 0x52, 1, 1]);
    assert_eq!(PeerEntry::decode(4, &bytes).unwrap(), e);
    assert_eq!(PeerEntry::decode(4, &bytes[..37]), Err(Error::Integrity));
    let mut wrong = bytes.clone();
    wrong[5] = 2;
    assert_eq!(PeerEntry::decode(4, &wrong), Err(Error::Integrity));
}

#[test]
fn registries_sort_and_skip_taken_aliases() {
    let e = |alias: u16, b: u8| PeerEntry { alias, pubkey: [b; 32], retired: false };
    let reg = PeerRegistry::from_entries(1, vec![e(3, 3), e(0, 1), e(1, 2)]);
    assert_eq!(reg.local_alias(), 1);
    assert_eq!(reg.entries().iter().map(|x| x.alias).collect::<Vec<_>>(), vec![0, 1, 3]);
    assert_eq!(reg.alias_of(&[3u8; 32]), Some(3));
    assert_eq!(reg.alias_of(&[8u8; 32]), None);
    assert_eq!(reg.next_free_alias(), 2);
}
