//! Superseded blocks in their self-describing form.
use vstd::prelude::*;

use crate::bytes::{
    array16, copy_range, le, lemma_le_len, lemma_le_of_un_le, lemma_pow256_values,
    lemma_un_le_of_le, push_all, push_le, read_le, take16, un_le,
};
use crate::error::Error;
use crate::outside::{crc32, crc32_hash};
use crate::unit::{copy_bytes, Uuid};

verus! {

/// The length of the fixed part of an encoded block.
pub const EVICT_HEADER_SIZE: usize = 68;

/// The first bytes of an encoded block: `sfse`, zero, `b2`, zero.
pub open spec fn evict_magic() -> Seq<u8> {
    seq![0x73u8, 0x66u8, 0x73u8, 0x65u8, 0u8, 0x62u8, 0x32u8, 0u8]
}

/// A superseded block: the fragment version that it holds, the commits that
/// pin it, and, where it was overwritten in place, the slot to restore.
#[derive(Debug, PartialEq, Eq)]
pub struct EvictedBlock {
    pub uuid: Uuid,
    pub frag: u32,
    /// The length of `bytes`.
    pub length: u32,
    pub old_version: u64,
    /// The commits that pinned the fragment.
    pub commits: Vec<Uuid>,
    /// The stored bytes.
    pub bytes: Vec<u8>,
    /// When the block was written, in seconds of universal time.
    pub timestamp: i64,
    /// The slot that was overwritten, zero for a pure history copy.
    pub inplace_addr: u64,
    /// The commit that makes the overwrite good, zero for a history copy.
    pub target_commit_seq: u64,
}

/// An [`EvictedBlock`] as a value.
#[verifier::ext_equal]
pub struct EvictedModel {
    pub uuid: Uuid,
    pub frag: u32,
    pub length: u32,
    pub old_version: u64,
    pub commits: Seq<Uuid>,
    pub bytes: Seq<u8>,
    pub timestamp: i64,
    pub inplace_addr: u64,
    pub target_commit_seq: u64,
}

impl View for EvictedBlock {
    type V = EvictedModel;

    open spec fn view(&self) -> EvictedModel {
        EvictedModel {
            uuid: self.uuid,
            frag: self.frag,
            length: self.length,
            old_version: self.old_version,
            commits: self.commits@,
            bytes: self.bytes@,
            timestamp: self.timestamp,
            inplace_addr: self.inplace_addr,
            target_commit_seq: self.target_commit_seq,
        }
    }
}

pub fn copy_uuids(v: &Vec<Uuid>) -> (r: Vec<Uuid>)
    ensures
        r@ == v@,
{
    let mut r: Vec<Uuid> = Vec::new();
    let mut i: usize = 0;
    while i < v.len()
        invariant
            i <= v.len(),
            r@ == v@.take(i as int),
        decreases v.len() - i,
    {
        r.push(v[i]);
        i = i + 1;
        proof {
            assert(r@ =~= v@.take(i as int));
        }
    }
    proof {
        assert(r@ =~= v@);
    }
    r
}

impl Clone for EvictedBlock {
    fn clone(&self) -> (r: Self)
        ensures
            r@ == self@,
    {
        EvictedBlock {
            uuid: self.uuid,
            frag: self.frag,
            length: self.length,
            old_version: self.old_version,
            commits: copy_uuids(&self.commits),
            bytes: copy_bytes(&self.bytes),
            timestamp: self.timestamp,
            inplace_addr: self.inplace_addr,
            target_commit_seq: self.target_commit_seq,
        }
    }
}

/// The two's-complement bits of `t`.
pub open spec fn bits_of(t: i64) -> u64 {
    if t >= 0 {
        t as u64
    } else {
        (t + 0x1_0000_0000_0000_0000) as u64
    }
}

/// The signed number with these bits.
pub open spec fn signed_of(b: u64) -> i64 {
    if b < 0x8000_0000_0000_0000 {
        b as i64
    } else {
        (b - 0x1_0000_0000_0000_0000) as i64
    }
}

fn to_bits(t: i64) -> (r: u64)
    ensures
        r == bits_of(t),
{
    if t >= 0 {
        t as u64
    } else {
        let m: u64 = (-(t + 1)) as u64;
        u64::MAX - m
    }
}

fn from_bits(b: u64) -> (r: i64)
    ensures
        r == signed_of(b),
{
    if b < 0x8000_0000_0000_0000 {
        b as i64
    } else {
        let m: i64 = (u64::MAX - b) as i64;
        -m - 1
    }
}

/// The commits, sixteen bytes each.
pub open spec fn uuid_run(s: Seq<Uuid>) -> Seq<u8>
    decreases s.len(),
{
    if s.len() == 0 {
        Seq::empty()
    } else {
        uuid_run(s.drop_last()) + s.last()@
    }
}

/// The `n` identities that start at `off`.
pub open spec fn uuids_at(buf: Seq<u8>, off: int, n: nat) -> Seq<Uuid> {
    Seq::new(n, |i: int| array16(buf.subrange(off + i * 16, off + i * 16 + 16)))
}

pub proof fn lemma_uuid_run_len(s: Seq<Uuid>)
    ensures
        uuid_run(s).len() == s.len() * 16,
    decreases s.len(),
{
    if s.len() > 0 {
        lemma_uuid_run_len(s.drop_last());
    }
}

pub proof fn lemma_uuids_at(buf: Seq<u8>, off: int, s: Seq<Uuid>)
    requires
        0 <= off,
        off + s.len() * 16 <= buf.len(),
        buf.subrange(off, off + s.len() * 16) == uuid_run(s),
    ensures
        uuids_at(buf, off, s.len()) == s,
    decreases s.len(),
{
    if s.len() > 0 {
        let p = s.drop_last();
        lemma_uuid_run_len(p);
        lemma_uuid_run_len(s);
        let w = uuid_run(s);
        let pl = p.len() as int * 16;
        assert(buf.subrange(off, off + pl) =~= uuid_run(p)) by {
            assert(buf.subrange(off, off + pl) =~= w.subrange(0, pl));
        }
        lemma_uuids_at(buf, off, p);
        let l = off + pl;
        assert(buf.subrange(l, l + 16) =~= s.last()@) by {
            assert(buf.subrange(l, l + 16) =~= w.subrange(pl, pl + 16));
        }
        assert(array16(s.last()@)@ == s.last()@);
        assert(array16(s.last()@) =~= s.last());
        assert forall|i: int| 0 <= i < s.len() implies uuids_at(buf, off, s.len())[i] == s[i] by {
            if i < p.len() {
                assert(uuids_at(buf, off, p.len())[i] == p[i]);
            } else {
                assert(buf.subrange(off + i * 16, off + i * 16 + 16) =~= buf.subrange(l, l + 16));
            }
        }
    }
    assert(uuids_at(buf, off, s.len()) =~= s);
}

/// Everything of the encoded form that stands before the commits.
pub open spec fn evict_head(e: EvictedModel) -> Seq<u8> {
    evict_magic() + e.uuid@ + le(e.frag as nat, 4) + le(e.length as nat, 4) + le(
        e.old_version as nat,
        8,
    ) + le(e.commits.len(), 4) + le(bits_of(e.timestamp) as nat, 8) + le(e.inplace_addr as nat, 8)
        + le(e.target_commit_seq as nat, 8)
}

/// The encoded form without its checksum.
pub open spec fn evict_body(e: EvictedModel) -> Seq<u8> {
    evict_head(e) + uuid_run(e.commits) + e.bytes
}

/// The encoded form.
pub open spec fn evict_bytes(e: EvictedModel) -> Seq<u8> {
    evict_body(e) + le(crc32(evict_body(e)) as nat, 4)
}

/// How many bytes the checksum covers, if `buf` starts like an encoded block of
/// `byte_len` bytes and is long enough for it.
pub open spec fn evict_span(buf: Seq<u8>, byte_len: nat) -> Option<nat> {
    if buf.len() < 72 + byte_len || buf.subrange(0, 8) != evict_magic() || un_le(
        buf.subrange(28, 32),
    ) != byte_len {
        None
    } else {
        let end = 68 + un_le(buf.subrange(40, 44)) * 16 + byte_len;
        if buf.len() < end + 4 {
            None
        } else {
            Some(end)
        }
    }
}

/// What `buf` holds if it starts with an encoded block of `byte_len` bytes, and
/// `crc` is the checksum of the bytes that the block's own checksum covers.
pub open spec fn evict_checked(buf: Seq<u8>, byte_len: nat, crc: u32) -> Option<EvictedModel> {
    match evict_span(buf, byte_len) {
        None => None,
        Some(end) => if un_le(buf.subrange(end as int, end as int + 4)) != crc {
            None
        } else {
            let n = un_le(buf.subrange(40, 44));
            Some(
                EvictedModel {
                    uuid: array16(buf.subrange(8, 24)),
                    frag: un_le(buf.subrange(24, 28)) as u32,
                    length: byte_len as u32,
                    old_version: un_le(buf.subrange(32, 40)) as u64,
                    commits: uuids_at(buf, 68, n),
                    bytes: buf.subrange(68 + n as int * 16, end as int),
                    timestamp: signed_of(un_le(buf.subrange(44, 52)) as u64),
                    inplace_addr: un_le(buf.subrange(52, 60)) as u64,
                    target_commit_seq: un_le(buf.subrange(60, 68)) as u64,
                },
            )
        },
    }
}

/// What `buf` holds if it starts with an encoded block of `byte_len` bytes.
pub open spec fn evict_parse(buf: Seq<u8>, byte_len: nat) -> Option<EvictedModel> {
    match evict_span(buf, byte_len) {
        None => None,
        Some(end) => evict_checked(buf, byte_len, crc32(buf.subrange(0, end as int))),
    }
}

impl EvictedBlock {
    /// The encoded form: fixed part, commits, bytes, checksum.
    pub fn encode(&self) -> (out: Vec<u8>)
        ensures
            out@ == evict_bytes(self@),
    {
        let body: Vec<u8> = self.body();
        let crc: u32 = crc32_hash(body.as_slice());
        Self::with_checksum(body, crc)
    }

    /// An encoded form, once its checksum is known.
    pub fn with_checksum(body: Vec<u8>, crc: u32) -> (out: Vec<u8>)
        ensures
            out@ == body@ + le(crc as nat, 4),
    {
        let mut out: Vec<u8> = body;
        push_le(&mut out, crc as u64, 4);
        out
    }

    /// The encoded form without its checksum.
    pub fn body(&self) -> (out: Vec<u8>)
        ensures
            out@ == evict_body(self@),
    {
        let mut out: Vec<u8> = vec![0x73u8, 0x66u8, 0x73u8, 0x65u8, 0u8, 0x62u8, 0x32u8, 0u8];
        proof {
            assert(out@ =~= evict_magic());
        }
        push_all(&mut out, self.uuid.as_slice());
        push_le(&mut out, self.frag as u64, 4);
        push_le(&mut out, self.length as u64, 4);
        push_le(&mut out, self.old_version, 8);
        push_le(&mut out, self.commits.len() as u64, 4);
        push_le(&mut out, to_bits(self.timestamp), 8);
        push_le(&mut out, self.inplace_addr, 8);
        push_le(&mut out, self.target_commit_seq, 8);
        proof {
            assert(out@ =~= evict_head(self@));
            assert(self.commits@.take(0) =~= Seq::empty());
            assert(out@ =~= evict_head(self@) + uuid_run(self.commits@.take(0)));
        }
        let mut i: usize = 0;
        while i < self.commits.len()
            invariant
                i <= self.commits.len(),
                out@ == evict_head(self@) + uuid_run(self.commits@.take(i as int)),
            decreases self.commits.len() - i,
        {
            push_all(&mut out, self.commits[i].as_slice());
            i = i + 1;
            proof {
                assert(self.commits@.take(i as int).drop_last() =~= self.commits@.take(i - 1));
                assert(out@ =~= evict_head(self@) + uuid_run(self.commits@.take(i as int)));
            }
        }
        proof {
            assert(self.commits@.take(i as int) =~= self.commits@);
        }
        push_all(&mut out, self.bytes.as_slice());
        out
    }

    /// How many bytes of `buf` the checksum of the block at its start covers.
    pub fn covered_len(buf: &[u8], byte_len: usize) -> (r: Option<usize>)
        ensures
            match r {
                None => evict_span(buf@, byte_len as nat) is None,
                Some(n) => evict_span(buf@, byte_len as nat) == Some(n as nat),
            },
    {
        let have: usize = buf.len();
        if byte_len > usize::MAX - 72 {
            return None;
        }
        if have < EVICT_HEADER_SIZE + byte_len + 4 {
            return None;
        }
        let magic: Vec<u8> = vec![0x73u8, 0x66u8, 0x73u8, 0x65u8, 0u8, 0x62u8, 0x32u8, 0u8];
        let start: Vec<u8> = copy_range(buf, 0, 8);
        proof {
            assert(magic@ =~= evict_magic());
        }
        if !crate::bytes::same_bytes(start.as_slice(), magic.as_slice()) {
            return None;
        }
        proof {
            lemma_pow256_values();
            lemma_le_of_un_le(buf@.subrange(28, 32));
            lemma_le_of_un_le(buf@.subrange(40, 44));
        }
        let length: u64 = read_le(buf, 28, 4);
        let count: u64 = read_le(buf, 40, 4);
        if length != byte_len as u64 {
            return None;
        }
        if ((have - EVICT_HEADER_SIZE - byte_len - 4) as u64) < count * 16 {
            return None;
        }
        Some(EVICT_HEADER_SIZE + count as usize * 16 + byte_len)
    }

    /// Reads the encoded block at the start of `buf`, which must hold
    /// `byte_len` bytes; what follows it is ignored.
    pub fn decode(buf: &[u8], byte_len: usize) -> (r: Result<EvictedBlock, Error>)
        ensures
            match evict_parse(buf@, byte_len as nat) {
                None => r == Err::<EvictedBlock, Error>(Error::Integrity),
                Some(e) => r is Ok && r->Ok_0@ == e,
            },
    {
        match Self::covered_len(buf, byte_len) {
            None => Err(Error::Integrity),
            Some(end) => {
                let covered: Vec<u8> = copy_range(buf, 0, end);
                let crc: u32 = crc32_hash(covered.as_slice());
                Self::decode_checked(buf, byte_len, crc)
            },
        }
    }

    /// Reads the encoded block at the start of `buf`, where `crc` is the
    /// checksum of what the block's own checksum covers.
    pub fn decode_checked(buf: &[u8], byte_len: usize, crc: u32) -> (r: Result<EvictedBlock, Error>)
        ensures
            match evict_checked(buf@, byte_len as nat, crc) {
                None => r == Err::<EvictedBlock, Error>(Error::Integrity),
                Some(e) => r is Ok && r->Ok_0@ == e,
            },
    {
        let end: usize = match Self::covered_len(buf, byte_len) {
            None => {
                return Err(Error::Integrity);
            },
            Some(n) => n,
        };
        proof {
            lemma_pow256_values();
            lemma_le_of_un_le(buf@.subrange(24, 28));
            lemma_le_of_un_le(buf@.subrange(28, 32));
            lemma_le_of_un_le(buf@.subrange(40, 44));
            lemma_le_of_un_le(buf@.subrange(44, 52));
            lemma_le_of_un_le(buf@.subrange(end as int, end + 4));
        }
        let stored: u32 = read_le(buf, end, 4) as u32;
        if stored != crc {
            return Err(Error::Integrity);
        }
        let n: usize = read_le(buf, 40, 4) as usize;
        let off: usize = end - byte_len;
        let mut commits: Vec<Uuid> = Vec::new();
        let mut i: usize = 0;
        while i < n
            invariant
                i <= n,
                68 + n * 16 <= buf.len(),
                commits@ == uuids_at(buf@, 68, i as nat),
            decreases n - i,
        {
            commits.push(take16(buf, 68 + i * 16));
            i = i + 1;
            proof {
                assert(commits@ =~= uuids_at(buf@, 68, i as nat));
            }
        }
        Ok(
            EvictedBlock {
                uuid: take16(buf, 8),
                frag: read_le(buf, 24, 4) as u32,
                length: byte_len as u32,
                old_version: read_le(buf, 32, 8),
                commits,
                bytes: copy_range(buf, off, end),
                timestamp: from_bits(read_le(buf, 44, 8)),
                inplace_addr: read_le(buf, 52, 8),
                target_commit_seq: read_le(buf, 60, 8),
            },
        )
    }
}

/// Decoding an encoded block gives the block back, whatever follows it.
pub proof fn law_evicted_round_trip(e: EvictedModel, rest: Seq<u8>)
    requires
        e.bytes.len() == e.length,
        e.commits.len() <= u32::MAX,
    ensures
        evict_parse(evict_bytes(e) + rest, e.length as nat) == Some(e),
{
    let buf = evict_bytes(e) + rest;
    let n = e.commits.len();
    lemma_pow256_values();
    lemma_le_len(e.frag as nat, 4);
    lemma_le_len(e.length as nat, 4);
    lemma_le_len(e.old_version as nat, 8);
    lemma_le_len(n, 4);
    lemma_le_len(bits_of(e.timestamp) as nat, 8);
    lemma_le_len(e.inplace_addr as nat, 8);
    lemma_le_len(e.target_commit_seq as nat, 8);
    let crc = crc32(evict_body(e)) as nat;
    lemma_le_len(crc, 4);
    lemma_uuid_run_len(e.commits);
    lemma_un_le_of_le(e.frag as nat, 4);
    lemma_un_le_of_le(e.length as nat, 4);
    lemma_un_le_of_le(e.old_version as nat, 8);
    lemma_un_le_of_le(n, 4);
    lemma_un_le_of_le(bits_of(e.timestamp) as nat, 8);
    lemma_un_le_of_le(e.inplace_addr as nat, 8);
    lemma_un_le_of_le(e.target_commit_seq as nat, 8);
    lemma_un_le_of_le(crc, 4);
    let head = evict_head(e);
    assert(head.len() == 68);
    let total: int = 72 + n as int * 16 + e.length as int;
    assert(buf.subrange(0, 8) =~= evict_magic());
    assert(buf.subrange(8, 24) =~= e.uuid@);
    assert(array16(e.uuid@)@ == e.uuid@);
    assert(array16(e.uuid@) =~= e.uuid);
    assert(buf.subrange(24, 28) =~= le(e.frag as nat, 4));
    assert(buf.subrange(28, 32) =~= le(e.length as nat, 4));
    assert(buf.subrange(32, 40) =~= le(e.old_version as nat, 8));
    assert(buf.subrange(40, 44) =~= le(n, 4));
    assert(buf.subrange(44, 52) =~= le(bits_of(e.timestamp) as nat, 8));
    assert(buf.subrange(52, 60) =~= le(e.inplace_addr as nat, 8));
    assert(buf.subrange(60, 68) =~= le(e.target_commit_seq as nat, 8));
    assert(buf.subrange(68, 68 + n as int * 16) =~= uuid_run(e.commits));
    lemma_uuids_at(buf, 68, e.commits);
    assert(buf.subrange(68 + n as int * 16, total - 4) =~= e.bytes);
    assert(buf.subrange(0, total - 4) =~= evict_body(e));
    assert(buf.subrange(total - 4, total) =~= le(crc, 4));
}

} // verus!
