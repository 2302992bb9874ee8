//! Encoded records in the blocks of a container.
use vstd::prelude::*;

use crate::block::{footprint, round_up_block};
use crate::bytes::{
    copy_range, le, lemma_le_len, lemma_pow256_values, lemma_un_le_of_le, push_all, push_le,
    push_zeros, read_le, un_le, zeros,
};
use crate::crypto::Crypto;
use crate::error::Error;

verus! {

/// What a sealed record is bound to: its address, and that it is a record.
pub open spec fn record_aad(addr: u64) -> Seq<u8> {
    le(addr as nat, 8) + seq![1u8]
}

/// The bytes before the record itself: its length, and the nonce of a sealed one.
pub open spec fn front_len(sealed: bool) -> nat {
    if sealed {
        16
    } else {
        4
    }
}

/// A record before it is filled up to whole blocks.
pub open spec fn record_run<C: Crypto>(
    key: [u8; 32],
    sealed: bool,
    addr: u64,
    nonce: Seq<u8>,
    encoded: Seq<u8>,
) -> Seq<u8> {
    if sealed {
        le(encoded.len() + 16, 4) + nonce + C::meta_sealed(key, nonce, record_aad(addr), encoded)
    } else {
        le(encoded.len(), 4) + encoded
    }
}

/// The blocks of a record.
pub open spec fn record_blocks<C: Crypto>(
    key: [u8; 32],
    sealed: bool,
    addr: u64,
    nonce: Seq<u8>,
    encoded: Seq<u8>,
) -> Seq<u8> {
    let run = record_run::<C>(key, sealed, addr, nonce, encoded);
    run + zeros((footprint(run.len()) - run.len()) as nat)
}

/// The length that is noted at `addr`.
pub open spec fn noted_len(disk: Seq<u8>, addr: int) -> nat {
    un_le(disk.subrange(addr, addr + 4))
}

/// The encoded record that lies at `addr`. Its blocks must lie within the
/// container, and a sealed one must open.
pub open spec fn record_at<C: Crypto>(
    disk: Seq<u8>,
    addr: u64,
    sealed: bool,
    key: [u8; 32],
) -> Result<Seq<u8>, Error> {
    if addr + 4 > disk.len() {
        Err(Error::Integrity)
    } else {
        let n = noted_len(disk, addr as int);
        let at = addr + front_len(sealed);
        if addr + footprint(front_len(sealed) + n) > disk.len() {
            Err(Error::Integrity)
        } else if !sealed {
            Ok(disk.subrange(at, at + n))
        } else {
            match C::meta_opened(
                key,
                disk.subrange(addr + 4, addr + 16),
                record_aad(addr),
                disk.subrange(at, at + n),
            ) {
                None => Err(Error::Crypto),
                Some(p) => Ok(p),
            }
        }
    }
}

fn record_context(addr: u64) -> (r: Vec<u8>)
    ensures
        r@ == record_aad(addr),
{
    let mut r: Vec<u8> = Vec::new();
    push_le(&mut r, addr, 8);
    r.push(1);
    proof {
        assert(r@ =~= record_aad(addr));
    }
    r
}

/// The blocks that hold a record at `addr`.
pub fn encode_record_blocks<C: Crypto>(
    key: &[u8; 32],
    sealed: bool,
    addr: u64,
    nonce: &[u8; 12],
    encoded: &[u8],
) -> (out: Vec<u8>)
    requires
        encoded@.len() + 4128 <= u32::MAX,
    ensures
        out@ == record_blocks::<C>(*key, sealed, addr, nonce@, encoded@),
        out@.len() == footprint(front_len(sealed) + encoded@.len() + if sealed {
            16nat
        } else {
            0
        }),
{
    let mut out: Vec<u8> = Vec::new();
    if sealed {
        let aad: Vec<u8> = record_context(addr);
        proof {
            C::lemma_meta_open_of_seal(*key, nonce@, aad@, encoded@);
        }
        let ct: Vec<u8> = C::seal_meta(key, nonce.as_slice(), aad.as_slice(), encoded);
        push_le(&mut out, ct.len() as u64, 4);
        push_all(&mut out, nonce.as_slice());
        push_all(&mut out, ct.as_slice());
        proof {
            lemma_le_len(ct@.len(), 4);
        }
    } else {
        push_le(&mut out, encoded.len() as u64, 4);
        push_all(&mut out, encoded);
        proof {
            lemma_le_len(encoded@.len(), 4);
        }
    }
    proof {
        assert(out@ =~= record_run::<C>(*key, sealed, addr, nonce@, encoded@));
    }
    let n: usize = out.len();
    let whole: u64 = round_up_block(n as u64);
    push_zeros(&mut out, whole as usize - n);
    out
}

/// How many bytes the record at `addr` takes, before filling up. Nothing is
/// opened.
pub fn unit_record_raw_size(disk: &[u8], addr: u64, sealed: bool) -> (r: Result<u64, Error>)
    ensures
        if addr + 4 > disk@.len() {
            r == Err::<u64, Error>(Error::Integrity)
        } else {
            r is Ok && r->Ok_0 == front_len(sealed) + noted_len(disk@, addr as int)
        },
{
    let n: usize = disk.len();
    if n < 4 || addr > (n - 4) as u64 {
        return Err(Error::Integrity);
    }
    let len: u64 = read_le(disk, addr as usize, 4);
    proof {
        lemma_pow256_values();
        crate::bytes::lemma_le_of_un_le(disk@.subrange(addr as int, addr + 4));
    }
    Ok(
        if sealed {
            16 + len
        } else {
            4 + len
        },
    )
}

/// Reads the encoded record at `addr` of a container.
pub fn decode_record_blocks<C: Crypto>(disk: &[u8], addr: u64, sealed: bool, key: &[u8; 32]) -> (r:
    Result<Vec<u8>, Error>)
    ensures
        match record_at::<C>(disk@, addr, sealed, *key) {
            Err(e) => r == Err::<Vec<u8>, Error>(e),
            Ok(p) => r is Ok && r->Ok_0@ == p,
        },
{
    let raw: u64 = match unit_record_raw_size(disk, addr, sealed) {
        Err(e) => {
            return Err(e);
        },
        Ok(x) => x,
    };
    proof {
        lemma_pow256_values();
        crate::bytes::lemma_le_of_un_le(disk@.subrange(addr as int, addr + 4));
    }
    let room: u64 = disk.len() as u64 - addr;
    if round_up_block(raw) > room {
        return Err(Error::Integrity);
    }
    let from: usize = addr as usize;
    if !sealed {
        return Ok(copy_range(disk, from + 4, from + raw as usize));
    }
    let nonce: Vec<u8> = copy_range(disk, from + 4, from + 16);
    let ct: Vec<u8> = copy_range(disk, from + 16, from + raw as usize);
    let aad: Vec<u8> = record_context(addr);
    match C::open_meta(key, nonce.as_slice(), aad.as_slice(), ct.as_slice()) {
        None => Err(Error::Crypto),
        Some(p) => Ok(p),
    }
}

/// A record that was put into a container is read back from there with the key
/// that it was sealed under.
pub proof fn law_record_blocks_read_back<C: Crypto>(
    front: Seq<u8>,
    behind: Seq<u8>,
    key: [u8; 32],
    sealed: bool,
    nonce: Seq<u8>,
    encoded: Seq<u8>,
)
    requires
        front.len() <= u64::MAX,
        nonce.len() == 12,
        encoded.len() + 16 <= u32::MAX,
    ensures
        record_at::<C>(
            front + record_blocks::<C>(key, sealed, front.len() as u64, nonce, encoded) + behind,
            front.len() as u64,
            sealed,
            key,
        ) == Ok::<Seq<u8>, Error>(encoded),
{
    let addr = front.len() as u64;
    let blocks = record_blocks::<C>(key, sealed, addr, nonce, encoded);
    let disk = front + blocks + behind;
    let at = front.len() as int;
    C::lemma_meta_open_of_seal(key, nonce, record_aad(addr), encoded);
    let n = if sealed {
        encoded.len() + 16
    } else {
        encoded.len()
    };
    lemma_le_len(n, 4);
    lemma_pow256_values();
    lemma_un_le_of_le(n, 4);
    assert(disk.subrange(at, at + 4) =~= le(n, 4));
    if sealed {
        let ct = C::meta_sealed(key, nonce, record_aad(addr), encoded);
        assert(disk.subrange(at + 4, at + 16) =~= nonce);
        assert(disk.subrange(at + 16, at + 16 + n) =~= ct);
    } else {
        assert(disk.subrange(at + 4, at + 4 + n) =~= encoded);
    }
}

} // verus!
