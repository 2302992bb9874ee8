//! The calls into other crates.
use vstd::prelude::*;
use vstd::utf8::{decode_utf8, valid_utf8};

verus! {

/// One bit of the division that CRC-32 is the remainder of, lowest bit first.
pub open spec fn crc_shift(c: u32) -> u32 {
    if c & 1 == 1 {
        (c >> 1) ^ 0xEDB8_8320
    } else {
        c >> 1
    }
}

pub open spec fn crc_shifts(c: u32, n: nat) -> u32
    decreases n,
{
    if n == 0 {
        c
    } else {
        crc_shift(crc_shifts(c, (n - 1) as nat))
    }
}

/// The remainder after `data`, all bits set before the first byte.
pub open spec fn crc_after(data: Seq<u8>) -> u32
    decreases data.len(),
{
    if data.len() == 0 {
        0xFFFF_FFFF
    } else {
        crc_shifts(crc_after(data.drop_last()) ^ data.last() as u32, 8)
    }
}

/// The CRC-32 checksum of a byte string: the IEEE polynomial, bits reflected,
/// the remainder inverted.
pub open spec fn crc32(data: Seq<u8>) -> u32 {
    crc_after(data) ^ 0xFFFF_FFFF
}

/// Calls `crc32fast::hash`. Claimed: the result is the CRC-32 checksum of the
/// bytes, by the IEEE polynomial.
#[verifier::external_body]
pub(crate) fn crc32_hash(data: &[u8]) -> (r: u32)
    ensures
        r == crc32(data@),
{
    crc32fast::hash(data)
}

/// Calls `getrandom::fill` on a fresh buffer of `n` bytes. Claimed: where the
/// call succeeds, `n` bytes come back; nothing is said of their values, and
/// the system may refuse.
#[verifier::external_body]
pub(crate) fn random_bytes(n: usize) -> (r: Option<Vec<u8>>)
    requires
        n <= 4096,
    ensures
        r is Some ==> r->Some_0@.len() == n,
{
    let mut out: Vec<u8> = vec![0u8; n];
    match getrandom::fill(&mut out) {
        Ok(()) => Some(out),
        Err(_) => None,
    }
}

/// Calls `String::from_utf8`. Claimed: it accepts exactly the valid UTF-8 byte
/// strings and gives the characters that they encode.
#[verifier::external_body]
pub(crate) fn string_from_utf8(bytes: Vec<u8>) -> (r: Option<String>)
    ensures
        r is Some <==> valid_utf8(bytes@),
        r is Some ==> r->Some_0@ == decode_utf8(bytes@),
{
    String::from_utf8(bytes).ok()
}

} // verus!
