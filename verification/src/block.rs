//! Fragment geometry, version dots and fragment bitmaps.
use vstd::arithmetic::power2::{lemma_pow2_pos, lemma_pow2_unfold, pow2};
use vstd::bits::{lemma_u64_pow2_no_overflow, lemma_u64_shl_is_mul};
use vstd::prelude::*;

use crate::vector::{vv_get, VersionVector};

verus! {

/// The version of a fragment: a packed dot.
pub type BlockVersion = u64;

/// The unit of space on the backend.
pub const BASE_BLOCK: u64 = 4096;

/// The smallest fragment-size exponent.
pub const FRAGSIZE_FLOOR_EXP: u8 = 12;

/// The largest fragment-size exponent.
pub const MAX_FRAGSIZE_EXP: u8 = 22;

/// How many fragments a stream has before its fragments double in size.
pub const FRAG_TARGET: u64 = 4096;

/// The byte length of a full fragment.
pub open spec fn frag_bytes(exp: u8) -> nat {
    pow2(exp as nat)
}

/// `n` divided by `d`, rounded up.
pub open spec fn ceil_div(n: nat, d: nat) -> nat {
    ((n + d - 1) / d as int) as nat
}

/// How many fragments hold `size` bytes.
pub open spec fn frags_for(size: nat, exp: u8) -> nat {
    ceil_div(size, frag_bytes(exp))
}

/// The fragments of `size` bytes can be numbered.
pub open spec fn few_frags(size: nat, exp: u8) -> bool {
    size <= u32::MAX || frags_for(size, exp) <= u32::MAX
}

/// How many bytes of `size` fall into its last fragment.
pub open spec fn last_len(size: nat, exp: u8) -> nat {
    if size == 0 {
        0
    } else {
        (size - (frags_for(size, exp) - 1) * frag_bytes(exp)) as nat
    }
}

/// Space on the backend for `n` bytes: whole blocks, at least one.
pub open spec fn footprint(n: nat) -> nat {
    if n == 0 {
        4096
    } else {
        ((n + 4095) / 4096 * 4096) as nat
    }
}

/// Facts about the size of a fragment.
pub proof fn lemma_frag_bytes(exp: u8)
    requires
        exp <= 31,
    ensures
        1 <= frag_bytes(exp) <= 0x8000_0000,
        exp >= 12 ==> frag_bytes(exp) >= 4096,
        frag_bytes(0) == 1,
        frag_bytes(12) == 4096,
    decreases exp,
{
    lemma_pow2_pos(exp as nat);
    vstd::arithmetic::power2::lemma2_to64();
    if exp < 31 {
        vstd::arithmetic::power2::lemma_pow2_strictly_increases(exp as nat, 31);
    }
    if exp > 12 {
        vstd::arithmetic::power2::lemma_pow2_strictly_increases(12, exp as nat);
    }
}

/// The byte length of a full fragment.
pub fn fragsize(exp: u8) -> (fs: u64)
    requires
        exp <= 31,
    ensures
        fs == frag_bytes(exp),
        1 <= fs <= 0x8000_0000,
{
    proof {
        lemma_frag_bytes(exp);
        lemma_u64_pow2_no_overflow(exp as nat);
        lemma_u64_shl_is_mul(1, exp as u64);
    }
    1u64 << (exp as u64)
}

/// How many fragments hold `size` bytes.
pub fn frag_count(size: u64, exp: u8) -> (n: u64)
    requires
        exp <= 31,
        size <= 0x7fff_ffff_ffff_ffff,
    ensures
        n == frags_for(size as nat, exp),
{
    let fs: u64 = fragsize(exp);
    (size + (fs - 1)) / fs
}

/// How `size` bytes split into fragments.
pub proof fn lemma_frags(size: nat, exp: u8)
    requires
        exp <= 31,
    ensures
        size == 0 <==> frags_for(size, exp) == 0,
        size > 0 ==> (frags_for(size, exp) - 1) * frag_bytes(exp) < size,
        size <= frags_for(size, exp) * frag_bytes(exp),
        size > 0 ==> 1 <= last_len(size, exp) <= frag_bytes(exp),
        size == 0 ==> last_len(size, exp) == 0,
        size > 0 ==> frags_for(size, exp) - 1 == (size - 1) / frag_bytes(exp) as int,
        frags_for(size, exp) <= size,
{
    lemma_frag_bytes(exp);
    let fs = frag_bytes(exp);
    let n = frags_for(size, exp);
    assert(fs * n <= size + fs - 1 && size + fs - 1 < fs * n + fs) by (nonlinear_arith)
        requires
            n == (size + fs - 1) / fs as int,
            fs >= 1,
    ;
    if size == 0 {
        assert(n == 0) by (nonlinear_arith)
            requires
                fs * n <= fs - 1,
                fs >= 1,
        ;
    } else {
        assert(n >= 1) by (nonlinear_arith)
            requires
                size + fs - 1 < fs * n + fs,
                size >= 1,
                fs >= 1,
        ;
        assert((n - 1) * fs < size <= n * fs) by (nonlinear_arith)
            requires
                fs * n <= size + fs - 1,
                size + fs - 1 < fs * n + fs,
        ;
        assert(size - (n - 1) * fs <= fs) by (nonlinear_arith)
            requires
                size <= n * fs,
        ;
        assert((size - 1) / fs as int == n - 1) by (nonlinear_arith)
            requires
                (n - 1) * fs < size <= n * fs,
                fs >= 1,
        ;
        assert(n - 1 <= (n - 1) * fs) by (nonlinear_arith)
            requires
                n >= 1,
                fs >= 1,
        ;
    }
}

/// The bytes of `size` that fall into its last fragment.
pub fn last_frag_length(size: u64, exp: u8) -> (r: u32)
    requires
        exp <= 31,
        size <= 0x7fff_ffff_ffff_ffff,
    ensures
        r == last_len(size as nat, exp),
{
    if size == 0 {
        return 0;
    }
    proof {
        lemma_frags(size as nat, exp);
        lemma_frag_bytes(exp);
    }
    let fs: u64 = fragsize(exp);
    let n: u64 = frag_count(size, exp);
    let ghost gfs = fs as int;
    let ghost gn = n as int;
    assert((gn - 1) * gfs < size);
    let done: u64 = (n - 1) * fs;
    (size - done) as u32
}

/// The fragment that holds byte `offset`.
pub fn frag_index(offset: u64, exp: u8) -> (r: u64)
    requires
        exp <= 31,
    ensures
        r == offset as nat / frag_bytes(exp),
{
    offset / fragsize(exp)
}

/// The exponent for a stream of `size` bytes: the smallest between `floor` and
/// `max` that needs at most [`FRAG_TARGET`] fragments, else `max`.
pub open spec fn exp_for(size: nat, floor: u8, max: u8) -> u8
    decreases max - floor,
{
    if floor >= max || size <= 4096 * frag_bytes(floor) {
        floor
    } else {
        exp_for(size, (floor + 1) as u8, max)
    }
}

pub fn derive_fragsize_exp(size: u64, floor: u8, max: u8) -> (r: u8)
    requires
        floor <= max <= 31,
    ensures
        r == exp_for(size as nat, floor, max),
        floor <= r <= max,
{
    let mut e: u8 = floor;
    while e < max && size > FRAG_TARGET * fragsize(e)
        invariant
            floor <= e <= max <= 31,
            exp_for(size as nat, e, max) == exp_for(size as nat, floor, max),
        decreases max - e,
    {
        e = e + 1;
    }
    e
}

pub proof fn lemma_exp_range(size: nat, floor: u8, max: u8)
    requires
        floor <= max,
    ensures
        floor <= exp_for(size, floor, max) <= max,
    decreases max - floor,
{
    if !(floor >= max || size <= 4096 * frag_bytes(floor)) {
        lemma_exp_range(size, (floor + 1) as u8, max);
    }
}

/// A larger stream never has smaller fragments.
pub proof fn law_fragsize_monotone(a: nat, b: nat, floor: u8, max: u8)
    requires
        a <= b,
        floor <= max,
    ensures
        exp_for(a, floor, max) <= exp_for(b, floor, max),
    decreases max - floor,
{
    lemma_exp_range(b, floor, max);
    if !(floor >= max || a <= 4096 * frag_bytes(floor)) {
        law_fragsize_monotone(a, b, (floor + 1) as u8, max);
    }
}

/// Fragments are as small as they may be without there being more than
/// [`FRAG_TARGET`] of them, between the bounds.
pub proof fn law_fragsize_is_the_smallest_that_will_do(size: nat, floor: u8, max: u8)
    requires
        floor <= max <= 31,
    ensures
        ({
            let e = exp_for(size, floor, max);
            &&& floor <= e <= max
            &&& e == max || size <= 4096 * pow2(e as nat)
            &&& forall|d: u8| floor <= d < e ==> size > 4096 * #[trigger] pow2(d as nat)
        }),
    decreases max - floor,
{
    if !(floor >= max || size <= 4096 * frag_bytes(floor)) {
        law_fragsize_is_the_smallest_that_will_do(size, (floor + 1) as u8, max);
    }
}

/// Fragments but the last are full, and all of them together are the content.
pub proof fn law_fragments_add_up(size: nat, exp: u8)
    requires
        exp <= 31,
        size > 0,
    ensures
        frags_for(size, exp) >= 1,
        (frags_for(size, exp) - 1) * pow2(exp as nat) + last_len(size, exp) == size,
        1 <= last_len(size, exp) <= pow2(exp as nat),
{
    lemma_frags(size, exp);
}

/// The room for some bytes is whole blocks, at least one, and no block more than
/// needed.
pub proof fn law_room_is_whole_blocks(n: nat)
    ensures
        footprint(n) % 4096 == 0,
        footprint(n) >= 4096,
        n <= footprint(n),
        n > 0 ==> footprint(n) < n + 4096,
{
}

/// Rounds up to whole blocks; nothing still takes one block.
pub fn round_up_block(n: u64) -> (r: u64)
    requires
        n <= u64::MAX - 4095,
    ensures
        r == footprint(n as nat),
{
    if n == 0 {
        return BASE_BLOCK;
    }
    (n + (BASE_BLOCK - 1)) / BASE_BLOCK * BASE_BLOCK
}

/// The dot of write number `sync_id` of `host`: the number in the upper 48
/// bits (its higher bits are lost), the host in the lower 16.
pub open spec fn dot(host: u16, sync_id: u64) -> u64 {
    ((sync_id % 0x1_0000_0000_0000) * 0x1_0000 + host) as u64
}

/// The host part of a dot.
pub open spec fn dot_host(d: u64) -> u16 {
    (d % 0x1_0000) as u16
}

/// The counter part of a dot.
pub open spec fn dot_sync(d: u64) -> u64 {
    d / 0x1_0000
}

/// The vector has counted the write that the dot names.
pub open spec fn dot_seen(vv: Seq<(u16, u64)>, d: u64) -> bool {
    vv_get(vv, dot_host(d)) >= dot_sync(d)
}

pub fn pack_dot(host: u16, sync_id: u64) -> (d: u64)
    ensures
        d == dot(host, sync_id),
{
    (sync_id % 0x1_0000_0000_0000) * 0x1_0000 + host as u64
}

pub fn has_seen_dot(vv: &VersionVector, d: u64) -> (r: bool)
    ensures
        r == dot_seen(vv@, d),
{
    vv.get((d % 0x1_0000) as u16) >= d / 0x1_0000
}

/// A dot names its write.
pub proof fn law_dot_parts(host: u16, sync_id: u64)
    requires
        sync_id < 0x1_0000_0000_0000,
    ensures
        dot_host(dot(host, sync_id)) == host,
        dot_sync(dot(host, sync_id)) == sync_id,
{
}

/// Later writes of a host have larger dots.
pub proof fn law_dots_ascend(host: u16, a: u64, b: u64)
    requires
        a < b < 0x1_0000_0000_0000,
    ensures
        dot(host, a) < dot(host, b),
{
}

// ── Bitmaps ─────────────────────────────────────────────────────────────────

/// Whether bit `i` is set; bits beyond the bytes are clear.
pub open spec fn bit_set(bits: Seq<u8>, i: int) -> bool {
    0 <= i && i / 8 < bits.len() && (bits[i / 8] >> ((i % 8) as u8)) & 1u8 == 1u8
}

pub fn bitmap_get_bit(bits: &[u8], i: usize) -> (r: bool)
    ensures
        r == bit_set(bits@, i as int),
{
    let byte: usize = i / 8;
    if byte >= bits.len() {
        return false;
    }
    (bits[byte] >> ((i % 8) as u8)) & 1u8 == 1u8
}

/// Clears bit `i` and no other.
pub fn bitmap_clear_bit(bits: &mut Vec<u8>, i: usize)
    ensures
        final(bits)@.len() == old(bits)@.len(),
        forall|k: int| #[trigger]
            bit_set(final(bits)@, k) == (bit_set(old(bits)@, k) && k != i),
{
    let byte: usize = i / 8;
    if byte >= bits.len() {
        return;
    }
    let b: u8 = bits[byte];
    let m: u8 = (i % 8) as u8;
    let c: u8 = b & !(1u8 << m);
    bits.set(byte, c);
    proof {
        assert forall|k: int| #[trigger]
            bit_set(bits@, k) == (bit_set(old(bits)@, k) && k != i) by {
            if 0 <= k && k / 8 == byte {
                let j = (k % 8) as u8;
                assert(j < 8 && m < 8 && c == b & !(1u8 << m) ==> ((c >> j) & 1u8 == 1u8) == ((b
                    >> j) & 1u8 == 1u8 && j != m)) by (bit_vector);
            }
        }
    }
}

/// Sets bit `i`, and no other, growing the bytes as far as needed.
pub fn bitmap_set_bit(bits: &mut Vec<u8>, i: usize)
    ensures
        forall|k: int| #[trigger]
            bit_set(final(bits)@, k) == (bit_set(old(bits)@, k) || k == i),
        final(bits)@.len() == if i / 8 < old(bits)@.len() {
            old(bits)@.len() as int
        } else {
            i / 8 + 1
        },
{
    let byte: usize = i / 8;
    while bits.len() <= byte
        invariant
            byte == i / 8,
            forall|k: int| #[trigger] bit_set(bits@, k) == bit_set(old(bits)@, k),
            bits.len() == old(bits).len() || old(bits).len() < bits.len() <= byte + 1,
        decreases byte + 1 - bits.len(),
    {
        let ghost before = bits@;
        bits.push(0);
        proof {
            assert forall|k: int| #[trigger] bit_set(bits@, k) == bit_set(before, k) by {
                let j = (k % 8) as u8;
                assert((0u8 >> j) & 1u8 != 1u8) by (bit_vector);
                if 0 <= k && k / 8 < before.len() {
                    assert(bits@[k / 8] == before[k / 8]);
                }
            }
        }
    }
    let ghost grown = bits@;
    let b: u8 = bits[byte];
    let m: u8 = (i % 8) as u8;
    let c: u8 = b | (1u8 << m);
    bits.set(byte, c);
    proof {
        assert forall|k: int| #[trigger]
            bit_set(bits@, k) == (bit_set(grown, k) || k == i) by {
            if 0 <= k && k / 8 == byte {
                let j = (k % 8) as u8;
                assert(j < 8 && m < 8 && c == b | (1u8 << m) ==> ((c >> j) & 1u8 == 1u8) == ((b
                    >> j) & 1u8 == 1u8 || j == m)) by (bit_vector);
            }
        }
    }
}

} // verus!
