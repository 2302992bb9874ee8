//! Little-endian integers and byte-string helpers.
use vstd::prelude::*;

verus! {

/// `x` as `n` little-endian bytes (the low `n` bytes of `x`).
pub open spec fn le(x: nat, n: nat) -> Seq<u8>
    decreases n,
{
    if n == 0 {
        Seq::empty()
    } else {
        seq![(x % 256) as u8] + le(x / 256, (n - 1) as nat)
    }
}

/// The number whose little-endian bytes are `s`.
pub open spec fn un_le(s: Seq<u8>) -> nat
    decreases s.len(),
{
    if s.len() == 0 {
        0
    } else {
        (s[0] as nat + 256 * un_le(s.subrange(1, s.len() as int))) as nat
    }
}

/// `256` to the power `n`.
pub open spec fn pow256(n: nat) -> nat
    decreases n,
{
    if n == 0 {
        1
    } else {
        256 * pow256((n - 1) as nat)
    }
}

pub proof fn lemma_le_len(x: nat, n: nat)
    ensures
        le(x, n).len() == n,
    decreases n,
{
    if n > 0 {
        lemma_le_len(x / 256, (n - 1) as nat);
    }
}

/// Reading back the bytes of a number that fits gives the number.
pub proof fn lemma_un_le_of_le(x: nat, n: nat)
    requires
        x < pow256(n),
    ensures
        un_le(le(x, n)) == x,
    decreases n,
{
    if n > 0 {
        let m = (n - 1) as nat;
        assert(x / 256 < pow256(m)) by (nonlinear_arith)
            requires
                x < 256 * pow256(m),
        ;
        lemma_un_le_of_le(x / 256, m);
        lemma_le_len(x / 256, m);
        let s = le(x, n);
        assert(s.subrange(1, s.len() as int) =~= le(x / 256, m));
    }
}

/// The bytes of the number that `s` stands for are `s`.
pub proof fn lemma_le_of_un_le(s: Seq<u8>)
    ensures
        le(un_le(s), s.len()) == s,
        un_le(s) < pow256(s.len()),
    decreases s.len(),
{
    if s.len() > 0 {
        let t = s.subrange(1, s.len() as int);
        lemma_le_of_un_le(t);
        let x = un_le(s);
        assert(x % 256 == s[0] as nat && x / 256 == un_le(t)) by (nonlinear_arith)
            requires
                x == s[0] as nat + 256 * un_le(t),
                s[0] as nat <= 255,
        ;
        assert(le(x, s.len()) =~= s);
        assert(x < 256 * pow256(t.len())) by (nonlinear_arith)
            requires
                x == s[0] as nat + 256 * un_le(t),
                s[0] as nat <= 255,
                un_le(t) < pow256(t.len()),
        ;
    } else {
        assert(le(0, 0) =~= s);
    }
}

pub proof fn lemma_pow256_values()
    ensures
        pow256(1) == 0x100,
        pow256(2) == 0x1_0000,
        pow256(4) == 0x1_0000_0000,
        pow256(8) == 0x1_0000_0000_0000_0000,
{
    reveal_with_fuel(pow256, 9);
}

/// Appends the low `n` bytes of `x`, least significant first.
pub fn push_le(out: &mut Vec<u8>, x: u64, n: usize)
    ensures
        final(out)@ == old(out)@ + le(x as nat, n as nat),
{
    let mut i: usize = 0;
    let mut rest: u64 = x;
    proof {
        assert(out@ + le(x as nat, n as nat) =~= old(out)@ + le(x as nat, n as nat));
    }
    while i < n
        invariant
            i <= n,
            out@ + le(rest as nat, (n - i) as nat) == old(out)@ + le(x as nat, n as nat),
        decreases n - i,
    {
        let ghost before = out@;
        let b: u8 = (rest % 256) as u8;
        out.push(b);
        proof {
            let m = (n - i - 1) as nat;
            assert(out@ + le((rest / 256) as nat, m) =~= before + le(rest as nat, (n - i) as nat));
        }
        rest = rest / 256;
        i = i + 1;
    }
    proof {
        assert(out@ =~= old(out)@ + le(x as nat, n as nat));
    }
}

/// Reads the `n`-byte little-endian integer at `off`.
pub fn read_le(buf: &[u8], off: usize, n: usize) -> (x: u64)
    requires
        off + n <= buf.len(),
        n <= 8,
    ensures
        x as nat == un_le(buf@.subrange(off as int, off + n)),
{
    let mut i: usize = n;
    let mut x: u64 = 0;
    proof {
        lemma_pow256_values();
        assert(buf@.subrange(off + n, off + n) =~= Seq::<u8>::empty());
    }
    while i > 0
        invariant
            i <= n <= 8,
            off + n <= buf.len(),
            x as nat == un_le(buf@.subrange(off + i, off + n)),
            x as nat <= 0xffff_ffff_ffff_ffff,
        decreases i,
    {
        let ghost s = buf@.subrange(off + i - 1, off + n);
        proof {
            assert(s.subrange(1, s.len() as int) =~= buf@.subrange(off + i, off + n));
            lemma_le_of_un_le(s);
            lemma_pow256_mono(s.len(), 8);
            lemma_pow256_values();
        }
        x = buf[off + i - 1] as u64 + 256 * x;
        i = i - 1;
    }
    x
}

pub proof fn lemma_pow256_mono(a: nat, b: nat)
    requires
        a <= b,
    ensures
        pow256(a) <= pow256(b),
    decreases b,
{
    if a < b {
        lemma_pow256_mono(a, (b - 1) as nat);
    }
}

/// A copy of `buf[from..to]`.
pub fn copy_range(buf: &[u8], from: usize, to: usize) -> (out: Vec<u8>)
    requires
        from <= to <= buf.len(),
    ensures
        out@ == buf@.subrange(from as int, to as int),
{
    let mut out: Vec<u8> = Vec::new();
    push_range(&mut out, buf, from, to);
    proof {
        assert(out@ =~= buf@.subrange(from as int, to as int));
    }
    out
}

/// Appends `buf[from..to]`.
pub fn push_range(out: &mut Vec<u8>, buf: &[u8], from: usize, to: usize)
    requires
        from <= to <= buf.len(),
    ensures
        final(out)@ == old(out)@ + buf@.subrange(from as int, to as int),
{
    let mut i: usize = from;
    while i < to
        invariant
            from <= i <= to <= buf.len(),
            out@ == old(out)@ + buf@.subrange(from as int, i as int),
        decreases to - i,
    {
        out.push(buf[i]);
        i = i + 1;
        proof {
            assert(out@ =~= old(out)@ + buf@.subrange(from as int, i as int));
        }
    }
}

/// Appends all of `buf`.
pub fn push_all(out: &mut Vec<u8>, buf: &[u8])
    ensures
        final(out)@ == old(out)@ + buf@,
{
    push_range(out, buf, 0, buf.len());
    proof {
        assert(buf@.subrange(0, buf@.len() as int) =~= buf@);
    }
}

/// Appends `n` zero bytes.
pub fn push_zeros(out: &mut Vec<u8>, n: usize)
    ensures
        final(out)@ == old(out)@ + zeros(n as nat),
{
    let mut i: usize = 0;
    proof {
        assert(out@ =~= old(out)@ + zeros(0));
    }
    while i < n
        invariant
            i <= n,
            out@ == old(out)@ + zeros(i as nat),
        decreases n - i,
    {
        out.push(0);
        i = i + 1;
        proof {
            assert(out@ =~= old(out)@ + zeros(i as nat));
        }
    }
}

/// `n` zero bytes.
pub open spec fn zeros(n: nat) -> Seq<u8> {
    Seq::new(n, |i: int| 0u8)
}

/// `s` cut or zero-extended to `n` bytes.
pub open spec fn resized(s: Seq<u8>, n: nat) -> Seq<u8> {
    Seq::new(n, |i: int| if i < s.len() { s[i] } else { 0u8 })
}

/// Whether the two byte strings are the same.
pub fn same_bytes(a: &[u8], b: &[u8]) -> (r: bool)
    ensures
        r == (a@ == b@),
{
    if a.len() != b.len() {
        return false;
    }
    let mut i: usize = 0;
    while i < a.len()
        invariant
            i <= a.len(),
            a.len() == b.len(),
            forall|k: int| 0 <= k < i ==> a@[k] == b@[k],
        decreases a.len() - i,
    {
        if a[i] != b[i] {
            return false;
        }
        i = i + 1;
    }
    proof {
        assert(a@ =~= b@);
    }
    true
}

/// The array with these 16 bytes.
pub open spec fn array16(s: Seq<u8>) -> [u8; 16] {
    choose|a: [u8; 16]| #[trigger] a@ == s
}

/// The array with these 32 bytes.
pub open spec fn array32(s: Seq<u8>) -> [u8; 32] {
    choose|a: [u8; 32]| #[trigger] a@ == s
}

/// The array with these 64 bytes.
pub open spec fn array64(s: Seq<u8>) -> [u8; 64] {
    choose|a: [u8; 64]| #[trigger] a@ == s
}

/// The 16 bytes at `off`.
pub fn take16(buf: &[u8], off: usize) -> (r: [u8; 16])
    requires
        off + 16 <= buf.len(),
    ensures
        r@ == buf@.subrange(off as int, off + 16),
        r == array16(buf@.subrange(off as int, off + 16)),
{
    let mut r: [u8; 16] = [0u8; 16];
    let mut i: usize = 0;
    while i < 16
        invariant
            i <= 16,
            off + 16 <= buf.len(),
            forall|k: int| 0 <= k < i ==> r@[k] == buf@[off + k],
        decreases 16 - i,
    {
        r[i] = buf[off + i];
        i = i + 1;
    }
    proof {
        assert(r@ =~= buf@.subrange(off as int, off + 16));
        assert(array16(r@)@ == r@);
        assert(array16(r@) =~= r);
    }
    r
}

/// The 32 bytes at `off`.
pub fn take32(buf: &[u8], off: usize) -> (r: [u8; 32])
    requires
        off + 32 <= buf.len(),
    ensures
        r@ == buf@.subrange(off as int, off + 32),
        r == array32(buf@.subrange(off as int, off + 32)),
{
    let mut r: [u8; 32] = [0u8; 32];
    let mut i: usize = 0;
    while i < 32
        invariant
            i <= 32,
            off + 32 <= buf.len(),
            forall|k: int| 0 <= k < i ==> r@[k] == buf@[off + k],
        decreases 32 - i,
    {
        r[i] = buf[off + i];
        i = i + 1;
    }
    proof {
        assert(r@ =~= buf@.subrange(off as int, off + 32));
        assert(array32(r@)@ == r@);
        assert(array32(r@) =~= r);
    }
    r
}

/// The 64 bytes at `off`.
pub fn take64(buf: &[u8], off: usize) -> (r: [u8; 64])
    requires
        off + 64 <= buf.len(),
    ensures
        r@ == buf@.subrange(off as int, off + 64),
        r == array64(buf@.subrange(off as int, off + 64)),
{
    let mut r: [u8; 64] = [0u8; 64];
    let mut i: usize = 0;
    while i < 64
        invariant
            i <= 64,
            off + 64 <= buf.len(),
            forall|k: int| 0 <= k < i ==> r@[k] == buf@[off + k],
        decreases 64 - i,
    {
        r[i] = buf[off + i];
        i = i + 1;
    }
    proof {
        assert(r@ =~= buf@.subrange(off as int, off + 64));
        assert(array64(r@)@ == r@);
        assert(array64(r@) =~= r);
    }
    r
}

/// Whether the two 16-byte values are the same.
pub fn same16(a: &[u8; 16], b: &[u8; 16]) -> (r: bool)
    ensures
        r == (*a == *b),
{
    let mut i: usize = 0;
    while i < 16
        invariant
            i <= 16,
            forall|k: int| 0 <= k < i ==> a@[k] == b@[k],
        decreases 16 - i,
    {
        if a[i] != b[i] {
            return false;
        }
        i = i + 1;
    }
    proof {
        assert(a@ =~= b@);
        assert(*a =~= *b);
    }
    true
}

/// Whether the two 32-byte values are the same.
pub fn same32(a: &[u8; 32], b: &[u8; 32]) -> (r: bool)
    ensures
        r == (*a == *b),
{
    let mut i: usize = 0;
    while i < 32
        invariant
            i <= 32,
            forall|k: int| 0 <= k < i ==> a@[k] == b@[k],
        decreases 32 - i,
    {
        if a[i] != b[i] {
            return false;
        }
        i = i + 1;
    }
    proof {
        assert(a@ =~= b@);
        assert(*a =~= *b);
    }
    true
}

} // verus!
