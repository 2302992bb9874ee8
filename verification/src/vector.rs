//! Version vectors and the peer registry.
use vstd::prelude::*;

use crate::bytes::{
    le, lemma_le_len, lemma_le_of_un_le, lemma_pow256_values, lemma_un_le_of_le, push_all, push_le,
    read_le, same32, take32, un_le,
};
use crate::error::Error;

verus! {

/// The number a host goes by inside one container.
pub type HostAlias = u16;

/// A causal clock: for every host alias the number of writes seen from it.
///
/// Only the non-zero counters are held, ordered by alias.
#[derive(Debug, PartialEq, Eq)]
pub struct VersionVector {
    entries: Vec<(HostAlias, u64)>,
}

/// Aliases strictly ascend and no counter is zero.
pub open spec fn vv_ordered(s: Seq<(u16, u64)>) -> bool {
    &&& forall|i: int, j: int| 0 <= i < j < s.len() ==> s[i].0 < s[j].0
    &&& forall|i: int| 0 <= i < s.len() ==> (#[trigger] s[i]).1 > 0
}

/// Whether alias `h` has an entry in `s`.
pub open spec fn vv_has(s: Seq<(u16, u64)>, h: u16) -> bool {
    exists|i: int| 0 <= i < s.len() && (#[trigger] s[i]).0 == h
}

/// The counter of `h` in `s`; a host without an entry counts zero.
pub open spec fn vv_get(s: Seq<(u16, u64)>, h: u16) -> u64 {
    if vv_has(s, h) {
        s[choose|i: int| 0 <= i < s.len() && (#[trigger] s[i]).0 == h].1
    } else {
        0
    }
}

/// No counter of `a` is behind the same counter of `b`.
pub open spec fn vv_dominates(a: Seq<(u16, u64)>, b: Seq<(u16, u64)>) -> bool {
    forall|h: u16| #[trigger] vv_get(a, h) >= vv_get(b, h)
}

/// Neither side dominates the other.
pub open spec fn vv_concurrent(a: Seq<(u16, u64)>, b: Seq<(u16, u64)>) -> bool {
    !vv_dominates(a, b) && !vv_dominates(b, a)
}

/// `r` holds for every host the larger of the two counters.
pub open spec fn vv_is_join(a: Seq<(u16, u64)>, b: Seq<(u16, u64)>, r: Seq<(u16, u64)>) -> bool {
    &&& vv_ordered(r)
    &&& forall|h: u16| #[trigger] vv_get(r, h) == vv_max(vv_get(a, h), vv_get(b, h))
}

pub open spec fn vv_max(x: u64, y: u64) -> u64 {
    if x >= y {
        x
    } else {
        y
    }
}

/// `r` is `a` with the counter of `h` raised by one.
pub open spec fn vv_is_bump(a: Seq<(u16, u64)>, h: u16, r: Seq<(u16, u64)>) -> bool {
    &&& vv_ordered(r)
    &&& forall|k: u16| #[trigger]
        vv_get(r, k) == if k == h {
            vv_get(a, h) + 1
        } else {
            vv_get(a, k) as int
        }
}

/// The entries, ten bytes each: alias, then counter, little-endian.
pub open spec fn vv_body(s: Seq<(u16, u64)>) -> Seq<u8>
    decreases s.len(),
{
    if s.len() == 0 {
        Seq::empty()
    } else {
        vv_body(s.drop_last()) + le(s.last().0 as nat, 2) + le(s.last().1 as nat, 8)
    }
}

/// The byte form: the entry count in two bytes (its low sixteen bits), then
/// the entries.
pub open spec fn vv_bytes(s: Seq<(u16, u64)>) -> Seq<u8> {
    le(s.len(), 2) + vv_body(s)
}

/// What the `i`th ten-byte entry of a byte form stands for.
pub open spec fn vv_entry_at(buf: Seq<u8>, i: int) -> (u16, u64) {
    (
        un_le(buf.subrange(2 + i * 10, 4 + i * 10)) as u16,
        un_le(buf.subrange(4 + i * 10, 12 + i * 10)) as u64,
    )
}

/// The entries that a byte form of the right length stands for.
pub open spec fn vv_entries_of(buf: Seq<u8>) -> Seq<(u16, u64)> {
    Seq::new(un_le(buf.subrange(0, 2)), |i: int| vv_entry_at(buf, i))
}

/// `buf` is the byte form of some version vector.
pub open spec fn vv_well_formed(buf: Seq<u8>) -> bool {
    &&& buf.len() >= 2
    &&& buf.len() == 2 + un_le(buf.subrange(0, 2)) * 10
    &&& vv_ordered(vv_entries_of(buf))
}

pub proof fn lemma_vv_get_at(s: Seq<(u16, u64)>, i: int)
    requires
        vv_ordered(s),
        0 <= i < s.len(),
    ensures
        vv_get(s, s[i].0) == s[i].1,
        vv_has(s, s[i].0),
{
    let h = s[i].0;
    assert(vv_has(s, h));
    let j = choose|j: int| 0 <= j < s.len() && (#[trigger] s[j]).0 == h;
    if j < i {
        assert(s[j].0 < s[i].0);
    }
    if i < j {
        assert(s[i].0 < s[j].0);
    }
}

/// A vector is determined by its counters.
pub proof fn lemma_vv_canonical(a: Seq<(u16, u64)>, b: Seq<(u16, u64)>)
    requires
        vv_ordered(a),
        vv_ordered(b),
        forall|h: u16| #[trigger] vv_get(a, h) == vv_get(b, h),
    ensures
        a == b,
    decreases a.len(),
{
    if a.len() == 0 {
        if b.len() > 0 {
            lemma_vv_get_at(b, 0);
            assert(!vv_has(a, b[0].0));
            assert(vv_get(a, b[0].0) == vv_get(b, b[0].0));
        }
        assert(a =~= b);
    } else if b.len() == 0 {
        lemma_vv_get_at(a, 0);
        assert(!vv_has(b, a[0].0));
        assert(vv_get(a, a[0].0) == vv_get(b, a[0].0));
    } else {
        let la = a.last();
        let lb = b.last();
        lemma_vv_get_at(a, a.len() - 1);
        lemma_vv_get_at(b, b.len() - 1);
        assert(vv_get(a, la.0) == vv_get(b, la.0));
        assert(vv_get(a, lb.0) == vv_get(b, lb.0));
        assert(vv_has(b, la.0));
        assert(vv_has(a, lb.0));
        let i = choose|i: int| 0 <= i < b.len() && (#[trigger] b[i]).0 == la.0;
        let j = choose|j: int| 0 <= j < a.len() && (#[trigger] a[j]).0 == lb.0;
        if i < b.len() - 1 {
            assert(b[i].0 < lb.0);
            if j < a.len() - 1 {
                assert(a[j].0 < la.0);
            }
        }
        assert(la.0 == lb.0);
        assert(la == lb);
        let pa = a.drop_last();
        let pb = b.drop_last();
        assert(vv_ordered(pa));
        assert(vv_ordered(pb));
        assert forall|h: u16| #[trigger] vv_get(pa, h) == vv_get(pb, h) by {
            lemma_vv_drop_last(a, h);
            lemma_vv_drop_last(b, h);
            assert(vv_get(a, h) == vv_get(b, h));
        }
        lemma_vv_canonical(pa, pb);
        assert(a =~= pa.push(la));
        assert(b =~= pb.push(lb));
    }
}

proof fn lemma_vv_drop_last(s: Seq<(u16, u64)>, h: u16)
    requires
        vv_ordered(s),
        s.len() > 0,
    ensures
        vv_get(s.drop_last(), h) == if h == s.last().0 {
            0
        } else {
            vv_get(s, h)
        },
{
    let p = s.drop_last();
    assert(vv_ordered(p));
    if h == s.last().0 {
        if vv_has(p, h) {
            let i = choose|i: int| 0 <= i < p.len() && (#[trigger] p[i]).0 == h;
            assert(s[i].0 < s[s.len() - 1].0);
        }
    } else {
        if vv_has(s, h) {
            let i = choose|i: int| 0 <= i < s.len() && (#[trigger] s[i]).0 == h;
            assert(p[i].0 == h);
            lemma_vv_get_at(p, i);
            lemma_vv_get_at(s, i);
        } else if vv_has(p, h) {
            let i = choose|i: int| 0 <= i < p.len() && (#[trigger] p[i]).0 == h;
            assert(s[i].0 == h);
        }
    }
}

proof fn lemma_vv_push(s: Seq<(u16, u64)>, e: (u16, u64), h: u16)
    requires
        vv_ordered(s.push(e)),
    ensures
        vv_ordered(s),
        vv_get(s.push(e), h) == if h == e.0 {
            e.1
        } else {
            vv_get(s, h)
        },
{
    let t = s.push(e);
    assert(t.drop_last() =~= s);
    assert forall|i: int, j: int| 0 <= i < j < s.len() implies s[i].0 < s[j].0 by {
        assert(t[i].0 < t[j].0);
    }
    assert forall|i: int| 0 <= i < s.len() implies (#[trigger] s[i]).1 > 0 by {
        assert(t[i].1 > 0);
    }
    lemma_vv_drop_last(t, h);
    lemma_vv_get_at(t, s.len() as int);
}

proof fn lemma_vv_absent_above(s: Seq<(u16, u64)>, h: u16)
    requires
        forall|i: int| 0 <= i < s.len() ==> (#[trigger] s[i]).0 < h,
    ensures
        vv_get(s, h) == 0,
{
    if vv_has(s, h) {
        let i = choose|i: int| 0 <= i < s.len() && (#[trigger] s[i]).0 == h;
        assert(s[i].0 < h);
    }
}

proof fn lemma_vv_prefix(s: Seq<(u16, u64)>, n: int)
    requires
        vv_ordered(s),
        0 <= n <= s.len(),
    ensures
        vv_ordered(s.take(n)),
{
    let t = s.take(n);
    assert forall|i: int, j: int| 0 <= i < j < t.len() implies t[i].0 < t[j].0 by {
        assert(s[i].0 < s[j].0);
    }
    assert forall|i: int| 0 <= i < t.len() implies (#[trigger] t[i]).1 > 0 by {
        assert(s[i].1 > 0);
    }
}

/// Where entry `i` sits in the byte form.
proof fn lemma_vv_body_at(s: Seq<(u16, u64)>, i: int)
    requires
        0 <= i < s.len(),
    ensures
        vv_body(s).len() == s.len() * 10,
        vv_body(s).subrange(i * 10, i * 10 + 2) == le(s[i].0 as nat, 2),
        vv_body(s).subrange(i * 10 + 2, i * 10 + 10) == le(s[i].1 as nat, 8),
    decreases s.len(),
{
    let p = s.drop_last();
    lemma_vv_body_len(p);
    lemma_vv_body_len(s);
    lemma_le_len(s.last().0 as nat, 2);
    lemma_le_len(s.last().1 as nat, 8);
    if i < p.len() {
        lemma_vv_body_at(p, i);
        assert(vv_body(s).subrange(i * 10, i * 10 + 2) =~= vv_body(p).subrange(i * 10, i * 10 + 2));
        assert(vv_body(s).subrange(i * 10 + 2, i * 10 + 10) =~= vv_body(p).subrange(
            i * 10 + 2,
            i * 10 + 10,
        ));
    } else {
        assert(vv_body(s).subrange(i * 10, i * 10 + 2) =~= le(s[i].0 as nat, 2));
        assert(vv_body(s).subrange(i * 10 + 2, i * 10 + 10) =~= le(s[i].1 as nat, 8));
    }
}

pub proof fn lemma_vv_body_len(s: Seq<(u16, u64)>)
    ensures
        vv_body(s).len() == s.len() * 10,
    decreases s.len(),
{
    if s.len() > 0 {
        lemma_vv_body_len(s.drop_last());
        lemma_le_len(s.last().0 as nat, 2);
        lemma_le_len(s.last().1 as nat, 8);
    }
}

/// The byte form of a vector of fewer than `65536` entries is well formed and
/// stands for that vector.
pub proof fn lemma_vv_bytes_round_trip(s: Seq<(u16, u64)>)
    requires
        vv_ordered(s),
        s.len() < 0x1_0000,
    ensures
        vv_well_formed(vv_bytes(s)),
        vv_entries_of(vv_bytes(s)) == s,
        vv_bytes(s).len() == 2 + s.len() * 10,
{
    let buf = vv_bytes(s);
    lemma_le_len(s.len(), 2);
    lemma_vv_body_len(s);
    lemma_pow256_values();
    lemma_un_le_of_le(s.len(), 2);
    assert(buf.subrange(0, 2) =~= le(s.len(), 2));
    let got = vv_entries_of(buf);
    assert forall|i: int| 0 <= i < s.len() implies got[i] == s[i] by {
        lemma_vv_body_at(s, i);
        assert(buf.subrange(2 + i * 10, 4 + i * 10) =~= vv_body(s).subrange(i * 10, i * 10 + 2));
        assert(buf.subrange(4 + i * 10, 12 + i * 10) =~= vv_body(s).subrange(
            i * 10 + 2,
            i * 10 + 10,
        ));
        lemma_un_le_of_le(s[i].0 as nat, 2);
        lemma_un_le_of_le(s[i].1 as nat, 8);
    }
    assert(got =~= s);
}

impl View for VersionVector {
    type V = Seq<(u16, u64)>;

    closed spec fn view(&self) -> Seq<(u16, u64)> {
        self.entries@
    }
}

impl Clone for VersionVector {
    fn clone(&self) -> (r: Self)
        ensures
            r@ == self@,
            vv_ordered(self@),
    {
        proof {
            use_type_invariant(self);
        }
        let mut out: Vec<(HostAlias, u64)> = Vec::new();
        let mut i: usize = 0;
        while i < self.entries.len()
            invariant
                i <= self.entries.len(),
                out@ == self.entries@.take(i as int),
            decreases self.entries.len() - i,
        {
            out.push(self.entries[i]);
            i = i + 1;
            proof {
                assert(out@ =~= self.entries@.take(i as int));
            }
        }
        proof {
            assert(out@ =~= self.entries@);
        }
        VersionVector { entries: out }
    }
}

impl Default for VersionVector {
    fn default() -> (r: Self)
        ensures
            r@ == Seq::<(u16, u64)>::empty(),
    {
        VersionVector::new()
    }
}

impl VersionVector {
    #[verifier::type_invariant]
    spec fn well_formed(self) -> bool {
        vv_ordered(self.entries@)
    }

    /// The vector in which every counter is zero.
    pub fn new() -> (r: Self)
        ensures
            r@ == Seq::<(u16, u64)>::empty(),
    {
        VersionVector { entries: Vec::new() }
    }

    /// The first position whose alias is not below `h`.
    fn position(&self, h: HostAlias) -> (i: usize)
        ensures
            i <= self@.len(),
            forall|k: int| 0 <= k < i ==> (#[trigger] self@[k]).0 < h,
            forall|k: int| i <= k < self@.len() ==> (#[trigger] self@[k]).0 >= h,
    {
        proof {
            use_type_invariant(self);
        }
        let mut lo: usize = 0;
        let mut hi: usize = self.entries.len();
        while lo < hi
            invariant
                vv_ordered(self@),
                self@ == self.entries@,
                lo <= hi <= self@.len(),
                forall|k: int| 0 <= k < lo ==> (#[trigger] self@[k]).0 < h,
                forall|k: int| hi <= k < self@.len() ==> (#[trigger] self@[k]).0 >= h,
            decreases hi - lo,
        {
            let mid: usize = lo + (hi - lo) / 2;
            if self.entries[mid].0 < h {
                proof {
                    assert forall|k: int| 0 <= k < mid + 1 implies (#[trigger] self@[k]).0 < h by {
                        if k < mid {
                            assert(self@[k].0 < self@[mid as int].0);
                        }
                    }
                }
                lo = mid + 1;
            } else {
                proof {
                    assert forall|k: int| mid <= k < self@.len() implies (#[trigger] self@[k]).0
                        >= h by {
                        if mid < k {
                            assert(self@[mid as int].0 < self@[k].0);
                        }
                    }
                }
                hi = mid;
            }
        }
        lo
    }

    /// The counter of `h`; zero where the host never wrote.
    pub fn get(&self, h: HostAlias) -> (v: u64)
        ensures
            v == vv_get(self@, h),
            vv_ordered(self@),
    {
        proof {
            use_type_invariant(self);
        }
        let i: usize = self.position(h);
        if i < self.entries.len() && self.entries[i].0 == h {
            proof {
                lemma_vv_get_at(self@, i as int);
            }
            self.entries[i].1
        } else {
            proof {
                if vv_has(self@, h) {
                    let k = choose|k: int| 0 <= k < self@.len() && (#[trigger] self@[k]).0 == h;
                    if i < k {
                        assert(self@[i as int].0 < self@[k].0);
                    }
                    assert(false);
                }
            }
            0
        }
    }

    /// Raises the counter of `h` by one and returns it.
    pub fn bump(&mut self, h: HostAlias) -> (v: u64)
        requires
            vv_get(old(self)@, h) < u64::MAX,
        ensures
            v == vv_get(old(self)@, h) + 1,
            vv_is_bump(old(self)@, h, final(self)@),
    {
        proof {
            use_type_invariant(&*self);
        }
        let ghost s = self@;
        let i: usize = self.position(h);
        if i < self.entries.len() && self.entries[i].0 == h {
            proof {
                lemma_vv_get_at(s, i as int);
            }
            let v: u64 = self.entries[i].1 + 1;
            let ghost t = s.update(i as int, (h, v));
            proof {
                assert forall|a: int, b: int| 0 <= a < b < t.len() implies t[a].0 < t[b].0 by {
                    assert(s[a].0 < s[b].0);
                }
                assert forall|a: int| 0 <= a < t.len() implies (#[trigger] t[a]).1 > 0 by {
                    assert(s[a].1 > 0);
                }
                assert(vv_ordered(t));
                Self::lemma_update_get(s, i as int, v);
            }
            let mut entries: Vec<(HostAlias, u64)> = self.clone().entries;
            entries.set(i, (h, v));
            *self = VersionVector { entries };
            v
        } else {
            let ghost t = s.insert(i as int, (h, 1u64));
            proof {
                Self::lemma_insert_get(s, i as int, h);
            }
            let mut entries: Vec<(HostAlias, u64)> = self.clone().entries;
            entries.insert(i, (h, 1));
            *self = VersionVector { entries };
            1
        }
    }

    proof fn lemma_update_get(s: Seq<(u16, u64)>, i: int, v: u64)
        requires
            vv_ordered(s),
            0 <= i < s.len(),
            v == s[i].1 + 1,
            vv_ordered(s.update(i, (s[i].0, v))),
        ensures
            vv_is_bump(s, s[i].0, s.update(i, (s[i].0, v))),
    {
        let t = s.update(i, (s[i].0, v));
        lemma_vv_get_at(s, i);
        lemma_vv_get_at(t, i);
        assert forall|k: u16| #[trigger]
            vv_get(t, k) == if k == s[i].0 {
                vv_get(s, s[i].0) + 1
            } else {
                vv_get(s, k) as int
            } by {
            if k != s[i].0 {
                if vv_has(s, k) {
                    let j = choose|j: int| 0 <= j < s.len() && (#[trigger] s[j]).0 == k;
                    assert(t[j].0 == k);
                    lemma_vv_get_at(s, j);
                    lemma_vv_get_at(t, j);
                } else if vv_has(t, k) {
                    let j = choose|j: int| 0 <= j < t.len() && (#[trigger] t[j]).0 == k;
                    assert(s[j].0 == k);
                }
            }
        }
    }

    proof fn lemma_insert_get(s: Seq<(u16, u64)>, i: int, h: u16)
        requires
            vv_ordered(s),
            0 <= i <= s.len(),
            forall|k: int| 0 <= k < i ==> (#[trigger] s[k]).0 < h,
            forall|k: int| i <= k < s.len() ==> (#[trigger] s[k]).0 >= h,
            i < s.len() ==> s[i].0 != h,
        ensures
            vv_is_bump(s, h, s.insert(i, (h, 1u64))),
            vv_get(s, h) == 0,
    {
        let t = s.insert(i, (h, 1u64));
        assert forall|k: int| i <= k < s.len() implies (#[trigger] s[k]).0 > h by {
            if i < k {
                assert(s[i].0 < s[k].0);
            }
        }
        assert forall|a: int| 0 <= a < t.len() implies (#[trigger] t[a]).1 > 0 by {
            if a < i {
                assert(t[a] == s[a]);
            } else if a > i {
                assert(t[a] == s[a - 1]);
            }
        }
        assert forall|a: int, b: int| 0 <= a < b < t.len() implies t[a].0 < t[b].0 by {
            if b < i {
                assert(s[a].0 < s[b].0);
            } else if a > i {
                assert(s[a - 1].0 < s[b - 1].0);
            } else if a < i && b > i {
                assert(s[a].0 < h && s[b - 1].0 > h);
            } else if b == i {
                assert(s[a].0 < h);
            } else {
                assert(s[b - 1].0 > h);
            }
        }
        assert(vv_ordered(t));
        if vv_has(s, h) {
            let j = choose|j: int| 0 <= j < s.len() && (#[trigger] s[j]).0 == h;
            assert(false);
        }
        lemma_vv_get_at(t, i);
        assert forall|k: u16| #[trigger]
            vv_get(t, k) == if k == h {
                vv_get(s, h) + 1
            } else {
                vv_get(s, k) as int
            } by {
            if k != h {
                if vv_has(s, k) {
                    let j = choose|j: int| 0 <= j < s.len() && (#[trigger] s[j]).0 == k;
                    lemma_vv_get_at(s, j);
                    if j < i {
                        assert(t[j] == s[j]);
                        lemma_vv_get_at(t, j);
                    } else {
                        assert(t[j + 1] == s[j]);
                        lemma_vv_get_at(t, j + 1);
                    }
                } else if vv_has(t, k) {
                    let j = choose|j: int| 0 <= j < t.len() && (#[trigger] t[j]).0 == k;
                    if j < i {
                        assert(s[j].0 == k);
                    } else if j > i {
                        assert(s[j - 1].0 == k);
                    }
                }
            }
        }
    }

    /// The entries, ordered by alias.
    pub(crate) fn entries(&self) -> (s: &[(HostAlias, u64)])
        ensures
            s@ == self@,
    {
        self.entries.as_slice()
    }

    /// Whether no counter is behind the same counter of `other`.
    pub fn dominates(&self, other: &Self) -> (r: bool)
        ensures
            r == vv_dominates(self@, other@),
            vv_ordered(self@),
            vv_ordered(other@),
    {
        proof {
            use_type_invariant(self);
            use_type_invariant(other);
        }
        let mut i: usize = 0;
        while i < other.entries.len()
            invariant
                vv_ordered(other@),
                other@ == other.entries@,
                i <= other@.len(),
                forall|k: int|
                    0 <= k < i ==> vv_get(self@, (#[trigger] other@[k]).0) >= other@[k].1,
            decreases other@.len() - i,
        {
            let e: (u16, u64) = other.entries[i];
            proof {
                lemma_vv_get_at(other@, i as int);
            }
            if self.get(e.0) < e.1 {
                proof {
                    assert(vv_get(self@, e.0) < vv_get(other@, e.0));
                }
                return false;
            }
            i = i + 1;
        }
        proof {
            assert forall|h: u16| #[trigger] vv_get(self@, h) >= vv_get(other@, h) by {
                if vv_has(other@, h) {
                    let k = choose|k: int| 0 <= k < other@.len() && (#[trigger] other@[k]).0 == h;
                    lemma_vv_get_at(other@, k);
                }
            }
        }
        true
    }

    /// Whether neither vector dominates the other.
    pub fn concurrent_with(&self, other: &Self) -> (r: bool)
        ensures
            r == vv_concurrent(self@, other@),
    {
        !self.dominates(other) && !other.dominates(self)
    }

    /// Whether the two vectors are the same.
    pub fn same(&self, other: &Self) -> (r: bool)
        ensures
            r == (self@ == other@),
            vv_ordered(self@),
            vv_ordered(other@),
    {
        proof {
            use_type_invariant(self);
            use_type_invariant(other);
        }
        if self.entries.len() != other.entries.len() {
            return false;
        }
        let mut i: usize = 0;
        while i < self.entries.len()
            invariant
                i <= self.entries.len(),
                self.entries.len() == other.entries.len(),
                forall|k: int| 0 <= k < i ==> self.entries@[k] == other.entries@[k],
                vv_ordered(self@),
                vv_ordered(other@),
            decreases self.entries.len() - i,
        {
            if self.entries[i].0 != other.entries[i].0 || self.entries[i].1 != other.entries[i].1 {
                return false;
            }
            i = i + 1;
        }
        proof {
            assert(self@ =~= other@);
        }
        true
    }

    /// The least vector that dominates both.
    pub fn join(&self, other: &Self) -> (r: Self)
        ensures
            vv_is_join(self@, other@, r@),
            vv_ordered(self@),
            vv_ordered(other@),
    {
        proof {
            use_type_invariant(self);
            use_type_invariant(other);
        }
        let ghost a = self.entries@;
        let ghost b = other.entries@;
        let mut out: Vec<(HostAlias, u64)> = Vec::new();
        let mut i: usize = 0;
        let mut j: usize = 0;
        proof {
            assert(a.take(0) =~= Seq::empty());
            assert(b.take(0) =~= Seq::empty());
        }
        while i < self.entries.len() || j < other.entries.len()
            invariant
                a == self.entries@,
                b == other.entries@,
                vv_ordered(a),
                vv_ordered(b),
                i <= a.len(),
                j <= b.len(),
                vv_is_join(a.take(i as int), b.take(j as int), out@),
                forall|k: int, l: int|
                    0 <= k < out@.len() && i <= l < a.len() ==> (#[trigger] out@[k]).0 < (
                    #[trigger] a[l]).0,
                forall|k: int, l: int|
                    0 <= k < out@.len() && j <= l < b.len() ==> (#[trigger] out@[k]).0 < (
                    #[trigger] b[l]).0,
            decreases a.len() - i + b.len() - j,
        {
            let take_a: bool = if i < self.entries.len() {
                if j < other.entries.len() {
                    self.entries[i].0 <= other.entries[j].0
                } else {
                    true
                }
            } else {
                false
            };
            let take_b: bool = if j < other.entries.len() {
                if i < self.entries.len() {
                    other.entries[j].0 <= self.entries[i].0
                } else {
                    true
                }
            } else {
                false
            };
            let ghost before = out@;
            let ghost pa = a.take(i as int);
            let ghost pb = b.take(j as int);
            if take_a && take_b {
                let x: u64 = self.entries[i].1;
                let y: u64 = other.entries[j].1;
                let alias: u16 = self.entries[i].0;
                let v: u64 = if x >= y {
                    x
                } else {
                    y
                };
                out.push((alias, v));
                i = i + 1;
                j = j + 1;
            } else if take_a {
                out.push(self.entries[i]);
                i = i + 1;
            } else {
                out.push(other.entries[j]);
                j = j + 1;
            }
            proof {
                let na = a.take(i as int);
                let nb = b.take(j as int);
                lemma_vv_prefix(a, i as int);
                lemma_vv_prefix(b, j as int);
                if take_a {
                    assert(na =~= pa.push(a[i - 1]));
                } else {
                    assert(na =~= pa);
                }
                if take_b {
                    assert(nb =~= pb.push(b[j - 1]));
                } else {
                    assert(nb =~= pb);
                }
                let e = out@.last();
                assert(out@ =~= before.push(e));
                assert(vv_ordered(out@));
                assert forall|h: u16| #[trigger]
                    vv_get(out@, h) == vv_max(vv_get(na, h), vv_get(nb, h)) by {
                    lemma_vv_push(before, e, h);
                    assert(vv_get(before, h) == vv_max(vv_get(pa, h), vv_get(pb, h)));
                    if take_a {
                        lemma_vv_push(pa, a[i - 1], h);
                    } else if h == e.0 {
                        assert forall|q: int| 0 <= q < na.len() implies (#[trigger] na[q]).0
                            < h by {
                            Self::lemma_join_below(a, b, pa, pb, before, i as int, h, q);
                        }
                        lemma_vv_absent_above(na, h);
                    }
                    if take_b {
                        lemma_vv_push(pb, b[j - 1], h);
                    } else if h == e.0 {
                        assert forall|q: int| 0 <= q < nb.len() implies (#[trigger] nb[q]).0
                            < h by {
                            Self::lemma_join_below(b, a, pb, pa, before, j as int, h, q);
                        }
                        lemma_vv_absent_above(nb, h);
                    }
                }
                assert forall|k: int, l: int|
                    0 <= k < out@.len() && i <= l < a.len() implies (#[trigger] out@[k]).0 < (
                #[trigger] a[l]).0 by {
                    if k < before.len() {
                        assert(before[k].0 < a[l].0);
                    } else if take_a {
                        assert(a[i - 1].0 < a[l].0);
                    } else {
                        assert(a[i as int].0 <= a[l].0);
                    }
                }
                assert forall|k: int, l: int|
                    0 <= k < out@.len() && j <= l < b.len() implies (#[trigger] out@[k]).0 < (
                #[trigger] b[l]).0 by {
                    if k < before.len() {
                        assert(before[k].0 < b[l].0);
                    } else if take_b {
                        assert(b[j - 1].0 < b[l].0);
                    } else {
                        assert(b[j as int].0 <= b[l].0);
                    }
                }
            }
        }
        proof {
            assert(a.take(i as int) =~= a);
            assert(b.take(j as int) =~= b);
        }
        VersionVector { entries: out }
    }

    /// An alias that the merged prefix holds lies below everything still to come.
    proof fn lemma_join_below(
        a: Seq<(u16, u64)>,
        b: Seq<(u16, u64)>,
        pa: Seq<(u16, u64)>,
        pb: Seq<(u16, u64)>,
        before: Seq<(u16, u64)>,
        i: int,
        h: u16,
        q: int,
    )
        requires
            vv_ordered(a),
            vv_ordered(pa),
            vv_ordered(before),
            0 <= i <= a.len(),
            pa == a.take(i),
            0 <= q < i,
            forall|g: u16| #[trigger]
                vv_get(before, g) == vv_max(vv_get(pa, g), vv_get(pb, g)) || vv_get(before, g)
                    == vv_max(vv_get(pb, g), vv_get(pa, g)),
            forall|k: int| 0 <= k < before.len() ==> (#[trigger] before[k]).0 < h,
        ensures
            pa[q].0 < h,
    {
        let g = pa[q].0;
        lemma_vv_get_at(pa, q);
        assert(pa[q].1 > 0);
        assert(vv_get(before, g) > 0);
        assert(vv_has(before, g));
        let k = choose|k: int| 0 <= k < before.len() && (#[trigger] before[k]).0 == g;
        assert(before[k].0 < h);
    }

    /// The byte form: entry count, then alias and counter of each entry, all
    /// little-endian.
    pub fn to_bytes(&self) -> (out: Vec<u8>)
        ensures
            out@ == vv_bytes(self@),
            vv_ordered(self@),
    {
        proof {
            use_type_invariant(self);
        }
        let n: usize = self.entries.len();
        let mut out: Vec<u8> = Vec::new();
        push_le(&mut out, n as u64, 2);
        let ghost head = out@;
        proof {
            assert(head =~= le(n as nat, 2));
            assert(self.entries@.take(0) =~= Seq::empty());
            assert(out@ =~= head + vv_body(self.entries@.take(0)));
        }
        let mut i: usize = 0;
        while i < n
            invariant
                n == self.entries.len(),
                i <= n,
                out@ == head + vv_body(self.entries@.take(i as int)),
            decreases n - i,
        {
            let e: (u16, u64) = self.entries[i];
            push_le(&mut out, e.0 as u64, 2);
            push_le(&mut out, e.1, 8);
            proof {
                let t = self.entries@.take(i + 1);
                assert(t.drop_last() =~= self.entries@.take(i as int));
                assert(out@ =~= head + vv_body(t));
            }
            i = i + 1;
        }
        proof {
            assert(self.entries@.take(n as int) =~= self.entries@);
        }
        out
    }

    /// Reads a byte form; anything but the byte form of a vector is refused.
    pub fn from_bytes(buf: &[u8]) -> (r: Result<Self, Error>)
        ensures
            vv_well_formed(buf@) ==> r is Ok && r->Ok_0@ == vv_entries_of(buf@),
            !vv_well_formed(buf@) ==> r == Err::<Self, Error>(Error::Integrity),
    {
        if buf.len() < 2 {
            return Err(Error::Integrity);
        }
        let count: usize = read_le(buf, 0, 2) as usize;
        proof {
            lemma_le_of_un_le(buf@.subrange(0, 2));
            lemma_pow256_values();
        }
        if buf.len() != 2 + count * 10 {
            return Err(Error::Integrity);
        }
        let ghost all = vv_entries_of(buf@);
        let mut entries: Vec<(HostAlias, u64)> = Vec::new();
        let mut i: usize = 0;
        while i < count
            invariant
                count < 0x1_0000,
                buf.len() == 2 + count * 10,
                all == vv_entries_of(buf@),
                all.len() == count,
                i <= count,
                entries@ == all.take(i as int),
                vv_ordered(entries@),
            decreases count - i,
        {
            let off: usize = 2 + i * 10;
            let alias: u16 = read_le(buf, off, 2) as u16;
            let sync_id: u64 = read_le(buf, off + 2, 8);
            proof {
                assert(all[i as int] == vv_entry_at(buf@, i as int));
                assert(buf@.subrange(off as int, off + 2) =~= buf@.subrange(2 + i * 10, 4 + i * 10));
            }
            let ghost e = all[i as int];
            assert(e == (alias, sync_id));
            if i > 0 && alias <= entries[i - 1].0 {
                proof {
                    assert(all[i - 1] == entries@[i - 1]);
                    assert(!vv_ordered(all));
                }
                return Err(Error::Integrity);
            }
            if sync_id == 0 {
                proof {
                    assert(!vv_ordered(all));
                }
                return Err(Error::Integrity);
            }
            proof {
                assert forall|p: int, q: int| 0 <= p < q < i + 1 implies entries@.push(e)[p].0
                    < entries@.push(e)[q].0 by {
                    if q == i && p < i - 1 {
                        assert(entries@[p].0 < entries@[i - 1].0);
                    }
                }
            }
            entries.push((alias, sync_id));
            i = i + 1;
            proof {
                assert(entries@ =~= all.take(i as int));
            }
        }
        proof {
            assert(entries@ =~= all);
        }
        Ok(VersionVector { entries })
    }
}

// ── Laws of the causal order ────────────────────────────────────────────────

/// A vector that dominates another is not concurrent with it.
pub proof fn law_dominance_excludes_concurrency(a: Seq<(u16, u64)>, b: Seq<(u16, u64)>)
    requires
        vv_dominates(a, b),
    ensures
        !vv_concurrent(a, b),
        !vv_concurrent(b, a),
{
}

/// A vector dominates itself and is never concurrent with itself.
pub proof fn law_dominance_reflexive(a: Seq<(u16, u64)>)
    ensures
        vv_dominates(a, a),
        !vv_concurrent(a, a),
{
}

/// Dominance is transitive.
pub proof fn law_dominance_transitive(
    a: Seq<(u16, u64)>,
    b: Seq<(u16, u64)>,
    c: Seq<(u16, u64)>,
)
    requires
        vv_dominates(a, b),
        vv_dominates(b, c),
    ensures
        vv_dominates(a, c),
{
    assert forall|h: u16| #[trigger] vv_get(a, h) >= vv_get(c, h) by {
        assert(vv_get(b, h) >= vv_get(c, h));
    }
}

/// Two vectors that dominate each other are the same vector.
pub proof fn law_dominance_antisymmetric(a: Seq<(u16, u64)>, b: Seq<(u16, u64)>)
    requires
        vv_ordered(a),
        vv_ordered(b),
        vv_dominates(a, b),
        vv_dominates(b, a),
    ensures
        a == b,
{
    assert forall|h: u16| #[trigger] vv_get(a, h) == vv_get(b, h) by {
        assert(vv_get(b, h) >= vv_get(a, h));
    }
    lemma_vv_canonical(a, b);
}

/// Of any two vectors exactly one holds: they are equal, the first is strictly
/// ahead, the second is strictly ahead, or they are concurrent.
pub proof fn law_causal_cases(a: Seq<(u16, u64)>, b: Seq<(u16, u64)>)
    requires
        vv_ordered(a),
        vv_ordered(b),
    ensures
        a == b || (vv_dominates(a, b) && a != b) || (vv_dominates(b, a) && a != b)
            || vv_concurrent(a, b),
        vv_concurrent(a, b) ==> a != b,
        vv_dominates(a, b) && vv_dominates(b, a) ==> a == b,
{
    if vv_dominates(a, b) && vv_dominates(b, a) {
        law_dominance_antisymmetric(a, b);
    }
}

/// After a bump the vector is strictly ahead of what it was.
pub proof fn law_bump_moves_ahead(a: Seq<(u16, u64)>, h: u16, r: Seq<(u16, u64)>)
    requires
        vv_is_bump(a, h, r),
    ensures
        vv_get(r, h) == vv_get(a, h) + 1,
        vv_dominates(r, a),
        !vv_dominates(a, r),
{
    assert(vv_get(r, h) == vv_get(a, h) + 1);
    assert(vv_get(a, h) < vv_get(r, h));
    assert forall|k: u16| #[trigger] vv_get(r, k) >= vv_get(a, k) by {}
}

/// Two vectors that each hold a counter the other lacks are concurrent.
pub proof fn law_disjoint_writers_are_concurrent(
    a: Seq<(u16, u64)>,
    b: Seq<(u16, u64)>,
    x: u16,
    y: u16,
)
    requires
        vv_get(a, x) > 0,
        vv_get(b, x) == 0,
        vv_get(b, y) > 0,
        vv_get(a, y) == 0,
    ensures
        vv_concurrent(a, b),
{
    assert(!(vv_get(a, y) >= vv_get(b, y)));
    assert(!(vv_get(b, x) >= vv_get(a, x)));
}

/// The join dominates both sides, and every vector that dominates both sides
/// dominates the join.
pub proof fn law_join_is_least_upper_bound(
    a: Seq<(u16, u64)>,
    b: Seq<(u16, u64)>,
    r: Seq<(u16, u64)>,
    above: Seq<(u16, u64)>,
)
    requires
        vv_is_join(a, b, r),
    ensures
        vv_dominates(r, a),
        vv_dominates(r, b),
        vv_dominates(above, a) && vv_dominates(above, b) ==> vv_dominates(above, r),
{
    assert forall|h: u16| #[trigger] vv_get(r, h) >= vv_get(a, h) by {}
    assert forall|h: u16| #[trigger] vv_get(r, h) >= vv_get(b, h) by {}
    if vv_dominates(above, a) && vv_dominates(above, b) {
        assert forall|h: u16| #[trigger] vv_get(above, h) >= vv_get(r, h) by {
            assert(vv_get(r, h) == vv_max(vv_get(a, h), vv_get(b, h)));
        }
    }
}

/// The join is one vector, whichever side comes first.
pub proof fn law_join_commutes(
    a: Seq<(u16, u64)>,
    b: Seq<(u16, u64)>,
    r: Seq<(u16, u64)>,
    s: Seq<(u16, u64)>,
)
    requires
        vv_is_join(a, b, r),
        vv_is_join(b, a, s),
    ensures
        r == s,
{
    assert forall|h: u16| #[trigger] vv_get(r, h) == vv_get(s, h) by {}
    lemma_vv_canonical(r, s);
}

/// Joining in either grouping gives the same vector.
pub proof fn law_join_associates(
    a: Seq<(u16, u64)>,
    b: Seq<(u16, u64)>,
    c: Seq<(u16, u64)>,
    ab: Seq<(u16, u64)>,
    bc: Seq<(u16, u64)>,
    left: Seq<(u16, u64)>,
    right: Seq<(u16, u64)>,
)
    requires
        vv_is_join(a, b, ab),
        vv_is_join(b, c, bc),
        vv_is_join(ab, c, left),
        vv_is_join(a, bc, right),
    ensures
        left == right,
{
    assert forall|h: u16| #[trigger] vv_get(left, h) == vv_get(right, h) by {
        assert(vv_get(ab, h) == vv_max(vv_get(a, h), vv_get(b, h)));
        assert(vv_get(bc, h) == vv_max(vv_get(b, h), vv_get(c, h)));
        assert(vv_get(right, h) == vv_max(vv_get(a, h), vv_get(bc, h)));
    }
    lemma_vv_canonical(left, right);
}

/// Joining a vector with one that it dominates gives the vector back.
pub proof fn law_join_absorbs(a: Seq<(u16, u64)>, b: Seq<(u16, u64)>, r: Seq<(u16, u64)>)
    requires
        vv_ordered(a),
        vv_dominates(a, b),
        vv_is_join(a, b, r),
    ensures
        r == a,
{
    assert forall|h: u16| #[trigger] vv_get(r, h) == vv_get(a, h) by {
        assert(vv_get(a, h) >= vv_get(b, h));
    }
    lemma_vv_canonical(r, a);
}

/// Reading the byte form of a vector gives the vector back. (With `65536`
/// entries the two-byte count wraps to zero and nothing reads back.)
pub proof fn law_vector_bytes_round_trip(s: Seq<(u16, u64)>)
    requires
        vv_ordered(s),
        s.len() < 0x1_0000,
    ensures
        vv_well_formed(vv_bytes(s)),
        vv_entries_of(vv_bytes(s)) == s,
{
    lemma_vv_bytes_round_trip(s);
}

/// A byte form that is accepted is the byte form of what it stands for: no
/// vector has two byte forms.
pub proof fn law_vector_bytes_canonical(buf: Seq<u8>)
    requires
        vv_well_formed(buf),
    ensures
        vv_bytes(vv_entries_of(buf)) == buf,
{
    let s = vv_entries_of(buf);
    lemma_le_of_un_le(buf.subrange(0, 2));
    lemma_le_len(s.len(), 2);
    lemma_vv_body_len(s);
    lemma_pow256_values();
    let out = vv_bytes(s);
    assert(out.len() == buf.len());
    assert forall|x: int| 0 <= x < buf.len() implies out[x] == buf[x] by {
        if x < 2 {
            assert(out[x] == le(s.len(), 2)[x]);
            assert(buf.subrange(0, 2)[x] == buf[x]);
        } else {
            let i = (x - 2) / 10;
            let o = (x - 2) % 10;
            lemma_vv_body_at(s, i);
            let a = buf.subrange(2 + i * 10, 4 + i * 10);
            let b = buf.subrange(4 + i * 10, 12 + i * 10);
            lemma_le_of_un_le(a);
            lemma_le_of_un_le(b);
            assert(s[i] == vv_entry_at(buf, i));
            if o < 2 {
                assert(vv_body(s).subrange(i * 10, i * 10 + 2)[o] == a[o]);
            } else {
                assert(vv_body(s).subrange(i * 10 + 2, i * 10 + 10)[o - 2] == b[o - 2]);
            }
        }
    }
    assert(out =~= buf);
}

// ── Peers ───────────────────────────────────────────────────────────────────

/// One known peer: its alias, its public key, and whether it is retired.
#[derive(Debug, Clone, Copy, PartialEq, Eq)]
pub struct PeerEntry {
    pub alias: HostAlias,
    pub pubkey: [u8; 32],
    pub retired: bool,
}

/// The length of an encoded peer entry.
pub const PEER_ENTRY_SIZE: usize = 38;

/// The four magic bytes, the format version, the status byte, the key.
pub open spec fn peer_bytes(e: PeerEntry) -> Seq<u8> {
    seq![
        0x53u8,
        0x46u8,
        0x50u8,
        0x52u8,
        1u8,
        if e.retired {
            1u8
        } else {
            0u8
        },
    ] + e.pubkey@
}

/// `buf` starts with an encoded peer entry.
pub open spec fn peer_well_formed(buf: Seq<u8>) -> bool {
    &&& buf.len() >= 38
    &&& buf[0] == 0x53 && buf[1] == 0x46 && buf[2] == 0x50 && buf[3] == 0x52
    &&& buf[4] == 1
    &&& buf[5] <= 1
}

impl PeerEntry {
    /// The byte form. The alias is not part of it: it is the entry's name.
    pub fn encode(&self) -> (out: Vec<u8>)
        ensures
            out@ == peer_bytes(*self),
    {
        let status: u8 = if self.retired {
            1
        } else {
            0
        };
        let mut out: Vec<u8> = vec![0x53u8, 0x46u8, 0x50u8, 0x52u8, 1u8, status];
        push_all(&mut out, self.pubkey.as_slice());
        proof {
            assert(out@ =~= peer_bytes(*self));
        }
        out
    }

    /// Reads the entry at the start of `buf`; bytes behind it are ignored.
    pub fn decode(alias: HostAlias, buf: &[u8]) -> (r: Result<PeerEntry, Error>)
        ensures
            !peer_well_formed(buf@) ==> r == Err::<PeerEntry, Error>(Error::Integrity),
            peer_well_formed(buf@) ==> {
                &&& r is Ok
                &&& r->Ok_0.alias == alias
                &&& r->Ok_0.retired == (buf@[5] == 1)
                &&& r->Ok_0.pubkey@ == buf@.subrange(6, 38)
            },
    {
        if buf.len() < PEER_ENTRY_SIZE {
            return Err(Error::Integrity);
        }
        if buf[0] != 0x53 || buf[1] != 0x46 || buf[2] != 0x50 || buf[3] != 0x52 {
            return Err(Error::Integrity);
        }
        if buf[4] != 1 {
            return Err(Error::Integrity);
        }
        if buf[5] > 1 {
            return Err(Error::Integrity);
        }
        Ok(PeerEntry { alias, pubkey: take32(buf, 6), retired: buf[5] == 1 })
    }
}

/// Decoding an encoded peer entry gives the entry back, whatever follows it.
pub proof fn law_peer_entry_round_trip(e: PeerEntry, rest: Seq<u8>)
    ensures
        peer_well_formed(peer_bytes(e) + rest),
        (peer_bytes(e) + rest)[5] == 1 <==> e.retired,
        (peer_bytes(e) + rest).subrange(6, 38) == e.pubkey@,
{
    let b = peer_bytes(e) + rest;
    assert(b.subrange(6, 38) =~= e.pubkey@);
}

/// The peers of a container, ordered by alias, and the local host's alias.
#[derive(Debug)]
pub struct PeerRegistry {
    local_alias: HostAlias,
    entries: Vec<PeerEntry>,
}

/// Aliases never descend.
pub open spec fn peers_sorted(s: Seq<PeerEntry>) -> bool {
    forall|i: int, j: int| 0 <= i < j < s.len() ==> s[i].alias <= s[j].alias
}

/// The entries of `s` that carry alias `a`, in their order.
pub open spec fn peers_with(s: Seq<PeerEntry>, a: u16) -> Seq<PeerEntry> {
    s.filter(|e: PeerEntry| e.alias == a)
}

/// Some entry of `s` carries alias `a`.
pub open spec fn alias_taken(s: Seq<PeerEntry>, a: u16) -> bool {
    exists|i: int| 0 <= i < s.len() && (#[trigger] s[i]).alias == a
}

/// The first entry of `s` with this key is entry `i`.
pub open spec fn first_with_key(s: Seq<PeerEntry>, pubkey: [u8; 32], i: int) -> bool {
    &&& 0 <= i < s.len()
    &&& s[i].pubkey == pubkey
    &&& forall|j: int| 0 <= j < i ==> (#[trigger] s[j]).pubkey != pubkey
}

/// Placing `e` behind every entry whose alias is not above its own.
proof fn lemma_peer_insert(s: Seq<PeerEntry>, p: int, e: PeerEntry)
    requires
        peers_sorted(s),
        0 <= p <= s.len(),
        forall|k: int| 0 <= k < p ==> (#[trigger] s[k]).alias <= e.alias,
        forall|k: int| p <= k < s.len() ==> (#[trigger] s[k]).alias > e.alias,
    ensures
        peers_sorted(s.insert(p, e)),
        forall|a: u16| #[trigger]
            peers_with(s.insert(p, e), a) == if a == e.alias {
                peers_with(s, a).push(e)
            } else {
                peers_with(s, a)
            },
{
    let t = s.insert(p, e);
    assert forall|i: int, j: int| 0 <= i < j < t.len() implies t[i].alias <= t[j].alias by {
        if j < p {
            assert(s[i].alias <= s[j].alias);
        } else if i > p {
            assert(s[i - 1].alias <= s[j - 1].alias);
        } else if i < p && j > p {
            assert(s[i].alias <= s[j - 1].alias);
        } else if j == p {
            assert(s[i].alias <= e.alias);
        } else {
            assert(s[j - 1].alias > e.alias);
        }
    }
    assert forall|a: u16| #[trigger]
        peers_with(t, a) == if a == e.alias {
            peers_with(s, a).push(e)
        } else {
            peers_with(s, a)
        } by {
        let f = |x: PeerEntry| x.alias == a;
        let l = s.take(p);
        let r = s.skip(p);
        assert(s =~= l + r);
        assert(t =~= (l + seq![e]) + r);
        Seq::filter_distributes_over_add(l, r, f);
        Seq::filter_distributes_over_add(l + seq![e], r, f);
        Seq::filter_distributes_over_add(l, seq![e], f);
        lemma_filter_one(e, f);
        if a == e.alias {
            lemma_filter_none(r, f);
            assert(peers_with(t, a) =~= peers_with(s, a).push(e));
        } else {
            assert(peers_with(t, a) =~= peers_with(s, a));
        }
    }
}

proof fn lemma_filter_one(e: PeerEntry, f: spec_fn(PeerEntry) -> bool)
    ensures
        seq![e].filter(f) == if f(e) {
            seq![e]
        } else {
            Seq::empty()
        },
{
    reveal(Seq::filter);
    let s = seq![e];
    assert(s.drop_last() =~= Seq::empty());
    assert(Seq::<PeerEntry>::empty().filter(f) =~= Seq::empty());
    if f(e) {
        assert(s.filter(f) =~= seq![e]);
    }
}

proof fn lemma_filter_none(s: Seq<PeerEntry>, f: spec_fn(PeerEntry) -> bool)
    requires
        forall|i: int| 0 <= i < s.len() ==> !f(#[trigger] s[i]),
    ensures
        s.filter(f) == Seq::<PeerEntry>::empty(),
    decreases s.len(),
{
    reveal(Seq::filter);
    if s.len() > 0 {
        lemma_filter_none(s.drop_last(), f);
    }
}

impl Clone for PeerRegistry {
    fn clone(&self) -> (r: Self)
        ensures
            r@ == self@,
            r.alias() == self.alias(),
    {
        proof {
            use_type_invariant(self);
        }
        let mut out: Vec<PeerEntry> = Vec::new();
        let mut i: usize = 0;
        while i < self.entries.len()
            invariant
                i <= self.entries.len(),
                out@ == self.entries@.take(i as int),
            decreases self.entries.len() - i,
        {
            out.push(self.entries[i]);
            i = i + 1;
            proof {
                assert(out@ =~= self.entries@.take(i as int));
            }
        }
        proof {
            assert(out@ =~= self.entries@);
        }
        PeerRegistry { local_alias: self.local_alias, entries: out }
    }
}

impl View for PeerRegistry {
    type V = Seq<PeerEntry>;

    closed spec fn view(&self) -> Seq<PeerEntry> {
        self.entries@
    }
}

impl PeerRegistry {
    #[verifier::type_invariant]
    spec fn well_formed(self) -> bool {
        peers_sorted(self.entries@)
    }

    /// The local host's alias.
    pub closed spec fn alias(&self) -> u16 {
        self.local_alias
    }

    /// The registry of a container without peers: alias zero, no entries.
    pub fn local() -> (r: Self)
        ensures
            r.alias() == 0,
            r@ == Seq::<PeerEntry>::empty(),
    {
        PeerRegistry { local_alias: 0, entries: Vec::new() }
    }

    /// The registry that holds `entries`, ordered by alias; entries that share
    /// an alias keep their order.
    pub fn from_entries(local_alias: HostAlias, entries: Vec<PeerEntry>) -> (r: Self)
        ensures
            r.alias() == local_alias,
            peers_sorted(r@),
            forall|a: u16| #[trigger] peers_with(r@, a) == peers_with(entries@, a),
    {
        let mut out: Vec<PeerEntry> = Vec::new();
        let mut i: usize = 0;
        proof {
            assert(entries@.take(0) =~= Seq::empty());
        }
        while i < entries.len()
            invariant
                i <= entries.len(),
                peers_sorted(out@),
                out@.len() == i,
                forall|a: u16| #[trigger]
                    peers_with(out@, a) == peers_with(entries@.take(i as int), a),
            decreases entries.len() - i,
        {
            let e: PeerEntry = entries[i];
            let mut p: usize = out.len();
            while p > 0 && out[p - 1].alias > e.alias
                invariant
                    p <= out.len(),
                    forall|k: int| p <= k < out@.len() ==> (#[trigger] out@[k]).alias > e.alias,
                decreases p,
            {
                p = p - 1;
            }
            proof {
                assert forall|k: int| 0 <= k < p implies (#[trigger] out@[k]).alias <= e.alias by {
                    if k < p - 1 {
                        assert(out@[k].alias <= out@[p - 1].alias);
                    }
                }
                lemma_peer_insert(out@, p as int, e);
                let t = entries@.take(i + 1);
                assert forall|a: u16| #[trigger]
                    peers_with(out@.insert(p as int, e), a) == peers_with(t, a) by {
                    let f = |x: PeerEntry| x.alias == a;
                    assert(t =~= entries@.take(i as int) + seq![e]);
                    Seq::filter_distributes_over_add(entries@.take(i as int), seq![e], f);
                    lemma_filter_one(e, f);
                    assert(peers_with(out@, a) == peers_with(entries@.take(i as int), a));
                    assert(peers_with(out@.insert(p as int, e), a) =~= peers_with(t, a));
                }
            }
            out.insert(p, e);
            i = i + 1;
        }
        proof {
            assert(entries@.take(i as int) =~= entries@);
        }
        PeerRegistry { local_alias, entries: out }
    }

    pub fn local_alias(&self) -> (a: HostAlias)
        ensures
            a == self.alias(),
    {
        self.local_alias
    }

    /// All entries, ordered by alias.
    pub fn entries(&self) -> (s: &[PeerEntry])
        ensures
            s@ == self@,
            peers_sorted(self@),
    {
        proof {
            use_type_invariant(self);
        }
        self.entries.as_slice()
    }

    /// The alias of the first entry with this key, retired or not.
    pub fn alias_of(&self, pubkey: &[u8; 32]) -> (r: Option<HostAlias>)
        ensures
            r is None <==> forall|i: int|
                0 <= i < self@.len() ==> (#[trigger] self@[i]).pubkey != *pubkey,
            r is Some ==> exists|i: int|
                #[trigger] first_with_key(self@, *pubkey, i) && self@[i].alias == r->Some_0,
            peers_sorted(self@),
    {
        proof {
            use_type_invariant(self);
        }
        let mut i: usize = 0;
        while i < self.entries.len()
            invariant
                i <= self.entries.len(),
                self@ == self.entries@,
                peers_sorted(self@),
                forall|j: int| 0 <= j < i ==> (#[trigger] self@[j]).pubkey != *pubkey,
            decreases self.entries.len() - i,
        {
            if same32(&self.entries[i].pubkey, pubkey) {
                proof {
                    assert(first_with_key(self@, *pubkey, i as int));
                }
                return Some(self.entries[i].alias);
            }
            i = i + 1;
        }
        None
    }

    /// The smallest alias that no entry carries, retired entries counted.
    pub fn next_free_alias(&self) -> (r: HostAlias)
        requires
            exists|a: u16| !alias_taken(self@, a),
        ensures
            !alias_taken(self@, r),
            forall|a: u16| a < r ==> alias_taken(self@, a),
            peers_sorted(self@),
    {
        proof {
            use_type_invariant(self);
        }
        let mut candidate: u16 = 0;
        let mut i: usize = 0;
        while i < self.entries.len()
            invariant
                i <= self.entries.len(),
                self@ == self.entries@,
                peers_sorted(self@),
                exists|a: u16| !alias_taken(self@, a),
                forall|k: int| 0 <= k < i ==> (#[trigger] self@[k]).alias < candidate,
                forall|a: u16| a < candidate ==> alias_taken(self@, a),
            decreases self.entries.len() - i,
        {
            let a: u16 = self.entries[i].alias;
            if a == candidate {
                proof {
                    assert(self@[i as int].alias == a);
                    assert(alias_taken(self@, a));
                    if a == 0xffff {
                        let free = choose|b: u16| !alias_taken(self@, b);
                        assert(free < candidate || free == a);
                        assert(false);
                    }
                }
                candidate = candidate + 1;
            } else if a > candidate {
                proof {
                    assert forall|k: int| 0 <= k < self@.len() implies (#[trigger] self@[k]).alias
                        != candidate by {
                        if k > i {
                            assert(self@[i as int].alias <= self@[k].alias);
                        }
                    }
                }
                return candidate;
            }
            i = i + 1;
        }
        candidate
    }
}

} // verus!
