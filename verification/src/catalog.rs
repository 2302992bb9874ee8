//! Ordered maps from byte strings: the path and the unit catalogs.
use vstd::prelude::*;

use crate::bytes::{copy_range, same_bytes};

verus! {

/// `a` comes before `b` in byte order.
pub open spec fn lex_lt(a: Seq<u8>, b: Seq<u8>) -> bool
    decreases a.len(),
{
    if b.len() == 0 {
        false
    } else if a.len() == 0 {
        true
    } else if a[0] != b[0] {
        a[0] < b[0]
    } else {
        lex_lt(a.skip(1), b.skip(1))
    }
}

/// A key comes before every longer one that starts with it.
pub proof fn law_prefixes_come_first(a: Seq<u8>, t: Seq<u8>)
    requires
        t.len() > 0,
    ensures
        lex_lt(a, a + t),
        !lex_lt(a + t, a),
    decreases a.len(),
{
    if a.len() > 0 {
        law_prefixes_come_first(a.skip(1), t);
        assert((a + t).skip(1) =~= a.skip(1) + t);
    }
}

/// Where two keys first differ, the smaller byte comes first.
pub proof fn law_smaller_bytes_come_first(p: Seq<u8>, x: u8, s: Seq<u8>, y: u8, t: Seq<u8>)
    requires
        x < y,
    ensures
        lex_lt(p + seq![x] + s, p + seq![y] + t),
        !lex_lt(p + seq![y] + t, p + seq![x] + s),
    decreases p.len(),
{
    let a = p + seq![x] + s;
    let b = p + seq![y] + t;
    if p.len() > 0 {
        law_smaller_bytes_come_first(p.skip(1), x, s, y, t);
        assert(a.skip(1) =~= p.skip(1) + seq![x] + s);
        assert(b.skip(1) =~= p.skip(1) + seq![y] + t);
        assert(a[0] == p[0] && b[0] == p[0]);
    } else {
        assert(a[0] == x && b[0] == y);
    }
}

pub proof fn lemma_lex_irreflexive(a: Seq<u8>)
    ensures
        !lex_lt(a, a),
    decreases a.len(),
{
    if a.len() > 0 {
        lemma_lex_irreflexive(a.skip(1));
    }
}

pub proof fn lemma_lex_transitive(a: Seq<u8>, b: Seq<u8>, c: Seq<u8>)
    requires
        lex_lt(a, b),
        lex_lt(b, c),
    ensures
        lex_lt(a, c),
    decreases a.len(),
{
    if a.len() > 0 && b.len() > 0 && c.len() > 0 && a[0] == b[0] && b[0] == c[0] {
        lemma_lex_transitive(a.skip(1), b.skip(1), c.skip(1));
    }
}

pub proof fn lemma_lex_total(a: Seq<u8>, b: Seq<u8>)
    ensures
        lex_lt(a, b) || a == b || lex_lt(b, a),
    decreases a.len(),
{
    if a.len() == 0 && b.len() == 0 {
        assert(a =~= b);
    } else if a.len() > 0 && b.len() > 0 && a[0] == b[0] {
        lemma_lex_total(a.skip(1), b.skip(1));
        if a.skip(1) == b.skip(1) {
            assert(a =~= seq![a[0]] + a.skip(1));
            assert(b =~= seq![b[0]] + b.skip(1));
        }
    }
}

/// Whether `a` comes before `b` in byte order.
pub fn bytes_before(a: &[u8], b: &[u8]) -> (r: bool)
    ensures
        r == lex_lt(a@, b@),
{
    let mut i: usize = 0;
    proof {
        assert(a@.skip(0) =~= a@);
        assert(b@.skip(0) =~= b@);
    }
    while i < a.len() && i < b.len()
        invariant
            i <= a.len(),
            i <= b.len(),
            lex_lt(a@, b@) == lex_lt(a@.skip(i as int), b@.skip(i as int)),
        decreases a.len() - i,
    {
        proof {
            let x = a@.skip(i as int);
            let y = b@.skip(i as int);
            assert(x[0] == a@[i as int] && y[0] == b@[i as int]);
            assert(x.skip(1) =~= a@.skip(i + 1));
            assert(y.skip(1) =~= b@.skip(i + 1));
        }
        if a[i] != b[i] {
            return a[i] < b[i];
        }
        i = i + 1;
    }
    i < b.len()
}

/// `k` starts with `p`.
pub open spec fn has_prefix(k: Seq<u8>, p: Seq<u8>) -> bool {
    p.len() <= k.len() && k.take(p.len() as int) == p
}

/// Whether `k` starts with `p`.
pub fn starts_with(k: &[u8], p: &[u8]) -> (r: bool)
    ensures
        r == has_prefix(k@, p@),
{
    if k.len() < p.len() {
        return false;
    }
    let head: Vec<u8> = copy_range(k, 0, p.len());
    proof {
        assert(head@ =~= k@.take(p@.len() as int));
    }
    same_bytes(head.as_slice(), p)
}

/// The map that a run of pairs stands for; the last of equal keys counts.
pub open spec fn map_of<V>(s: Seq<(Seq<u8>, V)>) -> Map<Seq<u8>, V>
    decreases s.len(),
{
    if s.len() == 0 {
        Map::empty()
    } else {
        map_of(s.drop_last()).insert(s.last().0, s.last().1)
    }
}

/// Keys strictly ascend.
pub open spec fn keys_ascend<V>(s: Seq<(Seq<u8>, V)>) -> bool {
    forall|i: int, j: int| 0 <= i < j < s.len() ==> lex_lt(s[i].0, s[j].0)
}

proof fn lemma_ascend_front<V>(s: Seq<(Seq<u8>, V)>)
    requires
        keys_ascend(s),
        s.len() > 0,
    ensures
        keys_ascend(s.drop_last()),
{
    let p = s.drop_last();
    assert forall|i: int, j: int| 0 <= i < j < p.len() implies lex_lt(p[i].0, p[j].0) by {
        assert(lex_lt(s[i].0, s[j].0));
    }
}

pub proof fn lemma_map_of<V>(s: Seq<(Seq<u8>, V)>)
    requires
        keys_ascend(s),
    ensures
        forall|i: int|
            0 <= i < s.len() ==> map_of(s).contains_key((#[trigger] s[i]).0) && map_of(s)[s[i].0]
                == s[i].1,
        forall|k: Seq<u8>| #[trigger]
            map_of(s).contains_key(k) ==> exists|i: int| 0 <= i < s.len() && s[i].0 == k,
    decreases s.len(),
{
    if s.len() > 0 {
        let p = s.drop_last();
        lemma_ascend_front(s);
        lemma_map_of(p);
        assert forall|i: int| 0 <= i < s.len() implies map_of(s).contains_key((#[trigger] s[i]).0)
            && map_of(s)[s[i].0] == s[i].1 by {
            if i < p.len() {
                assert(p[i] == s[i]);
                assert(lex_lt(s[i].0, s[s.len() - 1].0));
                lemma_lex_irreflexive(s[i].0);
            }
        }
        assert forall|k: Seq<u8>| #[trigger] map_of(s).contains_key(k) implies exists|i: int|
            0 <= i < s.len() && s[i].0 == k by {
            if k == s.last().0 {
                assert(s[s.len() - 1].0 == k);
            } else {
                assert(map_of(p).contains_key(k));
                let i = choose|i: int| 0 <= i < p.len() && p[i].0 == k;
                assert(s[i].0 == k);
            }
        }
    }
}

/// Two ascending runs that stand for the same map are the same.
pub proof fn lemma_map_of_canonical<V>(a: Seq<(Seq<u8>, V)>, b: Seq<(Seq<u8>, V)>)
    requires
        keys_ascend(a),
        keys_ascend(b),
        map_of(a) == map_of(b),
    ensures
        a == b,
    decreases a.len(),
{
    lemma_map_of(a);
    lemma_map_of(b);
    if a.len() == 0 {
        if b.len() > 0 {
            assert(map_of(b).contains_key(b[0].0));
        }
        assert(a =~= b);
    } else if b.len() == 0 {
        assert(map_of(a).contains_key(a[0].0));
    } else {
        let la = a.last();
        let lb = b.last();
        assert(a[a.len() - 1] == la);
        assert(b[b.len() - 1] == lb);
        assert(map_of(a).contains_key(la.0) && map_of(b).contains_key(lb.0));
        let i = choose|i: int| 0 <= i < b.len() && b[i].0 == la.0;
        let j = choose|j: int| 0 <= j < a.len() && a[j].0 == lb.0;
        if i < b.len() - 1 {
            assert(lex_lt(la.0, lb.0));
            if j < a.len() - 1 {
                assert(lex_lt(lb.0, la.0));
                lemma_lex_transitive(la.0, lb.0, la.0);
            }
            lemma_lex_irreflexive(la.0);
        }
        assert(la.0 == lb.0);
        assert(la.1 == lb.1);
        let pa = a.drop_last();
        let pb = b.drop_last();
        lemma_ascend_front(a);
        lemma_ascend_front(b);
        lemma_map_of(pa);
        lemma_map_of(pb);
        assert(!map_of(pa).contains_key(la.0)) by {
            if map_of(pa).contains_key(la.0) {
                let k = choose|k: int| 0 <= k < pa.len() && pa[k].0 == la.0;
                assert(lex_lt(a[k].0, a[a.len() - 1].0));
                lemma_lex_irreflexive(la.0);
            }
        }
        assert(!map_of(pb).contains_key(la.0)) by {
            if map_of(pb).contains_key(la.0) {
                let k = choose|k: int| 0 <= k < pb.len() && pb[k].0 == la.0;
                assert(lex_lt(b[k].0, b[b.len() - 1].0));
                lemma_lex_irreflexive(la.0);
            }
        }
        assert(map_of(pa) =~= map_of(a).remove(la.0));
        assert(map_of(pb) =~= map_of(b).remove(la.0));
        lemma_map_of_canonical(pa, pb);
        assert(a =~= pa.push(la));
        assert(b =~= pb.push(lb));
    }
}

/// The pairs of `s` whose key starts with `p`, order kept.
pub open spec fn with_prefix<V>(s: Seq<(Seq<u8>, V)>, p: Seq<u8>) -> Seq<(Seq<u8>, V)>
    decreases s.len(),
{
    if s.len() == 0 {
        Seq::empty()
    } else {
        let r = with_prefix(s.drop_last(), p);
        if has_prefix(s.last().0, p) {
            r.push(s.last())
        } else {
            r
        }
    }
}

/// A pair is among the prefixed ones exactly when it is a pair with the prefix.
pub proof fn lemma_with_prefix<V>(s: Seq<(Seq<u8>, V)>, p: Seq<u8>, e: (Seq<u8>, V))
    ensures
        with_prefix(s, p).contains(e) <==> s.contains(e) && has_prefix(e.0, p),
    decreases s.len(),
{
    if s.len() > 0 {
        let q = s.drop_last();
        let r = with_prefix(q, p);
        let w = with_prefix(s, p);
        lemma_with_prefix(q, p, e);
        if s.contains(e) {
            let i = choose|i: int| 0 <= i < s.len() && s[i] == e;
            if i < q.len() {
                assert(q[i] == e);
            }
        }
        if q.contains(e) {
            let i = choose|i: int| 0 <= i < q.len() && q[i] == e;
            assert(s[i] == e);
        }
        assert(s[s.len() - 1] == s.last());
        if r.contains(e) {
            let i = choose|i: int| 0 <= i < r.len() && r[i] == e;
            assert(w[i] == e);
        }
        if has_prefix(s.last().0, p) {
            assert(w[r.len() as int] == s.last());
            if w.contains(e) {
                let i = choose|i: int| 0 <= i < w.len() && w[i] == e;
                if i < r.len() {
                    assert(r[i] == e);
                }
            }
        }
    }
}

/// An ordered map keyed by byte strings.
#[derive(Debug)]
pub struct ByteMap<V> {
    entries: Vec<(Vec<u8>, V)>,
}

pub open spec fn pair_view<V>(s: Seq<(Vec<u8>, V)>) -> Seq<(Seq<u8>, V)> {
    Seq::new(s.len(), |i: int| (s[i].0@, s[i].1))
}

impl<V> View for ByteMap<V> {
    type V = Map<Seq<u8>, V>;

    closed spec fn view(&self) -> Map<Seq<u8>, V> {
        map_of(pair_view(self.entries@))
    }
}

fn copy_key(k: &[u8]) -> (r: Vec<u8>)
    ensures
        r@ == k@,
{
    let r: Vec<u8> = copy_range(k, 0, k.len());
    proof {
        assert(r@ =~= k@);
    }
    r
}

impl<V: Copy> ByteMap<V> {
    /// The pairs in key order.
    pub closed spec fn pairs(&self) -> Seq<(Seq<u8>, V)> {
        pair_view(self.entries@)
    }

    /// The keys are in order.
    pub open spec fn wf(&self) -> bool {
        keys_ascend(self.pairs()) && self@ == map_of(self.pairs())
    }

    pub fn new() -> (r: Self)
        ensures
            r.wf(),
            r@ == Map::<Seq<u8>, V>::empty(),
            r.pairs() == Seq::<(Seq<u8>, V)>::empty(),
    {
        let r: Self = ByteMap { entries: Vec::new() };
        proof {
            assert(r.pairs() =~= Seq::<(Seq<u8>, V)>::empty());
        }
        r
    }

    pub fn len(&self) -> (n: usize)
        ensures
            n == self.pairs().len(),
    {
        self.entries.len()
    }

    /// The pair at position `i` in key order.
    pub fn pair_at(&self, i: usize) -> (r: (Vec<u8>, V))
        requires
            i < self.pairs().len(),
        ensures
            r.0@ == self.pairs()[i as int].0,
            r.1 == self.pairs()[i as int].1,
    {
        (copy_key(self.entries[i].0.as_slice()), self.entries[i].1)
    }

    /// The first position whose key is not before `key`.
    fn position(&self, key: &[u8]) -> (i: usize)
        requires
            self.wf(),
        ensures
            i <= self.pairs().len(),
            forall|k: int| 0 <= k < i ==> lex_lt((#[trigger] self.pairs()[k]).0, key@),
            forall|k: int|
                i <= k < self.pairs().len() ==> !lex_lt((#[trigger] self.pairs()[k]).0, key@),
    {
        let mut i: usize = 0;
        while i < self.entries.len() && bytes_before(self.entries[i].0.as_slice(), key)
            invariant
                i <= self.entries.len(),
                self.pairs().len() == self.entries.len(),
                self.pairs() == pair_view(self.entries@),
                forall|k: int| 0 <= k < i ==> lex_lt((#[trigger] self.pairs()[k]).0, key@),
            decreases self.entries.len() - i,
        {
            i = i + 1;
        }
        proof {
            assert forall|k: int| i <= k < self.pairs().len() implies !lex_lt(
                (#[trigger] self.pairs()[k]).0,
                key@,
            ) by {
                if lex_lt(self.pairs()[k].0, key@) {
                    if k > i {
                        assert(lex_lt(self.pairs()[i as int].0, self.pairs()[k].0));
                        lemma_lex_transitive(
                            self.pairs()[i as int].0,
                            self.pairs()[k].0,
                            key@,
                        );
                    }
                    assert(lex_lt(self.pairs()[i as int].0, key@));
                }
            }
        }
        i
    }

    proof fn lemma_absent(&self, i: int, key: Seq<u8>)
        requires
            self.wf(),
            0 <= i <= self.pairs().len(),
            forall|k: int| 0 <= k < i ==> lex_lt((#[trigger] self.pairs()[k]).0, key),
            forall|k: int|
                i <= k < self.pairs().len() ==> !lex_lt((#[trigger] self.pairs()[k]).0, key),
            i < self.pairs().len() ==> self.pairs()[i].0 != key,
        ensures
            !self@.contains_key(key),
            forall|k: int| i <= k < self.pairs().len() ==> lex_lt(key, (#[trigger] self.pairs()[k]).0),
    {
        let s = self.pairs();
        lemma_map_of(s);
        lemma_lex_irreflexive(key);
        assert forall|k: int| i <= k < s.len() implies lex_lt(key, (#[trigger] s[k]).0) by {
            lemma_lex_total(s[i].0, key);
            if i < k {
                assert(lex_lt(s[i].0, s[k].0));
                lemma_lex_transitive(key, s[i].0, s[k].0);
            }
        }
        if self@.contains_key(key) {
            let k = choose|k: int| 0 <= k < s.len() && s[k].0 == key;
            assert(s[k].0 == key);
        }
    }

    /// What `key` maps to.
    pub fn get(&self, key: &[u8]) -> (r: Option<V>)
        requires
            self.wf(),
        ensures
            r == if self@.contains_key(key@) {
                Some(self@[key@])
            } else {
                None
            },
    {
        let i: usize = self.position(key);
        if i < self.entries.len() && same_bytes(self.entries[i].0.as_slice(), key) {
            proof {
                lemma_map_of(self.pairs());
                assert(self.pairs()[i as int].0 == key@);
            }
            Some(self.entries[i].1)
        } else {
            proof {
                self.lemma_absent(i as int, key@);
            }
            None
        }
    }

    /// Maps `key` to `value`.
    pub fn put(&mut self, key: &[u8], value: V)
        requires
            old(self).wf(),
        ensures
            final(self).wf(),
            final(self)@ == old(self)@.insert(key@, value),
    {
        let i: usize = self.position(key);
        let ghost s = self.pairs();
        if i < self.entries.len() && same_bytes(self.entries[i].0.as_slice(), key) {
            let k: Vec<u8> = copy_key(key);
            self.entries.set(i, (k, value));
            proof {
                let t = self.pairs();
                assert(t =~= s.update(i as int, (key@, value)));
                assert(keys_ascend(t)) by {
                    assert forall|a: int, b: int| 0 <= a < b < t.len() implies lex_lt(
                        t[a].0,
                        t[b].0,
                    ) by {
                        assert(lex_lt(s[a].0, s[b].0));
                    }
                }
                lemma_map_of(s);
                lemma_map_of(t);
                Self::lemma_same_keys(s, t, i as int, (key@, value));
            }
        } else {
            proof {
                self.lemma_absent(i as int, key@);
            }
            let k: Vec<u8> = copy_key(key);
            self.entries.insert(i, (k, value));
            proof {
                let t = self.pairs();
                assert(t =~= s.insert(i as int, (key@, value)));
                assert forall|a: int, b: int| 0 <= a < b < t.len() implies lex_lt(
                    t[a].0,
                    t[b].0,
                ) by {
                    if b < i {
                        assert(lex_lt(s[a].0, s[b].0));
                    } else if a > i {
                        assert(lex_lt(s[a - 1].0, s[b - 1].0));
                    } else if a < i && b > i {
                        assert(lex_lt(s[a].0, s[b - 1].0));
                    } else if b == i {
                        assert(lex_lt(s[a].0, key@));
                    } else {
                        assert(lex_lt(key@, s[b - 1].0));
                    }
                }
                assert(keys_ascend(t));
                Self::lemma_inserted(s, t, i as int, (key@, value));
            }
        }
    }

    proof fn lemma_same_keys(
        s: Seq<(Seq<u8>, V)>,
        t: Seq<(Seq<u8>, V)>,
        i: int,
        e: (Seq<u8>, V),
    )
        requires
            keys_ascend(s),
            keys_ascend(t),
            0 <= i < s.len(),
            s[i].0 == e.0,
            t == s.update(i, e),
        ensures
            map_of(t) == map_of(s).insert(e.0, e.1),
    {
        lemma_map_of(s);
        lemma_map_of(t);
        let want = map_of(s).insert(e.0, e.1);
        assert forall|k: Seq<u8>| #[trigger] map_of(t).contains_key(k) == want.contains_key(k) by {
            if map_of(t).contains_key(k) {
                let j = choose|j: int| 0 <= j < t.len() && t[j].0 == k;
                assert(s[j].0 == k);
            }
            if map_of(s).contains_key(k) {
                let j = choose|j: int| 0 <= j < s.len() && s[j].0 == k;
                assert(t[j].0 == k);
            }
            assert(t[i].0 == e.0);
        }
        assert forall|k: Seq<u8>| #[trigger] map_of(t).contains_key(k) implies map_of(t)[k]
            == want[k] by {
            let j = choose|j: int| 0 <= j < t.len() && t[j].0 == k;
            assert(map_of(t)[t[j].0] == t[j].1);
            if j != i {
                assert(s[j] == t[j]);
                if k == e.0 {
                    if i < j {
                        assert(lex_lt(s[i].0, s[j].0));
                    } else {
                        assert(lex_lt(s[j].0, s[i].0));
                    }
                    lemma_lex_irreflexive(k);
                }
            }
        }
        assert(map_of(t) =~= want);
    }

    proof fn lemma_inserted(
        s: Seq<(Seq<u8>, V)>,
        t: Seq<(Seq<u8>, V)>,
        i: int,
        e: (Seq<u8>, V),
    )
        requires
            keys_ascend(s),
            keys_ascend(t),
            0 <= i <= s.len(),
            t == s.insert(i, e),
            !map_of(s).contains_key(e.0),
        ensures
            map_of(t) == map_of(s).insert(e.0, e.1),
    {
        lemma_map_of(s);
        lemma_map_of(t);
        let want = map_of(s).insert(e.0, e.1);
        assert(t[i] == e);
        assert forall|k: Seq<u8>| #[trigger] map_of(t).contains_key(k) == want.contains_key(k) by {
            if map_of(t).contains_key(k) {
                let j = choose|j: int| 0 <= j < t.len() && t[j].0 == k;
                if j < i {
                    assert(s[j] == t[j]);
                } else if j > i {
                    assert(s[j - 1] == t[j]);
                }
            }
            if map_of(s).contains_key(k) {
                let j = choose|j: int| 0 <= j < s.len() && s[j].0 == k;
                if j < i {
                    assert(s[j] == t[j]);
                } else {
                    assert(s[j] == t[j + 1]);
                }
            }
        }
        assert forall|k: Seq<u8>| #[trigger] map_of(t).contains_key(k) implies map_of(t)[k]
            == want[k] by {
            let j = choose|j: int| 0 <= j < t.len() && t[j].0 == k;
            assert(map_of(t)[t[j].0] == t[j].1);
            if j < i {
                assert(s[j] == t[j]);
            } else if j > i {
                assert(s[j - 1] == t[j]);
            }
        }
        assert(map_of(t) =~= want);
    }

    /// Drops `key`; says whether it was there.
    pub fn remove(&mut self, key: &[u8]) -> (r: bool)
        requires
            old(self).wf(),
        ensures
            final(self).wf(),
            r == old(self)@.contains_key(key@),
            final(self)@ == old(self)@.remove(key@),
    {
        let i: usize = self.position(key);
        let ghost s = self.pairs();
        if i < self.entries.len() && same_bytes(self.entries[i].0.as_slice(), key) {
            let gone: (Vec<u8>, V) = self.entries.remove(i);
            proof {
                let t = self.pairs();
                assert(t =~= s.remove(i as int));
                assert forall|a: int, b: int| 0 <= a < b < t.len() implies lex_lt(
                    t[a].0,
                    t[b].0,
                ) by {
                    let x = if a < i {
                        a
                    } else {
                        a + 1
                    };
                    let y = if b < i {
                        b
                    } else {
                        b + 1
                    };
                    assert(lex_lt(s[x].0, s[y].0));
                }
                assert(keys_ascend(t));
                lemma_map_of(s);
                lemma_map_of(t);
                let want = map_of(s).remove(key@);
                assert(s[i as int].0 == key@);
                assert forall|k: Seq<u8>| #[trigger]
                    map_of(t).contains_key(k) == want.contains_key(k) by {
                    if map_of(t).contains_key(k) {
                        let j = choose|j: int| 0 <= j < t.len() && t[j].0 == k;
                        if j < i {
                            assert(s[j] == t[j]);
                            assert(lex_lt(s[j].0, s[i as int].0));
                        } else {
                            assert(s[j + 1] == t[j]);
                            assert(lex_lt(s[i as int].0, s[j + 1].0));
                        }
                        lemma_lex_irreflexive(k);
                    }
                    if want.contains_key(k) {
                        let j = choose|j: int| 0 <= j < s.len() && s[j].0 == k;
                        if j < i {
                            assert(s[j] == t[j]);
                        } else {
                            assert(s[j] == t[j - 1]);
                        }
                    }
                }
                assert forall|k: Seq<u8>| #[trigger]
                    map_of(t).contains_key(k) implies map_of(t)[k] == want[k] by {
                    let j = choose|j: int| 0 <= j < t.len() && t[j].0 == k;
                    assert(map_of(t)[t[j].0] == t[j].1);
                    if j < i {
                        assert(s[j] == t[j]);
                    } else {
                        assert(s[j + 1] == t[j]);
                    }
                }
                assert(map_of(t) =~= want);
            }
            true
        } else {
            proof {
                self.lemma_absent(i as int, key@);
                assert(self@.remove(key@) =~= self@);
            }
            false
        }
    }

    /// The pairs whose key starts with `prefix`, in key order.
    pub fn scan(&self, prefix: &[u8]) -> (r: Vec<(Vec<u8>, V)>)
        ensures
            pair_view(r@) == with_prefix(self.pairs(), prefix@),
    {
        let mut r: Vec<(Vec<u8>, V)> = Vec::new();
        let mut i: usize = 0;
        proof {
            assert(self.pairs().take(0) =~= Seq::empty());
            assert(pair_view(r@) =~= Seq::empty());
        }
        while i < self.entries.len()
            invariant
                i <= self.entries.len(),
                self.pairs() == pair_view(self.entries@),
                pair_view(r@) == with_prefix(self.pairs().take(i as int), prefix@),
            decreases self.entries.len() - i,
        {
            proof {
                assert(self.pairs().take(i + 1).drop_last() =~= self.pairs().take(i as int));
            }
            let ghost before = r@;
            if starts_with(self.entries[i].0.as_slice(), prefix) {
                let k: Vec<u8> = copy_key(self.entries[i].0.as_slice());
                r.push((k, self.entries[i].1));
                proof {
                    assert(pair_view(r@) =~= pair_view(before).push(self.pairs()[i as int]));
                }
            }
            i = i + 1;
        }
        proof {
            assert(self.pairs().take(i as int) =~= self.pairs());
        }
        r
    }

    /// A copy of the map.
    pub fn duplicate(&self) -> (r: Self)
        requires
            self.wf(),
        ensures
            r.wf(),
            r@ == self@,
            r.pairs() == self.pairs(),
    {
        let mut entries: Vec<(Vec<u8>, V)> = Vec::new();
        let mut i: usize = 0;
        while i < self.entries.len()
            invariant
                i <= self.entries.len(),
                entries.len() == i,
                forall|k: int|
                    0 <= k < i ==> (#[trigger] entries@[k]).0@ == self.entries@[k].0@
                        && entries@[k].1 == self.entries@[k].1,
            decreases self.entries.len() - i,
        {
            let k: Vec<u8> = copy_key(self.entries[i].0.as_slice());
            entries.push((k, self.entries[i].1));
            i = i + 1;
        }
        let r: Self = ByteMap { entries };
        proof {
            assert(r.pairs() =~= self.pairs());
        }
        r
    }
}

} // verus!
