//! Merging what another replica knows of a unit into what this one knows.
use vstd::prelude::*;

use crate::block::{dot_seen, has_seen_dot};
use crate::crypto::Crypto;
use crate::engine::Engine;
use crate::resize::{shortest_suites, suites_form};
use crate::unit::{empty_stream, hole, is_hole, BlockLoc, RecordModel, StreamMeta, StreamModel, UnitRecord};
use crate::vector::{vv_dominates, vv_get, vv_is_join, VersionVector};

verus! {

/// `a` has everything that `b` has, and more.
pub open spec fn strictly_ahead(a: Seq<(u16, u64)>, b: Seq<(u16, u64)>) -> bool {
    vv_dominates(a, b) && a != b
}

pub fn is_strictly_ahead(a: &VersionVector, b: &VersionVector) -> (r: bool)
    ensures
        r == strictly_ahead(a@, b@),
{
    a.dominates(b) && !a.same(b)
}

/// The content stream of a record that may not be there.
pub open spec fn stream_or_empty(r: Option<RecordModel>) -> StreamModel {
    match r {
        Some(m) => m.stream(),
        None => empty_stream(),
    }
}

pub open spec fn version_at(um: Seq<u64>, f: int) -> u64 {
    if 0 <= f < um.len() {
        um[f]
    } else {
        0
    }
}

pub open spec fn loc_at(locs: Seq<BlockLoc>, f: int) -> BlockLoc {
    if 0 <= f < locs.len() {
        locs[f]
    } else {
        hole()
    }
}

pub fn version_or_none(um: &Vec<u64>, f: usize) -> (r: u64)
    ensures
        r == version_at(um@, f as int),
{
    if f < um.len() {
        um[f]
    } else {
        0
    }
}

pub fn loc_or_hole(locs: &Vec<BlockLoc>, f: usize) -> (r: BlockLoc)
    ensures
        r == loc_at(locs@, f as int),
{
    if f < locs.len() {
        locs[f]
    } else {
        BlockLoc { addr: 0, len: 0 }
    }
}

/// Where the fragments of a unit lie after it moved on to the versions `um`:
/// blocks of versions that stayed are kept, the others are not here yet.
pub open spec fn forward_locations(sm: StreamModel, um: Seq<u64>) -> Seq<BlockLoc> {
    Seq::new(
        um.len(),
        |i: int|
            if i < sm.unit_map.len() && i < sm.locations.len() && sm.unit_map[i] == um[i] {
                sm.locations[i]
            } else {
                hole()
            },
    )
}

pub fn keep_forward(sm: &StreamMeta, um: &Vec<u64>) -> (r: Vec<BlockLoc>)
    ensures
        r@ == forward_locations(sm@, um@),
{
    let mut out: Vec<BlockLoc> = Vec::new();
    let mut i: usize = 0;
    while i < um.len()
        invariant
            i <= um@.len(),
            out@.len() == i,
            forall|k: int| 0 <= k < i ==> #[trigger] out@[k] == forward_locations(sm@, um@)[k],
        decreases um@.len() - i,
    {
        if i < sm.unit_map.len() && i < sm.locations.len() && sm.unit_map[i] == um[i] {
            out.push(sm.locations[i]);
        } else {
            out.push(BlockLoc { addr: 0, len: 0 });
        }
        i = i + 1;
    }
    proof {
        assert(out@ =~= forward_locations(sm@, um@));
    }
    out
}

// ── Concurrent versions ─────────────────────────────────────────────────────

/// How two concurrent versions of a fragment relate.
#[derive(Clone, Copy, Debug, PartialEq, Eq, Structural)]
pub enum FragmentFate {
    /// The local version stands: it is the same, or has seen the other one.
    Keep,
    /// The other version has seen the local one and replaces it.
    Take,
    /// Neither has seen the other.
    Conflict,
}

/// What becomes of a fragment: `l` and `p` are the local and the other vector,
/// `x` and `y` the versions of the fragment.
pub open spec fn fate(l: Seq<(u16, u64)>, p: Seq<(u16, u64)>, x: u64, y: u64) -> FragmentFate {
    if x == y || dot_seen(l, y) {
        FragmentFate::Keep
    } else if dot_seen(p, x) {
        FragmentFate::Take
    } else {
        FragmentFate::Conflict
    }
}

pub fn fragment_fate(l: &VersionVector, p: &VersionVector, x: u64, y: u64) -> (r: FragmentFate)
    ensures
        r == fate(l@, p@, x, y),
{
    if x == y {
        FragmentFate::Keep
    } else if has_seen_dot(l, y) {
        FragmentFate::Keep
    } else if has_seen_dot(p, x) {
        FragmentFate::Take
    } else {
        FragmentFate::Conflict
    }
}

pub open spec fn fate_at(
    sm: StreamModel,
    um: Seq<u64>,
    p: Seq<(u16, u64)>,
    f: int,
) -> FragmentFate {
    fate(sm.vv, p, version_at(sm.unit_map, f), version_at(um, f))
}

pub open spec fn longer(a: nat, b: nat) -> nat {
    if a >= b {
        a
    } else {
        b
    }
}

/// Some fragment was changed on both sides.
pub open spec fn conflicts(sm: StreamModel, um: Seq<u64>, p: Seq<(u16, u64)>) -> bool {
    exists|f: int|
        0 <= f < longer(sm.unit_map.len(), um.len()) && #[trigger] fate_at(sm, um, p, f)
            == FragmentFate::Conflict
}

/// The versions after the merge, fragment by fragment.
pub open spec fn merged_map(sm: StreamModel, um: Seq<u64>, p: Seq<(u16, u64)>) -> Seq<u64> {
    Seq::new(
        longer(sm.unit_map.len(), um.len()),
        |f: int|
            if fate_at(sm, um, p, f) == FragmentFate::Take {
                version_at(um, f)
            } else {
                version_at(sm.unit_map, f)
            },
    )
}

/// Where the fragments lie after the merge; those taken over are not here yet.
pub open spec fn merged_locations(
    sm: StreamModel,
    um: Seq<u64>,
    p: Seq<(u16, u64)>,
) -> Seq<BlockLoc> {
    Seq::new(
        longer(sm.unit_map.len(), um.len()),
        |f: int|
            if fate_at(sm, um, p, f) == FragmentFate::Take {
                hole()
            } else {
                loc_at(sm.locations, f)
            },
    )
}

/// Merges the versions of two concurrent streams, and says whether there was a
/// conflict.
pub fn merge_fragments(sm: &StreamMeta, um: &Vec<u64>, p: &VersionVector) -> (r: (
    bool,
    Vec<u64>,
    Vec<BlockLoc>,
))
    ensures
        r.0 == conflicts(sm@, um@, p@),
        r.1@ == merged_map(sm@, um@, p@),
        r.2@ == merged_locations(sm@, um@, p@),
{
    let total: usize = if sm.unit_map.len() >= um.len() {
        sm.unit_map.len()
    } else {
        um.len()
    };
    let mut conflict: bool = false;
    let mut map: Vec<u64> = Vec::new();
    let mut locs: Vec<BlockLoc> = Vec::new();
    let mut f: usize = 0;
    while f < total
        invariant
            total == longer(sm@.unit_map.len(), um@.len()),
            f <= total,
            map@.len() == f,
            locs@.len() == f,
            forall|k: int| 0 <= k < f ==> #[trigger] map@[k] == merged_map(sm@, um@, p@)[k],
            forall|k: int| 0 <= k < f ==> #[trigger] locs@[k] == merged_locations(sm@, um@, p@)[k],
            !conflict ==> forall|k: int|
                0 <= k < f ==> #[trigger] fate_at(sm@, um@, p@, k) != FragmentFate::Conflict,
            conflict ==> conflicts(sm@, um@, p@),
        decreases total - f,
    {
        let x: u64 = version_or_none(&sm.unit_map, f);
        let y: u64 = version_or_none(um, f);
        let loc: BlockLoc = loc_or_hole(&sm.locations, f);
        let what: FragmentFate = fragment_fate(&sm.vv, p, x, y);
        proof {
            assert(what == fate_at(sm@, um@, p@, f as int));
        }
        match what {
            FragmentFate::Keep => {
                map.push(x);
                locs.push(loc);
            },
            FragmentFate::Take => {
                map.push(y);
                locs.push(BlockLoc { addr: 0, len: 0 });
            },
            FragmentFate::Conflict => {
                conflict = true;
                map.push(x);
                locs.push(loc);
            },
        }
        f = f + 1;
    }
    proof {
        assert(map@ =~= merged_map(sm@, um@, p@));
        assert(locs@ =~= merged_locations(sm@, um@, p@));
    }
    (conflict, map, locs)
}

impl<C: Crypto> Engine<C> {
    /// The strains that a head with vector `vv` does not contain. Strains that
    /// cannot be read are left out.
    pub open spec fn kept_strains(&self, strains: Seq<u64>, vv: Seq<(u16, u64)>) -> Seq<u64>
        decreases strains.len(),
    {
        if strains.len() == 0 {
            Seq::empty()
        } else {
            let rest = self.kept_strains(strains.drop_last(), vv);
            match self.record(strains.last()) {
                Err(_) => rest,
                Ok(m) => if strictly_ahead(vv, m.content_vv()) {
                    rest
                } else {
                    rest.push(strains.last())
                },
            }
        }
    }

    pub proof fn lemma_kept_strains(&self, strains: Seq<u64>, vv: Seq<(u16, u64)>)
        ensures
            forall|i: int|
                0 <= i < self.kept_strains(strains, vv).len() ==> strains.contains(
                    #[trigger] self.kept_strains(strains, vv)[i],
                ),
        decreases strains.len(),
    {
        if strains.len() > 0 {
            let p = strains.drop_last();
            self.lemma_kept_strains(p, vv);
            let out = self.kept_strains(strains, vv);
            let rest = self.kept_strains(p, vv);
            assert forall|i: int| 0 <= i < out.len() implies strains.contains(#[trigger] out[i]) by {
                if i < rest.len() {
                    assert(out[i] == rest[i]);
                    let j = choose|j: int| 0 <= j < p.len() && p[j] == rest[i];
                    assert(strains[j] == out[i]);
                } else {
                    assert(strains[strains.len() - 1] == out[i]);
                }
            }
        }
    }

    /// Picks the strains that a head with vector `vv` does not contain.
    pub fn strains_left(&self, strains: &Vec<u64>, vv: &VersionVector) -> (r: Vec<u64>)
        ensures
            r@ == self.kept_strains(strains@, vv@),
    {
        let mut out: Vec<u64> = Vec::new();
        let n: usize = strains.len();
        let mut i: usize = 0;
        proof {
            assert(strains@.take(0) =~= Seq::empty());
        }
        while i < n
            invariant
                n == strains@.len(),
                i <= n,
                out@ == self.kept_strains(strains@.take(i as int), vv@),
            decreases n - i,
        {
            let addr: u64 = strains[i];
            proof {
                assert(strains@.take(i + 1).drop_last() =~= strains@.take(i as int));
                assert(strains@.take(i + 1).last() == addr);
            }
            match self.read_record_at(addr) {
                Err(_) => {},
                Ok(rec) => {
                    let theirs: VersionVector = rec.vector();
                    if !is_strictly_ahead(vv, &theirs) {
                        out.push(addr);
                    }
                },
            }
            i = i + 1;
        }
        proof {
            assert(strains@.take(n as int) =~= strains@);
        }
        out
    }

    /// The suites of a unit's fragments once it has `locs`: blocks that stayed
    /// keep theirs, and what is to come is put down under the present suite.
    pub open spec fn preserved_suites(
        &self,
        existing: Option<RecordModel>,
        locs: Seq<BlockLoc>,
    ) -> Seq<u8> {
        Seq::new(
            locs.len(),
            |i: int|
                if locs[i] != hole() && existing is Some && existing->Some_0.content is Some
                    && loc_at(existing->Some_0.stream().locations, i) == locs[i] {
                    self.suite(existing->Some_0, i)
                } else {
                    self.header.content_cipher
                },
        )
    }

    /// The suites for a record that keeps some of the blocks of `existing`.
    pub fn preserve_frag_suites(&self, existing: &Option<UnitRecord>, locs: &Vec<BlockLoc>) -> (r: (
        u8,
        Vec<u8>,
    ))
        ensures
            (r.0, r.1@) == suites_form(
                self.preserved_suites(record_view(*existing), locs@),
                self.header.content_cipher,
            ),
    {
        let cc: u8 = self.header.content_cipher;
        let ghost want = self.preserved_suites(record_view(*existing), locs@);
        let mut full: Vec<u8> = Vec::new();
        let mut i: usize = 0;
        while i < locs.len()
            invariant
                i <= locs@.len(),
                cc == self.header.content_cipher,
                want == self.preserved_suites(record_view(*existing), locs@),
                full@.len() == i,
                forall|k: int| 0 <= k < i ==> #[trigger] full@[k] == want[k],
            decreases locs@.len() - i,
        {
            let mut s: u8 = cc;
            let loc: BlockLoc = locs[i];
            if !is_hole(loc) {
                match existing {
                    None => {},
                    Some(rec) => match &rec.content {
                        None => {},
                        Some(sm) => {
                            let was: BlockLoc = loc_or_hole(&sm.locations, i);
                            if was.addr == loc.addr && was.len == loc.len {
                                s = self.content_frag_suite_id(rec, i);
                            }
                        },
                    },
                }
            }
            full.push(s);
            i = i + 1;
        }
        proof {
            assert(full@ =~= want);
        }
        shortest_suites(full, cc)
    }

    /// The suites of a unit's fragments after fragment `frag` came in under
    /// suite `suite`.
    pub open spec fn imported_suites(
        &self,
        base: RecordModel,
        n: nat,
        frag: int,
        suite: u8,
    ) -> Seq<u8> {
        Seq::new(
            n,
            |i: int|
                if i == frag {
                    suite
                } else {
                    self.suite(base, i)
                },
        )
    }

    /// The suites for a record with `n` fragments, of which `frag` came in under
    /// suite `suite`.
    pub fn import_frag_suites(&self, base: &UnitRecord, n: usize, frag: usize, suite: u8) -> (r: (
        u8,
        Vec<u8>,
    ))
        requires
            n > 0,
        ensures
            (r.0, r.1@) == suites_form(
                self.imported_suites(base@, n as nat, frag as int, suite),
                suite,
            ),
    {
        let ghost want = self.imported_suites(base@, n as nat, frag as int, suite);
        let mut full: Vec<u8> = Vec::new();
        let mut i: usize = 0;
        while i < n
            invariant
                i <= n,
                want == self.imported_suites(base@, n as nat, frag as int, suite),
                full@.len() == i,
                forall|k: int| 0 <= k < i ==> #[trigger] full@[k] == want[k],
            decreases n - i,
        {
            if i == frag {
                full.push(suite);
            } else {
                full.push(self.content_frag_suite_id(base, i));
            }
            i = i + 1;
        }
        proof {
            assert(full@ =~= want);
        }
        shortest_suites(full, suite)
    }
}

pub open spec fn record_view(r: Option<UnitRecord>) -> Option<RecordModel> {
    match r {
        Some(x) => Some(x@),
        None => None,
    }
}

// ── Laws ────────────────────────────────────────────────────────────────────

/// A merge without a conflict loses no write of either side: the version that it
/// keeps of a fragment is the one of a side, and the joined vector has seen both
/// sides' versions.
pub proof fn law_merge_has_seen_both_sides(
    sm: StreamModel,
    um: Seq<u64>,
    p: Seq<(u16, u64)>,
    joined: Seq<(u16, u64)>,
    f: int,
)
    requires
        vv_is_join(sm.vv, p, joined),
        0 <= f < longer(sm.unit_map.len(), um.len()),
        dot_seen(sm.vv, version_at(sm.unit_map, f)),
        dot_seen(p, version_at(um, f)),
    ensures
        dot_seen(joined, version_at(sm.unit_map, f)),
        dot_seen(joined, version_at(um, f)),
        merged_map(sm, um, p)[f] == version_at(sm.unit_map, f) || merged_map(sm, um, p)[f]
            == version_at(um, f),
{
    let h = crate::block::dot_host(version_at(sm.unit_map, f));
    let g = crate::block::dot_host(version_at(um, f));
    assert(vv_get(joined, h) >= vv_get(sm.vv, h));
    assert(vv_get(joined, g) >= vv_get(p, g));
}

/// Which version of a fragment a merge without a conflict ends up with does not
/// depend on whose side merges, as long as each side has seen its own versions
/// and two versions that have seen each other are the same.
pub proof fn law_merge_is_symmetric(a: StreamModel, b: StreamModel)
    requires
        !conflicts(a, b.unit_map, b.vv),
        forall|f: int|
            0 <= f < longer(a.unit_map.len(), b.unit_map.len()) && #[trigger] version_at(
                a.unit_map,
                f,
            ) != version_at(b.unit_map, f) ==> !(dot_seen(a.vv, version_at(b.unit_map, f))
                && dot_seen(b.vv, version_at(a.unit_map, f))),
    ensures
        !conflicts(b, a.unit_map, a.vv),
        merged_map(a, b.unit_map, b.vv) == merged_map(b, a.unit_map, a.vv),
{
    let n = longer(a.unit_map.len(), b.unit_map.len());
    assert forall|f: int| 0 <= f < n implies #[trigger] fate_at(b, a.unit_map, a.vv, f)
        != FragmentFate::Conflict by {
        assert(fate_at(a, b.unit_map, b.vv, f) != FragmentFate::Conflict);
    }
    assert forall|f: int| 0 <= f < n implies merged_map(a, b.unit_map, b.vv)[f] == merged_map(
        b,
        a.unit_map,
        a.vv,
    )[f] by {
        assert(fate_at(a, b.unit_map, b.vv, f) != FragmentFate::Conflict);
        assert(version_at(a.unit_map, f) == version_at(a.unit_map, f));
    }
    assert(merged_map(a, b.unit_map, b.vv) =~= merged_map(b, a.unit_map, a.vv));
}

/// What a merge does with a fragment that is in version `x` here and in version `y`
/// there: a version that the other side has not seen yet replaces one that it has.
/// If neither side has seen the other's, the two are in conflict.
pub proof fn law_merge_takes_what_is_new(sm: StreamModel, um: Seq<u64>, p: Seq<(u16, u64)>, f: int)
    requires
        0 <= f,
        f < sm.unit_map.len() || f < um.len(),
        sm.locations.len() == sm.unit_map.len(),
    ensures
        ({
            let x: u64 = if f < sm.unit_map.len() {
                sm.unit_map[f]
            } else {
                0
            };
            let y: u64 = if f < um.len() {
                um[f]
            } else {
                0
            };
            let y_is_new = vv_get(sm.vv, (y % 0x1_0000) as u16) < y / 0x1_0000;
            let x_is_new = vv_get(p, (x % 0x1_0000) as u16) < x / 0x1_0000;
            &&& f < merged_map(sm, um, p).len()
            &&& merged_map(sm, um, p).len() == merged_locations(sm, um, p).len()
            &&& merged_map(sm, um, p).len() == sm.unit_map.len() || merged_map(sm, um, p).len()
                == um.len()
            &&& x == y || !y_is_new ==> {
                &&& merged_map(sm, um, p)[f] == x
                &&& f < sm.unit_map.len() ==> merged_locations(sm, um, p)[f] == sm.locations[f]
            }
            &&& x != y && y_is_new && !x_is_new ==> {
                &&& merged_map(sm, um, p)[f] == y
                &&& merged_locations(sm, um, p)[f].addr == 0
            }
            &&& x != y && y_is_new && x_is_new ==> conflicts(sm, um, p)
        }),
{
    assert(fate_at(sm, um, p, f) == fate(
        sm.vv,
        p,
        version_at(sm.unit_map, f),
        version_at(um, f),
    ));
}

/// A conflict is a fragment in two versions, neither of which the other side has
/// seen.
pub proof fn law_conflicts_are_fragments_changed_on_both_sides(
    sm: StreamModel,
    um: Seq<u64>,
    p: Seq<(u16, u64)>,
) -> (f: int)
    requires
        conflicts(sm, um, p),
    ensures
        ({
            let x: u64 = if f < sm.unit_map.len() {
                sm.unit_map[f]
            } else {
                0
            };
            let y: u64 = if f < um.len() {
                um[f]
            } else {
                0
            };
            &&& 0 <= f
            &&& f < sm.unit_map.len() || f < um.len()
            &&& x != y
            &&& vv_get(sm.vv, (y % 0x1_0000) as u16) < y / 0x1_0000
            &&& vv_get(p, (x % 0x1_0000) as u16) < x / 0x1_0000
        }),
{
    choose|f: int|
        0 <= f < longer(sm.unit_map.len(), um.len()) && #[trigger] fate_at(sm, um, p, f)
            == FragmentFate::Conflict
}

/// A unit that moves on keeps the blocks of the versions that stayed, in place, and
/// waits for the others.
pub proof fn law_moving_on_keeps_what_stayed(sm: StreamModel, um: Seq<u64>, f: int)
    requires
        0 <= f < um.len(),
        sm.locations.len() == sm.unit_map.len(),
    ensures
        forward_locations(sm, um).len() == um.len(),
        f < sm.unit_map.len() && sm.unit_map[f] == um[f] ==> forward_locations(sm, um)[f]
            == sm.locations[f],
        !(f < sm.unit_map.len() && sm.unit_map[f] == um[f]) ==> forward_locations(sm, um)[f].addr
            == 0,
{
}

/// A strain stays beside a head as long as it can be read and the head's vector has
/// not gone past its own.
pub proof fn law_strains_stay_until_contained<C: Crypto>(
    e: &Engine<C>,
    strains: Seq<u64>,
    vv: Seq<(u16, u64)>,
    a: u64,
)
    ensures
        e.kept_strains(strains, vv).contains(a) <==> strains.contains(a) && e.record(a) is Ok && !(
        (forall|h: u16| #[trigger]
            vv_get(vv, h) >= vv_get(e.record(a)->Ok_0.stream().vv, h)) && vv
            != e.record(a)->Ok_0.stream().vv),
    decreases strains.len(),
{
    if strains.len() > 0 {
        let p = strains.drop_last();
        let k = e.kept_strains(p, vv);
        let kept = e.kept_strains(strains, vv);
        law_strains_stay_until_contained(e, p, vv, a);
        if k.contains(a) {
            let j = choose|j: int| 0 <= j < k.len() && k[j] == a;
            assert(kept[j] == a);
        }
        if p.contains(a) {
            let j = choose|j: int| 0 <= j < p.len() && p[j] == a;
            assert(strains[j] == a);
        }
        if a == strains.last() {
            assert(strains[strains.len() - 1] == a);
            if kept.len() > k.len() {
                assert(kept[k.len() as int] == a);
            }
        }
        if kept.contains(a) {
            let j = choose|j: int| 0 <= j < kept.len() && kept[j] == a;
            if j < k.len() {
                assert(k[j] == a);
            }
        }
        if strains.contains(a) {
            let j = choose|j: int| 0 <= j < strains.len() && strains[j] == a;
            if j < p.len() {
                assert(p[j] == a);
            }
        }
    }
}

} // verus!
