//! Laws on paths: where units go when subtrees are renamed, and what listings show.
use vstd::prelude::*;
use vstd::utf8::{decode_utf8, encode_utf8, valid_utf8};

use crate::catalog::{
    has_prefix, keys_ascend, lemma_lex_irreflexive, lemma_map_of, lex_lt, with_prefix,
};
use crate::crypto::Crypto;
use crate::engine::Engine;
use crate::error::Error;
use crate::names::{
    after_moves, all_text, is_within, moved_key, pairs_within, seg_len, DirEntry,
};
use crate::unit::{RecordModel, Uuid};

verus! {

/// Gives the places of the pairs within `base`.
proof fn lemma_within_places(s: Seq<(Seq<u8>, Uuid)>, base: Seq<u8>) -> (at: Seq<int>)
    ensures
        at.len() == pairs_within(s, base).len(),
        forall|i: int| 0 <= i < at.len() ==> 0 <= #[trigger] at[i] < s.len(),
        forall|i: int, j: int| 0 <= i < j < at.len() ==> at[i] < at[j],
        forall|i: int| 0 <= i < at.len() ==> pairs_within(s, base)[i] == s[#[trigger] at[i]],
        forall|a: int| 0 <= a < s.len() ==> (at.contains(a) <==> is_within((#[trigger] s[a]).0, base)),
    decreases s.len(),
{
    if s.len() == 0 {
        Seq::empty()
    } else {
        let p = s.drop_last();
        let n = p.len() as int;
        let prev = lemma_within_places(p, base);
        let at = if is_within(s.last().0, base) {
            prev.push(n)
        } else {
            prev
        };
        assert forall|a: int| 0 <= a < s.len() implies (at.contains(a) <==> is_within(
            (#[trigger] s[a]).0,
            base,
        )) by {
            if a < n {
                assert(p[a] == s[a]);
                if prev.contains(a) {
                    let j = choose|j: int| 0 <= j < prev.len() && prev[j] == a;
                    assert(at[j] == a);
                }
                if at.contains(a) {
                    let j = choose|j: int| 0 <= j < at.len() && at[j] == a;
                    assert(prev[j] == a);
                }
            } else {
                if is_within(s.last().0, base) {
                    assert(at[prev.len() as int] == a);
                }
                if prev.contains(a) {
                    let j = choose|j: int| 0 <= j < prev.len() && prev[j] == a;
                    assert(false);
                }
            }
        }
        at
    }
}

/// What lies within `base` is `base`, or `base`, a slash and the rest.
proof fn lemma_within(k: Seq<u8>, base: Seq<u8>)
    ensures
        is_within(k, base) ==> k == base || k == base + seq![0x2fu8] + k.skip(base.len() as int + 1),
        is_within(base, base),
        forall|rest: Seq<u8>| #[trigger] (base + seq![0x2fu8] + rest) == k ==> is_within(k, base),
{
    if is_within(k, base) && k != base {
        assert(k =~= base + seq![0x2fu8] + k.skip(base.len() as int + 1)) by {
            assert forall|i: int| 0 <= i < base.len() implies k[i] == base[i] by {
                assert(k.take(base.len() as int)[i] == k[i]);
            }
        }
    }
    assert forall|rest: Seq<u8>| #[trigger] (base + seq![0x2fu8] + rest) == k implies is_within(
        k,
        base,
    ) by {
        assert(k.take(base.len() as int) =~= base);
    }
}

/// The moves do not get into each other's way.
spec fn moves_apart(
    m: Map<Seq<u8>, Uuid>,
    moves: Seq<(Seq<u8>, Uuid)>,
    from: Seq<u8>,
    to: Seq<u8>,
) -> bool {
    &&& !is_within(to, from)
    &&& forall|k: Seq<u8>| #[trigger] m.contains_key(k) ==> !is_within(k, to)
    &&& forall|i: int|
        0 <= i < moves.len() ==> m.contains_key((#[trigger] moves[i]).0) && m[moves[i].0]
            == moves[i].1 && is_within(moves[i].0, from)
    &&& forall|i: int, j: int| 0 <= i < j < moves.len() ==> moves[i].0 != moves[j].0
}

proof fn lemma_moved(k: Seq<u8>, from: Seq<u8>, to: Seq<u8>)
    requires
        is_within(k, from),
    ensures
        is_within(moved_key(k, from, to), to),
        k == from ==> moved_key(k, from, to) == to,
        k != from ==> moved_key(k, from, to) == to + seq![0x2fu8] + k.skip(from.len() as int + 1),
        k == from + moved_key(k, from, to).skip(to.len() as int),
{
    let d = moved_key(k, from, to);
    lemma_within(k, from);
    if k == from {
        assert(d =~= to);
    } else {
        assert(d =~= to + seq![0x2fu8] + k.skip(from.len() as int + 1));
        assert(d.take(to.len() as int) =~= to);
    }
    assert(k =~= from + d.skip(to.len() as int));
}

proof fn lemma_after_other(
    m: Map<Seq<u8>, Uuid>,
    moves: Seq<(Seq<u8>, Uuid)>,
    from: Seq<u8>,
    to: Seq<u8>,
    n: nat,
    k: Seq<u8>,
)
    requires
        moves_apart(m, moves, from, to),
        n <= moves.len(),
        m.contains_key(k),
        !is_within(k, from),
    ensures
        after_moves(m, moves, from, to, n).contains_key(k),
        after_moves(m, moves, from, to, n)[k] == m[k],
    decreases n,
{
    if n > 0 {
        lemma_after_other(m, moves, from, to, (n - 1) as nat, k);
        lemma_moved(moves[n - 1].0, from, to);
    }
}

proof fn lemma_after_moved(
    m: Map<Seq<u8>, Uuid>,
    moves: Seq<(Seq<u8>, Uuid)>,
    from: Seq<u8>,
    to: Seq<u8>,
    n: nat,
    i: int,
)
    requires
        moves_apart(m, moves, from, to),
        n <= moves.len(),
        0 <= i < n,
    ensures
        after_moves(m, moves, from, to, n).contains_key(moved_key(moves[i].0, from, to)),
        after_moves(m, moves, from, to, n)[moved_key(moves[i].0, from, to)] == moves[i].1,
        !after_moves(m, moves, from, to, n).contains_key(moves[i].0),
    decreases n,
{
    let k = moves[i].0;
    let l = moves[n - 1].0;
    lemma_moved(k, from, to);
    lemma_moved(l, from, to);
    assert(m.contains_key(k) && m.contains_key(l));
    if i < n - 1 {
        lemma_after_moved(m, moves, from, to, (n - 1) as nat, i);
        assert(k != l);
    }
}

proof fn lemma_after_only(
    m: Map<Seq<u8>, Uuid>,
    moves: Seq<(Seq<u8>, Uuid)>,
    from: Seq<u8>,
    to: Seq<u8>,
    n: nat,
    k: Seq<u8>,
)
    requires
        moves_apart(m, moves, from, to),
        n <= moves.len(),
        after_moves(m, moves, from, to, n).contains_key(k),
    ensures
        m.contains_key(k) || exists|i: int|
            0 <= i < n && moved_key((#[trigger] moves[i]).0, from, to) == k,
    decreases n,
{
    if n > 0 {
        let l = moves[n - 1].0;
        if moved_key(l, from, to) != k {
            lemma_after_only(m, moves, from, to, (n - 1) as nat, k);
        }
    }
}

/// Renaming a subtree moves the path itself and every path that goes on with a
/// slash, and nothing else: what follows the old name follows the new one, the unit
/// is the same, and every other path is bound as before. It is refused, and then
/// nothing changes, where the new name lies at or below the old one, where nothing
/// lies at or below the old one, and where something lies at or below the new one
/// already.
///
/// Gives the paths that moved; their number is the result.
pub proof fn law_renaming_moves_the_subtree<C: Crypto>(
    o: &Engine<C>,
    e: &Engine<C>,
    from: Seq<u8>,
    to: Seq<u8>,
    r: Result<u64, Error>,
) -> (moved: Seq<Seq<u8>>)
    requires
        o.inv(),
        Engine::<C>::prefix_renamed(o, e, from, to, r),
    ensures
        forall|i: int, j: int| 0 <= i < j < moved.len() ==> lex_lt(moved[i], moved[j]),
        forall|k: Seq<u8>| #[trigger]
            moved.contains(k) <==> o.keys@.contains_key(k) && (k == from || exists|rest: Seq<u8>|
                k == #[trigger] (from + seq![0x2fu8] + rest)),
        r is Ok ==> {
            &&& r->Ok_0 == moved.len() as u64
            &&& moved.len() > 0
            &&& o.keys@.contains_key(from) ==> e.keys@.contains_key(to) && e.keys@[to]
                == o.keys@[from] && !e.keys@.contains_key(from)
            &&& forall|rest: Seq<u8>|
                o.keys@.contains_key(#[trigger] (from + seq![0x2fu8] + rest)) ==> {
                    &&& e.keys@.contains_key(to + seq![0x2fu8] + rest)
                    &&& e.keys@[to + seq![0x2fu8] + rest] == o.keys@[from + seq![0x2fu8] + rest]
                    &&& !e.keys@.contains_key(from + seq![0x2fu8] + rest)
                }
            &&& forall|k: Seq<u8>|
                #![trigger e.keys@.contains_key(k)]
                o.keys@.contains_key(k) && k != from && (forall|rest: Seq<u8>|
                    k != #[trigger] (from + seq![0x2fu8] + rest)) ==> e.keys@.contains_key(k)
                    && e.keys@[k] == o.keys@[k]
            &&& forall|k: Seq<u8>| #[trigger]
                e.keys@.contains_key(k) ==> o.keys@.contains_key(k) || k == to || exists|
                    rest: Seq<u8>,
                |
                    k == #[trigger] (to + seq![0x2fu8] + rest) && o.keys@.contains_key(
                        from + seq![0x2fu8] + rest,
                    )
            &&& e.ids@ == o.ids@
            &&& e.recs() == o.recs()
            &&& e.slots() == o.slots()
        },
        r is Err ==> *e == *o,
        to == from || (exists|rest: Seq<u8>| to == #[trigger] (from + seq![0x2fu8] + rest)) ==> r
            == Err::<u64, Error>(Error::Integrity),
        to != from && (forall|rest: Seq<u8>| to != #[trigger] (from + seq![0x2fu8] + rest)) ==> {
            let text = forall|i: int| 0 <= i < moved.len() ==> valid_utf8(#[trigger] moved[i]);
            let taken = exists|k: Seq<u8>| #[trigger]
                o.keys@.contains_key(k) && (k == to || exists|rest: Seq<u8>|
                    k == #[trigger] (to + seq![0x2fu8] + rest));
            &&& moved.len() == 0 ==> r == Err::<u64, Error>(Error::NotFound)
            &&& moved.len() > 0 && (!text || taken) ==> r == Err::<u64, Error>(Error::Integrity)
            &&& moved.len() > 0 && text && !taken ==> r is Ok
        },
{
    let pairs = o.keys.pairs();
    let moves = pairs_within(pairs, from);
    lemma_map_of(pairs);
    let at = lemma_within_places(pairs, from);
    let moved = Seq::new(moves.len(), |i: int| moves[i].0);
    assert forall|i: int, j: int| 0 <= i < j < moved.len() implies lex_lt(moved[i], moved[j]) by {
        assert(lex_lt(pairs[at[i]].0, pairs[at[j]].0));
    }
    assert forall|k: Seq<u8>| #[trigger]
        moved.contains(k) <==> o.keys@.contains_key(k) && (k == from || exists|rest: Seq<u8>|
            k == #[trigger] (from + seq![0x2fu8] + rest)) by {
        lemma_within(k, from);
        if moved.contains(k) {
            let i = choose|i: int| 0 <= i < moved.len() && moved[i] == k;
            assert(at.contains(at[i]));
            assert(is_within(pairs[at[i]].0, from));
        }
        if o.keys@.contains_key(k) && (k == from || exists|rest: Seq<u8>|
            k == #[trigger] (from + seq![0x2fu8] + rest)) {
            assert(is_within(k, from));
            let a = choose|a: int| 0 <= a < pairs.len() && pairs[a].0 == k;
            assert(at.contains(a));
            let i = choose|i: int| 0 <= i < at.len() && at[i] == a;
            assert(moved[i] == k);
        }
    }
    lemma_within(to, from);
    assert(is_within(to, from) <==> to == from || exists|rest: Seq<u8>|
        to == #[trigger] (from + seq![0x2fu8] + rest));
    let text = forall|i: int| 0 <= i < moved.len() ==> valid_utf8(#[trigger] moved[i]);
    assert(text == all_text(moves)) by {
        if text {
            assert forall|i: int| 0 <= i < moves.len() implies valid_utf8((#[trigger] moves[i]).0) by {
                assert(valid_utf8(moved[i]));
            }
        }
        if all_text(moves) {
            assert forall|i: int| 0 <= i < moved.len() implies valid_utf8(#[trigger] moved[i]) by {
                assert(valid_utf8(moves[i].0));
            }
        }
    }
    let taken = exists|k: Seq<u8>| #[trigger]
        o.keys@.contains_key(k) && (k == to || exists|rest: Seq<u8>|
            k == #[trigger] (to + seq![0x2fu8] + rest));
    assert(taken == Engine::<C>::any_within(pairs, to)) by {
        if taken {
            let k = choose|k: Seq<u8>| #[trigger]
                o.keys@.contains_key(k) && (k == to || exists|rest: Seq<u8>|
                    k == #[trigger] (to + seq![0x2fu8] + rest));
            lemma_within(k, to);
            let a = choose|a: int| 0 <= a < pairs.len() && pairs[a].0 == k;
            assert(is_within(pairs[a].0, to));
        }
        if Engine::<C>::any_within(pairs, to) {
            let a = choose|a: int| 0 <= a < pairs.len() && is_within((#[trigger] pairs[a]).0, to);
            lemma_within(pairs[a].0, to);
            assert(o.keys@.contains_key(pairs[a].0));
        }
    }
    if r is Ok {
        lemma_renamed(o, e, from, to, at);
    }
    moved
}

proof fn lemma_renamed<C: Crypto>(
    o: &Engine<C>,
    e: &Engine<C>,
    from: Seq<u8>,
    to: Seq<u8>,
    at: Seq<int>,
)
    requires
        o.inv(),
        Engine::<C>::prefix_renamed(
            o,
            e,
            from,
            to,
            Ok(pairs_within(o.keys.pairs(), from).len() as u64),
        ),
        at.len() == pairs_within(o.keys.pairs(), from).len(),
        forall|i: int| 0 <= i < at.len() ==> 0 <= #[trigger] at[i] < o.keys.pairs().len(),
        forall|i: int, j: int| 0 <= i < j < at.len() ==> at[i] < at[j],
        forall|i: int|
            0 <= i < at.len() ==> pairs_within(o.keys.pairs(), from)[i] == o.keys.pairs()[
            #[trigger] at[i]],
        forall|a: int|
            0 <= a < o.keys.pairs().len() ==> (at.contains(a) <==> is_within(
                (#[trigger] o.keys.pairs()[a]).0,
                from,
            )),
    ensures
        o.keys@.contains_key(from) ==> e.keys@.contains_key(to) && e.keys@[to] == o.keys@[from]
            && !e.keys@.contains_key(from),
        forall|rest: Seq<u8>|
            o.keys@.contains_key(#[trigger] (from + seq![0x2fu8] + rest)) ==> {
                &&& e.keys@.contains_key(to + seq![0x2fu8] + rest)
                &&& e.keys@[to + seq![0x2fu8] + rest] == o.keys@[from + seq![0x2fu8] + rest]
                &&& !e.keys@.contains_key(from + seq![0x2fu8] + rest)
            },
        forall|k: Seq<u8>|
            #![trigger e.keys@.contains_key(k)]
            o.keys@.contains_key(k) && k != from && (forall|rest: Seq<u8>|
                k != #[trigger] (from + seq![0x2fu8] + rest)) ==> e.keys@.contains_key(k)
                && e.keys@[k] == o.keys@[k],
        forall|k: Seq<u8>| #[trigger]
            e.keys@.contains_key(k) ==> o.keys@.contains_key(k) || k == to || exists|rest: Seq<u8>|
                k == #[trigger] (to + seq![0x2fu8] + rest) && o.keys@.contains_key(
                    from + seq![0x2fu8] + rest,
                ),
{
    let pairs = o.keys.pairs();
    let moves = pairs_within(pairs, from);
    let m = o.keys@;
    let n = moves.len();
    lemma_map_of(pairs);
    assert(moves_apart(m, moves, from, to)) by {
        assert forall|k: Seq<u8>| #[trigger] m.contains_key(k) implies !is_within(k, to) by {
            let a = choose|a: int| 0 <= a < pairs.len() && pairs[a].0 == k;
            if is_within(k, to) {
                assert(is_within(pairs[a].0, to));
            }
        }
        assert forall|i: int| 0 <= i < moves.len() implies m.contains_key((#[trigger] moves[i]).0)
            && m[moves[i].0] == moves[i].1 && is_within(moves[i].0, from) by {
            assert(at.contains(at[i]));
            assert(is_within(pairs[at[i]].0, from));
        }
        assert forall|i: int, j: int| 0 <= i < j < moves.len() implies moves[i].0 != moves[j].0 by {
            assert(lex_lt(pairs[at[i]].0, pairs[at[j]].0));
            lemma_lex_irreflexive(moves[i].0);
        }
    }
    assert forall|k: Seq<u8>| #[trigger] m.contains_key(k) && is_within(k, from) implies {
        &&& e.keys@.contains_key(moved_key(k, from, to))
        &&& e.keys@[moved_key(k, from, to)] == m[k]
        &&& !e.keys@.contains_key(k)
    } by {
        let a = choose|a: int| 0 <= a < pairs.len() && pairs[a].0 == k;
        assert(at.contains(a));
        let i = choose|i: int| 0 <= i < at.len() && at[i] == a;
        assert(moves[i] == pairs[a]);
        lemma_after_moved(m, moves, from, to, n, i);
    }
    if m.contains_key(from) {
        lemma_within(from, from);
        lemma_moved(from, from, to);
    }
    assert forall|rest: Seq<u8>|
        m.contains_key(#[trigger] (from + seq![0x2fu8] + rest)) implies {
        &&& e.keys@.contains_key(to + seq![0x2fu8] + rest)
        &&& e.keys@[to + seq![0x2fu8] + rest] == m[from + seq![0x2fu8] + rest]
        &&& !e.keys@.contains_key(from + seq![0x2fu8] + rest)
    } by {
        let k = from + seq![0x2fu8] + rest;
        lemma_within(k, from);
        lemma_moved(k, from, to);
        assert(k.skip(from.len() as int + 1) =~= rest);
        assert(k != from);
    }
    assert forall|k: Seq<u8>|
        #![trigger e.keys@.contains_key(k)]
        m.contains_key(k) && k != from && (forall|rest: Seq<u8>|
            k != #[trigger] (from + seq![0x2fu8] + rest)) implies e.keys@.contains_key(k)
        && e.keys@[k] == m[k] by {
        lemma_within(k, from);
        lemma_after_other(m, moves, from, to, n, k);
    }
    assert forall|k: Seq<u8>| #[trigger]
        e.keys@.contains_key(k) implies m.contains_key(k) || k == to || exists|rest: Seq<u8>|
        k == #[trigger] (to + seq![0x2fu8] + rest) && m.contains_key(
            from + seq![0x2fu8] + rest,
        ) by {
        lemma_after_only(m, moves, from, to, n, k);
        if !m.contains_key(k) {
            let i = choose|i: int|
                0 <= i < n && moved_key((#[trigger] moves[i]).0, from, to) == k;
            let l = moves[i].0;
            lemma_moved(l, from, to);
            lemma_within(l, from);
            if l != from {
                let rest = l.skip(from.len() as int + 1);
                assert(k == to + seq![0x2fu8] + rest);
                assert(m.contains_key(from + seq![0x2fu8] + rest));
            }
        }
    }
}

/// A unit that is renamed is found under its new path with the head that it had, and
/// no more under the old one; every other path is bound as before. A path that is
/// not bound cannot be renamed, nor can anything take a path that is bound.
pub proof fn law_renaming_moves_one_path<C: Crypto>(
    o: &Engine<C>,
    e: &Engine<C>,
    k: Seq<u8>,
    l: Seq<u8>,
    r: Result<(), Error>,
)
    requires
        Engine::<C>::renamed(o, e, k, l, r),
    ensures
        !o.keys@.contains_key(k) ==> r == Err::<(), Error>(Error::NotFound),
        o.keys@.contains_key(k) && o.keys@.contains_key(l) ==> r == Err::<(), Error>(
            Error::Integrity,
        ),
        r is Err ==> *e == *o,
        o.keys@.contains_key(k) && !o.keys@.contains_key(l) ==> {
            &&& r is Ok
            &&& e.keys@.contains_key(l)
            &&& e.keys@[l] == o.keys@[k]
            &&& e.head(l) == o.head(k)
            &&& !e.keys@.contains_key(k)
            &&& e.head(k) == Err::<(Uuid, u64, RecordModel), Error>(Error::NotFound)
            &&& forall|p: Seq<u8>|
                #![trigger e.keys@.contains_key(p)]
                p != k && p != l ==> (e.keys@.contains_key(p) <==> o.keys@.contains_key(p)) && (
                o.keys@.contains_key(p) ==> e.keys@[p] == o.keys@[p])
        },
{
    assert(e.trust() == o.trust());
}

/// A unit that is linked is found under both paths, as it was; every other path is
/// bound as before.
pub proof fn law_linking_adds_a_path<C: Crypto>(
    o: &Engine<C>,
    e: &Engine<C>,
    k: Seq<u8>,
    l: Seq<u8>,
    r: Result<(), Error>,
)
    requires
        Engine::<C>::linked(o, e, k, l, r),
    ensures
        !o.keys@.contains_key(k) ==> r == Err::<(), Error>(Error::NotFound),
        o.keys@.contains_key(k) && o.keys@.contains_key(l) ==> r == Err::<(), Error>(
            Error::Integrity,
        ),
        r is Err ==> *e == *o,
        o.keys@.contains_key(k) && !o.keys@.contains_key(l) ==> {
            &&& r is Ok
            &&& e.keys@.contains_key(k)
            &&& e.keys@.contains_key(l)
            &&& e.keys@[l] == o.keys@[k]
            &&& e.head(l) == o.head(k)
            &&& e.head(k) == o.head(k)
            &&& forall|p: Seq<u8>|
                #![trigger e.keys@.contains_key(p)]
                p != l ==> (e.keys@.contains_key(p) <==> o.keys@.contains_key(p)) && (
                o.keys@.contains_key(p) ==> e.keys@[p] == o.keys@[p])
        },
{
    assert(e.trust() == o.trust());
}

/// A path that is removed leads nowhere; the unit stays, and every other path is
/// bound as before.
pub proof fn law_removing_unbinds_one_path<C: Crypto>(
    o: &Engine<C>,
    e: &Engine<C>,
    k: Seq<u8>,
    r: Result<(), Error>,
)
    requires
        Engine::<C>::unlinked(o, e, k, r),
    ensures
        r is Ok <==> o.keys@.contains_key(k),
        r is Err ==> r == Err::<(), Error>(Error::NotFound),
        !e.keys@.contains_key(k),
        e.head(k) == Err::<(Uuid, u64, RecordModel), Error>(Error::NotFound),
        forall|p: Seq<u8>|
            #![trigger e.keys@.contains_key(p)]
            p != k ==> (e.keys@.contains_key(p) <==> o.keys@.contains_key(p)) && (
            o.keys@.contains_key(p) ==> e.keys@[p] == o.keys@[p]),
        e.ids@ == o.ids@,
        e.recs() == o.recs(),
{
}

/// Gives the places of the pairs that start with `p`.
proof fn lemma_prefix_places(s: Seq<(Seq<u8>, Uuid)>, p: Seq<u8>) -> (at: Seq<int>)
    ensures
        at.len() == with_prefix(s, p).len(),
        forall|i: int| 0 <= i < at.len() ==> 0 <= #[trigger] at[i] < s.len(),
        forall|i: int, j: int| 0 <= i < j < at.len() ==> at[i] < at[j],
        forall|i: int| 0 <= i < at.len() ==> with_prefix(s, p)[i] == s[#[trigger] at[i]],
        forall|a: int|
            0 <= a < s.len() ==> (at.contains(a) <==> has_prefix((#[trigger] s[a]).0, p)),
    decreases s.len(),
{
    if s.len() == 0 {
        Seq::empty()
    } else {
        let t = s.drop_last();
        let n = t.len() as int;
        let prev = lemma_prefix_places(t, p);
        let at = if has_prefix(s.last().0, p) {
            prev.push(n)
        } else {
            prev
        };
        assert forall|a: int| 0 <= a < s.len() implies (at.contains(a) <==> has_prefix(
            (#[trigger] s[a]).0,
            p,
        )) by {
            if a < n {
                assert(t[a] == s[a]);
                if prev.contains(a) {
                    let j = choose|j: int| 0 <= j < prev.len() && prev[j] == a;
                    assert(at[j] == a);
                }
                if at.contains(a) {
                    let j = choose|j: int| 0 <= j < at.len() && at[j] == a;
                    assert(prev[j] == a);
                }
            } else {
                if has_prefix(s.last().0, p) {
                    assert(at[prev.len() as int] == a);
                }
                if prev.contains(a) {
                    let j = choose|j: int| 0 <= j < prev.len() && prev[j] == a;
                    assert(false);
                }
            }
        }
        at
    }
}

/// A listing shows every path that starts with the prefix, no other and none twice,
/// in order. It fails where one of them is not text.
pub proof fn law_listing_shows_the_prefix<C: Crypto>(
    e: &Engine<C>,
    prefix: Seq<u8>,
    r: Result<Vec<String>, Error>,
)
    requires
        e.inv(),
        e.paths_listed(prefix, r),
    ensures
        r is Ok <==> forall|k: Seq<u8>| #[trigger]
            e.keys@.contains_key(k) && k.len() >= prefix.len() && k.subrange(
                0,
                prefix.len() as int,
            ) == prefix ==> valid_utf8(k),
        r is Err ==> r->Err_0 == Error::Integrity,
        r is Ok ==> {
            let out = r->Ok_0@;
            &&& forall|i: int|
                0 <= i < out.len() ==> {
                    let k = encode_utf8((#[trigger] out[i])@);
                    &&& e.keys@.contains_key(k)
                    &&& k.len() >= prefix.len()
                    &&& k.subrange(0, prefix.len() as int) == prefix
                }
            &&& forall|i: int, j: int|
                0 <= i < j < out.len() ==> lex_lt(encode_utf8(out[i]@), encode_utf8(out[j]@))
            &&& forall|k: Seq<u8>| #[trigger]
                e.keys@.contains_key(k) && k.len() >= prefix.len() && k.subrange(
                    0,
                    prefix.len() as int,
                ) == prefix ==> exists|i: int|
                    0 <= i < out.len() && encode_utf8((#[trigger] out[i])@) == k
        },
{
    let pairs = e.keys.pairs();
    let found = with_prefix(pairs, prefix);
    lemma_map_of(pairs);
    let at = lemma_prefix_places(pairs, prefix);
    assert forall|k: Seq<u8>| #[trigger]
        e.keys@.contains_key(k) && k.len() >= prefix.len() && k.subrange(0, prefix.len() as int)
            == prefix implies exists|i: int| 0 <= i < found.len() && (#[trigger] found[i]).0 == k by {
        assert(k.take(prefix.len() as int) =~= k.subrange(0, prefix.len() as int));
        let a = choose|a: int| 0 <= a < pairs.len() && pairs[a].0 == k;
        assert(at.contains(a));
        let i = choose|i: int| 0 <= i < at.len() && at[i] == a;
        assert(found[i].0 == k);
    }
    assert forall|i: int| 0 <= i < found.len() implies {
        let k = (#[trigger] found[i]).0;
        &&& e.keys@.contains_key(k)
        &&& k.len() >= prefix.len()
        &&& k.subrange(0, prefix.len() as int) == prefix
    } by {
        assert(at.contains(at[i]));
        let k = found[i].0;
        assert(has_prefix(pairs[at[i]].0, prefix));
        assert(k.take(prefix.len() as int) =~= k.subrange(0, prefix.len() as int));
    }
    if all_text(found) {
        assert forall|k: Seq<u8>| #[trigger]
            e.keys@.contains_key(k) && k.len() >= prefix.len() && k.subrange(
                0,
                prefix.len() as int,
            ) == prefix implies valid_utf8(k) by {
            let i = choose|i: int| 0 <= i < found.len() && (#[trigger] found[i]).0 == k;
            assert(valid_utf8(found[i].0));
        }
        let out = r->Ok_0@;
        assert forall|i: int| 0 <= i < out.len() implies encode_utf8((#[trigger] out[i])@)
            == found[i].0 by {
            assert(valid_utf8(found[i].0));
            vstd::utf8::decode_utf8_encode_utf8(found[i].0);
        }
        assert forall|i: int, j: int| 0 <= i < j < out.len() implies lex_lt(
            encode_utf8(out[i]@),
            encode_utf8(out[j]@),
        ) by {
            assert(lex_lt(pairs[at[i]].0, pairs[at[j]].0));
        }
        assert forall|k: Seq<u8>| #[trigger]
            e.keys@.contains_key(k) && k.len() >= prefix.len() && k.subrange(
                0,
                prefix.len() as int,
            ) == prefix implies exists|i: int|
            0 <= i < out.len() && encode_utf8((#[trigger] out[i])@) == k by {
            let i = choose|i: int| 0 <= i < found.len() && (#[trigger] found[i]).0 == k;
            assert(encode_utf8(out[i]@) == k);
        }
    } else {
        let i = choose|i: int| 0 <= i < found.len() && !valid_utf8((#[trigger] found[i]).0);
        assert(e.keys@.contains_key(found[i].0));
    }
}

/// The first segment reaches to the first slash.
proof fn lemma_segment(rest: Seq<u8>)
    ensures
        seg_len(rest) <= rest.len(),
        seg_len(rest) < rest.len() ==> rest[seg_len(rest) as int] == 0x2f,
        forall|i: int| 0 <= i < seg_len(rest) ==> #[trigger] rest[i] != 0x2f,
    decreases rest.len(),
{
    if rest.len() > 0 && rest[0] != 0x2f {
        let t = rest.skip(1);
        lemma_segment(t);
        assert forall|i: int| 0 <= i < seg_len(rest) implies #[trigger] rest[i] != 0x2f by {
            if i > 0 {
                assert(t[i - 1] == rest[i]);
            }
        }
        if seg_len(rest) < rest.len() {
            assert(t[seg_len(t) as int] == rest[seg_len(rest) as int]);
        }
    }
}

spec fn no_slash(s: Seq<u8>) -> bool {
    forall|i: int| 0 <= i < s.len() ==> #[trigger] s[i] != 0x2f
}

/// How a key below a prefix is cut.
proof fn lemma_first_segment(k: Seq<u8>, p: Seq<u8>, s: Seq<u8>)
    requires
        has_prefix(k, p),
        no_slash(s),
    ensures
        ({
            let rest = k.skip(p.len() as int);
            let seg = rest.take(seg_len(rest) as int);
            &&& no_slash(seg)
            &&& seg.len() <= rest.len()
            &&& (seg == s && seg.len() < rest.len()) <==> has_prefix(k, p + s + seq![0x2fu8])
            &&& (seg == s && seg.len() == rest.len()) <==> k == p + s
        }),
{
    let rest = k.skip(p.len() as int);
    let seg = rest.take(seg_len(rest) as int);
    let q = p + s + seq![0x2fu8];
    lemma_segment(rest);
    assert(no_slash(seg)) by {
        assert forall|i: int| 0 <= i < seg.len() implies #[trigger] seg[i] != 0x2f by {
            assert(rest[i] != 0x2f);
        }
    }
    assert forall|i: int| 0 <= i < p.len() implies #[trigger] k[i] == p[i] by {
        assert(k.take(p.len() as int)[i] == k[i]);
    }
    if seg == s && seg.len() < rest.len() {
        assert(k.take(q.len() as int) =~= q) by {
            assert forall|i: int| 0 <= i < q.len() implies k[i] == q[i] by {
                if i >= p.len() {
                    assert(rest[i - p.len()] == k[i]);
                    if i < p.len() + s.len() {
                        assert(seg[i - p.len()] == rest[i - p.len()]);
                    }
                }
            }
        }
    }
    if has_prefix(k, q) {
        assert forall|i: int| 0 <= i < q.len() implies #[trigger] k[i] == q[i] by {
            assert(k.take(q.len() as int)[i] == k[i]);
        }
        assert(rest[s.len() as int] == 0x2f) by {
            assert(k[(p.len() + s.len()) as int] == q[(p.len() + s.len()) as int]);
        }
        assert forall|i: int| 0 <= i < s.len() implies #[trigger] rest[i] == s[i] by {
            assert(k[p.len() + i] == q[p.len() + i]);
        }
        if seg_len(rest) < s.len() {
            assert(rest[seg_len(rest) as int] == s[seg_len(rest) as int]);
        }
        if seg_len(rest) > s.len() {
            assert(rest[s.len() as int] != 0x2f);
        }
        assert(seg =~= s);
    }
    if seg == s && seg.len() == rest.len() {
        assert(rest =~= s);
        assert(k =~= p + rest);
    }
    if k == p + s {
        assert(rest =~= s);
        if seg_len(rest) < rest.len() {
            assert(s[seg_len(rest) as int] != 0x2f);
        }
        assert(seg =~= s);
    }
}

spec fn some_below(pairs: Seq<(Seq<u8>, Uuid)>, n: nat, q: Seq<u8>) -> bool {
    exists|a: int| 0 <= a < n && has_prefix((#[trigger] pairs[a]).0, q)
}

spec fn some_at(pairs: Seq<(Seq<u8>, Uuid)>, n: nat, k: Seq<u8>) -> bool {
    exists|a: int| 0 <= a < n && (#[trigger] pairs[a]).0 == k
}

/// What the fold says of one name.
proof fn lemma_dir_entry<C: Crypto>(
    e: &Engine<C>,
    pairs: Seq<(Seq<u8>, Uuid)>,
    p: Seq<u8>,
    n: nat,
    s: Seq<u8>,
)
    requires
        n <= pairs.len(),
        keys_ascend(pairs),
        forall|a: int| 0 <= a < pairs.len() ==> has_prefix((#[trigger] pairs[a]).0, p),
        e.dir_fold(pairs, p.len() as int, n) is Ok,
    ensures
        ({
            let m = e.dir_fold(pairs, p.len() as int, n)->Ok_0;
            let below = some_below(pairs, n, p + s + seq![0x2fu8]);
            let here = some_at(pairs, n, p + s);
            &&& m.contains_key(s) <==> no_slash(s) && (below || here)
            &&& m.contains_key(s) ==> {
                &&& (m[s].1 is Some <==> here)
                &&& here ==> exists|a: int|
                    0 <= a < n && (#[trigger] pairs[a]).0 == p + s && m[s].1 == Some(pairs[a].1)
                &&& below ==> m[s].0
                &&& !below ==> here && e.meta_only(m[s].1->Some_0) == Ok::<bool, Error>(m[s].0)
            }
            &&& forall|a: int| 0 <= a < n ==> valid_utf8((#[trigger] pairs[a]).0)
        }),
    decreases n,
{
    if n > 0 {
        let skip = p.len() as int;
        let (k, u) = pairs[n - 1];
        lemma_dir_entry(e, pairs, p, (n - 1) as nat, s);
        let m0 = e.dir_fold(pairs, skip, (n - 1) as nat)->Ok_0;
        let m = e.dir_fold(pairs, skip, n)->Ok_0;
        let rest = k.skip(skip);
        let seg = rest.take(seg_len(rest) as int);
        let q = p + s + seq![0x2fu8];
        let below0 = some_below(pairs, (n - 1) as nat, q);
        let here0 = some_at(pairs, (n - 1) as nat, p + s);
        assert(some_below(pairs, n, q) <==> below0 || has_prefix(k, q)) by {
            if has_prefix(k, q) {
                assert(has_prefix(pairs[n - 1].0, q));
            }
        }
        assert(some_at(pairs, n, p + s) <==> here0 || k == p + s) by {
            if k == p + s {
                assert(pairs[n - 1].0 == p + s);
            }
        }
        assert(k == p + s ==> !here0) by {
            if k == p + s && here0 {
                let a = choose|a: int| 0 <= a < n - 1 && (#[trigger] pairs[a]).0 == p + s;
                assert(lex_lt(pairs[a].0, pairs[n - 1].0));
                lemma_lex_irreflexive(k);
            }
        }
        lemma_segment(rest);
        if no_slash(s) {
            lemma_first_segment(k, p, s);
        } else {
            assert(no_slash(seg)) by {
                assert forall|i: int| 0 <= i < seg.len() implies #[trigger] seg[i] != 0x2f by {
                    assert(rest[i] != 0x2f);
                }
            }
        }
        if seg == s {
            if seg.len() == rest.len() {
                assert(pairs[n - 1].0 == p + s && m[s].1 == Some(pairs[n - 1].1));
            } else if here0 {
                let a = choose|a: int|
                    0 <= a < n - 1 && (#[trigger] pairs[a]).0 == p + s && m0[s].1 == Some(
                        pairs[a].1,
                    );
                assert(pairs[a].0 == p + s && m[s].1 == Some(pairs[a].1));
            }
        } else {
            assert(m.contains_key(s) == m0.contains_key(s));
            if m0.contains_key(s) {
                assert(m[s] == m0[s]);
            }
        }
    }
}

/// The children of a directory: each name stands for what follows the prefix up to
/// the next slash, or to the end. A name is listed as a directory if some path goes
/// on behind it with a slash; otherwise exactly if the unit at that very path has
/// metadata and no content. It comes with the unit at that very path, if there is
/// one. Every such name is listed, none twice, in order.
pub proof fn law_listing_shows_the_children<C: Crypto>(
    e: &Engine<C>,
    prefix: Seq<u8>,
    r: Result<Vec<DirEntry>, Error>,
)
    requires
        e.inv(),
        e.dir_listed(prefix, r),
        r is Ok,
    ensures
        ({
            let out = r->Ok_0@;
            &&& forall|i: int|
                0 <= i < out.len() ==> {
                    let s = encode_utf8((#[trigger] out[i]).name@);
                    let below = exists|rest: Seq<u8>|
                        e.keys@.contains_key(#[trigger] (prefix + s + seq![0x2fu8] + rest));
                    let k = prefix + s;
                    &&& forall|j: int| 0 <= j < s.len() ==> #[trigger] s[j] != 0x2f
                    &&& below || e.keys@.contains_key(k)
                    &&& below ==> out[i].is_dir
                    &&& !below && !e.ids@.contains_key(e.keys@[k]@) ==> !out[i].is_dir
                    &&& !below && e.ids@.contains_key(e.keys@[k]@) ==> {
                        &&& e.record(e.ids@[e.keys@[k]@]) is Ok
                        &&& out[i].is_dir <==> e.record(e.ids@[e.keys@[k]@])->Ok_0.meta is Some
                            && e.record(e.ids@[e.keys@[k]@])->Ok_0.content is None
                    }
                    &&& e.keys@.contains_key(k) ==> out[i].uuid == Some(e.keys@[k])
                    &&& !e.keys@.contains_key(k) ==> out[i].uuid is None
                }
            &&& forall|i: int, j: int|
                0 <= i < j < out.len() ==> lex_lt(
                    encode_utf8(out[i].name@),
                    encode_utf8(out[j].name@),
                )
            &&& forall|s: Seq<u8>|
                (forall|j: int| 0 <= j < s.len() ==> s[j] != 0x2f) && e.keys@.contains_key(
                    #[trigger] (prefix + s),
                ) ==> exists|i: int|
                    0 <= i < out.len() && encode_utf8((#[trigger] out[i]).name@) == s
            &&& forall|s: Seq<u8>, rest: Seq<u8>|
                (forall|j: int| 0 <= j < s.len() ==> s[j] != 0x2f) && e.keys@.contains_key(
                    #[trigger] (prefix + s + seq![0x2fu8] + rest),
                ) ==> exists|i: int|
                    0 <= i < out.len() && encode_utf8((#[trigger] out[i]).name@) == s
        }),
{
    let pairs = e.keys.pairs();
    let found = with_prefix(pairs, prefix);
    let n = found.len();
    let m = e.dir_fold(found, prefix.len() as int, n)->Ok_0;
    let out = r->Ok_0@;
    lemma_map_of(pairs);
    let at = lemma_prefix_places(pairs, prefix);
    assert forall|i: int, j: int| 0 <= i < j < found.len() implies lex_lt(
        found[i].0,
        found[j].0,
    ) by {
        assert(lex_lt(pairs[at[i]].0, pairs[at[j]].0));
    }
    assert forall|a: int| 0 <= a < found.len() implies has_prefix((#[trigger] found[a]).0, prefix)
        && e.keys@.contains_key(found[a].0) && e.keys@[found[a].0] == found[a].1 by {
        assert(at.contains(at[a]));
        assert(has_prefix(pairs[at[a]].0, prefix));
    }
    assert forall|k: Seq<u8>| #[trigger] e.keys@.contains_key(k) && has_prefix(k, prefix) implies
        exists|a: int| 0 <= a < found.len() && (#[trigger] found[a]).0 == k by {
        let b = choose|b: int| 0 <= b < pairs.len() && pairs[b].0 == k;
        assert(at.contains(b));
        let a = choose|a: int| 0 <= a < at.len() && at[a] == b;
        assert(found[a].0 == k);
    }
    assert forall|s: Seq<u8>| #[trigger] some_at(found, n, prefix + s) <==> e.keys@.contains_key(
        prefix + s,
    ) by {
        assert((prefix + s).take(prefix.len() as int) =~= prefix);
        if some_at(found, n, prefix + s) {
            let a = choose|a: int| 0 <= a < n && (#[trigger] found[a]).0 == prefix + s;
            assert(e.keys@.contains_key(found[a].0));
        }
    }
    assert forall|s: Seq<u8>| #[trigger]
        some_below(found, n, prefix + s + seq![0x2fu8]) <==> exists|rest: Seq<u8>|
            e.keys@.contains_key(#[trigger] (prefix + s + seq![0x2fu8] + rest)) by {
        let q = prefix + s + seq![0x2fu8];
        if some_below(found, n, q) {
            let a = choose|a: int| 0 <= a < n && has_prefix((#[trigger] found[a]).0, q);
            let k = found[a].0;
            let rest = k.skip(q.len() as int);
            assert(k =~= q + rest) by {
                assert forall|i: int| 0 <= i < q.len() implies k[i] == q[i] by {
                    assert(k.take(q.len() as int)[i] == k[i]);
                }
            }
            assert(e.keys@.contains_key(prefix + s + seq![0x2fu8] + rest));
        }
        if exists|rest: Seq<u8>|
            e.keys@.contains_key(#[trigger] (prefix + s + seq![0x2fu8] + rest)) {
            let rest = choose|rest: Seq<u8>|
                e.keys@.contains_key(#[trigger] (prefix + s + seq![0x2fu8] + rest));
            let k = q + rest;
            assert(k.take(q.len() as int) =~= q);
            assert(k.take(prefix.len() as int) =~= prefix);
            assert(e.keys@.contains_key(k) && has_prefix(k, prefix));
            let a = choose|a: int| 0 <= a < found.len() && (#[trigger] found[a]).0 == k;
            assert(has_prefix(found[a].0, q));
        }
    }
    assert forall|i: int| 0 <= i < out.len() implies {
        let s = encode_utf8((#[trigger] out[i]).name@);
        let below = exists|rest: Seq<u8>|
            e.keys@.contains_key(#[trigger] (prefix + s + seq![0x2fu8] + rest));
        let k = prefix + s;
        &&& forall|j: int| 0 <= j < s.len() ==> #[trigger] s[j] != 0x2f
        &&& below || e.keys@.contains_key(k)
        &&& below ==> out[i].is_dir
        &&& !below && !e.ids@.contains_key(e.keys@[k]@) ==> !out[i].is_dir
        &&& !below && e.ids@.contains_key(e.keys@[k]@) ==> {
            &&& e.record(e.ids@[e.keys@[k]@]) is Ok
            &&& out[i].is_dir <==> e.record(e.ids@[e.keys@[k]@])->Ok_0.meta is Some && e.record(
                e.ids@[e.keys@[k]@],
            )->Ok_0.content is None
        }
        &&& e.keys@.contains_key(k) ==> out[i].uuid == Some(e.keys@[k])
        &&& !e.keys@.contains_key(k) ==> out[i].uuid is None
    } by {
        let s = encode_utf8(out[i].name@);
        lemma_dir_entry(e, found, prefix, n, s);
        assert(m.contains_key(s));
        assert(m[s] == (out[i].is_dir, out[i].uuid));
        assert(some_at(found, n, prefix + s) <==> e.keys@.contains_key(prefix + s));
        assert(some_below(found, n, prefix + s + seq![0x2fu8]) <==> exists|rest: Seq<u8>|
            e.keys@.contains_key(#[trigger] (prefix + s + seq![0x2fu8] + rest)));
    }
    assert forall|s: Seq<u8>|
        (forall|j: int| 0 <= j < s.len() ==> s[j] != 0x2f) && e.keys@.contains_key(
            #[trigger] (prefix + s),
        ) implies exists|i: int|
        0 <= i < out.len() && encode_utf8((#[trigger] out[i]).name@) == s by {
        lemma_dir_entry(e, found, prefix, n, s);
        assert(some_at(found, n, prefix + s));
        assert(no_slash(s));
        assert(m.contains_key(s));
    }
    assert forall|s: Seq<u8>, rest: Seq<u8>|
        (forall|j: int| 0 <= j < s.len() ==> s[j] != 0x2f) && e.keys@.contains_key(
            #[trigger] (prefix + s + seq![0x2fu8] + rest),
        ) implies exists|i: int|
        0 <= i < out.len() && encode_utf8((#[trigger] out[i]).name@) == s by {
        lemma_dir_entry(e, found, prefix, n, s);
        assert(some_below(found, n, prefix + s + seq![0x2fu8]));
        assert(no_slash(s));
        assert(m.contains_key(s));
    }
}

} // verus!
