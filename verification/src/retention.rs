//! Letting go of superseded blocks.
use vstd::prelude::*;

use crate::block::{footprint, round_up_block};
use crate::compact::capped;
use crate::crypto::Crypto;
use crate::engine::{journal_ok, undo_ok, Engine};
use crate::error::Error;
use crate::evicted::{EvictedBlock, EvictedModel};
use crate::heap::{lemma_undone_none, TailHeap};

verus! {

/// Decides by age which superseded blocks may go.
pub trait EvictionStrategy: Sized {
    /// The strategy that a container's header names.
    spec fn of_code(code: u8) -> Self;

    /// Whether a block of this age, in seconds, may go.
    spec fn drops(&self, age: int) -> bool;

    fn from_eviction_code(code: u8) -> (r: Self)
        ensures
            r == Self::of_code(code),
    ;

    fn is_due(&self, age: i128) -> (r: bool)
        ensures
            r == self.drops(age as int),
    ;
}

/// Nothing ever goes.
#[derive(Clone, Copy, Debug)]
pub struct KeepAll {}

impl EvictionStrategy for KeepAll {
    open spec fn of_code(code: u8) -> Self {
        KeepAll {  }
    }

    open spec fn drops(&self, age: int) -> bool {
        false
    }

    fn from_eviction_code(code: u8) -> (r: Self) {
        KeepAll {  }
    }

    fn is_due(&self, age: i128) -> (r: bool) {
        false
    }
}

/// What an eviction did. The byte count stops at the largest number there is.
#[derive(Clone, Copy, Debug, PartialEq, Eq)]
pub struct EvictReport {
    pub scanned: usize,
    pub kept: usize,
    pub dropped: usize,
    pub bytes_reclaimed: u64,
    /// Blocks that only a pin kept.
    pub pinned_kept: usize,
}

/// The strategy lets the block go.
pub open spec fn due<S: EvictionStrategy>(e: EvictedModel, s: S, now: i64) -> bool {
    s.drops(now as int - e.timestamp as int)
}

/// The block stays: a commit pins it, or the strategy keeps it.
pub open spec fn stays<S: EvictionStrategy>(e: EvictedModel, s: S, now: i64) -> bool {
    e.commits.len() > 0 || !due(e, s, now)
}

/// The blocks that stay, in order.
pub open spec fn kept_tail<S: EvictionStrategy>(tail: Seq<EvictedModel>, s: S, now: i64) -> Seq<
    EvictedModel,
>
    decreases tail.len(),
{
    if tail.len() == 0 {
        Seq::empty()
    } else {
        let p = kept_tail(tail.drop_last(), s, now);
        if stays(tail.last(), s, now) {
            p.push(tail.last())
        } else {
            p
        }
    }
}

/// How many blocks only a pin keeps.
pub open spec fn pinned_count<S: EvictionStrategy>(tail: Seq<EvictedModel>, s: S, now: i64) -> nat
    decreases tail.len(),
{
    if tail.len() == 0 {
        0
    } else {
        let p = pinned_count(tail.drop_last(), s, now);
        if tail.last().commits.len() > 0 && due(tail.last(), s, now) {
            p + 1
        } else {
            p
        }
    }
}

/// The room of the blocks that go, in whole base blocks.
pub open spec fn dropped_room<S: EvictionStrategy>(tail: Seq<EvictedModel>, s: S, now: i64) -> nat
    decreases tail.len(),
{
    if tail.len() == 0 {
        0
    } else {
        let p = dropped_room(tail.drop_last(), s, now);
        if stays(tail.last(), s, now) {
            p
        } else {
            p + footprint(72 + tail.last().bytes.len())
        }
    }
}

/// A pinned block survives every eviction.
pub proof fn law_pinned_blocks_survive<S: EvictionStrategy>(
    tail: Seq<EvictedModel>,
    s: S,
    now: i64,
    i: int,
)
    requires
        0 <= i < tail.len(),
        tail[i].commits.len() > 0,
    ensures
        kept_tail(tail, s, now).contains(tail[i]),
    decreases tail.len(),
{
    let k = kept_tail(tail, s, now);
    let p = kept_tail(tail.drop_last(), s, now);
    if i == tail.len() - 1 {
        assert(k[k.len() - 1] == tail[i]);
    } else {
        law_pinned_blocks_survive(tail.drop_last(), s, now, i);
        let j = choose|j: int| 0 <= j < p.len() && p[j] == tail[i];
        assert(k[j] == tail[i]);
    }
}

proof fn lemma_kept<S: EvictionStrategy>(tail: Seq<EvictedModel>, s: S, now: i64)
    ensures
        kept_tail(tail, s, now).len() <= tail.len(),
        forall|j: int|
            0 <= j < kept_tail(tail, s, now).len() ==> tail.contains(
                #[trigger] kept_tail(tail, s, now)[j],
            ),
    decreases tail.len(),
{
    if tail.len() > 0 {
        let t = tail.drop_last();
        lemma_kept(t, s, now);
        let k = kept_tail(tail, s, now);
        let p = kept_tail(t, s, now);
        assert forall|j: int| 0 <= j < k.len() implies tail.contains(#[trigger] k[j]) by {
            if j < p.len() {
                assert(k[j] == p[j]);
                let i = choose|i: int| 0 <= i < t.len() && t[i] == p[j];
                assert(tail[i] == k[j]);
            } else {
                assert(tail[tail.len() - 1] == k[j]);
            }
        }
    }
}

impl<C: Crypto> Engine<C> {
    /// What an eviction after the checkpoint does.
    pub open spec fn tail_evicted<S: EvictionStrategy>(
        o: &Self,
        e: &Self,
        s: S,
        now: i64,
        r: EvictReport,
    ) -> bool {
        let kept = kept_tail(o.tail(), s, now);
        &&& r.scanned == o.tail().len()
        &&& r.kept == kept.len()
        &&& r.dropped == o.tail().len() - kept.len()
        &&& r.bytes_reclaimed == capped(dropped_room(o.tail(), s, now))
        &&& r.pinned_kept == pinned_count(o.tail(), s, now)
        &&& e.tail() == kept
        &&& e.stamps@ == o.stamps@
        &&& e.slots() == o.slots()
        &&& e.recs() == o.recs()
        &&& e.keys@ == o.keys@
        &&& e.ids@ == o.ids@
        &&& Self::same_setup(o, e)
        &&& Self::commit_step(o, e)
    }

    /// Drops the superseded blocks that the strategy lets go and no commit pins,
    /// and commits.
    pub fn evict_with_strategy<S: EvictionStrategy>(&mut self, now_utc: i64, strategy: &S) -> (r:
        Result<EvictReport, Error>)
        requires
            old(self).inv(),
            old(self).header.commit_seq < u64::MAX,
            old(self).checkpoint_fits(),
            old(self).header.commit_seq + 1 < u64::MAX,
        ensures
            final(self).inv(),
            old(self).recoverable() && !old(self).suppress_commit ==> final(self).recoverable(),
            match r {
                Err(x) => Self::checkpointed(old(self), final(self), Err(x)),
                Ok(rep) => exists|m: Self|
                    #![trigger Self::checkpointed(old(self), &m, Ok(()))]
                    Self::checkpointed(old(self), &m, Ok(())) && Self::tail_evicted(
                        &m,
                        final(self),
                        *strategy,
                        now_utc,
                        rep,
                    ),
            },
    {
        match self.checkpoint() {
            Err(e) => {
                return Err(e);
            },
            Ok(()) => {},
        }
        let ghost m = *self;
        let ghost tail = m.tail();
        proof {
            assert(Self::checkpointed(old(self), &m, Ok(())));
        }
        let n: usize = self.disk.tail.len();
        let mut kept: TailHeap = TailHeap::new();
        let mut pinned: usize = 0;
        let mut room: u64 = 0;
        let mut i: usize = 0;
        proof {
            assert(tail.take(0) =~= Seq::empty());
        }
        while i < n
            invariant
                *self == m,
                tail == m.tail(),
                n == tail.len(),
                i <= n,
                kept@ == kept_tail(tail.take(i as int), *strategy, now_utc),
                pinned == pinned_count(tail.take(i as int), *strategy, now_utc),
                pinned <= i,
                room == capped(dropped_room(tail.take(i as int), *strategy, now_utc)),
            decreases n - i,
        {
            let b: &EvictedBlock = self.disk.tail.get(i);
            proof {
                assert(tail.take(i + 1).drop_last() =~= tail.take(i as int));
                assert(tail.take(i + 1).last() == b@);
            }
            let age: i128 = now_utc as i128 - b.timestamp as i128;
            let gone: bool = strategy.is_due(age);
            if b.commits.len() > 0 {
                if gone {
                    pinned = pinned + 1;
                }
                kept.push(b.clone());
            } else if gone {
                let len: usize = b.bytes.len();
                if len as u64 <= u64::MAX - 72 - 4095 {
                    room = room.saturating_add(round_up_block(72 + len as u64));
                } else {
                    room = u64::MAX;
                }
            } else {
                kept.push(b.clone());
            }
            i = i + 1;
        }
        proof {
            assert(tail.take(n as int) =~= tail);
            lemma_kept(tail, *strategy, now_utc);
        }
        let left: usize = kept.len();
        self.publish();
        let ghost p = *self;
        self.disk.tail = kept;
        proof {
            if m.recoverable() && !m.suppress_commit {
                let seq = p.disk.committed.header.commit_seq;
                assert forall|j: int| 0 <= j < self.tail().len() implies (
                #[trigger] self.tail()[j]).target_commit_seq <= seq && self.tail()[j].inplace_addr
                    <= self.slots().len() by {
                    let e = self.tail()[j];
                    let x = choose|x: int| 0 <= x < tail.len() && tail[x] == e;
                    assert(p.tail()[x] == e);
                    assert(tail[x].target_commit_seq <= m.header.commit_seq + 1);
                }
                lemma_undone_none(self.slots(), self.tail(), seq);
                assert(undo_ok(self.slots(), self.tail(), seq, self.snap@, self.dirty@));
                assert(journal_ok(self.ids@, self.recs(), self.dirty@, self.journaled@));
            }
        }
        Ok(
            EvictReport {
                scanned: n,
                kept: left,
                dropped: n - left,
                bytes_reclaimed: room,
                pinned_kept: pinned,
            },
        )
    }

    /// Drops superseded blocks by the strategy that the container's header names.
    pub fn evict<S: EvictionStrategy>(&mut self, now_utc: i64) -> (r: Result<EvictReport, Error>)
        requires
            old(self).inv(),
            old(self).header.commit_seq < u64::MAX,
            old(self).checkpoint_fits(),
            old(self).header.commit_seq + 1 < u64::MAX,
        ensures
            final(self).inv(),
            old(self).recoverable() && !old(self).suppress_commit ==> final(self).recoverable(),
            match r {
                Err(x) => Self::checkpointed(old(self), final(self), Err(x)),
                Ok(rep) => exists|m: Self|
                    #![trigger Self::checkpointed(old(self), &m, Ok(()))]
                    Self::checkpointed(old(self), &m, Ok(())) && Self::tail_evicted(
                        &m,
                        final(self),
                        S::of_code(old(self).header.eviction_code),
                        now_utc,
                        rep,
                    ),
            },
    {
        let strategy: S = S::from_eviction_code(self.header.eviction_code);
        self.evict_with_strategy(now_utc, &strategy)
    }
}

/// Eviction goes by age and pins alone: a superseded block stays if and only if a
/// commit pins it or the strategy keeps blocks of its age, counted from its own
/// timestamp. What stays keeps its order. The report counts what was looked at, kept
/// and dropped, what only a pin kept, and the whole base blocks that were freed.
///
/// Gives the places of the blocks that stay, of those that only a pin keeps and of
/// those that go, and the room freed so far before each of the last.
pub proof fn law_eviction_goes_by_age_and_pins<C: Crypto, S: EvictionStrategy>(
    o: &Engine<C>,
    e: &Engine<C>,
    s: S,
    now: i64,
    r: EvictReport,
) -> (at: (Seq<int>, Seq<int>, Seq<int>, Seq<int>))
    requires
        Engine::<C>::tail_evicted(o, e, s, now, r),
    ensures
        at.0.len() == e.tail().len(),
        forall|j: int| 0 <= j < at.0.len() ==> 0 <= #[trigger] at.0[j] < o.tail().len(),
        forall|j: int| 0 <= j < at.0.len() ==> e.tail()[j] == o.tail()[#[trigger] at.0[j]],
        forall|a: int, b: int| 0 <= a < b < at.0.len() ==> at.0[a] < at.0[b],
        forall|i: int|
            0 <= i < o.tail().len() ==> (at.0.contains(i) <==> (#[trigger] o.tail()[i]).commits.len()
                > 0 || !s.drops(now as int - o.tail()[i].timestamp as int)),
        forall|a: int, b: int| 0 <= a < b < at.1.len() ==> at.1[a] < at.1[b],
        forall|j: int| 0 <= j < at.1.len() ==> 0 <= #[trigger] at.1[j] < o.tail().len(),
        forall|i: int|
            0 <= i < o.tail().len() ==> (at.1.contains(i) <==> (#[trigger] o.tail()[i]).commits.len()
                > 0 && s.drops(now as int - o.tail()[i].timestamp as int)),
        forall|a: int, b: int| 0 <= a < b < at.2.len() ==> at.2[a] < at.2[b],
        forall|j: int| 0 <= j < at.2.len() ==> 0 <= #[trigger] at.2[j] < o.tail().len(),
        forall|i: int|
            0 <= i < o.tail().len() ==> (at.2.contains(i) <==> (#[trigger] o.tail()[i]).commits.len()
                == 0 && s.drops(now as int - o.tail()[i].timestamp as int)),
        at.3.len() == at.2.len() + 1,
        at.3[0] == 0,
        forall|j: int|
            0 <= j < at.2.len() ==> #[trigger] at.3[j + 1] == at.3[j] + (o.tail()[at.2[j]].bytes.len()
                + 72 + 4095) / 4096 * 4096,
        at.0.len() + at.2.len() == o.tail().len(),
        r.scanned == o.tail().len(),
        r.kept == e.tail().len(),
        r.dropped == at.2.len(),
        r.pinned_kept == at.1.len(),
        at.3.last() <= u64::MAX ==> r.bytes_reclaimed == at.3.last(),
        at.3.last() > u64::MAX ==> r.bytes_reclaimed == u64::MAX,
{
    let at = lemma_eviction_places(o.tail(), s, now);
    at
}

proof fn lemma_eviction_places<S: EvictionStrategy>(
    tail: Seq<EvictedModel>,
    s: S,
    now: i64,
) -> (at: (Seq<int>, Seq<int>, Seq<int>, Seq<int>))
    ensures
        at.0.len() == kept_tail(tail, s, now).len(),
        forall|j: int| 0 <= j < at.0.len() ==> 0 <= #[trigger] at.0[j] < tail.len(),
        forall|j: int|
            0 <= j < at.0.len() ==> kept_tail(tail, s, now)[j] == tail[#[trigger] at.0[j]],
        forall|a: int, b: int| 0 <= a < b < at.0.len() ==> at.0[a] < at.0[b],
        forall|i: int|
            0 <= i < tail.len() ==> (at.0.contains(i) <==> (#[trigger] tail[i]).commits.len()
                > 0 || !s.drops(now as int - tail[i].timestamp as int)),
        forall|a: int, b: int| 0 <= a < b < at.1.len() ==> at.1[a] < at.1[b],
        forall|j: int| 0 <= j < at.1.len() ==> 0 <= #[trigger] at.1[j] < tail.len(),
        forall|i: int|
            0 <= i < tail.len() ==> (at.1.contains(i) <==> (#[trigger] tail[i]).commits.len()
                > 0 && s.drops(now as int - tail[i].timestamp as int)),
        forall|a: int, b: int| 0 <= a < b < at.2.len() ==> at.2[a] < at.2[b],
        forall|j: int| 0 <= j < at.2.len() ==> 0 <= #[trigger] at.2[j] < tail.len(),
        forall|i: int|
            0 <= i < tail.len() ==> (at.2.contains(i) <==> (#[trigger] tail[i]).commits.len()
                == 0 && s.drops(now as int - tail[i].timestamp as int)),
        at.3.len() == at.2.len() + 1,
        at.3[0] == 0,
        forall|j: int|
            0 <= j < at.2.len() ==> #[trigger] at.3[j + 1] == at.3[j] + (tail[at.2[j]].bytes.len()
                + 72 + 4095) / 4096 * 4096,
        at.0.len() + at.2.len() == tail.len(),
        at.1.len() == pinned_count(tail, s, now),
        at.3.last() == dropped_room(tail, s, now),
    decreases tail.len(),
{
    if tail.len() == 0 {
        (Seq::empty(), Seq::empty(), Seq::empty(), seq![0int])
    } else {
        let t = tail.drop_last();
        let x = tail.last();
        let n = t.len() as int;
        let p = lemma_eviction_places(t, s, now);
        let gone = s.drops(now as int - x.timestamp as int);
        let kept = if x.commits.len() > 0 || !gone {
            p.0.push(n)
        } else {
            p.0
        };
        let pinned = if x.commits.len() > 0 && gone {
            p.1.push(n)
        } else {
            p.1
        };
        let out = if x.commits.len() == 0 && gone {
            p.2.push(n)
        } else {
            p.2
        };
        let room = if x.commits.len() == 0 && gone {
            p.3.push(p.3.last() + (x.bytes.len() + 72 + 4095) / 4096 * 4096)
        } else {
            p.3
        };
        assert forall|i: int| 0 <= i < tail.len() implies (kept.contains(i) <==> (
        #[trigger] tail[i]).commits.len() > 0 || !s.drops(now as int - tail[i].timestamp as int))
            && (pinned.contains(i) <==> tail[i].commits.len() > 0 && s.drops(
            now as int - tail[i].timestamp as int,
        )) && (out.contains(i) <==> tail[i].commits.len() == 0 && s.drops(
            now as int - tail[i].timestamp as int,
        )) by {
            lemma_pushed(p.0, n, i);
            lemma_pushed(p.1, n, i);
            lemma_pushed(p.2, n, i);
            if i < n {
                assert(t[i] == tail[i]);
            } else {
                assert(!p.0.contains(n) && !p.1.contains(n) && !p.2.contains(n));
            }
        }
        assert forall|j: int| 0 <= j < out.len() implies #[trigger] room[j + 1] == room[j] + (
        tail[out[j]].bytes.len() + 72 + 4095) / 4096 * 4096 by {
            if j < p.2.len() {
                assert(p.3[j + 1] == p.3[j] + (t[p.2[j]].bytes.len() + 72 + 4095) / 4096 * 4096);
                assert(t[p.2[j]] == tail[out[j]]);
            }
        }
        (kept, pinned, out, room)
    }
}

proof fn lemma_pushed(s: Seq<int>, n: int, i: int)
    ensures
        s.push(n).contains(i) <==> s.contains(i) || i == n,
{
    let t = s.push(n);
    if s.contains(i) {
        let j = choose|j: int| 0 <= j < s.len() && s[j] == i;
        assert(t[j] == i);
    }
    if i == n {
        assert(t[s.len() as int] == i);
    }
}

/// Where nothing is ever let go, eviction changes nothing of the tail.
pub proof fn law_keeping_all_keeps_all<C: Crypto>(
    o: &Engine<C>,
    e: &Engine<C>,
    s: KeepAll,
    now: i64,
    r: EvictReport,
)
    requires
        Engine::<C>::tail_evicted(o, e, s, now, r),
    ensures
        e.tail() == o.tail(),
        r.dropped == 0,
        r.kept == o.tail().len(),
        r.bytes_reclaimed == 0,
{
    lemma_keep_all(o.tail(), s, now);
}

proof fn lemma_keep_all(tail: Seq<EvictedModel>, s: KeepAll, now: i64)
    ensures
        kept_tail(tail, s, now) == tail,
        dropped_room(tail, s, now) == 0,
    decreases tail.len(),
{
    if tail.len() > 0 {
        lemma_keep_all(tail.drop_last(), s, now);
        assert(tail.drop_last().push(tail.last()) =~= tail);
    }
}

} // verus!
