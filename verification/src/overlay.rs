//! Byte strings with writes laid over them.
use vstd::prelude::*;

use crate::bytes::{push_zeros, same16};
use crate::engine::{PendingUnit, PendingWrite};
use crate::unit::Uuid;

verus! {

/// `s` with `data` written at `off`; a gap between them reads as zeros.
pub open spec fn splice(s: Seq<u8>, off: int, data: Seq<u8>) -> Seq<u8> {
    Seq::new(
        if s.len() >= off + data.len() {
            s.len()
        } else {
            (off + data.len()) as nat
        },
        |i: int|
            if off <= i < off + data.len() {
                data[i - off]
            } else if i < s.len() {
                s[i]
            } else {
                0u8
            },
    )
}

/// A pending write as a value.
pub open spec fn write_view(w: PendingWrite) -> (u64, Seq<u8>) {
    (w.offset, w.data@)
}

pub open spec fn writes_view(ws: Seq<PendingWrite>) -> Seq<(u64, Seq<u8>)> {
    Seq::new(ws.len(), |i: int| write_view(ws[i]))
}

/// `s` with the pending writes laid over it, one after the other.
pub open spec fn overlaid(s: Seq<u8>, ws: Seq<(u64, Seq<u8>)>) -> Seq<u8>
    decreases ws.len(),
{
    if ws.len() == 0 {
        s
    } else {
        splice(overlaid(s, ws.drop_last()), ws.last().0 as int, ws.last().1)
    }
}

/// The part of a write that falls into the window `[lo, hi)`, laid over the
/// bytes of the window.
pub open spec fn splice_window(out: Seq<u8>, w: (u64, Seq<u8>), lo: int, hi: int) -> Seq<u8> {
    let from = if lo >= w.0 {
        lo
    } else {
        w.0 as int
    };
    let to = if hi <= w.0 + w.1.len() {
        hi
    } else {
        w.0 + w.1.len()
    };
    if from >= to {
        out
    } else {
        splice(out, from - lo, w.1.subrange(from - w.0, to - w.0))
    }
}

/// The bytes of the window `[lo, hi)` with the pending writes laid over them.
pub open spec fn overlaid_window(
    out: Seq<u8>,
    ws: Seq<(u64, Seq<u8>)>,
    lo: int,
    hi: int,
) -> Seq<u8>
    decreases ws.len(),
{
    if ws.len() == 0 {
        out
    } else {
        splice_window(overlaid_window(out, ws.drop_last(), lo, hi), ws.last(), lo, hi)
    }
}

/// Every pending write ends where a byte string still can.
pub open spec fn writes_fit(ws: Seq<(u64, Seq<u8>)>) -> bool {
    forall|i: int| 0 <= i < ws.len() ==> (#[trigger] ws[i]).0 + ws[i].1.len() <= usize::MAX
}

/// Writes `data[from..to]` over `out` at `at`, zero-filling any gap.
pub fn splice_into(out: &mut Vec<u8>, at: usize, data: &[u8], from: usize, to: usize)
    requires
        from <= to <= data.len(),
        at + (to - from) <= usize::MAX,
    ensures
        final(out)@ == splice(old(out)@, at as int, data@.subrange(from as int, to as int)),
{
    let n: usize = to - from;
    if out.len() < at + n {
        let gap: usize = at + n - out.len();
        push_zeros(out, gap);
    }
    let ghost part = data@.subrange(from as int, to as int);
    let ghost grown = out@;
    let mut i: usize = 0;
    while i < n
        invariant
            i <= n,
            n == to - from,
            to <= data.len(),
            at + n <= usize::MAX,
            at + n <= out@.len(),
            out@.len() == grown.len(),
            part == data@.subrange(from as int, to as int),
            forall|k: int|
                0 <= k < out@.len() ==> #[trigger] out@[k] == if at <= k < at + i {
                    part[k - at]
                } else {
                    grown[k]
                },
        decreases n - i,
    {
        out.set(at + i, data[from + i]);
        i = i + 1;
    }
    proof {
        assert(out@ =~= splice(old(out)@, at as int, part));
    }
}

/// Lays pending writes over the whole content.
pub fn apply_overlay_full(out: &mut Vec<u8>, writes: &Vec<PendingWrite>)
    requires
        writes_fit(writes_view(writes@)),
    ensures
        final(out)@ == overlaid(old(out)@, writes_view(writes@)),
{
    let ghost ws = writes_view(writes@);
    let mut i: usize = 0;
    proof {
        assert(ws.take(0) =~= Seq::empty());
    }
    while i < writes.len()
        invariant
            ws == writes_view(writes@),
            writes_fit(ws),
            i <= writes.len(),
            out@ == overlaid(old(out)@, ws.take(i as int)),
        decreases writes.len() - i,
    {
        proof {
            assert(ws[i as int] == write_view(writes@[i as int]));
            assert(ws.take(i + 1).drop_last() =~= ws.take(i as int));
        }
        let w: &PendingWrite = &writes[i];
        let len: usize = w.data.len();
        splice_into(out, w.offset as usize, w.data.as_slice(), 0, len);
        proof {
            assert(w.data@.subrange(0, len as int) =~= w.data@);
        }
        i = i + 1;
    }
    proof {
        assert(ws.take(i as int) =~= ws);
    }
}

/// Lays pending writes over the bytes read from `read_offset` on, as far as
/// they fall into the window of `read_len` bytes.
pub fn apply_overlay_to_read(
    out: &mut Vec<u8>,
    writes: &Vec<PendingWrite>,
    read_offset: u64,
    read_len: usize,
)
    requires
        writes_fit(writes_view(writes@)),
        read_offset + read_len <= u64::MAX,
    ensures
        final(out)@ == overlaid_window(
            old(out)@,
            writes_view(writes@),
            read_offset as int,
            read_offset + read_len,
        ),
{
    let ghost ws = writes_view(writes@);
    let read_end: u64 = read_offset + read_len as u64;
    let mut i: usize = 0;
    proof {
        assert(ws.take(0) =~= Seq::empty());
    }
    while i < writes.len()
        invariant
            ws == writes_view(writes@),
            writes_fit(ws),
            read_end == read_offset + read_len,
            i <= writes.len(),
            out@ == overlaid_window(
                old(out)@,
                ws.take(i as int),
                read_offset as int,
                read_end as int,
            ),
        decreases writes.len() - i,
    {
        proof {
            assert(ws[i as int] == write_view(writes@[i as int]));
            assert(ws.take(i + 1).drop_last() =~= ws.take(i as int));
        }
        let w: &PendingWrite = &writes[i];
        let write_end: u64 = w.offset + w.data.len() as u64;
        let from: u64 = if read_offset >= w.offset {
            read_offset
        } else {
            w.offset
        };
        let to: u64 = if read_end <= write_end {
            read_end
        } else {
            write_end
        };
        if from < to {
            splice_into(
                out,
                (from - read_offset) as usize,
                w.data.as_slice(),
                (from - w.offset) as usize,
                (to - w.offset) as usize,
            );
        }
        i = i + 1;
    }
    proof {
        assert(ws.take(i as int) =~= ws);
    }
}

/// A full window keeps its length, and without pending writes its bytes.
pub proof fn lemma_window_len(out: Seq<u8>, ws: Seq<(u64, Seq<u8>)>, lo: int, hi: int)
    requires
        0 <= lo <= hi,
        out.len() == hi - lo,
    ensures
        overlaid_window(out, ws, lo, hi).len() == out.len(),
        ws.len() == 0 ==> overlaid_window(out, ws, lo, hi) == out,
    decreases ws.len(),
{
    if ws.len() > 0 {
        lemma_window_len(out, ws.drop_last(), lo, hi);
    }
}

/// The pending writes of a unit.
pub open spec fn pending_of(ov: Seq<PendingUnit>, uuid: Uuid) -> Seq<(u64, Seq<u8>)>
    decreases ov.len(),
{
    if ov.len() == 0 {
        Seq::empty()
    } else if ov[0].uuid == uuid {
        writes_view(ov[0].writes@)
    } else {
        pending_of(ov.skip(1), uuid)
    }
}

/// The pending writes of all units fit, and no unit comes twice.
pub open spec fn overlay_ok(ov: Seq<PendingUnit>) -> bool {
    &&& forall|i: int|
        0 <= i < ov.len() ==> writes_fit(writes_view((#[trigger] ov[i]).writes@))
            && ov[i].writes@.len() > 0
    &&& forall|i: int, j: int| 0 <= i < j < ov.len() ==> ov[i].uuid != ov[j].uuid
}

/// The writes with one more, which comes last.
pub open spec fn put_write(ws: Seq<(u64, Seq<u8>)>, off: u64, data: Seq<u8>) -> Seq<
    (u64, Seq<u8>),
> {
    ws.push((off, data))
}

/// Putting a write in keeps the fit.
pub proof fn lemma_put_write(ws: Seq<(u64, Seq<u8>)>, off: u64, data: Seq<u8>)
    requires
        writes_fit(ws),
        off + data.len() <= usize::MAX,
    ensures
        writes_fit(put_write(ws, off, data)),
        put_write(ws, off, data).len() > 0,
{
    let r = put_write(ws, off, data);
    assert forall|i: int| 0 <= i < r.len() implies (#[trigger] r[i]).0 + r[i].1.len()
        <= usize::MAX by {
        if i < ws.len() {
            assert(ws[i] == r[i]);
        }
    }
}

/// The bytes of `s` that the window `[lo, hi)` shows.
pub open spec fn window(s: Seq<u8>, lo: int, hi: int) -> Seq<u8> {
    let n = s.len() as int;
    s.subrange(
        if lo <= n {
            lo
        } else {
            n
        },
        if hi <= n {
            hi
        } else {
            n
        },
    )
}

/// No write leaves a gap that the window would show and that the write itself
/// does not reach into.
pub open spec fn gaps_shown(s: Seq<u8>, ws: Seq<(u64, Seq<u8>)>, hi: int) -> bool {
    forall|i: int|
        0 <= i < ws.len() ==> {
            let n = overlaid(s, #[trigger] ws.take(i)).len();
            ws[i].0 <= n || hi <= n || ws[i].0 < hi && ws[i].1.len() > 0
        }
}

/// Pending writes laid over a window give the window of the content with the
/// writes laid over it. (A write that starts behind the window and behind the
/// content leaves a gap of zeros, which only the whole content shows.)
pub proof fn law_windows_show_the_writes(
    s: Seq<u8>,
    ws: Seq<(u64, Seq<u8>)>,
    lo: int,
    hi: int,
)
    requires
        0 <= lo < hi,
        gaps_shown(s, ws, hi),
    ensures
        overlaid_window(window(s, lo, hi), ws, lo, hi) == window(overlaid(s, ws), lo, hi),
    decreases ws.len(),
{
    if ws.len() > 0 {
        let p = ws.drop_last();
        let i = ws.len() - 1;
        assert(ws.take(i) =~= p);
        assert(gaps_shown(s, p, hi)) by {
            assert forall|k: int| 0 <= k < p.len() implies {
                let n = overlaid(s, #[trigger] p.take(k)).len();
                p[k].0 <= n || hi <= n || p[k].0 < hi && p[k].1.len() > 0
            } by {
                assert(ws.take(k) =~= p.take(k));
            }
        }
        law_windows_show_the_writes(s, p, lo, hi);
        let w = ws.last();
        let c = overlaid(s, p);
        let d = splice(c, w.0 as int, w.1);
        assert(ws[i] == w);
        let out = window(c, lo, hi);
        let a = splice_window(out, w, lo, hi);
        let b = window(d, lo, hi);
        assert(a.len() == b.len());
        assert(a =~= b);
    }
}

/// What a later write put there is what is there: pending writes count in the
/// order in which they were made.
pub proof fn law_later_writes_count(s: Seq<u8>, ws: Seq<(u64, Seq<u8>)>, off: u64, data: Seq<u8>)
    ensures
        overlaid(s, put_write(ws, off, data)) == splice(overlaid(s, ws), off as int, data),
{
    assert(put_write(ws, off, data).drop_last() =~= ws);
}

/// Puts a write behind others.
pub fn insert_write(ws: &mut Vec<PendingWrite>, off: u64, data: Vec<u8>)
    ensures
        writes_view(final(ws)@) == put_write(writes_view(old(ws)@), off, data@),
{
    ws.push(PendingWrite { offset: off, data });
    proof {
        assert(writes_view(ws@) =~= put_write(writes_view(old(ws)@), off, data@));
    }
}

/// The position of the pending writes of a unit.
pub fn find_pending(ov: &Vec<PendingUnit>, uuid: &Uuid) -> (r: Option<usize>)
    ensures
        r is None ==> pending_of(ov@, *uuid) == Seq::<(u64, Seq<u8>)>::empty() && forall|k: int|
            0 <= k < ov@.len() ==> (#[trigger] ov@[k]).uuid != *uuid,
        r is Some ==> r->Some_0 < ov@.len() && ov@[r->Some_0 as int].uuid == *uuid && pending_of(
            ov@,
            *uuid,
        ) == writes_view(ov@[r->Some_0 as int].writes@) && forall|k: int|
            0 <= k < r->Some_0 ==> (#[trigger] ov@[k]).uuid != *uuid,
{
    let mut i: usize = 0;
    proof {
        assert(ov@.skip(0) =~= ov@);
    }
    while i < ov.len()
        invariant
            i <= ov.len(),
            pending_of(ov@, *uuid) == pending_of(ov@.skip(i as int), *uuid),
            forall|k: int| 0 <= k < i ==> (#[trigger] ov@[k]).uuid != *uuid,
        decreases ov.len() - i,
    {
        proof {
            assert(ov@.skip(i as int)[0] == ov@[i as int]);
            assert(ov@.skip(i as int).skip(1) =~= ov@.skip(i + 1));
        }
        if same16(&ov[i].uuid, uuid) {
            return Some(i);
        }
        i = i + 1;
    }
    None
}

/// Laying one write over content twice is laying it once.
pub proof fn law_splice_idempotent(s: Seq<u8>, off: int, data: Seq<u8>)
    requires
        off >= 0,
    ensures
        splice(splice(s, off, data), off, data) == splice(s, off, data),
{
    assert(splice(splice(s, off, data), off, data) =~= splice(s, off, data));
}

/// What was written reads back, and everything else is as before.
pub proof fn law_splice_reads_back(s: Seq<u8>, off: int, data: Seq<u8>)
    requires
        0 <= off <= s.len(),
    ensures
        splice(s, off, data).subrange(off, off + data.len()) == data,
        splice(s, off, data).subrange(0, off) == s.subrange(0, off),
        off + data.len() <= s.len() ==> splice(s, off, data).subrange(
            off + data.len(),
            s.len() as int,
        ) == s.subrange(off + data.len(), s.len() as int),
{
    let t = splice(s, off, data);
    assert(t.subrange(off, off + data.len()) =~= data);
    assert(t.subrange(0, off) =~= s.subrange(0, off));
    if off + data.len() <= s.len() {
        assert(t.subrange(off + data.len(), s.len() as int) =~= s.subrange(
            off + data.len(),
            s.len() as int,
        ));
    }
}

/// The position found does not depend on other units' writes.
pub proof fn lemma_pending_at(ov: Seq<PendingUnit>, uuid: Uuid, i: int)
    requires
        0 <= i < ov.len(),
        ov[i].uuid == uuid,
        forall|k: int| 0 <= k < i ==> (#[trigger] ov[k]).uuid != uuid,
    ensures
        pending_of(ov, uuid) == writes_view(ov[i].writes@),
    decreases i,
{
    if i > 0 {
        assert(ov[0].uuid != uuid);
        let t = ov.skip(1);
        assert(t[i - 1] == ov[i]);
        assert forall|k: int| 0 <= k < i - 1 implies (#[trigger] t[k]).uuid != uuid by {
            assert(t[k] == ov[k + 1]);
        }
        lemma_pending_at(t, uuid, i - 1);
    }
}

pub proof fn lemma_pending_none(ov: Seq<PendingUnit>, uuid: Uuid)
    requires
        forall|k: int| 0 <= k < ov.len() ==> (#[trigger] ov[k]).uuid != uuid,
    ensures
        pending_of(ov, uuid) == Seq::<(u64, Seq<u8>)>::empty(),
    decreases ov.len(),
{
    if ov.len() > 0 {
        assert(ov[0].uuid != uuid);
        let t = ov.skip(1);
        assert forall|k: int| 0 <= k < t.len() implies (#[trigger] t[k]).uuid != uuid by {
            assert(t[k] == ov[k + 1]);
        }
        lemma_pending_none(t, uuid);
    }
}

/// Where the units stay the same, so do the pending writes of each that has the
/// same.
proof fn lemma_pending_same(a: Seq<PendingUnit>, b: Seq<PendingUnit>, uuid: Uuid)
    requires
        a.len() <= b.len(),
        forall|k: int| 0 <= k < a.len() ==> (#[trigger] a[k]).uuid == b[k].uuid,
        forall|k: int|
            0 <= k < a.len() && (#[trigger] a[k]).uuid == uuid ==> writes_view(a[k].writes@)
                == writes_view(b[k].writes@),
        forall|k: int| a.len() <= k < b.len() ==> (#[trigger] b[k]).uuid != uuid,
    ensures
        pending_of(a, uuid) == pending_of(b, uuid),
    decreases a.len(),
{
    if a.len() == 0 {
        lemma_pending_none(b, uuid);
    } else {
        assert(a[0].uuid == b[0].uuid);
        if a[0].uuid != uuid {
            let s = a.skip(1);
            let t = b.skip(1);
            assert forall|k: int| 0 <= k < s.len() implies (#[trigger] s[k]).uuid == t[k].uuid by {
                assert(s[k] == a[k + 1] && t[k] == b[k + 1]);
            }
            assert forall|k: int| 0 <= k < s.len() && (#[trigger] s[k]).uuid == uuid implies
                writes_view(s[k].writes@) == writes_view(t[k].writes@) by {
                assert(s[k] == a[k + 1] && t[k] == b[k + 1]);
            }
            assert forall|k: int| s.len() <= k < t.len() implies (#[trigger] t[k]).uuid != uuid by {
                assert(t[k] == b[k + 1]);
            }
            lemma_pending_same(s, t, uuid);
        }
    }
}

/// Adds a pending write of a unit.
pub fn add_pending(ov: &mut Vec<PendingUnit>, uuid: &Uuid, off: u64, data: Vec<u8>)
    requires
        overlay_ok(old(ov)@),
        off + data@.len() <= usize::MAX,
    ensures
        overlay_ok(final(ov)@),
        pending_of(final(ov)@, *uuid) == put_write(pending_of(old(ov)@, *uuid), off, data@),
        forall|v: Uuid|
            v != *uuid ==> #[trigger] pending_of(final(ov)@, v) == pending_of(old(ov)@, v),
        final(ov)@.len() > 0,
{
    let ghost before = ov@;
    match find_pending(ov, uuid) {
        Some(i) => {
            let ghost ws = writes_view(before[i as int].writes@);
            proof {
                lemma_put_write(ws, off, data@);
            }
            insert_write(&mut ov[i].writes, off, data);
            proof {
                let after = ov@;
                assert forall|k: int| 0 <= k < before.len() implies (#[trigger] before[k]).uuid
                    == after[k].uuid by {}
                assert forall|k: int| 0 <= k < i implies (#[trigger] after[k]).uuid != *uuid by {
                    assert(before[k].uuid != *uuid);
                }
                lemma_pending_at(after, *uuid, i as int);
                assert forall|k: int| 0 <= k < after.len() implies writes_fit(
                    writes_view((#[trigger] after[k]).writes@),
                ) && after[k].writes@.len()
                    > 0 by {
                    assert(writes_view(after[k].writes@).len() == after[k].writes@.len());
                    if k != i {
                        assert(after[k] == before[k]);
                    }
                }
                assert forall|a: int, b: int| 0 <= a < b < after.len() implies after[a].uuid
                    != after[b].uuid by {
                    assert(before[a].uuid != before[b].uuid);
                }
                assert forall|v: Uuid| v != *uuid implies #[trigger] pending_of(after, v)
                    == pending_of(before, v) by {
                    lemma_pending_same(before, after, v);
                }
            }
        },
        None => {
            let mut writes: Vec<PendingWrite> = Vec::new();
            proof {
                assert(writes_view(writes@) =~= Seq::empty());
                lemma_put_write(Seq::empty(), off, data@);
            }
            insert_write(&mut writes, off, data);
            ov.push(PendingUnit { uuid: *uuid, writes });
            proof {
                let after = ov@;
                let n = before.len() as int;
                assert forall|k: int| 0 <= k < n implies (#[trigger] after[k]).uuid != *uuid by {
                    assert(before[k].uuid != *uuid);
                }
                lemma_pending_at(after, *uuid, n);
                assert forall|k: int| 0 <= k < after.len() implies writes_fit(
                    writes_view((#[trigger] after[k]).writes@),
                ) && after[k].writes@.len()
                    > 0 by {
                    assert(writes_view(after[k].writes@).len() == after[k].writes@.len());
                    if k != n {
                        assert(after[k] == before[k]);
                    }
                }
                assert forall|a: int, b: int| 0 <= a < b < after.len() implies after[a].uuid
                    != after[b].uuid by {
                    if b < n {
                        assert(before[a].uuid != before[b].uuid);
                    } else {
                        assert(before[a].uuid != *uuid);
                    }
                }
                assert forall|v: Uuid| v != *uuid implies #[trigger] pending_of(after, v)
                    == pending_of(before, v) by {
                    lemma_pending_same(before, after, v);
                }
            }
        },
    }
}

} // verus!
