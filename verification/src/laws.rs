//! Laws that span several operations.
use vstd::prelude::*;

use crate::block::{frag_bytes, frags_for, last_len, lemma_frag_bytes, lemma_frags};
use crate::content::{byte_or_zero, lemma_last_fragment};
use crate::crypto::Crypto;
use crate::engine::{live, Container, Engine};
use crate::error::Error;
use crate::heap::in_heap;
use crate::overlay::{law_splice_reads_back, splice};
use crate::unit::RecordModel;

verus! {

/// Between two commits nothing that was committed can be lost: whatever was
/// staged or moved, and wherever a crash stopped it, reopening the container
/// gives the paths, the units and the content of the last commit, as long as
/// the slots that the commit needs are spared.
pub proof fn law_crash_reads_the_last_commit<C: Crypto>(
    e0: &Engine<C>,
    e1: &Engine<C>,
    c: Container,
    after: &Engine<C>,
    k: Seq<u8>,
)
    requires
        e0.inv(),
        e0.snap@ == e0.slots(),
        e0.header == e0.disk.committed.header,
        e0.disk.committed.ids@ == e0.ids@,
        e0.disk.committed.keys@ == e0.keys@,
        e1.inv(),
        e1.recoverable(),
        e1.disk.committed == e0.disk.committed,
        forall|f: int|
            #![trigger live(e0.ids@, e0.recs(), k, f)]
            live(e0.ids@, e0.recs(), k, f) != 0 ==> {
                let a = live(e0.ids@, e0.recs(), k, f);
                in_heap(e1.snap@, a) && e1.snap@[a - 1] == e0.snap@[a - 1]
            },
        e0.slots().len() <= e1.slots().len(),
        e0.recs().len() <= e1.recs().len(),
        e1.recs().take(e0.recs().len() as int) == e0.recs(),
        c.blocks@ == e1.slots(),
        c.tail@ == e1.tail(),
        c.records@ == e1.recs(),
        c.committed.header == e1.disk.committed.header,
        c.committed.keys@ == e1.disk.committed.keys@,
        c.committed.ids@ == e1.disk.committed.ids@,
        after.mounted(c, e0.root_key),
        e0.ids@.contains_key(k),
        e0.recs()[e0.ids@[k] - 1].stream().geometry_ok(),
    ensures
        after.keys@ == e0.keys@,
        after.ids@ == e0.ids@,
        after.header == e0.header,
        after.recs()[after.ids@[k] - 1] == e0.recs()[e0.ids@[k] - 1],
        after.contents(e0.recs()[e0.ids@[k] - 1]) == e0.contents(e0.recs()[e0.ids@[k] - 1]),
        after.full(e0.recs()[e0.ids@[k] - 1]) == e0.full(e0.recs()[e0.ids@[k] - 1]),
        forall|f: int|
            0 <= f < e0.recs()[e0.ids@[k] - 1].stream().n() ==> #[trigger] after.frag(
                e0.recs()[e0.ids@[k] - 1],
                f,
            ) == e0.frag(e0.recs()[e0.ids@[k] - 1], f),
{
    let r = e0.recs()[e0.ids@[k] - 1];
    assert(e1.recs().take(e0.recs().len() as int)[e0.ids@[k] - 1] == r);
    let sm = r.stream();
    assert forall|f: int| 0 <= f < sm.n() implies (#[trigger] sm.locations[f]).addr
        <= e0.slots().len() by {
        assert(live(e0.ids@, e0.recs(), k, f) == sm.locations[f].addr);
    }
    crate::heap::lemma_undone_len(c.blocks@, c.tail@, c.committed.header.commit_seq);
    assert forall|f: int| 0 <= f < sm.n() && (#[trigger] sm.locations[f]).addr != 0 implies
        after.slots()[sm.locations[f].addr - 1] == e0.slots()[sm.locations[f].addr - 1] by {
        let a = sm.locations[f].addr;
        assert(live(e0.ids@, e0.recs(), k, f) == a);
        assert(in_heap(e1.snap@, a));
    }
    Engine::<C>::lemma_reads_kept(e0, after, r);
    Engine::<C>::lemma_pieces_kept(e0, after, r, sm.n());
}

/// A write changes the content of no other unit.
pub proof fn law_write_leaves_other_units<C: Crypto>(
    o: &Engine<C>,
    e: &Engine<C>,
    uuid: Seq<u8>,
    k: Seq<u8>,
)
    requires
        o.inv(),
        Engine::<C>::others_kept(o, e, uuid),
        e.root_key == o.root_key,
        e.header.key_epoch == o.header.key_epoch,
        e.header.cipher == o.header.cipher,
        o.slots().len() <= e.slots().len(),
        o.ids@.contains_key(k),
        k != uuid,
        o.recs()[o.ids@[k] - 1].stream().geometry_ok(),
    ensures
        e.contents(o.recs()[o.ids@[k] - 1]) == o.contents(o.recs()[o.ids@[k] - 1]),
        e.full(o.recs()[o.ids@[k] - 1]) == o.full(o.recs()[o.ids@[k] - 1]),
{
    let r = o.recs()[o.ids@[k] - 1];
    let sm = r.stream();
    assert forall|f: int| 0 <= f < sm.n() implies (#[trigger] sm.locations[f]).addr
        <= o.slots().len() by {
        assert(live(o.ids@, o.recs(), k, f) == sm.locations[f].addr);
    }
    assert forall|f: int| 0 <= f < sm.n() && (#[trigger] sm.locations[f]).addr != 0 implies
        e.slots()[sm.locations[f].addr - 1] == o.slots()[sm.locations[f].addr - 1] by {
        assert(live(o.ids@, o.recs(), k, f) == sm.locations[f].addr);
    }
    Engine::<C>::lemma_reads_kept(o, e, r);
    Engine::<C>::lemma_pieces_kept(o, e, r, sm.n());
}

/// What was written is what a read of the new head gives back, and the rest of
/// the content is as before.
pub proof fn law_written_bytes_read_back<C: Crypto>(
    o: &Engine<C>,
    e: &Engine<C>,
    key: Seq<u8>,
    offset: int,
    data: Seq<u8>,
)
    requires
        o.head(key) is Ok,
        0 <= offset <= o.contents(o.head(key)->Ok_0.2).len(),
        Engine::<C>::written(o, e, key, offset, data),
    ensures
        e.contents(e.recs().last()).subrange(offset, offset + data.len()) == data,
        e.contents(e.recs().last()).subrange(0, offset) == o.contents(
            o.head(key)->Ok_0.2,
        ).subrange(0, offset),
        e.contents(e.recs().last()) == splice(o.contents(o.head(key)->Ok_0.2), offset, data),
{
    law_splice_reads_back(o.contents(o.head(key)->Ok_0.2), offset, data);
}

/// Bytes that were cut off do not come back: content that is truncated and then
/// extended reads as zeros behind the cut.
pub proof fn law_truncated_bytes_stay_gone<C: Crypto>(
    o: &Engine<C>,
    e1: &Engine<C>,
    e2: &Engine<C>,
    r0: RecordModel,
    r1: RecordModel,
    r2: RecordModel,
    head0: u64,
    head1: u64,
    cut: nat,
    size: nat,
    i: int,
)
    requires
        r0.stream().geometry_ok(),
        0 < cut < r0.stream().size(),
        Engine::<C>::truncated(o, e1, r0, head0, cut, r1),
        e1.extended(r1, head1, size, r2),
        Engine::<C>::same_reads(e1, e2),
        cut < size <= 0x7fff_ffff_ffff_ffff,
        cut <= i < size,
    ensures
        e2.contents(r2)[i] == 0,
{
    let sm0 = r0.stream();
    let sm1 = r1.stream();
    let exp = sm0.fragsize_exp;
    let fs = frag_bytes(exp) as int;
    lemma_frag_bytes(exp);
    lemma_frags(cut, exp);
    lemma_last_fragment(sm0, cut - 1);
    let n = frags_for(cut, exp) as int;
    assert(sm1.n() == n);
    assert(sm1.geometry_ok());
    assert(sm1.size() == cut);
    assert forall|j: int|
        sm1.n() > 0 && sm1.last_frag_length <= j < frag_bytes(
            sm1.fragsize_exp,
        ) implies #[trigger] byte_or_zero(e1.plain(r1, sm1.n() - 1), j) == 0 by {
        if Engine::<C>::reseals(sm0, cut) {
            crate::overlay::lemma_window_len(
                o.contents(r0).subrange(0, cut as int),
                crate::overlay::pending_of(o.overlay@, r0.uuid),
                0,
                cut as int,
            );
            let part = o.cut(r0, cut as int).subrange((n - 1) * fs, cut as int);
            assert(e1.frag(r1, n - 1) == Ok::<Seq<u8>, Error>(
                o.padded_under(o.suite(r0, n - 1), part, exp),
            ));
            assert(part.len() == last_len(cut, exp));
        } else {
            assert(sm1.locations[n - 1] == sm0.locations[n - 1]);
        }
    }
    Engine::<C>::law_extend_keeps_content(e1, e2, r1, head1, size, r2);
}

} // verus!
