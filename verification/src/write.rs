//! Writing content.
use vstd::prelude::*;

use crate::block::{
    dot, exp_for, few_frags, footprint, frag_bytes, frags_for, fragsize, last_frag_length, last_len,
    lemma_frag_bytes, lemma_frags, round_up_block,
};
use crate::bytes::{push_zeros, resized, zeros};
use crate::content::{byte_or_zero, lemma_in_fragment, lemma_last_fragment, stored_at};
use crate::crypto::{BlockCtx, Crypto};
use crate::engine::{journal_has, journal_ok, live, Container, Engine};
use crate::error::Error;
use crate::evicted::EvictedModel;
use crate::heap::in_heap;
use crate::overlay::{splice, splice_into};
use crate::storage::stamp_of;
use crate::supersede::{lemma_pinning_kept, lemma_stamped_others, stamped};
use crate::unit::{
    clear_pins, hole, is_hole, lemma_pins_cleared_step, lemma_size_bound, pins_cleared, pins_view,
    BlockLoc, RecordModel, StreamMeta, StreamModel, UnitRecord, Uuid,
};
use crate::vector::{vv_get, vv_is_bump};

verus! {

/// The bytes of `content` that fall into fragment `f`.
pub open spec fn frag_slice(content: Seq<u8>, fs: int, f: int) -> Seq<u8> {
    content.subrange(
        f * fs,
        if f * fs + fs <= content.len() {
            f * fs + fs
        } else {
            content.len() as int
        },
    )
}

/// How long a plaintext is when it is sealed: padded to the suite's minimum,
/// and to a full fragment where the container pads.
pub open spec fn padded_len(len: nat, pad: bool, fs: nat, min: nat) -> nat {
    let a = if len >= min {
        len
    } else {
        min
    };
    if pad && a < fs {
        fs
    } else {
        a
    }
}

impl<C: Crypto> Engine<C> {
    /// A plaintext as it is sealed under a suite: zero-padded.
    pub open spec fn padded_under(&self, suite: u8, plain: Seq<u8>, exp: u8) -> Seq<u8> {
        resized(
            plain,
            padded_len(
                plain.len(),
                self.header.pad_blocks,
                frag_bytes(exp),
                C::min_len(suite),
            ),
        )
    }

    /// A plaintext as it is sealed under the present suite.
    pub open spec fn padded(&self, plain: Seq<u8>, exp: u8) -> Seq<u8> {
        self.padded_under(self.header.content_cipher, plain, exp)
    }

    /// What a fragment is sealed in.
    pub open spec fn ctx(&self, uuid: Uuid, f: int, version: u64) -> BlockCtx {
        BlockCtx { uuid, frag: f as u32, version, key_epoch: self.header.key_epoch }
    }

    /// A fragment, padded and sealed under the present suite and key.
    pub open spec fn sealed_frag(
        &self,
        uuid: Uuid,
        f: int,
        version: u64,
        plain: Seq<u8>,
        exp: u8,
    ) -> Seq<u8> {
        C::sealed(
            self.header.content_cipher,
            self.root_key,
            self.ctx(uuid, f, version),
            self.padded(plain, exp),
        )
    }

    /// Pads and seals a fragment under a suite.
    pub fn seal_under(
        &self,
        suite: u8,
        uuid: &Uuid,
        f: usize,
        version: u64,
        plain: Vec<u8>,
        exp: u8,
    ) -> (r: Vec<u8>)
        requires
            C::known(suite),
            exp <= 31,
            plain@.len() <= 0x8000_0000,
            f <= u32::MAX,
        ensures
            r@ == C::sealed(
                suite,
                self.root_key,
                self.ctx(*uuid, f as int, version),
                self.padded_under(suite, plain@, exp),
            ),
            r@.len() <= 0x8000_0040,
            C::opened(suite, self.root_key, self.ctx(*uuid, f as int, version), r@) == Some(
                self.padded_under(suite, plain@, exp),
            ),
    {
        let min: usize = C::min_plaintext_len(suite);
        let fs: usize = fragsize(exp) as usize;
        let ctx: BlockCtx = BlockCtx {
            uuid: *uuid,
            frag: f as u32,
            version,
            key_epoch: self.header.key_epoch,
        };
        let mut to_seal: Vec<u8> = plain;
        if to_seal.len() < min {
            let gap: usize = min - to_seal.len();
            push_zeros(&mut to_seal, gap);
        }
        if self.header.pad_blocks && to_seal.len() < fs {
            let gap: usize = fs - to_seal.len();
            push_zeros(&mut to_seal, gap);
        }
        proof {
            C::lemma_seal_len(suite, self.root_key, ctx, to_seal@);
            assert(to_seal@ =~= self.padded_under(suite, plain@, exp));
            C::lemma_open_of_seal(suite, self.root_key, ctx, to_seal@);
        }
        C::seal(suite, &self.root_key, &ctx, to_seal.as_slice())
    }

    /// Pads and seals a fragment under the present suite.
    pub fn seal_fragment(&self, uuid: &Uuid, f: usize, version: u64, plain: Vec<u8>, exp: u8) -> (r:
        Vec<u8>)
        requires
            C::known(self.header.content_cipher),
            exp <= 31,
            plain@.len() <= 0x8000_0000,
            f <= u32::MAX,
        ensures
            r@ == self.sealed_frag(*uuid, f as int, version, plain@, exp),
            r@.len() <= 0x8000_0040,
            C::opened(
                self.header.content_cipher,
                self.root_key,
                self.ctx(*uuid, f as int, version),
                r@,
            ) == Some(self.padded(plain@, exp)),
    {
        self.seal_under(self.header.content_cipher, uuid, f, version, plain, exp)
    }

    /// The content after `data` is written at `offset`.
    pub open spec fn target(&self, r: RecordModel, offset: int, data: Seq<u8>) -> Seq<u8> {
        splice(self.contents(r), offset, data)
    }

    /// The part of the new content that falls into fragment `f`: what is there,
    /// with the written bytes over it.
    #[verifier::rlimit(40)]
    pub fn merge_fragment(
        &self,
        rec: &UnitRecord,
        f: usize,
        exp: u8,
        new_size: u64,
        offset: u64,
        data: &[u8],
    ) -> (r: Result<Vec<u8>, Error>)
        requires
            rec@.stream().geometry_ok(),
            exp <= 31,
            rec@.stream().n() > 0 ==> exp == rec@.stream().fragsize_exp,
            offset <= rec@.stream().size(),
            data@.len() > 0,
            offset + data@.len() <= 0x7fff_ffff_ffff_ffff,
            new_size == self.target(rec@, offset as int, data@).len(),
            f * frag_bytes(exp) < new_size,
            f <= u32::MAX,
        ensures
            f >= rec@.stream().n() || self.readable(rec@, f as int) ==> r is Ok && r->Ok_0@
                == frag_slice(
                self.target(rec@, offset as int, data@),
                frag_bytes(exp) as int,
                f as int,
            ),
            f < rec@.stream().n() && !self.readable(rec@, f as int) ==> r is Err && self.frag(
                rec@,
                f as int,
            ) == Err::<Seq<u8>, Error>(r->Err_0),
            r is Ok ==> r->Ok_0@.len() <= frag_bytes(exp),
    {
        let fs: u64 = fragsize(exp);
        let ghost sm = rec@.stream();
        let ghost target = self.target(rec@, offset as int, data@);
        let ghost gfs = fs as int;
        let ghost gf = f as int;
        proof {
            lemma_size_bound(sm);
        }
        let frag_start: u64 = f as u64 * fs;
        let frag_len: u64 = if new_size - frag_start <= fs {
            new_size - frag_start
        } else {
            fs
        };
        let mut plain: Vec<u8> = Vec::new();
        push_zeros(&mut plain, frag_len as usize);
        proof {
            assert(plain@ =~= zeros(frag_len as nat));
        }
        match &rec.content {
            None => {},
            Some(old_sm) => {
                if f < old_sm.unit_map.len() && !is_hole(old_sm.locations[f]) {
                    let existing: Vec<u8> = match self.read_frag_of(rec, old_sm, f) {
                        Err(e) => {
                            return Err(e);
                        },
                        Ok(p) => p,
                    };
                    let n: usize = if existing.len() <= plain.len() {
                        existing.len()
                    } else {
                        plain.len()
                    };
                    splice_into(&mut plain, 0, existing.as_slice(), 0, n);
                    proof {
                        assert forall|j: int| 0 <= j < frag_len implies plain@[j] == byte_or_zero(
                            self.plain(rec@, gf),
                            j,
                        ) by {}
                    }
                }
            },
        }
        let ghost base = plain@;
        proof {
            assert(base.len() == frag_len);
            assert forall|j: int| 0 <= j < frag_len && gf < sm.n() implies base[j] == byte_or_zero(
                self.plain(rec@, gf),
                j,
            ) by {}
        }
        let end: u64 = offset + data.len() as u64;
        let lo: u64 = if offset >= frag_start {
            offset
        } else {
            frag_start
        };
        let hi: u64 = if end <= frag_start + frag_len {
            end
        } else {
            frag_start + frag_len
        };
        if lo < hi {
            splice_into(
                &mut plain,
                (lo - frag_start) as usize,
                data,
                (lo - offset) as usize,
                (hi - offset) as usize,
            );
        }
        proof {
            let want = frag_slice(target, gfs, gf);
            assert(want.len() == frag_len);
            assert(plain@.len() == frag_len);
            assert forall|j: int| 0 <= j < frag_len implies plain@[j] == want[j] by {
                let i = frag_start + j;
                assert(want[j] == target[i]);
                if offset <= i < end {
                    assert(target[i] == data@[i - offset]);
                    assert(lo <= i < hi);
                } else {
                    assert(plain@[j] == base[j]);
                    assert(i < sm.size());
                    lemma_last_fragment(sm, i);
                    lemma_in_fragment(i, gf, gfs);
                    assert(target[i] == self.byte(rec@, i));
                }
            }
            assert(plain@ =~= want);
        }
        Ok(plain)
    }

    /// The new block of a fragment takes the slot of the old one: both are whole
    /// blocks of the same footprint, and the fragment was not superseded since
    /// the last commit.
    pub open spec fn reuses(
        &self,
        uuid: Uuid,
        f: u32,
        old_block: Option<(u64, BlockLoc)>,
        cipher_len: nat,
    ) -> bool {
        &&& old_block is Some
        &&& !(0 < cipher_len < 4096)
        &&& old_block->Some_0.1.len >= 4096
        &&& footprint(old_block->Some_0.1.len as nat) == footprint(cipher_len)
        &&& !journal_has(self.journaled@, uuid@, f)
    }

    /// Finds a slot for the new block of a fragment: the old one, to be
    /// overwritten later, or a fresh one. The old block goes to the tail unless
    /// it went there since the last commit.
    fn store_fragment(
        &mut self,
        uuid: &Uuid,
        f: u32,
        old_block: Option<(u64, BlockLoc)>,
        cipher: Vec<u8>,
        commits: Vec<Uuid>,
        pending: &mut Vec<(u64, Vec<u8>)>,
    ) -> (r: Result<BlockLoc, Error>)
        requires
            old(self).inv(),
            old(self).header.commit_seq < u64::MAX,
            cipher@.len() <= u32::MAX,
            old_block is Some ==> {
                &&& old_block->Some_0.1.addr != 0
                &&& live(old(self).ids@, old(self).recs(), uuid@, f as int)
                    == old_block->Some_0.1.addr
                &&& stored_at(old(self).slots(), old_block->Some_0.1) is Some
            },
        ensures
            r is Ok,
            final(self).inv(),
            old(self).recoverable() ==> final(self).recoverable(),
            r->Ok_0.len == cipher@.len(),
            *final(self) == (Engine {
                disk: (Container {
                    blocks: final(self).disk.blocks,
                    tail: final(self).disk.tail,
                    ..old(self).disk
                }),
                journaled: final(self).journaled,
                dirty: final(self).dirty,
                ..*old(self)
            }),
            old(self).reuses(*uuid, f, old_block, cipher@.len()) ==> {
                &&& r->Ok_0.addr == old_block->Some_0.1.addr
                &&& final(self).slots() == old(self).slots()
                &&& final(pending)@.len() == old(pending)@.len() + 1
                &&& final(pending)@.take(old(pending)@.len() as int) == old(pending)@
                &&& final(pending)@.last().0 == r->Ok_0.addr
                &&& final(pending)@.last().1@ == cipher@
                &&& final(self).dirty@ == old(self).dirty@.insert(r->Ok_0.addr)
            },
            !old(self).reuses(*uuid, f, old_block, cipher@.len()) ==> {
                &&& final(self).slots() == old(self).slots().push(cipher@)
                &&& r->Ok_0.addr == final(self).slots().len()
                &&& final(pending)@ == old(pending)@
                &&& final(self).dirty == old(self).dirty
            },
            final(self).tail() == if old_block is None || journal_has(
                old(self).journaled@,
                uuid@,
                f,
            ) {
                old(self).tail()
            } else {
                let reuse = old(self).reuses(*uuid, f, old_block, cipher@.len());
                old(self).tail().push(
                    old(self).evicted(
                        *uuid,
                        f,
                        old_block->Some_0.0,
                        old_block->Some_0.1,
                        commits@,
                        if reuse {
                            old_block->Some_0.1.addr
                        } else {
                            0
                        },
                        if reuse {
                            (old(self).header.commit_seq + 1) as u64
                        } else {
                            0
                        },
                    ),
                )
            },
            final(self).journaled@ == if old_block is None || journal_has(
                old(self).journaled@,
                uuid@,
                f,
            ) {
                old(self).journaled@
            } else {
                old(self).journaled@.push((*uuid, f))
            },
    {
        let len: usize = cipher.len();
        let journaled: bool = self.is_journaled(uuid, f);
        let packed: bool = len > 0 && len < 4096;
        match old_block {
            None => {},
            Some((old_ver, old_loc)) => {
                if !journaled {
                    if !packed && old_loc.len >= 4096 && round_up_block(old_loc.len as u64)
                        == round_up_block(len as u64) {
                        match self.journal_inplace(uuid, f, old_ver, old_loc, commits) {
                            Err(e) => {
                                return Err(e);
                            },
                            Ok(()) => {},
                        }
                        pending.push((old_loc.addr, cipher));
                        proof {
                            assert(pending@.take(old(pending)@.len() as int) =~= old(pending)@);
                        }
                        return Ok(BlockLoc { addr: old_loc.addr, len: len as u32 });
                    }
                    match self.evict_block(uuid, f, old_ver, old_loc, commits, 0, 0) {
                        Err(e) => {
                            return Err(e);
                        },
                        Ok(()) => {},
                    }
                    let ghost mid = *self;
                    self.journaled.push((*uuid, f));
                    proof {
                        Self::lemma_journal_grows(&mid, &*self, *uuid, f);
                    }
                }
            },
        }
        Ok(self.place_content_fragment(cipher))
    }

    /// A longer journal keeps everything in order.
    pub proof fn lemma_journal_grows(a: &Self, b: &Self, uuid: Uuid, f: u32)
        requires
            a.inv(),
            b.journaled@ == a.journaled@.push((uuid, f)),
            *b == (Engine { journaled: b.journaled, ..*a }),
        ensures
            b.inv(),
            a.recoverable() ==> b.recoverable(),
    {
        if a.recoverable() {
            assert forall|k: Seq<u8>, p: int|
                #![trigger live(b.ids@, b.recs(), k, p)]
                0 <= p <= u32::MAX && b.dirty@.contains(
                    live(b.ids@, b.recs(), k, p),
                ) implies journal_has(b.journaled@, k, p as u32) by {
                assert(journal_has(a.journaled@, k, p as u32));
                let i = choose|i: int|
                    0 <= i < a.journaled@.len() && (#[trigger] a.journaled@[i]).0@ == k
                        && a.journaled@[i].1 == p as u32;
                assert(b.journaled@[i] == a.journaled@[i]);
            }
            assert(journal_ok(b.ids@, b.recs(), b.dirty@, b.journaled@));
        }
    }
}

/// The addresses of pending overwrites are distinct.
pub open spec fn pending_distinct(p: Seq<(u64, Vec<u8>)>) -> bool {
    forall|i: int, j: int| 0 <= i < j < p.len() ==> p[i].0 != p[j].0
}

/// Some pending overwrite is of slot `a`.
pub open spec fn pending_has(p: Seq<(u64, Vec<u8>)>, a: u64) -> bool {
    exists|i: int| 0 <= i < p.len() && (#[trigger] p[i]).0 == a
}

impl<C: Crypto> Engine<C> {
    /// Neither failure seam of the write path is armed.
    pub open spec fn no_crash_seam(&self) -> bool {
        !self.crash_after_tail_copy && self.crash_after_n_inplace is None
    }

    /// Overwrites the slots whose new blocks are pending. The undo images are in
    /// the tail by now; the failure seams stop before, or in the middle of, this.
    pub fn apply_pending(&mut self, pending: Vec<(u64, Vec<u8>)>) -> (r: Result<(), Error>)
        requires
            old(self).inv(),
            pending_distinct(pending@),
            forall|i: int|
                0 <= i < pending@.len() ==> in_heap(old(self).slots(), (#[trigger] pending@[i]).0)
                    && old(self).dirty@.contains(pending@[i].0),
        ensures
            final(self).inv(),
            old(self).recoverable() ==> final(self).recoverable(),
            *final(self) == (Engine {
                disk: (Container { blocks: final(self).disk.blocks, ..old(self).disk }),
                ..*old(self)
            }),
            final(self).slots().len() == old(self).slots().len(),
            forall|a: u64| #[trigger]
                in_heap(old(self).slots(), a) && !pending_has(pending@, a)
                    ==> final(self).slots()[a - 1] == old(self).slots()[a - 1],
            r is Ok ==> forall|i: int|
                0 <= i < pending@.len() ==> final(self).slots()[(#[trigger] pending@[i]).0 - 1]
                    == pending@[i].1@,
            r is Err ==> r == Err::<(), Error>(Error::Integrity) && !old(self).no_crash_seam()
                && pending@.len() > 0,
            old(self).crash_after_tail_copy && pending@.len() > 0 ==> r is Err
                && final(self).slots() == old(self).slots(),
    {
        if pending.len() > 0 && self.crash_after_tail_copy {
            return Err(Error::Integrity);
        }
        let n: usize = pending.len();
        let mut i: usize = 0;
        while i < n
            invariant
                n == pending@.len(),
                i <= n,
                self.inv(),
                old(self).recoverable() ==> self.recoverable(),
                pending_distinct(pending@),
                *self == (Engine {
                    disk: (Container { blocks: self.disk.blocks, ..old(self).disk }),
                    ..*old(self)
                }),
                n > 0 ==> !old(self).crash_after_tail_copy,
                self.slots().len() == old(self).slots().len(),
                forall|k: int|
                    0 <= k < n ==> in_heap(old(self).slots(), (#[trigger] pending@[k]).0) && old(
                        self,
                    ).dirty@.contains(pending@[k].0),
                forall|k: int|
                    0 <= k < i ==> self.slots()[(#[trigger] pending@[k]).0 - 1] == pending@[k].1@,
                forall|a: u64| #[trigger]
                    in_heap(old(self).slots(), a) && !pending_has(pending@, a) ==> self.slots()[a
                        - 1] == old(self).slots()[a - 1],
            decreases n - i,
        {
            let addr: u64 = pending[i].0;
            let ghost before = self.slots();
            proof {
                assert(in_heap(old(self).slots(), pending@[i as int].0));
            }
            self.apply_inplace(addr, crate::unit::copy_bytes(&pending[i].1));
            proof {
                assert(pending_has(pending@, addr)) by {
                    assert(pending@[i as int].0 == addr);
                }
                assert forall|k: int| 0 <= k < i + 1 implies self.slots()[(
                #[trigger] pending@[k]).0 - 1] == pending@[k].1@ by {
                    if k < i {
                        assert(pending@[k].0 != pending@[i as int].0);
                        assert(in_heap(old(self).slots(), pending@[k].0));
                    }
                }
            }
            i = i + 1;
            match self.crash_after_n_inplace {
                None => {},
                Some(k) => {
                    if i >= k {
                        return Err(Error::Integrity);
                    }
                },
            }
        }
        Ok(())
    }

    /// The new block of fragment `g`: the part of the new content that falls
    /// into it, padded and sealed.
    pub open spec fn new_block(
        &self,
        r: RecordModel,
        offset: int,
        data: Seq<u8>,
        exp: u8,
        version: u64,
        g: int,
    ) -> Seq<u8> {
        self.sealed_frag(
            r.uuid,
            g,
            version,
            frag_slice(self.target(r, offset, data), frag_bytes(exp) as int, g),
            exp,
        )
    }

    /// What changed while fragments were staged: only slots, tail, journal and
    /// stamps; slots were added and none of the old ones touched.
    pub open spec fn staging(o: &Self, e: &Self) -> bool {
        &&& *e == (Engine {
            disk: (Container { blocks: e.disk.blocks, tail: e.disk.tail, ..o.disk }),
            journaled: e.journaled,
            stamps: e.stamps,
            dirty: e.dirty,
            ..*o
        })
        &&& o.slots().len() <= e.slots().len()
    }

    /// The fragment's new block is in a fresh slot, or pending for its old slot.
    pub open spec fn frag_staged(
        o: &Self,
        e: &Self,
        uuid: Uuid,
        g: int,
        loc: BlockLoc,
        block: Seq<u8>,
        pending: Seq<(u64, Vec<u8>)>,
    ) -> bool {
        &&& loc.len == block.len()
        &&& loc.len <= 0x8000_0040
        &&& loc.addr != 0
        &&& loc.addr <= e.slots().len()
        &&& loc.addr <= o.slots().len() ==> {
            &&& loc.addr == live(o.ids@, o.recs(), uuid@, g)
            &&& exists|k: int|
                0 <= k < pending.len() && (#[trigger] pending[k]).0 == loc.addr && pending[k].1@
                    == block
        }
        &&& loc.addr > o.slots().len() ==> e.slots()[loc.addr - 1] == block
    }

    /// While a write is staged the old head reads as before.
    proof fn lemma_head_kept(o: &Self, e: &Self, r: RecordModel)
        requires
            o.inv(),
            Self::staging(o, e),
            o.ids@.contains_key(r.uuid@),
            o.recs()[o.ids@[r.uuid@] - 1] == r,
            r.stream().geometry_ok(),
            forall|a: u64| #[trigger]
                in_heap(o.slots(), a) ==> e.slots()[a - 1] == o.slots()[a - 1],
        ensures
            forall|f: int| 0 <= f < r.stream().n() ==> #[trigger] e.frag(r, f) == o.frag(r, f),
            forall|f: int|
                0 <= f < r.stream().n() ==> #[trigger] e.readable(r, f) == o.readable(r, f),
            e.contents(r) == o.contents(r),
    {
        let sm = r.stream();
        assert forall|f: int| 0 <= f < sm.n() implies (#[trigger] sm.locations[f]).addr
            <= o.slots().len() by {
            assert(live(o.ids@, o.recs(), r.uuid@, f) == sm.locations[f].addr);
        }
        assert forall|f: int|
            0 <= f < sm.n() && (#[trigger] sm.locations[f]).addr != 0 implies e.slots()[
        sm.locations[f].addr - 1] == o.slots()[sm.locations[f].addr - 1] by {
            assert(in_heap(o.slots(), sm.locations[f].addr));
        }
        Self::lemma_reads_kept(o, e, r);
    }

    /// The image of a fragment is the same at every point of the staging.
    proof fn lemma_image_step(o: &Self, e: &Self, r: RecordModel, f: int, new_len: nat)
        requires
            Self::staging(o, e),
            crate::supersede::old_block(r, f) is Some ==> {
                let loc = crate::supersede::old_block(r, f)->Some_0.1;
                in_heap(o.slots(), loc.addr) && e.slots()[loc.addr - 1] == o.slots()[loc.addr - 1]
            },
            journal_has(e.journaled@, r.uuid@, f as u32) == journal_has(
                o.journaled@,
                r.uuid@,
                f as u32,
            ),
            stamp_of(e.stamps@, r.uuid, f as u32) == stamp_of(o.stamps@, r.uuid, f as u32),
        ensures
            e.retires(r, f) == o.retires(r, f),
            o.retires(r, f) ==> e.image(r, f, new_len) == o.image(r, f, new_len),
    {
    }

    /// Stages the new blocks of fragments `first` to `last`.
    pub fn stage_fragments(
        &mut self,
        rec: &UnitRecord,
        sm: &mut StreamMeta,
        new_size: u64,
        offset: u64,
        data: &[u8],
        version: u64,
        first: usize,
        last: usize,
        pending: &mut Vec<(u64, Vec<u8>)>,
    ) -> (r: Result<(), Error>)
        requires
            old(self).inv(),
            old(self).header.commit_seq < u64::MAX,
            C::known(old(self).header.content_cipher),
            rec@.stream().geometry_ok(),
            rec@.uuid@.len() == 16,
            old(self).ids@.contains_key(rec@.uuid@),
            old(self).recs()[old(self).ids@[rec@.uuid@] - 1] == rec@,
            old(pending)@.len() == 0,
            old(sm)@.fragsize_exp <= 31,
            rec@.stream().n() > 0 ==> old(sm)@.fragsize_exp == rec@.stream().fragsize_exp,
            offset <= rec@.stream().size(),
            data@.len() > 0,
            offset + data@.len() <= 0x7fff_ffff_ffff_ffff,
            new_size == old(self).target(rec@, offset as int, data@).len(),
            first <= last < old(sm)@.n(),
            old(sm)@.n() <= u32::MAX,
            old(sm)@.locations.len() == old(sm)@.unit_map.len(),
            last * frag_bytes(old(sm)@.fragsize_exp) < new_size,
            old(sm)@.pins == rec@.stream().pins,
        ensures
            final(self).inv(),
            old(self).recoverable() ==> final(self).recoverable(),
            Self::staging(old(self), final(self)),
            Self::tail_grew(old(self), final(self)),
            forall|a: u64| #[trigger]
                in_heap(old(self).slots(), a) ==> final(self).slots()[a - 1]
                    == old(self).slots()[a - 1],
            r is Ok <==> forall|g: int|
                first <= g <= last && g < rec@.stream().n() ==> #[trigger] old(self).readable(
                    rec@,
                    g,
                ),
            r is Err ==> exists|g: int|
                #![trigger old(self).frag(rec@, g)]
                {
                    &&& first <= g <= last
                    &&& g < rec@.stream().n()
                    &&& !old(self).readable(rec@, g)
                    &&& old(self).frag(rec@, g) == Err::<Seq<u8>, Error>(r->Err_0)
                    &&& forall|h: int| first <= h < g ==> #[trigger] old(self).readable(rec@, h)
                },
            r is Ok ==> {
                let exp = old(sm)@.fragsize_exp;
                &&& final(self).tail() == old(self).tail() + old(self).images(
                    rec@,
                    offset as int,
                    data@,
                    exp,
                    version,
                    first as int,
                    last + 1,
                )
                &&& final(self).journaled@ == old(self).journaled@ + old(self).retired(
                    rec@,
                    first as int,
                    last + 1,
                )
                &&& final(self).stamps@ == old(self).stamps@ + stamped(
                    rec@.uuid,
                    old(self).time(),
                    first as int,
                    last + 1,
                )
            },
            r is Ok ==> {
                let exp = old(sm)@.fragsize_exp;
                let o = old(sm)@;
                let n = final(sm)@;
                &&& n.vv == o.vv
                &&& n.fragsize_exp == exp
                &&& n.last_frag_length == o.last_frag_length
                &&& n.unit_map.len() == o.unit_map.len()
                &&& n.locations.len() == o.locations.len()
                &&& pins_cleared(o.pins, n.pins, first as int, last + 1)
                &&& forall|g: int|
                    0 <= g < n.n() ==> #[trigger] n.unit_map[g] == if first <= g <= last {
                        version
                    } else {
                        o.unit_map[g]
                    }
                &&& forall|g: int|
                    0 <= g < n.n() && !(first <= g <= last) ==> #[trigger] n.locations[g]
                        == o.locations[g]
                &&& forall|g: int|
                    #![trigger n.locations[g]]
                    first <= g <= last ==> Self::frag_staged(
                        old(self),
                        final(self),
                        rec@.uuid,
                        g,
                        n.locations[g],
                        old(self).new_block(rec@, offset as int, data@, exp, version, g),
                        final(pending)@,
                    )
                &&& forall|g: int, h: int|
                    #![trigger n.locations[g], n.locations[h]]
                    first <= g < h <= last ==> n.locations[g].addr != n.locations[h].addr
                &&& pending_distinct(final(pending)@)
                &&& forall|k: int|
                    0 <= k < final(pending)@.len() ==> in_heap(
                        old(self).slots(),
                        (#[trigger] final(pending)@[k]).0,
                    ) && final(self).dirty@.contains(final(pending)@[k].0) && exists|g: int|
                        first <= g <= last && #[trigger] live(
                            old(self).ids@,
                            old(self).recs(),
                            rec@.uuid@,
                            g,
                        ) == final(pending)@[k].0
                &&& forall|a: u64| #[trigger]
                    final(self).dirty@.contains(a) ==> old(self).dirty@.contains(a) || in_heap(
                        old(self).slots(),
                        a,
                    )
            },
    {
        let exp: u8 = sm.fragsize_exp;
        let ts: i64 = self.now();
        let ghost uuid = rec@.uuid;
        let ghost o_sm = sm@;
        let ghost o = *self;
        let mut f: usize = first;
        proof {
            assert(self.tail() =~= o.tail() + Seq::<EvictedModel>::empty());
            assert(self.journaled@ =~= o.journaled@ + Seq::<(Uuid, u32)>::empty());
            assert(self.stamps@ =~= o.stamps@ + Seq::<(Uuid, u32, i64)>::empty());
        }
        while f <= last
            invariant
                ts == o.time(),
                o_sm.pins == rec@.stream().pins,
                self.tail() == o.tail() + o.images(
                    rec@,
                    offset as int,
                    data@,
                    exp,
                    version,
                    first as int,
                    f as int,
                ),
                self.journaled@ == o.journaled@ + o.retired(rec@, first as int, f as int),
                self.stamps@ == o.stamps@ + stamped(uuid, ts, first as int, f as int),
                o == *old(self),
                o.inv(),
                self.inv(),
                o.recoverable() ==> self.recoverable(),
                Self::staging(&o, &*self),
                o.header.commit_seq < u64::MAX,
                C::known(o.header.content_cipher),
                rec@.stream().geometry_ok(),
                uuid == rec@.uuid,
                o.ids@.contains_key(uuid@),
                o.recs()[o.ids@[uuid@] - 1] == rec@,
                exp <= 31,
                rec@.stream().n() > 0 ==> exp == rec@.stream().fragsize_exp,
                offset <= rec@.stream().size(),
                data@.len() > 0,
                offset + data@.len() <= 0x7fff_ffff_ffff_ffff,
                new_size == o.target(rec@, offset as int, data@).len(),
                o_sm == old(sm)@,
                o_sm.n() <= u32::MAX,
                o_sm.locations.len() == o_sm.unit_map.len(),
                exp == o_sm.fragsize_exp,
                first <= f <= last + 1,
                last < o_sm.n(),
                last * frag_bytes(exp) < new_size,
                forall|a: u64| #[trigger]
                    in_heap(o.slots(), a) ==> self.slots()[a - 1] == o.slots()[a - 1],
                sm@.vv == o_sm.vv,
                sm@.fragsize_exp == exp,
                sm@.last_frag_length == o_sm.last_frag_length,
                sm@.unit_map.len() == o_sm.unit_map.len(),
                sm@.locations.len() == o_sm.locations.len(),
                pins_cleared(o_sm.pins, sm@.pins, first as int, f as int),
                forall|g: int|
                    0 <= g < sm@.n() ==> #[trigger] sm@.unit_map[g] == if first <= g < f {
                        version
                    } else {
                        o_sm.unit_map[g]
                    },
                forall|g: int|
                    0 <= g < sm@.n() && !(first <= g < f) ==> #[trigger] sm@.locations[g]
                        == o_sm.locations[g],
                forall|g: int|
                    #![trigger sm@.locations[g]]
                    first <= g < f ==> Self::frag_staged(
                        &o,
                        &*self,
                        uuid,
                        g,
                        sm@.locations[g],
                        o.new_block(rec@, offset as int, data@, exp, version, g),
                        pending@,
                    ),
                forall|g: int, h: int|
                    #![trigger sm@.locations[g], sm@.locations[h]]
                    first <= g < h < f ==> sm@.locations[g].addr != sm@.locations[h].addr,
                pending_distinct(pending@),
                forall|k: int|
                    0 <= k < pending@.len() ==> in_heap(o.slots(), (#[trigger] pending@[k]).0)
                        && self.dirty@.contains(pending@[k].0) && exists|g: int|
                        first <= g < f && #[trigger] live(o.ids@, o.recs(), uuid@, g)
                            == pending@[k].0,
                forall|a: u64| #[trigger]
                    self.dirty@.contains(a) ==> o.dirty@.contains(a) || in_heap(o.slots(), a),
                forall|g: int|
                    first <= g < f && g < rec@.stream().n() ==> #[trigger] o.readable(rec@, g),
            decreases last + 1 - f,
        {
            let ghost gf = f as int;
            let ghost fs = frag_bytes(exp) as int;
            proof {
                lemma_frag_bytes(exp);
                assert(gf * fs <= last * fs) by (nonlinear_arith)
                    requires
                        gf <= last,
                        fs >= 1,
                ;
                Self::lemma_head_kept(&o, &*self, rec@);
                Self::lemma_tail_grew(
                    &o,
                    &*self,
                    o.images(
                        rec@,
                        offset as int,
                        data@,
                        exp,
                        version,
                        first as int,
                        gf,
                    ),
                );
            }
            let ghost before = *self;
            let ghost before_sm = sm@;
            let ghost before_pending = pending@;
            let plain: Vec<u8> = match self.merge_fragment(rec, f, exp, new_size, offset, data) {
                Err(e) => {
                    proof {
                        assert(!o.readable(rec@, gf));
                        assert(o.frag(rec@, gf) == Err::<Seq<u8>, Error>(e));
                    }
                    return Err(e);
                },
                Ok(p) => p,
            };
            let commits: Vec<Uuid> = clear_pins(&mut sm.pins, f);
            proof {
                lemma_pinning_kept(o_sm.pins, before_sm.pins, first as int, gf, gf);
                o.lemma_retired_others(rec@, first as int, gf, gf);
                lemma_stamped_others(o.stamps@, uuid, ts, first as int, gf, gf);
                lemma_pins_cleared_step(
                    o_sm.pins,
                    before_sm.pins,
                    pins_view(sm.pins@),
                    first as int,
                    f as int,
                );
            }
            let old_block: Option<(u64, BlockLoc)> = match &rec.content {
                None => None,
                Some(old_sm) => if f < old_sm.unit_map.len() && !is_hole(old_sm.locations[f]) {
                    Some((old_sm.unit_map[f], old_sm.locations[f]))
                } else {
                    None
                },
            };
            proof {
                if old_block is Some {
                    let loc = old_block->Some_0.1;
                    assert(rec@.stream().locations[gf] == loc);
                    assert(self.readable(rec@, gf));
                    assert(stored_at(self.slots(), loc) is Some);
                    assert(live(self.ids@, self.recs(), uuid@, gf) == loc.addr);
                }
            }
            let cipher: Vec<u8> = self.seal_fragment(&rec.uuid, f, version, plain, exp);
            let ghost block = o.new_block(rec@, offset as int, data@, exp, version, gf);
            proof {
                assert(cipher@ == block);
            }
            let loc: BlockLoc = match self.store_fragment(
                &rec.uuid,
                f as u32,
                old_block,
                cipher,
                commits,
                pending,
            ) {
                Err(e) => {
                    return Err(e);
                },
                Ok(l) => l,
            };
            self.stamps.push((rec.uuid, f as u32, ts));
            sm.unit_map.set(f, version);
            sm.locations.set(f, loc);
            proof {
                Self::lemma_image_step(&o, &before, rec@, gf, block.len());
                assert(old_block == crate::supersede::old_block(rec@, gf));
                assert(self.tail() =~= o.tail() + o.images(
                    rec@,
                    offset as int,
                    data@,
                    exp,
                    version,
                    first as int,
                    gf + 1,
                ));
                assert(self.journaled@ =~= o.journaled@ + o.retired(rec@, first as int, gf + 1));
                assert(self.stamps@ =~= o.stamps@ + stamped(uuid, ts, first as int, gf + 1));
            }
            proof {
                let reuse = before.reuses(uuid, f as u32, old_block, block.len());
                if reuse {
                    let k0 = before_pending.len() as int;
                    assert(pending@[k0].0 == loc.addr && pending@[k0].1@ == block);
                    assert forall|k: int| 0 <= k < k0 implies pending@[k] == before_pending[k] by {
                        assert(pending@.take(k0)[k] == pending@[k]);
                    }
                    assert(live(o.ids@, o.recs(), uuid@, gf) == loc.addr);
                    assert forall|k: int| 0 <= k < k0 implies pending@[k].0 != loc.addr by {
                        let g = choose|g: int|
                            first <= g < f && #[trigger] live(o.ids@, o.recs(), uuid@, g)
                                == before_pending[k].0;
                        assert(in_heap(o.slots(), before_pending[k].0));
                        assert(live(o.ids@, o.recs(), uuid@, g) != live(
                            o.ids@,
                            o.recs(),
                            uuid@,
                            gf,
                        ));
                    }
                }
                assert(pending_distinct(pending@)) by {
                    assert forall|i: int, j: int|
                        0 <= i < j < pending@.len() implies pending@[i].0 != pending@[j].0 by {
                        if reuse && j == before_pending.len() {
                            assert(pending@[i].0 != loc.addr);
                        } else {
                            assert(pending@[i] == before_pending[i]);
                            assert(pending@[j] == before_pending[j]);
                        }
                    }
                }
                assert forall|k: int| 0 <= k < pending@.len() implies in_heap(
                    o.slots(),
                    (#[trigger] pending@[k]).0,
                ) && self.dirty@.contains(pending@[k].0) && exists|g: int|
                    first <= g < f + 1 && #[trigger] live(o.ids@, o.recs(), uuid@, g)
                        == pending@[k].0 by {
                    if reuse && k == before_pending.len() {
                        assert(live(o.ids@, o.recs(), uuid@, gf) == pending@[k].0);
                        assert(live(o.ids@, o.recs(), uuid@, gf) <= o.slots().len());
                    } else {
                        assert(pending@[k] == before_pending[k]);
                        assert(in_heap(o.slots(), before_pending[k].0));
                        let g = choose|g: int|
                            first <= g < f && #[trigger] live(o.ids@, o.recs(), uuid@, g)
                                == before_pending[k].0;
                        assert(live(o.ids@, o.recs(), uuid@, g) == pending@[k].0);
                    }
                }
                assert forall|g: int|
                    #![trigger sm@.locations[g]]
                    first <= g < f + 1 implies Self::frag_staged(
                    &o,
                    &*self,
                    uuid,
                    g,
                    sm@.locations[g],
                    o.new_block(rec@, offset as int, data@, exp, version, g),
                    pending@,
                ) by {
                    if g < f {
                        assert(sm@.locations[g] == before_sm.locations[g]);
                        let l = before_sm.locations[g];
                        assert(Self::frag_staged(
                            &o,
                            &before,
                            uuid,
                            g,
                            l,
                            o.new_block(rec@, offset as int, data@, exp, version, g),
                            before_pending,
                        ));
                        if l.addr <= o.slots().len() {
                            let k = choose|k: int|
                                0 <= k < before_pending.len() && (#[trigger] before_pending[k]).0
                                    == l.addr && before_pending[k].1@ == o.new_block(
                                    rec@,
                                    offset as int,
                                    data@,
                                    exp,
                                    version,
                                    g,
                                );
                            assert(pending@[k] == before_pending[k]);
                        }
                    } else {
                        assert(sm@.locations[g] == loc);
                    }
                }
                assert forall|g: int, h: int|
                    #![trigger sm@.locations[g], sm@.locations[h]]
                    first <= g < h < f + 1 implies sm@.locations[g].addr
                    != sm@.locations[h].addr by {
                    assert(sm@.locations[g] == before_sm.locations[g]);
                    if h < f {
                        assert(sm@.locations[h] == before_sm.locations[h]);
                    } else {
                        let l = before_sm.locations[g];
                        assert(Self::frag_staged(
                            &o,
                            &before,
                            uuid,
                            g,
                            l,
                            o.new_block(rec@, offset as int, data@, exp, version, g),
                            before_pending,
                        ));
                        assert(sm@.locations[h] == loc);
                        if reuse {
                            assert(live(o.ids@, o.recs(), uuid@, gf) == loc.addr);
                            if l.addr <= o.slots().len() {
                                assert(live(o.ids@, o.recs(), uuid@, g) == l.addr);
                            }
                        }
                    }
                }
            }
            f = f + 1;
        }
        proof {
            Self::lemma_tail_grew(
                &o,
                &*self,
                o.images(rec@, offset as int, data@, exp, version, first as int, last + 1),
            );
        }
        Ok(())
    }
}

/// `s`, or nothing where every element is `d`.
pub open spec fn collapsed(s: Seq<u8>, d: u8) -> Seq<u8> {
    if forall|i: int| 0 <= i < s.len() ==> #[trigger] s[i] == d {
        Seq::empty()
    } else {
        s
    }
}

/// The exponent that a write which ends at `end` starts from.
pub open spec fn start_exp(sm: StreamModel, end: nat) -> u8 {
    if sm.n() == 0 {
        exp_for(end, 12, 22)
    } else {
        sm.fragsize_exp
    }
}

/// The size of the content after a write that ends at `end`.
pub open spec fn grown_size(sm: StreamModel, end: nat) -> nat {
    if sm.size() >= end {
        sm.size()
    } else {
        end
    }
}

/// The write grows the content into a band of larger fragments.
pub open spec fn rechunks(sm: StreamModel, end: nat) -> bool {
    exp_for(grown_size(sm, end), 12, 22) > start_exp(sm, end)
}

/// The exponent after the write.
pub open spec fn write_exp(sm: StreamModel, end: nat) -> u8 {
    if rechunks(sm, end) {
        exp_for(grown_size(sm, end), 12, 22)
    } else {
        start_exp(sm, end)
    }
}

/// Fragment `g` gets a new block: the write falls into it, or the fragments
/// change size.
pub open spec fn touches(sm: StreamModel, offset: int, end: nat, g: int) -> bool {
    let fs = frag_bytes(write_exp(sm, end)) as int;
    rechunks(sm, end) || offset / fs <= g <= (end - 1) / fs
}

/// The write stays within what 32-bit fragment numbers, the address space and
/// the causal counter can describe.
pub open spec fn write_fits(sm: StreamModel, alias: u16, offset: int, len: nat) -> bool {
    &&& sm.geometry_ok()
    &&& sm.n() > 0 ==> sm.last_frag_length >= 1
    &&& vv_get(sm.vv, alias) < u64::MAX
    &&& offset <= sm.size() ==> {
        let end = (offset + len) as nat;
        &&& end <= 0x7fff_ffff_ffff_ffff
        &&& grown_size(sm, end) <= usize::MAX
        &&& few_frags(grown_size(sm, end), write_exp(sm, end))
    }
}

impl<C: Crypto> Engine<C> {
    /// The suites of the fragments after those from `first` to `last` were
    /// sealed anew.
    pub open spec fn suites_after(&self, r: RecordModel, count: nat, first: int, last: int) -> Seq<
        u8,
    > {
        collapsed(
            Seq::new(
                count,
                |g: int|
                    if first <= g <= last {
                        self.header.content_cipher
                    } else {
                        self.suite(r, g)
                    },
            ),
            self.header.content_cipher,
        )
    }

    pub fn build_suites(&self, rec: &UnitRecord, count: usize, first: usize, last: usize) -> (r: Vec<u8>)
        ensures
            r@ == self.suites_after(rec@, count as nat, first as int, last as int),
    {
        let cc: u8 = self.header.content_cipher;
        let ghost full = Seq::new(
            count as nat,
            |g: int|
                if first <= g <= last {
                    cc
                } else {
                    self.suite(rec@, g)
                },
        );
        let mut out: Vec<u8> = Vec::new();
        let mut uniform: bool = true;
        let mut g: usize = 0;
        while g < count
            invariant
                g <= count,
                cc == self.header.content_cipher,
                full == Seq::new(
                    count as nat,
                    |g: int|
                        if first <= g <= last {
                            cc
                        } else {
                            self.suite(rec@, g)
                        },
                ),
                out@ == full.take(g as int),
                uniform == (forall|i: int| 0 <= i < g ==> #[trigger] full[i] == cc),
            decreases count - g,
        {
            let s: u8 = if first <= g && g <= last {
                cc
            } else {
                self.content_frag_suite_id(rec, g)
            };
            assert(full[g as int] == s);
            out.push(s);
            if s != cc {
                uniform = false;
            }
            g = g + 1;
            proof {
                assert(out@ =~= full.take(g as int));
            }
        }
        proof {
            assert(out@ =~= full);
            assert(full.len() == count);
        }
        if uniform {
            Vec::new()
        } else {
            out
        }
    }

    /// The suite that a fragment ends up under.
    pub proof fn lemma_suites_after(
        &self,
        r0: RecordModel,
        r1: RecordModel,
        count: nat,
        first: int,
        last: int,
        g: int,
    )
        requires
            0 <= g < count,
            r1.content_suite == Some(self.header.content_cipher),
            r1.frag_suites == self.suites_after(r0, count, first, last),
        ensures
            self.suite(r1, g) == if first <= g <= last {
                self.header.content_cipher
            } else {
                self.suite(r0, g)
            },
    {
        let cc = self.header.content_cipher;
        let full = Seq::new(
            count,
            |h: int|
                if first <= h <= last {
                    cc
                } else {
                    self.suite(r0, h)
                },
        );
        assert(full[g] == if first <= g <= last {
            cc
        } else {
            self.suite(r0, g)
        });
    }

    /// `r1` is the record of `r0` after `data` was written at `offset`.
    pub open spec fn wrote(
        o: &Self,
        e: &Self,
        head_addr: u64,
        r0: RecordModel,
        offset: int,
        data: Seq<u8>,
        r1: RecordModel,
    ) -> bool {
        let sm0 = r0.stream();
        let sm1 = r1.stream();
        let end = (offset + data.len()) as nat;
        let exp = write_exp(sm0, end);
        let fs = frag_bytes(exp) as int;
        let size = grown_size(sm0, end);
        let n = frags_for(size, exp);
        let version = dot(o.local_alias, (vv_get(sm0.vv, o.local_alias) + 1) as u64);
        &&& r1 == (RecordModel {
            uuid: r0.uuid,
            content: Some(sm1),
            meta: r0.meta,
            parent: Some(head_addr),
            strains: Seq::empty(),
            content_suite: Some(o.header.content_cipher),
            frag_suites: r1.frag_suites,
            signature: r1.signature,
            db: r0.db,
            superseded: Seq::empty(),
        })
        &&& vv_is_bump(sm0.vv, o.local_alias, sm1.vv)
        &&& sm1.fragsize_exp == exp
        &&& sm1.unit_map.len() == n
        &&& sm1.locations.len() == n
        &&& sm1.last_frag_length == last_len(size, exp)
        &&& sm1.geometry_ok()
        &&& sm1.last_frag_length >= 1
        &&& sm1.size() == size
        &&& r1.frag_suites == if rechunks(sm0, end) {
            Seq::empty()
        } else {
            o.suites_after(r0, n, offset / fs, (end - 1) / fs)
        }
        &&& if rechunks(sm0, end) {
            &&& sm1.pins.len() == sm0.pins.len()
            &&& forall|i: int|
                0 <= i < sm0.pins.len() ==> (#[trigger] sm1.pins[i]).commit == sm0.pins[i].commit
                    && sm1.pins[i].bits == Seq::<u8>::empty()
        } else {
            pins_cleared(sm0.pins, sm1.pins, offset / fs, (end - 1) / fs + 1)
        }
        &&& forall|g: int|
            0 <= g < n ==> #[trigger] sm1.unit_map[g] == if touches(sm0, offset, end, g) {
                version
            } else {
                sm0.unit_map[g]
            }
        &&& forall|g: int|
            0 <= g < n && touches(sm0, offset, end, g) ==> (#[trigger] sm1.locations[g]).len
                <= 0x8000_0040
        &&& forall|g: int|
            0 <= g < n && touches(sm0, offset, end, g) ==> #[trigger] e.frag(r1, g) == Ok::<
                Seq<u8>,
                Error,
            >(o.padded(frag_slice(o.target(r0, offset, data), fs, g), exp))
        &&& forall|g: int|
            0 <= g < n && !touches(sm0, offset, end, g) ==> g < sm0.n()
                && #[trigger] sm1.locations[g] == sm0.locations[g] && e.frag(r1, g) == o.frag(
                r0,
                g,
            )
        &&& e.contents(r1) == o.target(r0, offset, data)
    }

    /// What is stored fragment by fragment is the new content: the fragments in
    /// `touched` hold the new bytes, the others are as they were.
    pub proof fn lemma_contents_touched(
        o: &Self,
        e: &Self,
        r0: RecordModel,
        offset: int,
        data: Seq<u8>,
        r1: RecordModel,
        exp: u8,
        touched: spec_fn(int) -> bool,
    )
        requires
            r0.stream().geometry_ok(),
            0 <= offset <= r0.stream().size(),
            data.len() > 0,
            exp <= 31,
            ({
                let sm0 = r0.stream();
                let sm1 = r1.stream();
                let end = (offset + data.len()) as nat;
                let fs = frag_bytes(exp) as int;
                let size = grown_size(sm0, end);
                let n = frags_for(size, exp);
                &&& sm1.fragsize_exp == exp
                &&& sm1.unit_map.len() == n
                &&& sm1.locations.len() == n
                &&& sm1.last_frag_length == last_len(size, exp)
                &&& forall|g: int| offset / fs <= g <= (end - 1) / fs ==> #[trigger] touched(g)
                &&& forall|g: int|
                    0 <= g < n && touched(g) ==> sm1.locations[g] != hole() && #[trigger] e.frag(
                        r1,
                        g,
                    ) == Ok::<Seq<u8>, Error>(
                        o.padded(frag_slice(o.target(r0, offset, data), fs, g), exp),
                    )
                &&& forall|g: int|
                    0 <= g < n && !touched(g) ==> exp == sm0.fragsize_exp && g < sm0.n()
                        && #[trigger] sm1.locations[g] == sm0.locations[g] && e.frag(r1, g)
                        == o.frag(r0, g)
            }),
        ensures
            e.contents(r1) == o.target(r0, offset, data),
    {
        let sm0 = r0.stream();
        let sm1 = r1.stream();
        let end = (offset + data.len()) as nat;
        let fs = frag_bytes(exp) as int;
        let size = grown_size(sm0, end);
        let n = frags_for(size, exp);
        let target = o.target(r0, offset, data);
        lemma_frag_bytes(exp);
        lemma_frags(size, exp);
        assert(sm1.size() == size);
        assert(target.len() == size);
        assert forall|i: int| 0 <= i < size implies e.byte(r1, i) == target[i] by {
            let g = i / fs;
            assert(0 <= g && g * fs <= i < g * fs + fs) by (nonlinear_arith)
                requires
                    g == i / fs,
                    i >= 0,
                    fs >= 1,
            ;
            assert(g < n) by (nonlinear_arith)
                requires
                    g * fs <= i,
                    i < size,
                    size <= n * fs,
                    fs >= 1,
            ;
            lemma_in_fragment(i, g, fs);
            let slice = frag_slice(target, fs, g);
            if touched(g) {
                assert(e.frag(r1, g) == Ok::<Seq<u8>, Error>(o.padded(slice, exp)));
                assert(sm1.locations[g] != hole());
                assert(slice[i - g * fs] == target[i]);
            } else {
                assert(sm1.locations[g] == sm0.locations[g]);
                assert(e.frag(r1, g) == o.frag(r0, g));
                if offset <= i < end {
                    assert(offset / fs <= g) by (nonlinear_arith)
                        requires
                            offset <= i,
                            g == i / fs,
                            fs >= 1,
                    ;
                    assert(g <= (end - 1) / fs) by (nonlinear_arith)
                        requires
                            i <= end - 1,
                            g == i / fs,
                            fs >= 1,
                    ;
                }
                assert(i < sm0.size());
                assert(target[i] == o.byte(r0, i));
            }
        }
        assert(e.contents(r1) =~= target);
    }

    /// What is stored fragment by fragment is the new content.
    pub proof fn lemma_contents_written(
        o: &Self,
        e: &Self,
        r0: RecordModel,
        offset: int,
        data: Seq<u8>,
        r1: RecordModel,
    )
        requires
            r0.stream().geometry_ok(),
            0 <= offset <= r0.stream().size(),
            data.len() > 0,
            ({
                let sm0 = r0.stream();
                let sm1 = r1.stream();
                let end = (offset + data.len()) as nat;
                let exp = write_exp(sm0, end);
                let fs = frag_bytes(exp) as int;
                let size = grown_size(sm0, end);
                let n = frags_for(size, exp);
                &&& exp <= 31
                &&& sm1.fragsize_exp == exp
                &&& sm1.unit_map.len() == n
                &&& sm1.locations.len() == n
                &&& sm1.last_frag_length == last_len(size, exp)
                &&& forall|g: int|
                    0 <= g < n && touches(sm0, offset, end, g) ==> sm1.locations[g] != hole()
                        && #[trigger] e.frag(r1, g) == Ok::<Seq<u8>, Error>(
                        o.padded(frag_slice(o.target(r0, offset, data), fs, g), exp),
                    )
                &&& forall|g: int|
                    0 <= g < n && !touches(sm0, offset, end, g) ==> g < sm0.n()
                        && #[trigger] sm1.locations[g] == sm0.locations[g] && e.frag(r1, g)
                        == o.frag(r0, g)
            }),
        ensures
            e.contents(r1) == o.target(r0, offset, data),
    {
        let sm0 = r0.stream();
        let end = (offset + data.len()) as nat;
        let exp = write_exp(sm0, end);
        let touched = |g: int| touches(sm0, offset, end, g);
        assert forall|g: int|
            0 <= g < frags_for(grown_size(sm0, end), exp) && !touched(g) implies exp
            == sm0.fragsize_exp && g < sm0.n() && #[trigger] r1.stream().locations[g]
            == sm0.locations[g] && e.frag(r1, g) == o.frag(r0, g) by {
            assert(!touches(sm0, offset, end, g));
        }
        Self::lemma_contents_touched(o, e, r0, offset, data, r1, exp, touched);
    }
}

} // verus!
