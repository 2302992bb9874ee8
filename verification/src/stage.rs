//! Staging a write: the new record and its blocks, before they are committed.
use vstd::prelude::*;

use crate::block::{
    derive_fragsize_exp, exp_for, few_frags, frag_bytes, frag_count, frags_for, fragsize,
    last_frag_length, lemma_exp_range, lemma_frag_bytes, lemma_frags, pack_dot, FRAGSIZE_FLOOR_EXP,
    MAX_FRAGSIZE_EXP,
};
use crate::bytes::copy_range;
use crate::content::{lemma_in_fragment, stored_at};
use crate::crypto::Crypto;
use crate::engine::{live, place, places_step, record_ok, Container, Engine};
use crate::error::Error;
use crate::evicted::EvictedModel;
use crate::heap::in_heap;
use crate::overlay::splice_into;
use crate::supersede::{lemma_pinning_kept, stamped};
use crate::unit::{
    clear_pins, clone_stream, geometry_holds, grow_stream, hole, is_hole, lemma_size_bound, pinning,
    pins_cleared, pins_view, stream_byte_len, BlockLoc, CommitBitmap, PinModel, RecordModel,
    StreamMeta, StreamModel, UnitRecord, Uuid,
};
use crate::vector::VersionVector;
use crate::write::{frag_slice, grown_size, pending_has, rechunks, write_exp, write_fits};

verus! {

/// Fragments from `f` on are pinned in `b` as they are in `a`.
pub open spec fn unpinned_from(a: Seq<PinModel>, b: Seq<PinModel>, f: int) -> bool {
    forall|g: int| f <= g ==> #[trigger] pinning(b, g) == pinning(a, g)
}

proof fn lemma_unpinned_step(a: Seq<PinModel>, b: Seq<PinModel>, c: Seq<PinModel>, f: int)
    requires
        unpinned_from(a, b, f),
        pins_cleared(b, c, f, f + 1),
    ensures
        unpinned_from(a, c, f + 1),
{
    assert forall|g: int| f + 1 <= g implies #[trigger] pinning(c, g) == pinning(a, g) by {
        lemma_pinning_kept(b, c, f, f + 1, g);
        assert(pinning(b, g) == pinning(a, g));
    }
}

impl<C: Crypto> Engine<C> {
    /// The error of the first fragment from `f` to `end` that cannot be read.
    pub open spec fn first_unreadable(&self, r: RecordModel, f: int, end: int) -> Option<Error>
        decreases end + 1 - f,
    {
        if f > end {
            None
        } else if !self.readable(r, f) {
            Some(self.frag(r, f)->Err_0)
        } else {
            self.first_unreadable(r, f + 1, end)
        }
    }

    pub proof fn lemma_all_readable(&self, r: RecordModel, f: int, end: int)
        requires
            forall|g: int| f <= g <= end ==> #[trigger] self.readable(r, g),
        ensures
            self.first_unreadable(r, f, end) is None,
        decreases end + 1 - f,
    {
        if f <= end {
            assert(self.readable(r, f));
            self.lemma_all_readable(r, f + 1, end);
        }
    }

    pub proof fn lemma_unreadable_at(&self, r: RecordModel, f: int, end: int, g: int)
        requires
            f <= g <= end,
            forall|h: int| f <= h < g ==> #[trigger] self.readable(r, h),
            !self.readable(r, g),
        ensures
            self.first_unreadable(r, f, end) == Some(self.frag(r, g)->Err_0),
        decreases end + 1 - f,
    {
        if f < g {
            assert(self.readable(r, f));
            self.lemma_unreadable_at(r, f + 1, end, g);
        }
    }

    /// Why `data` of `len` bytes cannot be written at `offset` of the unit at
    /// `key`; `None` where it can.
    pub open spec fn write_error(&self, key: Seq<u8>, offset: int, len: nat) -> Option<Error> {
        if len == 0 {
            Some(Error::Integrity)
        } else {
            match self.head(key) {
                Err(e) => Some(e),
                Ok((_, _, r)) => self.write_error_at(r, offset, len),
            }
        }
    }

    /// Why bytes cannot be written over the content of record `r`: past the end
    /// of what a number can say, past the end of the content, or over fragments
    /// that cannot be read.
    pub open spec fn write_error_at(&self, r: RecordModel, offset: int, len: nat) -> Option<Error> {
        let sm = r.stream();
        let end = (offset + len) as nat;
        if end > u64::MAX || offset > sm.size() {
            Some(Error::Integrity)
        } else if rechunks(sm, end) {
            match self.first_unreadable(r, 0, sm.n() - 1) {
                Some(e) => Some(e),
                None => if !C::known(self.header.content_cipher) {
                    Some(Error::Crypto)
                } else {
                    None
                },
            }
        } else if !C::known(self.header.content_cipher) {
            Some(Error::Crypto)
        } else {
            let fs = frag_bytes(write_exp(sm, end)) as int;
            let last = (end - 1) / fs;
            self.first_unreadable(
                r,
                offset / fs,
                if last < sm.n() {
                    last
                } else {
                    sm.n() - 1
                },
            )
        }
    }

    /// Slots of the old state are as they were, but for slots of unit `k` that
    /// were overwritten in place.
    pub open spec fn slots_kept(o: &Self, e: &Self, k: Seq<u8>) -> bool {
        &&& o.slots().len() <= e.slots().len()
        &&& forall|a: u64| #[trigger]
            in_heap(o.slots(), a) ==> e.slots()[a - 1] == o.slots()[a - 1] || (
            e.dirty@.contains(a) && exists|p: int|
                p >= 0 && #[trigger] live(o.ids@, o.recs(), k, p) == a)
    }

    /// Reads all of a record's content.
    fn materialise(&self, rec: &UnitRecord, sm: &StreamMeta) -> (r: Result<Vec<u8>, Error>)
        requires
            rec@.content == Some(sm@),
            sm@.geometry_ok(),
            sm@.size() <= usize::MAX,
        ensures
            match self.first_unreadable(rec@, 0, sm@.n() - 1) {
                Some(e) => r == Err::<Vec<u8>, Error>(e),
                None => r is Ok && r->Ok_0@ == self.contents(rec@),
            },
    {
        let n: usize = sm.unit_map.len();
        let fs: usize = fragsize(sm.fragsize_exp) as usize;
        let mut out: Vec<u8> = Vec::new();
        let mut f: usize = 0;
        let ghost gfs = fs as int;
        while f < n
            invariant
                rec@.content == Some(sm@),
                sm@.geometry_ok(),
                n == sm@.n(),
                fs == frag_bytes(sm.fragsize_exp),
                gfs == fs,
                1 <= fs,
                f <= n,
                out@.len() == if f == n && n > 0 {
                    sm@.size() as int
                } else {
                    f * gfs
                },
                forall|i: int| 0 <= i < out@.len() ==> #[trigger] out@[i] == self.byte(rec@, i),
                forall|g: int| 0 <= g < f ==> #[trigger] self.readable(rec@, g),
            decreases n - f,
        {
            let want: usize = if f == n - 1 {
                sm.last_frag_length as usize
            } else {
                fs
            };
            let ghost before = out@;
            match self.append_part(rec, sm, f, 0, want, &mut out) {
                Err(e) => {
                    proof {
                        self.lemma_unreadable_at(rec@, 0, n - 1, f as int);
                    }
                    return Err(e);
                },
                Ok(()) => {},
            }
            proof {
                let gf = f as int;
                assert((gf + 1) * gfs == gf * gfs + gfs) by (nonlinear_arith);
                assert forall|i: int| 0 <= i < out@.len() implies #[trigger] out@[i] == self.byte(
                    rec@,
                    i,
                ) by {
                    if i < before.len() {
                        assert(out@[i] == before[i]);
                    } else {
                        lemma_in_fragment(i, gf, gfs);
                    }
                }
                if f == n - 1 {
                    assert(out@.len() == gf * gfs + want);
                    assert(sm@.size() == (n - 1) * gfs + sm@.last_frag_length);
                }
            }
            f = f + 1;
        }
        proof {
            self.lemma_all_readable(rec@, 0, n - 1);
            assert(out@ =~= self.contents(rec@));
        }
        Ok(out)
    }

    /// Copies the old blocks that commits pin to the tail.
    fn evict_pinned(&mut self, rec: &UnitRecord, sm: &mut StreamMeta) -> (r: Result<(), Error>)
        requires
            old(self).inv(),
            rec@.content == Some(old(sm)@),
            old(sm)@.geometry_ok(),
            forall|g: int| 0 <= g < old(sm)@.n() ==> #[trigger] old(self).readable(rec@, g),
        ensures
            r is Ok,
            final(self).inv(),
            old(self).recoverable() ==> final(self).recoverable(),
            *final(self) == (Engine {
                disk: (Container { tail: final(self).disk.tail, ..old(self).disk }),
                ..*old(self)
            }),
            final(self).tail() == old(self).tail() + old(self).pinned_images(
                rec@,
                old(sm)@.n() as int,
            ),
            final(sm)@.vv == old(sm)@.vv,
            final(sm)@.pins.len() == old(sm)@.pins.len(),
            forall|i: int|
                0 <= i < old(sm)@.pins.len() ==> (#[trigger] final(sm)@.pins[i]).commit == old(
                    sm,
                )@.pins[i].commit,
    {
        let n: usize = sm.unit_map.len();
        let ghost o = *self;
        let mut f: usize = 0;
        proof {
            assert(self.tail() =~= o.tail() + Seq::<EvictedModel>::empty());
        }
        while f < n
            invariant
                o == *old(self),
                self.inv(),
                o.recoverable() ==> self.recoverable(),
                self.tail() == o.tail() + o.pinned_images(rec@, f as int),
                unpinned_from(old(sm)@.pins, sm@.pins, f as int),
                rec@.content == Some(old(sm)@),
                old(sm)@.geometry_ok(),
                *self == (Engine {
                    disk: (Container { tail: self.disk.tail, ..o.disk }),
                    ..o
                }),
                n == old(sm)@.n(),
                f <= n,
                sm@.unit_map == old(sm)@.unit_map,
                sm@.locations == old(sm)@.locations,
                sm@.vv == old(sm)@.vv,
                sm@.pins.len() == old(sm)@.pins.len(),
                forall|i: int|
                    0 <= i < old(sm)@.pins.len() ==> (#[trigger] sm@.pins[i]).commit == old(
                        sm,
                    )@.pins[i].commit,
                forall|g: int| 0 <= g < n ==> #[trigger] o.readable(rec@, g),
            decreases n - f,
        {
            let loc: BlockLoc = sm.locations[f];
            if !is_hole(loc) {
                proof {
                    assert(o.readable(rec@, f as int));
                    assert(stored_at(self.slots(), loc) is Some);
                }
                let ver: u64 = sm.unit_map[f];
                let ghost before = sm@;
                let commits: Vec<Uuid> = clear_pins(&mut sm.pins, f);
                proof {
                    lemma_unpinned_step(old(sm)@.pins, before.pins, sm@.pins, f as int);
                    assert(commits@ == pinning(rec@.stream().pins, f as int));
                    assert forall|i: int| 0 <= i < old(sm)@.pins.len() implies (
                    #[trigger] sm@.pins[i]).commit == old(sm)@.pins[i].commit by {
                        assert(before.pins[i].commit == old(sm)@.pins[i].commit);
                    }
                }
                if commits.len() > 0 {
                    match self.evict_block(&rec.uuid, f as u32, ver, loc, commits, 0, 0) {
                        Err(e) => {
                            return Err(e);
                        },
                        Ok(()) => {},
                    }
                }
            }
            proof {
                assert(self.tail() =~= o.tail() + o.pinned_images(rec@, f + 1));
            }
            f = f + 1;
        }
        Ok(())
    }

    /// Splits `content` into fragments, seals them and stores them in fresh
    /// slots.
    pub fn store_content(
        &mut self,
        uuid: &Uuid,
        content: &Vec<u8>,
        exp: u8,
        version: u64,
        stamp: bool,
        unit_map: &mut Vec<u64>,
        locations: &mut Vec<BlockLoc>,
    )
        requires
            old(self).inv(),
            C::known(old(self).header.content_cipher),
            exp <= 31,
            content@.len() <= 0x7fff_ffff_ffff_ffff,
            few_frags(content@.len(), exp),
            old(unit_map)@.len() == 0,
            old(locations)@.len() == 0,
        ensures
            final(self).inv(),
            old(self).recoverable() ==> final(self).recoverable(),
            *final(self) == (Engine {
                disk: (Container { blocks: final(self).disk.blocks, ..old(self).disk }),
                stamps: final(self).stamps,
                ..*old(self)
            }),
            !stamp ==> final(self).stamps == old(self).stamps,
            stamp ==> final(self).stamps@ == old(self).stamps@ + stamped(
                *uuid,
                old(self).time(),
                0,
                frags_for(content@.len(), exp) as int,
            ),
            final(unit_map)@.len() == frags_for(content@.len(), exp),
            final(locations)@.len() == frags_for(content@.len(), exp),
            final(self).slots().len() == old(self).slots().len() + frags_for(
                content@.len(),
                exp,
            ),
            final(self).slots().take(old(self).slots().len() as int) == old(self).slots(),
            forall|g: int|
                0 <= g < final(unit_map)@.len() ==> #[trigger] final(unit_map)@[g] == version,
            forall|g: int|
                0 <= g < final(locations)@.len() ==> {
                    let block = old(self).sealed_frag(
                        *uuid,
                        g,
                        version,
                        frag_slice(content@, frag_bytes(exp) as int, g),
                        exp,
                    );
                    &&& (#[trigger] final(locations)@[g]).addr == old(self).slots().len() + g + 1
                    &&& final(locations)@[g].len == block.len()
                    &&& final(locations)@[g].len <= 0x8000_0040
                    &&& final(self).slots()[final(locations)@[g].addr - 1] == block
                    &&& C::opened(
                        old(self).header.content_cipher,
                        old(self).root_key,
                        old(self).ctx(*uuid, g, version),
                        block,
                    ) == Some(
                        old(self).padded(frag_slice(content@, frag_bytes(exp) as int, g), exp),
                    )
                },
    {
        let fs: u64 = fragsize(exp);
        let total: usize = content.len();
        let size: u64 = total as u64;
        let n: usize = frag_count(size, exp) as usize;
        let ts: i64 = self.now();
        let ghost o = *self;
        let ghost gfs = fs as int;
        let ghost lo = o.slots().len() as int;
        proof {
            lemma_frags(size as nat, exp);
            assert(self.slots().take(lo) =~= o.slots());
            assert(self.stamps@ =~= o.stamps@ + Seq::<(Uuid, u32, i64)>::empty());
        }
        let mut f: usize = 0;
        while f < n
            invariant
                o == *old(self),
                self.inv(),
                o.recoverable() ==> self.recoverable(),
                C::known(o.header.content_cipher),
                exp <= 31,
                fs == frag_bytes(exp),
                gfs == fs,
                1 <= fs <= 0x8000_0000,
                total == content@.len(),
                size == total,
                n == frags_for(size as nat, exp),
                n <= u32::MAX,
                n > 0 ==> (n - 1) * gfs < size,
                size <= n * gfs,
                size <= 0x7fff_ffff_ffff_ffff,
                f <= n,
                lo == o.slots().len(),
                *self == (Engine {
                    disk: (Container { blocks: self.disk.blocks, ..o.disk }),
                    stamps: self.stamps,
                    ..o
                }),
                ts == o.time(),
                !stamp ==> self.stamps == o.stamps,
                stamp ==> self.stamps@ == o.stamps@ + stamped(*uuid, ts, 0, f as int),
                unit_map@.len() == f,
                locations@.len() == f,
                self.slots().len() == lo + f,
                self.slots().take(lo) == o.slots(),
                forall|g: int| 0 <= g < f ==> #[trigger] unit_map@[g] == version,
                forall|g: int|
                    0 <= g < f ==> {
                        let block = o.sealed_frag(
                            *uuid,
                            g,
                            version,
                            frag_slice(content@, gfs, g),
                            exp,
                        );
                        &&& (#[trigger] locations@[g]).addr == lo + g + 1
                        &&& locations@[g].len == block.len()
                        &&& locations@[g].len <= 0x8000_0040
                        &&& self.slots()[locations@[g].addr - 1] == block
                        &&& C::opened(
                            o.header.content_cipher,
                            o.root_key,
                            o.ctx(*uuid, g, version),
                            block,
                        ) == Some(o.padded(frag_slice(content@, gfs, g), exp))
                    },
            decreases n - f,
        {
            let ghost gf = f as int;
            proof {
                assert(gf * gfs <= (n - 1) * gfs) by (nonlinear_arith)
                    requires
                        gf <= n - 1,
                        gfs >= 1,
                ;
            }
            let from: u64 = f as u64 * fs;
            let to: u64 = if size - from <= fs {
                size
            } else {
                from + fs
            };
            let plain: Vec<u8> = copy_range(content.as_slice(), from as usize, to as usize);
            assert(plain@ == frag_slice(content@, gfs, gf));
            let block: Vec<u8> = self.seal_fragment(uuid, f, version, plain, exp);
            let ghost before = self.slots();
            let loc: BlockLoc = self.place_content_fragment(block);
            if stamp {
                self.stamps.push((*uuid, f as u32, ts));
            }
            unit_map.push(version);
            locations.push(loc);
            proof {
                if stamp {
                    assert(self.stamps@ =~= o.stamps@ + stamped(*uuid, ts, 0, f + 1));
                }
                assert(self.slots().take(lo) =~= before.take(lo));
                assert forall|g: int| 0 <= g < f + 1 implies {
                    let block = o.sealed_frag(
                        *uuid,
                        g,
                        version,
                        frag_slice(content@, gfs, g),
                        exp,
                    );
                    &&& (#[trigger] locations@[g]).addr == lo + g + 1
                    &&& locations@[g].len == block.len()
                    &&& locations@[g].len <= 0x8000_0040
                    &&& self.slots()[locations@[g].addr - 1] == block
                    &&& C::opened(
                        o.header.content_cipher,
                        o.root_key,
                        o.ctx(*uuid, g, version),
                        block,
                    ) == Some(o.padded(frag_slice(content@, gfs, g), exp))
                } by {
                    if g < f {
                        assert(self.slots()[lo + g] == before[lo + g]);
                    }
                }
            }
            f = f + 1;
        }
    }
}


/// The pins of a stream whose fragments all changed: none is pinned any more.
fn emptied_pins(pins: &Vec<CommitBitmap>) -> (r: Vec<CommitBitmap>)
    ensures
        r@.len() == pins@.len(),
        forall|i: int|
            0 <= i < pins@.len() ==> (#[trigger] pins_view(r@)[i]).commit == pins@[i].commit
                && pins_view(r@)[i].bits == Seq::<u8>::empty(),
{
    let mut r: Vec<CommitBitmap> = Vec::new();
    let mut i: usize = 0;
    while i < pins.len()
        invariant
            i <= pins.len(),
            r@.len() == i,
            forall|k: int|
                0 <= k < i ==> (#[trigger] r@[k]).commit == pins@[k].commit && r@[k].bits@.len()
                    == 0,
        decreases pins.len() - i,
    {
        r.push(CommitBitmap { commit: pins[i].commit, bits: Vec::new() });
        i = i + 1;
    }
    proof {
        assert forall|k: int| 0 <= k < pins@.len() implies (#[trigger] pins_view(r@)[k]).commit
            == pins@[k].commit && pins_view(r@)[k].bits == Seq::<u8>::empty() by {
            assert(r@[k].bits@ =~= Seq::<u8>::empty());
        }
    }
    r
}

impl<C: Crypto> Engine<C> {
    /// What holds of a staged write.
    pub open spec fn write_staged(
        o: &Self,
        e: &Self,
        head_addr: u64,
        r0: RecordModel,
        offset: int,
        data: Seq<u8>,
        r1: RecordModel,
    ) -> bool {
        &&& Self::wrote(o, e, head_addr, r0, offset, data, r1)
        &&& Self::superseded(o, e, r0, offset, data)
        &&& e.journaled@ == o.journal_after(r0, offset, data.len())
        &&& r1.signature is None
        &&& places_step(o.ids@, o.recs(), r0.uuid@, r1, o.slots().len(), e.slots().len())
        &&& record_ok(r1, o.recs().len() as int)
        &&& forall|a: u64| #[trigger] e.dirty@.contains(a) ==> o.dirty@.contains(a) || in_heap(
            o.slots(),
            a,
        )
    }

    /// The engine's setup is as before: only slots, tail, journal and stamps
    /// differ.
    pub open spec fn staged_frame(o: &Self, e: &Self) -> bool {
        *e == (Engine {
            disk: (Container { blocks: e.disk.blocks, tail: e.disk.tail, ..o.disk }),
            journaled: e.journaled,
            stamps: e.stamps,
            dirty: e.dirty,
            ..*o
        })
    }

    /// Splits the whole content, with the write in it, into larger fragments.
    fn stage_rechunk(
        &mut self,
        head_addr: u64,
        rec: UnitRecord,
        offset: u64,
        data: &[u8],
        new_exp: u8,
    ) -> (r: Result<UnitRecord, Error>)
        requires
            old(self).inv(),
            data@.len() > 0,
            write_fits(rec@.stream(), old(self).local_alias, offset as int, data@.len()),
            offset <= rec@.stream().size(),
            rechunks(rec@.stream(), (offset + data@.len()) as nat),
            new_exp == write_exp(rec@.stream(), (offset + data@.len()) as nat),
            in_heap(old(self).recs(), head_addr),
            old(self).recs()[head_addr - 1] == rec@,
            old(self).ids@.contains_key(rec@.uuid@),
            old(self).ids@[rec@.uuid@] == head_addr,
        ensures
            final(self).inv(),
            old(self).recoverable() ==> final(self).recoverable(),
            Self::staged_frame(old(self), final(self)),
            Self::slots_kept(old(self), final(self), rec@.uuid@),
            Self::tail_grew(old(self), final(self)),
            match old(self).write_error_at(rec@, offset as int, data@.len()) {
                Some(e) => r == Err::<UnitRecord, Error>(e) && Self::blocks_kept(
                    old(self),
                    final(self),
                ),
                None => r is Ok && Self::write_staged(
                    old(self),
                    final(self),
                    head_addr,
                    rec@,
                    offset as int,
                    data@,
                    r->Ok_0@,
                ),
            },
    {
        let ghost o = *self;
        let ghost r0 = rec@;
        proof {
            Self::lemma_tail_same(&o, &*self);
        }
        let ghost end = (offset + data@.len()) as nat;
        let ghost target = self.target(r0, offset as int, data@);
        let mut old_sm: StreamMeta = rec.content_or_empty();
        proof {
            lemma_size_bound(r0.stream());
            lemma_exp_range(grown_size(r0.stream(), end), 12, 22);
        }
        let sm_ref: &StreamMeta = match &rec.content {
            None => {
                return Err(Error::Integrity);
            },
            Some(s) => s,
        };
        let mut content: Vec<u8> = match self.materialise(&rec, sm_ref) {
            Err(e) => {
                return Err(e);
            },
            Ok(c) => c,
        };
        proof {
            if self.first_unreadable(r0, 0, r0.stream().n() - 1) is None {
                self.lemma_none_unreadable(r0, 0, r0.stream().n() - 1);
            }
        }
        let len: usize = data.len();
        splice_into(&mut content, offset as usize, data, 0, len);
        proof {
            assert(data@.subrange(0, len as int) =~= data@);
            assert(content@ == target);
        }
        let sync_id: u64 = old_sm.vv.bump(self.local_alias);
        let version: u64 = pack_dot(self.local_alias, sync_id);
        let ghost bumped = old_sm.vv@;
        let mut pinned: StreamMeta = sm_ref.clone();
        match self.evict_pinned(&rec, &mut pinned) {
            Err(e) => {
                return Err(e);
            },
            Ok(()) => {},
        }
        proof {
            Self::lemma_tail_grew(&o, &*self, o.pinned_images(r0, r0.stream().n() as int));
        }
        if !C::is_known(self.header.content_cipher) {
            return Err(Error::Crypto);
        }
        let ghost mid = *self;
        let mut unit_map: Vec<u64> = Vec::new();
        let mut locations: Vec<BlockLoc> = Vec::new();
        self.store_content(
            &rec.uuid,
            &content,
            new_exp,
            version,
            true,
            &mut unit_map,
            &mut locations,
        );
        let new_size: u64 = content.len() as u64;
        let sm: StreamMeta = StreamMeta {
            unit_map,
            locations,
            vv: old_sm.vv,
            fragsize_exp: new_exp,
            last_frag_length: last_frag_length(new_size, new_exp),
            pins: emptied_pins(&pinned.pins),
        };
        let out: UnitRecord = UnitRecord {
            uuid: rec.uuid,
            content: Some(sm),
            meta: clone_stream(&rec.meta),
            parent: Some(head_addr),
            concurrent_strains: Vec::new(),
            content_suite: Some(self.header.content_cipher),
            frag_suites: Vec::new(),
            signature: None,
            db: rec.db,
            superseded: Vec::new(),
        };
        proof {
            let r1 = out@;
            let sm1 = r1.stream();
            let fs = frag_bytes(new_exp) as int;
            let n = frags_for(target.len(), new_exp) as int;
            let lo = o.slots().len();
            lemma_frags(target.len(), new_exp);
            assert(r1.strains =~= Seq::<u64>::empty());
            assert(r1.superseded =~= Seq::<u64>::empty());
            assert(r1.frag_suites =~= Seq::<u8>::empty());
            assert forall|i: int| 0 <= i < r0.stream().pins.len() implies (
            #[trigger] sm1.pins[i]).commit == r0.stream().pins[i].commit by {
                assert(pinned@.pins[i].commit == pinned.pins@[i].commit);
            }
            assert forall|g: int| 0 <= g < n implies sm1.locations[g] != hole()
                && #[trigger] self.frag(r1, g) == Ok::<Seq<u8>, Error>(
                o.padded(frag_slice(target, fs, g), new_exp),
            ) by {
                assert(sm1.locations[g].addr == lo + g + 1);
                assert(self.suite(r1, g) == o.header.content_cipher);
                assert(sm1.unit_map[g] == version);
            }
            Self::lemma_contents_written(&o, &*self, r0, offset as int, data@, r1);
            assert forall|p: int| #[trigger]
                place(r1, p) == 0 || place(r1, p) == live(o.ids@, o.recs(), r0.uuid@, p) || lo
                    < place(r1, p) <= self.slots().len() by {
                if p >= 0 && p < n {
                    assert(sm1.locations[p].addr == lo + p + 1);
                }
            }
            assert(live(o.ids@, o.recs(), r0.uuid@, -1) <= lo);
            assert forall|p: int, q: int|
                #![trigger place(r1, p), place(r1, q)]
                place(r1, p) > lo && place(r1, p) == place(r1, q) implies p == q by {
                if 0 <= p < n {
                    assert(sm1.locations[p].addr == lo + p + 1);
                }
                if 0 <= q < n {
                    assert(sm1.locations[q].addr == lo + q + 1);
                }
            }
            assert(places_step(o.ids@, o.recs(), r0.uuid@, r1, lo, self.slots().len()));
            assert forall|a: u64| #[trigger]
                in_heap(o.slots(), a) implies self.slots()[a - 1] == o.slots()[a - 1] by {
                assert(self.slots().take(lo as int)[a - 1] == self.slots()[a - 1]);
            }
        }
        Ok(out)
    }

    /// Where no error comes first, everything can be read.
    pub proof fn lemma_none_unreadable(&self, r: RecordModel, f: int, end: int)
        requires
            self.first_unreadable(r, f, end) is None,
        ensures
            forall|g: int| f <= g <= end ==> #[trigger] self.readable(r, g),
        decreases end + 1 - f,
    {
        if f <= end {
            self.lemma_none_unreadable(r, f + 1, end);
            assert forall|g: int| f <= g <= end implies #[trigger] self.readable(r, g) by {
                if g > f {
                    assert(f + 1 <= g <= end);
                }
            }
        }
    }
}

impl<C: Crypto> Engine<C> {
    /// Stages a write that keeps the fragment size.
    #[verifier::rlimit(40)]
    fn stage_inner(
        &mut self,
        head_addr: u64,
        rec: UnitRecord,
        offset: u64,
        data: &[u8],
        exp: u8,
        new_size: u64,
    ) -> (r: Result<UnitRecord, Error>)
        requires
            old(self).inv(),
            old(self).header.commit_seq < u64::MAX,
            data@.len() > 0,
            write_fits(rec@.stream(), old(self).local_alias, offset as int, data@.len()),
            offset <= rec@.stream().size(),
            !rechunks(rec@.stream(), (offset + data@.len()) as nat),
            exp == write_exp(rec@.stream(), (offset + data@.len()) as nat),
            exp <= 31,
            new_size == grown_size(rec@.stream(), (offset + data@.len()) as nat),
            in_heap(old(self).recs(), head_addr),
            old(self).recs()[head_addr - 1] == rec@,
            old(self).ids@.contains_key(rec@.uuid@),
            old(self).ids@[rec@.uuid@] == head_addr,
        ensures
            final(self).inv(),
            old(self).recoverable() ==> final(self).recoverable(),
            Self::staged_frame(old(self), final(self)),
            Self::slots_kept(old(self), final(self), rec@.uuid@),
            Self::tail_grew(old(self), final(self)),
            match old(self).write_error_at(rec@, offset as int, data@.len()) {
                Some(e) => r == Err::<UnitRecord, Error>(e) && Self::blocks_kept(
                    old(self),
                    final(self),
                ),
                None => {
                    &&& r is Err ==> r == Err::<UnitRecord, Error>(Error::Integrity) && !old(
                        self,
                    ).no_crash_seam()
                    &&& r is Ok ==> Self::write_staged(
                        old(self),
                        final(self),
                        head_addr,
                        rec@,
                        offset as int,
                        data@,
                        r->Ok_0@,
                    )
                },
            },
    {
        let ghost o = *self;
        let ghost r0 = rec@;
        proof {
            Self::lemma_tail_same(&o, &*self);
        }
        let ghost sm0 = r0.stream();
        let ghost end = (offset + data@.len()) as nat;
        let ghost target = self.target(r0, offset as int, data@);
        let ghost fs = frag_bytes(exp) as int;
        if !C::is_known(self.header.content_cipher) {
            return Err(Error::Crypto);
        }
        let mut sm: StreamMeta = rec.content_or_empty();
        sm.fragsize_exp = exp;
        proof {
            lemma_size_bound(sm0);
        }
        let count: usize = frag_count(new_size, exp) as usize;
        proof {
            lemma_frag_bytes(exp);
            lemma_frags(new_size as nat, exp);
            lemma_frags(sm0.size(), exp);
            Self::lemma_write_shape(sm0, offset as int, end, exp);
        }
        grow_stream(&mut sm, count);
        let sync_id: u64 = sm.vv.bump(self.local_alias);
        let version: u64 = pack_dot(self.local_alias, sync_id);
        let first: usize = (offset / fragsize(exp)) as usize;
        let last: usize = ((offset + (data.len() as u64 - 1)) / fragsize(exp)) as usize;
        let ghost grown_sm = sm@;
        let mut pending: Vec<(u64, Vec<u8>)> = Vec::new();
        match self.stage_fragments(
            &rec,
            &mut sm,
            new_size,
            offset,
            data,
            version,
            first,
            last,
            &mut pending,
        ) {
            Err(e) => {
                proof {
                    let g = choose|g: int|
                        #![trigger o.frag(r0, g)]
                        {
                            &&& first <= g <= last
                            &&& g < sm0.n()
                            &&& !o.readable(r0, g)
                            &&& o.frag(r0, g) == Err::<Seq<u8>, Error>(e)
                            &&& forall|h: int| first <= h < g ==> #[trigger] o.readable(r0, h)
                        };
                    o.lemma_unreadable_at(
                        r0,
                        first as int,
                        if last < sm0.n() {
                            last as int
                        } else {
                            sm0.n() - 1
                        },
                        g,
                    );
                }
                return Err(e);
            },
            Ok(()) => {},
        }
        let ghost mid = *self;
        proof {
            o.lemma_all_readable(
                r0,
                first as int,
                if last < sm0.n() {
                    last as int
                } else {
                    sm0.n() - 1
                },
            );
        }
        let ghost pend = pending@;
        let applied: Result<(), Error> = self.apply_pending(pending);
        proof {
            assert forall|a: u64| #[trigger]
                in_heap(o.slots(), a) implies self.slots()[a - 1] == o.slots()[a - 1] || (
            self.dirty@.contains(a) && exists|p: int|
                p >= 0 && #[trigger] live(o.ids@, o.recs(), r0.uuid@, p) == a) by {
                if pending_has(pend, a) {
                    let k = choose|k: int| 0 <= k < pend.len() && (#[trigger] pend[k]).0 == a;
                    assert(in_heap(o.slots(), pend[k].0));
                    let g = choose|g: int|
                        first <= g <= last && #[trigger] live(o.ids@, o.recs(), r0.uuid@, g)
                            == pend[k].0;
                    assert(live(o.ids@, o.recs(), r0.uuid@, g) == a);
                } else {
                    assert(in_heap(mid.slots(), a));
                }
            }
            assert(Self::slots_kept(&o, &*self, r0.uuid@));
        }
        match applied {
            Err(e) => {
                return Err(e);
            },
            Ok(()) => {},
        }
        sm.last_frag_length = last_frag_length(new_size, exp);
        let frag_suites: Vec<u8> = self.build_suites(&rec, count, first, last);
        let out: UnitRecord = UnitRecord {
            uuid: rec.uuid,
            content: Some(sm),
            meta: clone_stream(&rec.meta),
            parent: Some(head_addr),
            concurrent_strains: Vec::new(),
            content_suite: Some(self.header.content_cipher),
            frag_suites,
            signature: None,
            db: rec.db,
            superseded: Vec::new(),
        };
        proof {
            let r1 = out@;
            let sm1 = r1.stream();
            let lo = o.slots().len();
            assert(r1.strains =~= Seq::<u64>::empty());
            assert(r1.superseded =~= Seq::<u64>::empty());
            assert(r1.frag_suites == o.suites_after(r0, count as nat, first as int, last as int))
                by {
                assert forall|g: int| #[trigger] self.suite(r0, g) == o.suite(r0, g) by {}
                assert(self.suites_after(r0, count as nat, first as int, last as int)
                    =~= o.suites_after(r0, count as nat, first as int, last as int)) by {
                    Self::lemma_same_suites(
                        &*self,
                        &o,
                        r0,
                        count as nat,
                        first as int,
                        last as int,
                    );
                }
            }
            assert forall|g: int|
                0 <= g < count && first <= g <= last implies sm1.locations[g] != hole()
                && #[trigger] self.frag(r1, g) == Ok::<Seq<u8>, Error>(
                o.padded(frag_slice(target, fs, g), exp),
            ) by {
                let loc = sm1.locations[g];
                let block = o.new_block(r0, offset as int, data@, exp, version, g);
                assert(Self::frag_staged(&o, &mid, r0.uuid, g, loc, block, pend));
                if loc.addr <= lo {
                    let k = choose|k: int|
                        0 <= k < pend.len() && (#[trigger] pend[k]).0 == loc.addr && pend[k].1@
                            == block;
                    assert(self.slots()[pend[k].0 - 1] == pend[k].1@);
                } else {
                    assert(in_heap(mid.slots(), loc.addr));
                    assert(!pending_has(pend, loc.addr)) by {
                        if pending_has(pend, loc.addr) {
                            let k = choose|k: int|
                                0 <= k < pend.len() && (#[trigger] pend[k]).0 == loc.addr;
                            assert(in_heap(o.slots(), pend[k].0));
                        }
                    }
                }
                assert(self.slots()[loc.addr - 1] == block);
                o.lemma_suites_after(r0, r1, count as nat, first as int, last as int, g);
                assert(self.suite(r1, g) == o.header.content_cipher);
                assert(sm1.unit_map[g] == version);
                let plain = frag_slice(target, fs, g);
                C::lemma_seal_len(
                    o.header.content_cipher,
                    o.root_key,
                    o.ctx(r0.uuid, g, version),
                    o.padded(plain, exp),
                );
                C::lemma_open_of_seal(
                    o.header.content_cipher,
                    o.root_key,
                    o.ctx(r0.uuid, g, version),
                    o.padded(plain, exp),
                );
            }
            assert forall|g: int|
                0 <= g < count && !(first <= g <= last) implies g < sm0.n()
                && #[trigger] sm1.locations[g] == sm0.locations[g] && self.frag(r1, g) == o.frag(
                r0,
                g,
            ) by {
                assert(g < sm0.n());
                assert(sm1.locations[g] == grown_sm.locations[g]);
                assert(grown_sm.locations[g] == sm0.locations[g]);
                let loc = sm0.locations[g];
                assert(sm1.unit_map[g] == sm0.unit_map[g]);
                o.lemma_suites_after(r0, r1, count as nat, first as int, last as int, g);
                assert(live(o.ids@, o.recs(), r0.uuid@, g) == loc.addr);
                assert(loc.addr <= lo);
                if loc.addr != 0 {
                    assert(in_heap(mid.slots(), loc.addr));
                    assert(in_heap(o.slots(), loc.addr));
                    assert(!pending_has(pend, loc.addr)) by {
                        if pending_has(pend, loc.addr) {
                            let k = choose|k: int|
                                0 <= k < pend.len() && (#[trigger] pend[k]).0 == loc.addr;
                            assert(in_heap(o.slots(), pend[k].0));
                            let h = choose|h: int|
                                first <= h <= last && #[trigger] live(
                                    o.ids@,
                                    o.recs(),
                                    r0.uuid@,
                                    h,
                                ) == pend[k].0;
                            assert(live(o.ids@, o.recs(), r0.uuid@, h) == live(
                                o.ids@,
                                o.recs(),
                                r0.uuid@,
                                g,
                            ));
                        }
                    }
                    assert(self.slots()[loc.addr - 1] == o.slots()[loc.addr - 1]);
                }
                assert(stored_at(self.slots(), loc) == stored_at(o.slots(), loc));
            }
            Self::lemma_contents_written(&o, &*self, r0, offset as int, data@, r1);
            Self::lemma_staged_places(&o, &*self, r0, r1, first as int, last as int);
        }
        Ok(out)
    }

    pub proof fn lemma_same_suites(
        a: &Self,
        b: &Self,
        r: RecordModel,
        count: nat,
        first: int,
        last: int,
    )
        requires
            a.header == b.header,
        ensures
            a.suites_after(r, count, first, last) == b.suites_after(r, count, first, last),
    {
        let x = Seq::new(
            count,
            |g: int|
                if first <= g <= last {
                    a.header.content_cipher
                } else {
                    a.suite(r, g)
                },
        );
        let y = Seq::new(
            count,
            |g: int|
                if first <= g <= last {
                    b.header.content_cipher
                } else {
                    b.suite(r, g)
                },
        );
        assert(x =~= y);
    }

    /// How a write that keeps the fragment size lies in the fragments.
    pub proof fn lemma_write_shape(sm: StreamModel, offset: int, end: nat, exp: u8)
        requires
            sm.geometry_ok(),
            sm.n() > 0 ==> sm.last_frag_length >= 1,
            0 <= offset <= sm.size(),
            offset < end,
            exp <= 31,
            sm.n() > 0 ==> exp == sm.fragsize_exp,
        ensures
            sm.n() <= frags_for(grown_size(sm, end), exp),
            0 <= offset / frag_bytes(exp) as int <= (end - 1) / frag_bytes(exp) as int,
            (end - 1) / frag_bytes(exp) as int <= frags_for(grown_size(sm, end), exp) - 1,
            (end - 1) / frag_bytes(exp) as int * frag_bytes(exp) < grown_size(sm, end),
            offset / frag_bytes(exp) as int <= sm.n(),
            sm.n() < frags_for(grown_size(sm, end), exp) ==> (end - 1) / frag_bytes(exp) as int
                == frags_for(grown_size(sm, end), exp) - 1,
    {
        let fs = frag_bytes(exp) as int;
        let size = grown_size(sm, end) as int;
        let n = frags_for(size as nat, exp) as int;
        lemma_frag_bytes(exp);
        lemma_frags(size as nat, exp);
        assert(offset / fs <= (end - 1) / fs && 0 <= offset / fs) by (nonlinear_arith)
            requires
                0 <= offset <= end - 1,
                fs >= 1,
        ;
        assert((end - 1) / fs <= (size - 1) / fs) by (nonlinear_arith)
            requires
                end <= size,
                fs >= 1,
        ;
        assert((end - 1) / fs * fs <= end - 1) by (nonlinear_arith)
            requires
                end >= 1,
                fs >= 1,
        ;
        if sm.n() > 0 {
            let m = sm.n() as int;
            let old_size = sm.size() as int;
            assert((old_size - 1) / fs == m - 1) by {
                assert((m - 1) * fs <= old_size - 1 < (m - 1) * fs + fs);
                lemma_in_fragment(old_size - 1, m - 1, fs);
            }
            assert((old_size - 1) / fs <= (size - 1) / fs) by (nonlinear_arith)
                requires
                    old_size <= size,
                    fs >= 1,
            ;
            if size == old_size {
                assert(n == m);
            }
            assert(offset / fs <= m) by (nonlinear_arith)
                requires
                    offset <= old_size,
                    old_size <= (m - 1) * fs + fs,
                    fs >= 1,
            ;
        } else {
            assert(size == end);
            assert(offset == 0);
            assert(offset / fs == 0) by (nonlinear_arith)
                requires
                    offset == 0,
                    fs >= 1,
            ;
        }
    }

    /// The places of the new head: kept, or fresh.
    pub proof fn lemma_staged_places(
        o: &Self,
        e: &Self,
        r0: RecordModel,
        r1: RecordModel,
        first: int,
        last: int,
    )
        requires
            o.inv(),
            o.ids@.contains_key(r0.uuid@),
            o.recs()[o.ids@[r0.uuid@] - 1] == r0,
            r1.content is Some,
            r1.meta == r0.meta,
            o.slots().len() <= e.slots().len(),
            r1.stream().locations.len() == r1.stream().unit_map.len(),
            forall|g: int|
                0 <= g < r1.stream().n() && !(first <= g <= last) ==> g < r0.stream().n()
                    && #[trigger] r1.stream().locations[g] == r0.stream().locations[g],
            forall|g: int|
                #![trigger r1.stream().locations[g]]
                0 <= g < r1.stream().n() && first <= g <= last ==> {
                    let a = r1.stream().locations[g].addr;
                    &&& a <= e.slots().len()
                    &&& a > o.slots().len() || a == live(o.ids@, o.recs(), r0.uuid@, g)
                },
            forall|g: int, h: int|
                #![trigger r1.stream().locations[g], r1.stream().locations[h]]
                0 <= g < h < r1.stream().n() && first <= g && h <= last
                    ==> r1.stream().locations[g].addr != r1.stream().locations[h].addr,
        ensures
            places_step(o.ids@, o.recs(), r0.uuid@, r1, o.slots().len(), e.slots().len()),
    {
        let lo = o.slots().len();
        let k = r0.uuid@;
        let sm1 = r1.stream();
        assert forall|p: int| #[trigger]
            place(r1, p) == 0 || place(r1, p) == live(o.ids@, o.recs(), k, p) || lo < place(r1, p)
                <= e.slots().len() by {
            if 0 <= p < sm1.n() {
                if !(first <= p <= last) {
                    assert(sm1.locations[p] == r0.stream().locations[p]);
                } else {
                    assert(sm1.locations[p].addr <= e.slots().len());
                }
            }
        }
        assert forall|p: int, q: int|
            #![trigger place(r1, p), place(r1, q)]
            place(r1, p) > lo && place(r1, p) == place(r1, q) implies p == q by {
            assert(live(o.ids@, o.recs(), k, p) <= lo);
            assert(live(o.ids@, o.recs(), k, q) <= lo);
            assert(live(o.ids@, o.recs(), k, -1) <= lo);
            if 0 <= p < sm1.n() && !(first <= p <= last) {
                assert(sm1.locations[p] == r0.stream().locations[p]);
            }
            if 0 <= q < sm1.n() && !(first <= q <= last) {
                assert(sm1.locations[q] == r0.stream().locations[q]);
            }
            if p < q {
                assert(sm1.locations[p].addr != sm1.locations[q].addr);
            } else if q < p {
                assert(sm1.locations[q].addr != sm1.locations[p].addr);
            }
        }
    }
}

impl<C: Crypto> Engine<C> {
    /// The machine limits that a write at `key` must stay within.
    pub open spec fn write_fits_at(&self, key: Seq<u8>, offset: int, len: nat) -> bool {
        self.head(key) is Ok ==> write_fits(
            self.head(key)->Ok_0.2.stream(),
            self.local_alias,
            offset,
            len,
        )
    }

    /// Tests that a write of `len` bytes at `offset` of the content at `key` stays
    /// within machine limits.
    pub fn write_described(&self, key: &[u8], offset: u64, len: usize) -> (r: bool)
        requires
            self.inv(),
        ensures
            r == self.write_fits_at(key@, offset as int, len as nat),
    {
        match self.find_head(key) {
            Err(_) => true,
            Ok((uuid, addr, rec)) => {
                let vv: VersionVector = rec.vector();
                if vv.get(self.local_alias) == u64::MAX {
                    return false;
                }
                match &rec.content {
                    None => size_described(0, 0, 0, offset, len),
                    Some(sm) => {
                        if !geometry_holds(sm) {
                            return false;
                        }
                        let n: usize = sm.unit_map.len();
                        if n > 0 && sm.last_frag_length == 0 {
                            return false;
                        }
                        size_described(n, sm.fragsize_exp, stream_byte_len(sm), offset, len)
                    },
                }
            },
        }
    }

    /// Stages a write: stores the new blocks and gives the new record, which is
    /// neither stored nor committed yet.
    pub fn stage_write(&mut self, key: &[u8], offset: u64, data: &[u8]) -> (r: Result<
        (u64, UnitRecord),
        Error,
    >)
        requires
            old(self).inv(),
            old(self).header.commit_seq < u64::MAX,
            old(self).write_fits_at(key@, offset as int, data@.len()),
        ensures
            final(self).inv(),
            old(self).recoverable() ==> final(self).recoverable(),
            Self::staged_frame(old(self), final(self)),
            old(self).head(key@) is Err ==> *final(self) == *old(self),
            old(self).head(key@) is Ok ==> Self::slots_kept(
                old(self),
                final(self),
                old(self).head(key@)->Ok_0.0@,
            ),
            Self::tail_grew(old(self), final(self)),
            match old(self).write_error(key@, offset as int, data@.len()) {
                Some(e) => r == Err::<(u64, UnitRecord), Error>(e) && Self::blocks_kept(
                    old(self),
                    final(self),
                ),
                None => {
                    &&& r is Err ==> r == Err::<(u64, UnitRecord), Error>(Error::Integrity) && !old(
                        self,
                    ).no_crash_seam()
                    &&& r is Ok ==> r->Ok_0.0 == old(self).head(key@)->Ok_0.1
                        && Self::write_staged(
                        old(self),
                        final(self),
                        old(self).head(key@)->Ok_0.1,
                        old(self).head(key@)->Ok_0.2,
                        offset as int,
                        data@,
                        r->Ok_0.1@,
                    )
                },
            },
    {
        proof {
            Self::lemma_tail_same(&*self, &*self);
        }
        if data.len() == 0 {
            return Err(Error::Integrity);
        }
        let (uuid, head_addr, rec): (Uuid, u64, UnitRecord) = match self.find_head(key) {
            Err(e) => {
                return Err(e);
            },
            Ok(x) => x,
        };
        let ghost sm = rec@.stream();
        proof {
            lemma_size_bound(sm);
        }
        let old_size: u64 = match &rec.content {
            None => 0,
            Some(s) => stream_byte_len(s),
        };
        let len: u64 = data.len() as u64;
        if offset > u64::MAX - len {
            return Err(Error::Integrity);
        }
        if offset > old_size {
            return Err(Error::Integrity);
        }
        let end: u64 = offset + len;
        let new_size: u64 = if old_size >= end {
            old_size
        } else {
            end
        };
        let exp: u8 = match &rec.content {
            None => derive_fragsize_exp(end, FRAGSIZE_FLOOR_EXP, MAX_FRAGSIZE_EXP),
            Some(s) => if s.unit_map.len() == 0 {
                derive_fragsize_exp(end, FRAGSIZE_FLOOR_EXP, MAX_FRAGSIZE_EXP)
            } else {
                s.fragsize_exp
            },
        };
        let needed: u8 = derive_fragsize_exp(new_size, FRAGSIZE_FLOOR_EXP, MAX_FRAGSIZE_EXP);
        if needed > exp {
            match self.stage_rechunk(head_addr, rec, offset, data, needed) {
                Err(e) => Err(e),
                Ok(out) => Ok((head_addr, out)),
            }
        } else {
            match self.stage_inner(head_addr, rec, offset, data, exp, new_size) {
                Err(e) => Err(e),
                Ok(out) => Ok((head_addr, out)),
            }
        }
    }
}

/// Tests that content of `n` fragments and `size` bytes can take `len` bytes at
/// `offset`.
fn size_described(n: usize, exp: u8, size: u64, offset: u64, len: usize) -> (r: bool)
    requires
        exp <= 31,
        size < 0x8000_0000_0000_0000,
    ensures
        r == (offset <= size ==> {
            let end = (offset + len) as nat;
            let grown = if size >= end {
                size as nat
            } else {
                end
            };
            let start = if n == 0 {
                exp_for(end, 12, 22)
            } else {
                exp
            };
            let now = if exp_for(grown, 12, 22) > start {
                exp_for(grown, 12, 22)
            } else {
                start
            };
            &&& end <= 0x7fff_ffff_ffff_ffff
            &&& grown <= usize::MAX
            &&& few_frags(grown, now)
        }),
{
    if offset > size {
        return true;
    }
    let wide: u128 = offset as u128 + len as u128;
    if wide > 0x7fff_ffff_ffff_ffff {
        return false;
    }
    let end: u64 = offset + len as u64;
    let grown: u64 = if size >= end {
        size
    } else {
        end
    };
    if grown as u128 > usize::MAX as u128 {
        return false;
    }
    let start: u8 = if n == 0 {
        derive_fragsize_exp(end, 12, 22)
    } else {
        exp
    };
    let asked: u8 = derive_fragsize_exp(grown, 12, 22);
    let now: u8 = if asked > start {
        asked
    } else {
        start
    };
    grown <= u32::MAX as u64 || frag_count(grown, now) <= u32::MAX as u64
}

} // verus!
