//! Reading and writing under raw keys: always into fresh slots, and always under
//! the present suite.
use vstd::prelude::*;

use crate::block::{
    derive_fragsize_exp, dot, few_frags, frag_bytes, frag_count, frags_for, fragsize,
    last_frag_length, last_len, lemma_exp_range, lemma_frag_bytes, lemma_frags, pack_dot,
};
use crate::content::stored_at;
use crate::crypto::Crypto;
use crate::engine::{live, places_step, Container, Engine, RecordSignIntent};
use crate::error::Error;
use crate::evicted::EvictedModel;
use crate::heap::in_heap;
use crate::unit::{
    clone_stream, grow_stream, grown, hole, lemma_size_bound, pins_cleared, stream_byte_len,
    BlockLoc, RecordModel, StreamMeta, StreamModel, UnitRecord, Uuid,
};
use crate::vector::{vv_get, vv_is_bump};
use crate::write::{frag_slice, grown_size, start_exp};

verus! {

/// The machine limits of a write under a raw key.
pub open spec fn raw_fits(sm: StreamModel, alias: u16, offset: int, len: nat) -> bool {
    &&& sm.geometry_ok()
    &&& sm.n() > 0 ==> sm.last_frag_length >= 1
    &&& vv_get(sm.vv, alias) < u64::MAX
    &&& offset <= sm.size() ==> {
        let end = (offset + len) as nat;
        &&& end <= 0x7fff_ffff_ffff_ffff
        &&& grown_size(sm, end) <= usize::MAX
        &&& few_frags(grown_size(sm, end), start_exp(sm, end))
    }
}

pub open spec fn lesser(a: int, b: int) -> int {
    if a < b {
        a
    } else {
        b
    }
}

impl<C: Crypto> Engine<C> {
    pub open spec fn raw_fits_at(&self, key: Seq<u8>, offset: int, len: nat) -> bool {
        self.head(key) is Ok ==> raw_fits(
            self.head(key)->Ok_0.2.stream(),
            self.local_alias,
            offset,
            len,
        )
    }

    /// Why bytes cannot be written under a raw key.
    pub open spec fn raw_write_error(&self, key: Seq<u8>, offset: int, len: nat) -> Option<Error> {
        if len == 0 {
            Some(Error::Integrity)
        } else {
            match self.head(key) {
                Err(e) => Some(e),
                Ok((_, _, r)) => {
                    let sm = r.stream();
                    let end = (offset + len) as nat;
                    let fs = frag_bytes(start_exp(sm, end)) as int;
                    let last = (end - 1) / fs;
                    if end > u64::MAX || offset > sm.size() {
                        Some(Error::Integrity)
                    } else if !C::known(self.header.content_cipher) {
                        Some(Error::Crypto)
                    } else {
                        self.first_unreadable(
                            r,
                            offset / fs,
                            if last < sm.n() {
                                last
                            } else {
                                sm.n() - 1
                            },
                        )
                    }
                },
            }
        }
    }

    /// `r1` is the record of `r0` after `data` was written at `offset` under a
    /// raw key.
    pub open spec fn raw_wrote(
        o: &Self,
        e: &Self,
        head_addr: u64,
        r0: RecordModel,
        offset: int,
        data: Seq<u8>,
        r1: RecordModel,
    ) -> bool {
        let sm0 = r0.stream();
        let sm1 = r1.stream();
        let end = (offset + data.len()) as nat;
        let exp = start_exp(sm0, end);
        let fs = frag_bytes(exp) as int;
        let size = grown_size(sm0, end);
        let n = frags_for(size, exp);
        let version = dot(o.local_alias, (vv_get(sm0.vv, o.local_alias) + 1) as u64);
        &&& r1 == (RecordModel {
            uuid: r0.uuid,
            content: Some(sm1),
            meta: r0.meta,
            parent: Some(head_addr),
            strains: Seq::empty(),
            content_suite: Some(o.header.content_cipher),
            frag_suites: o.suites_after(r0, n, offset / fs, (end - 1) / fs),
            signature: r1.signature,
            db: r0.db,
            superseded: Seq::empty(),
        })
        &&& vv_is_bump(sm0.vv, o.local_alias, sm1.vv)
        &&& sm1.fragsize_exp == exp
        &&& sm1.unit_map.len() == n
        &&& sm1.locations.len() == n
        &&& sm1.last_frag_length == last_len(size, exp)
        &&& sm1.geometry_ok()
        &&& sm1.size() == size
        &&& pins_cleared(
            sm0.pins,
            sm1.pins,
            offset / fs,
            lesser((end - 1) / fs + 1, sm0.n() as int),
        )
        &&& forall|g: int|
            0 <= g < n ==> #[trigger] sm1.unit_map[g] == if offset / fs <= g <= (end - 1) / fs {
                version
            } else {
                sm0.unit_map[g]
            }
        &&& forall|g: int|
            0 <= g < n && offset / fs <= g <= (end - 1) / fs ==> #[trigger] e.frag(r1, g) == Ok::<
                Seq<u8>,
                Error,
            >(o.padded(frag_slice(o.target(r0, offset, data), fs, g), exp))
        &&& forall|g: int|
            0 <= g < n && !(offset / fs <= g <= (end - 1) / fs) ==> g < sm0.n()
                && #[trigger] sm1.locations[g] == sm0.locations[g] && e.frag(r1, g) == o.frag(
                r0,
                g,
            )
        &&& e.contents(r1) == o.target(r0, offset, data)
    }

    /// A write under a raw key keeps the blocks that it supersedes as history.
    pub open spec fn raw_kept(o: &Self, e: &Self, r0: RecordModel, offset: int, len: nat) -> bool {
        let sm0 = r0.stream();
        let end = (offset + len) as nat;
        let fs = frag_bytes(start_exp(sm0, end)) as int;
        let first = offset / fs;
        let upto = lesser((end - 1) / fs + 1, sm0.n() as int);
        &&& e.tail() == o.tail() + o.kept_images(r0, first, upto)
        &&& e.stamps@ == o.stamps@
        &&& o.suppress_commit ==> e.journaled@ == o.journaled@ + o.kept_journal(r0, first, upto)
    }

    /// Merges, seals and stores fragments `first` to `last` in fresh slots.
    fn store_merged(
        &mut self,
        base: &UnitRecord,
        sm: &mut StreamMeta,
        exp: u8,
        new_size: u64,
        offset: u64,
        data: &[u8],
        version: u64,
        first: usize,
        last: usize,
    ) -> (r: Result<(), Error>)
        requires
            old(self).inv(),
            C::known(old(self).header.content_cipher),
            base@.stream().geometry_ok(),
            exp <= 31,
            base@.stream().n() > 0 ==> exp == base@.stream().fragsize_exp,
            offset <= base@.stream().size(),
            data@.len() > 0,
            offset + data@.len() <= 0x7fff_ffff_ffff_ffff,
            new_size == old(self).target(base@, offset as int, data@).len(),
            first <= last < u32::MAX,
            last * frag_bytes(exp) < new_size,
            last < old(sm)@.unit_map.len(),
            old(sm)@.locations.len() == old(sm)@.unit_map.len(),
            base@.stream().n() <= old(sm)@.n(),
            forall|g: int|
                0 <= g < base@.stream().n() ==> #[trigger] base@.stream().locations[g].addr
                    <= old(self).slots().len(),
        ensures
            final(self).inv(),
            old(self).recoverable() ==> final(self).recoverable(),
            *final(self) == (Engine {
                disk: (Container { blocks: final(self).disk.blocks, ..old(self).disk }),
                ..*old(self)
            }),
            old(self).slots().len() <= final(self).slots().len(),
            final(self).slots().take(old(self).slots().len() as int) == old(self).slots(),
            match old(self).first_unreadable(
                base@,
                first as int,
                if last < base@.stream().n() {
                    last as int
                } else {
                    base@.stream().n() - 1
                },
            ) {
                Some(e) => r == Err::<(), Error>(e),
                None => {
                    let fs = frag_bytes(exp) as int;
                    let lo = old(self).slots().len();
                    let o = *old(self);
                    let e = *final(self);
                    &&& r is Ok
                    &&& final(sm)@ == (StreamModel {
                        unit_map: final(sm)@.unit_map,
                        locations: final(sm)@.locations,
                        ..old(sm)@
                    })
                    &&& final(sm)@.unit_map.len() == old(sm)@.unit_map.len()
                    &&& final(sm)@.locations.len() == old(sm)@.locations.len()
                    &&& forall|g: int|
                        0 <= g < final(sm)@.n() && !(first <= g <= last) ==> (
                        #[trigger] final(sm)@.locations[g]) == old(sm)@.locations[g]
                            && final(sm)@.unit_map[g] == old(sm)@.unit_map[g]
                    &&& forall|g: int|
                        first <= g <= last ==> {
                            let loc = #[trigger] final(sm)@.locations[g];
                            let plain = frag_slice(o.target(base@, offset as int, data@), fs, g);
                            let block = o.sealed_frag(base@.uuid, g, version, plain, exp);
                            &&& final(sm)@.unit_map[g] == version
                            &&& loc.addr == lo + (g - first) + 1
                            &&& loc.addr <= e.slots().len()
                            &&& stored_at(e.slots(), loc) == Some(block)
                            &&& C::opened(
                                o.header.content_cipher,
                                o.root_key,
                                o.ctx(base@.uuid, g, version),
                                block,
                            ) == Some(o.padded(plain, exp))
                        }
                },
            },
    {
        let ghost o = *self;
        let ghost s0 = sm@;
        let ghost lo = o.slots().len() as int;
        let ghost fs = frag_bytes(exp) as int;
        let ghost target = o.target(base@, offset as int, data@);
        let ghost gend = if last < base@.stream().n() {
            last as int
        } else {
            base@.stream().n() - 1
        };
        let uuid: Uuid = base.uuid;
        let mut f: usize = first;
        proof {
            lemma_frag_bytes(exp);
            assert(self.slots().take(lo) =~= o.slots());
        }
        while f <= last
            invariant
                o == *old(self),
                s0 == old(sm)@,
                lo == o.slots().len(),
                fs == frag_bytes(exp),
                fs >= 1,
                fs <= 0x8000_0000,
                uuid == base@.uuid,
                target == o.target(base@, offset as int, data@),
                gend == if last < base@.stream().n() {
                    last as int
                } else {
                    base@.stream().n() - 1
                },
                self.inv(),
                o.recoverable() ==> self.recoverable(),
                C::known(o.header.content_cipher),
                base@.stream().geometry_ok(),
                exp <= 31,
                base@.stream().n() > 0 ==> exp == base@.stream().fragsize_exp,
                offset <= base@.stream().size(),
                data@.len() > 0,
                offset + data@.len() <= 0x7fff_ffff_ffff_ffff,
                new_size == target.len(),
                first <= f <= last + 1,
                last < u32::MAX,
                last * fs < new_size,
                last < s0.unit_map.len(),
                s0.locations.len() == s0.unit_map.len(),
                base@.stream().n() <= s0.n(),
                *self == (Engine {
                    disk: (Container { blocks: self.disk.blocks, ..o.disk }),
                    ..o
                }),
                self.slots().len() == lo + (f - first),
                self.slots().take(lo) == o.slots(),
                forall|g: int|
                    0 <= g < base@.stream().n() ==> #[trigger] base@.stream().locations[g].addr
                        <= lo,
                forall|g: int| first <= g < f && g < base@.stream().n() ==> #[trigger] o.readable(
                    base@,
                    g,
                ),
                sm@ == (StreamModel {
                    unit_map: sm@.unit_map,
                    locations: sm@.locations,
                    ..s0
                }),
                sm@.unit_map.len() == s0.unit_map.len(),
                sm@.locations.len() == s0.locations.len(),
                forall|g: int|
                    0 <= g < sm@.n() && !(first <= g < f) ==> (#[trigger] sm@.locations[g])
                        == s0.locations[g] && sm@.unit_map[g] == s0.unit_map[g],
                forall|g: int|
                    first <= g < f ==> {
                        let loc = #[trigger] sm@.locations[g];
                        let plain = frag_slice(target, fs, g);
                        let block = o.sealed_frag(uuid, g, version, plain, exp);
                        &&& sm@.unit_map[g] == version
                        &&& loc.addr == lo + (g - first) + 1
                        &&& loc.addr <= self.slots().len()
                        &&& stored_at(self.slots(), loc) == Some(block)
                        &&& C::opened(
                            o.header.content_cipher,
                            o.root_key,
                            o.ctx(uuid, g, version),
                            block,
                        ) == Some(o.padded(plain, exp))
                    },
            decreases last + 1 - f,
        {
            let ghost gf = f as int;
            proof {
                assert(gf * fs <= last * fs) by (nonlinear_arith)
                    requires
                        gf <= last,
                        fs >= 1,
                ;
                o.lemma_more_slots(&*self, base@, lo);
            }
            let plain: Vec<u8> = match self.merge_fragment(base, f, exp, new_size, offset, data) {
                Err(e) => {
                    proof {
                        o.lemma_unreadable_at(base@, first as int, gend, gf);
                    }
                    return Err(e);
                },
                Ok(p) => p,
            };
            let ghost gplain = plain@;
            let block: Vec<u8> = self.seal_fragment(&uuid, f, version, plain, exp);
            let ghost gblock = block@;
            let ghost before = self.slots();
            let loc: BlockLoc = self.place_content_fragment(block);
            let ghost sb = sm@;
            sm.unit_map.set(f, version);
            sm.locations.set(f, loc);
            proof {
                assert(sm@.locations =~= sb.locations.update(gf, loc));
                assert(sm@.unit_map =~= sb.unit_map.update(gf, version));
                assert(self.slots().take(lo) =~= o.slots());
                assert(gblock == o.sealed_frag(uuid, gf, version, gplain, exp));
                assert forall|g: int| first <= g < f + 1 implies {
                    let l = #[trigger] sm@.locations[g];
                    let p = frag_slice(target, fs, g);
                    let b = o.sealed_frag(uuid, g, version, p, exp);
                    &&& sm@.unit_map[g] == version
                    &&& l.addr == lo + (g - first) + 1
                    &&& l.addr <= self.slots().len()
                    &&& stored_at(self.slots(), l) == Some(b)
                    &&& C::opened(
                        o.header.content_cipher,
                        o.root_key,
                        o.ctx(uuid, g, version),
                        b,
                    ) == Some(o.padded(p, exp))
                } by {
                    if g < f {
                        assert(sm@.locations[g] == sb.locations[g]);
                        assert(stored_at(before, sb.locations[g]) is Some);
                    }
                }
            }
            f = f + 1;
            proof {
                assert forall|g: int|
                    0 <= g < sm@.n() && !(first <= g < f) implies (#[trigger] sm@.locations[g])
                    == s0.locations[g] && sm@.unit_map[g] == s0.unit_map[g] by {
                    assert(g != gf);
                    assert(sm@.locations[g] == sb.locations[g]);
                    assert(sm@.unit_map[g] == sb.unit_map[g]);
                }
            }
        }
        proof {
            o.lemma_all_readable(base@, first as int, gend);
        }
        Ok(())
    }

    /// Slots added behind those of a record change nothing that it reads.
    proof fn lemma_more_slots(&self, e: &Self, r: RecordModel, lo: int)
        requires
            lo == self.slots().len(),
            e.slots().len() >= lo,
            e.slots().take(lo) == self.slots(),
            e.root_key == self.root_key,
            e.header == self.header,
            r.stream().geometry_ok(),
            forall|g: int|
                0 <= g < r.stream().n() ==> #[trigger] r.stream().locations[g].addr <= lo,
        ensures
            e.contents(r) == self.contents(r),
            forall|g: int|
                0 <= g < r.stream().n() ==> #[trigger] e.readable(r, g) == self.readable(r, g),
            forall|g: int| 0 <= g < r.stream().n() ==> #[trigger] e.frag(r, g) == self.frag(r, g),
    {
        let sm = r.stream();
        assert forall|f: int| 0 <= f < sm.n() && (#[trigger] sm.locations[f]).addr != 0 implies
            e.slots()[sm.locations[f].addr - 1] == self.slots()[sm.locations[f].addr - 1] by {
            assert(e.slots().take(lo)[sm.locations[f].addr - 1] == e.slots()[sm.locations[f].addr
                - 1]);
        }
        Self::lemma_reads_kept(self, e, r);
    }
}


impl<C: Crypto> Engine<C> {
    /// The unit at `key` was written: its new head says what `raw_wrote` says.
    pub open spec fn raw_written(o: &Self, e: &Self, key: Seq<u8>, offset: int, data: Seq<u8>) -> bool {
        let (uuid, head_addr, r0) = o.head(key)->Ok_0;
        let m = e.recs().last();
        &&& e.recs() == o.recs().push(m)
        &&& e.recs().len() <= u64::MAX
        &&& e.ids@ == o.ids@.insert(uuid@, e.recs().len() as u64)
        &&& e.keys@ == o.keys@
        &&& o.slots().len() <= e.slots().len()
        &&& e.slots().take(o.slots().len() as int) == o.slots()
        &&& Self::raw_wrote(o, e, head_addr, r0, offset, data, m)
        &&& m == o.signed_fresh((RecordModel { signature: None, ..m }))
    }

    /// Stores the new blocks of a write under a raw key, and gives the new
    /// record.
    #[verifier::rlimit(60)]
    fn stage_raw(
        &mut self,
        head_addr: u64,
        rec: &UnitRecord,
        offset: u64,
        data: &[u8],
        exp: u8,
        new_size: u64,
    ) -> (r: Result<UnitRecord, Error>)
        requires
            old(self).inv(),
            C::known(old(self).header.content_cipher),
            data@.len() > 0,
            raw_fits(rec@.stream(), old(self).local_alias, offset as int, data@.len()),
            offset <= rec@.stream().size(),
            exp == start_exp(rec@.stream(), (offset + data@.len()) as nat),
            exp <= 31,
            new_size == grown_size(rec@.stream(), (offset + data@.len()) as nat),
            in_heap(old(self).recs(), head_addr),
            old(self).recs()[head_addr - 1] == rec@,
            old(self).ids@.contains_key(rec@.uuid@),
            old(self).ids@[rec@.uuid@] == head_addr,
        ensures
            final(self).inv(),
            old(self).recoverable() ==> final(self).recoverable(),
            *final(self) == (Engine {
                disk: (Container {
                    blocks: final(self).disk.blocks,
                    tail: final(self).disk.tail,
                    ..old(self).disk
                }),
                journaled: final(self).journaled,
                ..*old(self)
            }),
            old(self).slots().len() <= final(self).slots().len(),
            final(self).slots().take(old(self).slots().len() as int) == old(self).slots(),
            ({
                let sm = rec@.stream();
                let fs = frag_bytes(exp) as int;
                let last = (offset + data@.len() - 1) / fs;
                match old(self).first_unreadable(
                    rec@,
                    offset as int / fs,
                    if last < sm.n() {
                        last
                    } else {
                        sm.n() - 1
                    },
                ) {
                    Some(e) => r == Err::<UnitRecord, Error>(e),
                    None => {
                        &&& r is Ok
                        &&& r->Ok_0@.signature is None
                        &&& final(self).tail() == old(self).tail() + old(self).kept_images(
                            rec@,
                            offset as int / fs,
                            lesser(last + 1, sm.n() as int),
                        )
                        &&& final(self).journaled@ == old(self).journaled@ + old(self).kept_journal(
                            rec@,
                            offset as int / fs,
                            lesser(last + 1, sm.n() as int),
                        )
                        &&& Self::raw_wrote(
                            old(self),
                            final(self),
                            head_addr,
                            rec@,
                            offset as int,
                            data@,
                            r->Ok_0@,
                        )
                        &&& places_step(
                            old(self).ids@,
                            old(self).recs(),
                            rec@.uuid@,
                            r->Ok_0@,
                            old(self).slots().len(),
                            final(self).slots().len(),
                        )
                    },
                }
            }),
    {
        let ghost o = *self;
        let ghost lo = o.slots().len();
        let ghost r0 = rec@;
        let ghost sm0 = r0.stream();
        let mut sm: StreamMeta = rec.content_or_empty();
        let end: u64 = offset + data.len() as u64;
        proof {
            lemma_size_bound(sm0);
            lemma_frag_bytes(exp);
            lemma_frags(new_size as nat, exp);
            Self::lemma_write_shape(sm0, offset as int, end as nat, exp);
        }
        sm.fragsize_exp = exp;
        let count: usize = frag_count(new_size, exp) as usize;
        grow_stream(&mut sm, count);
        let first: usize = (offset / fragsize(exp)) as usize;
        let last: usize = ((end - 1) / fragsize(exp)) as usize;
        let sync_id: u64 = sm.vv.bump(self.local_alias);
        let version: u64 = pack_dot(self.local_alias, sync_id);
        let ghost gsm = sm@;
        proof {
            assert(o.contents(r0).len() == sm0.size());
            assert forall|g: int| 0 <= g < sm0.n() implies #[trigger] sm0.locations[g].addr
                <= lo by {
                assert(live(o.ids@, o.recs(), r0.uuid@, g) == sm0.locations[g].addr);
            }
        }
        match self.store_merged(rec, &mut sm, exp, new_size, offset, data, version, first, last) {
            Err(e) => {
                return Err(e);
            },
            Ok(()) => {},
        }
        let ghost stored = sm@;
        let ghost put = *self;
        match &rec.content {
            None => {
                proof {
                    assert(self.tail() =~= o.tail() + Seq::<EvictedModel>::empty());
                    assert(self.journaled@ =~= o.journaled@ + Seq::<(Uuid, u32)>::empty());
                }
            },
            Some(old_sm) => {
                let n0: usize = old_sm.unit_map.len();
                let upto: usize = if last < n0 {
                    last + 1
                } else {
                    n0
                };
                self.retire_range(rec, old_sm, &mut sm.pins, first, upto);
                proof {
                    Self::lemma_kept_more(&o, &put, r0, first as int, upto as int);
                }
            },
        }
        let frag_suites: Vec<u8> = self.build_suites(rec, count, first, last);
        let ghost now = *self;
        sm.last_frag_length = last_frag_length(new_size, exp);
        let ghost sm1 = sm@;
        let out: UnitRecord = UnitRecord {
            uuid: rec.uuid,
            content: Some(sm),
            meta: clone_stream(&rec.meta),
            parent: Some(head_addr),
            concurrent_strains: Vec::new(),
            content_suite: Some(self.header.content_cipher),
            frag_suites,
            signature: None,
            db: rec.db,
            superseded: Vec::new(),
        };
        proof {
            let r1 = out@;
            assert(r1.strains =~= Seq::<u64>::empty());
            assert(r1.superseded =~= Seq::<u64>::empty());
            Self::lemma_same_suites(&now, &o, r0, count as nat, first as int, last as int);
            assert(r1.stream() == sm1);
            assert(gsm.unit_map =~= grown(sm0, count as nat).unit_map);
            assert(gsm.locations =~= grown(sm0, count as nat).locations);
            assert(sm1.locations == stored.locations && sm1.unit_map == stored.unit_map);
            let fs = frag_bytes(exp) as int;
            assert(first == offset as int / fs);
            assert(last == (end - 1) / fs);
            assert(version == dot(o.local_alias, (vv_get(sm0.vv, o.local_alias) + 1) as u64));
            assert forall|g: int| 0 <= g < count && !(first <= g <= last) implies (
            #[trigger] r1.stream().locations[g]) == gsm.locations[g] && r1.stream().unit_map[g]
                == gsm.unit_map[g] by {
                assert(stored.locations[g] == gsm.locations[g]);
            }
            assert forall|g: int| first <= g <= last implies {
                let loc = #[trigger] r1.stream().locations[g];
                let plain = frag_slice(o.target(r0, offset as int, data@), fs, g);
                let block = o.sealed_frag(r0.uuid, g, version, plain, exp);
                &&& r1.stream().unit_map[g] == version
                &&& loc.addr == lo + (g - first) + 1
                &&& stored_at(now.slots(), loc) == Some(block)
                &&& C::opened(
                    o.header.content_cipher,
                    o.root_key,
                    o.ctx(r0.uuid, g, version),
                    block,
                ) == Some(o.padded(plain, exp))
            } by {
                let loc = stored.locations[g];
            }
            assert(Self::raw_shape(&o, head_addr, r0, offset as int, data@, r1));
            assert(sm1.n() == count && sm1.fragsize_exp == exp);
            assert(grown(sm0, sm1.n()).locations == gsm.locations);
            assert(grown(sm0, sm1.n()).unit_map == gsm.unit_map);
            assert(Self::raw_blocks(
                &o,
                &now,
                r0,
                o.target(r0, offset as int, data@),
                r1.stream(),
                version,
                first as int,
                last as int,
            ));
            Self::lemma_raw_wrote(
                &o,
                &now,
                head_addr,
                r0,
                offset as int,
                data@,
                r1,
                first as int,
                last as int,
            );
            Self::lemma_staged_places(&o, &now, r0, r1, first as int, last as int);
        }
        Ok(out)
    }

    /// Writes `data` at `offset` of the unit at a raw key and commits. Fragments
    /// keep their size, and no slot is overwritten.
    pub fn write_raw_key(&mut self, key: &[u8], offset: u64, data: &[u8]) -> (r: Result<(), Error>)
        requires
            old(self).inv(),
            old(self).header.commit_seq < u64::MAX,
            old(self).raw_fits_at(key@, offset as int, data@.len()),
        ensures
            final(self).inv(),
            old(self).recoverable() ==> final(self).recoverable(),
            match old(self).raw_write_error(key@, offset as int, data@.len()) {
                Some(e) => r == Err::<(), Error>(e) && Self::nothing_installed(
                    old(self),
                    final(self),
                ),
                None => if old(self).may_sign() {
                    &&& r is Ok
                    &&& Self::raw_written(old(self), final(self), key@, offset as int, data@)
                    &&& Self::same_setup(old(self), final(self))
                    &&& Self::raw_kept(
                        old(self),
                        final(self),
                        old(self).head(key@)->Ok_0.2,
                        offset as int,
                        data@.len(),
                    )
                    &&& Self::commit_step(old(self), final(self))
                } else {
                    r == Err::<(), Error>(Error::Integrity) && Self::nothing_installed(
                        old(self),
                        final(self),
                    )
                },
            },
    {
        let ghost o = *self;
        let ghost lo = o.slots().len();
        if data.len() == 0 {
            return Err(Error::Integrity);
        }
        let (uuid, head_addr, rec): (Uuid, u64, UnitRecord) = match self.find_head(key) {
            Err(e) => {
                return Err(e);
            },
            Ok(x) => x,
        };
        let ghost r0 = rec@;
        let ghost sm0 = r0.stream();
        let sm: StreamMeta = rec.content_or_empty();
        proof {
            lemma_size_bound(sm0);
        }
        if data.len() as u64 > u64::MAX - offset {
            return Err(Error::Integrity);
        }
        let end: u64 = offset + data.len() as u64;
        let size: u64 = stream_byte_len(&sm);
        if offset > size {
            return Err(Error::Integrity);
        }
        if !C::is_known(self.header.content_cipher) {
            return Err(Error::Crypto);
        }
        let exp: u8 = if sm.unit_map.len() == 0 {
            derive_fragsize_exp(end, 12, 22)
        } else {
            sm.fragsize_exp
        };
        let new_size: u64 = if size >= end {
            size
        } else {
            end
        };
        proof {
            if sm0.n() == 0 {
                lemma_exp_range(end as nat, 12, 22);
            }
        }
        let out: UnitRecord = match self.stage_raw(head_addr, &rec, offset, data, exp, new_size) {
            Err(e) => {
                return Err(e);
            },
            Ok(x) => x,
        };
        let ghost mid = *self;
        let ghost r1 = out@;
        proof {
            assert forall|a: u64| #[trigger] mid.dirty@.contains(a) implies a <= lo by {
                assert(in_heap(o.slots(), a));
            }
            o.lemma_may_sign(r1);
            mid.lemma_may_sign(r1);
        }
        match self.commit_head(out, RecordSignIntent::Fresh, Ghost(lo)) {
            Err(e) => Err(e),
            Ok(()) => {
                proof {
                    let m = self.recs().last();
                    assert(m == (RecordModel { signature: m.signature, ..r1 }));
                    assert((RecordModel { signature: None, ..m }) == r1);
                    Self::lemma_raw_kept(&o, &mid, &*self, head_addr, r0, offset as int, data@, r1, m);
                }
                Ok(())
            },
        }
    }

    /// The parts of the new record that do not depend on what is stored.
    spec fn raw_shape(
        o: &Self,
        head_addr: u64,
        r0: RecordModel,
        offset: int,
        data: Seq<u8>,
        r1: RecordModel,
    ) -> bool {
        let sm0 = r0.stream();
        let sm1 = r1.stream();
        let end = (offset + data.len()) as nat;
        let exp = start_exp(sm0, end);
        let fs = frag_bytes(exp) as int;
        let size = grown_size(sm0, end);
        let n = frags_for(size, exp);
        &&& exp <= 31
        &&& r1 == (RecordModel {
            uuid: r0.uuid,
            content: Some(sm1),
            meta: r0.meta,
            parent: Some(head_addr),
            strains: Seq::empty(),
            content_suite: Some(o.header.content_cipher),
            frag_suites: o.suites_after(r0, n, offset / fs, (end - 1) / fs),
            signature: r1.signature,
            db: r0.db,
            superseded: Seq::empty(),
        })
        &&& vv_is_bump(sm0.vv, o.local_alias, sm1.vv)
        &&& sm1.fragsize_exp == exp
        &&& pins_cleared(
            sm0.pins,
            sm1.pins,
            offset / fs,
            lesser((end - 1) / fs + 1, sm0.n() as int),
        )
        &&& sm1.unit_map.len() == n
        &&& sm1.locations.len() == n
        &&& sm1.last_frag_length == last_len(size, exp)
        &&& C::known(o.header.content_cipher)
    }

    /// Fragments `first` to `last` are stored in fresh slots; the others are
    /// where they were.
    spec fn raw_blocks(
        o: &Self,
        e: &Self,
        r0: RecordModel,
        target: Seq<u8>,
        sm1: StreamModel,
        version: u64,
        first: int,
        last: int,
    ) -> bool {
        let exp = sm1.fragsize_exp;
        let fs = frag_bytes(exp) as int;
        let gsm = grown(r0.stream(), sm1.n());
        &&& forall|g: int|
            0 <= g < sm1.n() && !(first <= g <= last) ==> (#[trigger] sm1.locations[g])
                == gsm.locations[g] && sm1.unit_map[g] == gsm.unit_map[g]
        &&& forall|g: int|
            first <= g <= last ==> {
                let loc = #[trigger] sm1.locations[g];
                let plain = frag_slice(target, fs, g);
                let block = o.sealed_frag(r0.uuid, g, version, plain, exp);
                &&& sm1.unit_map[g] == version
                &&& loc.addr == o.slots().len() + (g - first) + 1
                &&& stored_at(e.slots(), loc) == Some(block)
                &&& C::opened(
                    o.header.content_cipher,
                    o.root_key,
                    o.ctx(r0.uuid, g, version),
                    block,
                ) == Some(o.padded(plain, exp))
            }
    }

    proof fn lemma_raw_wrote(
        o: &Self,
        e: &Self,
        head_addr: u64,
        r0: RecordModel,
        offset: int,
        data: Seq<u8>,
        r1: RecordModel,
        first: int,
        last: int,
    )
        requires
            o.inv(),
            e.header == o.header,
            e.root_key == o.root_key,
            o.slots().len() <= e.slots().len(),
            e.slots().take(o.slots().len() as int) == o.slots(),
            o.ids@.contains_key(r0.uuid@),
            o.head_of(r0.uuid@) == r0,
            data.len() > 0,
            0 <= offset <= r0.stream().size(),
            raw_fits(r0.stream(), o.local_alias, offset, data.len()),
            first == offset / frag_bytes(r1.stream().fragsize_exp) as int,
            last == (offset + data.len() - 1) / frag_bytes(r1.stream().fragsize_exp) as int,
            Self::raw_shape(o, head_addr, r0, offset, data, r1),
            Self::raw_blocks(
                o,
                e,
                r0,
                o.target(r0, offset, data),
                r1.stream(),
                dot(o.local_alias, (vv_get(r0.stream().vv, o.local_alias) + 1) as u64),
                first,
                last,
            ),
        ensures
            Self::raw_wrote(o, e, head_addr, r0, offset, data, r1),
    {
        let sm0 = r0.stream();
        let sm1 = r1.stream();
        let end = (offset + data.len()) as nat;
        let exp = start_exp(sm0, end);
        let fs = frag_bytes(exp) as int;
        let size = grown_size(sm0, end);
        let n = frags_for(size, exp);
        let gsm = grown(sm0, n);
        lemma_frag_bytes(exp);
        lemma_frags(size, exp);
        Self::lemma_write_shape(sm0, offset, end, exp);
        assert forall|g: int| 0 <= g < n && first <= g <= last implies sm1.locations[g] != hole()
            && #[trigger] e.frag(r1, g) == Ok::<Seq<u8>, Error>(
            o.padded(frag_slice(o.target(r0, offset, data), fs, g), exp),
        ) by {
            let loc = sm1.locations[g];
            assert(stored_at(e.slots(), loc) is Some);
            o.lemma_suites_after(r0, r1, n, first, last, g);
            assert(e.suite(r1, g) == o.header.content_cipher);
        }
        assert forall|g: int| 0 <= g < n && !(first <= g <= last) implies exp == sm0.fragsize_exp
            && g < sm0.n() && #[trigger] sm1.locations[g] == sm0.locations[g] && e.frag(r1, g)
            == o.frag(r0, g) by {
            assert(sm1.locations[g] == gsm.locations[g]);
            assert(g < sm0.n());
            let loc = sm0.locations[g];
            assert(live(o.ids@, o.recs(), r0.uuid@, g) == loc.addr);
            if loc.addr != 0 {
                assert(e.slots().take(o.slots().len() as int)[loc.addr - 1] == e.slots()[loc.addr
                    - 1]);
            }
            assert(stored_at(e.slots(), loc) == stored_at(o.slots(), loc));
            o.lemma_suites_after(r0, r1, n, first, last, g);
            assert(e.suite(r1, g) == o.suite(r0, g));
        }
        assert forall|g: int| 0 <= g < n implies #[trigger] sm1.unit_map[g] == if first <= g <= last {
            dot(o.local_alias, (vv_get(sm0.vv, o.local_alias) + 1) as u64)
        } else {
            sm0.unit_map[g]
        } by {
            let loc = sm1.locations[g];
        }
        let touched = |g: int| first <= g <= last;
        Self::lemma_contents_touched(o, e, r0, offset, data, r1, exp, touched);
    }

    proof fn lemma_raw_kept(
        o: &Self,
        a: &Self,
        b: &Self,
        head_addr: u64,
        r0: RecordModel,
        offset: int,
        data: Seq<u8>,
        r1: RecordModel,
        m: RecordModel,
    )
        requires
            Self::raw_wrote(o, a, head_addr, r0, offset, data, r1),
            Self::same_reads(a, b),
            m == (RecordModel { signature: m.signature, ..r1 }),
        ensures
            Self::raw_wrote(o, b, head_addr, r0, offset, data, m),
    {
        b.lemma_signature_free(r1, m);
        Self::lemma_same_contents(a, b, r1);
        let sm0 = r0.stream();
        let end = (offset + data.len()) as nat;
        let exp = start_exp(sm0, end);
        let fs = frag_bytes(exp) as int;
        let n = frags_for(grown_size(sm0, end), exp);
        assert forall|g: int| #[trigger] b.frag(m, g) == a.frag(r1, g) by {
            assert(b.frag(m, g) == b.frag(r1, g));
        }
        assert forall|g: int| 0 <= g < n && !(offset / fs <= g <= (end - 1) / fs) implies g < sm0.n()
            && #[trigger] m.stream().locations[g] == sm0.locations[g] && b.frag(m, g) == o.frag(
            r0,
            g,
        ) by {
            assert(r1.stream().locations[g] == sm0.locations[g]);
            assert(b.frag(m, g) == a.frag(r1, g));
        }
    }

    // ── Reading ─────────────────────────────────────────────────────────────

    /// The content at a raw key, as committed; pending writes do not show.
    pub fn read_raw_key(&self, key: &[u8]) -> (r: Result<Vec<u8>, Error>)
        requires
            self.inv(),
            self.geometry_at(key@),
        ensures
            match self.head(key@) {
                Err(e) => r == Err::<Vec<u8>, Error>(e),
                Ok((_, _, m)) => match self.full(m) {
                    Err(e) => r == Err::<Vec<u8>, Error>(e),
                    Ok(s) => r is Ok && r->Ok_0@ == s,
                },
            },
    {
        match self.find_head(key) {
            Err(e) => Err(e),
            Ok((uuid, addr, rec)) => self.read_full(&rec),
        }
    }
}

} // verus!
