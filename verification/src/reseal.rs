//! Sealing content anew: under another suite, or under another key.
use vstd::prelude::*;

use crate::bytes::{array16, push_zeros, resized};
use crate::content::stored_at;
use crate::crypto::{BlockCtx, Crypto};
use crate::engine::{live, place, places_step, record_ok, Container, Engine, RecordSignIntent};
use crate::error::Error;
use crate::heap::in_heap;
use crate::merge::longer;
use crate::unit::{
    hole, is_hole, payload_of, BlockLoc, RecordModel, StreamMeta, StreamModel, UnitRecord, Uuid,
};

verus! {

/// How to seal content anew.
#[derive(Clone, Copy, Debug)]
pub struct SealPlan {
    /// The suite to seal under; without one, each fragment keeps its own.
    pub target: Option<u8>,
    pub key: [u8; 32],
    pub epoch: u64,
}

/// A record whose blocks can be sealed anew within machine limits.
pub open spec fn record_fits(r: RecordModel) -> bool {
    &&& r.stream().n() <= u32::MAX
    &&& forall|f: int|
        0 <= f < r.stream().locations.len() ==> (#[trigger] r.stream().locations[f]).len + 128
            <= u32::MAX
    &&& r.meta is Some && r.meta->Some_0.locations.len() > 0 ==> r.meta->Some_0.locations[0].len
        + 128 <= u32::MAX
}

impl<C: Crypto> Engine<C> {
    /// Fragment `f` of record `m` is sealed anew.
    pub open spec fn reseals_frag(&self, plan: SealPlan, m: RecordModel, f: int) -> bool {
        &&& m.stream().locations[f] != hole()
        &&& match plan.target {
            None => true,
            Some(s) => self.suite(m, f) != s,
        }
    }

    pub open spec fn next_suite(&self, plan: SealPlan, m: RecordModel, f: int) -> u8 {
        match plan.target {
            None => self.suite(m, f),
            Some(s) => s,
        }
    }

    /// What is sealed: the plaintext as it is, or, under a new suite, cut to its
    /// logical length and padded to the suite's minimum.
    pub open spec fn next_plain(&self, plan: SealPlan, m: RecordModel, f: int) -> Seq<u8> {
        let p = self.frag(m, f)->Ok_0;
        match plan.target {
            None => p,
            Some(s) => {
                let t = if f == m.stream().n() - 1 && p.len() > m.stream().last_frag_length {
                    p.take(m.stream().last_frag_length as int)
                } else {
                    p
                };
                resized(t, longer(t.len(), C::min_len(s)))
            },
        }
    }

    pub open spec fn next_ctx(plan: SealPlan, m: RecordModel, f: int) -> BlockCtx {
        BlockCtx {
            uuid: m.uuid,
            frag: f as u32,
            version: m.stream().unit_map[f],
            key_epoch: plan.epoch,
        }
    }

    pub open spec fn next_block(&self, plan: SealPlan, m: RecordModel, f: int) -> Seq<u8> {
        C::sealed(
            self.next_suite(plan, m, f),
            plan.key,
            Self::next_ctx(plan, m, f),
            self.next_plain(plan, m, f),
        )
    }

    /// How many of the first `f` fragments are sealed anew.
    pub open spec fn reseal_count(&self, plan: SealPlan, m: RecordModel, f: nat) -> nat
        decreases f,
    {
        if f == 0 {
            0
        } else {
            let c = self.reseal_count(plan, m, (f - 1) as nat);
            if self.reseals_frag(plan, m, f - 1) {
                c + 1
            } else {
                c
            }
        }
    }

    /// The first of the first `n` fragments that had to be read and could not be.
    pub open spec fn reseal_error(&self, plan: SealPlan, m: RecordModel, n: nat) -> Option<Error>
        decreases n,
    {
        if n == 0 {
            None
        } else {
            match self.reseal_error(plan, m, (n - 1) as nat) {
                Some(e) => Some(e),
                None => if self.reseals_frag(plan, m, n - 1) && self.frag(m, n - 1) is Err {
                    Some(self.frag(m, n - 1)->Err_0)
                } else {
                    None
                },
            }
        }
    }

    /// Where fragment `f` lies afterwards.
    pub open spec fn next_loc(&self, plan: SealPlan, m: RecordModel, f: int) -> BlockLoc {
        if self.reseals_frag(plan, m, f) {
            BlockLoc {
                addr: (self.slots().len() + self.reseal_count(plan, m, f as nat) + 1) as u64,
                len: self.next_block(plan, m, f).len() as u32,
            }
        } else {
            m.stream().locations[f]
        }
    }

    pub open spec fn next_locs(&self, plan: SealPlan, m: RecordModel) -> Seq<BlockLoc> {
        Seq::new(m.stream().locations.len(), |f: int| self.next_loc(plan, m, f))
    }

    /// The new blocks of the first `n` fragments of `m` are stored behind the
    /// slots that there were.
    pub open spec fn blocks_resealed(
        o: &Self,
        slots: Seq<Seq<u8>>,
        plan: SealPlan,
        m: RecordModel,
        n: nat,
    ) -> bool {
        &&& slots.len() == o.slots().len() + o.reseal_count(plan, m, n)
        &&& slots.len() <= u64::MAX
        &&& slots.take(o.slots().len() as int) == o.slots()
        &&& forall|f: int|
            #![trigger o.next_loc(plan, m, f)]
            0 <= f < n && o.reseals_frag(plan, m, f) ==> {
                &&& stored_at(slots, o.next_loc(plan, m, f)) == Some(o.next_block(plan, m, f))
                &&& o.slots().len() < o.next_loc(plan, m, f).addr <= slots.len()
                &&& C::opened(
                    o.next_suite(plan, m, f),
                    plan.key,
                    Self::next_ctx(plan, m, f),
                    o.next_block(plan, m, f),
                ) == Some(o.next_plain(plan, m, f))
                &&& C::known(o.next_suite(plan, m, f))
            }
    }

    proof fn lemma_reseal_error(&self, plan: SealPlan, m: RecordModel, i: nat, n: nat)
        requires
            i <= n,
            self.reseal_error(plan, m, i) is Some,
        ensures
            self.reseal_error(plan, m, n) == self.reseal_error(plan, m, i),
        decreases n,
    {
        if i < n {
            self.lemma_reseal_error(plan, m, i, (n - 1) as nat);
        }
    }

    pub proof fn lemma_reseal_count(&self, plan: SealPlan, m: RecordModel, i: nat, n: nat)
        requires
            i <= n,
        ensures
            self.reseal_count(plan, m, i) <= self.reseal_count(plan, m, n),
            self.reseal_count(plan, m, n) <= self.reseal_count(plan, m, i) + (n - i),
        decreases n,
    {
        if i < n {
            self.lemma_reseal_count(plan, m, i, (n - 1) as nat);
        }
    }

    /// Opens a fragment and seals it anew.
    fn reseal_fragment(&self, rec: &UnitRecord, sm: &StreamMeta, f: usize, plan: &SealPlan) -> (r:
        Result<Vec<u8>, Error>)
        requires
            rec@.content == Some(sm@),
            f < sm@.n(),
            sm@.locations.len() == sm@.unit_map.len(),
            record_fits(rec@),
            plan.target is Some ==> C::known(plan.target->Some_0),
        ensures
            match self.frag(rec@, f as int) {
                Err(e) => r == Err::<Vec<u8>, Error>(e),
                Ok(_) => {
                    &&& r is Ok
                    &&& r->Ok_0@ == self.next_block(*plan, rec@, f as int)
                    &&& r->Ok_0@.len() <= u32::MAX
                    &&& C::known(self.next_suite(*plan, rec@, f as int))
                    &&& C::opened(
                        self.next_suite(*plan, rec@, f as int),
                        plan.key,
                        Self::next_ctx(*plan, rec@, f as int),
                        r->Ok_0@,
                    ) == Some(self.next_plain(*plan, rec@, f as int))
                },
            },
    {
        let own: u8 = self.content_frag_suite_id(rec, f);
        let mut plain: Vec<u8> = match self.read_frag_of(rec, sm, f) {
            Err(e) => {
                return Err(e);
            },
            Ok(p) => p,
        };
        let ghost p0 = plain@;
        let ctx: BlockCtx = BlockCtx {
            uuid: rec.uuid,
            frag: f as u32,
            version: sm.unit_map[f],
            key_epoch: plan.epoch,
        };
        proof {
            let loc = sm@.locations[f as int];
            assert(loc.len + 128 <= u32::MAX);
            C::lemma_opened_len(
                own,
                self.root_key,
                BlockCtx {
                    uuid: rec.uuid,
                    frag: f as u32,
                    version: sm.unit_map[f as int],
                    key_epoch: self.header.key_epoch,
                },
                stored_at(self.slots(), loc)->Some_0,
            );
        }
        let suite: u8 = match plan.target {
            None => own,
            Some(s) => {
                let last: usize = sm.last_frag_length as usize;
                if f == sm.unit_map.len() - 1 && plain.len() > last {
                    plain.truncate(last);
                }
                let min: usize = C::min_plaintext_len(s);
                let ghost cut = plain@;
                if plain.len() < min {
                    let gap: usize = min - plain.len();
                    push_zeros(&mut plain, gap);
                }
                proof {
                    assert(plain@ =~= resized(cut, longer(cut.len(), C::min_len(s))));
                }
                s
            },
        };
        proof {
            assert(plain@ == self.next_plain(*plan, rec@, f as int));
            C::lemma_seal_len(suite, plan.key, ctx, plain@);
            C::lemma_open_of_seal(suite, plan.key, ctx, plain@);
        }
        Ok(C::seal(suite, &plan.key, &ctx, plain.as_slice()))
    }

    /// Seals the content of a record anew, into fresh slots, and gives the new
    /// locations.
    pub fn reseal_blocks(&mut self, rec: &UnitRecord, sm: &StreamMeta, plan: &SealPlan) -> (r: Result<
        Vec<BlockLoc>,
        Error,
    >)
        requires
            old(self).inv(),
            rec@.content == Some(sm@),
            sm@.locations.len() == sm@.unit_map.len(),
            record_fits(rec@),
            plan.target is Some ==> C::known(plan.target->Some_0),
        ensures
            final(self).inv(),
            old(self).recoverable() ==> final(self).recoverable(),
            *final(self) == (Engine {
                disk: (Container { blocks: final(self).disk.blocks, ..old(self).disk }),
                ..*old(self)
            }),
            match old(self).reseal_error(*plan, rec@, sm@.n()) {
                Some(e) => r == Err::<Vec<BlockLoc>, Error>(e),
                None => {
                    &&& r is Ok
                    &&& r->Ok_0@ == old(self).next_locs(*plan, rec@)
                    &&& Self::blocks_resealed(
                        old(self),
                        final(self).slots(),
                        *plan,
                        rec@,
                        sm@.n(),
                    )
                },
            },
            old(self).slots().len() <= final(self).slots().len(),
            final(self).slots().take(old(self).slots().len() as int) == old(self).slots(),
            old(self).reseal_count(*plan, rec@, sm@.n()) == 0 && r is Ok ==> *final(self) == *old(
                self,
            ),
    {
        let ghost o = *self;
        let ghost m = rec@;
        let ghost lo = o.slots().len() as int;
        let n: usize = sm.unit_map.len();
        let mut out: Vec<BlockLoc> = Vec::new();
        let mut f: usize = 0;
        let slots: usize = self.disk.blocks.len();
        proof {
            assert(self.slots().take(lo) =~= o.slots());
        }
        while f < n
            invariant
                o == *old(self),
                m == rec@,
                m.content == Some(sm@),
                sm@.locations.len() == sm@.unit_map.len(),
                record_fits(m),
                plan.target is Some ==> C::known(plan.target->Some_0),
                lo == o.slots().len(),
                n == sm@.n(),
                f <= n,
                slots == lo,
                self.inv(),
                o.recoverable() ==> self.recoverable(),
                *self == (Engine {
                    disk: (Container { blocks: self.disk.blocks, ..o.disk }),
                    ..o
                }),
                o.reseal_error(*plan, m, f as nat) is None,
                o.reseal_count(*plan, m, f as nat) == 0 ==> *self == o,
                out@.len() == f,
                forall|g: int| 0 <= g < f ==> #[trigger] out@[g] == o.next_loc(*plan, m, g),
                Self::blocks_resealed(&o, self.slots(), *plan, m, f as nat),
            decreases n - f,
        {
            let ghost gf = f as int;
            let loc: BlockLoc = sm.locations[f];
            let own: u8 = self.content_frag_suite_id(rec, f);
            let again: bool = !is_hole(loc) && match plan.target {
                None => true,
                Some(s) => own != s,
            };
            proof {
                assert(again == o.reseals_frag(*plan, m, gf));
                if o.reseal_error(*plan, m, (f + 1) as nat) is Some {
                    o.lemma_reseal_error(*plan, m, (f + 1) as nat, n as nat);
                }
                if loc.addr <= slots {
                    o.lemma_frag_more_slots(&*self, m, gf);
                }
            }
            if again && loc.addr > slots as u64 {
                if !C::is_known(own) {
                    return Err(Error::Crypto);
                }
                return Err(Error::Integrity);
            }
            if again {
                let ghost before = self.slots();
                let block: Vec<u8> = match self.reseal_fragment(rec, sm, f, plan) {
                    Err(e) => {
                        return Err(e);
                    },
                    Ok(b) => b,
                };
                let ghost bytes = block@;
                proof {
                    assert(self.next_plain(*plan, m, gf) == o.next_plain(*plan, m, gf));
                    assert(bytes == o.next_block(*plan, m, gf));
                }
                let new_loc: BlockLoc = self.place_content_fragment(block);
                let total: usize = self.disk.blocks.len();
                out.push(new_loc);
                proof {
                    assert(self.slots() == before.push(bytes));
                    assert(self.slots().take(lo) =~= o.slots());
                    assert(new_loc == o.next_loc(*plan, m, gf));
                    assert forall|g: int|
                        #![trigger o.next_loc(*plan, m, g)]
                        0 <= g < gf + 1 && o.reseals_frag(*plan, m, g) implies {
                        &&& stored_at(self.slots(), o.next_loc(*plan, m, g)) == Some(
                            o.next_block(*plan, m, g),
                        )
                        &&& lo < o.next_loc(*plan, m, g).addr <= self.slots().len()
                        &&& C::opened(
                            o.next_suite(*plan, m, g),
                            plan.key,
                            Self::next_ctx(*plan, m, g),
                            o.next_block(*plan, m, g),
                        ) == Some(o.next_plain(*plan, m, g))
                        &&& C::known(o.next_suite(*plan, m, g))
                    } by {
                        if g < gf {
                            let l = o.next_loc(*plan, m, g);
                            assert(stored_at(before, l) is Some);
                            assert(self.slots()[l.addr - 1] == before[l.addr - 1]);
                        }
                    }
                }
            } else {
                out.push(loc);
            }
            f = f + 1;
        }
        proof {
            assert(out@ =~= o.next_locs(*plan, m));
        }
        Ok(out)
    }

    /// Slots added behind change nothing for a fragment.
    pub proof fn lemma_frag_more_slots(&self, e: &Self, m: RecordModel, f: int)
        requires
            e.header == self.header,
            e.root_key == self.root_key,
            self.slots().len() <= e.slots().len(),
            e.slots().take(self.slots().len() as int) == self.slots(),
            0 <= f < m.stream().locations.len(),
            m.stream().locations[f].addr <= self.slots().len(),
        ensures
            e.frag(m, f) == self.frag(m, f),
            e.suite(m, f) == self.suite(m, f),
    {
        let a = m.stream().locations[f].addr;
        if a != 0 {
            assert(e.slots().take(self.slots().len() as int)[a - 1] == e.slots()[a - 1]);
        }
        assert(stored_at(e.slots(), m.stream().locations[f]) == stored_at(
            self.slots(),
            m.stream().locations[f],
        ));
    }
}


/// The units that ascending identities name.
pub open spec fn units_of(pairs: Seq<(Seq<u8>, u64)>) -> Seq<Uuid> {
    Seq::new(pairs.len(), |i: int| array16(pairs[i].0))
}

impl<C: Crypto> Engine<C> {
    /// The plan for sealing content under another suite.
    pub open spec fn suite_plan(&self, suite: u8) -> SealPlan {
        SealPlan { target: Some(suite), key: self.root_key, epoch: self.header.key_epoch }
    }

    /// Head `m` after its content was sealed under another suite.
    pub open spec fn recipher_record(&self, plan: SealPlan, m: RecordModel) -> RecordModel {
        RecordModel {
            content: Some(StreamModel { locations: self.next_locs(plan, m), ..m.stream() }),
            content_suite: plan.target,
            frag_suites: Seq::empty(),
            superseded: Seq::empty(),
            ..m
        }
    }

    /// Why a unit's content cannot be sealed anew.
    pub open spec fn unit_error(&self, plan: SealPlan, uuid: Uuid) -> Option<Error> {
        match self.known_head(uuid) {
            Err(e) => Some(e),
            Ok(None) => None,
            Ok(Some((_, m))) => if m.content is Some {
                self.reseal_error(plan, m, m.stream().n())
            } else {
                None
            },
        }
    }

    /// Some fragment of the unit has to be sealed anew.
    pub open spec fn unit_reseals(&self, plan: SealPlan, uuid: Uuid) -> bool {
        match self.known_head(uuid) {
            Ok(Some((_, m))) => m.content is Some && self.reseal_count(plan, m, m.stream().n()) > 0,
            _ => false,
        }
    }

    /// The content of unit `uuid` was sealed under another suite where it was
    /// not.
    pub open spec fn recipher_step(a: &Self, b: &Self, plan: SealPlan, uuid: Uuid) -> bool {
        &&& a.unit_error(plan, uuid) is None
        &&& if a.unit_reseals(plan, uuid) {
            let m = a.known_head(uuid)->Ok_0->Some_0.1;
            &&& b.recs() == a.recs().push(a.recipher_record(plan, m))
            &&& b.recs().len() <= u64::MAX
            &&& b.ids@ == a.ids@.insert(uuid@, b.recs().len() as u64)
            &&& Self::blocks_resealed(a, b.slots(), plan, m, m.stream().n())
            &&& *b == (Engine {
                disk: (Container { records: b.disk.records, blocks: b.disk.blocks, ..a.disk }),
                ids: b.ids,
                ..*a
            })
        } else {
            *b == *a
        }
    }

    /// The fragments of `m` among the first `n` that are sealed anew.
    pub open spec fn refreshed(&self, plan: SealPlan, m: RecordModel, n: nat) -> Seq<
        (Uuid, u32, u64),
    >
        decreases n,
    {
        if n == 0 {
            Seq::empty()
        } else {
            let p = self.refreshed(plan, m, (n - 1) as nat);
            if self.reseals_frag(plan, m, n - 1) {
                p.push((m.uuid, (n - 1) as u32, m.stream().unit_map[n - 1]))
            } else {
                p
            }
        }
    }

    pub open spec fn unit_refreshed(&self, plan: SealPlan, uuid: Uuid) -> Seq<(Uuid, u32, u64)> {
        match self.known_head(uuid) {
            Ok(Some((_, m))) => if m.content is Some {
                self.refreshed(plan, m, m.stream().n())
            } else {
                Seq::empty()
            },
            _ => Seq::empty(),
        }
    }

    fn list_refreshed(&self, rec: &UnitRecord, sm: &StreamMeta, suite: u8, out: &mut Vec<
        (Uuid, u32, u64),
    >)
        requires
            rec@.content == Some(sm@),
            sm@.locations.len() == sm@.unit_map.len(),
            sm@.n() <= u32::MAX,
        ensures
            final(out)@ == old(out)@ + self.refreshed(self.suite_plan(suite), rec@, sm@.n()),
    {
        let ghost plan = self.suite_plan(suite);
        let n: usize = sm.unit_map.len();
        let mut f: usize = 0;
        proof {
            assert(out@ =~= old(out)@ + self.refreshed(plan, rec@, 0));
        }
        while f < n
            invariant
                plan == self.suite_plan(suite),
                rec@.content == Some(sm@),
                sm@.locations.len() == sm@.unit_map.len(),
                sm@.n() <= u32::MAX,
                n == sm@.n(),
                f <= n,
                out@ == old(out)@ + self.refreshed(plan, rec@, f as nat),
            decreases n - f,
        {
            if !is_hole(sm.locations[f]) && self.content_frag_suite_id(rec, f) != suite {
                out.push((rec.uuid, f as u32, sm.unit_map[f]));
            }
            proof {
                assert(out@ =~= old(out)@ + self.refreshed(plan, rec@, (f + 1) as nat));
            }
            f = f + 1;
        }
    }

    /// Seals the content of a unit under another suite.
    pub fn recipher_unit(&mut self, uuid: &Uuid, suite: u8, out: &mut Vec<(Uuid, u32, u64)>) -> (r:
        Result<(), Error>)
        requires
            old(self).inv(),
            C::known(suite),
            old(self).ids@.contains_key(uuid@),
            record_fits(old(self).head_of(uuid@)),
        ensures
            final(self).inv(),
            old(self).recoverable() ==> final(self).recoverable(),
            match old(self).unit_error(old(self).suite_plan(suite), *uuid) {
                Some(e) => {
                    &&& r == Err::<(), Error>(e)
                    &&& *final(self) == (Engine {
                        disk: (Container { blocks: final(self).disk.blocks, ..old(self).disk }),
                        ..*old(self)
                    })
                },
                None => {
                    &&& r is Ok
                    &&& Self::recipher_step(
                        old(self),
                        final(self),
                        old(self).suite_plan(suite),
                        *uuid,
                    )
                    &&& final(out)@ == old(out)@ + old(self).unit_refreshed(
                        old(self).suite_plan(suite),
                        *uuid,
                    )
                },
            },
    {
        let ghost o = *self;
        let ghost lo = o.slots().len();
        let ghost plan = o.suite_plan(suite);
        let (addr, rec): (u64, UnitRecord) = match self.find_known(uuid) {
            Err(e) => {
                return Err(e);
            },
            Ok(None) => {
                return Ok(());
            },
            Ok(Some(x)) => x,
        };
        let ghost m = rec@;
        let sm: &StreamMeta = match &rec.content {
            None => {
                proof {
                    assert(out@ =~= old(out)@ + Seq::<(Uuid, u32, u64)>::empty());
                }
                return Ok(());
            },
            Some(sm) => sm,
        };
        let want: SealPlan = SealPlan {
            target: Some(suite),
            key: self.root_key,
            epoch: self.header.key_epoch,
        };
        proof {
            assert(want == plan);
        }
        let before: usize = self.disk.blocks.len();
        let locs: Vec<BlockLoc> = match self.reseal_blocks(&rec, sm, &want) {
            Err(e) => {
                return Err(e);
            },
            Ok(l) => l,
        };
        let after: usize = self.disk.blocks.len();
        proof {
            self.lemma_refreshed_same(&o, plan, m, sm@.n());
            assert(self.suite_plan(suite) == plan);
        }
        self.list_refreshed(&rec, sm, suite, out);
        if after == before {
            return Ok(());
        }
        let mut new_sm: StreamMeta = sm.clone();
        new_sm.locations = locs;
        let mut next: UnitRecord = rec.clone();
        next.content = Some(new_sm);
        next.content_suite = Some(suite);
        next.frag_suites = Vec::new();
        next.superseded = Vec::new();
        let ghost mid = *self;
        proof {
            let r1 = next@;
            assert(r1.content->Some_0 =~= o.recipher_record(plan, m).content->Some_0);
            assert(r1.frag_suites =~= Seq::<u8>::empty());
            assert(r1.superseded =~= Seq::<u64>::empty());
            assert(r1 =~= o.recipher_record(plan, m));
            assert(payload_of(r1) == payload_of(m));
            Self::lemma_reseal_places(&o, &mid, plan, m, r1);
            assert forall|a: u64| #[trigger] mid.dirty@.contains(a) implies a <= lo by {
                assert(in_heap(o.slots(), a));
            }
            assert(record_ok(r1, mid.recs().len() as int));
        }
        match self.install_head(next, RecordSignIntent::Preserve, Ghost(lo)) {
            Err(e) => Err(e),
            Ok(_) => Ok(()),
        }
    }

    proof fn lemma_refreshed_same(&self, o: &Self, plan: SealPlan, m: RecordModel, n: nat)
        requires
            self.header == o.header,
        ensures
            self.refreshed(plan, m, n) == o.refreshed(plan, m, n),
        decreases n,
    {
        if n > 0 {
            self.lemma_refreshed_same(o, plan, m, (n - 1) as nat);
        }
    }

    /// The places of content that was sealed anew: kept, or fresh.
    pub proof fn lemma_reseal_places(
        o: &Self,
        e: &Self,
        plan: SealPlan,
        m: RecordModel,
        r1: RecordModel,
    )
        requires
            o.inv(),
            o.ids@.contains_key(m.uuid@),
            o.head_of(m.uuid@) == m,
            m.content is Some,
            r1.content is Some,
            r1.stream().locations == o.next_locs(plan, m),
            r1.meta == m.meta || r1.meta is Some && r1.meta->Some_0.locations.len() == 1
                && r1.meta->Some_0.locations[0].addr == o.slots().len() + o.reseal_count(
                plan,
                m,
                m.stream().n(),
            ) + 1 && r1.meta->Some_0.locations[0].addr <= e.slots().len(),
            m.stream().locations.len() == m.stream().n(),
            o.slots().len() + o.reseal_count(plan, m, m.stream().n()) <= e.slots().len(),
            e.slots().len() <= u64::MAX,
        ensures
            places_step(o.ids@, o.recs(), m.uuid@, r1, o.slots().len(), e.slots().len()),
    {
        let lo = o.slots().len();
        let k = m.uuid@;
        let n = m.stream().n();
        let total = o.reseal_count(plan, m, n);
        assert forall|p: int| 0 <= p < n implies {
            let a = #[trigger] place(r1, p);
            if o.reseals_frag(plan, m, p) {
                a == lo + o.reseal_count(plan, m, p as nat) + 1 && a <= lo + total
            } else {
                a == live(o.ids@, o.recs(), k, p)
            }
        } by {
            assert(r1.stream().locations[p] == o.next_loc(plan, m, p));
            o.lemma_reseal_count(plan, m, (p + 1) as nat, n);
        }
        assert forall|p: int| #[trigger]
            place(r1, p) == 0 || place(r1, p) == live(o.ids@, o.recs(), k, p) || lo < place(r1, p)
                <= e.slots().len() by {}
        assert forall|p: int, q: int|
            #![trigger place(r1, p), place(r1, q)]
            place(r1, p) > lo && place(r1, p) == place(r1, q) implies p == q by {
            assert(live(o.ids@, o.recs(), k, p) <= lo);
            assert(live(o.ids@, o.recs(), k, q) <= lo);
            if 0 <= p < q {
                o.lemma_reseal_count(plan, m, (p + 1) as nat, q as nat);
            } else if 0 <= q < p {
                o.lemma_reseal_count(plan, m, (q + 1) as nat, p as nat);
            }
        }
    }
}

} // verus!
