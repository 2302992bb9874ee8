//! Sealed blocks on their way between replicas.
use vstd::prelude::*;

use crate::bytes::copy_range;
use crate::content::stored_at;
use crate::crypto::Crypto;
use crate::engine::{
    live, live_ok, place, places_step, record_ok, signed_record, Engine, RecordSignIntent,
};
use crate::error::Error;
use crate::heap::in_heap;
use crate::history::{in_tail, resolved, PersistenceStore};
use crate::merge::{version_at, version_or_none};
use crate::resize::{lemma_suites_form, suites_form};
use crate::unit::{
    grow_stream, grown, hole, is_hole, payload_of, BlockLoc, RecordModel, StreamMeta, StreamModel,
    UnitRecord, Uuid,
};

verus! {

/// A lookup that found exactly the version asked for, stored here.
pub open spec fn exact_hit(
    r: Option<(BlockLoc, u64, Option<u8>)>,
    version: u64,
) -> Option<(BlockLoc, Option<u8>)> {
    match r {
        Some((loc, v, s)) => if v == version && loc != hole() {
            Some((loc, s))
        } else {
            None
        },
        None => None,
    }
}

fn exact(r: Option<(BlockLoc, u64, Option<u8>)>, version: u64) -> (h: Option<(BlockLoc, Option<u8>)>)
    ensures
        h == exact_hit(r, version),
{
    match r {
        Some((loc, v, s)) => if v == version && !is_hole(loc) {
            Some((loc, s))
        } else {
            None
        },
        None => None,
    }
}

/// A stream with a block put in place for fragment `f`.
pub open spec fn stream_with_block(
    sm: StreamModel,
    f: int,
    version: u64,
    loc: BlockLoc,
    frag_len: u32,
) -> StreamModel {
    let g = grown(sm, (f + 1) as nat);
    StreamModel {
        unit_map: g.unit_map.update(f, version),
        locations: g.locations.update(f, loc),
        last_frag_length: if f == g.n() - 1 {
            frag_len
        } else {
            g.last_frag_length
        },
        ..g
    }
}

impl<C: Crypto> Engine<C> {
    /// The bytes of a version of fragment `f` that the chain of record `m` places
    /// at `loc`: those of the block in place while the record still names the
    /// version, else those that the tail keeps of it. A version that is in neither
    /// is where it was put, unless a later one was written over it there.
    pub open spec fn kept_block(
        &self,
        m: RecordModel,
        f: int,
        version: u64,
        loc: BlockLoc,
    ) -> Result<Option<Seq<u8>>, Error> {
        let sm = m.stream();
        let named = f < sm.n() && sm.locations[f] != hole() && sm.unit_map[f] == version;
        let at = if named {
            sm.locations[f]
        } else {
            loc
        };
        if !named && in_tail(self.tail(), m.uuid, f, version) is Some {
            Ok(in_tail(self.tail(), m.uuid, f, version))
        } else if !named && f < sm.n() && sm.locations[f] == loc {
            Ok(None)
        } else {
            match stored_at(self.slots(), at) {
                None => Err(Error::Integrity),
                Some(b) => Ok(Some(b)),
            }
        }
    }

    /// A version of a fragment in the chain that starts at `addr`: its bytes, and
    /// the suite that was noted for it.
    pub open spec fn find_block(&self, addr: u64, f: int, version: u64) -> Result<
        Option<(Seq<u8>, Option<u8>)>,
        Error,
    > {
        match resolved::<C>(self.recs(), self.trust(), addr, f, version) {
            Err(e) => Err(e),
            Ok(r) => match exact_hit(r, version) {
                None => Ok(None),
                Some((loc, suite)) => match self.record(addr) {
                    Err(e) => Err(e),
                    Ok(m) => match self.kept_block(m, f, version, loc) {
                        Err(e) => Err(e),
                        Ok(None) => Ok(None),
                        Ok(Some(b)) => Ok(Some((b, suite))),
                    },
                },
            },
        }
    }

    /// The first strain, from the `i`th on, whose chain has the block.
    pub open spec fn find_in_strains(&self, strains: Seq<u64>, i: nat, f: int, version: u64) -> Result<
        Option<(Seq<u8>, Option<u8>)>,
        Error,
    >
        decreases strains.len() - i,
    {
        if i >= strains.len() {
            Ok(None)
        } else {
            match self.find_block(strains[i as int], f, version) {
                Err(e) => Err(e),
                Ok(Some(h)) => Ok(Some(h)),
                Ok(None) => self.find_in_strains(strains, i + 1, f, version),
            }
        }
    }

    /// A version of a fragment: of the chain of the head, or else of one of its
    /// strains.
    pub open spec fn block_of(&self, uuid: Uuid, f: int, version: u64) -> Result<
        (Seq<u8>, Option<u8>),
        Error,
    > {
        if !self.ids@.contains_key(uuid@) {
            Err(Error::NotFound)
        } else {
            match self.find_block(self.ids@[uuid@], f, version) {
                Err(e) => Err(e),
                Ok(Some(h)) => Ok(h),
                Ok(None) => match self.record(self.ids@[uuid@]) {
                    Err(e) => Err(e),
                    Ok(m) => match self.find_in_strains(m.strains, 0, f, version) {
                        Err(e) => Err(e),
                        Ok(Some(h)) => Ok(h),
                        Ok(None) => Err(Error::NotFound),
                    },
                },
            }
        }
    }

    fn fetch(&self, loc: BlockLoc) -> (r: Result<Option<Vec<u8>>, Error>)
        requires
            self.inv(),
        ensures
            match stored_at(self.slots(), loc) {
                None => r == Err::<Option<Vec<u8>>, Error>(Error::Integrity),
                Some(b) => r is Ok && r->Ok_0 is Some && r->Ok_0->Some_0@ == b,
            },
    {
        let bytes: Vec<u8> = match self.disk.blocks.get(loc.addr) {
            None => {
                return Err(Error::Integrity);
            },
            Some(b) => b,
        };
        if bytes.len() as u64 != loc.len as u64 {
            return Err(Error::Integrity);
        }
        Ok(Some(bytes))
    }

    fn take_block(&self, rec: &UnitRecord, frag: u32, version: u64, loc: BlockLoc) -> (r: Result<
        Option<Vec<u8>>,
        Error,
    >)
        requires
            self.inv(),
            rec@.stream().unit_map.len() == rec@.stream().locations.len(),
        ensures
            match self.kept_block(rec@, frag as int, version, loc) {
                Err(e) => r == Err::<Option<Vec<u8>>, Error>(e),
                Ok(None) => r == Ok::<Option<Vec<u8>>, Error>(None),
                Ok(Some(b)) => r is Ok && r->Ok_0 is Some && r->Ok_0->Some_0@ == b,
            },
    {
        let f: usize = frag as usize;
        let here: Option<(BlockLoc, u64)> = match &rec.content {
            None => None,
            Some(s) => if f < s.unit_map.len() {
                Some((s.locations[f], s.unit_map[f]))
            } else {
                None
            },
        };
        if let Some((at, v)) = here {
            if !is_hole(at) && v == version {
                return self.fetch(at);
            }
        }
        if let Some(b) = self.find_in_tail(&rec.uuid, frag, version) {
            return Ok(Some(b));
        }
        if let Some((at, v)) = here {
            if at.addr == loc.addr && at.len == loc.len {
                return Ok(None);
            }
        }
        self.fetch(loc)
    }

    fn look_up(&self, addr: u64, frag: u32, version: u64) -> (r: Result<
        Option<(Vec<u8>, Option<u8>)>,
        Error,
    >)
        requires
            self.inv(),
        ensures
            match self.find_block(addr, frag as int, version) {
                Err(e) => r == Err::<Option<(Vec<u8>, Option<u8>)>, Error>(e),
                Ok(None) => r == Ok::<Option<(Vec<u8>, Option<u8>)>, Error>(None),
                Ok(Some((b, s))) => r is Ok && r->Ok_0 is Some && r->Ok_0->Some_0.0@ == b
                    && r->Ok_0->Some_0.1 == s,
            },
    {
        let hit: Option<(BlockLoc, Option<u8>)> = match PersistenceStore::resolve_with_version::<C>(
            &self.disk.records,
            addr,
            frag,
            version,
            self.header.sign_mode,
            &self.header.writer_pubkey,
            &self.writer_set,
        ) {
            Err(e) => {
                return Err(e);
            },
            Ok(r) => exact(r, version),
        };
        match hit {
            None => Ok(None),
            Some((loc, suite)) => {
                let rec: UnitRecord = match self.read_record_at(addr) {
                    Err(e) => {
                        return Err(e);
                    },
                    Ok(rec) => rec,
                };
                match self.take_block(&rec, frag, version, loc) {
                    Err(e) => Err(e),
                    Ok(None) => Ok(None),
                    Ok(Some(b)) => Ok(Some((b, suite))),
                }
            },
        }
    }

    fn look_up_strains(&self, strains: &Vec<u64>, frag: u32, version: u64) -> (r: Result<
        Option<(Vec<u8>, Option<u8>)>,
        Error,
    >)
        requires
            self.inv(),
        ensures
            match self.find_in_strains(strains@, 0, frag as int, version) {
                Err(e) => r == Err::<Option<(Vec<u8>, Option<u8>)>, Error>(e),
                Ok(None) => r == Ok::<Option<(Vec<u8>, Option<u8>)>, Error>(None),
                Ok(Some((b, s))) => r is Ok && r->Ok_0 is Some && r->Ok_0->Some_0.0@ == b
                    && r->Ok_0->Some_0.1 == s,
            },
    {
        let n: usize = strains.len();
        let mut i: usize = 0;
        while i < n
            invariant
                self.inv(),
                n == strains@.len(),
                i <= n,
                self.find_in_strains(strains@, 0, frag as int, version) == self.find_in_strains(
                    strains@,
                    i as nat,
                    frag as int,
                    version,
                ),
            decreases n - i,
        {
            match self.look_up(strains[i], frag, version) {
                Err(e) => {
                    return Err(e);
                },
                Ok(Some(h)) => {
                    return Ok(Some(h));
                },
                Ok(None) => {},
            }
            i = i + 1;
        }
        Ok(None)
    }

    /// The sealed bytes of a version of a fragment, and the suite that they are
    /// sealed under.
    pub fn export_block(&self, uuid: Uuid, frag: u32, version: u64) -> (r: Result<
        (Vec<u8>, u8),
        Error,
    >)
        requires
            self.inv(),
        ensures
            match self.block_of(uuid, frag as int, version) {
                Err(e) => r == Err::<(Vec<u8>, u8), Error>(e),
                Ok((b, suite)) => {
                    &&& r is Ok
                    &&& r->Ok_0.0@ == b
                    &&& r->Ok_0.1 == match suite {
                        Some(s) => s,
                        None => self.header.cipher,
                    }
                },
            },
    {
        let addr: u64 = match self.ids.get(uuid.as_slice()) {
            None => {
                return Err(Error::NotFound);
            },
            Some(a) => a,
        };
        let mut hit: Option<(Vec<u8>, Option<u8>)> = match self.look_up(addr, frag, version) {
            Err(e) => {
                return Err(e);
            },
            Ok(h) => h,
        };
        if hit.is_none() {
            let rec: UnitRecord = match self.read_record_at(addr) {
                Err(e) => {
                    return Err(e);
                },
                Ok(rec) => rec,
            };
            hit = match self.look_up_strains(&rec.concurrent_strains, frag, version) {
                Err(e) => {
                    return Err(e);
                },
                Ok(h) => h,
            };
        }
        match hit {
            None => Err(Error::NotFound),
            Some((bytes, suite)) => {
                let s: u8 = match suite {
                    Some(s) => s,
                    None => self.header.cipher,
                };
                Ok((bytes, s))
            },
        }
    }

    // ── Importing ───────────────────────────────────────────────────────────

    /// Record `m` with a block put in place for fragment `f`.
    pub open spec fn with_block(
        &self,
        m: RecordModel,
        f: int,
        version: u64,
        loc: BlockLoc,
        frag_len: u32,
        suite: u8,
    ) -> RecordModel {
        let sm = stream_with_block(m.stream(), f, version, loc, frag_len);
        let form = suites_form(self.imported_suites(m, sm.n(), f, suite), suite);
        RecordModel {
            content: Some(sm),
            content_suite: Some(form.0),
            frag_suites: form.1,
            ..m
        }
    }

    /// The head that follows head `m` at `addr`.
    pub open spec fn follow_up(m: RecordModel, addr: u64) -> RecordModel {
        RecordModel { parent: Some(addr), superseded: Seq::empty(), ..m }
    }

    /// The first strain, from the `i`th on, that is waiting for this version of
    /// fragment `f`.
    pub open spec fn waiting_strain(&self, strains: Seq<u64>, i: nat, f: int, version: u64) -> Result<
        Option<nat>,
        Error,
    >
        decreases strains.len() - i,
    {
        if i >= strains.len() {
            Ok(None)
        } else {
            match self.record(strains[i as int]) {
                Err(e) => Err(e),
                Ok(m) => if version_at(m.stream().unit_map, f) == version {
                    Ok(Some(i))
                } else {
                    self.waiting_strain(strains, i + 1, f, version)
                },
            }
        }
    }

    fn place_block(
        &self,
        rec: &UnitRecord,
        frag: u32,
        version: u64,
        loc: BlockLoc,
        frag_len: u32,
        suite: u8,
    ) -> (r: UnitRecord)
        requires
            frag < usize::MAX,
            rec@.stream().locations.len() == rec@.stream().unit_map.len(),
        ensures
            r@ == self.with_block(rec@, frag as int, version, loc, frag_len, suite),
    {
        let f: usize = frag as usize;
        let mut sm: StreamMeta = rec.content_or_empty();
        grow_stream(&mut sm, f + 1);
        let ghost g = sm@;
        sm.unit_map.set(f, version);
        sm.locations.set(f, loc);
        let n: usize = sm.unit_map.len();
        if f == n - 1 {
            sm.last_frag_length = frag_len;
        }
        proof {
            assert(sm@ =~= stream_with_block(
                rec@.stream(),
                frag as int,
                version,
                loc,
                frag_len,
            ));
        }
        let (cs, frag_suites): (u8, Vec<u8>) = self.import_frag_suites(rec, n, f, suite);
        let mut out: UnitRecord = rec.clone();
        out.content = Some(sm);
        out.content_suite = Some(cs);
        out.frag_suites = frag_suites;
        out
    }

    fn find_waiting(&self, strains: &Vec<u64>, frag: u32, version: u64) -> (r: Result<
        Option<usize>,
        Error,
    >)
        ensures
            match self.waiting_strain(strains@, 0, frag as int, version) {
                Err(e) => r == Err::<Option<usize>, Error>(e),
                Ok(None) => r == Ok::<Option<usize>, Error>(None),
                Ok(Some(i)) => r is Ok && r->Ok_0 is Some && r->Ok_0->Some_0 == i && i
                    < strains@.len() && self.record(strains@[i as int]) is Ok,
            },
    {
        let n: usize = strains.len();
        let mut i: usize = 0;
        while i < n
            invariant
                n == strains@.len(),
                i <= n,
                self.waiting_strain(strains@, 0, frag as int, version) == self.waiting_strain(
                    strains@,
                    i as nat,
                    frag as int,
                    version,
                ),
            decreases n - i,
        {
            let rec: UnitRecord = match self.read_record_at(strains[i]) {
                Err(e) => {
                    return Err(e);
                },
                Ok(rec) => rec,
            };
            let v: u64 = match &rec.content {
                None => 0,
                Some(sm) => version_or_none(&sm.unit_map, frag as usize),
            };
            if v == version {
                return Ok(Some(i));
            }
            i = i + 1;
        }
        Ok(None)
    }

    /// The records after a block was taken in, and the error where it is not.
    pub open spec fn block_records(
        &self,
        uuid: Uuid,
        frag: u32,
        version: u64,
        loc: BlockLoc,
        frag_len: u32,
        suite: u8,
    ) -> Result<Seq<RecordModel>, Error> {
        if !self.ids@.contains_key(uuid@) {
            Err(Error::NotFound)
        } else {
            let addr = self.ids@[uuid@];
            match self.record(addr) {
                Err(e) => Err(e),
                Ok(m) => {
                    let f = frag as int;
                    let wait = if version_at(m.stream().unit_map, f) == version {
                        Ok(None)
                    } else {
                        self.waiting_strain(m.strains, 0, f, version)
                    };
                    match wait {
                        Err(e) => Err(e),
                        Ok(None) => self.kept_as(
                            Self::follow_up(
                                self.with_block(m, f, version, loc, frag_len, suite),
                                addr,
                            ),
                            self.recs(),
                        ),
                        Ok(Some(i)) => {
                            let s = self.with_block(
                                self.recs()[m.strains[i as int] - 1],
                                f,
                                version,
                                loc,
                                frag_len,
                                suite,
                            );
                            match self.kept_as(s, self.recs()) {
                                Err(e) => Err(e),
                                Ok(recs) => Ok(
                                    recs.push(
                                        RecordModel {
                                            strains: m.strains.update(
                                                i as int,
                                                (self.recs().len() + 1) as u64,
                                            ),
                                            ..Self::follow_up(m, addr)
                                        },
                                    ),
                                ),
                            }
                        },
                    }
                },
            }
        }
    }

    /// The records with one more, if its signature holds.
    pub open spec fn kept_as(&self, r: RecordModel, recs: Seq<RecordModel>) -> Result<
        Seq<RecordModel>,
        Error,
    > {
        match signed_record::<C>(r, self.trust(), self.signing_key, RecordSignIntent::Preserve) {
            Err(e) => Err(e),
            Ok(_) => Ok(recs.push(r)),
        }
    }

    /// What taking in a block does.
    pub open spec fn block_imported(
        o: &Self,
        e: &Self,
        uuid: Uuid,
        frag: u32,
        version: u64,
        cipher: Seq<u8>,
        frag_len: u32,
        suite: u8,
        r: Result<(), Error>,
    ) -> bool {
        let loc = BlockLoc { addr: (o.slots().len() + 1) as u64, len: cipher.len() as u32 };
        match o.block_records(uuid, frag, version, loc, frag_len, suite) {
            Err(x) => r == Err::<(), Error>(x) && Self::nothing_installed(o, e),
            Ok(recs) => {
                &&& r is Ok
                &&& o.slots().len() < u64::MAX
                &&& e.slots() == o.slots().push(cipher)
                &&& e.recs() == recs
                &&& e.recs().len() <= u64::MAX
                &&& e.ids@ == o.ids@.insert(uuid@, e.recs().len() as u64)
                &&& e.keys@ == o.keys@
                &&& Self::same_setup(o, e)
                &&& Self::past_kept(o, e)
                &&& Self::commit_step(o, e)
            },
        }
    }

    /// Takes in the sealed bytes of a version of a fragment. They go to the head,
    /// or to the strain that is waiting for them. Vectors stay as they are: this
    /// is no write.
    pub fn import_block(
        &mut self,
        uuid: Uuid,
        frag: u32,
        version: u64,
        ciphertext: &[u8],
        frag_len: u32,
        content_suite: u8,
    ) -> (r: Result<(), Error>)
        requires
            old(self).inv(),
            old(self).header.commit_seq < u64::MAX,
            frag < usize::MAX,
            ciphertext@.len() <= u32::MAX,
        ensures
            final(self).inv(),
            old(self).recoverable() ==> final(self).recoverable(),
            Self::block_imported(
                old(self),
                final(self),
                uuid,
                frag,
                version,
                ciphertext@,
                frag_len,
                content_suite,
                r,
            ),
    {
        let ghost o = *self;
        let ghost lo = o.slots().len();
        let ghost k = uuid@;
        let addr: u64 = match self.ids.get(uuid.as_slice()) {
            None => {
                return Err(Error::NotFound);
            },
            Some(a) => a,
        };
        let copy: Vec<u8> = copy_range(ciphertext, 0, ciphertext.len());
        proof {
            assert(copy@ =~= ciphertext@);
            assert(o.ids@.contains_key(k));
            assert(record_ok(o.recs()[addr - 1], addr - 1));
            let ru = o.recs()[addr - 1].uuid;
            assert(ru@ == uuid@);
            assert(ru =~= uuid);
        }
        let loc: BlockLoc = self.place_content_fragment(copy);
        let ghost mid = *self;
        let head: UnitRecord = match self.read_record_at(addr) {
            Err(e) => {
                return Err(e);
            },
            Ok(rec) => rec,
        };
        let ghost m = head@;
        proof {
            assert forall|a: u64| #[trigger] mid.dirty@.contains(a) implies a <= lo by {
                assert(in_heap(o.slots(), a));
            }
            mid.lemma_waiting_same(&o, m.strains, 0, frag as int, version);
        }
        let own: u64 = match &head.content {
            None => 0,
            Some(sm) => version_or_none(&sm.unit_map, frag as usize),
        };
        let waiting: Option<usize> = if own == version {
            None
        } else {
            match self.find_waiting(&head.concurrent_strains, frag, version) {
                Err(e) => {
                    return Err(e);
                },
                Ok(w) => w,
            }
        };
        let mut next: UnitRecord = head.clone();
        match waiting {
            None => {
                next = self.place_block(&head, frag, version, loc, frag_len, content_suite);
                proof {
                    mid.lemma_with_block_same(&o, m, frag as int, version, loc, frag_len, content_suite);
                }
            },
            Some(i) => {
                let ghost sa = m.strains[i as int];
                proof {
                    assert(record_ok(o.recs()[sa - 1], sa - 1));
                    mid.lemma_with_block_same(
                        &o,
                        o.recs()[sa - 1],
                        frag as int,
                        version,
                        loc,
                        frag_len,
                        content_suite,
                    );
                }
                let strain: UnitRecord = match self.read_record_at(head.concurrent_strains[i]) {
                    Err(e) => {
                        return Err(e);
                    },
                    Ok(rec) => rec,
                };
                let filled: UnitRecord = self.place_block(
                    &strain,
                    frag,
                    version,
                    loc,
                    frag_len,
                    content_suite,
                );
                let new_addr: u64 = match self.write_unit_record(
                    filled,
                    RecordSignIntent::Preserve,
                ) {
                    Err(e) => {
                        return Err(e);
                    },
                    Ok(a) => a,
                };
                next.concurrent_strains.set(i, new_addr);
            },
        }
        next.parent = Some(addr);
        next.superseded = Vec::new();
        let ghost now = *self;
        let ghost r1 = next@;
        proof {
            assert(r1.superseded =~= Seq::<u64>::empty());
            if waiting is Some {
                let want = RecordModel {
                    strains: m.strains.update(waiting->Some_0 as int, now.recs().len() as u64),
                    ..Self::follow_up(m, addr)
                };
                assert(r1.strains =~= want.strains);
                assert(r1 =~= want);
                assert(payload_of(r1) == payload_of(m));
                assert forall|j: int| 0 <= j < r1.strains.len() implies 1 <= #[trigger] r1.strains[j]
                    <= now.recs().len() by {
                    if j != waiting->Some_0 {
                        assert(r1.strains[j] == m.strains[j]);
                    }
                }
            } else {
                assert forall|j: int| 0 <= j < r1.strains.len() implies 1 <= #[trigger] r1.strains[j]
                    <= now.recs().len() by {
                    assert(r1.strains[j] == m.strains[j]);
                }
            }
            assert(record_ok(r1, now.recs().len() as int));
            o.lemma_block_places(&now, uuid, r1, frag as int, waiting is None);
        }
        match self.install_head(next, RecordSignIntent::Preserve, Ghost(lo)) {
            Err(e) => {
                return Err(e);
            },
            Ok(_) => {},
        }
        self.publish();
        Ok(())
    }

    proof fn lemma_waiting_same(&self, o: &Self, strains: Seq<u64>, i: nat, f: int, version: u64)
        requires
            self.recs() == o.recs(),
            self.trust() == o.trust(),
        ensures
            self.waiting_strain(strains, i, f, version) == o.waiting_strain(strains, i, f, version),
        decreases strains.len() - i,
    {
        if i < strains.len() {
            self.lemma_waiting_same(o, strains, i + 1, f, version);
        }
    }

    proof fn lemma_with_block_same(
        &self,
        o: &Self,
        m: RecordModel,
        f: int,
        version: u64,
        loc: BlockLoc,
        frag_len: u32,
        suite: u8,
    )
        requires
            self.header == o.header,
        ensures
            self.with_block(m, f, version, loc, frag_len, suite) == o.with_block(
                m,
                f,
                version,
                loc,
                frag_len,
                suite,
            ),
    {
        let n = stream_with_block(m.stream(), f, version, loc, frag_len).n();
        assert(self.imported_suites(m, n, f, suite) =~= o.imported_suites(m, n, f, suite));
    }

    /// A block in a fresh slot shares it with nothing.
    proof fn lemma_block_places(&self, now: &Self, uuid: Uuid, r1: RecordModel, f: int, placed: bool)
        requires
            self.inv(),
            now.inv(),
            self.ids@.contains_key(uuid@),
            now.ids@ == self.ids@,
            self.recs().len() <= now.recs().len(),
            forall|i: int| 0 <= i < self.recs().len() ==> now.recs()[i] == self.recs()[i],
            now.slots().len() == self.slots().len() + 1,
            f >= 0,
            r1.meta == self.head_of(uuid@).meta,
            !placed ==> r1.content == self.head_of(uuid@).content,
            placed ==> r1.content is Some && {
                let g = grown(self.head_of(uuid@).stream(), (f + 1) as nat);
                &&& r1.stream().locations.len() == g.locations.len()
                &&& f < g.locations.len()
                &&& r1.stream().locations[f].addr == now.slots().len()
                &&& forall|j: int|
                    0 <= j < g.locations.len() && j != f ==> #[trigger] r1.stream().locations[j]
                        == g.locations[j]
            },
            self.head_of(uuid@).stream().locations.len() == self.head_of(
                uuid@,
            ).stream().unit_map.len(),
        ensures
            live_ok(now.ids@, now.recs(), self.slots().len()),
            places_step(
                now.ids@,
                now.recs(),
                uuid@,
                r1,
                self.slots().len(),
                now.slots().len(),
            ),
    {
        let lo = self.slots().len();
        let k = uuid@;
        let m = self.head_of(k);
        let g = grown(m.stream(), (f + 1) as nat);
        assert(now.recs().take(self.recs().len() as int) =~= self.recs());
        crate::engine::lemma_live_grow(self.ids@, self.recs(), now.recs(), lo, lo);
        assert forall|p: int| #[trigger]
            place(r1, p) == 0 || place(r1, p) == live(now.ids@, now.recs(), k, p) || lo < place(r1, p)
                <= now.slots().len() by {
            assert(live(now.ids@, now.recs(), k, p) == live(self.ids@, self.recs(), k, p));
            if placed && p >= 0 && p != f && p < r1.stream().locations.len() {
                assert(r1.stream().locations[p] == g.locations[p]);
                if p < m.stream().locations.len() {
                    assert(g.locations[p] == m.stream().locations[p]);
                } else {
                    assert(g.locations[p] == hole());
                }
            }
        }
        assert forall|p: int, q: int|
            #![trigger place(r1, p), place(r1, q)]
            place(r1, p) > lo && place(r1, p) == place(r1, q) implies p == q by {
            assert(live(now.ids@, now.recs(), k, p) <= lo);
            assert(live(now.ids@, now.recs(), k, q) <= lo);
            assert(place(r1, p) == 0 || place(r1, p) == live(now.ids@, now.recs(), k, p) || lo
                < place(r1, p) <= now.slots().len());
            if p != f || !placed {
                if placed && p >= 0 && p < r1.stream().locations.len() {
                    assert(r1.stream().locations[p] == g.locations[p]);
                }
                assert(place(r1, p) == 0 || place(r1, p) == live(now.ids@, now.recs(), k, p));
            }
            if q != f || !placed {
                if placed && q >= 0 && q < r1.stream().locations.len() {
                    assert(r1.stream().locations[q] == g.locations[q]);
                }
                assert(place(r1, q) == 0 || place(r1, q) == live(now.ids@, now.recs(), k, q));
            }
        }
    }
}


/// A block that travels reads on the other side as it did on this one: replica
/// `a` has it as fragment `f` of record `m`, replica `o` with the same key was
/// waiting for this version, took the sealed bytes in, and became `e`.
pub proof fn law_blocks_read_the_same_everywhere<C: Crypto>(
    a: &Engine<C>,
    m: RecordModel,
    frag: u32,
    o: &Engine<C>,
    e: &Engine<C>,
    frag_len: u32,
)
    requires
        o.inv(),
        frag < m.stream().n(),
        frag < m.stream().locations.len(),
        a.frag(m, frag as int) is Ok,
        o.root_key == a.root_key,
        o.header.key_epoch == a.header.key_epoch,
        o.ids@.contains_key(m.uuid@),
        frag < o.head_of(m.uuid@).stream().n(),
        o.head_of(m.uuid@).stream().unit_map[frag as int] == m.stream().unit_map[frag as int],
        Engine::<C>::block_imported(
            o,
            e,
            m.uuid,
            frag,
            m.stream().unit_map[frag as int],
            stored_at(a.slots(), m.stream().locations[frag as int])->Some_0,
            frag_len,
            a.suite(m, frag as int),
            Ok(()),
        ),
    ensures
        e.frag(e.head_of(m.uuid@), frag as int) == a.frag(m, frag as int),
        e.head_of(m.uuid@).content_vv() == o.head_of(m.uuid@).content_vv(),
{
    let f = frag as int;
    let k = m.uuid@;
    let version = m.stream().unit_map[f];
    let suite = a.suite(m, f);
    let cipher = stored_at(a.slots(), m.stream().locations[f])->Some_0;
    let loc = BlockLoc { addr: (o.slots().len() + 1) as u64, len: cipher.len() as u32 };
    let h0 = o.head_of(k);
    let h1 = e.head_of(k);
    let addr = o.ids@[k];
    assert(record_ok(o.recs()[addr - 1], addr - 1));
    let w = o.with_block(h0, f, version, loc, frag_len, suite);
    assert(h1 == Engine::<C>::follow_up(w, addr));
    let n = w.stream().n();
    lemma_suites_form(
        o.imported_suites(h0, n, f, suite),
        suite,
        e.header.cipher,
        h1,
        f,
    );
    assert(h0.uuid =~= m.uuid);
    assert(stored_at(e.slots(), loc) == Some(cipher));
}

} // verus!
