//! Installing head records, and the plain write.
use vstd::prelude::*;
use vstd::string::StringSliceAdditionalSpecFns;

use crate::block::frag_bytes;
use crate::commit::next_header;
use crate::crypto::Crypto;
use crate::engine::{
    journal_has, journal_ok, lemma_new_head, live, live_ok, place, places_step, record_ok,
    signed_record, Container, Engine, RecordSignIntent,
};
use crate::error::Error;
use crate::header::header_tag;
use crate::heap::in_heap;
use crate::unit::{RecordModel, UnitRecord, Uuid};
use crate::write::{frag_slice, touches, write_exp};
use crate::writerset::SignMode;

verus! {

impl<C: Crypto> Engine<C> {
    /// Everything that operations on content leave alone.
    pub open spec fn same_setup(o: &Self, e: &Self) -> bool {
        &&& e.root_key == o.root_key
        &&& e.local_alias == o.local_alias
        &&& e.suppress_commit == o.suppress_commit
        &&& e.signing_key == o.signing_key
        &&& e.writer_set == o.writer_set
        &&& e.clock == o.clock
        &&& e.eviction_clock == o.eviction_clock
        &&& e.crash_after_tail_copy == o.crash_after_tail_copy
        &&& e.crash_after_n_inplace == o.crash_after_n_inplace
        &&& e.wal == o.wal
        &&& e.overlay == o.overlay
        &&& e.disk.blobs == o.disk.blobs
        &&& e.disk.wal == o.disk.wal
        &&& e.decode_count == o.decode_count
        &&& e.mount_decodes == o.mount_decodes
    }

    /// What the operation did is committed, or only staged while commits are
    /// suppressed.
    pub open spec fn commit_step(o: &Self, e: &Self) -> bool {
        if o.suppress_commit {
            &&& e.header == o.header
            &&& e.disk.committed == o.disk.committed
            &&& e.snap == o.snap
            &&& e.pending_wal_applied_seq == o.pending_wal_applied_seq
        } else {
            &&& e.header == next_header(o.header, o.pending_wal_applied_seq, o.wal)
            &&& e.disk.committed.header == e.header
            &&& e.disk.committed.tag == header_tag::<C>(e.root_key, e.header)
            &&& e.disk.committed.keys@ == e.keys@
            &&& e.disk.committed.ids@ == e.ids@
            &&& e.snap@ == e.slots()
            &&& e.journaled@.len() == 0
            &&& e.pending_wal_applied_seq is None
        }
    }

    /// Superseded blocks and what is known of their age are as they were.
    pub open spec fn past_kept(o: &Self, e: &Self) -> bool {
        &&& e.tail() == o.tail()
        &&& e.stamps@ == o.stamps@
        &&& o.suppress_commit ==> e.journaled@ == o.journaled@
    }

    /// Nothing was committed, and neither catalogs nor records changed.
    pub open spec fn nothing_installed(o: &Self, e: &Self) -> bool {
        &&& Self::same_setup(o, e)
        &&& e.header == o.header
        &&& e.disk.committed == o.disk.committed
        &&& e.snap == o.snap
        &&& e.keys == o.keys
        &&& e.ids == o.ids
        &&& e.recs() == o.recs()
        &&& e.pending_wal_applied_seq == o.pending_wal_applied_seq
    }

    /// The engine's key may sign new records.
    pub open spec fn may_sign(&self) -> bool {
        match self.header.sign_mode {
            SignMode::Unsigned => true,
            SignMode::Signed => self.signing_key is Some,
            SignMode::WriterSet => self.signing_key is Some && self.writer_set is Some
                && self.writer_set->Some_0@.writers.contains(
                C::pubkey_of(self.signing_key->Some_0),
            ),
        }
    }

    /// The record as the engine stores it when it signs it itself.
    pub open spec fn signed_fresh(&self, r: RecordModel) -> RecordModel {
        match signed_record::<C>(r, self.trust(), self.signing_key, RecordSignIntent::Fresh) {
            Ok(m) => m,
            Err(_) => r,
        }
    }

    /// A signature does not change what a record holds.
    pub proof fn lemma_signature_free(&self, a: RecordModel, b: RecordModel)
        requires
            b == (RecordModel { signature: b.signature, ..a }),
        ensures
            self.contents(b) == self.contents(a),
            forall|f: int| #[trigger] self.frag(b, f) == self.frag(a, f),
            forall|p: int| #[trigger] place(b, p) == place(a, p),
    {
        assert forall|f: int| #[trigger] self.frag(b, f) == self.frag(a, f) by {}
        assert forall|p: int| #[trigger] place(b, p) == place(a, p) by {}
        assert(self.contents(b) =~= self.contents(a)) by {
            assert forall|i: int| #[trigger] self.byte(b, i) == self.byte(a, i) by {
                let fs = frag_bytes(a.stream().fragsize_exp) as int;
                assert(self.frag(b, i / fs) == self.frag(a, i / fs));
            }
        }
    }

    /// Stores a record and makes it the head of its unit.
    pub fn install_head(
        &mut self,
        rec: UnitRecord,
        intent: RecordSignIntent,
        Ghost(lo): Ghost<nat>,
    ) -> (r: Result<u64, Error>)
        requires
            old(self).inv(),
            record_ok(rec@, old(self).recs().len() as int),
            live_ok(old(self).ids@, old(self).recs(), lo),
            places_step(
                old(self).ids@,
                old(self).recs(),
                rec@.uuid@,
                rec@,
                lo,
                old(self).slots().len(),
            ),
            forall|a: u64| #[trigger] old(self).dirty@.contains(a) ==> a <= lo,
        ensures
            final(self).inv(),
            old(self).recoverable() ==> final(self).recoverable(),
            match signed_record::<C>(rec@, old(self).trust(), old(self).signing_key, intent) {
                Err(e) => r == Err::<u64, Error>(e) && *final(self) == *old(self),
                Ok(m) => {
                    &&& r is Ok
                    &&& r->Ok_0 == final(self).recs().len()
                    &&& final(self).recs() == old(self).recs().push(m)
                    &&& final(self).ids@ == old(self).ids@.insert(rec@.uuid@, r->Ok_0)
                    &&& *final(self) == (Engine {
                        disk: (Container {
                            records: final(self).disk.records,
                            ..old(self).disk
                        }),
                        ids: final(self).ids,
                        ..*old(self)
                    })
                },
            },
    {
        let ghost o = *self;
        let ghost r0 = rec@;
        let uuid: Uuid = rec.uuid;
        let addr: u64 = match self.write_unit_record(rec, intent) {
            Err(e) => {
                return Err(e);
            },
            Ok(a) => a,
        };
        let ghost mid = *self;
        self.ids.put(uuid.as_slice(), addr);
        proof {
            let m = self.recs().last();
            let k = r0.uuid@;
            let lo2 = lo;
            assert(self.recs() =~= o.recs().push(m));
            assert(m == (RecordModel { signature: m.signature, ..r0 }));
            o.lemma_signature_free(r0, m);
            assert(places_step(o.ids@, o.recs(), k, m, lo, o.slots().len())) by {
                assert forall|p: int| #[trigger]
                    place(m, p) == 0 || place(m, p) == live(o.ids@, o.recs(), k, p) || lo < place(
                        m,
                        p,
                    ) <= o.slots().len() by {
                    assert(place(m, p) == place(r0, p));
                }
                assert forall|p: int, q: int|
                    #![trigger place(m, p), place(m, q)]
                    place(m, p) > lo && place(m, p) == place(m, q) implies p == q by {
                    assert(place(m, p) == place(r0, p));
                    assert(place(m, q) == place(r0, q));
                }
            }
            lemma_new_head(o.ids@, o.recs(), k, m, lo, o.slots().len());
            if o.recoverable() {
                assert forall|l: Seq<u8>, p: int|
                    #![trigger live(self.ids@, self.recs(), l, p)]
                    0 <= p <= u32::MAX && self.dirty@.contains(
                        live(self.ids@, self.recs(), l, p),
                    ) implies journal_has(self.journaled@, l, p as u32) by {
                    let a = live(self.ids@, self.recs(), l, p);
                    if l == k {
                        assert(a == place(m, p));
                        assert(a <= lo);
                        assert(in_heap(o.slots(), a));
                        assert(a == live(o.ids@, o.recs(), k, p));
                    } else {
                        if o.ids@.contains_key(l) {
                            assert(self.recs()[o.ids@[l] - 1] == o.recs()[o.ids@[l] - 1]);
                        }
                        assert(a == live(o.ids@, o.recs(), l, p));
                    }
                }
                assert(journal_ok(self.ids@, self.recs(), self.dirty@, self.journaled@));
            }
        }
        Ok(addr)
    }

    /// What a write predicate says does not depend on state that reads ignore.
    pub proof fn lemma_wrote_kept(
        o: &Self,
        a: &Self,
        b: &Self,
        head_addr: u64,
        r0: RecordModel,
        offset: int,
        data: Seq<u8>,
        r1: RecordModel,
        m: RecordModel,
    )
        requires
            Self::wrote(o, a, head_addr, r0, offset, data, r1),
            Self::same_reads(a, b),
            m == (RecordModel { signature: m.signature, ..r1 }),
        ensures
            Self::wrote(o, b, head_addr, r0, offset, data, m),
    {
        b.lemma_signature_free(r1, m);
        Self::lemma_same_contents(a, b, r1);
        assert forall|g: int| #[trigger] b.frag(m, g) == a.frag(r1, g) by {
            assert(b.frag(m, g) == b.frag(r1, g));
        }
        let sm0 = r0.stream();
        let sm1 = r1.stream();
        assert(m.stream() == sm1);
        let end = (offset + data.len()) as nat;
        let n = sm1.n();
        assert forall|g: int| 0 <= g < n && touches(sm0, offset, end, g) implies #[trigger] b.frag(
            m,
            g,
        ) == Ok::<Seq<u8>, Error>(
            o.padded(
                frag_slice(
                    o.target(r0, offset, data),
                    frag_bytes(write_exp(sm0, end)) as int,
                    g,
                ),
                write_exp(sm0, end),
            ),
        ) by {
            assert(b.frag(m, g) == a.frag(r1, g));
        }
        assert forall|g: int| 0 <= g < n && !touches(sm0, offset, end, g) implies g < sm0.n()
            && #[trigger] sm1.locations[g] == sm0.locations[g] && b.frag(m, g) == o.frag(
            r0,
            g,
        ) by {
            assert(b.frag(m, g) == a.frag(r1, g));
        }
    }

    /// The unit at `key` was written: its new head says what `wrote` says.
    pub open spec fn written(
        o: &Self,
        e: &Self,
        key: Seq<u8>,
        offset: int,
        data: Seq<u8>,
    ) -> bool {
        let (uuid, head_addr, r0) = o.head(key)->Ok_0;
        &&& e.recs().len() == o.recs().len() + 1
        &&& e.recs().len() <= u64::MAX
        &&& o.slots().len() <= e.slots().len()
        &&& e.recs().take(o.recs().len() as int) == o.recs()
        &&& e.ids@ == o.ids@.insert(uuid@, e.recs().len() as u64)
        &&& e.keys@ == o.keys@
        &&& Self::wrote(o, e, head_addr, r0, offset, data, e.recs().last())
        &&& Self::superseded(o, e, r0, offset, data)
        &&& o.suppress_commit ==> e.journaled@ == o.journal_after(r0, offset, data.len())
        &&& o.header.sign_mode == SignMode::Unsigned ==> e.recs().last().signature is None
        &&& o.header.sign_mode != SignMode::Unsigned ==> e.recs().last() == o.signed_fresh(
            (RecordModel { signature: None, ..e.recs().last() }),
        )
    }

    /// What writing `data` at `offset` of the unit at `key` does.
    pub open spec fn write_step(
        o: &Self,
        e: &Self,
        key: Seq<u8>,
        offset: int,
        data: Seq<u8>,
        r: Result<(), Error>,
    ) -> bool {
        &&& Self::same_setup(o, e)
        &&& Self::tail_grew(o, e)
        &&& match o.write_error(key, offset, data.len()) {
            Some(x) => r == Err::<(), Error>(x) && Self::blocks_kept(o, e),
            None => {
                &&& !o.may_sign() ==> r == Err::<(), Error>(Error::Integrity)
                &&& o.may_sign() && o.no_crash_seam() ==> r is Ok
                &&& r is Err ==> r == Err::<(), Error>(Error::Integrity)
            },
        }
        &&& o.head(key) is Err ==> *e == *o
        &&& r is Err ==> Self::nothing_installed(o, e)
        &&& r is Err && o.head(key) is Ok ==> Self::others_kept(o, e, o.head(key)->Ok_0.0@)
        &&& r is Ok ==> {
            &&& Self::written(o, e, key, offset, data)
            &&& Self::commit_step(o, e)
            &&& Self::others_kept(o, e, o.head(key)->Ok_0.0@)
        }
    }

    /// Writes `data` at `offset` of the unit at a key.
    pub fn write_key(&mut self, key: &[u8], offset: u64, data: &[u8]) -> (r: Result<(), Error>)
        requires
            old(self).inv(),
            old(self).header.commit_seq < u64::MAX,
            old(self).write_fits_at(key@, offset as int, data@.len()),
        ensures
            final(self).inv(),
            old(self).recoverable() ==> final(self).recoverable(),
            Self::write_step(old(self), final(self), key@, offset as int, data@, r),
    {
        let ghost o = *self;
        let staged: Result<(u64, UnitRecord), Error> = self.stage_write(key, offset, data);
        proof {
            if o.head(key@) is Ok {
                Self::lemma_others_kept(&o, &*self, &*self, o.head(key@)->Ok_0.0@);
            }
        }
        let (head_addr, rec): (u64, UnitRecord) = match staged {
            Err(e) => {
                return Err(e);
            },
            Ok(x) => x,
        };
        let ghost mid = *self;
        let ghost r1 = rec@;
        proof {
            assert(live_ok(self.ids@, self.recs(), o.slots().len()));
            assert forall|a: u64| #[trigger] self.dirty@.contains(a) implies a
                <= o.slots().len() by {
                if o.dirty@.contains(a) {
                    assert(in_heap(o.slots(), a));
                }
            }
        }
        match self.install_head(rec, RecordSignIntent::Fresh, Ghost(o.slots().len())) {
            Err(e) => {
                return Err(e);
            },
            Ok(_) => {},
        }
        let ghost inst = *self;
        self.publish();
        proof {
            let m = self.recs().last();
            let (uuid, ha, r0) = o.head(key@)->Ok_0;
            assert(self.recs() == o.recs().push(m));
            assert(self.recs().take(o.recs().len() as int) =~= o.recs());
            assert(m == (RecordModel { signature: m.signature, ..r1 }));
            assert((RecordModel { signature: None, ..m }) == r1);
            Self::lemma_wrote_kept(&o, &mid, &*self, ha, r0, offset as int, data@, r1, m);
            Self::lemma_others_kept(&o, &mid, &*self, uuid@);
        }
        Ok(())
    }

    /// The slots of every unit but `k` hold what they held, and so does the slot
    /// of its metadata.
    pub open spec fn others_kept(o: &Self, e: &Self, k: Seq<u8>) -> bool {
        forall|l: Seq<u8>, p: int|
            #![trigger live(o.ids@, o.recs(), l, p)]
            (l != k || p == -1) && live(o.ids@, o.recs(), l, p) != 0 ==> {
                let a = live(o.ids@, o.recs(), l, p);
                e.slots()[a - 1] == o.slots()[a - 1] && a <= e.slots().len()
            }
    }

    pub proof fn lemma_others_kept(o: &Self, mid: &Self, e: &Self, k: Seq<u8>)
        requires
            o.inv(),
            Self::slots_kept(o, mid, k),
            e.slots() == mid.slots(),
        ensures
            Self::others_kept(o, e, k),
    {
        assert forall|l: Seq<u8>, p: int|
            #![trigger live(o.ids@, o.recs(), l, p)]
            (l != k || p == -1) && live(o.ids@, o.recs(), l, p) != 0 implies {
            let a = live(o.ids@, o.recs(), l, p);
            e.slots()[a - 1] == o.slots()[a - 1] && a <= e.slots().len()
        } by {
            let a = live(o.ids@, o.recs(), l, p);
            assert(in_heap(o.slots(), a));
            if e.slots()[a - 1] != o.slots()[a - 1] {
                let q = choose|q: int| q >= 0 && #[trigger] live(o.ids@, o.recs(), k, q) == a;
                assert(live(o.ids@, o.recs(), l, p) == live(o.ids@, o.recs(), k, q));
            }
        }
    }

    /// Writes `data` at `offset` of the unit at `path` and commits.
    pub fn write(&mut self, path: &str, offset: u64, data: &[u8]) -> (r: Result<(), Error>)
        requires
            old(self).inv(),
            old(self).header.commit_seq < u64::MAX,
            old(self).write_fits_at(path.spec_bytes(), offset as int, data@.len()),
        ensures
            final(self).inv(),
            old(self).recoverable() ==> final(self).recoverable(),
            Self::write_step(
                old(self),
                final(self),
                path.spec_bytes(),
                offset as int,
                data@,
                r,
            ),
    {
        self.write_key(path.as_bytes(), offset, data)
    }
}

impl<C: Crypto> Engine<C> {
    /// Record `m` was stored, is the head of its unit, and was committed as far
    /// as commits go through.
    pub open spec fn head_committed(o: &Self, e: &Self, m: RecordModel) -> bool {
        &&& e.recs() == o.recs().push(m)
        &&& e.recs().len() <= u64::MAX
        &&& e.ids@ == o.ids@.insert(m.uuid@, e.recs().len() as u64)
        &&& e.keys@ == o.keys@
        &&& e.slots() == o.slots()
        &&& Self::past_kept(o, e)
        &&& Self::same_setup(o, e)
        &&& Self::commit_step(o, e)
        &&& Self::same_reads(o, e)
    }

    /// Stores a record as the head of its unit and commits.
    pub fn commit_head(
        &mut self,
        rec: UnitRecord,
        intent: RecordSignIntent,
        Ghost(lo): Ghost<nat>,
    ) -> (r: Result<(), Error>)
        requires
            old(self).inv(),
            old(self).header.commit_seq < u64::MAX,
            record_ok(rec@, old(self).recs().len() as int),
            live_ok(old(self).ids@, old(self).recs(), lo),
            places_step(
                old(self).ids@,
                old(self).recs(),
                rec@.uuid@,
                rec@,
                lo,
                old(self).slots().len(),
            ),
            forall|a: u64| #[trigger] old(self).dirty@.contains(a) ==> a <= lo,
        ensures
            final(self).inv(),
            old(self).recoverable() ==> final(self).recoverable(),
            match signed_record::<C>(rec@, old(self).trust(), old(self).signing_key, intent) {
                Err(e) => r == Err::<(), Error>(e) && *final(self) == *old(self),
                Ok(m) => r is Ok && Self::head_committed(old(self), final(self), m),
            },
    {
        match self.install_head(rec, intent, Ghost(lo)) {
            Err(e) => {
                return Err(e);
            },
            Ok(_) => {},
        }
        self.publish();
        Ok(())
    }

    /// Whether signing succeeds does not depend on the record.
    pub proof fn lemma_may_sign(&self, r: RecordModel)
        ensures
            self.may_sign() <==> signed_record::<C>(
                r,
                self.trust(),
                self.signing_key,
                RecordSignIntent::Fresh,
            ) is Ok,
            !self.may_sign() ==> signed_record::<C>(
                r,
                self.trust(),
                self.signing_key,
                RecordSignIntent::Fresh,
            ) == Err::<RecordModel, Error>(Error::Integrity),
            self.may_sign() ==> self.signed_fresh(r) == (RecordModel {
                signature: self.signed_fresh(r).signature,
                ..r
            }),
    {
    }
}

} // verus!
