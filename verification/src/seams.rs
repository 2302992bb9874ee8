//! Writes that stop where a crash could stop them, writes at a given time, and
//! damage.
use vstd::prelude::*;
use vstd::string::StringSliceAdditionalSpecFns;

use crate::bytes::push_all;
use crate::crypto::Crypto;
use crate::engine::{live, place, record_ok, Container, Engine};
use crate::error::Error;
use crate::heap::in_heap;
use crate::unit::UnitRecord;

verus! {

impl<C: Crypto> Engine<C> {
    /// The engine with a failure armed after the undo images are written.
    pub open spec fn stops_after_tail(&self) -> Self {
        Engine { crash_after_tail_copy: true, ..*self }
    }

    /// The engine with a failure armed after `k` overwrites.
    pub open spec fn stops_after(&self, k: usize) -> Self {
        Engine { crash_after_n_inplace: Some(k), ..*self }
    }

    /// The engine with a time to use in place of the clock.
    pub open spec fn timed(&self, t: i64) -> Self {
        Engine { eviction_clock: Some(t), ..*self }
    }

    /// A write whose commit never lands: what was committed stays committed.
    pub fn write_simulate_crash_before_commit(&mut self, path: &str, offset: u64, data: &[u8]) -> (r:
        Result<(), Error>)
        requires
            old(self).inv(),
            old(self).header.commit_seq < u64::MAX,
            old(self).write_fits_at(path.spec_bytes(), offset as int, data@.len()),
        ensures
            final(self).inv(),
            old(self).recoverable() ==> final(self).recoverable(),
            final(self).disk.committed == old(self).disk.committed,
            final(self).snap == old(self).snap,
            exists|mid: Self| #[trigger]
                Self::write_step(
                    &old(self).held_back(),
                    &mid,
                    path.spec_bytes(),
                    offset as int,
                    data@,
                    r,
                ) && *final(self) == (Engine { suppress_commit: false, ..mid }),
    {
        self.suppress_commit = true;
        proof {
            assert(self.head(path.spec_bytes()) == old(self).head(path.spec_bytes()));
        }
        let r: Result<(), Error> = self.write(path, offset, data);
        let ghost mid = *self;
        self.suppress_commit = false;
        proof {
            assert(Self::write_step(
                &old(self).held_back(),
                &mid,
                path.spec_bytes(),
                offset as int,
                data@,
                r,
            ));
        }
        r
    }

    /// A write that stops once the undo images are written, before anything is
    /// overwritten. A write that overwrites nothing in place goes through.
    pub fn write_simulate_crash_after_tail_copy(
        &mut self,
        path: &str,
        offset: u64,
        data: &[u8],
    ) -> (r: Result<(), Error>)
        requires
            old(self).inv(),
            old(self).header.commit_seq < u64::MAX,
            old(self).write_fits_at(path.spec_bytes(), offset as int, data@.len()),
        ensures
            final(self).inv(),
            old(self).recoverable() ==> final(self).recoverable(),
            exists|mid: Self| #[trigger]
                Self::write_step(
                    &old(self).stops_after_tail(),
                    &mid,
                    path.spec_bytes(),
                    offset as int,
                    data@,
                    r,
                ) && *final(self) == (Engine { crash_after_tail_copy: false, ..mid }),
    {
        self.crash_after_tail_copy = true;
        proof {
            assert(self.head(path.spec_bytes()) == old(self).head(path.spec_bytes()));
        }
        let r: Result<(), Error> = self.write(path, offset, data);
        let ghost mid = *self;
        self.crash_after_tail_copy = false;
        proof {
            assert(Self::write_step(
                &old(self).stops_after_tail(),
                &mid,
                path.spec_bytes(),
                offset as int,
                data@,
                r,
            ));
        }
        r
    }

    /// A write that stops after `k` slots were overwritten in place.
    pub fn write_simulate_crash_after_n_inplace(
        &mut self,
        path: &str,
        offset: u64,
        data: &[u8],
        k: usize,
    ) -> (r: Result<(), Error>)
        requires
            old(self).inv(),
            old(self).header.commit_seq < u64::MAX,
            old(self).write_fits_at(path.spec_bytes(), offset as int, data@.len()),
        ensures
            final(self).inv(),
            old(self).recoverable() ==> final(self).recoverable(),
            exists|mid: Self| #[trigger]
                Self::write_step(
                    &old(self).stops_after(k),
                    &mid,
                    path.spec_bytes(),
                    offset as int,
                    data@,
                    r,
                ) && *final(self) == (Engine { crash_after_n_inplace: None, ..mid }),
    {
        self.crash_after_n_inplace = Some(k);
        proof {
            assert(self.head(path.spec_bytes()) == old(self).head(path.spec_bytes()));
        }
        let r: Result<(), Error> = self.write(path, offset, data);
        let ghost mid = *self;
        self.crash_after_n_inplace = None;
        proof {
            assert(Self::write_step(
                &old(self).stops_after(k),
                &mid,
                path.spec_bytes(),
                offset as int,
                data@,
                r,
            ));
        }
        r
    }

    /// A write whose superseded blocks are stamped with the given time.
    pub fn write_with_timestamp(
        &mut self,
        path: &str,
        offset: u64,
        data: &[u8],
        eviction_timestamp: i64,
    ) -> (r: Result<(), Error>)
        requires
            old(self).inv(),
            old(self).header.commit_seq < u64::MAX,
            old(self).write_fits_at(path.spec_bytes(), offset as int, data@.len()),
        ensures
            final(self).inv(),
            old(self).recoverable() ==> final(self).recoverable(),
            exists|mid: Self| #[trigger]
                Self::write_step(
                    &old(self).timed(eviction_timestamp),
                    &mid,
                    path.spec_bytes(),
                    offset as int,
                    data@,
                    r,
                ) && *final(self) == (Engine { eviction_clock: None, ..mid }),
    {
        self.eviction_clock = Some(eviction_timestamp);
        proof {
            assert(self.head(path.spec_bytes()) == old(self).head(path.spec_bytes()));
        }
        let r: Result<(), Error> = self.write(path, offset, data);
        let ghost mid = *self;
        self.eviction_clock = None;
        proof {
            assert(Self::write_step(
                &old(self).timed(eviction_timestamp),
                &mid,
                path.spec_bytes(),
                offset as int,
                data@,
                r,
            ));
        }
        r
    }
}

impl<C: Crypto> Engine<C> {
    /// Overwrites a slot behind the store's back, as damage at rest would.
    pub fn debug_write_raw(&mut self, addr: u64, bytes: &[u8]) -> (r: Result<(), Error>)
        requires
            old(self).inv(),
        ensures
            final(self).inv(),
            if in_heap(old(self).slots(), addr) {
                &&& r is Ok
                &&& final(self).slots() == old(self).slots().update(addr - 1, bytes@)
                &&& *final(self) == (Engine {
                    disk: (Container { blocks: final(self).disk.blocks, ..old(self).disk }),
                    ..*old(self)
                })
            } else {
                r == Err::<(), Error>(Error::Integrity) && *final(self) == *old(self)
            },
    {
        if self.disk.blocks.get(addr).is_none() {
            return Err(Error::Integrity);
        }
        let mut copy: Vec<u8> = Vec::new();
        push_all(&mut copy, bytes);
        proof {
            assert(copy@ =~= bytes@);
        }
        self.disk.blocks.set(addr, copy);
        Ok(())
    }

    /// Overwrites a record behind the store's back, without signing it: what a
    /// holder of the key, but not of a signing key, could do. The blocks that
    /// the record names must stay the same.
    pub fn debug_reseal_record_at(&mut self, addr: u64, rec: &UnitRecord) -> (r: Result<(), Error>)
        requires
            old(self).inv(),
            in_heap(old(self).recs(), addr) ==> {
                let was = old(self).recs()[addr - 1];
                &&& record_ok(rec@, addr - 1)
                &&& rec@.uuid == was.uuid
                &&& forall|p: int| #[trigger] place(rec@, p) == place(was, p)
            },
        ensures
            final(self).inv(),
            if in_heap(old(self).recs(), addr) {
                &&& r is Ok
                &&& final(self).recs() == old(self).recs().update(addr - 1, rec@)
                &&& final(self).record_cache@.len() == 0
                &&& *final(self) == (Engine {
                    disk: (Container { records: final(self).disk.records, ..old(self).disk }),
                    record_cache: final(self).record_cache,
                    ..*old(self)
                })
            } else {
                r == Err::<(), Error>(Error::Integrity) && *final(self) == *old(self)
            },
    {
        if self.disk.records.get(addr).is_none() {
            return Err(Error::Integrity);
        }
        let ghost o = *self;
        self.disk.records.set(addr, rec.clone());
        self.record_cache.clear();
        proof {
            let a = o.recs();
            let b = self.recs();
            assert forall|i: int, p: int| 0 <= i < a.len() implies #[trigger] place(b[i], p)
                == place(a[i], p) by {}
            assert forall|k: Seq<u8>, p: int| #[trigger]
                live(self.ids@, b, k, p) == live(o.ids@, a, k, p) by {}
            assert forall|k: Seq<u8>, p: int| #[trigger]
                live(self.disk.committed.ids@, b, k, p) == live(
                    o.disk.committed.ids@,
                    a,
                    k,
                    p,
                ) by {}
        }
        Ok(())
    }
}

} // verus!
