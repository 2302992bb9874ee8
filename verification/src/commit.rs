//! Commits, batches, reopening and crash recovery.
use core::marker::PhantomData;

use vstd::prelude::*;

use crate::block::BASE_BLOCK;
use crate::bytes::same32;
use crate::cache::{CacheModel, RECORD_CACHE_CAPACITY, RecordCache};
use crate::catalog::ByteMap;
use crate::crypto::{Crypto, CIPHER_AES256_GCM};
use crate::engine::{
    ids_ok, journal_ok, lemma_live_grow, live_ok, records_ok, undo_ok, wal_log_ok, wal_view,
    Committed, Container, ContainerHeader, Engine, WalRecord, WalState,
};
use crate::error::Error;
use crate::evicted::{EvictedBlock, EvictedModel};
use crate::header::header_tag;
use crate::heap::{
    in_heap, law_undo_is_idempotent, lemma_undone_len, lemma_undone_none, restores, undone,
    BlockHeap, RecordHeap, TailHeap,
};
use crate::unit::{copy_bytes, RecordModel, Uuid};
use crate::writerset::{SealedModel, SealedWriterSet};

verus! {

/// The smallest number of bytes that holds `n` bytes in whole blocks.
pub open spec fn whole_blocks(n: nat) -> nat {
    (n + 4095) / 4096 * 4096
}

/// The header of the commit that follows: the next number, the log position
/// that the commit makes good, and the log's presence.
pub open spec fn next_header(
    h: ContainerHeader,
    applied: Option<u64>,
    wal: Option<WalState>,
) -> ContainerHeader {
    ContainerHeader {
        commit_seq: (h.commit_seq + 1) as u64,
        wal_applied_seq: match applied {
            Some(s) => s,
            None => h.wal_applied_seq,
        },
        wal_enabled: wal is Some || h.wal_enabled,
        ..h
    }
}

pub open spec fn blobs_view(b: Seq<SealedWriterSet>) -> Seq<SealedModel> {
    Seq::new(b.len(), |i: int| b[i]@)
}

/// The images in the tail are of slots that exist, for commits up to the next.
pub open spec fn tail_ok(tail: Seq<EvictedModel>, slots: nat, seq: u64) -> bool {
    forall|i: int|
        0 <= i < tail.len() ==> (#[trigger] tail[i]).inplace_addr <= slots
            && tail[i].target_commit_seq <= seq + 1
}

impl Container {
    /// The container can be opened: what its last commit names is in order.
    pub open spec fn wf(&self) -> bool {
        &&& self.committed.keys.wf()
        &&& self.committed.ids.wf()
        &&& records_ok(self.records@)
        &&& ids_ok(self.committed.ids@, self.records@)
        &&& live_ok(self.committed.ids@, self.records@, self.blocks@.len())
        &&& tail_ok(self.tail@, self.blocks@.len(), self.committed.header.commit_seq)
        &&& wal_log_ok(wal_view(self.wal@))
    }
}

impl<C: Crypto> Engine<C> {
    /// The engine of an empty container with this header.
    pub fn boot(header: ContainerHeader, root_key: [u8; 32]) -> (r: Self)
        ensures
            r.inv(),
            r.recoverable(),
            r.is_fresh(header, root_key),
    {
        let tag: [u8; 32] = header.tag::<C>(&root_key);
        Engine {
            disk: Container {
                records: RecordHeap::new(),
                blocks: BlockHeap::new(),
                tail: TailHeap::new(),
                blobs: Vec::new(),
                wal: Vec::new(),
                committed: Committed { header, tag, keys: ByteMap::new(), ids: ByteMap::new() },
            },
            header,
            keys: ByteMap::new(),
            ids: ByteMap::new(),
            root_key,
            local_alias: 0,
            suppress_commit: false,
            signing_key: None,
            writer_set: None,
            clock: 0,
            eviction_clock: None,
            stamps: Vec::new(),
            journaled: Vec::new(),
            crash_after_tail_copy: false,
            crash_after_n_inplace: None,
            wal: None,
            overlay: Vec::new(),
            pending_wal_applied_seq: None,
            record_cache: RecordCache::new(RECORD_CACHE_CAPACITY),
            decode_count: 0,
            mount_decodes: 0,
            snap: Ghost(Seq::empty()),
            dirty: Ghost(Set::empty()),
            crypto: PhantomData,
        }
    }

    /// Nothing is stored yet and nothing is set up but header and key.
    pub open spec fn is_fresh(&self, header: ContainerHeader, root_key: [u8; 32]) -> bool {
        &&& self.header == header
        &&& self.disk.committed.header == header
        &&& self.disk.committed.tag == header_tag::<C>(root_key, header)
        &&& self.disk.committed.keys@ == Map::<Seq<u8>, Uuid>::empty()
        &&& self.disk.committed.ids@ == Map::<Seq<u8>, u64>::empty()
        &&& self.keys@ == Map::<Seq<u8>, Uuid>::empty()
        &&& self.ids@ == Map::<Seq<u8>, u64>::empty()
        &&& self.recs() == Seq::<RecordModel>::empty()
        &&& self.slots() == Seq::<Seq<u8>>::empty()
        &&& self.tail() == Seq::<EvictedModel>::empty()
        &&& self.disk.blobs@.len() == 0
        &&& self.disk.wal@.len() == 0
        &&& self.root_key == root_key
        &&& self.is_idle()
        &&& self.signing_key is None
        &&& self.writer_set is None
        &&& self.wal is None
        &&& self.overlay@.len() == 0
        &&& self.record_cache@ == Seq::<CacheModel>::empty()
        &&& self.clock == 0
        &&& self.mount_decodes == 0
    }

    /// No batch is open, no failure is simulated, and nothing is pending.
    pub open spec fn is_idle(&self) -> bool {
        &&& self.local_alias == 0
        &&& !self.suppress_commit
        &&& self.eviction_clock is None
        &&& self.stamps@.len() == 0
        &&& self.journaled@.len() == 0
        &&& !self.crash_after_tail_copy
        &&& self.crash_after_n_inplace is None
        &&& self.pending_wal_applied_seq is None
        &&& self.decode_count == 0
    }

    /// What was staged is committed, under the next header.
    pub open spec fn published(old_e: &Self, new_e: &Self) -> bool {
        &&& new_e.header == next_header(
            old_e.header,
            old_e.pending_wal_applied_seq,
            old_e.wal,
        )
        &&& new_e.disk.committed.header == new_e.header
        &&& new_e.disk.committed.tag == header_tag::<C>(new_e.root_key, new_e.header)
        &&& new_e.disk.committed.keys@ == old_e.keys@
        &&& new_e.disk.committed.ids@ == old_e.ids@
        &&& new_e.snap@ == old_e.slots()
        &&& new_e.dirty@ == Set::<u64>::empty()
        &&& new_e.journaled@ == Seq::<(Uuid, u32)>::empty()
        &&& new_e.record_cache@ == Seq::<CacheModel>::empty()
        &&& *new_e == (Engine {
            header: new_e.header,
            disk: (Container { committed: new_e.disk.committed, ..old_e.disk }),
            snap: new_e.snap,
            dirty: new_e.dirty,
            journaled: new_e.journaled,
            record_cache: new_e.record_cache,
            pending_wal_applied_seq: None,
            ..*old_e
        })
    }

    /// Commits what was staged, unless commits are suppressed.
    pub fn publish(&mut self)
        requires
            old(self).inv(),
            old(self).suppress_commit || old(self).header.commit_seq < u64::MAX,
        ensures
            final(self).inv(),
            old(self).recoverable() ==> final(self).recoverable(),
            old(self).suppress_commit ==> *final(self) == *old(self),
            !old(self).suppress_commit ==> Self::published(old(self), final(self)),
    {
        if self.suppress_commit {
            return;
        }
        self.record_cache.clear();
        let applied: u64 = match self.pending_wal_applied_seq {
            Some(s) => s,
            None => self.header.wal_applied_seq,
        };
        self.pending_wal_applied_seq = None;
        let mut h: ContainerHeader = self.header;
        h.commit_seq = h.commit_seq + 1;
        h.wal_applied_seq = applied;
        h.wal_enabled = self.wal.is_some() || h.wal_enabled;
        self.header = h;
        self.disk.committed = Committed {
            header: h,
            tag: h.tag::<C>(&self.root_key),
            keys: self.keys.duplicate(),
            ids: self.ids.duplicate(),
        };
        self.journaled = Vec::new();
        proof {
            self.snap@ = self.slots();
            self.dirty@ = Set::empty();
            if old(self).recoverable() {
                lemma_undone_none(self.slots(), self.tail(), self.header.commit_seq);
                assert(undo_ok(
                    self.slots(),
                    self.tail(),
                    self.header.commit_seq,
                    self.snap@,
                    self.dirty@,
                ));
                assert(journal_ok(self.ids@, self.recs(), self.dirty@, self.journaled@));
            }
        }
    }

    /// The commit was taken anew: nothing changed but its number.
    pub open spec fn sealed(o: &Self, e: &Self) -> bool {
        let h = ContainerHeader { commit_seq: (o.header.commit_seq + 1) as u64, ..o.header };
        *e == (Engine {
            header: h,
            disk: (Container {
                committed: (Committed {
                    header: h,
                    tag: header_tag::<C>(o.root_key, h),
                    ..o.disk.committed
                }),
                ..o.disk
            }),
            ..*o
        })
    }

    /// The size that sealing to fit gives.
    pub open spec fn seal_size(&self, container_len: u64, live_hwm: u64) -> Result<u64, Error> {
        if self.tail().len() > 0 || whole_blocks(live_hwm as nat) > container_len {
            Err(Error::Integrity)
        } else {
            Ok(whole_blocks(live_hwm as nat) as u64)
        }
    }

    /// Commits the container at the smallest size that holds it: `live_hwm`, the
    /// end of what is live, rounded up to whole blocks. Refused while there are
    /// superseded blocks, which lie behind that end, and where the container is
    /// smaller. What is staged stays uncommitted. The storage is cut afterwards,
    /// to the size returned.
    pub fn seal_to_fit(&mut self, container_len: u64, live_hwm: u64) -> (r: Result<u64, Error>)
        requires
            old(self).inv(),
            old(self).header.commit_seq < u64::MAX,
            live_hwm <= u64::MAX - 4095,
        ensures
            final(self).inv(),
            old(self).recoverable() ==> final(self).recoverable(),
            r == old(self).seal_size(container_len, live_hwm),
            if r is Ok {
                Self::sealed(old(self), final(self))
            } else {
                *final(self) == *old(self)
            },
    {
        if self.disk.tail.len() > 0 {
            return Err(Error::Integrity);
        }
        let fit: u64 = (live_hwm + (BASE_BLOCK - 1)) / BASE_BLOCK * BASE_BLOCK;
        if fit > container_len {
            return Err(Error::Integrity);
        }
        let ghost o = *self;
        let mut h: ContainerHeader = self.header;
        h.commit_seq = h.commit_seq + 1;
        self.header = h;
        self.disk.committed.header = h;
        self.disk.committed.tag = h.tag::<C>(&self.root_key);
        proof {
            if o.recoverable() {
                let seq = o.disk.committed.header.commit_seq;
                lemma_undone_none(o.slots(), o.tail(), seq);
                lemma_undone_none(self.slots(), self.tail(), h.commit_seq);
                assert forall|a: u64| !#[trigger] self.dirty@.contains(a) by {
                    if o.dirty@.contains(a) {
                        assert(crate::heap::restores(o.tail(), seq, a));
                    }
                }
                assert(undo_ok(
                    self.slots(),
                    self.tail(),
                    h.commit_seq,
                    self.snap@,
                    self.dirty@,
                ));
            }
        }
        Ok(fit)
    }

    /// A copy of everything that outlives the engine.
    pub fn snapshot(&self) -> (r: Container)
        requires
            self.inv(),
        ensures
            r.records@ == self.recs(),
            r.blocks@ == self.slots(),
            r.tail@ == self.tail(),
            blobs_view(r.blobs@) == blobs_view(self.disk.blobs@),
            wal_view(r.wal@) == wal_view(self.disk.wal@),
            r.committed.header == self.disk.committed.header,
            r.committed.tag == self.disk.committed.tag,
            r.committed.keys@ == self.disk.committed.keys@,
            r.committed.ids@ == self.disk.committed.ids@,
            self.recoverable() ==> r.wf(),
    {
        let mut blobs: Vec<SealedWriterSet> = Vec::new();
        let mut i: usize = 0;
        while i < self.disk.blobs.len()
            invariant
                i <= self.disk.blobs.len(),
                blobs.len() == i,
                forall|k: int| 0 <= k < i ==> (#[trigger] blobs@[k])@ == self.disk.blobs@[k]@,
            decreases self.disk.blobs.len() - i,
        {
            blobs.push(self.disk.blobs[i].clone());
            i = i + 1;
        }
        let mut wal: Vec<WalRecord> = Vec::new();
        let mut j: usize = 0;
        while j < self.disk.wal.len()
            invariant
                j <= self.disk.wal.len(),
                wal.len() == j,
                forall|k: int| 0 <= k < j ==> (#[trigger] wal@[k])@ == self.disk.wal@[k]@,
            decreases self.disk.wal.len() - j,
        {
            let w: &WalRecord = &self.disk.wal[j];
            wal.push(
                WalRecord {
                    seq: w.seq,
                    uuid: w.uuid,
                    logical_offset: w.logical_offset,
                    plaintext_len: w.plaintext_len,
                    ciphertext: copy_bytes(&w.ciphertext),
                },
            );
            j = j + 1;
        }
        proof {
            assert(blobs_view(blobs@) =~= blobs_view(self.disk.blobs@));
            assert(wal_view(wal@) =~= wal_view(self.disk.wal@));
            assert(self.recs().take(self.recs().len() as int) =~= self.recs());
            lemma_live_grow(
                self.disk.committed.ids@,
                self.recs(),
                self.recs(),
                self.snap@.len(),
                self.slots().len(),
            );
        }
        Container {
            records: self.disk.records.clone(),
            blocks: self.disk.blocks.clone(),
            tail: self.disk.tail.clone(),
            blobs,
            wal,
            committed: Committed {
                header: self.disk.committed.header,
                tag: self.disk.committed.tag,
                keys: self.disk.committed.keys.duplicate(),
                ids: self.disk.committed.ids.duplicate(),
            },
        }
    }

    /// The state that opening `c` with `root_key` gives, before any log is
    /// replayed: the last commit, with uncommitted overwrites undone.
    pub open spec fn mounted(&self, c: Container, root_key: [u8; 32]) -> bool {
        &&& self.header == c.committed.header
        &&& self.disk.committed.header == c.committed.header
        &&& self.disk.committed.tag == c.committed.tag
        &&& self.disk.committed.keys@ == c.committed.keys@
        &&& self.disk.committed.ids@ == c.committed.ids@
        &&& self.keys@ == c.committed.keys@
        &&& self.ids@ == c.committed.ids@
        &&& self.recs() == c.records@
        &&& self.slots() == undone(c.blocks@, c.tail@, c.committed.header.commit_seq)
        &&& self.tail() == c.tail@
        &&& blobs_view(self.disk.blobs@) == blobs_view(c.blobs@)
        &&& wal_view(self.disk.wal@) == wal_view(c.wal@)
        &&& self.root_key == root_key
        &&& self.is_idle()
        &&& self.signing_key is None
        &&& self.writer_set is None
        &&& self.record_cache@ == Seq::<CacheModel>::empty()
        &&& self.mount_decodes == c.committed.ids.pairs().len()
    }

    /// Writes the undo images of overwrites that never were committed back into
    /// their slots, and counts the head records.
    fn rebuild_allocator(c: &mut Container) -> (heads: u64)
        requires
            old(c).wf(),
        ensures
            final(c).blocks@ == undone(
                old(c).blocks@,
                old(c).tail@,
                old(c).committed.header.commit_seq,
            ),
            *final(c) == (Container { blocks: final(c).blocks, ..*old(c) }),
            heads == old(c).committed.ids.pairs().len(),
    {
        let seq: u64 = c.committed.header.commit_seq;
        let n: usize = c.tail.len();
        let mut i: usize = 0;
        proof {
            assert(c.tail@.take(0) =~= Seq::empty());
        }
        while i < n
            invariant
                n == c.tail@.len(),
                i <= n,
                seq == old(c).committed.header.commit_seq,
                *c == (Container { blocks: c.blocks, ..*old(c) }),
                c.blocks@ == undone(old(c).blocks@, old(c).tail@.take(i as int), seq),
            decreases n - i,
        {
            let e: &EvictedBlock = c.tail.get(i);
            proof {
                let t = old(c).tail@.take(i + 1);
                assert(t.drop_last() =~= old(c).tail@.take(i as int));
                assert(t.last() == e@);
                lemma_undone_len(old(c).blocks@, old(c).tail@.take(i as int), seq);
            }
            if e.inplace_addr != 0 && e.target_commit_seq > seq && e.inplace_addr
                <= c.blocks.len() as u64 {
                let bytes: Vec<u8> = copy_bytes(&e.bytes);
                c.blocks.set(e.inplace_addr, bytes);
            }
            i = i + 1;
        }
        proof {
            assert(old(c).tail@.take(n as int) =~= old(c).tail@);
        }
        c.committed.ids.len() as u64
    }

    /// The container was committed under this key, and its metadata is under the
    /// one suite that there is for it.
    pub open spec fn key_fits(c: Container, root_key: [u8; 32]) -> bool {
        &&& c.committed.tag == header_tag::<C>(root_key, c.committed.header)
        &&& c.committed.header.cipher == CIPHER_AES256_GCM
    }

    /// Opens a container: takes up its last commit and undoes overwrites that
    /// never were committed. A log is not replayed here.
    pub fn mount(c: Container, root_key: [u8; 32]) -> (r: Result<Self, Error>)
        requires
            c.wf(),
        ensures
            !Self::key_fits(c, root_key) ==> r == Err::<Self, Error>(Error::Integrity),
            Self::key_fits(c, root_key) ==> {
                &&& r is Ok
                &&& r->Ok_0.inv()
                &&& r->Ok_0.recoverable()
                &&& r->Ok_0.mounted(c, root_key)
                &&& r->Ok_0.wal is None
                &&& r->Ok_0.overlay@.len() == 0
            },
    {
        let tag: [u8; 32] = c.committed.header.tag::<C>(&root_key);
        if !same32(&tag, &c.committed.tag) {
            return Err(Error::Integrity);
        }
        if c.committed.header.cipher != CIPHER_AES256_GCM {
            return Err(Error::Integrity);
        }
        let mut disk: Container = c;
        let heads: u64 = Self::rebuild_allocator(&mut disk);
        let keys: ByteMap<Uuid> = disk.committed.keys.duplicate();
        let ids: ByteMap<u64> = disk.committed.ids.duplicate();
        let header: ContainerHeader = disk.committed.header;
        proof {
            lemma_undone_len(c.blocks@, c.tail@, header.commit_seq);
            law_undo_is_idempotent(c.blocks@, c.tail@, header.commit_seq);
        }
        let ghost slots = disk.blocks@;
        let r: Self = Engine {
            disk,
            header,
            keys,
            ids,
            root_key,
            local_alias: 0,
            suppress_commit: false,
            signing_key: None,
            writer_set: None,
            clock: 0,
            eviction_clock: None,
            stamps: Vec::new(),
            journaled: Vec::new(),
            crash_after_tail_copy: false,
            crash_after_n_inplace: None,
            wal: None,
            overlay: Vec::new(),
            pending_wal_applied_seq: None,
            record_cache: RecordCache::new(RECORD_CACHE_CAPACITY),
            decode_count: 0,
            mount_decodes: heads,
            snap: Ghost(slots),
            dirty: Ghost(Set::empty()),
            crypto: PhantomData,
        };
        proof {
            assert(undo_ok(r.slots(), r.tail(), header.commit_seq, r.snap@, r.dirty@));
            assert(journal_ok(r.ids@, r.recs(), r.dirty@, r.journaled@));
        }
        Ok(r)
    }

    // ── Batches ─────────────────────────────────────────────────────────────

    /// Opens a batch: until it is committed, changes are staged only. Opening an
    /// open batch does nothing.
    pub fn begin_batch(&mut self)
        requires
            old(self).inv(),
        ensures
            final(self).inv(),
            old(self).recoverable() ==> final(self).recoverable(),
            *final(self) == (Engine { suppress_commit: true, ..*old(self) }),
    {
        self.suppress_commit = true;
    }

    /// Commits everything staged since the batch was opened, in one commit.
    /// Without an open batch nothing happens.
    pub fn commit_batch(&mut self)
        requires
            old(self).inv(),
            old(self).header.commit_seq < u64::MAX,
        ensures
            final(self).inv(),
            old(self).recoverable() ==> final(self).recoverable(),
            !old(self).suppress_commit ==> *final(self) == *old(self),
            old(self).suppress_commit ==> Self::published(
                &(Engine { suppress_commit: false, ..*old(self) }),
                final(self),
            ),
    {
        if !self.suppress_commit {
            return;
        }
        self.suppress_commit = false;
        self.publish();
    }

    /// Whether a batch or a transaction is open.
    pub fn batch_active(&self) -> (r: bool)
        ensures
            r == self.suppress_commit,
    {
        self.suppress_commit
    }

    /// Opens a transaction and says whether one was open already.
    pub fn open_transaction(&mut self) -> (outer: bool)
        requires
            old(self).inv(),
        ensures
            final(self).inv(),
            old(self).recoverable() ==> final(self).recoverable(),
            outer == old(self).suppress_commit,
            *final(self) == (Engine { suppress_commit: true, ..*old(self) }),
    {
        let outer: bool = self.suppress_commit;
        self.suppress_commit = true;
        outer
    }

    /// Ends a transaction. The outermost one commits if its work succeeded;
    /// otherwise nothing is committed.
    pub fn close_transaction(&mut self, outer: bool, succeeded: bool)
        requires
            old(self).inv(),
            old(self).header.commit_seq < u64::MAX,
        ensures
            final(self).inv(),
            old(self).recoverable() ==> final(self).recoverable(),
            !succeeded || outer ==> *final(self) == (Engine {
                suppress_commit: outer,
                ..*old(self)
            }),
            succeeded && !outer ==> Self::published(
                &(Engine { suppress_commit: false, ..*old(self) }),
                final(self),
            ),
    {
        self.suppress_commit = outer;
        if succeeded {
            self.publish();
        }
    }
}

impl<C: Crypto> Engine<C> {
    /// What a transaction does whose body left `mid` behind: the outermost one
    /// commits if its body succeeded.
    pub open spec fn transacted(o: &Self, mid: &Self, e: &Self, succeeded: bool) -> bool {
        let end = Engine { suppress_commit: o.suppress_commit, ..*mid };
        if succeeded && !o.suppress_commit {
            Self::published(&end, e)
        } else {
            *e == end
        }
    }

    /// Runs `f` in a transaction: everything that it does is committed at once
    /// if it succeeds, and nothing if it fails. An inner transaction commits with
    /// the outer one.
    pub fn transaction<R, F: FnOnce(&mut Self) -> Result<R, Error>>(&mut self, f: F) -> (r: Result<
        R,
        Error,
    >)
        requires
            old(self).inv(),
            forall|e: &mut Self|
                *e == old(self).held_back() ==> #[trigger] f.requires((e,)),
            forall|e: &mut Self, r: Result<R, Error>|
                *e == old(self).held_back() && #[trigger] f.ensures((e,), r) ==> {
                    &&& final(e).inv()
                    &&& final(e).suppress_commit
                    &&& final(e).header.commit_seq < u64::MAX
                    &&& old(self).recoverable() ==> final(e).recoverable()
                },
        ensures
            final(self).inv(),
            old(self).recoverable() ==> final(self).recoverable(),
            exists|e: &mut Self|
                *e == old(self).held_back() && #[trigger] f.ensures((e,), r) && Self::transacted(
                    old(self),
                    final(e),
                    final(self),
                    r is Ok,
                ),
    {
        let outer: bool = self.open_transaction();
        let r: Result<R, Error> = f(self);
        self.close_transaction(outer, r.is_ok());
        r
    }

    /// A transaction whose commit never lands.
    pub fn transaction_simulate_crash_before_commit<R, F: FnOnce(&mut Self) -> Result<R, Error>>(
        &mut self,
        f: F,
    ) -> (r: Result<R, Error>)
        requires
            old(self).inv(),
            forall|e: &mut Self|
                *e == old(self).held_back() ==> #[trigger] f.requires((e,)),
            forall|e: &mut Self, r: Result<R, Error>|
                *e == old(self).held_back() && #[trigger] f.ensures((e,), r) ==> {
                    &&& final(e).inv()
                    &&& old(self).recoverable() ==> final(e).recoverable()
                },
        ensures
            final(self).inv(),
            old(self).recoverable() ==> final(self).recoverable(),
            exists|e: &mut Self|
                *e == old(self).held_back() && #[trigger] f.ensures((e,), r) && Self::transacted(
                    old(self),
                    final(e),
                    final(self),
                    false,
                ),
    {
        let outer: bool = self.suppress_commit;
        self.suppress_commit = true;
        let r: Result<R, Error> = f(self);
        self.suppress_commit = outer;
        r
    }
}

/// After a crash every slot that the last commit had is what it was then.
pub proof fn law_reopening_restores_the_commit<C: Crypto>(
    before: &Engine<C>,
    c: Container,
    after: &Engine<C>,
    root_key: [u8; 32],
    a: u64,
)
    requires
        before.inv(),
        before.recoverable(),
        c.blocks@ == before.slots(),
        c.tail@ == before.tail(),
        c.committed.header == before.disk.committed.header,
        after.mounted(c, root_key),
        in_heap(before.snap@, a),
    ensures
        after.slots()[a - 1] == before.snap@[a - 1],
        after.keys@ == c.committed.keys@,
        after.ids@ == c.committed.ids@,
        after.header == before.disk.committed.header,
{
}

/// Sealing a container that was sealed to fit gives the same size again, whether
/// the end of what is live or that size is taken for the end.
pub proof fn law_sealing_again_gives_the_size<C: Crypto>(
    o: &Engine<C>,
    e: &Engine<C>,
    container_len: u64,
    live_hwm: u64,
)
    requires
        live_hwm <= u64::MAX - 4095,
        o.seal_size(container_len, live_hwm) is Ok,
        Engine::<C>::sealed(o, e),
    ensures
        ({
            let n = o.seal_size(container_len, live_hwm)->Ok_0;
            &&& live_hwm <= n < live_hwm + 4096
            &&& n % 4096 == 0
            &&& e.seal_size(n, live_hwm) == Ok::<u64, Error>(n)
            &&& e.seal_size(n, n) == Ok::<u64, Error>(n)
        }),
{
}

/// A container that was sealed to fit opens with its key, and everything that was
/// committed reads as before.
pub proof fn law_sealing_keeps_what_is_read<C: Crypto>(
    o: &Engine<C>,
    e: &Engine<C>,
    c: Container,
    after: &Engine<C>,
    k: Seq<u8>,
)
    requires
        o.inv(),
        o.tail().len() == 0,
        o.header.cipher == CIPHER_AES256_GCM,
        o.disk.committed.keys@ == o.keys@,
        o.disk.committed.ids@ == o.ids@,
        Engine::<C>::sealed(o, e),
        c.records@ == e.recs(),
        c.blocks@ == e.slots(),
        c.tail@ == e.tail(),
        c.committed.header == e.disk.committed.header,
        c.committed.tag == e.disk.committed.tag,
        c.committed.keys@ == e.disk.committed.keys@,
        c.committed.ids@ == e.disk.committed.ids@,
        after.mounted(c, o.root_key),
        o.ids@.contains_key(k),
    ensures
        Engine::<C>::key_fits(c, o.root_key),
        after.keys@ == o.keys@,
        after.ids@ == o.ids@,
        after.recs() == o.recs(),
        after.full(o.recs()[o.ids@[k] - 1]) == o.full(o.recs()[o.ids@[k] - 1]),
        after.metadata(o.recs()[o.ids@[k] - 1]) == o.metadata(o.recs()[o.ids@[k] - 1]),
{
    let r = o.recs()[o.ids@[k] - 1];
    lemma_undone_none(c.blocks@, c.tail@, c.committed.header.commit_seq);
    assert(after.slots() == o.slots());
    assert forall|f: int| 0 <= f < r.stream().n() implies #[trigger] after.frag(r, f) == o.frag(
        r,
        f,
    ) by {}
    Engine::<C>::lemma_pieces_kept(o, after, r, r.stream().n());
}

} // verus!
