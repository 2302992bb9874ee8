//! The store engine: its state, its invariants, and how records are read,
//! written and committed.
use core::marker::PhantomData;

use vstd::prelude::*;

use crate::cache::{CacheModel, RECORD_CACHE_CAPACITY, RecordCache};
use crate::catalog::ByteMap;
use crate::crypto::Crypto;
use crate::error::Error;
use crate::evicted::EvictedModel;
use crate::heap::{in_heap, restores, undone, BlockHeap, RecordHeap, TailHeap};
use crate::overlay::overlay_ok;
use crate::unit::{payload_of, RecordModel, UnitRecord, Uuid};
use crate::writerset::{
    scope_keys, set_view, signer_of, verify_record_signature, MembershipScope, SealedWriterSet,
    SignMode, TrustModel, WriterSet,
};

verus! {

/// The root key of containers that were made without one: 32 times `0x42`.
pub fn phase1_key() -> (r: [u8; 32])
    ensures
        forall|i: int| 0 <= i < 32 ==> #[trigger] r@[i] == 0x42,
{
    [0x42u8; 32]
}

/// What the header of a container says.
#[derive(Clone, Copy, Debug, PartialEq, Eq)]
pub struct ContainerHeader {
    /// The suite of metadata.
    pub cipher: u8,
    /// The suite that content is written under.
    pub content_cipher: u8,
    pub sign_mode: SignMode,
    pub writer_pubkey: [u8; 32],
    pub owner_pubkey: [u8; 32],
    /// Where the sealed writer set lies.
    pub writer_set: Option<[u8; 16]>,
    pub writer_set_epoch: u64,
    /// How often the root key was rotated.
    pub key_epoch: u64,
    /// Rises with every commit.
    pub commit_seq: u64,
    /// The last log record that is part of the committed content.
    pub wal_applied_seq: u64,
    /// Whether the container has a write-ahead log.
    pub wal_enabled: bool,
    /// Whether content blocks are padded to full fragments.
    pub pad_blocks: bool,
    pub eviction_code: u8,
    pub salt: [u8; 16],
}

/// A record of the write-ahead log.
#[derive(Debug)]
pub struct WalRecord {
    pub seq: u64,
    pub uuid: Uuid,
    pub logical_offset: u64,
    /// The length of the plaintext; the sealed form may be padded.
    pub plaintext_len: u32,
    pub ciphertext: Vec<u8>,
}

/// A [`WalRecord`] as a value.
#[verifier::ext_equal]
pub struct WalModel {
    pub seq: u64,
    pub uuid: Uuid,
    pub logical_offset: u64,
    pub plaintext_len: u32,
    pub ciphertext: Seq<u8>,
}

impl View for WalRecord {
    type V = WalModel;

    open spec fn view(&self) -> WalModel {
        WalModel {
            seq: self.seq,
            uuid: self.uuid,
            logical_offset: self.logical_offset,
            plaintext_len: self.plaintext_len,
            ciphertext: self.ciphertext@,
        }
    }
}

/// The log as values.
pub open spec fn wal_view(w: Seq<WalRecord>) -> Seq<WalModel> {
    Seq::new(w.len(), |i: int| w[i]@)
}

/// The bytes set aside for the log.
pub const WAL_REGION_SIZE: u64 = 8388608;

/// The bytes of a log record beside its sealed payload.
pub const WAL_RECORD_OVERHEAD: u64 = 48;

/// The bytes that log records take.
pub open spec fn wal_total(ws: Seq<WalModel>) -> nat
    decreases ws.len(),
{
    if ws.len() == 0 {
        0
    } else {
        wal_total(ws.drop_last()) + 48 + ws.last().ciphertext.len()
    }
}

/// The log fits its region, and its records are ones that can be replayed.
pub open spec fn wal_log_ok(ws: Seq<WalModel>) -> bool {
    &&& wal_total(ws) <= 8388608
    &&& forall|i: int|
        0 <= i < ws.len() ==> (#[trigger] ws[i]).logical_offset + ws[i].plaintext_len <= usize::MAX
            && ws[i].seq < u64::MAX
}

/// What the last commit made good: the header and the catalogs that it names.
#[derive(Debug)]
pub struct Committed {
    pub header: ContainerHeader,
    /// Binds the header to the root key.
    pub tag: [u8; 32],
    pub keys: ByteMap<Uuid>,
    pub ids: ByteMap<u64>,
}

/// Everything that outlives the engine.
#[derive(Debug)]
pub struct Container {
    pub records: RecordHeap,
    pub blocks: BlockHeap,
    pub tail: TailHeap,
    pub blobs: Vec<SealedWriterSet>,
    pub wal: Vec<WalRecord>,
    pub committed: Committed,
}

/// Where the log stands.
#[derive(Clone, Copy, Debug)]
pub struct WalState {
    /// Bytes of the log region in use.
    pub write_cursor: u64,
    /// The number of the next log record.
    pub next_seq: u64,
}

/// What a record's signature must attest when it is written.
#[derive(Clone, Copy, Debug, PartialEq, Eq, Structural)]
pub enum RecordSignIntent {
    /// A new version: the engine's own key signs it.
    Fresh,
    /// A rewrite that leaves the signed part alone: the author's signature
    /// stays, and must hold.
    Preserve,
}

/// A pending write of the log, by offset.
#[derive(Debug)]
pub struct PendingWrite {
    pub offset: u64,
    pub data: Vec<u8>,
}

/// The pending writes of one unit, by ascending offset.
#[derive(Debug)]
pub struct PendingUnit {
    pub uuid: Uuid,
    pub writes: Vec<PendingWrite>,
}

/// The engine of one container.
pub struct Engine<C: Crypto> {
    pub disk: Container,
    pub header: ContainerHeader,
    /// Paths to units.
    pub keys: ByteMap<Uuid>,
    /// Units to their head records.
    pub ids: ByteMap<u64>,
    pub root_key: [u8; 32],
    pub local_alias: u16,
    /// While set, nothing is committed.
    pub suppress_commit: bool,
    pub signing_key: Option<[u8; 32]>,
    pub writer_set: Option<WriterSet>,
    /// The present time, in seconds of universal time.
    pub clock: i64,
    /// A time to use in place of the clock.
    pub eviction_clock: Option<i64>,
    /// When each fragment was written, latest last.
    pub stamps: Vec<(Uuid, u32, i64)>,
    /// The fragments that were superseded since the last commit.
    pub journaled: Vec<(Uuid, u32)>,
    pub crash_after_tail_copy: bool,
    pub crash_after_n_inplace: Option<usize>,
    pub wal: Option<WalState>,
    /// Logged writes that are not part of the content yet.
    pub overlay: Vec<PendingUnit>,
    pub pending_wal_applied_seq: Option<u64>,
    /// Head records that were read lately.
    pub record_cache: RecordCache,
    /// How many head records `read_at` had to decode.
    pub decode_count: u64,
    pub mount_decodes: u64,
    /// The slots as the last commit left them.
    pub snap: Ghost<Seq<Seq<u8>>>,
    /// The slots overwritten in place since the last commit.
    pub dirty: Ghost<Set<u64>>,
    pub crypto: PhantomData<C>,
}

// ── Invariants ──────────────────────────────────────────────────────────────

/// A record points back only: at earlier records, and has a place per fragment.
pub open spec fn record_ok(r: RecordModel, before: int) -> bool {
    &&& r.parent is Some ==> 1 <= r.parent->Some_0 <= before
    &&& forall|j: int| 0 <= j < r.strains.len() ==> 1 <= #[trigger] r.strains[j] <= before
    &&& r.content is Some ==> r.content->Some_0.locations.len()
        == r.content->Some_0.unit_map.len()
}

pub open spec fn records_ok(recs: Seq<RecordModel>) -> bool {
    forall|i: int| 0 <= i < recs.len() ==> record_ok(#[trigger] recs[i], i)
}

/// Every unit has a head record of its own.
pub open spec fn ids_ok(ids: Map<Seq<u8>, u64>, recs: Seq<RecordModel>) -> bool {
    forall|k: Seq<u8>| #[trigger]
        ids.contains_key(k) ==> k.len() == 16 && in_heap(recs, ids[k]) && recs[ids[k] - 1].uuid@
            == k
}

/// The slot at position `pos` of a record: of content fragment `pos`, or of the
/// metadata for position minus one. Zero where nothing is stored.
pub open spec fn place(r: RecordModel, pos: int) -> u64 {
    if pos == -1 {
        if r.meta is Some && r.meta->Some_0.locations.len() > 0 {
            r.meta->Some_0.locations[0].addr
        } else {
            0
        }
    } else if pos >= 0 && r.content is Some && pos < r.content->Some_0.locations.len() {
        r.content->Some_0.locations[pos].addr
    } else {
        0
    }
}

/// The slot at position `pos` of the head record of unit `k`.
pub open spec fn live(
    ids: Map<Seq<u8>, u64>,
    recs: Seq<RecordModel>,
    k: Seq<u8>,
    pos: int,
) -> u64 {
    if ids.contains_key(k) {
        place(recs[ids[k] - 1], pos)
    } else {
        0
    }
}

/// No two positions of head records share a slot.
pub open spec fn live_ok(ids: Map<Seq<u8>, u64>, recs: Seq<RecordModel>, slots: nat) -> bool {
    &&& forall|k: Seq<u8>, p: int| #[trigger] live(ids, recs, k, p) <= slots
    &&& forall|k: Seq<u8>, p: int, l: Seq<u8>, q: int|
        #![trigger live(ids, recs, k, p), live(ids, recs, l, q)]
        live(ids, recs, k, p) != 0 && live(ids, recs, k, p) == live(ids, recs, l, q) ==> k == l
            && p == q
}

/// The new head `r1` of unit `k` keeps slots where they were or takes fresh
/// ones, numbered above `lo` and up to `hi`.
pub open spec fn places_step(
    ids: Map<Seq<u8>, u64>,
    recs: Seq<RecordModel>,
    k: Seq<u8>,
    r1: RecordModel,
    lo: nat,
    hi: nat,
) -> bool {
    &&& lo <= hi
    &&& forall|p: int| #[trigger]
        place(r1, p) == 0 || place(r1, p) == live(ids, recs, k, p) || lo < place(r1, p) <= hi
    &&& forall|p: int, q: int|
        #![trigger place(r1, p), place(r1, q)]
        place(r1, p) > lo && place(r1, p) == place(r1, q) ==> p == q
}

/// A new head that keeps or freshly takes its slots leaves slots unshared.
pub proof fn lemma_new_head(
    ids: Map<Seq<u8>, u64>,
    recs: Seq<RecordModel>,
    k: Seq<u8>,
    r1: RecordModel,
    lo: nat,
    hi: nat,
)
    requires
        ids_ok(ids, recs),
        records_ok(recs),
        live_ok(ids, recs, lo),
        places_step(ids, recs, k, r1, lo, hi),
        record_ok(r1, recs.len() as int),
        k.len() == 16,
        r1.uuid@ == k,
        recs.len() < u64::MAX,
    ensures
        records_ok(recs.push(r1)),
        ids_ok(ids.insert(k, (recs.len() + 1) as u64), recs.push(r1)),
        live_ok(ids.insert(k, (recs.len() + 1) as u64), recs.push(r1), hi),
{
    let ids2 = ids.insert(k, (recs.len() + 1) as u64);
    let recs2 = recs.push(r1);
    assert forall|i: int| 0 <= i < recs2.len() implies record_ok(#[trigger] recs2[i], i) by {
        if i < recs.len() {
            assert(record_ok(recs[i], i));
        }
    }
    assert forall|l: Seq<u8>, q: int| #[trigger]
        live(ids2, recs2, l, q) == if l == k {
            place(r1, q)
        } else {
            live(ids, recs, l, q)
        } by {
        if l != k && ids.contains_key(l) {
            assert(recs2[ids[l] - 1] == recs[ids[l] - 1]);
        }
    }
    assert forall|l: Seq<u8>| #[trigger] ids2.contains_key(l) implies l.len() == 16 && in_heap(
        recs2,
        ids2[l],
    ) && recs2[ids2[l] - 1].uuid@ == l by {
        if l != k {
            assert(ids.contains_key(l));
        }
    }
    assert forall|l: Seq<u8>, p: int| #[trigger] live(ids2, recs2, l, p) <= hi by {
        if l == k {
            assert(place(r1, p) == 0 || place(r1, p) == live(ids, recs, k, p) || lo < place(r1, p)
                <= hi);
        }
        assert(live(ids, recs, l, p) <= lo);
    }
    assert forall|a: Seq<u8>, p: int, b: Seq<u8>, q: int|
        #![trigger live(ids2, recs2, a, p), live(ids2, recs2, b, q)]
        live(ids2, recs2, a, p) != 0 && live(ids2, recs2, a, p) == live(
            ids2,
            recs2,
            b,
            q,
        ) implies a == b && p == q by {
        let x = live(ids, recs, a, p);
        let y = live(ids, recs, b, q);
        assert(x <= lo && y <= lo);
        if a == k {
            assert(place(r1, p) == 0 || place(r1, p) == x || lo < place(r1, p) <= hi);
        }
        if b == k {
            assert(place(r1, q) == 0 || place(r1, q) == y || lo < place(r1, q) <= hi);
        }
    }
}

/// More slots, or more records behind the heads, change nothing for the heads.
pub proof fn lemma_live_grow(
    ids: Map<Seq<u8>, u64>,
    recs: Seq<RecordModel>,
    recs2: Seq<RecordModel>,
    slots: nat,
    slots2: nat,
)
    requires
        ids_ok(ids, recs),
        live_ok(ids, recs, slots),
        recs.len() <= recs2.len(),
        recs2.take(recs.len() as int) == recs,
        slots <= slots2,
    ensures
        ids_ok(ids, recs2),
        live_ok(ids, recs2, slots2),
        forall|k: Seq<u8>, p: int| #[trigger]
            live(ids, recs2, k, p) == live(ids, recs, k, p),
{
    assert forall|k: Seq<u8>| #[trigger] ids.contains_key(k) implies recs2[ids[k] - 1]
        == recs[ids[k] - 1] by {
        assert(recs2.take(recs.len() as int)[ids[k] - 1] == recs2[ids[k] - 1]);
    }
    assert forall|k: Seq<u8>, p: int| #[trigger]
        live(ids, recs2, k, p) == live(ids, recs, k, p) by {
        if ids.contains_key(k) {
            assert(recs2[ids[k] - 1] == recs[ids[k] - 1]);
        }
    }
    assert forall|k: Seq<u8>, p: int| #[trigger] live(ids, recs2, k, p) <= slots2 by {
        assert(live(ids, recs, k, p) <= slots);
    }
    assert forall|k: Seq<u8>, p: int, l: Seq<u8>, q: int|
        #![trigger live(ids, recs2, k, p), live(ids, recs2, l, q)]
        live(ids, recs2, k, p) != 0 && live(ids, recs2, k, p) == live(
            ids,
            recs2,
            l,
            q,
        ) implies k == l && p == q by {
        assert(live(ids, recs, k, p) == live(ids, recs, l, q));
    }
}

impl<C: Crypto> Engine<C> {
    pub open spec fn recs(&self) -> Seq<RecordModel> {
        self.disk.records@
    }

    pub open spec fn slots(&self) -> Seq<Seq<u8>> {
        self.disk.blocks@
    }

    pub open spec fn tail(&self) -> Seq<EvictedModel> {
        self.disk.tail@
    }

    /// The state is in order: the catalogs are, records point back, every unit
    /// has its head, and heads do not share slots.
    pub open spec fn inv(&self) -> bool {
        &&& self.keys.wf()
        &&& self.ids.wf()
        &&& self.disk.committed.keys.wf()
        &&& self.disk.committed.ids.wf()
        &&& records_ok(self.recs())
        &&& ids_ok(self.ids@, self.recs())
        &&& live_ok(self.ids@, self.recs(), self.slots().len())
        &&& ids_ok(self.disk.committed.ids@, self.recs())
        &&& live_ok(self.disk.committed.ids@, self.recs(), self.snap@.len())
        &&& self.snap@.len() <= self.slots().len()
        &&& self.record_cache.wf()
        &&& self.record_cache.capacity() == RECORD_CACHE_CAPACITY
        &&& cache_ok(self.record_cache@, self.recs())
        &&& overlay_ok(self.overlay@)
        &&& forall|a: u64| #[trigger] self.dirty@.contains(a) ==> in_heap(self.slots(), a)
        &&& wal_log_ok(wal_view(self.disk.wal@))
        &&& self.wal is Some ==> self.wal->Some_0.write_cursor == 0
            || self.wal->Some_0.write_cursor == wal_total(wal_view(self.disk.wal@))
    }

    /// A crash now loses nothing that was committed: the undo pass brings every
    /// slot back to what the last commit left in it.
    pub open spec fn recoverable(&self) -> bool {
        &&& self.header.commit_seq == self.disk.committed.header.commit_seq
        &&& undo_ok(
            self.slots(),
            self.tail(),
            self.disk.committed.header.commit_seq,
            self.snap@,
            self.dirty@,
        )
        &&& journal_ok(self.ids@, self.recs(), self.dirty@, self.journaled@)
    }
}

/// The slots outside `dirty` are as in `snap`, those inside have an undo image,
/// and the undo pass brings `snap` back.
pub open spec fn undo_ok(
    slots: Seq<Seq<u8>>,
    tail: Seq<EvictedModel>,
    seq: u64,
    snap: Seq<Seq<u8>>,
    dirty: Set<u64>,
) -> bool {
    &&& forall|a: u64| #[trigger]
        in_heap(snap, a) && !dirty.contains(a) ==> slots[a - 1] == snap[a - 1]
    &&& forall|a: u64| #[trigger]
        in_heap(snap, a) ==> undone(slots, tail, seq)[a - 1] == snap[a - 1]
    &&& forall|a: u64| #[trigger]
        dirty.contains(a) ==> in_heap(slots, a) && restores(tail, seq, a)
    &&& forall|i: int|
        0 <= i < tail.len() ==> (#[trigger] tail[i]).inplace_addr <= slots.len()
            && tail[i].target_commit_seq <= seq + 1
}

/// Every fragment whose slot is dirty is in the journal, and an empty journal
/// means that no slot is.
pub open spec fn journal_ok(
    ids: Map<Seq<u8>, u64>,
    recs: Seq<RecordModel>,
    dirty: Set<u64>,
    journal: Seq<(Uuid, u32)>,
) -> bool {
    &&& forall|k: Seq<u8>, p: int|
        #![trigger live(ids, recs, k, p)]
        0 <= p <= u32::MAX && dirty.contains(live(ids, recs, k, p)) ==> journal_has(
            journal,
            k,
            p as u32,
        )
    &&& journal.len() == 0 ==> dirty == Set::<u64>::empty()
}

/// Fragment `f` of unit `k` was superseded since the last commit.
pub open spec fn journal_has(j: Seq<(Uuid, u32)>, k: Seq<u8>, f: u32) -> bool {
    exists|i: int| 0 <= i < j.len() && (#[trigger] j[i]).0@ == k && j[i].1 == f
}


/// Every cached record is the one at its address.
pub open spec fn cache_ok(c: Seq<CacheModel>, recs: Seq<RecordModel>) -> bool {
    forall|i: int|
        0 <= i < c.len() ==> in_heap(recs, (#[trigger] c[i]).addr) && recs[c[i].addr - 1]
            == c[i].rec
}

// ── Records ─────────────────────────────────────────────────────────────────

/// The record at `addr`, if there is one and its signature holds.
pub open spec fn loaded<C: Crypto>(
    recs: Seq<RecordModel>,
    t: TrustModel,
    addr: u64,
) -> Result<RecordModel, Error> {
    if !in_heap(recs, addr) {
        Err(Error::Integrity)
    } else {
        match signer_of::<C>(recs[addr - 1], t, MembershipScope::CurrentOrRemoved) {
            Ok(_) => Ok(recs[addr - 1]),
            Err(e) => Err(e),
        }
    }
}

/// The record as it is stored: signed where the mode asks for it.
pub open spec fn signed_record<C: Crypto>(
    r: RecordModel,
    t: TrustModel,
    key: Option<[u8; 32]>,
    intent: RecordSignIntent,
) -> Result<RecordModel, Error> {
    match intent {
        RecordSignIntent::Preserve => match signer_of::<C>(
            r,
            t,
            MembershipScope::CurrentOrRemoved,
        ) {
            Ok(_) => Ok(r),
            Err(e) => Err(e),
        },
        RecordSignIntent::Fresh => match t.mode {
            SignMode::Unsigned => Ok(r),
            SignMode::Signed => match key {
                None => Err(Error::Integrity),
                Some(seed) => Ok(
                    RecordModel { signature: Some(C::signed(seed, payload_of(r))), ..r },
                ),
            },
            SignMode::WriterSet => match key {
                None => Err(Error::Integrity),
                Some(seed) => if t.writer_set is Some && t.writer_set->Some_0.writers.contains(
                    C::pubkey_of(seed),
                ) {
                    Ok(RecordModel { signature: Some(C::signed(seed, payload_of(r))), ..r })
                } else {
                    Err(Error::Integrity)
                },
            },
        },
    }
}

/// What is signed and stored can be read back, in the same container.
pub proof fn law_written_records_read_back<C: Crypto>(
    r: RecordModel,
    t: TrustModel,
    key: Option<[u8; 32]>,
    intent: RecordSignIntent,
)
    requires
        C::signs(),
        signed_record::<C>(r, t, key, intent) is Ok,
        t.mode == SignMode::Signed && intent == RecordSignIntent::Fresh ==> C::pubkey_of(
            key->Some_0,
        ) == t.writer_pubkey,
    ensures
        signer_of::<C>(
            signed_record::<C>(r, t, key, intent)->Ok_0,
            t,
            MembershipScope::CurrentOrRemoved,
        ) is Ok,
{
    if intent == RecordSignIntent::Fresh && key is Some {
        let seed = key->Some_0;
        let out = signed_record::<C>(r, t, key, intent)->Ok_0;
        C::lemma_verify_of_sign(seed, payload_of(r));
        assert(payload_of(out) == payload_of(r));
        if t.mode == SignMode::WriterSet {
            let ws = t.writer_set->Some_0;
            let keys = scope_keys(ws, MembershipScope::CurrentOrRemoved);
            let pk = C::pubkey_of(seed);
            let i = choose|i: int| 0 <= i < ws.writers.len() && ws.writers[i] == pk;
            assert(keys[i] == pk);
            crate::writerset::lemma_first_verifying::<C>(
                keys,
                payload_of(r),
                C::signed(seed, payload_of(r)),
            );
            assert(C::verified(keys[i], payload_of(r), C::signed(seed, payload_of(r))));
        }
    }
}

/// A record that the engine signs itself can be read back, or needs no signature.
pub proof fn lemma_own_records_read_back<C: Crypto>(
    r: RecordModel,
    t: TrustModel,
    key: Option<[u8; 32]>,
)
    requires
        signed_record::<C>(r, t, key, RecordSignIntent::Fresh) is Ok,
        t.mode != SignMode::Unsigned ==> C::signs(),
        t.mode == SignMode::Signed ==> C::pubkey_of(key->Some_0) == t.writer_pubkey,
    ensures
        signer_of::<C>(
            signed_record::<C>(r, t, key, RecordSignIntent::Fresh)->Ok_0,
            t,
            MembershipScope::CurrentOrRemoved,
        ) is Ok,
{
    if t.mode != SignMode::Unsigned {
        law_written_records_read_back::<C>(r, t, key, RecordSignIntent::Fresh);
    }
}

/// Reads a record and checks its signature.
pub fn read_unit_record<C: Crypto>(
    b: &RecordHeap,
    addr: u64,
    mode: SignMode,
    writer_pubkey: &[u8; 32],
    writer_set: &Option<WriterSet>,
) -> (r: Result<UnitRecord, Error>)
    ensures
        match loaded::<C>(
            b@,
            (TrustModel {
                mode,
                writer_pubkey: *writer_pubkey,
                writer_set: set_view(*writer_set),
            }),
            addr,
        ) {
            Ok(m) => r is Ok && r->Ok_0@ == m,
            Err(e) => r == Err::<UnitRecord, Error>(e),
        },
{
    match b.get(addr) {
        None => Err(Error::Integrity),
        Some(rec) => match verify_record_signature::<C>(
            &rec,
            mode,
            writer_pubkey,
            writer_set,
            MembershipScope::CurrentOrRemoved,
        ) {
            Ok(_) => Ok(rec),
            Err(e) => Err(e),
        },
    }
}

impl<C: Crypto> Engine<C> {
    /// Whom the records of this container must be signed by.
    pub open spec fn trust(&self) -> TrustModel {
        TrustModel {
            mode: self.header.sign_mode,
            writer_pubkey: self.header.writer_pubkey,
            writer_set: set_view(self.writer_set),
        }
    }

    /// The record at `addr`, if it can be read.
    pub open spec fn record(&self, addr: u64) -> Result<RecordModel, Error> {
        loaded::<C>(self.recs(), self.trust(), addr)
    }

    /// The unit at `key` and the address of its head.
    pub open spec fn head_at(&self, key: Seq<u8>) -> Result<(Uuid, u64), Error> {
        if self.keys@.contains_key(key) && self.ids@.contains_key(self.keys@[key]@) {
            Ok((self.keys@[key], self.ids@[self.keys@[key]@]))
        } else {
            Err(Error::NotFound)
        }
    }

    /// The unit at `key`, the address of its head, and the head itself.
    pub open spec fn head(&self, key: Seq<u8>) -> Result<(Uuid, u64, RecordModel), Error> {
        match self.head_at(key) {
            Err(e) => Err(e),
            Ok((uuid, addr)) => match self.record(addr) {
                Err(e) => Err(e),
                Ok(r) => Ok((uuid, addr, r)),
            },
        }
    }

    /// Reads the record at `addr` and checks its signature.
    pub fn read_record_at(&self, addr: u64) -> (r: Result<UnitRecord, Error>)
        ensures
            match self.record(addr) {
                Ok(m) => r is Ok && r->Ok_0@ == m,
                Err(e) => r == Err::<UnitRecord, Error>(e),
            },
    {
        read_unit_record::<C>(
            &self.disk.records,
            addr,
            self.header.sign_mode,
            &self.header.writer_pubkey,
            &self.writer_set,
        )
    }

    /// The unit at `key` and the address of its head.
    pub fn locate(&self, key: &[u8]) -> (r: Result<(Uuid, u64), Error>)
        requires
            self.inv(),
        ensures
            r == self.head_at(key@),
            r is Ok ==> in_heap(self.recs(), r->Ok_0.1) && self.recs()[r->Ok_0.1 - 1].uuid
                == r->Ok_0.0,
    {
        match self.keys.get(key) {
            None => Err(Error::NotFound),
            Some(uuid) => match self.ids.get(uuid.as_slice()) {
                None => Err(Error::NotFound),
                Some(addr) => {
                    proof {
                        assert(self.ids@.contains_key(uuid@));
                        let ru = self.recs()[addr - 1].uuid;
                        assert(ru@ == uuid@);
                        assert(ru =~= uuid);
                    }
                    Ok((uuid, addr))
                },
            },
        }
    }

    /// The unit at `key`, the address of its head, and the head.
    pub fn find_head(&self, key: &[u8]) -> (r: Result<(Uuid, u64, UnitRecord), Error>)
        requires
            self.inv(),
        ensures
            match self.head(key@) {
                Ok((uuid, addr, m)) => {
                    &&& r is Ok
                    &&& r->Ok_0.0 == uuid
                    &&& r->Ok_0.1 == addr
                    &&& r->Ok_0.2@ == m
                    &&& m.uuid == uuid
                    &&& in_heap(self.recs(), addr)
                    &&& self.recs()[addr - 1] == m
                    &&& self.ids@.contains_key(uuid@)
                    &&& self.ids@[uuid@] == addr
                    &&& record_ok(m, addr - 1)
                },
                Err(e) => r == Err::<(Uuid, u64, UnitRecord), Error>(e),
            },
    {
        let (uuid, addr): (Uuid, u64) = match self.locate(key) {
            Ok(x) => x,
            Err(e) => {
                return Err(e);
            },
        };
        proof {
            assert(record_ok(self.recs()[addr - 1], addr - 1));
        }
        match self.read_record_at(addr) {
            Ok(rec) => Ok((uuid, addr, rec)),
            Err(e) => Err(e),
        }
    }

    /// A record added behind the heads leaves everything in order.
    pub proof fn lemma_record_added(old_e: &Self, new_e: &Self, m: RecordModel)
        requires
            old_e.inv(),
            record_ok(m, old_e.recs().len() as int),
            new_e.recs() == old_e.recs().push(m),
            *new_e == (Engine {
                disk: (Container { records: new_e.disk.records, ..old_e.disk }),
                ..*old_e
            }),
        ensures
            new_e.inv(),
            old_e.recoverable() ==> new_e.recoverable(),
    {
        let recs = old_e.recs();
        let recs2 = new_e.recs();
        assert(recs2.take(recs.len() as int) =~= recs);
        assert forall|i: int| 0 <= i < recs2.len() implies record_ok(#[trigger] recs2[i], i) by {
            if i < recs.len() {
                assert(record_ok(recs[i], i));
            }
        }
        lemma_live_grow(old_e.ids@, recs, recs2, old_e.slots().len(), old_e.slots().len());
        lemma_live_grow(
            old_e.disk.committed.ids@,
            recs,
            recs2,
            old_e.snap@.len(),
            old_e.snap@.len(),
        );
        let c = old_e.record_cache@;
        assert forall|i: int| 0 <= i < c.len() implies in_heap(recs2, (#[trigger] c[i]).addr)
            && recs2[c[i].addr - 1] == c[i].rec by {
            assert(recs2[c[i].addr - 1] == recs[c[i].addr - 1]);
        }
        if old_e.recoverable() {
            assert(journal_ok(new_e.ids@, recs2, new_e.dirty@, new_e.journaled@));
        }
    }

    /// Signs a record as the mode asks and stores it.
    pub fn write_unit_record(&mut self, rec: UnitRecord, intent: RecordSignIntent) -> (r: Result<
        u64,
        Error,
    >)
        requires
            old(self).inv(),
            record_ok(rec@, old(self).recs().len() as int),
        ensures
            final(self).inv(),
            old(self).recoverable() ==> final(self).recoverable(),
            match signed_record::<C>(rec@, old(self).trust(), old(self).signing_key, intent) {
                Err(e) => r == Err::<u64, Error>(e) && *final(self) == *old(self),
                Ok(m) => {
                    &&& r is Ok
                    &&& r->Ok_0 == final(self).recs().len()
                    &&& final(self).recs() == old(self).recs().push(m)
                    &&& *final(self) == (Engine {
                        disk: (Container {
                            records: final(self).disk.records,
                            ..old(self).disk
                        }),
                        ..*old(self)
                    })
                },
            },
    {
        let mut rec: UnitRecord = rec;
        match intent {
            RecordSignIntent::Preserve => {
                match verify_record_signature::<C>(
                    &rec,
                    self.header.sign_mode,
                    &self.header.writer_pubkey,
                    &self.writer_set,
                    MembershipScope::CurrentOrRemoved,
                ) {
                    Ok(_) => {},
                    Err(e) => {
                        return Err(e);
                    },
                }
            },
            RecordSignIntent::Fresh => match self.header.sign_mode {
                SignMode::Unsigned => {},
                SignMode::Signed => match &self.signing_key {
                    None => {
                        return Err(Error::Integrity);
                    },
                    Some(seed) => {
                        let payload: Vec<u8> = rec.signing_payload();
                        rec.signature = Some(C::sign(seed, payload.as_slice()));
                    },
                },
                SignMode::WriterSet => match &self.signing_key {
                    None => {
                        return Err(Error::Integrity);
                    },
                    Some(seed) => {
                        match &self.writer_set {
                            None => {
                                return Err(Error::Integrity);
                            },
                            Some(ws) => {
                                let pk: [u8; 32] = C::pubkey(seed);
                                if !ws.contains(&pk) {
                                    return Err(Error::Integrity);
                                }
                            },
                        }
                        let payload: Vec<u8> = rec.signing_payload();
                        rec.signature = Some(C::sign(seed, payload.as_slice()));
                    },
                },
            },
        }
        let addr: u64 = self.disk.records.push(rec);
        proof {
            Self::lemma_record_added(old(self), &*self, rec@);
        }
        Ok(addr)
    }
}

} // verus!
