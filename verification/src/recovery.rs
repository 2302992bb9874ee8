//! Opening containers, and what survives a crash.
use vstd::prelude::*;

use crate::crypto::Crypto;
use crate::engine::{wal_view, Container, Engine, WalModel};
use crate::error::Error;
use crate::header::header_tag;
use crate::overlay::{lemma_pending_at, lemma_pending_none, overlaid, pending_of, put_write};
use crate::unit::Uuid;
use crate::wal::{path_of, unapplied};

verus! {

impl<C: Crypto> Engine<C> {
    /// Opens a container: takes up its last commit, undoes overwrites that never
    /// were committed, and replays the log where there is one.
    pub fn finish_open(c: Container, root_key: [u8; 32]) -> (r: Result<Self, Error>)
        requires
            c.wf(),
            c.committed.header.wal_applied_seq < u64::MAX,
        ensures
            Self::open_step(c, root_key, r),
            r is Ok ==> r->Ok_0.inv() && r->Ok_0.recoverable(),
    {
        let mut e: Self = match Self::mount(c, root_key) {
            Err(x) => {
                return Err(x);
            },
            Ok(e) => e,
        };
        let ghost m = e;
        proof {
            assert(m.mounted(c, root_key));
        }
        if e.header.wal_enabled {
            match e.replay_wal() {
                Err(x) => {
                    return Err(x);
                },
                Ok(()) => {},
            }
        }
        Ok(e)
    }

    /// What opening a container with a key gives.
    pub open spec fn open_step(c: Container, root_key: [u8; 32], r: Result<Self, Error>) -> bool {
        &&& !Self::key_fits(c, root_key) ==> r == Err::<Self, Error>(Error::Integrity)
        &&& Self::key_fits(c, root_key) ==> exists|m: Self|
            #![trigger m.mounted(c, root_key)]
            m.mounted(c, root_key) && m.inv() && m.recoverable() && m.wal is None
                && m.overlay@.len() == 0 && Self::opened_as(&m, r)
    }

    /// The mounted engine `m`, with its log replayed where it has one.
    pub open spec fn opened_as(m: &Self, r: Result<Self, Error>) -> bool {
        if !m.header.wal_enabled {
            r == Ok::<Self, Error>(*m)
        } else {
            match m.replay_error() {
                Some(x) => r == Err::<Self, Error>(x),
                None => r is Ok && r->Ok_0.inv() && r->Ok_0.recoverable() && Self::replayed(
                    m,
                    &r->Ok_0,
                ),
            }
        }
    }

    /// The records of the log that the last commit does not contain.
    pub open spec fn log_uncommitted(&self) -> Seq<WalModel> {
        unapplied(wal_view(self.disk.wal@), self.disk.committed.header.wal_applied_seq)
    }

    /// The log holds every pending write: were the engine lost now, replaying
    /// the log would bring the same writes back.
    pub open spec fn log_agrees(&self) -> bool {
        let ws = self.log_uncommitted();
        &&& self.wal is Some
        &&& self.disk.committed.header.content_cipher == self.header.content_cipher
        &&& self.disk.committed.header.key_epoch == self.header.key_epoch
        &&& self.disk.committed.header.wal_applied_seq == self.header.wal_applied_seq
        &&& self.header.wal_applied_seq < self.wal->Some_0.next_seq
        &&& self.wal->Some_0.next_seq > 1
        &&& forall|i: int|
            0 <= i < self.disk.wal@.len() ==> (#[trigger] wal_view(self.disk.wal@)[i]).seq
                < self.wal->Some_0.next_seq
        &&& self.wal->Some_0.write_cursor == 0 ==> ws.len() == 0
        &&& self.log_opens(ws)
        &&& forall|u: Uuid| #[trigger] pending_of(self.overlay@, u) == self.log_writes(ws, u)
    }
}

proof fn lemma_unapplied_empty(ws: Seq<WalModel>, applied: u64)
    requires
        forall|i: int| 0 <= i < ws.len() ==> (#[trigger] ws[i]).seq <= applied,
    ensures
        unapplied(ws, applied).len() == 0,
    decreases ws.len(),
{
    if ws.len() > 0 {
        assert forall|i: int| 0 <= i < ws.drop_last().len() implies (
        #[trigger] ws.drop_last()[i]).seq <= applied by {
            assert(ws[i].seq <= applied);
        }
        assert(ws[ws.len() - 1].seq <= applied);
        lemma_unapplied_empty(ws.drop_last(), applied);
    }
}

/// What the log holds of a record that the engine logged is what was written.
proof fn lemma_log_opens<C: Crypto>(e: &Engine<C>, uuid: Uuid, offset: u64, data: Seq<u8>)
    requires
        C::known(e.header.content_cipher),
        data.len() <= u32::MAX,
    ensures
        e.log_plain(e.log_record(uuid, offset, data)) == Some(data),
{
    let w = e.log_record(uuid, offset, data);
    let p = e.log_payload(data);
    C::lemma_open_of_seal(e.header.content_cipher, e.root_key, e.log_ctx(uuid, w.seq), p);
    assert(p.take(data.len() as int) =~= data);
    if p.len() == data.len() {
        assert(p =~= data);
    }
}

/// A logged write is durable at once: the log agrees with the pending writes
/// again after every write to it.
pub proof fn law_logged_writes_are_durable<C: Crypto>(
    o: &Engine<C>,
    e: &Engine<C>,
    uuid: Uuid,
    offset: u64,
    data: Seq<u8>,
)
    requires
        o.log_agrees(),
        C::known(o.header.content_cipher),
        data.len() <= u32::MAX,
        o.wal->Some_0.next_seq < u64::MAX,
        Engine::<C>::log_step(o, e, uuid, offset, data),
    ensures
        e.log_agrees(),
        pending_of(e.overlay@, uuid) == put_write(pending_of(o.overlay@, uuid), offset, data),
{
    let rec = o.log_record(uuid, offset, data);
    let applied = o.disk.committed.header.wal_applied_seq;
    lemma_log_opens(o, uuid, offset, data);
    let w0 = wal_view(o.disk.wal@);
    let w1 = wal_view(e.disk.wal@);
    let base = if o.wal->Some_0.write_cursor == 0 {
        Seq::<WalModel>::empty()
    } else {
        w0
    };
    assert(w1 == base.push(rec));
    assert(w1.drop_last() =~= base);
    assert(w1.last() == rec);
    let l0 = o.log_uncommitted();
    let l1 = e.log_uncommitted();
    if o.wal->Some_0.write_cursor == 0 {
        assert(unapplied(base, applied) =~= Seq::empty());
        assert(l0 =~= Seq::empty());
    }
    assert(unapplied(base, applied) == l0);
    assert(l1 == l0.push(rec));
    assert(l1.drop_last() =~= l0);
    assert forall|i: int| 0 <= i < l1.len() implies e.log_plain(#[trigger] l1[i]) is Some by {
        if i < l0.len() {
            assert(o.log_plain(l0[i]) is Some);
            assert(l1[i] == l0[i]);
        }
    }
    assert forall|i: int| 0 <= i < e.disk.wal@.len() implies (#[trigger] w1[i]).seq
        < e.wal->Some_0.next_seq by {
        if i < base.len() {
            assert(w1[i] == w0[i]);
        }
    }
    assert forall|u: Uuid| #[trigger] pending_of(e.overlay@, u) == e.log_writes(l1, u) by {
        lemma_log_writes_setup(o, e, l0, u);
        assert(pending_of(o.overlay@, u) == o.log_writes(l0, u));
    }
}

proof fn lemma_log_writes_setup<C: Crypto>(
    o: &Engine<C>,
    e: &Engine<C>,
    ws: Seq<WalModel>,
    u: Uuid,
)
    requires
        e.root_key == o.root_key,
        e.header.content_cipher == o.header.content_cipher,
        e.header.key_epoch == o.header.key_epoch,
    ensures
        e.log_writes(ws, u) == o.log_writes(ws, u),
    decreases ws.len(),
{
    if ws.len() > 0 {
        lemma_log_writes_setup(o, e, ws.drop_last(), u);
    }
}

/// A checkpoint that committed leaves nothing in the log to replay.
pub proof fn law_checkpoint_empties_the_log<C: Crypto>(o: &Engine<C>, e: &Engine<C>)
    requires
        o.inv(),
        o.log_agrees(),
        !o.suppress_commit,
        Engine::<C>::checkpointed(o, e, Ok(())),
    ensures
        e.log_agrees(),
        e.log_uncommitted().len() == 0,
        forall|u: Uuid| (#[trigger] pending_of(e.overlay@, u)).len() == 0,
{
    let w1 = wal_view(e.disk.wal@);
    let mid = Engine { wal: o.wal, ..*e };
    assert(e.header.wal_applied_seq == o.last_logged());
    lemma_unapplied_empty(w1, e.header.wal_applied_seq);
    assert forall|u: Uuid| (#[trigger] pending_of(e.overlay@, u)) == e.log_writes(
        e.log_uncommitted(),
        u,
    ) by {}
}

/// After a crash the writes that were logged and not yet checkpointed are
/// pending again, exactly as they were.
pub proof fn law_replay_brings_logged_writes_back<C: Crypto>(
    before: &Engine<C>,
    c: Container,
    m: &Engine<C>,
    r: Result<Engine<C>, Error>,
    u: Uuid,
)
    requires
        before.log_agrees(),
        c.committed.header == before.disk.committed.header,
        c.committed.header.wal_enabled,
        C::known(before.header.content_cipher),
        wal_view(c.wal@) == wal_view(before.disk.wal@),
        m.mounted(c, before.root_key),
        Engine::<C>::opened_as(m, r),
    ensures
        r is Ok,
        pending_of(r->Ok_0.overlay@, u) == pending_of(before.overlay@, u),
{
    let ws = m.log_left();
    assert(ws == before.log_uncommitted());
    assert forall|i: int| 0 <= i < ws.len() implies m.log_plain(#[trigger] ws[i]) is Some by {
        assert(before.log_plain(ws[i]) is Some);
    }
    lemma_log_writes_setup(before, m, ws, u);
    assert(pending_of(before.overlay@, u) == before.log_writes(ws, u));
}

proof fn lemma_path_found(pairs: Seq<(Seq<u8>, Uuid)>, uuid: Uuid, i: int)
    requires
        0 <= i < pairs.len(),
        pairs[i].1 == uuid,
        vstd::utf8::valid_utf8(pairs[i].0),
    ensures
        path_of(pairs, uuid) is Some,
    decreases pairs.len(),
{
    if i < pairs.len() - 1 {
        lemma_path_found(pairs.drop_last(), uuid, i);
    }
}

/// A checkpoint changes nothing that a read by path sees: what was laid over
/// the content before it is part of the content after it.
pub proof fn law_checkpoint_keeps_what_is_read<C: Crypto>(
    o: &Engine<C>,
    e: &Engine<C>,
    key: Seq<u8>,
)
    requires
        o.inv(),
        Engine::<C>::checkpointed(o, e, Ok(())),
        vstd::utf8::valid_utf8(key),
        o.head_at(key) is Ok,
        o.head_of(o.keys@[key]@).stream().geometry_ok(),
    ensures
        e.head_at(key) is Ok,
        e.keys@[key] == o.keys@[key],
        overlaid(e.unit_bytes(o.keys@[key]@), pending_of(e.overlay@, o.keys@[key])) == overlaid(
            o.unit_bytes(o.keys@[key]@),
            pending_of(o.overlay@, o.keys@[key]),
        ),
        o.sound(o.head_of(o.keys@[key]@)) ==> {
            let k = o.keys@[key]@;
            &&& o.full(o.head_of(k)) is Ok
            &&& e.full(e.head_of(k)) is Ok
            &&& overlaid(e.full(e.head_of(k))->Ok_0, pending_of(e.overlay@, o.keys@[key]))
                == overlaid(o.full(o.head_of(k))->Ok_0, pending_of(o.overlay@, o.keys@[key]))
            &&& e.sound(e.head_of(k))
        },
{
    let uuid = o.keys@[key];
    let k = uuid@;
    if !(o.overlay@.len() == 0 && o.wal is None) {
        let n = o.overlay@.len() as int;
        assert(Engine::<C>::flush_done(o, e, n));
        if exists|j: int| 0 <= j < n && (#[trigger] o.overlay@[j]).uuid == uuid {
            let j = choose|j: int| 0 <= j < n && (#[trigger] o.overlay@[j]).uuid == uuid;
            crate::catalog::lemma_map_of(o.keys.pairs());
            let i = choose|i: int|
                0 <= i < o.keys.pairs().len() && (#[trigger] o.keys.pairs()[i]).0 == key;
            lemma_path_found(o.keys.pairs(), uuid, i);
            assert(o.flush_path(j) is Some);
            assert forall|l: int| 0 <= l < j implies (#[trigger] o.overlay@[l]).uuid != uuid by {}
            lemma_pending_at(o.overlay@, uuid, j);
        } else {
            lemma_pending_none(o.overlay@, uuid);
            assert(!o.flushed(n).contains(k)) by {
                if o.flushed(n).contains(k) {
                    let j = choose|j: int|
                        0 <= j < n && (#[trigger] o.overlay@[j]).uuid@ == k && o.flush_path(j)
                            is Some;
                    assert(o.overlay@[j].uuid =~= uuid);
                }
            }
            assert(o.ids@.contains_key(k));
            Engine::<C>::lemma_units_same_reads(o, e, o.flushed(n), k);
        }
    }
    if o.sound(o.head_of(k)) {
        o.law_full_read_is_the_content(o.head_of(k));
        e.law_full_read_is_the_content(e.head_of(k));
    }
}

/// A container opens only with its key: any key under which the header has
/// another tag is refused, whatever else the container holds.
pub proof fn law_other_keys_are_refused<C: Crypto>(
    e: &Engine<C>,
    c: Container,
    key: [u8; 32],
    r: Result<Engine<C>, Error>,
)
    requires
        e.disk.committed.tag == header_tag::<C>(e.root_key, e.disk.committed.header),
        c.committed.header == e.disk.committed.header,
        c.committed.tag == e.disk.committed.tag,
        header_tag::<C>(key, c.committed.header) != header_tag::<C>(
            e.root_key,
            c.committed.header,
        ),
        Engine::<C>::open_step(c, key, r),
    ensures
        r == Err::<Engine<C>, Error>(Error::Integrity),
{
}

/// After a change of keys the old key is refused, and the new one fits.
pub proof fn law_old_keys_are_refused<C: Crypto>(
    o: &Engine<C>,
    e: &Engine<C>,
    new_key: [u8; 32],
    epoch: u64,
    adopt: Option<([u8; 16], u64)>,
    c: Container,
    r: Result<Engine<C>, Error>,
)
    requires
        Engine::<C>::rekeyed(o, e, new_key, epoch, adopt, false, Ok(())),
        !o.suppress_commit,
        o.header.cipher == crate::crypto::CIPHER_AES256_GCM,
        c.committed.header == e.disk.committed.header,
        c.committed.tag == e.disk.committed.tag,
        header_tag::<C>(o.root_key, e.header) != header_tag::<C>(new_key, e.header),
        Engine::<C>::open_step(c, o.root_key, r),
    ensures
        r == Err::<Engine<C>, Error>(Error::Integrity),
        Engine::<C>::key_fits(c, new_key),
        e.root_key == new_key,
        e.header.key_epoch == epoch,
{
    let (m, f, g, t, n) = choose|
        m: Engine<C>,
        f: Engine<C>,
        g: Engine<C>,
        t: Seq<(Engine<C>, Map<Seq<u8>, u64>)>,
        n: nat,
    | #[trigger]
        Engine::<C>::rekey_end(o, e, &m, &f, &g, t, n, new_key, epoch, adopt, false, Ok(()));
    assert(Engine::<C>::checkpointed(o, &m, Ok(())));
    assert(Engine::<C>::grew(&m, &f));
}

} // verus!
