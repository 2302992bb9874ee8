//! Named commits: pinning versions of units and going back to them.
use vstd::prelude::*;
use vstd::string::*;

use crate::block::{bit_set, bitmap_set_bit, lemma_exp_range, lemma_frag_bytes, lemma_frags};
use crate::bytes::{array16, same16, take16};
use crate::commit_record::{commit_bytes, commit_parse, Commit, CommitModel};
use crate::crypto::Crypto;
use crate::engine::{live, record_ok, Container, Engine, RecordSignIntent};
use crate::error::Error;
use crate::heap::in_heap;
use crate::outside::random_bytes;
use crate::overlay::{overlaid, pending_of};
use crate::unit::{
    empty_stream, max_of, CommitBitmap, PinModel, RecordModel, StreamMeta, StreamModel, UnitRecord,
    Uuid,
};
use crate::vector::vv_get;
use crate::wal::{lemma_first_write_fits, none_empty, small_enough, writes_fit_stream};
use crate::write::write_exp;

verus! {

/// The key of the unit that names the last commit: `.sfs/COMMIT_HEAD`.
pub open spec fn head_key() -> Seq<u8> {
    seq![46u8, 115, 102, 115, 47, 67, 79, 77, 77, 73, 84, 95, 72, 69, 65, 68]
}

fn commit_head_key() -> (r: Vec<u8>)
    ensures
        r@ == head_key(),
{
    let r: Vec<u8> = vec![
        46u8, 115u8, 102u8, 115u8, 47u8, 67u8, 79u8, 77u8, 77u8, 73u8, 84u8, 95u8, 72u8, 69u8, 65u8, 68u8
    ];
    proof {
        assert(r@ =~= head_key());
    }
    r
}

/// A hexadecimal digit, in lower case.
pub open spec fn hex_digit(d: int) -> u8 {
    if d < 10 {
        (48 + d) as u8
    } else {
        (87 + d) as u8
    }
}

/// Bytes in hexadecimal.
pub open spec fn hex(b: Seq<u8>) -> Seq<u8>
    decreases b.len(),
{
    if b.len() == 0 {
        Seq::empty()
    } else {
        hex(b.drop_last()).push(hex_digit(b.last() as int / 16)).push(hex_digit(b.last() as int % 16))
    }
}

/// `.sfs/commits/`
pub open spec fn commits_prefix() -> Seq<u8> {
    seq![46u8, 115, 102, 115, 47, 99, 111, 109, 109, 105, 116, 115, 47]
}

/// The key of the unit that holds a commit.
pub open spec fn commit_key(commitish: Uuid) -> Seq<u8> {
    commits_prefix() + hex(commitish@)
}

fn hex_char(d: u8) -> (r: u8)
    requires
        d < 16,
    ensures
        r == hex_digit(d as int),
{
    if d < 10 {
        48 + d
    } else {
        87 + d
    }
}

fn key_of_commit(commitish: &Uuid) -> (r: Vec<u8>)
    ensures
        r@ == commit_key(*commitish),
{
    let mut r: Vec<u8> = vec![
        46u8, 115u8, 102u8, 115u8, 47u8, 99u8, 111u8, 109u8, 109u8, 105u8, 116u8, 115u8, 47u8
    ];
    let ghost b = commitish@;
    proof {
        assert(r@ =~= commits_prefix());
        assert(b.take(0) =~= Seq::empty());
        assert(r@ =~= commits_prefix() + hex(b.take(0)));
    }
    let mut i: usize = 0;
    while i < 16
        invariant
            b == commitish@,
            b.len() == 16,
            i <= 16,
            r@ == commits_prefix() + hex(b.take(i as int)),
        decreases 16 - i,
    {
        let x: u8 = commitish[i];
        r.push(hex_char(x / 16));
        r.push(hex_char(x % 16));
        proof {
            assert(b.take(i + 1).drop_last() =~= b.take(i as int));
            assert(b.take(i + 1).last() == x);
            assert(r@ =~= commits_prefix() + hex(b.take(i + 1)));
        }
        i = i + 1;
    }
    proof {
        assert(b.take(16) =~= b);
    }
    r
}

/// The keys behind paths.
pub open spec fn keys_of(paths: Seq<&str>) -> Seq<Seq<u8>> {
    Seq::new(paths.len(), |i: int| paths[i].spec_bytes())
}

/// The version of a stream that may not be there.
pub open spec fn version_of(s: Option<StreamModel>) -> u64 {
    match s {
        Some(sm) => sm.max_version(),
        None => 0,
    }
}

fn latest(s: &Option<StreamMeta>) -> (r: u64)
    ensures
        r == version_of(crate::unit::stream_view(*s)),
{
    match s {
        Some(sm) => max_of(&sm.unit_map),
        None => 0,
    }
}

/// All fragments of a stream with `n` of them, and no others.
pub open spec fn all_set(bits: Seq<u8>, n: int) -> bool {
    forall|f: int| #[trigger] bit_set(bits, f) == (0 <= f < n)
}

/// `x` is `m` with its fragments pinned by a commit.
pub open spec fn pinned(m: RecordModel, x: RecordModel, commitish: Uuid) -> bool {
    match m.content {
        None => x == m,
        Some(sm) => if sm.n() == 0 {
            x == m
        } else {
            let pins = x.stream().pins;
            &&& x == (RecordModel { content: Some(StreamModel { pins, ..sm }), ..m })
            &&& pins.len() == sm.pins.len() + 1
            &&& pins.drop_last() == sm.pins
            &&& pins.last().commit == commitish
            &&& all_set(pins.last().bits, sm.n() as int)
        },
    }
}

impl<C: Crypto> Engine<C> {
    /// The commit that a new one follows: the one that the head unit names, if
    /// it names one.
    pub open spec fn tag_parents(&self) -> Seq<Uuid> {
        match self.head(head_key()) {
            Err(_) => Seq::empty(),
            Ok((uuid, _, m)) => match self.full(m) {
                Err(_) => Seq::empty(),
                Ok(s) => {
                    let b = overlaid(s, pending_of(self.overlay@, uuid));
                    if b.len() == 16 {
                        seq![array16(b)]
                    } else {
                        Seq::empty()
                    }
                },
            },
        }
    }

    fn find_parents(&self) -> (r: Vec<Uuid>)
        requires
            self.inv(),
            self.geometry_at(head_key()),
        ensures
            r@ == self.tag_parents(),
    {
        let key: Vec<u8> = commit_head_key();
        let mut out: Vec<Uuid> = Vec::new();
        match self.read_key(key.as_slice()) {
            Err(_) => {},
            Ok(b) => {
                if b.len() == 16 {
                    out.push(take16(b.as_slice(), 0));
                    proof {
                        assert(b@.subrange(0, 16) =~= b@);
                    }
                }
            },
        }
        proof {
            assert(out@ =~= self.tag_parents());
        }
        out
    }

    /// The versions that a commit of these units holds.
    pub open spec fn tag_entries(&self, keys: Seq<Seq<u8>>) -> Result<Seq<(Uuid, u64, u64)>, Error>
        decreases keys.len(),
    {
        if keys.len() == 0 {
            Ok(Seq::empty())
        } else {
            match self.tag_entries(keys.drop_last()) {
                Err(e) => Err(e),
                Ok(s) => match self.head(keys.last()) {
                    Err(e) => Err(e),
                    Ok((uuid, _, m)) => Ok(
                        s.push((uuid, version_of(m.content), version_of(m.meta))),
                    ),
                },
            }
        }
    }

    proof fn lemma_tag_entries(&self, keys: Seq<Seq<u8>>, i: int)
        requires
            0 <= i <= keys.len(),
            self.tag_entries(keys.take(i)) is Err,
        ensures
            self.tag_entries(keys) == self.tag_entries(keys.take(i)),
        decreases keys.len() - i,
    {
        if i < keys.len() {
            assert(keys.take(i + 1).drop_last() =~= keys.take(i));
            self.lemma_tag_entries(keys, i + 1);
        } else {
            assert(keys.take(i) =~= keys);
        }
    }

    fn collect_entries(&self, paths: &[&str]) -> (r: Result<Vec<(Uuid, u64, u64)>, Error>)
        requires
            self.inv(),
        ensures
            match self.tag_entries(keys_of(paths@)) {
                Err(e) => r is Err && r->Err_0 == e,
                Ok(s) => r is Ok && r->Ok_0@ == s && s.len() == paths@.len(),
            },
    {
        let ghost keys = keys_of(paths@);
        let n: usize = paths.len();
        let mut out: Vec<(Uuid, u64, u64)> = Vec::new();
        let mut i: usize = 0;
        proof {
            assert(keys.take(0) =~= Seq::empty());
            assert(out@ =~= Seq::empty());
        }
        while i < n
            invariant
                self.inv(),
                keys == keys_of(paths@),
                n == paths@.len(),
                i <= n,
                out@.len() == i,
                self.tag_entries(keys.take(i as int)) == Ok::<Seq<(Uuid, u64, u64)>, Error>(out@),
            decreases n - i,
        {
            proof {
                assert(keys.take(i + 1).drop_last() =~= keys.take(i as int));
                assert(keys.take(i + 1).last() == keys[i as int]);
                if self.tag_entries(keys.take(i + 1)) is Err {
                    self.lemma_tag_entries(keys, i + 1);
                }
            }
            let (uuid, addr, rec): (Uuid, u64, UnitRecord) = match self.find_head(
                paths[i].as_bytes(),
            ) {
                Err(e) => {
                    return Err(e);
                },
                Ok(x) => x,
            };
            out.push((uuid, latest(&rec.content), latest(&rec.meta)));
            i = i + 1;
        }
        proof {
            assert(keys.take(n as int) =~= keys);
        }
        Ok(out)
    }

    /// The head at `key` was written again, with its fragments pinned.
    pub open spec fn pin_step(a: &Self, b: &Self, key: Seq<u8>, commitish: Uuid) -> bool {
        let (uuid, _, m) = a.head(key)->Ok_0;
        let x = b.recs().last();
        &&& a.head(key) is Ok
        &&& b.recs() == a.recs().push(x)
        &&& b.recs().len() <= u64::MAX
        &&& b.ids@ == a.ids@.insert(uuid@, b.recs().len() as u64)
        &&& x == a.signed_fresh((RecordModel { content: x.content, ..m }))
        &&& pinned(m, (RecordModel { content: x.content, ..m }), commitish)
        &&& *b == (Engine {
            disk: (Container { records: b.disk.records, ..a.disk }),
            ids: b.ids,
            ..*a
        })
    }

    fn pin_unit(&mut self, key: &[u8], commitish: &Uuid) -> (r: Result<(), Error>)
        requires
            old(self).inv(),
        ensures
            final(self).inv(),
            old(self).recoverable() ==> final(self).recoverable(),
            match old(self).head(key@) {
                Err(e) => r == Err::<(), Error>(e) && *final(self) == *old(self),
                Ok(_) => if old(self).may_sign() {
                    r is Ok && Self::pin_step(old(self), final(self), key@, *commitish)
                } else {
                    r == Err::<(), Error>(Error::Integrity) && *final(self) == *old(self)
                },
            },
    {
        let ghost o = *self;
        let ghost lo = o.slots().len();
        let (uuid, addr, rec0): (Uuid, u64, UnitRecord) = match self.find_head(key) {
            Err(e) => {
                return Err(e);
            },
            Ok(x) => x,
        };
        let ghost m = rec0@;
        let mut rec: UnitRecord = rec0;
        let mut content: Option<StreamMeta> = None;
        match &rec.content {
            None => {},
            Some(sm) => {
                let mut sm1: StreamMeta = sm.clone();
                let n: usize = sm1.unit_map.len();
                if n > 0 {
                    let mut bits: Vec<u8> = Vec::new();
                    let mut f: usize = 0;
                    proof {
                        assert(all_set(bits@, 0));
                    }
                    while f < n
                        invariant
                            f <= n,
                            all_set(bits@, f as int),
                        decreases n - f,
                    {
                        let ghost before = bits@;
                        bitmap_set_bit(&mut bits, f);
                        proof {
                            assert forall|k: int| #[trigger] bit_set(bits@, k) == (0 <= k < f + 1) by {
                                assert(bit_set(before, k) == (0 <= k < f));
                            }
                        }
                        f = f + 1;
                    }
                    let ghost pins = sm1@.pins;
                    let pin: CommitBitmap = CommitBitmap { commit: *commitish, bits };
                    sm1.pins.push(pin);
                    proof {
                        assert(sm1@.pins =~= pins.push(pin@));
                        assert(sm1@.pins.drop_last() =~= pins);
                    }
                }
                content = Some(sm1);
            },
        }
        if content.is_some() {
            rec.content = content;
        }
        let ghost x = rec@;
        proof {
            assert(pinned(m, x, *commitish));
            o.lemma_kept_places(uuid, x);
            o.lemma_may_sign(x);
            assert(record_ok(x, o.recs().len() as int));
        }
        match self.install_head(rec, RecordSignIntent::Fresh, Ghost(lo)) {
            Err(e) => Err(e),
            Ok(_) => Ok(()),
        }
    }

    /// The states between pinning one unit after the other.
    pub open spec fn pin_trace(t: Seq<Self>, keys: Seq<Seq<u8>>, commitish: Uuid) -> bool {
        &&& t.len() == keys.len() + 1
        &&& forall|i: int| 0 <= i < t.len() ==> (#[trigger] t[i]).inv()
        &&& forall|i: int|
            #![trigger t[i + 1]]
            0 <= i < keys.len() ==> Self::pin_step(&t[i], &t[i + 1], keys[i], commitish)
    }

    /// The first unit that could not be pinned, after those of the trace, gives
    /// the error `x`.
    pub open spec fn pins_blocked(
        o: &Self,
        e: &Self,
        keys: Seq<Seq<u8>>,
        commitish: Uuid,
        t: Seq<Self>,
        x: Error,
    ) -> bool {
        let i = t.len() - 1;
        &&& 0 <= i < keys.len()
        &&& Self::pin_trace(t, keys.take(i), commitish)
        &&& t[0] == *o
        &&& t[i] == *e
        &&& match t[i].head(keys[i]) {
            Err(y) => x == y,
            Ok(_) => !t[i].may_sign() && x == Error::Integrity,
        }
    }
}


/// A stream that can be written over from its start a few times, within machine
/// limits.
pub open spec fn small_stream(sm: StreamModel, alias: u16) -> bool {
    &&& sm.geometry_ok()
    &&& sm.n() > 0 ==> sm.last_frag_length >= 1
    &&& vv_get(sm.vv, alias) + 2 < u64::MAX
    &&& small_enough(sm.size())
}

/// The states that a commit goes through.
pub struct CommitTrace<C: Crypto> {
    /// From the first to the last unit pinned.
    pub pins: Seq<Engine<C>>,
    /// After the commit's unit was created, and written.
    pub created: Engine<C>,
    pub written: Engine<C>,
    /// After the head unit was created where there was none, and written.
    pub headed: Engine<C>,
    pub advanced: Engine<C>,
}

impl<C: Crypto> Engine<C> {
    /// The unit at `key`, if there is one, is small.
    pub open spec fn unit_small(&self, key: Seq<u8>) -> bool {
        self.head(key) is Ok ==> small_stream(self.head(key)->Ok_0.2.stream(), self.local_alias)
    }

    /// The unit at `key` can be read.
    pub open spec fn unit_ready(&self, key: Seq<u8>) -> bool {
        self.head(key) is Ok && forall|f: int|
            0 <= f < self.head(key)->Ok_0.2.stream().n() ==> #[trigger] self.readable(
                self.head(key)->Ok_0.2,
                f,
            )
    }

    /// After a head was installed, another unit's head is what it was.
    pub proof fn lemma_other_head(a: &Self, b: &Self, uuid: Uuid, key: Seq<u8>)
        requires
            a.inv(),
            b.recs().len() == a.recs().len() + 1,
            b.recs().len() <= u64::MAX,
            b.recs().take(a.recs().len() as int) == a.recs(),
            b.ids@ == a.ids@.insert(uuid@, b.recs().len() as u64),
            b.trust() == a.trust(),
            b.keys@.contains_key(key) == a.keys@.contains_key(key),
            a.keys@.contains_key(key) ==> b.keys@[key] == a.keys@[key],
        ensures
            a.head_at(key) is Ok && a.keys@[key] != uuid ==> b.head(key) == a.head(key),
            a.keys@.contains_key(key) && a.keys@[key] == uuid && b.head(key) is Ok ==> b.head(
                key,
            ) == Ok::<(Uuid, u64, RecordModel), Error>(
                (uuid, b.recs().len() as u64, b.recs().last()),
            ),
            a.keys@.contains_key(key) && a.keys@[key] == uuid && signer_ok(
                b,
                b.recs().last(),
            ) ==> b.head(key) is Ok,
            a.head_at(key) is Err && (!a.keys@.contains_key(key) || a.keys@[key] != uuid)
                ==> b.head(key) is Err,
    {
        if a.keys@.contains_key(key) {
            let u = a.keys@[key];
            if u != uuid {
                assert(u@ != uuid@) by {
                    if u@ == uuid@ {
                        assert(u =~= uuid);
                    }
                }
                if a.ids@.contains_key(u@) {
                    let i = a.ids@[u@];
                    assert(b.recs().take(a.recs().len() as int)[i - 1] == b.recs()[i - 1]);
                }
            }
        }
    }

    /// Pinning changes nothing that matters to later writes.
    proof fn lemma_pin_keeps(a: &Self, b: &Self, key: Seq<u8>, commitish: Uuid, hk: Seq<u8>)
        requires
            a.inv(),
            Self::pin_step(a, b, key, commitish),
            a.may_sign(),
            a.unit_small(hk),
        ensures
            b.unit_small(hk),
            b.may_sign(),
            a.reads_own_records() && a.keys@.contains_key(hk) && a.unit_ready(hk) ==> b.unit_ready(
                hk,
            ),
            a.reads_own_records() && a.head(hk) is Ok ==> b.head(hk) is Ok,
    {
        let (uuid, _, m) = a.head(key)->Ok_0;
        let x = b.recs().last();
        let y = RecordModel { content: x.content, ..m };
        assert(b.recs().take(a.recs().len() as int) =~= a.recs());
        Self::lemma_other_head(a, b, uuid, hk);
        a.lemma_may_sign(y);
        if a.reads_own_records() {
            crate::engine::lemma_own_records_read_back::<C>(
                y,
                a.trust(),
                a.signing_key,
            );
            assert(signer_ok(b, x));
        }
        if a.head(hk) is Ok && a.keys@[hk] == uuid {
            assert(a.head(hk)->Ok_0.2 == m);
            assert(x.stream().unit_map == m.stream().unit_map);
            assert(x.stream().locations == m.stream().locations);
            assert forall|f: int| 0 <= f < m.stream().n() && a.readable(m, f) implies #[trigger] b.readable(
                x,
                f,
            ) by {
                assert(b.frag(x, f) == a.frag(m, f));
            }
        } else if a.head(hk) is Ok {
            let h = a.head(hk)->Ok_0.2;
            assert forall|f: int| 0 <= f < h.stream().n() && a.readable(h, f) implies #[trigger] b.readable(
                h,
                f,
            ) by {
                assert(b.frag(h, f) == a.frag(h, f));
            }
        }
    }
}

/// The record can be read back where it was stored.
pub open spec fn signer_ok<C: Crypto>(e: &Engine<C>, m: RecordModel) -> bool {
    crate::writerset::signer_of::<C>(
        m,
        e.trust(),
        crate::writerset::MembershipScope::CurrentOrRemoved,
    ) is Ok
}


impl<C: Crypto> Engine<C> {
    /// Creating a unit changes nothing that matters to later writes elsewhere,
    /// and the new unit can be written.
    pub proof fn lemma_create_keeps(a: &Self, b: &Self, key: Seq<u8>, uuid: Uuid, hk: Seq<u8>)
        requires
            a.inv(),
            Self::create_step(a, b, key, uuid, true, None, None, Ok(uuid)),
            !a.keys@.contains_key(key),
            a.may_sign(),
            a.suppress_commit,
            a.unit_small(hk),
        ensures
            b.unit_small(hk),
            b.unit_small(key),
            b.may_sign(),
            b.head(key) is Ok ==> b.head(key)->Ok_0.2.stream() == empty_stream(),
            a.reads_own_records() ==> b.head(key) is Ok,
            a.reads_own_records() && !a.ids@.contains_key(uuid@) && a.unit_ready(hk)
                ==> b.unit_ready(hk),
    {
        let x = b.recs().last();
        let y = a.fresh_record(uuid, true, None, None);
        assert(b.recs().take(a.recs().len() as int) =~= a.recs());
        a.lemma_may_sign(y);
        assert(x == a.signed_fresh(y));
        assert(!crate::vector::vv_has(empty_stream().vv, a.local_alias));
        if a.reads_own_records() {
            crate::engine::lemma_own_records_read_back::<C>(y, a.trust(), a.signing_key);
        }
        if hk != key {
            Self::lemma_other_head(a, b, uuid, hk);
            if a.head(hk) is Ok && a.keys@[hk] != uuid {
                let h = a.head(hk)->Ok_0.2;
                assert forall|f: int| 0 <= f < h.stream().n() && a.readable(h, f) implies #[trigger] b.readable(
                    h,
                    f,
                ) by {
                    assert(b.frag(h, f) == a.frag(h, f));
                }
            }
        }
    }

    /// Writing a fresh unit changes nothing that matters to later writes.
    pub proof fn lemma_write_keeps(a: &Self, b: &Self, key: Seq<u8>, data: Seq<u8>, hk: Seq<u8>)
        requires
            a.inv(),
            b.inv(),
            a.head(key) is Ok,
            Self::written(a, b, key, 0, data),
            Self::same_setup(a, b),
            Self::others_kept(a, b, a.head(key)->Ok_0.0@),
            a.suppress_commit,
            Self::commit_step(a, b),
            a.head(key)->Ok_0.2.stream() == empty_stream(),
            data.len() > 0,
            small_enough(data.len()),
            a.unit_small(hk),
        ensures
            b.unit_small(hk),
            b.may_sign() == a.may_sign(),
            a.reads_own_records() && a.unit_ready(hk) && a.keys@[hk] != a.keys@[key]
                ==> b.unit_ready(hk),
            a.reads_own_records() && a.may_sign() && a.head(hk) is Ok ==> b.head(hk) is Ok,
    {
        let (uuid, _, m) = a.head(key)->Ok_0;
        let x = b.recs().last();
        Self::lemma_other_head(a, b, uuid, hk);
        let sm0 = m.stream();
        let sm1 = x.stream();
        let exp = write_exp(sm0, data.len());
        lemma_exp_range(data.len(), 12, 22);
        lemma_frag_bytes(exp);
        lemma_frags(data.len(), exp);
        assert(!crate::vector::vv_has(empty_stream().vv, a.local_alias));
        assert(vv_get(sm1.vv, a.local_alias) == 1);
        assert(sm1.size() == data.len());
        if a.reads_own_records() && a.may_sign() {
            let y = RecordModel { signature: None, ..x };
            a.lemma_may_sign(y);
            crate::engine::lemma_own_records_read_back::<C>(y, a.trust(), a.signing_key);
            if a.header.sign_mode == crate::writerset::SignMode::Unsigned {
                assert(signer_ok(b, x));
            } else {
                assert(x == a.signed_fresh(y));
                assert(signer_ok(b, x));
            }
        }
        if a.head(hk) is Ok && a.keys@[hk] != uuid {
            let h = a.head(hk)->Ok_0.2;
            let l = a.keys@[hk]@;
            assert(l != uuid@) by {
                if l == uuid@ {
                    assert(a.keys@[hk] =~= uuid);
                }
            }
            assert(a.ids@.contains_key(l));
            assert(a.head_of(l) == h);
            assert forall|f: int| 0 <= f < h.stream().n() && a.readable(h, f) implies #[trigger] b.readable(
                h,
                f,
            ) by {
                let loc = h.stream().locations[f];
                assert(live(a.ids@, a.recs(), l, f) == loc.addr);
                if loc.addr != 0 {
                    assert(in_heap(a.slots(), loc.addr));
                }
                assert(b.frag(h, f) == a.frag(h, f));
            }
        }
    }

    /// A unit that is small and can be read can be written over from its start.
    pub proof fn lemma_small_fits(&self, key: Seq<u8>, data: Seq<u8>)
        requires
            self.head(key) is Ok,
            self.unit_small(key),
            small_enough(data.len()),
            data.len() > 0,
        ensures
            self.write_fits_at(key, 0, data.len()),
            self.unit_ready(key) && C::known(self.header.content_cipher) && self.may_sign()
                && self.reads_own_records() && self.no_crash_seam() ==> self.write_error(
                key,
                0,
                data.len(),
            ) is None,
    {
        let m = self.head(key)->Ok_0.2;
        let ws = seq![(0u64, data)];
        assert(ws.skip(1) =~= Seq::<(u64, Seq<u8>)>::empty());
        assert(none_empty(ws));
        assert(writes_fit_stream(m.stream(), self.local_alias, ws));
        lemma_first_write_fits(m.stream(), self.local_alias, ws);
        if self.unit_ready(key) && C::known(self.header.content_cipher) && self.may_sign()
            && self.reads_own_records() && self.no_crash_seam() {
            self.lemma_flush_owed(m, ws);
        }
    }

    /// What a commit that succeeded did.
    pub open spec fn commit_done(
        o: &Self,
        e: &Self,
        keys: Seq<Seq<u8>>,
        c: CommitModel,
        unit: Uuid,
        head_unit: Uuid,
        t: CommitTrace<C>,
    ) -> bool {
        let last = Engine { suppress_commit: o.suppress_commit, ..t.advanced };
        &&& Self::commit_staged(&o.held_back(), keys, c, unit, head_unit, t)
        &&& if o.suppress_commit {
            *e == last
        } else {
            Self::published(&last, e)
        }
    }

    /// The states that staging a commit goes through.
    pub open spec fn commit_staged(
        o: &Self,
        keys: Seq<Seq<u8>>,
        c: CommitModel,
        unit: Uuid,
        head_unit: Uuid,
        t: CommitTrace<C>,
    ) -> bool {
        &&& Self::pin_trace(t.pins, keys, c.commitish)
        &&& t.pins[0] == *o
        &&& Self::create_step(
            &t.pins[keys.len() as int],
            &t.created,
            commit_key(c.commitish),
            unit,
            true,
            None,
            None,
            Ok(unit),
        )
        &&& t.created.inv()
        &&& Self::write_step(
            &t.created,
            &t.written,
            commit_key(c.commitish),
            0,
            commit_bytes(c),
            Ok(()),
        )
        &&& t.written.inv()
        &&& if t.written.keys@.contains_key(head_key()) {
            t.headed == t.written
        } else {
            Self::create_step(
                &t.written,
                &t.headed,
                head_key(),
                head_unit,
                true,
                None,
                None,
                Ok(head_unit),
            )
        }
        &&& t.headed.inv()
        &&& Self::write_step(&t.headed, &t.advanced, head_key(), 0, c.commitish@, Ok(()))
        &&& t.advanced.inv()
    }

    /// The commit that is made of these units now.
    pub open spec fn commit_of(
        &self,
        keys: Seq<Seq<u8>>,
        title: Seq<char>,
        message: Seq<char>,
        commitish: Uuid,
    ) -> CommitModel {
        CommitModel {
            title,
            message,
            commitish,
            parents: self.tag_parents(),
            entries: self.tag_entries(keys)->Ok_0,
        }
    }

    /// A commit of existing units must go through.
    pub open spec fn commit_owed(&self, commitish: Uuid, unit: Uuid) -> bool {
        &&& self.may_sign()
        &&& self.reads_own_records()
        &&& self.no_crash_seam()
        &&& C::known(self.header.content_cipher)
        &&& !self.keys@.contains_key(commit_key(commitish))
        &&& !self.ids@.contains_key(unit@)
        &&& self.keys@.contains_key(head_key()) ==> self.unit_ready(head_key())
    }
}


pub proof fn lemma_commit_small(c: CommitModel)
    requires
        vstd::utf8::encode_utf8(c.title).len() <= u32::MAX,
        vstd::utf8::encode_utf8(c.message).len() <= u32::MAX,
        c.parents.len() <= 1,
        c.entries.len() <= u32::MAX,
    ensures
        0 < commit_bytes(c).len() <= 0x800_0000_0000,
{
    crate::evicted::lemma_uuid_run_len(c.parents);
    crate::commit_record::lemma_entry_run_len(c.entries);
    crate::bytes::lemma_le_len(vstd::utf8::encode_utf8(c.title).len(), 4);
    crate::bytes::lemma_le_len(vstd::utf8::encode_utf8(c.message).len(), 4);
    crate::bytes::lemma_le_len(c.parents.len(), 4);
    crate::bytes::lemma_le_len(c.entries.len(), 4);
}

impl<C: Crypto> Engine<C> {
    /// Pins all the units, one after the other.
    fn pin_units(&mut self, paths: &[&str], commitish: &Uuid, Ghost(hk): Ghost<Seq<u8>>) -> (r: (
        Result<(), Error>,
        Ghost<Seq<Self>>,
    ))
        requires
            old(self).inv(),
            old(self).suppress_commit,
            old(self).unit_small(hk),
        ensures
            final(self).inv(),
            old(self).recoverable() ==> final(self).recoverable(),
            *final(self) == (Engine {
                disk: (Container { records: final(self).disk.records, ..old(self).disk }),
                ids: final(self).ids,
                ..*old(self)
            }),
            final(self).unit_small(hk),
            r.0 is Ok ==> {
                &&& Self::pin_trace(r.1@, keys_of(paths@), *commitish)
                &&& r.1@[0] == *old(self)
                &&& r.1@[paths@.len() as int] == *final(self)
                &&& forall|u: Seq<u8>| #[trigger]
                    final(self).ids@.contains_key(u) == old(self).ids@.contains_key(u)
            },
            r.0 is Err ==> Self::pins_blocked(
                old(self),
                final(self),
                keys_of(paths@),
                *commitish,
                r.1@,
                r.0->Err_0,
            ),
            paths@.len() == 0 ==> r.0 is Ok,
            !old(self).may_sign() && paths@.len() > 0 ==> r.0 == Err::<(), Error>(Error::Integrity)
                || old(self).tag_entries(keys_of(paths@)) is Err,
            old(self).may_sign() && old(self).reads_own_records() && old(self).tag_entries(
                keys_of(paths@),
            ) is Ok ==> {
                &&& r.0 is Ok
                &&& old(self).unit_ready(hk) ==> final(self).unit_ready(hk)
            },
    {
        let ghost o = *self;
        let ghost keys = keys_of(paths@);
        let n: usize = paths.len();
        let ghost mut t: Seq<Self> = seq![*self];
        let mut i: usize = 0;
        proof {
            assert(keys.take(0) =~= Seq::empty());
            o.lemma_entries_heads(keys);
        }
        while i < n
            invariant
                o == *old(self),
                o.suppress_commit,
                keys == keys_of(paths@),
                n == paths@.len(),
                i <= n,
                self.inv(),
                o.recoverable() ==> self.recoverable(),
                *self == (Engine {
                    disk: (Container { records: self.disk.records, ..o.disk }),
                    ids: self.ids,
                    ..o
                }),
                self.unit_small(hk),
                t.len() == i + 1,
                t[0] == o,
                t[i as int] == *self,
                forall|j: int| 0 <= j < t.len() ==> (#[trigger] t[j]).inv(),
                forall|j: int|
                    #![trigger t[j + 1]]
                    0 <= j < i ==> Self::pin_step(&t[j], &t[j + 1], keys[j], *commitish),
                forall|u: Seq<u8>| #[trigger]
                    self.ids@.contains_key(u) == o.ids@.contains_key(u),
                i > 0 ==> o.may_sign(),
                o.tag_entries(keys) is Ok ==> forall|j: int|
                    0 <= j < n ==> o.head(#[trigger] keys[j]) is Ok,
                o.may_sign() && o.reads_own_records() ==> {
                    &&& o.unit_ready(hk) ==> self.unit_ready(hk)
                    &&& forall|k: Seq<u8>| #[trigger] o.head(k) is Ok ==> self.head(k) is Ok
                },
            decreases n - i,
        {
            let ghost before = *self;
            proof {
                assert(keys[i as int] == paths@[i as int].spec_bytes());
                if i == 0 {
                    assert(before.head(keys[0]) == o.head(keys[0]));
                }
            }
            match self.pin_unit(paths[i].as_bytes(), commitish) {
                Err(e) => {
                    proof {
                        if o.tag_entries(keys) is Ok {
                            assert(o.head(keys[i as int]) is Ok);
                        }
                        assert(keys.take(i as int).len() == i);
                        assert forall|j: int|
                            #![trigger t[j + 1]]
                            0 <= j < i implies Self::pin_step(
                            &t[j],
                            &t[j + 1],
                            keys.take(i as int)[j],
                            *commitish,
                        ) by {}
                        assert(Self::pin_trace(t, keys.take(i as int), *commitish));
                    }
                    return (Err(e), Ghost(t));
                },
                Ok(()) => {},
            }
            proof {
                Self::lemma_pin_keeps(&before, &*self, keys[i as int], *commitish, hk);
                assert forall|k: Seq<u8>| o.may_sign() && o.reads_own_records() && #[trigger] o.head(k) is Ok implies self.head(
                    k,
                ) is Ok by {
                    before.lemma_pin_heads(&*self, keys[i as int], *commitish, k);
                }
                let t0 = t;
                t = t.push(*self);
                assert forall|j: int| 0 <= j < t.len() implies (#[trigger] t[j]).inv() by {
                    if j <= i {
                        assert(t[j] == t0[j]);
                    }
                }
                assert forall|j: int|
                    #![trigger t[j + 1]]
                    0 <= j < i + 1 implies Self::pin_step(
                    &t[j],
                    &t[j + 1],
                    keys[j],
                    *commitish,
                ) by {
                    if j < i {
                        assert(t[j + 1] == t0[j + 1]);
                        assert(t[j] == t0[j]);
                    }
                }
            }
            i = i + 1;
        }
        (Ok(()), Ghost(t))
    }

    pub proof fn lemma_entries_heads(&self, keys: Seq<Seq<u8>>)
        ensures
            self.tag_entries(keys) is Ok ==> forall|j: int|
                0 <= j < keys.len() ==> self.head(#[trigger] keys[j]) is Ok,
        decreases keys.len(),
    {
        if keys.len() > 0 {
            let p = keys.drop_last();
            self.lemma_entries_heads(p);
            if self.tag_entries(keys) is Ok {
                assert forall|j: int| 0 <= j < keys.len() implies self.head(#[trigger] keys[j]) is Ok by {
                    if j < p.len() {
                        assert(self.head(p[j]) is Ok);
                    }
                }
            }
        }
    }

    proof fn lemma_pin_heads(&self, b: &Self, key: Seq<u8>, commitish: Uuid, k: Seq<u8>)
        requires
            self.inv(),
            Self::pin_step(self, b, key, commitish),
            self.may_sign(),
            self.reads_own_records(),
            self.head(k) is Ok,
        ensures
            b.head(k) is Ok,
    {
        let (uuid, _, m) = self.head(key)->Ok_0;
        let x = b.recs().last();
        let y = RecordModel { content: x.content, ..m };
        assert(b.recs().take(self.recs().len() as int) =~= self.recs());
        Self::lemma_other_head(self, b, uuid, k);
        self.lemma_may_sign(y);
        crate::engine::lemma_own_records_read_back::<C>(y, self.trust(), self.signing_key);
        assert(signer_ok(b, x));
    }
}


impl<C: Crypto> Engine<C> {
    /// The texts and the number of units of a commit fit its record.
    pub open spec fn commit_sized(title: &str, message: &str, paths: Seq<&str>) -> bool {
        &&& title.spec_bytes().len() <= u32::MAX
        &&& message.spec_bytes().len() <= u32::MAX
        &&& paths.len() <= u32::MAX
    }

    /// Nothing was committed, and commits are held back if they were before.
    pub open spec fn commit_abandoned(o: &Self, e: &Self) -> bool {
        &&& e.suppress_commit == o.suppress_commit
        &&& e.header == o.header
        &&& e.disk.committed == o.disk.committed
        &&& e.snap == o.snap
        &&& e.overlay == o.overlay
        &&& e.wal == o.wal
    }

    /// The first step of a commit that failed gives its error `x`: storing the
    /// commit's record, or moving the head unit on, after all units were pinned;
    /// or pinning one of them.
    pub open spec fn commit_blocked(
        o: &Self,
        e: &Self,
        keys: Seq<Seq<u8>>,
        c: CommitModel,
        unit: Uuid,
        head_unit: Uuid,
        t: CommitTrace<C>,
        x: Error,
    ) -> bool {
        let p = t.pins[keys.len() as int];
        let ck = commit_key(c.commitish);
        ||| Self::pins_blocked(o, e, keys, c.commitish, t.pins, x)
        ||| {
            &&& Self::pin_trace(t.pins, keys, c.commitish)
            &&& t.pins[0] == *o
            &&& {
                ||| Self::create_step(&p, e, ck, unit, true, None, None, Err(x))
                ||| {
                    &&& Self::create_step(&p, &t.created, ck, unit, true, None, None, Ok(unit))
                    &&& t.created.inv()
                    &&& {
                        ||| Self::write_step(&t.created, e, ck, 0, commit_bytes(c), Err(x))
                        ||| {
                            &&& Self::write_step(
                                &t.created,
                                &t.written,
                                ck,
                                0,
                                commit_bytes(c),
                                Ok(()),
                            )
                            &&& t.written.inv()
                            &&& Self::advance_blocked(
                                &t.written,
                                e,
                                c.commitish,
                                head_unit,
                                &t.headed,
                                x,
                            )
                        }
                    }
                }
            }
        }
    }

    /// A commit failed with error `x` at one of its steps.
    pub open spec fn commit_refused(
        o: &Self,
        e: &Self,
        keys: Seq<Seq<u8>>,
        c: CommitModel,
        unit: Uuid,
        head_unit: Uuid,
        x: Error,
    ) -> bool {
        exists|t: CommitTrace<C>| #[trigger]
            Self::commit_blocked(
                &o.held_back(),
                &e.held_back(),
                keys,
                c,
                unit,
                head_unit,
                t,
                x,
            )
    }

    /// Moving the head unit on failed with error `x`: it was missing and could
    /// not be created, or it could not be written.
    pub open spec fn advance_blocked(
        o: &Self,
        e: &Self,
        commitish: Uuid,
        head_unit: Uuid,
        headed: &Self,
        x: Error,
    ) -> bool {
        let hk = head_key();
        ||| !o.keys@.contains_key(hk) && Self::create_step(
            o,
            e,
            hk,
            head_unit,
            true,
            None,
            None,
            Err(x),
        )
        ||| {
            &&& if o.keys@.contains_key(hk) {
                *headed == *o
            } else {
                Self::create_step(o, headed, hk, head_unit, true, None, None, Ok(head_unit))
            }
            &&& headed.inv()
            &&& Self::write_step(headed, e, hk, 0, commitish@, Err(x))
        }
    }

    /// What committing units, with given identities, does.
    pub open spec fn commit_units_step(
        o: &Self,
        e: &Self,
        keys: Seq<Seq<u8>>,
        title: Seq<char>,
        message: Seq<char>,
        commitish: Uuid,
        unit: Uuid,
        head_unit: Uuid,
        r: Result<Uuid, Error>,
    ) -> bool {
        match o.tag_entries(keys) {
            Err(x) => r == Err::<Uuid, Error>(x) && *e == *o,
            Ok(_) => {
                &&& !o.may_sign() || (o.reads_own_records() && o.keys@.contains_key(
                    commit_key(commitish),
                )) ==> r == Err::<Uuid, Error>(Error::Integrity)
                &&& o.commit_owed(commitish, unit) ==> r is Ok
                &&& r is Err ==> Self::commit_abandoned(o, e) && Self::commit_refused(
                    o,
                    e,
                    keys,
                    o.commit_of(keys, title, message, commitish),
                    unit,
                    head_unit,
                    r->Err_0,
                )
                &&& r is Ok ==> r == Ok::<Uuid, Error>(commitish) && exists|t: CommitTrace<C>|
                    #[trigger] Self::commit_done(
                        o,
                        e,
                        keys,
                        o.commit_of(keys, title, message, commitish),
                        unit,
                        head_unit,
                        t,
                    )
            },
        }
    }

    /// A commit that names a path without a unit is refused, and nothing changes.
    pub proof fn law_commits_need_every_path(
        o: &Self,
        e: &Self,
        keys: Seq<Seq<u8>>,
        title: Seq<char>,
        message: Seq<char>,
        commitish: Uuid,
        unit: Uuid,
        head_unit: Uuid,
        r: Result<Uuid, Error>,
        j: int,
    )
        requires
            Self::commit_units_step(
                o,
                e,
                keys,
                title,
                message,
                commitish,
                unit,
                head_unit,
                r,
            ),
            0 <= j < keys.len(),
            !o.keys@.contains_key(keys[j]),
            forall|i: int| 0 <= i < j ==> o.head(#[trigger] keys[i]) is Ok,
        ensures
            r == Err::<Uuid, Error>(Error::NotFound),
            *e == *o,
    {
        o.lemma_entries_of(keys, j);
        assert(keys.take(j + 1).drop_last() =~= keys.take(j));
        assert(keys.take(j + 1).last() == keys[j]);
        o.lemma_tag_entries(keys, j + 1);
    }

    proof fn lemma_entries_of(&self, keys: Seq<Seq<u8>>, j: int)
        requires
            0 <= j <= keys.len(),
            forall|i: int| 0 <= i < j ==> self.head(#[trigger] keys[i]) is Ok,
        ensures
            self.tag_entries(keys.take(j)) is Ok,
        decreases j,
    {
        if j > 0 {
            self.lemma_entries_of(keys, j - 1);
            assert(keys.take(j).drop_last() =~= keys.take(j - 1));
            assert(keys.take(j).last() == keys[j - 1]);
        }
    }

    /// Nothing of the setup changed while commits were held back.
    pub open spec fn held_step(o: &Self, e: &Self) -> bool {
        &&& Self::same_setup(o, e)
        &&& e.header == o.header
        &&& e.disk.committed == o.disk.committed
        &&& e.snap == o.snap
        &&& e.pending_wal_applied_seq == o.pending_wal_applied_seq
    }

    /// Creates the unit of a commit and writes its record.
    fn store_commit(&mut self, commitish: &Uuid, unit: Uuid, bytes: &Vec<u8>) -> (r: (
        Result<(), Error>,
        Ghost<Self>,
    ))
        requires
            old(self).inv(),
            old(self).header.commit_seq < u64::MAX,
            old(self).suppress_commit,
            old(self).unit_small(head_key()),
            bytes@.len() > 0,
            small_enough(bytes@.len()),
        ensures
            final(self).inv(),
            old(self).recoverable() ==> final(self).recoverable(),
            Self::held_step(old(self), final(self)),
            !old(self).may_sign() || old(self).keys@.contains_key(commit_key(*commitish)) ==> r.0
                == Err::<(), Error>(Error::Integrity),
            r.0 is Err ==> Self::create_step(
                old(self),
                final(self),
                commit_key(*commitish),
                unit,
                true,
                None,
                None,
                Err(r.0->Err_0),
            ) || Self::create_step(
                old(self),
                &r.1@,
                commit_key(*commitish),
                unit,
                true,
                None,
                None,
                Ok(unit),
            ) && r.1@.inv() && Self::write_step(
                &r.1@,
                final(self),
                commit_key(*commitish),
                0,
                bytes@,
                Err(r.0->Err_0),
            ),
            r.0 is Ok ==> {
                &&& final(self).unit_small(head_key())
                &&& final(self).may_sign()
                &&& !old(self).keys@.contains_key(commit_key(*commitish))
                &&& final(self).keys@ == old(self).keys@.insert(commit_key(*commitish), unit)
                &&& Self::create_step(
                    old(self),
                    &r.1@,
                    commit_key(*commitish),
                    unit,
                    true,
                    None,
                    None,
                    Ok(unit),
                )
                &&& r.1@.inv()
                &&& Self::write_step(
                    &r.1@,
                    final(self),
                    commit_key(*commitish),
                    0,
                    bytes@,
                    Ok(()),
                )
            },
            old(self).may_sign() && old(self).reads_own_records() && old(self).no_crash_seam()
                && C::known(old(self).header.content_cipher) && !old(self).keys@.contains_key(
                commit_key(*commitish),
            ) && !old(self).ids@.contains_key(unit@) ==> {
                &&& r.0 is Ok
                &&& old(self).unit_ready(head_key()) ==> final(self).unit_ready(head_key())
            },
    {
        let ghost p = *self;
        let ck: Vec<u8> = key_of_commit(commitish);
        proof {
            lemma_keys_differ(*commitish);
        }
        match self.create_unit_as(ck.as_slice(), unit, true, None, None) {
            Err(e) => {
                return (Err(e), Ghost(p));
            },
            Ok(_) => {},
        }
        let ghost created = *self;
        proof {
            Self::lemma_create_keeps(&p, &created, ck@, unit, head_key());
            if created.head(ck@) is Ok {
                created.lemma_small_fits(ck@, bytes@);
                assert(created.head(ck@)->Ok_0.2.stream().n() == 0);
            }
            assert(created.reads_own_records() == p.reads_own_records());
            assert(created.no_crash_seam() == p.no_crash_seam());
        }
        match self.write_key(ck.as_slice(), 0, bytes.as_slice()) {
            Err(e) => {
                return (Err(e), Ghost(created));
            },
            Ok(()) => {},
        }
        proof {
            Self::lemma_write_keeps(&created, &*self, ck@, bytes@, head_key());
            assert(self.keys@ == created.keys@);
        }
        (Ok(()), Ghost(created))
    }

    /// Makes the head unit name a commit.
    fn advance_head(&mut self, commitish: &Uuid, head_unit: Uuid) -> (r: (
        Result<(), Error>,
        Ghost<Self>,
    ))
        requires
            old(self).inv(),
            old(self).header.commit_seq < u64::MAX,
            old(self).suppress_commit,
            old(self).unit_small(head_key()),
            old(self).may_sign(),
        ensures
            final(self).inv(),
            old(self).recoverable() ==> final(self).recoverable(),
            Self::held_step(old(self), final(self)),
            r.0 is Err ==> Self::advance_blocked(
                old(self),
                final(self),
                *commitish,
                head_unit,
                &r.1@,
                r.0->Err_0,
            ),
            r.0 is Ok ==> {
                &&& if old(self).keys@.contains_key(head_key()) {
                    r.1@ == *old(self)
                } else {
                    Self::create_step(
                        old(self),
                        &r.1@,
                        head_key(),
                        head_unit,
                        true,
                        None,
                        None,
                        Ok(head_unit),
                    )
                }
                &&& r.1@.inv()
                &&& Self::write_step(&r.1@, final(self), head_key(), 0, commitish@, Ok(()))
            },
            old(self).reads_own_records() && old(self).no_crash_seam() && C::known(
                old(self).header.content_cipher,
            ) && (old(self).keys@.contains_key(head_key()) ==> old(self).unit_ready(head_key()))
                ==> r.0 is Ok,
    {
        let ghost o = *self;
        let hk: Vec<u8> = commit_head_key();
        if self.keys.get(hk.as_slice()).is_none() {
            match self.create_unit_as(hk.as_slice(), head_unit, true, None, None) {
                Err(e) => {
                    return (Err(e), Ghost(o));
                },
                Ok(_) => {},
            }
            proof {
                Self::lemma_create_keeps(&o, &*self, head_key(), head_unit, head_key());
                if self.head(head_key()) is Ok {
                    assert(self.head(head_key())->Ok_0.2.stream().n() == 0);
                }
            }
        }
        let ghost headed = *self;
        proof {
            if headed.head(head_key()) is Ok {
                headed.lemma_small_fits(head_key(), commitish@);
            }
            assert(headed.reads_own_records() == o.reads_own_records());
            assert(headed.no_crash_seam() == o.no_crash_seam());
        }
        match self.write_key(hk.as_slice(), 0, commitish.as_slice()) {
            Err(e) => (Err(e), Ghost(headed)),
            Ok(()) => (Ok(()), Ghost(headed)),
        }
    }

    /// Stages a commit: pins the units, stores the commit's record and moves the
    /// head unit on.
    fn stage_commit(
        &mut self,
        paths: &[&str],
        c: &Commit,
        bytes: &Vec<u8>,
        unit: Uuid,
        head_unit: Uuid,
    ) -> (r: (Result<(), Error>, Ghost<CommitTrace<C>>))
        requires
            old(self).inv(),
            old(self).suppress_commit,
            old(self).header.commit_seq < u64::MAX,
            old(self).unit_small(head_key()),
            old(self).tag_entries(keys_of(paths@)) is Ok,
            bytes@ == commit_bytes(c@),
            bytes@.len() > 0,
            small_enough(bytes@.len()),
        ensures
            final(self).inv(),
            old(self).recoverable() ==> final(self).recoverable(),
            Self::held_step(old(self), final(self)),
            match r.0 {
                Ok(_) => Self::commit_staged(
                    old(self),
                    keys_of(paths@),
                    c@,
                    unit,
                    head_unit,
                    r.1@,
                ) && r.1@.advanced == *final(self),
                Err(x) => Self::commit_blocked(
                    old(self),
                    final(self),
                    keys_of(paths@),
                    c@,
                    unit,
                    head_unit,
                    r.1@,
                    x,
                ),
            },
            !old(self).may_sign() || (old(self).reads_own_records() && old(
                self,
            ).keys@.contains_key(commit_key(c@.commitish))) ==> r.0 == Err::<(), Error>(
                Error::Integrity,
            ),
            old(self).commit_owed(c@.commitish, unit) ==> r.0 is Ok,
    {
        let ghost start = *self;
        let ghost keys = keys_of(paths@);
        proof {
            lemma_keys_differ(c@.commitish);
        }
        let (pinned_r, trace): (Result<(), Error>, Ghost<Seq<Self>>) = self.pin_units(
            paths,
            &c.commitish,
            Ghost(head_key()),
        );
        let ghost p = *self;
        let ghost mut t = CommitTrace {
            pins: trace@,
            created: p,
            written: p,
            headed: p,
            advanced: p,
        };
        match pinned_r {
            Err(e) => {
                return (Err(e), Ghost(t));
            },
            Ok(()) => {},
        }
        let (stored, created): (Result<(), Error>, Ghost<Self>) = self.store_commit(
            &c.commitish,
            unit,
            bytes,
        );
        let ghost written = *self;
        proof {
            t = CommitTrace { created: created@, written, ..t };
        }
        match stored {
            Err(e) => {
                return (Err(e), Ghost(t));
            },
            Ok(()) => {},
        }
        proof {
            assert(written.keys@.contains_key(head_key()) == start.keys@.contains_key(head_key()));
        }
        let (moved, headed): (Result<(), Error>, Ghost<Self>) = self.advance_head(
            &c.commitish,
            head_unit,
        );
        proof {
            t = CommitTrace { headed: headed@, advanced: *self, ..t };
        }
        match moved {
            Err(e) => (Err(e), Ghost(t)),
            Ok(()) => (Ok(()), Ghost(t)),
        }
    }

    /// Commits units: pins their fragments, stores the commit's record and moves
    /// the head unit on, all in one commit of the container. The identities of
    /// the commit, of its unit, and of the head unit, should it be missing, are
    /// given.
    #[verifier::rlimit(60)]
    pub fn commit_units(
        &mut self,
        paths: &[&str],
        title: &str,
        message: &str,
        commitish: Uuid,
        unit: Uuid,
        head_unit: Uuid,
    ) -> (r: Result<Uuid, Error>)
        requires
            old(self).inv(),
            old(self).header.commit_seq < u64::MAX,
            Self::commit_sized(title, message, paths@),
            old(self).unit_small(head_key()),
        ensures
            final(self).inv(),
            old(self).recoverable() ==> final(self).recoverable(),
            Self::commit_units_step(
                old(self),
                final(self),
                keys_of(paths@),
                title@,
                message@,
                commitish,
                unit,
                head_unit,
                r,
            ),
    {
        let ghost o = *self;
        let ghost keys = keys_of(paths@);
        let parents: Vec<Uuid> = self.find_parents();
        let entries: Vec<(Uuid, u64, u64)> = match self.collect_entries(paths) {
            Err(e) => {
                return Err(e);
            },
            Ok(x) => x,
        };
        let c: Commit = Commit {
            title: title.to_owned(),
            message: message.to_owned(),
            commitish,
            parents,
            entries,
        };
        let bytes: Vec<u8> = c.encode();
        let len: usize = bytes.len();
        let outer: bool = self.suppress_commit;
        self.suppress_commit = true;
        let ghost start = *self;
        proof {
            assert(c@ =~= o.commit_of(keys, title@, message@, commitish));
            lemma_commit_small(c@);
            o.lemma_tag_entries_held(keys);
            assert(start.head(head_key()) == o.head(head_key()));
            if o.unit_ready(head_key()) {
                assert forall|f: int|
                    0 <= f < start.head(head_key())->Ok_0.2.stream().n() implies #[trigger] start.readable(
                    start.head(head_key())->Ok_0.2,
                    f,
                ) by {
                    assert(o.readable(start.head(head_key())->Ok_0.2, f));
                }
            }
            assert(o.commit_owed(commitish, unit) ==> start.commit_owed(commitish, unit));
            crate::wal::lemma_far_below(bytes@.len());
        }
        let (staged, t): (Result<(), Error>, Ghost<CommitTrace<C>>) = self.stage_commit(
            paths,
            &c,
            &bytes,
            unit,
            head_unit,
        );
        let ghost end = *self;
        self.suppress_commit = outer;
        match staged {
            Err(e) => {
                proof {
                    assert(self.held_back() == end);
                    assert(Self::commit_blocked(
                        &o.held_back(),
                        &self.held_back(),
                        keys,
                        c@,
                        unit,
                        head_unit,
                        t@,
                        e,
                    ));
                    assert(!o.commit_owed(commitish, unit));
                    assert(o.may_sign() == start.may_sign());
                    assert(Self::commit_refused(&o, &*self, keys, c@, unit, head_unit, e));
                    assert(Self::commit_abandoned(&o, &*self));
                }
                return Err(e);
            },
            Ok(()) => {},
        }
        self.publish();
        proof {
            assert(Self::commit_done(&o, &*self, keys, c@, unit, head_unit, t@));
        }
        Ok(commitish)
    }

    proof fn lemma_tag_entries_held(&self, keys: Seq<Seq<u8>>)
        ensures
            self.held_back().tag_entries(keys) == self.tag_entries(keys),
        decreases keys.len(),
    {
        if keys.len() > 0 {
            self.lemma_tag_entries_held(keys.drop_last());
            assert(self.held_back().head(keys.last()) == self.head(keys.last()));
        }
    }
}

proof fn lemma_hex_len(b: Seq<u8>)
    ensures
        hex(b).len() == 2 * b.len(),
    decreases b.len(),
{
    if b.len() > 0 {
        lemma_hex_len(b.drop_last());
    }
}

pub proof fn lemma_keys_differ(commitish: Uuid)
    ensures
        commit_key(commitish) != head_key(),
{
    lemma_hex_len(commitish@);
    assert(commit_key(commitish).len() == 45);
}


impl<C: Crypto> Engine<C> {
    /// Limits on a commit: the head unit is small, with the pending writes over
    /// it too, and two commits can be counted.
    pub open spec fn commit_ready(&self) -> bool {
        &&& self.header.commit_seq + 1 < u64::MAX
        &&& self.head_at(head_key()) is Ok ==> {
            let uuid = self.head_at(head_key())->Ok_0.0;
            let sm = self.head_of(uuid@).stream();
            &&& small_stream(sm, self.local_alias)
            &&& forall|j: int|
                0 <= j < self.overlay@.len() && (#[trigger] self.overlay@[j]).uuid == uuid
                    ==> vv_get(sm.vv, self.local_alias) + self.overlay@[j].writes@.len() + 2
                    < u64::MAX
        }
    }

    /// A checkpoint leaves a head unit that can be moved on.
    proof fn lemma_ready_after(o: &Self, m: &Self)
        requires
            o.inv(),
            o.commit_ready(),
            Self::checkpointed(o, m, Ok(())),
        ensures
            m.unit_small(head_key()),
            m.header.commit_seq < u64::MAX,
    {
        let hk = head_key();
        if o.overlay@.len() == 0 && o.wal is None {
        } else if m.head(hk) is Ok {
            let (u, a, x) = m.head(hk)->Ok_0;
            let n = o.overlay@.len() as int;
            assert(m.trust() == o.trust());
            assert(m.local_alias == o.local_alias);
            assert(m.ids@.contains_key(u@));
            assert(o.ids@.contains_key(u@));
            if o.flushed(n).contains(u@) {
                let j = choose|j: int|
                    0 <= j < n && (#[trigger] o.overlay@[j]).uuid@ == u@ && o.flush_path(j) is Some;
                assert(o.overlay@[j].uuid =~= u);
                assert(o.flush_path(j) is Some);
                assert(m.head_of(u@) == x);
            } else {
                assert(m.head_of(u@) == o.head_of(u@));
            }
        }
    }

    /// Makes a named commit of the units at `paths`: what is pending becomes part
    /// of their content first. Gives the commit's identity.
    pub fn commit(&mut self, paths: &[&str], title: &str, message: &str) -> (r: Result<Uuid, Error>)
        requires
            old(self).inv(),
            old(self).header.commit_seq < u64::MAX,
            old(self).checkpoint_fits(),
            old(self).commit_ready(),
            Self::commit_sized(title, message, paths@),
        ensures
            final(self).inv(),
            old(self).recoverable() ==> final(self).recoverable(),
            ({
                ||| r is Err && Self::checkpointed(old(self), final(self), Err(r->Err_0))
                ||| r == Err::<Uuid, Error>(Error::Entropy) && Self::checkpointed(
                    old(self),
                    final(self),
                    Ok(()),
                )
                ||| exists|m: Self, commitish: Uuid, unit: Uuid, head_unit: Uuid|
                    Self::checkpointed(old(self), &m, Ok(())) && #[trigger] Self::commit_units_step(
                        &m,
                        final(self),
                        keys_of(paths@),
                        title@,
                        message@,
                        commitish,
                        unit,
                        head_unit,
                        r,
                    )
            }),
    {
        match self.checkpoint() {
            Err(e) => {
                return Err(e);
            },
            Ok(()) => {},
        }
        let ghost m = *self;
        proof {
            assert(Self::checkpointed(old(self), &m, Ok(())));
            Self::lemma_ready_after(old(self), &m);
        }
        let ids: Vec<u8> = match random_bytes(48) {
            None => {
                return Err(Error::Entropy);
            },
            Some(b) => b,
        };
        let commitish: Uuid = take16(ids.as_slice(), 0);
        let unit: Uuid = take16(ids.as_slice(), 16);
        let head_unit: Uuid = take16(ids.as_slice(), 32);
        self.commit_units(paths, title, message, commitish, unit, head_unit)
    }

    /// The version of unit `uuid` that a commit holds.
    pub open spec fn committed_version(entries: Seq<(Uuid, u64, u64)>, uuid: Uuid) -> Option<u64>
        decreases entries.len(),
    {
        if entries.len() == 0 {
            None
        } else {
            match Self::committed_version(entries.drop_last(), uuid) {
                Some(v) => Some(v),
                None => if entries.last().0 == uuid {
                    Some(entries.last().1)
                } else {
                    None
                },
            }
        }
    }

    /// The bits of the first pin of a commit.
    pub open spec fn pin_bits(pins: Seq<PinModel>, commitish: Uuid) -> Option<Seq<u8>>
        decreases pins.len(),
    {
        if pins.len() == 0 {
            None
        } else {
            match Self::pin_bits(pins.drop_last(), commitish) {
                Some(b) => Some(b),
                None => if pins.last().commit == commitish {
                    Some(pins.last().bits)
                } else {
                    None
                },
            }
        }
    }

    /// The record of a commit, as it is stored.
    pub open spec fn commit_stored(&self, commitish: Uuid) -> Result<CommitModel, Error> {
        match self.head(commit_key(commitish)) {
            Err(e) => Err(e),
            Ok((uuid, _, m)) => match self.full(m) {
                Err(e) => Err(e),
                Ok(s) => match commit_parse(overlaid(s, pending_of(self.overlay@, uuid))) {
                    None => Err(Error::Integrity),
                    Some(c) => Ok(c),
                },
            },
        }
    }

    /// The content at `key` as a commit holds it.
    pub open spec fn at_commit(&self, key: Seq<u8>, commitish: Uuid) -> Result<Seq<u8>, Error> {
        match self.head(key) {
            Err(e) => Err(e),
            Ok((uuid, _, m)) => if m.content is None {
                Ok(Seq::empty())
            } else {
                match self.commit_stored(commitish) {
                    Err(e) => Err(e),
                    Ok(c) => match Self::committed_version(c.entries, uuid) {
                        None => Err(Error::NotFound),
                        Some(v) => self.as_of(
                            key,
                            v,
                            Self::pin_bits(m.stream().pins, commitish),
                        ),
                    },
                }
            },
        }
    }

    /// All that going back to a commit reads has a geometry that can be worked
    /// with.
    pub open spec fn checkout_fits(&self, key: Seq<u8>, commitish: Uuid) -> bool {
        &&& self.geometry_at(commit_key(commitish))
        &&& self.head(key) is Ok && self.commit_stored(commitish) is Ok && Self::committed_version(
            self.commit_stored(commitish)->Ok_0.entries,
            self.head(key)->Ok_0.0,
        ) is Some ==> self.history_fits(
            key,
            Self::committed_version(
                self.commit_stored(commitish)->Ok_0.entries,
                self.head(key)->Ok_0.0,
            )->Some_0,
        )
    }

    fn find_version(entries: &Vec<(Uuid, u64, u64)>, uuid: &Uuid) -> (r: Option<u64>)
        ensures
            r == Self::committed_version(entries@, *uuid),
    {
        let n: usize = entries.len();
        let mut i: usize = 0;
        proof {
            assert(entries@.take(0) =~= Seq::empty());
        }
        while i < n
            invariant
                n == entries@.len(),
                i <= n,
                Self::committed_version(entries@.take(i as int), *uuid) is None,
            decreases n - i,
        {
            proof {
                assert(entries@.take(i + 1).drop_last() =~= entries@.take(i as int));
                assert(entries@.take(i + 1).last() == entries@[i as int]);
            }
            if same16(&entries[i].0, uuid) {
                proof {
                    Self::lemma_committed(entries@, *uuid, i + 1);
                }
                return Some(entries[i].1);
            }
            i = i + 1;
        }
        proof {
            assert(entries@.take(n as int) =~= entries@);
        }
        None
    }

    proof fn lemma_committed(entries: Seq<(Uuid, u64, u64)>, uuid: Uuid, i: int)
        requires
            0 <= i <= entries.len(),
            Self::committed_version(entries.take(i), uuid) is Some,
        ensures
            Self::committed_version(entries, uuid) == Self::committed_version(
                entries.take(i),
                uuid,
            ),
        decreases entries.len() - i,
    {
        if i < entries.len() {
            assert(entries.take(i + 1).drop_last() =~= entries.take(i));
            Self::lemma_committed(entries, uuid, i + 1);
        } else {
            assert(entries.take(i) =~= entries);
        }
    }

    fn find_pin<'a>(pins: &'a Vec<CommitBitmap>, commitish: &Uuid) -> (r: Option<&'a [u8]>)
        ensures
            crate::names::opt_bytes(r) == Self::pin_bits(crate::unit::pins_view(pins@), *commitish),
    {
        let ghost all = crate::unit::pins_view(pins@);
        let n: usize = pins.len();
        let mut i: usize = 0;
        proof {
            assert(all.take(0) =~= Seq::empty());
        }
        while i < n
            invariant
                all == crate::unit::pins_view(pins@),
                n == pins@.len(),
                i <= n,
                Self::pin_bits(all.take(i as int), *commitish) is None,
            decreases n - i,
        {
            proof {
                assert(all.take(i + 1).drop_last() =~= all.take(i as int));
                assert(all.take(i + 1).last() == all[i as int]);
            }
            if same16(&pins[i].commit, commitish) {
                proof {
                    Self::lemma_pin_bits(all, *commitish, i + 1);
                }
                return Some(pins[i].bits.as_slice());
            }
            i = i + 1;
        }
        proof {
            assert(all.take(n as int) =~= all);
        }
        None
    }

    proof fn lemma_pin_bits(pins: Seq<PinModel>, commitish: Uuid, i: int)
        requires
            0 <= i <= pins.len(),
            Self::pin_bits(pins.take(i), commitish) is Some,
        ensures
            Self::pin_bits(pins, commitish) == Self::pin_bits(pins.take(i), commitish),
        decreases pins.len() - i,
    {
        if i < pins.len() {
            assert(pins.take(i + 1).drop_last() =~= pins.take(i));
            Self::lemma_pin_bits(pins, commitish, i + 1);
        } else {
            assert(pins.take(i) =~= pins);
        }
    }

    /// The content at `path` as a commit holds it. Fragments that the commit
    /// still pins are taken from the head, the others from history.
    pub fn checkout_at_commit(&self, path: &str, commitish: Uuid) -> (r: Result<Vec<u8>, Error>)
        requires
            self.inv(),
            self.checkout_fits(path.spec_bytes(), commitish),
        ensures
            match self.at_commit(path.spec_bytes(), commitish) {
                Err(e) => r == Err::<Vec<u8>, Error>(e),
                Ok(s) => r is Ok && r->Ok_0@ == s,
            },
    {
        let (uuid, addr, head): (Uuid, u64, UnitRecord) = match self.find_head(path.as_bytes()) {
            Err(e) => {
                return Err(e);
            },
            Ok(x) => x,
        };
        let sm: &StreamMeta = match &head.content {
            None => {
                let out: Vec<u8> = Vec::new();
                proof {
                    assert(out@ =~= Seq::<u8>::empty());
                }
                return Ok(out);
            },
            Some(sm) => sm,
        };
        let ck: Vec<u8> = key_of_commit(&commitish);
        let bytes: Vec<u8> = match self.read_key(ck.as_slice()) {
            Err(e) => {
                return Err(e);
            },
            Ok(b) => b,
        };
        let c: Commit = match Commit::decode(bytes.as_slice()) {
            Err(e) => {
                return Err(e);
            },
            Ok(c) => c,
        };
        let at: u64 = match Self::find_version(&c.entries, &uuid) {
            None => {
                return Err(Error::NotFound);
            },
            Some(v) => v,
        };
        self.reconstruct_at(path.as_bytes(), at, Self::find_pin(&sm.pins, &commitish))
    }
}

} // verus!
