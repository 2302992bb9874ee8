//! Truncating and extending content, and carrying suites over.
use vstd::prelude::*;
use vstd::string::StringSliceAdditionalSpecFns;

use crate::block::{
    bit_set, derive_fragsize_exp, dot, exp_for, few_frags, frag_bytes, frag_count, frags_for,
    fragsize, last_frag_length, last_len, lemma_exp_range, lemma_frag_bytes, lemma_frags, pack_dot,
    FRAGSIZE_FLOOR_EXP, MAX_FRAGSIZE_EXP,
};
use crate::bytes::copy_range;
use crate::content::{byte_or_zero, lemma_in_fragment, lemma_last_fragment, stored_at, suite_of};
use crate::crypto::Crypto;
use crate::engine::{live, place, places_step, Engine, RecordSignIntent};
use crate::error::Error;
use crate::heap::in_heap;
use crate::overlay::{overlaid_window, pending_of};
use crate::unit::{
    clone_stream, empty_content_stream, empty_stream, grow_stream, grown, hole, is_hole,
    lemma_size_bound, pins_cleared, pins_view, stream_byte_len, BlockLoc, CommitBitmap, PinModel,
    RecordModel, StreamMeta, StreamModel, UnitRecord, Uuid,
};
use crate::vector::{vv_get, vv_is_bump};

verus! {

/// A record's suites in their shortest form: the one suite that all fragments
/// have, or the default beside the suite of each.
pub open spec fn suites_form(full: Seq<u8>, default: u8) -> (u8, Seq<u8>) {
    let first = if full.len() > 0 {
        full[0]
    } else {
        default
    };
    if forall|i: int| 0 <= i < full.len() ==> #[trigger] full[i] == first {
        (first, Seq::empty())
    } else {
        (default, full)
    }
}

/// The shortest form says of every fragment the suite that it has.
pub proof fn lemma_suites_form(full: Seq<u8>, default: u8, meta_cipher: u8, r: RecordModel, g: int)
    requires
        0 <= g < full.len(),
        r.content_suite == Some(suites_form(full, default).0),
        r.frag_suites == suites_form(full, default).1,
    ensures
        suite_of(meta_cipher, r, g) == full[g],
{
}

pub fn shortest_suites(full: Vec<u8>, default: u8) -> (r: (u8, Vec<u8>))
    ensures
        (r.0, r.1@) == suites_form(full@, default),
{
    let first: u8 = if full.len() > 0 {
        full[0]
    } else {
        default
    };
    let mut i: usize = 0;
    while i < full.len()
        invariant
            i <= full.len(),
            first == if full@.len() > 0 {
                full@[0]
            } else {
                default
            },
            forall|k: int| 0 <= k < i ==> #[trigger] full@[k] == first,
        decreases full.len() - i,
    {
        if full[i] != first {
            proof {
                assert(full@[i as int] != first);
            }
            return (default, full);
        }
        i = i + 1;
    }
    let none: Vec<u8> = Vec::new();
    proof {
        assert(none@ =~= Seq::<u8>::empty());
    }
    (first, none)
}

/// The pins cut to `n` fragments.
pub open spec fn pins_cut(pins: Seq<PinModel>, n: nat) -> Seq<PinModel> {
    Seq::new(
        pins.len(),
        |i: int|
            PinModel {
                commit: pins[i].commit,
                bits: pins[i].bits.take(
                    if pins[i].bits.len() <= (n + 7) / 8 {
                        pins[i].bits.len() as int
                    } else {
                        (n as int + 7) / 8
                    },
                ),
            },
    )
}

/// Clearing and cutting may change places.
proof fn lemma_pins_cut_cleared(
    a: Seq<PinModel>,
    b: Seq<PinModel>,
    lo: int,
    hi: int,
    n: nat,
)
    requires
        pins_cleared(a, b, lo, hi),
    ensures
        pins_cleared(pins_cut(a, n), pins_cut(b, n), lo, hi),
{
    let x = pins_cut(a, n);
    let y = pins_cut(b, n);
    assert forall|i: int| 0 <= i < x.len() implies (#[trigger] y[i]).commit == x[i].commit by {
        assert(b[i].commit == a[i].commit);
    }
    assert forall|i: int, k: int|
        #![trigger bit_set(y[i].bits, k)]
        0 <= i < x.len() implies bit_set(y[i].bits, k) == (bit_set(x[i].bits, k) && !(lo <= k
        < hi)) by {
        assert(bit_set(b[i].bits, k) == (bit_set(a[i].bits, k) && !(lo <= k < hi)));
        lemma_bit_cut(a[i].bits, n, k);
        lemma_bit_cut(b[i].bits, n, k);
    }
}

proof fn lemma_bit_cut(bits: Seq<u8>, n: nat, k: int)
    ensures
        bit_set(
            bits.take(
                if bits.len() <= (n + 7) / 8 {
                    bits.len() as int
                } else {
                    (n as int + 7) / 8
                },
            ),
            k,
        ) == (bit_set(bits, k) && k / 8 < (n + 7) / 8),
{
}

fn cut_pins(pins: &mut Vec<CommitBitmap>, n: usize)
    requires
        n <= u32::MAX,
    ensures
        pins_view(final(pins)@) == pins_cut(pins_view(old(pins)@), n as nat),
{
    let keep: usize = n / 8 + if n % 8 == 0 {
        0
    } else {
        1
    };
    assert(keep == (n + 7) / 8);
    let len: usize = pins.len();
    let ghost all = pins_view(pins@);
    let mut i: usize = 0;
    while i < len
        invariant
            len == pins@.len(),
            all == pins_view(old(pins)@),
            all.len() == len,
            keep == (n + 7) / 8,
            i <= len,
            forall|k: int| 0 <= k < i ==> (#[trigger] pins@[k])@ == pins_cut(all, n as nat)[k],
            forall|k: int| i <= k < len ==> (#[trigger] pins@[k])@ == all[k],
        decreases len - i,
    {
        let mut pin: CommitBitmap = pins[i].clone();
        let ghost before = pin.bits@;
        assert(pins@[i as int]@ == all[i as int]);
        pin.bits.truncate(keep);
        proof {
            assert(pin.bits@ =~= before.take(
                if before.len() <= keep {
                    before.len() as int
                } else {
                    keep as int
                },
            ));
        }
        pins.set(i, pin);
        i = i + 1;
    }
    proof {
        assert(pins_view(pins@) =~= pins_cut(all, n as nat));
    }
}

impl<C: Crypto> Engine<C> {
    /// The suites of a record's first `n` fragments; fragments that it does not
    /// have yet get the present suite.
    pub open spec fn carried(&self, r: RecordModel, n: nat) -> Seq<u8> {
        Seq::new(
            n,
            |i: int|
                if i < r.stream().n() {
                    self.suite(r, i)
                } else {
                    self.header.content_cipher
                },
        )
    }

    /// Carries the suites of a record's fragments over to a record with `n`
    /// fragments.
    pub fn frag_suites_carryover(&self, rec: &UnitRecord, n: usize) -> (r: (u8, Vec<u8>))
        ensures
            (r.0, r.1@) == suites_form(
                self.carried(rec@, n as nat),
                self.header.content_cipher,
            ),
    {
        let cc: u8 = self.header.content_cipher;
        let old_n: usize = match &rec.content {
            None => 0,
            Some(sm) => sm.unit_map.len(),
        };
        let mut full: Vec<u8> = Vec::new();
        let mut i: usize = 0;
        while i < n
            invariant
                i <= n,
                cc == self.header.content_cipher,
                old_n == rec@.stream().n(),
                full@ == self.carried(rec@, n as nat).take(i as int),
            decreases n - i,
        {
            let s: u8 = if i < old_n {
                self.content_frag_suite_id(rec, i)
            } else {
                cc
            };
            full.push(s);
            i = i + 1;
            proof {
                assert(full@ =~= self.carried(rec@, n as nat).take(i as int));
            }
        }
        proof {
            assert(full@ =~= self.carried(rec@, n as nat));
        }
        shortest_suites(full, cc)
    }

    /// `r1` follows `r0` as the record of an operation on its content stream:
    /// identity, metadata and document head stay, strains are gone.
    pub open spec fn follows(r0: RecordModel, head_addr: u64, r1: RecordModel) -> bool {
        r1 == (RecordModel {
            uuid: r0.uuid,
            content: r1.content,
            meta: r0.meta,
            parent: Some(head_addr),
            strains: Seq::empty(),
            content_suite: r1.content_suite,
            frag_suites: r1.frag_suites,
            signature: r1.signature,
            db: r0.db,
            superseded: Seq::empty(),
        })
    }

    // ── Extend ──────────────────────────────────────────────────────────────

    /// The exponent of a stream that is extended to `size` bytes.
    pub open spec fn extend_exp(sm: StreamModel, size: nat) -> u8 {
        if sm.n() == 0 {
            exp_for(size, 12, 22)
        } else {
            sm.fragsize_exp
        }
    }

    /// The record of `r0` after its content was extended to `size` bytes.
    pub open spec fn extended(&self, r0: RecordModel, head_addr: u64, size: nat, r1: RecordModel) -> bool {
        let sm0 = r0.stream();
        let exp = Self::extend_exp(sm0, size);
        let n = frags_for(size, exp);
        let form = suites_form(self.carried(r0, n), self.header.content_cipher);
        &&& Self::follows(r0, head_addr, r1)
        &&& r1.content is Some
        &&& vv_is_bump(sm0.vv, self.local_alias, r1.stream().vv)
        &&& r1.stream() == (StreamModel {
            vv: r1.stream().vv,
            fragsize_exp: exp,
            last_frag_length: last_len(size, exp) as u32,
            ..grown(sm0, n)
        })
        &&& r1.stream().geometry_ok()
        &&& r1.stream().size() == size
        &&& r1.content_suite == Some(form.0)
        &&& r1.frag_suites == form.1
    }

    /// Limits on an extension to `size` bytes.
    pub open spec fn extend_fits(&self, key: Seq<u8>, size: nat) -> bool {
        self.head(key) is Ok ==> {
            let sm = self.head(key)->Ok_0.2.stream();
            &&& sm.geometry_ok()
            &&& vv_get(sm.vv, self.local_alias) < u64::MAX
            &&& size <= 0x7fff_ffff_ffff_ffff
            &&& few_frags(size, Self::extend_exp(sm, size))
        }
    }

    /// What extending the content at `key` to `size` bytes does.
    pub open spec fn extend_step(
        o: &Self,
        e: &Self,
        key: Seq<u8>,
        size: nat,
        r: Result<(), Error>,
    ) -> bool {
        match o.head(key) {
            Err(x) => r == Err::<(), Error>(x) && *e == *o,
            Ok((uuid, head_addr, r0)) => if r0.content is None || size <= r0.stream().size() {
                r is Ok && *e == *o
            } else if !o.may_sign() {
                r == Err::<(), Error>(Error::Integrity) && *e == *o
            } else {
                &&& r is Ok
                &&& Self::head_committed(o, e, e.recs().last())
                &&& o.extended(r0, head_addr, size, e.recs().last())
                &&& e.recs().last() == o.signed_fresh(
                    (RecordModel { signature: None, ..e.recs().last() }),
                )
            },
        }
    }

    /// Grows the content at a key to `new_size` bytes; the new part is a hole and
    /// reads as zeros. Content that is as long already stays as it is, and so
    /// does a unit without content.
    pub fn extend_key(&mut self, key: &[u8], new_size: u64) -> (r: Result<(), Error>)
        requires
            old(self).inv(),
            old(self).header.commit_seq < u64::MAX,
            old(self).extend_fits(key@, new_size as nat),
        ensures
            final(self).inv(),
            old(self).recoverable() ==> final(self).recoverable(),
            Self::extend_step(old(self), final(self), key@, new_size as nat, r),
    {
        let (uuid, head_addr, rec): (Uuid, u64, UnitRecord) = match self.find_head(key) {
            Err(e) => {
                return Err(e);
            },
            Ok(x) => x,
        };
        let ghost o = *self;
        let ghost r0 = rec@;
        let ghost sm0 = r0.stream();
        let mut sm: StreamMeta = match &rec.content {
            None => {
                return Ok(());
            },
            Some(s) => s.clone(),
        };
        if new_size <= stream_byte_len(&sm) {
            return Ok(());
        }
        let exp: u8 = if sm.unit_map.len() == 0 {
            derive_fragsize_exp(new_size, FRAGSIZE_FLOOR_EXP, MAX_FRAGSIZE_EXP)
        } else {
            sm.fragsize_exp
        };
        proof {
            lemma_exp_range(new_size as nat, 12, 22);
            lemma_frags(new_size as nat, exp);
        }
        let n: usize = frag_count(new_size, exp) as usize;
        sm.fragsize_exp = exp;
        grow_stream(&mut sm, n);
        sm.last_frag_length = last_frag_length(new_size, exp);
        let bumped: u64 = sm.vv.bump(self.local_alias);
        let (suite, frag_suites): (u8, Vec<u8>) = self.frag_suites_carryover(&rec, n);
        let out: UnitRecord = UnitRecord {
            uuid,
            content: Some(sm),
            meta: clone_stream(&rec.meta),
            parent: Some(head_addr),
            concurrent_strains: Vec::new(),
            content_suite: Some(suite),
            frag_suites,
            signature: None,
            db: rec.db,
            superseded: Vec::new(),
        };
        proof {
            let r1 = out@;
            assert(r1.strains =~= Seq::<u64>::empty());
            assert(r1.superseded =~= Seq::<u64>::empty());
            assert(r1.stream() =~= (StreamModel {
                vv: r1.stream().vv,
                fragsize_exp: exp,
                last_frag_length: last_len(new_size as nat, exp) as u32,
                ..grown(sm0, n as nat)
            }));
            lemma_frag_bytes(exp);
            if sm0.n() > 0 {
                let fs = frag_bytes(exp) as int;
                let n0 = sm0.n() as int;
                assert(n >= n0) by (nonlinear_arith)
                    requires
                        new_size <= n * fs,
                        new_size > (n0 - 1) * fs,
                        fs >= 1,
                ;
            }
            assert(r1.stream().size() == new_size);
            let lo = o.slots().len();
            let k = r0.uuid@;
            assert forall|p: int| #[trigger]
                place(r1, p) == 0 || place(r1, p) == live(o.ids@, o.recs(), k, p) || lo < place(
                    r1,
                    p,
                ) <= lo by {
                if 0 <= p < sm0.n() {
                    assert(r1.stream().locations[p] == sm0.locations[p]);
                } else if sm0.n() <= p < r1.stream().n() {
                    assert(r1.stream().locations[p] == hole());
                }
            }
            assert forall|p: int, q: int|
                #![trigger place(r1, p), place(r1, q)]
                place(r1, p) > lo && place(r1, p) == place(r1, q) implies p == q by {
                assert(live(o.ids@, o.recs(), k, p) <= lo);
            }
            assert(places_step(o.ids@, o.recs(), k, r1, lo, lo));
            o.lemma_may_sign(r1);
            assert((RecordModel { signature: None, ..o.signed_fresh(r1) }) == r1);
        }
        self.commit_head(out, RecordSignIntent::Fresh, Ghost(o.slots().len()))
    }

    /// Grows the content at `path` to `new_size` bytes.
    pub fn extend(&mut self, path: &str, new_size: u64) -> (r: Result<(), Error>)
        requires
            old(self).inv(),
            old(self).header.commit_seq < u64::MAX,
            old(self).extend_fits(path.spec_bytes(), new_size as nat),
        ensures
            final(self).inv(),
            old(self).recoverable() ==> final(self).recoverable(),
            Self::extend_step(old(self), final(self), path.spec_bytes(), new_size as nat, r),
    {
        self.extend_key(path.as_bytes(), new_size)
    }

    /// Extending keeps the content and adds what follows it in its last
    /// fragment, then zeros.
    pub proof fn law_extend_keeps_content(
        o: &Self,
        e: &Self,
        r0: RecordModel,
        head_addr: u64,
        size: nat,
        r1: RecordModel,
    )
        requires
            o.extended(r0, head_addr, size, r1),
            Self::same_reads(o, e),
            r0.stream().geometry_ok(),
            size > r0.stream().size(),
            size <= 0x7fff_ffff_ffff_ffff,
        ensures
            e.contents(r1).len() == size,
            e.contents(r1).subrange(0, r0.stream().size() as int) == o.contents(r0),
            forall|i: int|
                r0.stream().size() <= i < size && i >= r0.stream().n() * frag_bytes(
                    r0.stream().fragsize_exp,
                ) ==> #[trigger] e.contents(r1)[i] == 0,
            (forall|j: int|
                r0.stream().n() > 0 && r0.stream().last_frag_length <= j < frag_bytes(
                    r0.stream().fragsize_exp,
                ) ==> #[trigger] byte_or_zero(o.plain(r0, r0.stream().n() - 1), j) == 0)
                ==> forall|i: int|
                r0.stream().size() <= i < size ==> #[trigger] e.contents(r1)[i] == 0,
    {
        let sm0 = r0.stream();
        let sm1 = r1.stream();
        let exp = Self::extend_exp(sm0, size);
        let fs = frag_bytes(exp) as int;
        let n0 = sm0.n() as int;
        lemma_exp_range(size, 12, 22);
        lemma_frag_bytes(exp);
        lemma_frags(size, exp);
        let n = frags_for(size, exp);
        if n0 > 0 {
            assert(n >= n0) by (nonlinear_arith)
                requires
                    size <= n * fs,
                    size > (n0 - 1) * fs,
                    fs >= 1,
            ;
        }
        assert(sm1.n() == n);
        assert(sm1.size() == size);
        assert forall|g: int| 0 <= g < n implies #[trigger] e.plain(r1, g) == if g < n0 {
            o.plain(r0, g)
        } else {
            Seq::empty()
        } by {
            if g < n0 {
                assert(sm1.locations[g] == sm0.locations[g]);
                assert(sm1.unit_map[g] == sm0.unit_map[g]);
                lemma_suites_form(o.carried(r0, n), o.header.content_cipher, o.header.cipher, r1, g);
                assert(e.suite(r1, g) == o.suite(r0, g));
            } else {
                assert(sm1.locations[g] == hole());
            }
        }
        assert forall|i: int| 0 <= i < size implies e.byte(r1, i) == if i / fs < n0 {
            byte_or_zero(o.plain(r0, i / fs), i % fs)
        } else {
            0
        } by {
            assert(0 <= i / fs < n) by (nonlinear_arith)
                requires
                    0 <= i < size,
                    size <= n * fs,
                    fs >= 1,
            ;
            assert(e.plain(r1, i / fs) == if i / fs < n0 {
                o.plain(r0, i / fs)
            } else {
                Seq::empty()
            });
        }
        let front = e.contents(r1).subrange(0, sm0.size() as int);
        assert forall|i: int| 0 <= i < sm0.size() implies front[i] == o.contents(r0)[i] by {
            lemma_last_fragment(sm0, i);
            assert(front[i] == e.byte(r1, i));
        }
        assert(front =~= o.contents(r0));
        assert forall|i: int|
            sm0.size() <= i < size && i >= n0 * frag_bytes(
                sm0.fragsize_exp,
            ) implies #[trigger] e.contents(r1)[i] == 0 by {
            assert(e.contents(r1)[i] == e.byte(r1, i));
            if n0 > 0 {
                assert(i / fs >= n0) by (nonlinear_arith)
                    requires
                        i >= n0 * fs,
                        fs >= 1,
                ;
            } else {
                assert(i / fs >= 0) by (nonlinear_arith)
                    requires
                        i >= 0,
                        fs >= 1,
                ;
            }
        }
        if forall|j: int|
            n0 > 0 && sm0.last_frag_length <= j < frag_bytes(
                sm0.fragsize_exp,
            ) ==> #[trigger] byte_or_zero(
                o.plain(r0, n0 - 1),
                j,
            ) == 0 {
            assert forall|i: int| sm0.size() <= i < size implies #[trigger] e.contents(r1)[i]
                == 0 by {
                assert(e.contents(r1)[i] == e.byte(r1, i));
                if n0 > 0 && i < n0 * fs {
                    assert((n0 - 1) * fs + fs == n0 * fs) by (nonlinear_arith);
                    lemma_in_fragment(i, n0 - 1, fs);
                    assert(byte_or_zero(o.plain(r0, n0 - 1), i - (n0 - 1) * fs) == 0);
                } else if n0 > 0 {
                    assert(i / fs >= n0) by (nonlinear_arith)
                        requires
                            i >= n0 * fs,
                            fs >= 1,
                    ;
                } else {
                    assert(i / fs >= 0) by (nonlinear_arith)
                        requires
                            i >= 0,
                            fs >= 1,
                    ;
                }
            }
        }
    }
}

impl<C: Crypto> Engine<C> {
    // ── Truncate ────────────────────────────────────────────────────────────

    /// The first `size` bytes of a unit as a read gives them, pending writes
    /// laid over them.
    pub open spec fn cut(&self, r: RecordModel, size: int) -> Seq<u8> {
        overlaid_window(
            self.contents(r).subrange(0, size),
            pending_of(self.overlay@, r.uuid),
            0,
            size,
        )
    }

    /// The cut falls into a stored fragment, so that its rest must go.
    pub open spec fn reseals(sm: StreamModel, size: nat) -> bool {
        let n = frags_for(size, sm.fragsize_exp);
        sm.locations[n - 1] != hole() && last_len(size, sm.fragsize_exp) < frag_bytes(
            sm.fragsize_exp,
        )
    }

    /// The first fragment that a cut to `size` bytes does not leave as it is.
    pub open spec fn cut_from(sm: StreamModel, size: nat) -> int {
        if size == 0 {
            0
        } else if Self::reseals(sm, size) {
            frags_for(size, sm.fragsize_exp) - 1
        } else {
            frags_for(size, sm.fragsize_exp) as int
        }
    }

    /// A cut keeps the blocks that it takes out of the content as history.
    pub open spec fn cut_kept(o: &Self, e: &Self, r0: RecordModel, size: nat) -> bool {
        let from = Self::cut_from(r0.stream(), size);
        let n = r0.stream().n() as int;
        &&& e.tail() == o.tail() + o.kept_images(r0, from, n)
        &&& e.stamps@ == o.stamps@
        &&& o.suppress_commit ==> e.journaled@ == o.journaled@ + o.kept_journal(r0, from, n)
    }

    /// The record of `r0` after its content was cut to `size` bytes, which are
    /// fewer than it had and not none.
    pub open spec fn truncated(
        o: &Self,
        e: &Self,
        r0: RecordModel,
        head_addr: u64,
        size: nat,
        r1: RecordModel,
    ) -> bool {
        let sm0 = r0.stream();
        let sm1 = r1.stream();
        let exp = sm0.fragsize_exp;
        let fs = frag_bytes(exp) as int;
        let n = frags_for(size, exp);
        let version = dot(o.local_alias, (vv_get(sm0.vv, o.local_alias) + 1) as u64);
        let form = suites_form(o.carried(r0, n), o.header.content_cipher);
        &&& Self::follows(r0, head_addr, r1)
        &&& r1.content is Some
        &&& vv_is_bump(sm0.vv, o.local_alias, sm1.vv)
        &&& sm1.fragsize_exp == exp
        &&& sm1.last_frag_length == last_len(size, exp)
        &&& sm1.geometry_ok()
        &&& sm1.last_frag_length >= 1
        &&& sm1.size() == size
        &&& pins_cleared(
            pins_cut(sm0.pins, n),
            sm1.pins,
            Self::cut_from(sm0, size),
            sm0.n() as int,
        )
        &&& sm1.locations.len() == n
        &&& sm1.unit_map == if Self::reseals(sm0, size) {
            sm0.unit_map.take(n as int).update(n - 1, version)
        } else {
            sm0.unit_map.take(n as int)
        }
        &&& forall|g: int|
            0 <= g < n && !(Self::reseals(sm0, size) && g == n - 1) ==> #[trigger] sm1.locations[g]
                == sm0.locations[g]
        &&& Self::reseals(sm0, size) ==> e.frag(r1, n - 1) == Ok::<Seq<u8>, Error>(
            o.padded_under(
                o.suite(r0, n - 1),
                o.cut(r0, size as int).subrange((n - 1) * fs, size as int),
                exp,
            ),
        )
        &&& r1.content_suite == Some(form.0)
        &&& r1.frag_suites == form.1
        &&& e.contents(r1) == Seq::new(
            size,
            |i: int|
                if Self::reseals(sm0, size) && i >= (n - 1) * fs {
                    o.cut(r0, size as int)[i]
                } else {
                    o.contents(r0)[i]
                },
        )
    }

    /// The record of a unit whose content was cut to nothing.
    pub open spec fn emptied(&self, r0: RecordModel, head_addr: u64, r1: RecordModel) -> bool {
        &&& Self::follows(r0, head_addr, r1)
        &&& r1.content is Some
        &&& vv_is_bump(r0.stream().vv, self.local_alias, r1.stream().vv)
        &&& r1.stream() == (StreamModel { vv: r1.stream().vv, ..empty_stream() })
        &&& r1.content_suite == Some(self.header.content_cipher)
        &&& r1.frag_suites == Seq::<u8>::empty()
    }

    /// Limits on a truncation to `size` bytes.
    pub open spec fn truncate_fits(&self, key: Seq<u8>, size: nat) -> bool {
        &&& size <= usize::MAX
        &&& self.head(key) is Ok ==> {
            let sm = self.head(key)->Ok_0.2.stream();
            &&& sm.geometry_ok()
            &&& vv_get(sm.vv, self.local_alias) < u64::MAX
        }
    }

    /// What `truncate` did.
    pub open spec fn truncate_step(
        o: &Self,
        e: &Self,
        key: Seq<u8>,
        size: u64,
        r: Result<(), Error>,
    ) -> bool {
        match o.head(key) {
            Err(err) => r == Err::<(), Error>(err) && *e == *o,
            Ok((uuid, head_addr, r0)) => if r0.content is None || size >= r0.stream().size() {
                r is Ok && *e == *o
            } else if size == 0 {
                Self::emptied_step(o, e, uuid, head_addr, r0, r)
            } else {
                Self::cut_step(o, e, uuid, head_addr, r0, size, r)
            },
        }
    }

    /// What cutting content to nothing did.
    pub open spec fn emptied_step(
        o: &Self,
        e: &Self,
        uuid: Uuid,
        head_addr: u64,
        r0: RecordModel,
        r: Result<(), Error>,
    ) -> bool {
        if !o.may_sign() {
            r == Err::<(), Error>(Error::Integrity) && Self::nothing_installed(o, e)
        } else {
            let m = e.recs().last();
            &&& r is Ok
            &&& e.recs() == o.recs().push(m)
            &&& e.recs().len() <= u64::MAX
            &&& e.ids@ == o.ids@.insert(uuid@, e.recs().len() as u64)
            &&& e.keys@ == o.keys@
            &&& e.slots() == o.slots()
            &&& Self::same_setup(o, e)
            &&& Self::same_reads(o, e)
            &&& Self::cut_kept(o, e, r0, 0)
            &&& Self::commit_step(o, e)
            &&& o.emptied(r0, head_addr, e.recs().last())
            &&& e.recs().last() == o.signed_fresh(
                (RecordModel { signature: None, ..e.recs().last() }),
            )
        }
    }

    /// What cutting content to `size` bytes, not none, did.
    pub open spec fn cut_step(
        o: &Self,
        e: &Self,
        uuid: Uuid,
        head_addr: u64,
        r0: RecordModel,
        size: u64,
        r: Result<(), Error>,
    ) -> bool {
        &&& e.decode_count == o.decodes_after(uuid, head_addr)
        &&& match o.range(r0, 0, size as int) {
            Err(err) => r == Err::<(), Error>(err) && Self::nothing_installed(
                o,
                &(Engine { decode_count: o.decode_count, ..*e }),
            ),
            Ok(_) => if !o.may_sign() {
                r == Err::<(), Error>(Error::Integrity) && Self::nothing_installed(
                    o,
                    &(Engine { decode_count: o.decode_count, ..*e }),
                )
            } else {
                let m = e.recs().last();
                &&& r is Ok
                &&& e.recs() == o.recs().push(m)
                &&& e.recs().len() <= u64::MAX
                &&& e.ids@ == o.ids@.insert(uuid@, e.recs().len() as u64)
                &&& e.keys@ == o.keys@
                &&& o.slots().len() <= e.slots().len()
                &&& e.slots().take(o.slots().len() as int) == o.slots()
                &&& Self::same_setup(o, &(Engine { decode_count: o.decode_count, ..*e }))
                &&& Self::cut_kept(o, e, r0, size as nat)
                &&& Self::commit_step(o, e)
                &&& Self::truncated(o, e, r0, head_addr, size as nat, m)
                &&& m == o.signed_fresh((RecordModel { signature: None, ..m }))
            },
        }
    }

    /// Cuts the content at a key to `new_size` bytes. Content that is no longer
    /// stays as it is. The part of the last fragment behind the cut is dropped
    /// for good: growing the content again gives zeros.
    pub fn truncate_key(&mut self, key: &[u8], new_size: u64) -> (r: Result<(), Error>)
        requires
            old(self).inv(),
            old(self).header.commit_seq < u64::MAX,
            old(self).truncate_fits(key@, new_size as nat),
        ensures
            final(self).inv(),
            old(self).recoverable() ==> final(self).recoverable(),
            Self::truncate_step(old(self), final(self), key@, new_size, r),
    {
        let (uuid, head_addr, rec): (Uuid, u64, UnitRecord) = match self.find_head(key) {
            Err(e) => {
                return Err(e);
            },
            Ok(x) => x,
        };
        let sm: &StreamMeta = match &rec.content {
            None => {
                return Ok(());
            },
            Some(s) => s,
        };
        let old_size: u64 = stream_byte_len(sm);
        if new_size >= old_size {
            return Ok(());
        }
        if new_size == 0 {
            self.empty_head(head_addr, &rec)
        } else {
            self.cut_head(key, head_addr, &rec, new_size)
        }
    }

    /// Cuts the content of a head to nothing.
    fn empty_head(&mut self, head_addr: u64, rec: &UnitRecord) -> (r: Result<(), Error>)
        requires
            old(self).inv(),
            old(self).header.commit_seq < u64::MAX,
            rec@.content is Some,
            rec@.stream().geometry_ok(),
            vv_get(rec@.stream().vv, old(self).local_alias) < u64::MAX,
            in_heap(old(self).recs(), head_addr),
            old(self).recs()[head_addr - 1] == rec@,
            old(self).ids@.contains_key(rec@.uuid@),
            old(self).ids@[rec@.uuid@] == head_addr,
        ensures
            final(self).inv(),
            old(self).recoverable() ==> final(self).recoverable(),
            Self::emptied_step(old(self), final(self), rec@.uuid, head_addr, rec@, r),
    {
        let ghost o = *self;
        let ghost r0 = rec@;
        let ghost k = r0.uuid@;
        let ghost lo = o.slots().len();
        let uuid: Uuid = rec.uuid;
        let old_sm: &StreamMeta = match &rec.content {
            None => {
                return Err(Error::Integrity);
            },
            Some(s) => s,
        };
        let mut sm: StreamMeta = old_sm.clone();
        let n0: usize = old_sm.unit_map.len();
            self.retire_range(rec, old_sm, &mut sm.pins, 0, n0);
            let bumped: u64 = sm.vv.bump(self.local_alias);
            let mut empty: StreamMeta = empty_content_stream();
            empty.vv = sm.vv;
            let ghost kept = *self;
            let none: Vec<u8> = Vec::new();
            let out: UnitRecord = UnitRecord {
                uuid,
                content: Some(empty),
                meta: clone_stream(&rec.meta),
                parent: Some(head_addr),
                concurrent_strains: Vec::new(),
                content_suite: Some(self.header.content_cipher),
                frag_suites: none,
                signature: None,
                db: rec.db,
                superseded: Vec::new(),
            };
            proof {
                let r1 = out@;
                assert(r1.strains =~= Seq::<u64>::empty());
                assert(r1.superseded =~= Seq::<u64>::empty());
                assert(r1.frag_suites =~= Seq::<u8>::empty());
                assert forall|p: int| #[trigger]
                    place(r1, p) == 0 || place(r1, p) == live(o.ids@, o.recs(), k, p) || lo
                        < place(r1, p) <= lo by {}
                assert forall|p: int, q: int|
                    #![trigger place(r1, p), place(r1, q)]
                    place(r1, p) > lo && place(r1, p) == place(r1, q) implies p == q by {
                    assert(live(o.ids@, o.recs(), k, p) <= lo);
                }
                assert(places_step(o.ids@, o.recs(), k, r1, lo, lo));
                o.lemma_may_sign(r1);
                assert((RecordModel { signature: None, ..o.signed_fresh(r1) }) == r1);
            }
            let ghost r1 = out@;
            proof {
                assert(self.trust() == o.trust());
                self.lemma_may_sign(r1);
                assert(r1.stream() =~= (StreamModel { vv: r1.stream().vv, ..empty_stream() }));
                assert forall|a: u64| #[trigger] self.dirty@.contains(a) implies a <= lo by {
                    assert(in_heap(o.slots(), a));
                }
            }
            let r: Result<(), Error> = self.commit_head(out, RecordSignIntent::Fresh, Ghost(lo));
            proof {
                if r is Ok {
                    let m = self.recs().last();
                    assert(m == (RecordModel { signature: m.signature, ..r1 }));
                    assert(kept.recs() == o.recs());
                }
            }
            r
    }

    /// Cuts the content of a head inside it.
    #[verifier::rlimit(40)]
    fn cut_head(&mut self, key: &[u8], head_addr: u64, rec: &UnitRecord, new_size: u64) -> (r:
        Result<(), Error>)
        requires
            old(self).inv(),
            old(self).header.commit_seq < u64::MAX,
            old(self).truncate_fits(key@, new_size as nat),
            old(self).head(key@) == Ok::<(Uuid, u64, RecordModel), Error>(
                (rec@.uuid, head_addr, rec@),
            ),
            rec@.content is Some,
            0 < new_size < rec@.stream().size(),
        ensures
            final(self).inv(),
            old(self).recoverable() ==> final(self).recoverable(),
            Self::cut_step(old(self), final(self), rec@.uuid, head_addr, rec@, new_size, r),
    {
        let ghost o = *self;
        let ghost r0 = rec@;
        let ghost sm0 = r0.stream();
        let ghost k = r0.uuid@;
        let ghost lo = o.slots().len();
        let uuid: Uuid = rec.uuid;
        let old_sm: &StreamMeta = match &rec.content {
            None => {
                return Err(Error::Integrity);
            },
            Some(s) => s,
        };
        let mut sm: StreamMeta = old_sm.clone();
        let n0: usize = old_sm.unit_map.len();
        let content: Vec<u8> = match self.read_at_key(key, 0, new_size as usize) {
            Err(e) => {
                return Err(e);
            },
            Ok(c) => c,
        };
        let ghost whole = o.cut(r0, new_size as int);
        let exp: u8 = sm.fragsize_exp;
        let fs: u64 = fragsize(exp);
        proof {
            lemma_size_bound(sm0);
        }
        let n: usize = frag_count(new_size, exp) as usize;
        let ghost gfs = fs as int;
        proof {
            lemma_frags(new_size as nat, exp);
            lemma_last_fragment(sm0, new_size - 1);
            crate::overlay::lemma_window_len(
                o.contents(r0).subrange(0, new_size as int),
                pending_of(o.overlay@, r0.uuid),
                0,
                new_size as int,
            );
            assert(content@ == whole);
        }
        let inside: bool = !is_hole(old_sm.locations[n - 1]) && (last_frag_length(new_size, exp)
            as u64) < fs;
        let start: usize = if inside {
            n - 1
        } else {
            n
        };
        let ghost read = *self;
        self.retire_range(rec, old_sm, &mut sm.pins, start, n0);
        proof {
            Self::lemma_kept_same(&o, &read, r0, start as int, n0 as int);
            lemma_pins_cut_cleared(
                sm0.pins,
                pins_view(sm.pins@),
                start as int,
                n0 as int,
                n as nat,
            );
        }
        sm.unit_map.truncate(n);
        sm.locations.truncate(n);
        cut_pins(&mut sm.pins, n);
        let from: u64 = (n as u64 - 1) * fs;
        sm.last_frag_length = last_frag_length(new_size, exp);
        let sync_id: u64 = sm.vv.bump(self.local_alias);
        let version: u64 = pack_dot(self.local_alias, sync_id);
        let last: usize = n - 1;
        let ghost before = *self;
        if !is_hole(sm.locations[last]) && (sm.last_frag_length as u64) < fs {
            let suite: u8 = self.content_frag_suite_id(rec, last);
            let plain: Vec<u8> = copy_range(content.as_slice(), from as usize, new_size as usize);
            proof {
                o.lemma_range_known(r0, 0, (new_size - 1) / gfs, last as int);
            }
            let block: Vec<u8> = self.seal_under(suite, &rec.uuid, last, version, plain, exp);
            let loc: BlockLoc = self.place_content_fragment(block);
            sm.locations.set(last, loc);
            sm.unit_map.set(last, version);
        }
        let (suite, frag_suites): (u8, Vec<u8>) = self.frag_suites_carryover(rec, n);
        let out: UnitRecord = UnitRecord {
            uuid,
            content: Some(sm),
            meta: clone_stream(&rec.meta),
            parent: Some(head_addr),
            concurrent_strains: Vec::new(),
            content_suite: Some(suite),
            frag_suites,
            signature: None,
            db: rec.db,
            superseded: Vec::new(),
        };
        let ghost r1 = out@;
        let ghost mid = *self;
        proof {
            assert(r1.strains =~= Seq::<u64>::empty());
            assert(r1.superseded =~= Seq::<u64>::empty());
            assert(self.carried(r0, n as nat) =~= o.carried(r0, n as nat));
            let reseal = Self::reseals(sm0, new_size as nat);
            if reseal {
                assert(r1.stream().unit_map =~= sm0.unit_map.take(n as int).update(
                    n - 1,
                    version,
                ));
            } else {
                assert(r1.stream().unit_map =~= sm0.unit_map.take(n as int));
            }
            assert(self.slots().take(lo as int) =~= o.slots());
            Self::lemma_truncated(&o, &*self, r0, head_addr, new_size as nat, r1, version);
            Self::lemma_cut_places(&o, &*self, r0, r1, n as int);
            o.lemma_may_sign(r1);
            self.lemma_may_sign(r1);
            assert((RecordModel { signature: None, ..o.signed_fresh(r1) }) == r1);
        }
        let r: Result<(), Error> = self.commit_head(out, RecordSignIntent::Fresh, Ghost(lo));
        proof {
            if r is Ok {
                let m = self.recs().last();
                assert(m == (RecordModel { signature: m.signature, ..r1 }));
                self.lemma_signature_free(r1, m);
                Self::lemma_same_contents(&mid, &*self, r1);
                assert(self.frag(m, n - 1) == mid.frag(r1, n - 1));
                assert(mid.recs() == o.recs());
            }
        }
        r
    }

    /// Fragments that passed a range check have a known suite.
    pub proof fn lemma_range_known(&self, r: RecordModel, start: int, end: int, f: int)
        requires
            start <= f <= end,
            self.range_error(r, start, end) is None,
            !Self::hole_at(r, f),
        ensures
            C::known(self.suite(r, f)),
        decreases end + 1 - start,
    {
        if start < f {
            self.lemma_range_known(r, start + 1, end, f);
        }
    }

    proof fn lemma_cut_places(o: &Self, e: &Self, r0: RecordModel, r1: RecordModel, n: int)
        requires
            o.inv(),
            o.ids@.contains_key(r0.uuid@),
            o.recs()[o.ids@[r0.uuid@] - 1] == r0,
            r1.content is Some,
            r1.meta == r0.meta,
            1 <= n <= r0.stream().n(),
            r0.stream().locations.len() == r0.stream().unit_map.len(),
            r1.stream().locations.len() == n,
            o.slots().len() <= e.slots().len(),
            forall|g: int| 0 <= g < n - 1 ==> #[trigger] r1.stream().locations[g]
                == r0.stream().locations[g],
            r1.stream().locations[n - 1] == r0.stream().locations[n - 1] || o.slots().len()
                < r1.stream().locations[n - 1].addr <= e.slots().len(),
        ensures
            places_step(o.ids@, o.recs(), r0.uuid@, r1, o.slots().len(), e.slots().len()),
    {
        let lo = o.slots().len();
        let k = r0.uuid@;
        assert forall|p: int| #[trigger]
            place(r1, p) == 0 || place(r1, p) == live(o.ids@, o.recs(), k, p) || lo < place(r1, p)
                <= e.slots().len() by {
            if 0 <= p < n - 1 {
                assert(r1.stream().locations[p] == r0.stream().locations[p]);
            }
        }
        assert forall|p: int, q: int|
            #![trigger place(r1, p), place(r1, q)]
            place(r1, p) > lo && place(r1, p) == place(r1, q) implies p == q by {
            assert(live(o.ids@, o.recs(), k, p) <= lo);
            assert(live(o.ids@, o.recs(), k, q) <= lo);
            if 0 <= p < n - 1 {
                assert(r1.stream().locations[p] == r0.stream().locations[p]);
            }
            if 0 <= q < n - 1 {
                assert(r1.stream().locations[q] == r0.stream().locations[q]);
            }
        }
    }

    /// What is left after a cut.
    proof fn lemma_truncated(
        o: &Self,
        e: &Self,
        r0: RecordModel,
        head_addr: u64,
        size: nat,
        r1: RecordModel,
        version: u64,
    )
        requires
            o.inv(),
            o.ids@.contains_key(r0.uuid@),
            o.recs()[o.ids@[r0.uuid@] - 1] == r0,
            r0.stream().geometry_ok(),
            0 < size < r0.stream().size(),
            o.root_key == e.root_key,
            o.header == e.header,
            o.slots().len() <= e.slots().len(),
            e.slots().take(o.slots().len() as int) == o.slots(),
            o.cut(r0, size as int).len() == size,
            ({
                let sm0 = r0.stream();
                let sm1 = r1.stream();
                let exp = sm0.fragsize_exp;
                let fs = frag_bytes(exp) as int;
                let n = frags_for(size, exp);
                let form = suites_form(o.carried(r0, n), o.header.content_cipher);
                let plain = o.cut(r0, size as int).subrange((n - 1) * fs, size as int);
                &&& r1.uuid == r0.uuid
                &&& r1.content is Some
                &&& sm1.fragsize_exp == exp
                &&& sm1.last_frag_length == last_len(size, exp)
                &&& sm1.locations.len() == n
                &&& sm1.unit_map == if Self::reseals(sm0, size) {
                    sm0.unit_map.take(n as int).update(n - 1, version)
                } else {
                    sm0.unit_map.take(n as int)
                }
                &&& forall|g: int|
                    0 <= g < n && !(Self::reseals(sm0, size) && g == n - 1)
                        ==> #[trigger] sm1.locations[g] == sm0.locations[g]
                &&& r1.content_suite == Some(form.0)
                &&& r1.frag_suites == form.1
                &&& Self::reseals(sm0, size) ==> {
                    let loc = sm1.locations[n - 1];
                    let suite = o.suite(r0, n - 1);
                    &&& C::known(suite)
                    &&& in_heap(e.slots(), loc.addr)
                    &&& loc.len == e.slots()[loc.addr - 1].len()
                    &&& C::opened(
                        suite,
                        o.root_key,
                        o.ctx(r0.uuid, n - 1, version),
                        e.slots()[loc.addr - 1],
                    ) == Some(o.padded_under(suite, plain, exp))
                }
            }),
        ensures
            ({
                let sm0 = r0.stream();
                let exp = sm0.fragsize_exp;
                let fs = frag_bytes(exp) as int;
                let n = frags_for(size, exp);
                &&& r1.stream().geometry_ok()
                &&& r1.stream().last_frag_length >= 1
                &&& r1.stream().size() == size
                &&& Self::reseals(sm0, size) ==> e.frag(r1, n - 1) == Ok::<Seq<u8>, Error>(
                    o.padded_under(
                        o.suite(r0, n - 1),
                        o.cut(r0, size as int).subrange((n - 1) * fs, size as int),
                        exp,
                    ),
                )
                &&& e.contents(r1) == Seq::new(
                    size,
                    |i: int|
                        if Self::reseals(sm0, size) && i >= (n - 1) * fs {
                            o.cut(r0, size as int)[i]
                        } else {
                            o.contents(r0)[i]
                        },
                )
            }),
    {
        let sm0 = r0.stream();
        let sm1 = r1.stream();
        let exp = sm0.fragsize_exp;
        let fs = frag_bytes(exp) as int;
        let n = frags_for(size, exp) as int;
        let cut = o.cut(r0, size as int);
        let reseal = Self::reseals(sm0, size);
        lemma_frag_bytes(exp);
        lemma_frags(size, exp);
        lemma_last_fragment(sm0, size - 1);
        assert(n <= sm0.n());
        assert forall|g: int| 0 <= g < n implies #[trigger] e.suite(r1, g) == o.suite(r0, g) by {
            lemma_suites_form(
                o.carried(r0, n as nat),
                o.header.content_cipher,
                o.header.cipher,
                r1,
                g,
            );
        }
        assert forall|g: int| 0 <= g < n && !(reseal && g == n - 1) implies #[trigger] e.plain(
            r1,
            g,
        ) == o.plain(r0, g) by {
            let loc = sm0.locations[g];
            assert(sm1.locations[g] == loc);
            assert(sm1.unit_map[g] == sm0.unit_map[g]);
            assert(live(o.ids@, o.recs(), r0.uuid@, g) == loc.addr);
            if loc.addr != 0 {
                assert(e.slots().take(o.slots().len() as int)[loc.addr - 1] == e.slots()[loc.addr
                    - 1]);
            }
            assert(stored_at(e.slots(), loc) == stored_at(o.slots(), loc));
            assert(e.suite(r1, g) == o.suite(r0, g));
        }
        if reseal {
            assert(e.suite(r1, n - 1) == o.suite(r0, n - 1));
            assert(sm1.unit_map[n - 1] == version);
        }
        assert(sm1.size() == size);
        let want = Seq::new(
            size,
            |i: int|
                if reseal && i >= (n - 1) * fs {
                    cut[i]
                } else {
                    o.contents(r0)[i]
                },
        );
        assert forall|i: int| 0 <= i < size implies e.byte(r1, i) == want[i] by {
            let g = i / fs;
            assert(0 <= g && g * fs <= i < g * fs + fs) by (nonlinear_arith)
                requires
                    g == i / fs,
                    i >= 0,
                    fs >= 1,
            ;
            assert(g < n) by (nonlinear_arith)
                requires
                    g * fs <= i,
                    i < size,
                    size <= n * fs,
                    fs >= 1,
            ;
            lemma_in_fragment(i, g, fs);
            if reseal && g == n - 1 {
                let plain = cut.subrange((n - 1) * fs, size as int);
                assert(plain[i - g * fs] == cut[i]);
                assert(sm1.locations[n - 1].addr != 0);
            } else {
                if reseal {
                    assert(i < (n - 1) * fs) by (nonlinear_arith)
                        requires
                            i < g * fs + fs,
                            g <= n - 2,
                            fs >= 1,
                    ;
                }
                assert(e.plain(r1, g) == o.plain(r0, g));
            }
        }
        assert(e.contents(r1) =~= want);
    }

    /// Cuts the content at `path` to `new_size` bytes.
    pub fn truncate(&mut self, path: &str, new_size: u64) -> (r: Result<(), Error>)
        requires
            old(self).inv(),
            old(self).header.commit_seq < u64::MAX,
            old(self).truncate_fits(path.spec_bytes(), new_size as nat),
        ensures
            final(self).inv(),
            old(self).recoverable() ==> final(self).recoverable(),
            Self::truncate_step(old(self), final(self), path.spec_bytes(), new_size, r),
    {
        self.truncate_key(path.as_bytes(), new_size)
    }

    /// Without pending writes a cut leaves exactly the first bytes.
    pub proof fn law_truncate_keeps_the_front(
        o: &Self,
        e: &Self,
        r0: RecordModel,
        head_addr: u64,
        size: nat,
        r1: RecordModel,
    )
        requires
            Self::truncated(o, e, r0, head_addr, size, r1),
            size <= r0.stream().size(),
            pending_of(o.overlay@, r0.uuid).len() == 0,
        ensures
            e.contents(r1) == o.contents(r0).subrange(0, size as int),
    {
        crate::overlay::lemma_window_len(
            o.contents(r0).subrange(0, size as int),
            pending_of(o.overlay@, r0.uuid),
            0,
            size as int,
        );
        assert(e.contents(r1) =~= o.contents(r0).subrange(0, size as int));
    }
}

} // verus!
