//! Moving all content to another cipher suite.
use vstd::prelude::*;

use crate::block::frag_bytes;
use crate::bytes::{array16, take16};
use crate::catalog::{lemma_lex_irreflexive, lemma_map_of};
use crate::content::{byte_or_zero, lemma_last_fragment, stored_at};
use crate::crypto::Crypto;
use crate::engine::{live, Container, ContainerHeader, Engine};
use crate::error::Error;
use crate::heap::in_heap;
use crate::readback::lemma_frag_bytes_64;
use crate::reseal::{record_fits, units_of, SealPlan};
use crate::unit::{hole, payload_of, RecordModel, StreamModel, Uuid};

verus! {

/// A list of fragments, or an error, as a value.
pub open spec fn list_view(r: Result<Vec<(Uuid, u32, u64)>, Error>) -> Result<
    Seq<(Uuid, u32, u64)>,
    Error,
> {
    match r {
        Ok(v) => Ok(v@),
        Err(e) => Err(e),
    }
}

impl<C: Crypto> Engine<C> {
    /// Every record can be sealed anew within machine limits.
    pub open spec fn records_fit(&self) -> bool {
        forall|i: int| 0 <= i < self.recs().len() ==> record_fits(#[trigger] self.recs()[i])
    }

    /// The states that going through the first `n` units leaves behind.
    pub open spec fn recipher_trace(t: Seq<Self>, units: Seq<Uuid>, suite: u8, n: nat) -> bool {
        &&& t.len() == n + 1
        &&& forall|i: int| 0 <= i < t.len() ==> (#[trigger] t[i]).inv()
        &&& forall|i: int|
            #![trigger t[i + 1]]
            0 <= i < n ==> Self::recipher_step(
                &t[i],
                &t[i + 1],
                t[i].suite_plan(suite),
                units[i],
            )
    }

    /// All fragments of the first `n` units that were sealed anew.
    pub open spec fn refresh_set(t: Seq<Self>, units: Seq<Uuid>, suite: u8, n: nat) -> Seq<
        (Uuid, u32, u64),
    >
        decreases n,
    {
        if n == 0 {
            Seq::empty()
        } else {
            Self::refresh_set(t, units, suite, (n - 1) as nat) + t[n - 1].unit_refreshed(
                t[n - 1].suite_plan(suite),
                units[n - 1],
            )
        }
    }

    proof fn lemma_refresh_set(t0: Seq<Self>, t: Seq<Self>, units: Seq<Uuid>, suite: u8, n: nat)
        requires
            n <= t0.len(),
            t0.len() <= t.len(),
            forall|i: int| 0 <= i < t0.len() ==> t[i] == t0[i],
        ensures
            Self::refresh_set(t, units, suite, n) == Self::refresh_set(t0, units, suite, n),
        decreases n,
    {
        if n > 0 {
            Self::lemma_refresh_set(t0, t, units, suite, (n - 1) as nat);
        }
    }

    /// The engine with another suite for content.
    pub open spec fn under_suite(&self, suite: u8) -> Self {
        Engine { header: (ContainerHeader { content_cipher: suite, ..self.header }), ..*self }
    }

    /// What sealing all units under `suite` does.
    pub open spec fn units_reciphered(
        o: &Self,
        e: &Self,
        suite: u8,
        t: Seq<Self>,
        n: nat,
        r: Result<Seq<(Uuid, u32, u64)>, Error>,
    ) -> bool {
        let units = units_of(o.ids.pairs());
        &&& n <= units.len()
        &&& Self::recipher_trace(t, units, suite, n)
        &&& t[0] == *o
        &&& match r {
            Err(x) => {
                &&& n < units.len()
                &&& t[n as int].unit_error(t[n as int].suite_plan(suite), units[n as int]) == Some(
                    x,
                )
                &&& *e == (Engine {
                    disk: (Container { blocks: e.disk.blocks, ..t[n as int].disk }),
                    ..t[n as int]
                })
            },
            Ok(set) => {
                &&& n == units.len()
                &&& t[n as int] == *e
                &&& set == Self::refresh_set(t, units, suite, n)
            },
        }
    }

    fn recipher_units(&mut self, suite: u8) -> (r: Result<Vec<(Uuid, u32, u64)>, Error>)
        requires
            old(self).inv(),
            C::known(suite),
            old(self).records_fit(),
        ensures
            final(self).inv(),
            old(self).recoverable() ==> final(self).recoverable(),
            exists|t: Seq<Self>, n: nat| #[trigger]
                Self::units_reciphered(
                    old(self),
                    final(self),
                    suite,
                    t,
                    n,
                    list_view(r),
                ),
            final(self).header == old(self).header,
            final(self).suppress_commit == old(self).suppress_commit,
            final(self).disk.committed == old(self).disk.committed,
            final(self).snap == old(self).snap,
    {
        let ghost o = *self;
        let ghost pairs = self.ids.pairs();
        let ghost units = units_of(pairs);
        let total: usize = self.ids.len();
        let mut list: Vec<Uuid> = Vec::new();
        let mut j: usize = 0;
        proof {
            lemma_map_of(pairs);
        }
        while j < total
            invariant
                *self == o,
                o.inv(),
                pairs == self.ids.pairs(),
                units == units_of(pairs),
                total == pairs.len(),
                j <= total,
                list@.len() == j,
                forall|i: int| 0 <= i < j ==> #[trigger] list@[i] == units[i],
                forall|i: int| 0 <= i < pairs.len() ==> o.ids@.contains_key((#[trigger] pairs[i]).0),
            decreases total - j,
        {
            let (k, a): (Vec<u8>, u64) = self.ids.pair_at(j);
            proof {
                assert(o.ids@.contains_key(pairs[j as int].0));
                assert(k@.subrange(0, 16) =~= k@);
            }
            list.push(take16(k.as_slice(), 0));
            j = j + 1;
        }
        let mut out: Vec<(Uuid, u32, u64)> = Vec::new();
        let ghost mut t: Seq<Self> = seq![*self];
        let mut i: usize = 0;
        proof {
            assert(list@ =~= units);
            Self::lemma_units_distinct(&o);
            assert(out@ =~= Seq::empty());
        }
        while i < total
            invariant
                o == *old(self),
                o.inv(),
                C::known(suite),
                o.records_fit(),
                pairs == o.ids.pairs(),
                units == units_of(pairs),
                list@ == units,
                total == units.len(),
                i <= total,
                forall|x: int, y: int| 0 <= x < y < units.len() ==> units[x]@ != units[y]@,
                forall|x: int| 0 <= x < units.len() ==> o.ids@.contains_key(#[trigger] units[x]@),
                self.inv(),
                o.recoverable() ==> self.recoverable(),
                *self == (Engine {
                    disk: (Container {
                        records: self.disk.records,
                        blocks: self.disk.blocks,
                        ..o.disk
                    }),
                    ids: self.ids,
                    ..o
                }),
                o.recs().len() <= self.recs().len(),
                forall|x: int| 0 <= x < o.recs().len() ==> self.recs()[x] == o.recs()[x],
                forall|x: int|
                    i <= x < units.len() ==> self.ids@.contains_key(#[trigger] units[x]@)
                        && self.ids@[units[x]@] == o.ids@[units[x]@],
                t[0] == o,
                t[i as int] == *self,
                Self::recipher_trace(t, units, suite, i as nat),
                out@ == Self::refresh_set(t, units, suite, i as nat),
            decreases total - i,
        {
            let ghost a = *self;
            let uuid: Uuid = list[i];
            proof {
                assert(self.ids@.contains_key(units[i as int]@));
                let ad = o.ids@[uuid@];
                assert(in_heap(o.recs(), ad));
                assert(record_fits(o.recs()[ad - 1]));
            }
            match self.recipher_unit(&uuid, suite, &mut out) {
                Err(e) => {
                    proof {
                        assert(Self::units_reciphered(
                            &o,
                            &*self,
                            suite,
                            t,
                            i as nat,
                            Err(e),
                        ));
                    }
                    return Err(e);
                },
                Ok(()) => {},
            }
            proof {
                let t0 = t;
                t = t.push(*self);
                assert forall|x: int| 0 <= x < t.len() implies (#[trigger] t[x]).inv() by {
                    if x <= i {
                        assert(t[x] == t0[x]);
                    }
                }
                assert forall|x: int|
                    #![trigger t[x + 1]]
                    0 <= x < i + 1 implies Self::recipher_step(
                    &t[x],
                    &t[x + 1],
                    t[x].suite_plan(suite),
                    units[x],
                ) by {
                    if x < i {
                        assert(t[x + 1] == t0[x + 1]);
                        assert(t[x] == t0[x]);
                    }
                }
                Self::lemma_refresh_set(t0, t, units, suite, i as nat);
                assert forall|x: int| i + 1 <= x < units.len() implies self.ids@.contains_key(
                    #[trigger] units[x]@,
                ) && self.ids@[units[x]@] == o.ids@[units[x]@] by {
                    assert(units[i as int]@ != units[x]@);
                    assert(a.ids@.contains_key(units[x]@));
                }
            }
            i = i + 1;
        }
        proof {
            assert(Self::units_reciphered(&o, &*self, suite, t, total as nat, Ok(out@)));
        }
        Ok(out)
    }

    pub proof fn lemma_units_distinct(o: &Self)
        requires
            o.inv(),
        ensures
            forall|x: int, y: int|
                0 <= x < y < o.ids.pairs().len() ==> units_of(o.ids.pairs())[x]@ != units_of(
                    o.ids.pairs(),
                )[y]@,
            forall|x: int|
                0 <= x < o.ids.pairs().len() ==> o.ids@.contains_key(
                    #[trigger] units_of(o.ids.pairs())[x]@,
                ) && units_of(o.ids.pairs())[x]@ == o.ids.pairs()[x].0,
    {
        let pairs = o.ids.pairs();
        lemma_map_of(pairs);
        assert forall|x: int| 0 <= x < pairs.len() implies o.ids@.contains_key(
            #[trigger] units_of(pairs)[x]@,
        ) && units_of(pairs)[x]@ == pairs[x].0 by {
            assert(o.ids@.contains_key(pairs[x].0));
            assert(array16(pairs[x].0)@ == pairs[x].0);
        }
        assert forall|x: int, y: int| 0 <= x < y < pairs.len() implies units_of(pairs)[x]@
            != units_of(pairs)[y]@ by {
            assert(units_of(pairs)[x]@ == pairs[x].0);
            assert(units_of(pairs)[y]@ == pairs[y].0);
            lemma_lex_irreflexive(pairs[x].0);
        }
    }

    /// The records can be sealed anew, and the commits that takes can be counted.
    pub open spec fn reseal_ready(&self) -> bool {
        &&& self.records_fit()
        &&& self.header.commit_seq + 1 < u64::MAX
    }

    /// What moving all content to another suite does.
    pub open spec fn reciphered(
        o: &Self,
        e: &Self,
        suite: u8,
        simulate: bool,
        r: Result<Seq<(Uuid, u32, u64)>, Error>,
    ) -> bool {
        if suite == o.header.content_cipher {
            r == Ok::<Seq<(Uuid, u32, u64)>, Error>(Seq::empty()) && *e == *o
        } else if !C::known(o.header.content_cipher) || !C::known(suite) {
            r == Err::<Seq<(Uuid, u32, u64)>, Error>(Error::Crypto) && *e == *o
        } else {
            ||| r is Err && Self::checkpointed(o, e, Err(r->Err_0))
            ||| exists|m: Self, f: Self, t: Seq<Self>, n: nat| #[trigger]
                Self::recipher_end(o, e, &m, &f, t, n, suite, simulate, r)
        }
    }

    /// After the checkpoint gave `m`, sealing the units gave `f`, and what
    /// followed gave `e`.
    pub open spec fn recipher_end(
        o: &Self,
        e: &Self,
        m: &Self,
        f: &Self,
        t: Seq<Self>,
        n: nat,
        suite: u8,
        simulate: bool,
        r: Result<Seq<(Uuid, u32, u64)>, Error>,
    ) -> bool {
        &&& Self::checkpointed(o, m, Ok(()))
        &&& match r {
            Err(x) => Self::units_reciphered(m, f, suite, t, n, Err(x)) && *e == *f,
            Ok(set) => if simulate {
                &&& set == Seq::<(Uuid, u32, u64)>::empty()
                &&& Self::units_reciphered(
                    m,
                    f,
                    suite,
                    t,
                    n,
                    Ok(Self::refresh_set(t, units_of(m.ids.pairs()), suite, n)),
                )
                &&& *e == *f
            } else {
                &&& Self::units_reciphered(m, f, suite, t, n, Ok(set))
                &&& if o.suppress_commit {
                    *e == f.under_suite(suite)
                } else {
                    Self::published(&f.under_suite(suite), e)
                }
            },
        }
    }

    fn recipher_inner(&mut self, suite: u8, simulate: bool) -> (r: Result<
        Vec<(Uuid, u32, u64)>,
        Error,
    >)
        requires
            old(self).inv(),
            old(self).header.commit_seq < u64::MAX,
            old(self).checkpoint_fits(),
            old(self).reseal_ready(),
        ensures
            final(self).inv(),
            old(self).recoverable() ==> final(self).recoverable(),
            Self::reciphered(
                old(self),
                final(self),
                suite,
                simulate,
                list_view(r),
            ),
    {
        let none: Vec<(Uuid, u32, u64)> = Vec::new();
        proof {
            assert(none@ =~= Seq::empty());
        }
        if suite == self.header.content_cipher {
            return Ok(none);
        }
        if !C::is_known(self.header.content_cipher) || !C::is_known(suite) {
            return Err(Error::Crypto);
        }
        match self.checkpoint() {
            Err(e) => {
                return Err(e);
            },
            Ok(()) => {},
        }
        let ghost m = *self;
        proof {
            assert(Self::checkpointed(old(self), &m, Ok(())));
        }
        let done: Result<Vec<(Uuid, u32, u64)>, Error> = self.recipher_units(suite);
        let ghost f = *self;
        let ghost (t, n) = choose|t: Seq<Self>, n: nat| #[trigger]
            Self::units_reciphered(
                &m,
                &f,
                suite,
                t,
                n,
                list_view(done),
            );
        let set: Vec<(Uuid, u32, u64)> = match done {
            Err(e) => {
                proof {
                    assert(Self::recipher_end(
                        old(self),
                        &f,
                        &m,
                        &f,
                        t,
                        n,
                        suite,
                        simulate,
                        Err(e),
                    ));
                }
                return Err(e);
            },
            Ok(s) => s,
        };
        proof {
            assert(Self::units_reciphered(&m, &f, suite, t, n, Ok(set@)));
        }
        if simulate {
            proof {
                assert(Self::recipher_end(
                    old(self),
                    &f,
                    &m,
                    &f,
                    t,
                    n,
                    suite,
                    simulate,
                    Ok(none@),
                ));
            }
            return Ok(none);
        }
        self.header.content_cipher = suite;
        let ghost g = *self;
        proof {
            assert(g == f.under_suite(suite));
        }
        self.publish();
        proof {
            assert(Self::recipher_end(
                old(self),
                &*self,
                &m,
                &f,
                t,
                n,
                suite,
                simulate,
                Ok(set@),
            ));
        }
        Ok(set)
    }

    /// Seals all content under another suite, in one commit. Gives the fragments
    /// that were sealed anew; metadata is not touched.
    pub fn recipher(&mut self, new_content_suite: u8) -> (r: Result<Vec<(Uuid, u32, u64)>, Error>)
        requires
            old(self).inv(),
            old(self).header.commit_seq < u64::MAX,
            old(self).checkpoint_fits(),
            old(self).reseal_ready(),
        ensures
            final(self).inv(),
            old(self).recoverable() ==> final(self).recoverable(),
            Self::reciphered(
                old(self),
                final(self),
                new_content_suite,
                false,
                list_view(r),
            ),
    {
        self.recipher_inner(new_content_suite, false)
    }

    /// Sealing all content under another suite, with a commit that never lands.
    pub fn recipher_simulate_crash_before_commit(&mut self, new_content_suite: u8) -> (r: Result<
        (),
        Error,
    >)
        requires
            old(self).inv(),
            old(self).header.commit_seq < u64::MAX,
            old(self).checkpoint_fits(),
            old(self).reseal_ready(),
        ensures
            final(self).inv(),
            old(self).recoverable() ==> final(self).recoverable(),
            Self::reciphered(
                old(self),
                final(self),
                new_content_suite,
                true,
                match r {
                    Ok(_) => Ok(Seq::empty()),
                    Err(e) => Err(e),
                },
            ),
    {
        match self.recipher_inner(new_content_suite, true) {
            Err(e) => Err(e),
            Ok(v) => {
                proof {
                    assert(v@ =~= Seq::<(Uuid, u32, u64)>::empty());
                }
                Ok(())
            },
        }
    }
}


/// Sealing a unit anew keeps its content, and that of every other unit; no
/// version changes, and whoever signed a record still did.
pub proof fn law_recipher_keeps_content<C: Crypto>(
    a: &Engine<C>,
    b: &Engine<C>,
    suite: u8,
    uuid: Uuid,
    k: Seq<u8>,
)
    requires
        a.inv(),
        Engine::<C>::recipher_step(a, b, a.suite_plan(suite), uuid),
        a.ids@.contains_key(k),
        a.head_of(k).stream().geometry_ok(),
    ensures
        b.ids@.contains_key(k),
        b.unit_bytes(k) == a.unit_bytes(k),
        b.head_of(k).content_vv() == a.head_of(k).content_vv(),
        b.head_of(k).stream().unit_map == a.head_of(k).stream().unit_map,
        b.head_of(k).signature == a.head_of(k).signature,
        b.unit_signer(k) == a.unit_signer(k),
        b.head_of(k).stream().geometry_ok(),
        a.sound(a.head_of(k)) ==> b.sound(b.head_of(k)) && b.full(b.head_of(k)) == a.full(
            a.head_of(k),
        ),
{
    let plan = a.suite_plan(suite);
    let h = a.head_of(k);
    let sm = h.stream();
    if a.unit_reseals(plan, uuid) {
        let m = a.known_head(uuid)->Ok_0->Some_0.1;
        assert(a.slots().len() <= b.slots().len());
        assert forall|f: int| 0 <= f < sm.n() implies (#[trigger] sm.locations[f]).addr
            <= a.slots().len() by {
            assert(live(a.ids@, a.recs(), k, f) == sm.locations[f].addr);
        }
        assert forall|f: int| 0 <= f < sm.n() && (#[trigger] sm.locations[f]).addr != 0 implies
            b.slots()[sm.locations[f].addr - 1] == a.slots()[sm.locations[f].addr - 1] by {
            assert(b.slots().take(a.slots().len() as int)[sm.locations[f].addr - 1]
                == b.slots()[sm.locations[f].addr - 1]);
        }
        if k != uuid@ {
            assert(b.recs()[a.ids@[k] - 1] == a.recs()[a.ids@[k] - 1]);
            Engine::<C>::lemma_reads_kept(a, b, h);
            if a.sound(h) {
                assert forall|f: int|
                    0 <= f < sm.n() && !Engine::<C>::hole_at(h, f) implies #[trigger] b.frag(
                    h,
                    f,
                ) is Ok && b.frag(h, f)->Ok_0.len() <= frag_bytes(sm.fragsize_exp) by {
                    assert(a.frag(h, f) is Ok);
                }
            }
        } else {
            assert(h == m);
            let r1 = a.recipher_record(plan, m);
            assert(b.head_of(k) == r1);
            assert forall|f: int| 0 <= f < sm.n() implies same_window(
                #[trigger] b.plain(r1, f),
                a.plain(h, f),
                Engine::<C>::want(h, f),
            ) by {
                lemma_resealed_frag(a, b, plan, m, f);
            }
            assert(b.contents(r1) =~= a.contents(h)) by {
                assert forall|i: int| 0 <= i < sm.size() implies b.byte(r1, i) == a.byte(h, i) by {
                    lemma_last_fragment(sm, i);
                    lemma_window(sm, i);
                    let f = i / frag_bytes(sm.fragsize_exp) as int;
                    assert(same_window(b.plain(r1, f), a.plain(h, f), Engine::<C>::want(h, f)));
                }
            }
            if a.sound(h) {
                assert forall|f: int|
                    0 <= f < sm.n() && !Engine::<C>::hole_at(r1, f) implies #[trigger] b.frag(
                    r1,
                    f,
                ) is Ok && b.frag(r1, f)->Ok_0.len() <= frag_bytes(sm.fragsize_exp) by {
                    lemma_resealed_frag(a, b, plan, m, f);
                    lemma_frag_bytes_64(sm.fragsize_exp);
                    C::lemma_seal_len(suite, a.root_key, a.ctx(m.uuid, f, 0), Seq::empty());
                    assert(!Engine::<C>::hole_at(h, f));
                    assert(a.frag(h, f) is Ok);
                }
            }
        }
    }
    assert(b.trust() == a.trust());
    assert(payload_of(b.head_of(k)) == payload_of(h));
    if a.sound(h) {
        a.law_full_read_is_the_content(h);
        b.law_full_read_is_the_content(b.head_of(k));
    }
}

/// Two plaintexts, zeros following, agree on their first `n` bytes.
spec fn same_window(p: Seq<u8>, q: Seq<u8>, n: nat) -> bool {
    forall|x: int| 0 <= x < n ==> #[trigger] byte_or_zero(p, x) == byte_or_zero(q, x)
}

/// A byte of the content lies within the logical length of its fragment.
proof fn lemma_window(sm: StreamModel, i: int)
    requires
        sm.geometry_ok(),
        0 <= i < sm.size(),
    ensures
        0 <= i % frag_bytes(sm.fragsize_exp) as int,
        (i % frag_bytes(sm.fragsize_exp) as int) < frag_bytes(sm.fragsize_exp),
        i / frag_bytes(sm.fragsize_exp) as int == sm.n() - 1 ==> (i % frag_bytes(
            sm.fragsize_exp,
        ) as int) < sm.last_frag_length,
{
    let fs = frag_bytes(sm.fragsize_exp) as int;
    crate::block::lemma_frag_bytes(sm.fragsize_exp);
    lemma_last_fragment(sm, i);
    assert(i == (i / fs) * fs + i % fs && 0 <= i % fs < fs) by (nonlinear_arith)
        requires
            fs >= 1,
            i >= 0,
    ;
}

proof fn lemma_resealed_frag<C: Crypto>(
    a: &Engine<C>,
    b: &Engine<C>,
    plan: SealPlan,
    m: RecordModel,
    f: int,
)
    requires
        m.content is Some,
        plan.target is Some,
        plan.key == b.root_key,
        plan.epoch == b.header.key_epoch,
        b.root_key == a.root_key,
        b.header == a.header,
        m.stream().geometry_ok(),
        0 <= f < m.stream().n(),
        m.stream().locations[f].addr <= a.slots().len(),
        a.reseal_error(plan, m, m.stream().n()) is None,
        Engine::<C>::blocks_resealed(a, b.slots(), plan, m, m.stream().n()),
    ensures
        same_window(
            b.plain(a.recipher_record(plan, m), f),
            a.plain(m, f),
            Engine::<C>::want(m, f),
        ),
        !a.reseals_frag(plan, m, f) && m.stream().locations[f] != hole() ==> b.frag(
            a.recipher_record(plan, m),
            f,
        ) == a.frag(m, f),
        a.reseals_frag(plan, m, f) ==> a.frag(m, f) is Ok && b.frag(a.recipher_record(plan, m), f)
            == Ok::<Seq<u8>, Error>(a.next_plain(plan, m, f)),
        Engine::<C>::hole_at(a.recipher_record(plan, m), f) <==> Engine::<C>::hole_at(m, f),
{
    let r1 = a.recipher_record(plan, m);
    let s = plan.target->Some_0;
    assert(r1.stream().locations[f] == a.next_loc(plan, m, f));
    assert(b.suite(r1, f) == s);
    if a.reseals_frag(plan, m, f) {
        let l = a.next_loc(plan, m, f);
        assert(stored_at(b.slots(), l) == Some(a.next_block(plan, m, f)));
        lemma_no_error(a, plan, m, f, m.stream().n());
        let p = a.frag(m, f)->Ok_0;
        assert(b.frag(r1, f) == Ok::<Seq<u8>, Error>(a.next_plain(plan, m, f)));
        assert(l != hole());
    } else if m.stream().locations[f] != hole() {
        a.lemma_frag_more_slots(b, m, f);
        assert(b.frag(r1, f) == b.frag(m, f));
    }
}

proof fn lemma_no_error<C: Crypto>(a: &Engine<C>, plan: SealPlan, m: RecordModel, f: int, n: nat)
    requires
        0 <= f < n,
        a.reseals_frag(plan, m, f),
        a.reseal_error(plan, m, n) is None,
    ensures
        a.frag(m, f) is Ok,
    decreases n,
{
    if f < n - 1 {
        lemma_no_error(a, plan, m, f, (n - 1) as nat);
    }
}

/// After a unit was sealed under a suite, every fragment that is stored is under
/// that suite.
pub proof fn law_recipher_reaches_every_fragment<C: Crypto>(
    a: &Engine<C>,
    b: &Engine<C>,
    suite: u8,
    uuid: Uuid,
    f: int,
)
    requires
        a.inv(),
        a.ids@.contains_key(uuid@),
        a.record(a.ids@[uuid@]) is Ok,
        Engine::<C>::recipher_step(a, b, a.suite_plan(suite), uuid),
        0 <= f < a.head_of(uuid@).stream().n(),
        a.head_of(uuid@).content is Some,
        a.head_of(uuid@).stream().locations[f] != hole(),
        a.head_of(uuid@).stream().locations.len() == a.head_of(uuid@).stream().n(),
    ensures
        b.suite(b.head_of(uuid@), f) == suite,
{
    let plan = a.suite_plan(suite);
    let m = a.head_of(uuid@);
    if !a.unit_reseals(plan, uuid) {
        a.lemma_reseal_count(plan, m, (f + 1) as nat, m.stream().n());
        assert(!a.reseals_frag(plan, m, f));
    }
}

/// Sealing all units anew keeps the content, the versions and the signer of every
/// unit.
pub proof fn law_recipher_keeps_every_content<C: Crypto>(
    t: Seq<Engine<C>>,
    units: Seq<Uuid>,
    suite: u8,
    n: nat,
    k: Seq<u8>,
)
    requires
        Engine::<C>::recipher_trace(t, units, suite, n),
        t[0].ids@.contains_key(k),
        t[0].head_of(k).stream().geometry_ok(),
    ensures
        t[n as int].ids@.contains_key(k),
        t[n as int].unit_bytes(k) == t[0].unit_bytes(k),
        t[n as int].head_of(k).content_vv() == t[0].head_of(k).content_vv(),
        t[n as int].head_of(k).stream().unit_map == t[0].head_of(k).stream().unit_map,
        t[n as int].head_of(k).stream().geometry_ok(),
        t[n as int].unit_signer(k) == t[0].unit_signer(k),
        t[0].sound(t[0].head_of(k)) ==> t[n as int].sound(t[n as int].head_of(k)) && t[
            n as int
        ].full(t[n as int].head_of(k)) == t[0].full(t[0].head_of(k)),
    decreases n,
{
    if n > 0 {
        let before = t.drop_last();
        assert forall|i: int|
            #![trigger before[i + 1]]
            0 <= i < n - 1 implies Engine::<C>::recipher_step(
            &before[i],
            &before[i + 1],
            before[i].suite_plan(suite),
            units[i],
        ) by {
            assert(t[i + 1] == before[i + 1]);
        }
        assert forall|i: int| 0 <= i < before.len() implies (#[trigger] before[i]).inv() by {
            assert(t[i] == before[i]);
        }
        law_recipher_keeps_every_content(before, units, suite, (n - 1) as nat, k);
        let a = t[n - 1];
        let b = t[n - 1 + 1];
        assert(before[n - 1] == a);
        law_recipher_keeps_content(&a, &b, suite, units[n - 1], k);
    }
}

} // verus!
