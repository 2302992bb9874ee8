//! The peers of a container: who goes by which alias.
use vstd::prelude::*;
use vstd::utf8::valid_utf8;

use crate::bytes::{copy_range, same32, take16};
use crate::catalog::{has_prefix, pair_view, with_prefix};
use crate::crypto::Crypto;
use crate::engine::Engine;
use crate::error::Error;
use crate::names::all_text;
use crate::outside::{random_bytes, string_from_utf8};
use crate::overlay::{overlaid, pending_of, splice};
use crate::unit::Uuid;
use crate::vector::{
    alias_taken, first_with_key, law_peer_entry_round_trip, peer_bytes, peer_well_formed, peers_sorted, peers_with, PeerEntry,
    PeerRegistry,
};

verus! {

/// A number in decimal, as bytes.
pub open spec fn decimal(n: nat) -> Seq<u8>
    decreases n,
{
    if n < 10 {
        seq![(48 + n) as u8]
    } else {
        decimal(n / 10).push((48 + n % 10) as u8)
    }
}

fn push_number(out: &mut Vec<u8>, n: u16)
    ensures
        final(out)@ == old(out)@ + decimal(n as nat),
    decreases n,
{
    if n < 10 {
        out.push(48 + n as u8);
        proof {
            assert(out@ =~= old(out)@ + decimal(n as nat));
        }
    } else {
        push_number(out, n / 10);
        out.push(48 + (n % 10) as u8);
        proof {
            assert(out@ =~= old(out)@ + decimal(n as nat));
        }
    }
}

/// The value of a run of digits.
pub open spec fn digits_value(b: Seq<u8>) -> nat
    decreases b.len(),
{
    if b.len() == 0 {
        0
    } else {
        (digits_value(b.drop_last()) * 10 + (b.last() - 48)) as nat
    }
}

pub open spec fn all_digits(b: Seq<u8>) -> bool {
    forall|i: int| 0 <= i < b.len() ==> 48 <= #[trigger] b[i] <= 57
}

/// The digits of a number as people write it: a plus sign may stand in front.
pub open spec fn unsigned_part(b: Seq<u8>) -> Seq<u8> {
    if b.len() > 1 && b[0] == 43 {
        b.skip(1)
    } else {
        b
    }
}

/// The alias that a text stands for, if it stands for one.
pub open spec fn alias_value(b: Seq<u8>) -> Option<u16> {
    let d = unsigned_part(b);
    if d.len() > 0 && all_digits(d) && digits_value(d) <= 0xffff {
        Some(digits_value(d) as u16)
    } else {
        None
    }
}

proof fn lemma_digits_grow(b: Seq<u8>, i: int)
    requires
        0 <= i <= b.len(),
        all_digits(b),
    ensures
        digits_value(b.take(i)) <= digits_value(b),
    decreases b.len() - i,
{
    if i < b.len() {
        lemma_digits_grow(b, i + 1);
        assert(b.take(i + 1).drop_last() =~= b.take(i));
        assert(48 <= b[i] <= 57);
    } else {
        assert(b.take(i) =~= b);
    }
}

fn parse_alias(b: &[u8]) -> (r: Option<u16>)
    ensures
        r == alias_value(b@),
{
    let start: usize = if b.len() > 1 && b[0] == 43 {
        1
    } else {
        0
    };
    let ghost d = unsigned_part(b@);
    let n: usize = b.len();
    proof {
        assert(d =~= b@.skip(start as int));
        assert(d.take(0) =~= Seq::empty());
    }
    if n == start {
        return None;
    }
    let mut v: u32 = 0;
    let mut i: usize = start;
    while i < n
        invariant
            n == b@.len(),
            start <= i <= n,
            start < n,
            d == unsigned_part(b@),
            d == b@.skip(start as int),
            v == digits_value(d.take(i - start)),
            v <= 0xffff,
            all_digits(d.take(i - start)),
        decreases n - i,
    {
        let c: u8 = b[i];
        let ghost j = i - start;
        proof {
            assert(d[j] == c);
            assert(d.take(j + 1).drop_last() =~= d.take(j));
            assert(d.take(j + 1).last() == c);
        }
        if c < 48 || c > 57 {
            proof {
                assert(!all_digits(d));
            }
            return None;
        }
        v = v * 10 + (c - 48) as u32;
        proof {
            assert forall|k: int| 0 <= k < j + 1 implies 48 <= #[trigger] d.take(j + 1)[k] <= 57 by {
                if k < j {
                    assert(d.take(j)[k] == d[k]);
                }
            }
        }
        if v > 0xffff {
            proof {
                if all_digits(d) {
                    lemma_digits_grow(d, j + 1);
                }
            }
            return None;
        }
        i = i + 1;
    }
    proof {
        assert(d.take(n - start) =~= d);
    }
    Some(v as u16)
}

/// `.sfs/peers/`
pub open spec fn peers_prefix() -> Seq<u8> {
    seq![46u8, 115, 102, 115, 47, 112, 101, 101, 114, 115, 47]
}

fn peers_start() -> (r: Vec<u8>)
    ensures
        r@ == peers_prefix(),
{
    let r: Vec<u8> = vec![
        46u8, 115u8, 102u8, 115u8, 47u8, 112u8, 101u8, 101u8, 114u8, 115u8, 47u8
    ];
    proof {
        assert(r@ =~= peers_prefix());
    }
    r
}

/// The key of the unit that holds the entry of an alias.
pub open spec fn peer_key(alias: u16) -> Seq<u8> {
    peers_prefix() + decimal(alias as nat)
}

fn key_of_peer(alias: u16) -> (r: Vec<u8>)
    ensures
        r@ == peer_key(alias),
{
    let mut r: Vec<u8> = peers_start();
    push_number(&mut r, alias);
    r
}

/// The entry that a unit's content stands for.
pub open spec fn entry_of(alias: u16, b: Seq<u8>) -> Result<PeerEntry, Error> {
    if peer_well_formed(b) {
        Ok(
            PeerEntry {
                alias,
                pubkey: crate::bytes::array32(b.subrange(6, 38)),
                retired: b[5] == 1,
            },
        )
    } else {
        Err(Error::Integrity)
    }
}

impl<C: Crypto> Engine<C> {
    /// Reading the unit at `key`, pending writes laid over it.
    pub open spec fn content_at(&self, key: Seq<u8>) -> Result<Seq<u8>, Error> {
        match self.head(key) {
            Err(e) => Err(e),
            Ok((uuid, _, m)) => match self.full(m) {
                Err(e) => Err(e),
                Ok(s) => Ok(overlaid(s, pending_of(self.overlay@, uuid))),
            },
        }
    }

    /// The entry that the unit at `key` holds.
    pub open spec fn peer_at(&self, key: Seq<u8>) -> Result<PeerEntry, Error> {
        match alias_value(key.skip(peers_prefix().len() as int)) {
            None => Err(Error::Integrity),
            Some(alias) => match self.content_at(key) {
                Err(e) => Err(e),
                Ok(b) => entry_of(alias, b),
            },
        }
    }

    /// The entries of the first units in order.
    pub open spec fn peers_of(&self, found: Seq<(Seq<u8>, Uuid)>) -> Result<Seq<PeerEntry>, Error>
        decreases found.len(),
    {
        if found.len() == 0 {
            Ok(Seq::empty())
        } else {
            match self.peers_of(found.drop_last()) {
                Err(e) => Err(e),
                Ok(s) => match self.peer_at(found.last().0) {
                    Err(e) => Err(e),
                    Ok(p) => Ok(s.push(p)),
                },
            }
        }
    }

    /// The entries of all peers, in the order of their keys.
    pub open spec fn peers(&self) -> Result<Seq<PeerEntry>, Error> {
        let found = with_prefix(self.keys.pairs(), peers_prefix());
        if all_text(found) {
            self.peers_of(found)
        } else {
            Err(Error::Integrity)
        }
    }

    /// The units of all peers can be read.
    pub open spec fn peers_fit(&self) -> bool {
        forall|k: Seq<u8>| has_prefix(k, peers_prefix()) ==> #[trigger] self.geometry_at(k)
    }

    proof fn lemma_peers_of(&self, found: Seq<(Seq<u8>, Uuid)>, i: int)
        requires
            0 <= i <= found.len(),
            self.peers_of(found.take(i)) is Err,
        ensures
            self.peers_of(found) == self.peers_of(found.take(i)),
        decreases found.len() - i,
    {
        if i < found.len() {
            assert(found.take(i + 1).drop_last() =~= found.take(i));
            self.lemma_peers_of(found, i + 1);
        } else {
            assert(found.take(i) =~= found);
        }
    }

    fn read_peers(&self) -> (r: Result<Vec<PeerEntry>, Error>)
        requires
            self.inv(),
            self.peers_fit(),
        ensures
            match self.peers() {
                Err(e) => r is Err && r->Err_0 == e,
                Ok(s) => r is Ok && r->Ok_0@ == s,
            },
    {
        let prefix: Vec<u8> = peers_start();
        let pairs: Vec<(Vec<u8>, Uuid)> = self.keys.scan(prefix.as_slice());
        let ghost found = with_prefix(self.keys.pairs(), peers_prefix());
        let n: usize = pairs.len();
        let mut j: usize = 0;
        proof {
            assert(pair_view(pairs@) == found);
        }
        while j < n
            invariant
                n == pairs@.len(),
                pair_view(pairs@) == found,
                found == with_prefix(self.keys.pairs(), peers_prefix()),
                j <= n,
                forall|k: int| 0 <= k < j ==> valid_utf8((#[trigger] found[k]).0),
            decreases n - j,
        {
            let copy: Vec<u8> = copy_range(pairs[j].0.as_slice(), 0, pairs[j].0.len());
            proof {
                assert(copy@ =~= found[j as int].0);
            }
            if string_from_utf8(copy).is_none() {
                proof {
                    assert(!valid_utf8(found[j as int].0));
                }
                return Err(Error::Integrity);
            }
            j = j + 1;
        }
        let mut out: Vec<PeerEntry> = Vec::new();
        let mut i: usize = 0;
        proof {
            assert(found.take(0) =~= Seq::empty());
            assert(out@ =~= Seq::empty());
            assert(all_text(found));
        }
        while i < n
            invariant
                self.inv(),
                self.peers_fit(),
                n == pairs@.len(),
                pair_view(pairs@) == found,
                found == with_prefix(self.keys.pairs(), peers_prefix()),
                all_text(found),
                i <= n,
                self.peers_of(found.take(i as int)) == Ok::<Seq<PeerEntry>, Error>(out@),
            decreases n - i,
        {
            let key: &[u8] = pairs[i].0.as_slice();
            proof {
                assert(found.take(i + 1).drop_last() =~= found.take(i as int));
                assert(found.take(i + 1).last() == found[i as int]);
                assert(found[i as int].0 == key@);
                if self.peers_of(found.take(i + 1)) is Err {
                    self.lemma_peers_of(found, i + 1);
                }
                crate::catalog::lemma_with_prefix(
                    self.keys.pairs(),
                    peers_prefix(),
                    found[i as int],
                );
                assert(found.contains(found[i as int]));
                assert(self.geometry_at(key@));
            }
            let name: Vec<u8> = copy_range(key, 11, key.len());
            proof {
                assert(name@ =~= key@.skip(11));
            }
            let alias: u16 = match parse_alias(name.as_slice()) {
                None => {
                    return Err(Error::Integrity);
                },
                Some(a) => a,
            };
            let content: Vec<u8> = match self.read_key(key) {
                Err(e) => {
                    return Err(e);
                },
                Ok(c) => c,
            };
            let p: PeerEntry = match PeerEntry::decode(alias, content.as_slice()) {
                Err(e) => {
                    return Err(e);
                },
                Ok(p) => p,
            };
            proof {
                let pk = p.pubkey;
                assert(crate::bytes::array32(pk@)@ == pk@);
                assert(crate::bytes::array32(pk@) =~= pk);
            }
            out.push(p);
            i = i + 1;
        }
        proof {
            assert(found.take(n as int) =~= found);
        }
        Ok(out)
    }

    /// The registry of the container's peers. A unit among them that is none
    /// makes it fail: a registry never shrinks silently.
    pub fn peer_registry(&self) -> (r: Result<PeerRegistry, Error>)
        requires
            self.inv(),
            self.peers_fit(),
        ensures
            match self.peers() {
                Err(e) => r is Err && r->Err_0 == e,
                Ok(s) => {
                    &&& r is Ok
                    &&& r->Ok_0.alias() == self.local_alias
                    &&& peers_sorted(r->Ok_0@)
                    &&& forall|a: u16| #[trigger] peers_with(r->Ok_0@, a) == peers_with(s, a)
                },
            },
    {
        match self.read_peers() {
            Err(e) => Err(e),
            Ok(entries) => Ok(PeerRegistry::from_entries(self.local_alias, entries)),
        }
    }
}


/// Some entry has this key.
pub open spec fn admitted(s: Seq<PeerEntry>, pubkey: [u8; 32]) -> bool {
    exists|i: int| 0 <= i < s.len() && (#[trigger] s[i]).pubkey == pubkey
}

/// `a` is the smallest alias of the entries with this key.
pub open spec fn goes_by(s: Seq<PeerEntry>, pubkey: [u8; 32], a: u16) -> bool {
    &&& exists|i: int| 0 <= i < s.len() && (#[trigger] s[i]).pubkey == pubkey && s[i].alias == a
    &&& forall|j: int| 0 <= j < s.len() && (#[trigger] s[j]).pubkey == pubkey ==> s[j].alias >= a
}

proof fn lemma_filter_member(s: Seq<PeerEntry>, e: PeerEntry)
    ensures
        s.contains(e) <==> peers_with(s, e.alias).contains(e),
    decreases s.len(),
{
    reveal(Seq::filter);
    let f = |x: PeerEntry| x.alias == e.alias;
    if s.len() > 0 {
        let p = s.drop_last();
        lemma_filter_member(p, e);
        let w = s.filter(f);
        let v = p.filter(f);
        if s.contains(e) {
            let i = choose|i: int| 0 <= i < s.len() && s[i] == e;
            if i < p.len() {
                assert(p[i] == e);
                let k = choose|k: int| 0 <= k < v.len() && v[k] == e;
                assert(w[k] == e);
            } else {
                assert(w[w.len() - 1] == e);
            }
        }
        if w.contains(e) {
            let k = choose|k: int| 0 <= k < w.len() && w[k] == e;
            if k < v.len() {
                assert(v[k] == e);
                assert(p.contains(e));
                let i = choose|i: int| 0 <= i < p.len() && p[i] == e;
                assert(s[i] == e);
            } else {
                assert(s[s.len() - 1] == e);
            }
        }
    }
}

/// Ordering entries by alias loses none and adds none.
proof fn lemma_same_peers(a: Seq<PeerEntry>, b: Seq<PeerEntry>)
    requires
        forall|x: u16| #[trigger] peers_with(a, x) == peers_with(b, x),
    ensures
        forall|e: PeerEntry| #[trigger] a.contains(e) == b.contains(e),
{
    assert forall|e: PeerEntry| #[trigger] a.contains(e) == b.contains(e) by {
        lemma_filter_member(a, e);
        lemma_filter_member(b, e);
        assert(peers_with(a, e.alias) == peers_with(b, e.alias));
    }
}

/// `a` is the smallest alias that is neither taken nor reserved.
pub open spec fn next_alias(s: Seq<PeerEntry>, reserved: Option<u16>, a: u16) -> bool {
    &&& !alias_taken(s, a) && reserved != Some(a)
    &&& forall|b: u16| b < a ==> alias_taken(s, b) || reserved == Some(b)
}

fn holds_alias(s: &Vec<PeerEntry>, a: u16) -> (r: bool)
    ensures
        r == alias_taken(s@, a),
{
    let n: usize = s.len();
    let mut i: usize = 0;
    while i < n
        invariant
            n == s@.len(),
            i <= n,
            forall|k: int| 0 <= k < i ==> (#[trigger] s@[k]).alias != a,
        decreases n - i,
    {
        if s[i].alias == a {
            proof {
                assert(s@[i as int].alias == a);
            }
            return true;
        }
        i = i + 1;
    }
    false
}

fn pick_alias(s: &Vec<PeerEntry>, reserved: Option<u16>) -> (r: u16)
    requires
        exists|a: u16| !alias_taken(s@, a) && reserved != Some(a),
    ensures
        next_alias(s@, reserved, r),
{
    let mut a: u16 = 0;
    loop
        invariant
            exists|b: u16| !alias_taken(s@, b) && reserved != Some(b),
            forall|b: u16| b < a ==> alias_taken(s@, b) || reserved == Some(b),
        ensures
            next_alias(s@, reserved, a),
        decreases 0x1_0000 - a,
    {
        let mine: bool = match reserved {
            Some(x) => x == a,
            None => false,
        };
        if !mine && !holds_alias(s, a) {
            break;
        }
        proof {
            if a == 0xffff {
                let b = choose|b: u16| !alias_taken(s@, b) && reserved != Some(b);
                assert(b < a || b == a);
            }
        }
        a = a + 1;
    }
    a
}

impl<C: Crypto> Engine<C> {
    /// A unit with these bytes was created at `key`, with the given identity.
    pub open spec fn unit_put(
        a: &Self,
        b: &Self,
        key: Seq<u8>,
        uuid: Uuid,
        bytes: Seq<u8>,
        mid: &Self,
    ) -> bool {
        &&& !a.keys@.contains_key(key)
        &&& Self::create_step(a, mid, key, uuid, true, None, None, Ok(uuid))
        &&& mid.inv()
        &&& Self::write_step(mid, b, key, 0, bytes, Ok(()))
        &&& b.inv()
    }

    /// A unit could not be created at `key`, or not be written, with error `x`.
    pub open spec fn unit_not_put(
        a: &Self,
        b: &Self,
        key: Seq<u8>,
        uuid: Uuid,
        bytes: Seq<u8>,
        mid: &Self,
        x: Error,
    ) -> bool {
        ||| Self::create_step(a, b, key, uuid, true, None, None, Err(x))
        ||| {
            &&& Self::create_step(a, mid, key, uuid, true, None, None, Ok(uuid))
            &&& mid.inv()
            &&& Self::write_step(mid, b, key, 0, bytes, Err(x))
        }
    }

    /// New units can be created and written.
    pub open spec fn can_create(&self) -> bool {
        &&& self.may_sign()
        &&& self.reads_own_records()
        &&& self.no_crash_seam()
        &&& C::known(self.header.content_cipher)
    }

    /// Creates a unit and writes bytes to it, while commits are held back.
    fn put_unit(&mut self, key: &[u8], uuid: Uuid, bytes: &Vec<u8>) -> (r: (
        Result<(), Error>,
        Ghost<Self>,
    ))
        requires
            old(self).inv(),
            old(self).header.commit_seq < u64::MAX,
            old(self).suppress_commit,
            0 < bytes@.len() <= 4096,
        ensures
            final(self).inv(),
            old(self).recoverable() ==> final(self).recoverable(),
            Self::held_step(old(self), final(self)),
            !old(self).may_sign() || old(self).keys@.contains_key(key@) ==> r.0 == Err::<(), Error>(
                Error::Integrity,
            ),
            r.0 is Err ==> Self::unit_not_put(
                old(self),
                final(self),
                key@,
                uuid,
                bytes@,
                &r.1@,
                r.0->Err_0,
            ),
            r.0 is Ok ==> Self::unit_put(old(self), final(self), key@, uuid, bytes@, &r.1@)
                && final(self).keys@ == old(self).keys@.insert(key@, uuid)
                && final(self).may_sign(),
            old(self).can_create() && !old(self).keys@.contains_key(key@) ==> r.0 is Ok
                && final(self).can_create(),
    {
        let ghost o = *self;
        match self.create_unit_as(key, uuid, true, None, None) {
            Err(e) => {
                return (Err(e), Ghost(o));
            },
            Ok(_) => {},
        }
        let ghost created = *self;
        proof {
            Self::lemma_create_keeps(&o, &created, key@, uuid, key@);
            if created.head(key@) is Ok {
                created.lemma_small_fits(key@, bytes@);
                assert(created.head(key@)->Ok_0.2.stream().n() == 0);
            }
            assert(created.reads_own_records() == o.reads_own_records());
            assert(created.no_crash_seam() == o.no_crash_seam());
        }
        match self.write_key(key, 0, bytes.as_slice()) {
            Err(e) => (Err(e), Ghost(created)),
            Ok(()) => {
                proof {
                    assert(self.keys@ == created.keys@);
                    assert(self.may_sign() == created.may_sign());
                    assert(self.reads_own_records() == o.reads_own_records());
                    assert(self.no_crash_seam() == o.no_crash_seam());
                }
                (Ok(()), Ghost(created))
            },
        }
    }

    /// The alias of an identity, if it was admitted.
    fn find_peer(&self, pubkey: &[u8; 32]) -> (r: Result<Option<u16>, Error>)
        requires
            self.inv(),
            self.peers_fit(),
        ensures
            match self.peers() {
                Err(e) => r == Err::<Option<u16>, Error>(e),
                Ok(s) => {
                    &&& r is Ok
                    &&& r->Ok_0 is Some <==> admitted(s, *pubkey)
                    &&& r->Ok_0 is Some ==> goes_by(s, *pubkey, r->Ok_0->Some_0)
                },
            },
    {
        let reg: PeerRegistry = match self.peer_registry() {
            Err(e) => {
                return Err(e);
            },
            Ok(x) => x,
        };
        let found: Option<u16> = reg.alias_of(pubkey);
        proof {
            let s = self.peers()->Ok_0;
            let v = reg@;
            lemma_same_peers(v, s);
            if admitted(s, *pubkey) {
                let i = choose|i: int| 0 <= i < s.len() && (#[trigger] s[i]).pubkey == *pubkey;
                assert(s.contains(s[i]));
                assert(v.contains(s[i]));
                let k = choose|k: int| 0 <= k < v.len() && v[k] == s[i];
                assert(v[k].pubkey == *pubkey);
            }
            if found is Some {
                let a = found->Some_0;
                let i = choose|i: int|
                    #[trigger] first_with_key(v, *pubkey, i) && v[i].alias == a;
                assert(v.contains(v[i]));
                assert(s.contains(v[i]));
                let k = choose|k: int| 0 <= k < s.len() && s[k] == v[i];
                assert(s[k].pubkey == *pubkey);
                assert forall|j: int| 0 <= j < s.len() && (#[trigger] s[j]).pubkey == *pubkey implies
                    s[j].alias >= a by {
                    assert(s.contains(s[j]));
                    assert(v.contains(s[j]));
                    let x = choose|x: int| 0 <= x < v.len() && v[x] == s[j];
                    if x < i {
                        assert(v[x].pubkey != *pubkey);
                    }
                }
            }
        }
        Ok(found)
    }

    /// Takes up the alias that the registry has for this identity. `None` where
    /// it was not admitted yet.
    pub fn adopt_local_alias(&mut self, own_pubkey: [u8; 32]) -> (r: Result<Option<u16>, Error>)
        requires
            old(self).inv(),
            old(self).peers_fit(),
        ensures
            final(self).inv(),
            old(self).recoverable() ==> final(self).recoverable(),
            match old(self).peers() {
                Err(e) => r == Err::<Option<u16>, Error>(e) && *final(self) == *old(self),
                Ok(s) => {
                    &&& r is Ok
                    &&& r->Ok_0 is Some <==> admitted(s, own_pubkey)
                    &&& r->Ok_0 is Some ==> goes_by(s, own_pubkey, r->Ok_0->Some_0)
                        && *final(self) == (Engine {
                        local_alias: r->Ok_0->Some_0,
                        ..*old(self)
                    })
                    &&& r->Ok_0 is None ==> *final(self) == *old(self)
                },
            },
    {
        match self.find_peer(&own_pubkey) {
            Err(e) => Err(e),
            Ok(None) => Ok(None),
            Ok(Some(a)) => {
                self.set_local_alias(a);
                Ok(Some(a))
            },
        }
    }

    /// What retiring a peer does.
    pub open spec fn peer_retired(
        o: &Self,
        e: &Self,
        peer: [u8; 32],
        r: Result<(), Error>,
    ) -> bool {
        match o.peers() {
            Err(x) => r == Err::<(), Error>(x) && *e == *o,
            Ok(s) => if admitted(s, peer) {
                exists|a: u16| #[trigger]
                    goes_by(s, peer, a) && Self::write_step(
                        o,
                        e,
                        peer_key(a),
                        0,
                        peer_bytes(PeerEntry { alias: a, pubkey: peer, retired: true }),
                        r,
                    )
            } else {
                r == Err::<(), Error>(Error::NotFound) && *e == *o
            },
        }
    }

    /// Retires a peer: its entry stays, marked, so that its alias is never given
    /// to anyone else.
    pub fn retire_peer(&mut self, peer_pubkey: [u8; 32]) -> (r: Result<(), Error>)
        requires
            old(self).inv(),
            old(self).header.commit_seq < u64::MAX,
            old(self).peers_fit(),
            forall|a: u16| #[trigger] old(self).write_fits_at(peer_key(a), 0, 38),
        ensures
            final(self).inv(),
            old(self).recoverable() ==> final(self).recoverable(),
            Self::peer_retired(old(self), final(self), peer_pubkey, r),
    {
        let alias: u16 = match self.find_peer(&peer_pubkey) {
            Err(e) => {
                return Err(e);
            },
            Ok(None) => {
                return Err(Error::NotFound);
            },
            Ok(Some(a)) => a,
        };
        let key: Vec<u8> = key_of_peer(alias);
        let entry: PeerEntry = PeerEntry { alias, pubkey: peer_pubkey, retired: true };
        let bytes: Vec<u8> = entry.encode();
        proof {
            assert(bytes@.len() == 38);
            assert(self.write_fits_at(peer_key(alias), 0, 38));
        }
        self.write_key(key.as_slice(), 0, bytes.as_slice())
    }
}


/// The states that admitting a peer goes through: after the own entry was put
/// where it was missing, and after the peer's was.
pub struct AdmitTrace<C: Crypto> {
    pub own_created: Engine<C>,
    pub own: Engine<C>,
    pub peer_created: Engine<C>,
    pub peer: Engine<C>,
}

/// The own alias belongs to someone else.
pub open spec fn alias_stolen(s: Seq<PeerEntry>, alias: u16, own: [u8; 32]) -> bool {
    peers_with(s, alias).len() > 0 && peers_with(s, alias)[0].pubkey != own
}

/// The own entry is missing.
pub open spec fn own_missing(s: Seq<PeerEntry>, alias: u16) -> bool {
    peers_with(s, alias).len() == 0
}

pub open spec fn reserved_alias(s: Seq<PeerEntry>, alias: u16) -> Option<u16> {
    if own_missing(s, alias) {
        Some(alias)
    } else {
        None
    }
}

pub open spec fn active_entry(alias: u16, pubkey: [u8; 32]) -> PeerEntry {
    PeerEntry { alias, pubkey, retired: false }
}

fn first_at(s: &Vec<PeerEntry>, alias: u16) -> (r: Option<PeerEntry>)
    ensures
        match r {
            None => peers_with(s@, alias).len() == 0,
            Some(e) => peers_with(s@, alias).len() > 0 && peers_with(s@, alias)[0] == e,
        },
{
    let n: usize = s.len();
    let mut i: usize = 0;
    let ghost f = |x: PeerEntry| x.alias == alias;
    proof {
        reveal(Seq::filter);
        assert(s@.take(0).filter(f) =~= Seq::<PeerEntry>::empty());
    }
    while i < n
        invariant
            n == s@.len(),
            i <= n,
            f == (|x: PeerEntry| x.alias == alias),
            s@.take(i as int).filter(f).len() == 0,
        decreases n - i,
    {
        proof {
            reveal(Seq::filter);
            assert(s@.take(i + 1).drop_last() =~= s@.take(i as int));
            assert(s@.take(i + 1).last() == s@[i as int]);
        }
        if s[i].alias == alias {
            proof {
                let rest = s@.skip(i + 1);
                assert(s@ =~= s@.take(i + 1) + rest);
                Seq::filter_distributes_over_add(s@.take(i + 1), rest, f);
                assert(s@.take(i + 1).filter(f)[0] == s@[i as int]);
                assert(peers_with(s@, alias) == s@.filter(f));
            }
            return Some(s[i]);
        }
        i = i + 1;
    }
    proof {
        assert(s@.take(n as int) =~= s@);
        assert(peers_with(s@, alias) == s@.filter(f));
    }
    None
}

impl<C: Crypto> Engine<C> {
    /// What admitting a new peer under `alias` did.
    pub open spec fn peer_admitted(
        o: &Self,
        e: &Self,
        s: Seq<PeerEntry>,
        own: [u8; 32],
        peer: [u8; 32],
        alias: u16,
        u1: Uuid,
        u2: Uuid,
        t: AdmitTrace<C>,
    ) -> bool {
        let mine = o.local_alias;
        let last = Engine { suppress_commit: o.suppress_commit, ..t.peer };
        &&& next_alias(s, reserved_alias(s, mine), alias)
        &&& if own_missing(s, mine) {
            Self::unit_put(
                &o.held_back(),
                &t.own,
                peer_key(mine),
                u1,
                peer_bytes(active_entry(mine, own)),
                &t.own_created,
            )
        } else {
            t.own == o.held_back()
        }
        &&& Self::unit_put(
            &t.own,
            &t.peer,
            peer_key(alias),
            u2,
            peer_bytes(active_entry(alias, peer)),
            &t.peer_created,
        )
        &&& if o.suppress_commit {
            *e == last
        } else {
            Self::published(&last, e)
        }
    }

    /// Admitting a new peer failed with error `x`, at the own entry or at that of
    /// the peer.
    pub open spec fn admit_blocked(
        o: &Self,
        e: &Self,
        s: Seq<PeerEntry>,
        own: [u8; 32],
        peer: [u8; 32],
        alias: u16,
        u1: Uuid,
        u2: Uuid,
        t: AdmitTrace<C>,
        x: Error,
    ) -> bool {
        let mine = o.local_alias;
        let mine_bytes = peer_bytes(active_entry(mine, own));
        &&& next_alias(s, reserved_alias(s, mine), alias)
        &&& {
            ||| own_missing(s, mine) && Self::unit_not_put(
                &o.held_back(),
                &e.held_back(),
                peer_key(mine),
                u1,
                mine_bytes,
                &t.own_created,
                x,
            )
            ||| {
                &&& if own_missing(s, mine) {
                    Self::unit_put(
                        &o.held_back(),
                        &t.own,
                        peer_key(mine),
                        u1,
                        mine_bytes,
                        &t.own_created,
                    )
                } else {
                    t.own == o.held_back()
                }
                &&& Self::unit_not_put(
                    &t.own,
                    &e.held_back(),
                    peer_key(alias),
                    u2,
                    peer_bytes(active_entry(alias, peer)),
                    &t.peer_created,
                    x,
                )
            }
        }
    }

    /// A new peer was not admitted, with error `x`.
    pub open spec fn not_admitted(
        o: &Self,
        e: &Self,
        s: Seq<PeerEntry>,
        own: [u8; 32],
        peer: [u8; 32],
        u1: Uuid,
        u2: Uuid,
        x: Error,
    ) -> bool {
        exists|alias: u16, t: AdmitTrace<C>| #[trigger]
            Self::admit_blocked(o, e, s, own, peer, alias, u1, u2, t, x)
    }

    /// A new peer was admitted under `alias`.
    pub open spec fn newly_admitted(
        o: &Self,
        e: &Self,
        s: Seq<PeerEntry>,
        own: [u8; 32],
        peer: [u8; 32],
        alias: u16,
        u1: Uuid,
        u2: Uuid,
    ) -> bool {
        exists|t: AdmitTrace<C>| #[trigger]
            Self::peer_admitted(o, e, s, own, peer, alias, u1, u2, t)
    }

    /// A new peer must be admitted: units can be created, and the names of the
    /// entries are free.
    pub open spec fn admission_owed(&self, s: Seq<PeerEntry>, alias: u16) -> bool {
        &&& self.can_create()
        &&& !self.keys@.contains_key(peer_key(alias))
        &&& own_missing(s, self.local_alias) ==> !self.keys@.contains_key(
            peer_key(self.local_alias),
        ) && peer_key(self.local_alias) != peer_key(alias)
    }

    /// The peer is new, and the own alias is not someone else's.
    pub open spec fn admits_new(&self, own: [u8; 32], peer: [u8; 32]) -> bool {
        self.peers() is Ok && !admitted(self.peers()->Ok_0, peer) && !alias_stolen(
            self.peers()->Ok_0,
            self.local_alias,
            own,
        )
    }

    /// What admitting a peer, with given identities for new units, does.
    pub open spec fn admit_step(
        o: &Self,
        e: &Self,
        own: [u8; 32],
        peer: [u8; 32],
        u1: Uuid,
        u2: Uuid,
        r: Result<u16, Error>,
    ) -> bool {
        match o.peers() {
            Err(x) => r == Err::<u16, Error>(x) && *e == *o,
            Ok(s) => if admitted(s, peer) {
                r is Ok && goes_by(s, peer, r->Ok_0) && *e == *o
            } else if alias_stolen(s, o.local_alias, own) {
                r == Err::<u16, Error>(Error::Integrity) && *e == *o
            } else {
                &&& forall|a: u16|
                    next_alias(s, reserved_alias(s, o.local_alias), a) && #[trigger] o.admission_owed(
                        s,
                        a,
                    ) ==> r is Ok
                &&& r is Err ==> {
                    &&& e.suppress_commit == o.suppress_commit
                    &&& e.header == o.header
                    &&& e.disk.committed == o.disk.committed
                    &&& e.snap == o.snap
                    &&& Self::not_admitted(o, e, s, own, peer, u1, u2, r->Err_0)
                }
                &&& r is Ok ==> Self::newly_admitted(o, e, s, own, peer, r->Ok_0, u1, u2)
            },
        }
    }

    /// Admits a peer: gives it the smallest free alias and stores its entry, and
    /// the own one where it is missing, in one commit. A peer that was admitted
    /// before keeps its alias. The identities of new units are given.
    #[verifier::spinoff_prover]
    #[verifier::rlimit(40)]
    pub fn admit_peer_as(
        &mut self,
        own_pubkey: [u8; 32],
        peer_pubkey: [u8; 32],
        own_unit: Uuid,
        peer_unit: Uuid,
    ) -> (r: Result<u16, Error>)
        requires
            old(self).inv(),
            old(self).header.commit_seq < u64::MAX,
            old(self).peers_fit(),
            old(self).admits_new(own_pubkey, peer_pubkey) ==> exists|a: u16|
                next_alias(
                    old(self).peers()->Ok_0,
                    reserved_alias(old(self).peers()->Ok_0, old(self).local_alias),
                    a,
                ),
        ensures
            final(self).inv(),
            old(self).recoverable() ==> final(self).recoverable(),
            Self::admit_step(
                old(self),
                final(self),
                own_pubkey,
                peer_pubkey,
                own_unit,
                peer_unit,
                r,
            ),
    {
        let ghost o = *self;
        match self.find_peer(&peer_pubkey) {
            Err(e) => {
                return Err(e);
            },
            Ok(Some(a)) => {
                return Ok(a);
            },
            Ok(None) => {},
        }
        let entries: Vec<PeerEntry> = match self.read_peers() {
            Err(e) => {
                return Err(e);
            },
            Ok(x) => x,
        };
        let ghost s = entries@;
        let mine: u16 = self.local_alias;
        let missing: bool = match first_at(&entries, mine) {
            None => true,
            Some(e) => {
                if !same32(&e.pubkey, &own_pubkey) {
                    return Err(Error::Integrity);
                }
                false
            },
        };
        let reserved: Option<u16> = if missing {
            Some(mine)
        } else {
            None
        };
        proof {
            let a = choose|a: u16| next_alias(s, reserved_alias(s, o.local_alias), a);
            assert(next_alias(s, reserved, a));
            assert(!alias_taken(s, a) && reserved != Some(a));
        }
        let alias: u16 = pick_alias(&entries, reserved);
        let outer: bool = self.open_transaction();
        let ghost start = *self;
        proof {
            assert(start == o.held_back());
            Self::lemma_next_alias_unique(s, reserved, alias);
        }
        let mut failed: Option<Error> = None;
        let ghost mut own_created = start;
        if missing {
            let key: Vec<u8> = key_of_peer(mine);
            let bytes: Vec<u8> = PeerEntry { alias: mine, pubkey: own_pubkey, retired: false }.encode();
            let (done, mid): (Result<(), Error>, Ghost<Self>) = self.put_unit(
                key.as_slice(),
                own_unit,
                &bytes,
            );
            proof {
                own_created = mid@;
            }
            match done {
                Err(e) => {
                    failed = Some(e);
                },
                Ok(()) => {},
            }
        }
        let ghost own = *self;
        let ghost mut peer_created = own;
        if failed.is_none() {
            let key: Vec<u8> = key_of_peer(alias);
            let bytes: Vec<u8> = PeerEntry {
                alias,
                pubkey: peer_pubkey,
                retired: false,
            }.encode();
            let (done, mid): (Result<(), Error>, Ghost<Self>) = self.put_unit(
                key.as_slice(),
                peer_unit,
                &bytes,
            );
            proof {
                peer_created = mid@;
            }
            match done {
                Err(e) => {
                    failed = Some(e);
                },
                Ok(()) => {},
            }
        }
        let ghost peer = *self;
        self.close_transaction(outer, failed.is_none());
        match failed {
            Some(e) => {
                proof {
                    let t = AdmitTrace { own_created, own, peer_created, peer };
                    assert(self.held_back() == peer);
                    assert(Self::admit_blocked(
                        &o,
                        &*self,
                        s,
                        own_pubkey,
                        peer_pubkey,
                        alias,
                        own_unit,
                        peer_unit,
                        t,
                        e,
                    ));
                    assert(Self::not_admitted(
                        &o,
                        &*self,
                        s,
                        own_pubkey,
                        peer_pubkey,
                        own_unit,
                        peer_unit,
                        e,
                    ));
                    assert(s == o.peers()->Ok_0);
                }
                return Err(e);
            },
            None => {},
        }
        proof {
            let t = AdmitTrace { own_created, own, peer_created, peer };
            assert(Self::peer_admitted(
                &o,
                &*self,
                s,
                own_pubkey,
                peer_pubkey,
                alias,
                own_unit,
                peer_unit,
                t,
            ));
            assert(s == o.peers()->Ok_0);
            assert(Self::newly_admitted(
                &o,
                &*self,
                s,
                own_pubkey,
                peer_pubkey,
                alias,
                own_unit,
                peer_unit,
            ));
            assert(!admitted(s, peer_pubkey));
            assert(!alias_stolen(s, o.local_alias, own_pubkey));
            assert(Self::admit_step(
                &o,
                &*self,
                own_pubkey,
                peer_pubkey,
                own_unit,
                peer_unit,
                Ok(alias),
            ));
        }
        Ok(alias)
    }

    proof fn lemma_next_alias_unique(s: Seq<PeerEntry>, reserved: Option<u16>, a: u16)
        requires
            next_alias(s, reserved, a),
        ensures
            forall|b: u16| next_alias(s, reserved, b) ==> b == a,
    {
    }

    /// Admits a peer and gives its alias. A peer that was admitted before keeps
    /// the one it has.
    pub fn admit_peer(&mut self, own_pubkey: [u8; 32], peer_pubkey: [u8; 32]) -> (r: Result<
        u16,
        Error,
    >)
        requires
            old(self).inv(),
            old(self).header.commit_seq < u64::MAX,
            old(self).peers_fit(),
            old(self).admits_new(own_pubkey, peer_pubkey) ==> exists|a: u16|
                next_alias(
                    old(self).peers()->Ok_0,
                    reserved_alias(old(self).peers()->Ok_0, old(self).local_alias),
                    a,
                ),
        ensures
            final(self).inv(),
            old(self).recoverable() ==> final(self).recoverable(),
            r == Err::<u16, Error>(Error::Entropy) && *final(self) == *old(self) && old(
                self,
            ).admits_new(own_pubkey, peer_pubkey) || exists|u1: Uuid, u2: Uuid| #[trigger]
                Self::admit_step(old(self), final(self), own_pubkey, peer_pubkey, u1, u2, r),
    {
        let ghost none: Uuid = arbitrary();
        match self.find_peer(&peer_pubkey) {
            Err(e) => {
                proof {
                    assert(Self::admit_step(
                        old(self),
                        &*self,
                        own_pubkey,
                        peer_pubkey,
                        none,
                        none,
                        Err(e),
                    ));
                }
                return Err(e);
            },
            Ok(Some(a)) => {
                proof {
                    assert(Self::admit_step(
                        old(self),
                        &*self,
                        own_pubkey,
                        peer_pubkey,
                        none,
                        none,
                        Ok(a),
                    ));
                }
                return Ok(a);
            },
            Ok(None) => {},
        }
        let entries: Vec<PeerEntry> = match self.read_peers() {
            Err(e) => {
                proof {
                    assert(Self::admit_step(
                        old(self),
                        &*self,
                        own_pubkey,
                        peer_pubkey,
                        none,
                        none,
                        Err(e),
                    ));
                }
                return Err(e);
            },
            Ok(x) => x,
        };
        match first_at(&entries, self.local_alias) {
            None => {},
            Some(e) => {
                if !same32(&e.pubkey, &own_pubkey) {
                    proof {
                        assert(Self::admit_step(
                            old(self),
                            &*self,
                            own_pubkey,
                            peer_pubkey,
                            none,
                            none,
                            Err(Error::Integrity),
                        ));
                    }
                    return Err(Error::Integrity);
                }
            },
        }
        let ids: Vec<u8> = match random_bytes(32) {
            None => {
                return Err(Error::Entropy);
            },
            Some(b) => b,
        };
        let u1: Uuid = take16(ids.as_slice(), 0);
        let u2: Uuid = take16(ids.as_slice(), 16);
        self.admit_peer_as(own_pubkey, peer_pubkey, u1, u2)
    }
}

/// An alias is given only once: a new peer never gets one that an entry has,
/// retired entries included.
pub proof fn law_aliases_are_never_recycled<C: Crypto>(
    o: &Engine<C>,
    e: &Engine<C>,
    s: Seq<PeerEntry>,
    own: [u8; 32],
    peer: [u8; 32],
    alias: u16,
    u1: Uuid,
    u2: Uuid,
    t: AdmitTrace<C>,
    i: int,
)
    requires
        Engine::<C>::peer_admitted(o, e, s, own, peer, alias, u1, u2, t),
        0 <= i < s.len(),
    ensures
        s[i].alias != alias,
{
}

proof fn lemma_decimal_value(n: nat)
    ensures
        decimal(n).len() > 0,
        all_digits(decimal(n)),
        digits_value(decimal(n)) == n,
    decreases n,
{
    let d = decimal(n);
    if n < 10 {
        assert(d.drop_last() =~= Seq::<u8>::empty());
        assert(digits_value(d.drop_last()) == 0);
    } else {
        lemma_decimal_value(n / 10);
        let p = decimal(n / 10);
        assert(d.drop_last() =~= p);
        assert forall|i: int| 0 <= i < d.len() implies 48 <= #[trigger] d[i] <= 57 by {
            if i < p.len() {
                assert(d[i] == p[i]);
            }
        }
    }
}

/// A peer that was admitted is found under its alias, and its entry says who
/// it is.
pub proof fn law_admitted_peers_are_listed<C: Crypto>(
    o: &Engine<C>,
    e: &Engine<C>,
    s: Seq<PeerEntry>,
    own: [u8; 32],
    peer: [u8; 32],
    alias: u16,
    u1: Uuid,
    u2: Uuid,
    t: AdmitTrace<C>,
)
    requires
        o.inv(),
        o.can_create(),
        Engine::<C>::peer_admitted(o, e, s, own, peer, alias, u1, u2, t),
        pending_of(o.overlay@, u2).len() == 0,
    ensures
        e.peer_at(peer_key(alias)) == Ok::<PeerEntry, Error>(active_entry(alias, peer)),
{
    let key = peer_key(alias);
    let entry = active_entry(alias, peer);
    let bytes = peer_bytes(entry);
    let held = o.held_back();
    assert(held.may_sign() == o.may_sign());
    assert(held.reads_own_records() == o.reads_own_records());
    if own_missing(s, o.local_alias) {
        assert(t.own_created.may_sign() == held.may_sign());
        assert(t.own_created.reads_own_records() == held.reads_own_records());
        assert(t.own.may_sign() == held.may_sign());
        assert(t.own.reads_own_records() == held.reads_own_records());
    }
    Engine::<C>::lemma_new_unit_reads(
        &t.own,
        &t.peer_created,
        &t.peer,
        key,
        u2,
        bytes,
        u2,
    );
    let w = t.peer.head(key)->Ok_0.2;
    Engine::<C>::lemma_kept_published(
        &t.peer,
        w,
        &t.peer,
        e,
        o.suppress_commit,
        key,
        u2,
    );
    Engine::<C>::lemma_same_content_reads(&t.peer, w, e, e.head(key)->Ok_0.2, w.stream().n());
    lemma_decimal_value(alias as nat);
    let d = decimal(alias as nat);
    assert(key.skip(peers_prefix().len() as int) =~= d);
    assert(d[0] != 43);
    law_peer_entry_round_trip(entry, Seq::empty());
    assert(bytes + Seq::<u8>::empty() =~= bytes);
    assert(crate::bytes::array32(peer@) =~= peer);
}

/// A peer that is retired keeps its entry: under the smallest alias that it had, it
/// is found with its key, and marked. Who was never admitted cannot be retired.
pub proof fn law_retired_peers_stay_listed<C: Crypto>(
    o: &Engine<C>,
    e: &Engine<C>,
    peer: [u8; 32],
    r: Result<(), Error>,
) -> (a: u16)
    requires
        o.inv(),
        o.overlay@.len() == 0,
        o.reads_own_records(),
        forall|x: u16| #[trigger] o.write_fits_at(peer_key(x), 0, 38),
        forall|x: u16|
            o.head(#[trigger] peer_key(x)) is Ok ==> 64 <= crate::block::frag_bytes(
                crate::write::write_exp(o.head(peer_key(x))->Ok_0.2.stream(), 38),
            ),
        Engine::<C>::peer_retired(o, e, peer, r),
    ensures
        o.peers() is Err ==> r is Err && *e == *o,
        o.peers() is Ok && (forall|i: int|
            0 <= i < o.peers()->Ok_0.len() ==> (#[trigger] o.peers()->Ok_0[i]).pubkey != peer)
            ==> r == Err::<(), Error>(Error::NotFound) && *e == *o,
        r is Ok ==> {
            let s = o.peers()->Ok_0;
            let key = peer_key(a);
            &&& o.peers() is Ok
            &&& exists|i: int| 0 <= i < s.len() && (#[trigger] s[i]).pubkey == peer && s[i].alias == a
            &&& forall|i: int| 0 <= i < s.len() && (#[trigger] s[i]).pubkey == peer ==> a <= s[i].alias
            &&& e.keys@ == o.keys@
            &&& o.whole(o.head(key)->Ok_0.2) ==> {
                &&& e.peer_at(key) is Ok
                &&& e.peer_at(key)->Ok_0.alias == a
                &&& e.peer_at(key)->Ok_0.pubkey == peer
                &&& e.peer_at(key)->Ok_0.retired
            }
        },
{
    if r is Ok {
        let s = o.peers()->Ok_0;
        let a = choose|a: u16| #[trigger]
            goes_by(s, peer, a) && Engine::<C>::write_step(
                o,
                e,
                peer_key(a),
                0,
                peer_bytes(PeerEntry { alias: a, pubkey: peer, retired: true }),
                r,
            );
        let key = peer_key(a);
        let entry = PeerEntry { alias: a, pubkey: peer, retired: true };
        let bytes = peer_bytes(entry);
        assert(o.keys@.contains_key(key));
        assert(o.write_fits_at(key, 0, 38));
        if o.whole(o.head(key)->Ok_0.2) {
            Engine::<C>::law_read_gives_back_the_write(o, e, key, 0, bytes, key);
            let old = o.full(o.head(key)->Ok_0.2)->Ok_0;
            let now = splice(old, 0, bytes);
            let rest = now.skip(38);
            assert(now =~= bytes + rest);
            lemma_decimal_value(a as nat);
            let d = decimal(a as nat);
            assert(key.skip(peers_prefix().len() as int) =~= d);
            assert(d[0] != 43);
            law_peer_entry_round_trip(entry, rest);
            assert(crate::bytes::array32(peer@) =~= peer);
        }
        a
    } else {
        0
    }
}

} // verus!
