//! Earlier versions: the record chain and what it resolves to.
use vstd::prelude::*;
use vstd::string::StringSliceAdditionalSpecFns;

use crate::block::{bit_set, bitmap_get_bit, frag_bytes, fragsize};
use crate::bytes::{push_all, push_range, push_zeros, resized, same16};
use crate::content::opened_at;
use crate::crypto::{BlockCtx, Crypto};
use crate::engine::{
    loaded, read_unit_record, record_ok, records_ok, Engine,
};
use crate::error::Error;
use crate::evicted::{EvictedBlock, EvictedModel};
use crate::heap::RecordHeap;
use crate::unit::{
    copy_bytes, hole, is_hole, max_of, BlockLoc, RecordModel, StreamMeta, StreamModel, UnitRecord, Uuid,
};
use crate::writerset::{set_view, SignMode, TrustModel, WriterSet};

verus! {

/// The suite that a record notes for a fragment, if it notes any.
pub open spec fn noted_suite(r: RecordModel, f: int) -> Option<u8> {
    if 0 <= f < r.frag_suites.len() {
        Some(r.frag_suites[f])
    } else {
        r.content_suite
    }
}

/// The newest record from `addr` on back that has fragment `f` in a version up
/// to `at`: the fragment's location, version and suite there.
pub open spec fn resolved<C: Crypto>(
    recs: Seq<RecordModel>,
    t: TrustModel,
    addr: u64,
    f: int,
    at: u64,
) -> Result<Option<(BlockLoc, u64, Option<u8>)>, Error>
    decreases addr,
{
    match loaded::<C>(recs, t, addr) {
        Err(e) => Err(e),
        Ok(r) => if r.content is Some && f < r.stream().unit_map.len() && r.stream().unit_map[f]
            <= at {
            if f < r.stream().locations.len() {
                Ok(Some((r.stream().locations[f], r.stream().unit_map[f], noted_suite(r, f))))
            } else {
                Err(Error::Integrity)
            }
        } else {
            match r.parent {
                None => Ok(None),
                Some(p) => if p < addr {
                    resolved::<C>(recs, t, p, f, at)
                } else {
                    Ok(None)
                },
            }
        },
    }
}

/// Looks fragments up in the record chain.
pub struct PersistenceStore {}

impl PersistenceStore {
    /// The location, version and suite of a fragment as of version `at_version`.
    pub fn resolve_with_version<C: Crypto>(
        b: &RecordHeap,
        head_record_addr: u64,
        frag: u32,
        at_version: u64,
        mode: SignMode,
        writer_pubkey: &[u8; 32],
        writer_set: &Option<WriterSet>,
    ) -> (r: Result<Option<(BlockLoc, u64, Option<u8>)>, Error>)
        requires
            records_ok(b@),
        ensures
            r == resolved::<C>(
                b@,
                (TrustModel {
                    mode,
                    writer_pubkey: *writer_pubkey,
                    writer_set: set_view(*writer_set),
                }),
                head_record_addr,
                frag as int,
                at_version,
            ),
    {
        let ghost t = TrustModel {
            mode,
            writer_pubkey: *writer_pubkey,
            writer_set: set_view(*writer_set),
        };
        let f: usize = frag as usize;
        let mut addr: u64 = head_record_addr;
        loop
            invariant
                records_ok(b@),
                f == frag,
                t == (TrustModel {
                    mode,
                    writer_pubkey: *writer_pubkey,
                    writer_set: set_view(*writer_set),
                }),
                resolved::<C>(b@, t, head_record_addr, frag as int, at_version) == resolved::<C>(
                    b@,
                    t,
                    addr,
                    frag as int,
                    at_version,
                ),
            decreases addr,
        {
            let rec: UnitRecord = match read_unit_record::<C>(
                b,
                addr,
                mode,
                writer_pubkey,
                writer_set,
            ) {
                Err(e) => {
                    return Err(e);
                },
                Ok(rec) => rec,
            };
            proof {
                assert(record_ok(b@[addr - 1], addr - 1));
            }
            match &rec.content {
                None => {},
                Some(sm) => {
                    if f < sm.unit_map.len() && sm.unit_map[f] <= at_version {
                        if f >= sm.locations.len() {
                            return Err(Error::Integrity);
                        }
                        let suite: Option<u8> = if f < rec.frag_suites.len() {
                            Some(rec.frag_suites[f])
                        } else {
                            rec.content_suite
                        };
                        return Ok(Some((sm.locations[f], sm.unit_map[f], suite)));
                    }
                },
            }
            match rec.parent {
                None => {
                    return Ok(None);
                },
                Some(p) => {
                    addr = p;
                },
            }
        }
    }

    /// The location of a fragment as of version `at_version`, `None` where it
    /// did not exist by then.
    pub fn resolve<C: Crypto>(
        b: &RecordHeap,
        head_record_addr: u64,
        frag: u32,
        at_version: u64,
        mode: SignMode,
        writer_pubkey: &[u8; 32],
        writer_set: &Option<WriterSet>,
    ) -> (r: Result<Option<BlockLoc>, Error>)
        requires
            records_ok(b@),
        ensures
            r == match resolved::<C>(
                b@,
                (TrustModel {
                    mode,
                    writer_pubkey: *writer_pubkey,
                    writer_set: set_view(*writer_set),
                }),
                head_record_addr,
                frag as int,
                at_version,
            ) {
                Err(e) => Err::<Option<BlockLoc>, Error>(e),
                Ok(None) => Ok::<Option<BlockLoc>, Error>(None),
                Ok(Some(x)) => Ok::<Option<BlockLoc>, Error>(Some(x.0)),
            },
    {
        match Self::resolve_with_version::<C>(
            b,
            head_record_addr,
            frag,
            at_version,
            mode,
            writer_pubkey,
            writer_set,
        ) {
            Err(e) => Err(e),
            Ok(None) => Ok(None),
            Ok(Some((loc, ver, suite))) => Ok(Some(loc)),
        }
    }

    /// The location of a fragment in the head record itself.
    pub fn resolve_current<C: Crypto>(
        b: &RecordHeap,
        head_record_addr: u64,
        frag: u32,
        mode: SignMode,
        writer_pubkey: &[u8; 32],
        writer_set: &Option<WriterSet>,
    ) -> (r: Result<Option<BlockLoc>, Error>)
        ensures
            r == match loaded::<C>(
                b@,
                (TrustModel {
                    mode,
                    writer_pubkey: *writer_pubkey,
                    writer_set: set_view(*writer_set),
                }),
                head_record_addr,
            ) {
                Err(e) => Err::<Option<BlockLoc>, Error>(e),
                Ok(m) => if m.content is Some && frag < m.stream().locations.len() {
                    Ok::<Option<BlockLoc>, Error>(Some(m.stream().locations[frag as int]))
                } else {
                    Ok::<Option<BlockLoc>, Error>(None)
                },
            },
    {
        match read_unit_record::<C>(b, head_record_addr, mode, writer_pubkey, writer_set) {
            Err(e) => Err(e),
            Ok(rec) => match &rec.content {
                None => Ok(None),
                Some(sm) => {
                    let f: usize = frag as usize;
                    if f < sm.locations.len() {
                        Ok(Some(sm.locations[f]))
                    } else {
                        Ok(None)
                    }
                },
            },
        }
    }
}

/// The largest content version of each record from `addr` on back that has
/// fragments, newest first.
pub open spec fn versions_from<C: Crypto>(
    recs: Seq<RecordModel>,
    t: TrustModel,
    addr: u64,
) -> Result<Seq<u64>, Error>
    decreases addr,
{
    match loaded::<C>(recs, t, addr) {
        Err(e) => Err(e),
        Ok(r) => {
            let here = if r.content is Some && r.stream().n() > 0 {
                seq![r.stream().max_version()]
            } else {
                Seq::empty()
            };
            match r.parent {
                None => Ok(here),
                Some(p) => if p < addr {
                    match versions_from::<C>(recs, t, p) {
                        Err(e) => Err(e),
                        Ok(rest) => Ok(here + rest),
                    }
                } else {
                    Ok(here)
                },
            }
        },
    }
}

/// The content stream of the newest record from `addr` on back whose fragments
/// are all of versions up to `at`.
pub open spec fn stream_as_of<C: Crypto>(
    recs: Seq<RecordModel>,
    t: TrustModel,
    addr: u64,
    at: u64,
) -> Result<Option<StreamModel>, Error>
    decreases addr,
{
    match loaded::<C>(recs, t, addr) {
        Err(e) => Err(e),
        Ok(r) => if r.content is Some && r.stream().n() > 0 && r.stream().max_version() <= at {
            Ok(r.content)
        } else {
            match r.parent {
                None => Ok(None),
                Some(p) => if p < addr {
                    stream_as_of::<C>(recs, t, p, at)
                } else {
                    Ok(None)
                },
            }
        },
    }
}

/// The bytes of a superseded fragment version: those of the newest block in the
/// tail that holds it.
pub open spec fn in_tail(
    tail: Seq<EvictedModel>,
    uuid: Uuid,
    f: int,
    version: u64,
) -> Option<Seq<u8>>
    decreases tail.len(),
{
    if tail.len() == 0 {
        None
    } else if tail.last().uuid == uuid && tail.last().frag == f && tail.last().old_version
        == version {
        Some(tail.last().bytes)
    } else {
        in_tail(tail.drop_last(), uuid, f, version)
    }
}

impl<C: Crypto> Engine<C> {
    /// The versions that the content at `path` went through, newest first.
    pub fn history(&self, path: &str) -> (r: Result<Vec<u64>, Error>)
        requires
            self.inv(),
        ensures
            match self.head_at(path.spec_bytes()) {
                Err(e) => r == Err::<Vec<u64>, Error>(e),
                Ok((_, addr)) => match versions_from::<C>(self.recs(), self.trust(), addr) {
                    Err(e) => r == Err::<Vec<u64>, Error>(e),
                    Ok(v) => if v.len() == 0 {
                        r == Err::<Vec<u64>, Error>(Error::NotFound)
                    } else {
                        r is Ok && r->Ok_0@ == v
                    },
                },
            },
    {
        let (uuid, head): (Uuid, u64) = match self.locate(path.as_bytes()) {
            Err(e) => {
                return Err(e);
            },
            Ok(x) => x,
        };
        let mut out: Vec<u64> = Vec::new();
        let mut addr: u64 = head;
        let mut more: bool = true;
        while more
            invariant
                self.inv(),
                more ==> versions_from::<C>(self.recs(), self.trust(), head) == match versions_from::<
                    C,
                >(self.recs(), self.trust(), addr) {
                    Err(e) => Err::<Seq<u64>, Error>(e),
                    Ok(v) => Ok::<Seq<u64>, Error>(out@ + v),
                },
                !more ==> versions_from::<C>(self.recs(), self.trust(), head) == Ok::<
                    Seq<u64>,
                    Error,
                >(out@),
                self.head_at(path.spec_bytes()) == Ok::<(Uuid, u64), Error>((uuid, head)),
            decreases
                    if more {
                        addr as int + 1
                    } else {
                        0
                    },
        {
            let rec: UnitRecord = match self.read_record_at(addr) {
                Err(e) => {
                    return Err(e);
                },
                Ok(rec) => rec,
            };
            let ghost before = out@;
            proof {
                assert(record_ok(self.recs()[addr - 1], addr - 1));
            }
            match &rec.content {
                None => {},
                Some(sm) => {
                    if sm.unit_map.len() > 0 {
                        out.push(max_of(&sm.unit_map));
                    }
                },
            }
            proof {
                let r = rec@;
                let here = if r.content is Some && r.stream().n() > 0 {
                    seq![r.stream().max_version()]
                } else {
                    Seq::empty()
                };
                assert(out@ =~= before + here);
                if r.parent is Some {
                    let v = versions_from::<C>(self.recs(), self.trust(), r.parent->Some_0);
                    if v is Ok {
                        assert(before + (here + v->Ok_0) =~= out@ + v->Ok_0);
                    }
                }
            }
            match rec.parent {
                None => {
                    more = false;
                },
                Some(p) => {
                    addr = p;
                },
            }
        }
        if out.len() == 0 {
            return Err(Error::NotFound);
        }
        Ok(out)
    }

    /// Where fragment `f` is found for a reconstruction: the head's live block
    /// where the bitmap says that it did not change, else what the chain
    /// resolves to.
    pub open spec fn found_at(
        &self,
        head_addr: u64,
        head: RecordModel,
        f: int,
        at: u64,
        bits: Option<Seq<u8>>,
    ) -> Result<Found, Error> {
        let hs = head.stream();
        let in_head = f < hs.n() && hs.locations[f] != hole();
        if bits is Some && bit_set(bits->Some_0, f) && in_head {
            Ok(
                Found::Slot {
                    loc: hs.locations[f],
                    version: hs.unit_map[f],
                    suite: noted_suite(head, f),
                },
            )
        } else {
            match resolved::<C>(self.recs(), self.trust(), head_addr, f, at) {
                Err(e) => Err(e),
                Ok(None) => Err(Error::Integrity),
                Ok(Some((loc, version, suite))) => if loc == hole() {
                    Ok(Found::Hole)
                } else if in_head && hs.unit_map[f] == version {
                    Ok(Found::Slot { loc: hs.locations[f], version, suite })
                } else {
                    match in_tail(self.tail(), head.uuid, f, version) {
                        None => Err(Error::Integrity),
                        Some(bytes) => Ok(Found::Tail { bytes, version, suite }),
                    }
                },
            }
        }
    }

    /// The plaintext of a fragment that was found; a hole has none.
    pub open spec fn found_plain(&self, uuid: Uuid, f: int, at: Found) -> Result<Seq<u8>, Error> {
        match at {
            Found::Hole => Ok(Seq::empty()),
            Found::Slot { loc, version, suite } => opened_at::<C>(
                self.slots(),
                self.root_key,
                self.header.key_epoch,
                match suite {
                    Some(s) => s,
                    None => self.header.cipher,
                },
                uuid,
                f,
                version,
                loc,
            ),
            Found::Tail { bytes, version, suite } => {
                let s = match suite {
                    Some(s) => s,
                    None => self.header.cipher,
                };
                if !C::known(s) {
                    Err(Error::Crypto)
                } else {
                    match C::opened(s, self.root_key, self.ctx(uuid, f, version), bytes) {
                        None => Err(Error::Crypto),
                        Some(p) => Ok(p),
                    }
                }
            },
        }
    }

    /// What fragment `f` contributes: at least its logical length, the last one
    /// exactly.
    pub open spec fn old_piece(
        &self,
        head_addr: u64,
        head: RecordModel,
        sm: StreamModel,
        at: u64,
        bits: Option<Seq<u8>>,
        f: int,
    ) -> Result<Seq<u8>, Error> {
        let want = if f == sm.n() - 1 {
            sm.last_frag_length as nat
        } else {
            frag_bytes(sm.fragsize_exp)
        };
        match self.found_at(head_addr, head, f, at, bits) {
            Err(e) => Err(e),
            Ok(x) => match self.found_plain(head.uuid, f, x) {
                Err(e) => Err(e),
                Ok(p) => Ok(
                    if f == sm.n() - 1 || p.len() < want {
                        resized(p, want)
                    } else {
                        p
                    },
                ),
            },
        }
    }

    /// The first `n` fragments of an earlier version.
    pub open spec fn old_pieces(
        &self,
        head_addr: u64,
        head: RecordModel,
        sm: StreamModel,
        at: u64,
        bits: Option<Seq<u8>>,
        n: nat,
    ) -> Result<Seq<u8>, Error>
        decreases n,
    {
        if n == 0 {
            Ok(Seq::empty())
        } else {
            match self.old_pieces(head_addr, head, sm, at, bits, (n - 1) as nat) {
                Err(e) => Err(e),
                Ok(s) => match self.old_piece(head_addr, head, sm, at, bits, n - 1) {
                    Err(e) => Err(e),
                    Ok(p) => Ok(s + p),
                },
            }
        }
    }

    /// The content at `key` as of version `at`.
    pub open spec fn as_of(&self, key: Seq<u8>, at: u64, bits: Option<Seq<u8>>) -> Result<
        Seq<u8>,
        Error,
    > {
        match self.head(key) {
            Err(e) => Err(e),
            Ok((_, addr, m)) => if m.content is None {
                Ok(Seq::empty())
            } else {
                match stream_as_of::<C>(self.recs(), self.trust(), addr, at) {
                    Err(e) => Err(e),
                    Ok(None) => Err(Error::NotFound),
                    Ok(Some(sm)) => self.old_pieces(addr, m, sm, at, bits, sm.n()),
                }
            },
        }
    }

    /// The stream that a reconstruction of `key` as of `at` works on has a
    /// geometry that can be worked with.
    pub open spec fn history_fits(&self, key: Seq<u8>, at: u64) -> bool {
        self.head(key) is Ok ==> {
            let (_, addr, m) = self.head(key)->Ok_0;
            stream_as_of::<C>(self.recs(), self.trust(), addr, at) is Ok && stream_as_of::<C>(
                self.recs(),
                self.trust(),
                addr,
                at,
            )->Ok_0 is Some ==> stream_as_of::<C>(
                self.recs(),
                self.trust(),
                addr,
                at,
            )->Ok_0->Some_0.geometry_ok()
        }
    }

    pub(crate) fn find_in_tail(&self, uuid: &Uuid, f: u32, version: u64) -> (r: Option<Vec<u8>>)
        ensures
            r is None <==> in_tail(self.tail(), *uuid, f as int, version) is None,
            r is Some ==> in_tail(self.tail(), *uuid, f as int, version) == Some(r->Some_0@),
    {
        let mut i: usize = self.disk.tail.len();
        proof {
            assert(self.tail().take(i as int) =~= self.tail());
        }
        while i > 0
            invariant
                i <= self.tail().len(),
                in_tail(self.tail(), *uuid, f as int, version) == in_tail(
                    self.tail().take(i as int),
                    *uuid,
                    f as int,
                    version,
                ),
            decreases i,
        {
            i = i - 1;
            let e: &EvictedBlock = self.disk.tail.get(i);
            proof {
                assert(self.tail().take(i + 1).last() == e@);
                assert(self.tail().take(i + 1).drop_last() =~= self.tail().take(i as int));
            }
            if same16(&e.uuid, uuid) && e.frag == f && e.old_version == version {
                return Some(copy_bytes(&e.bytes));
            }
        }
        None
    }

    fn stream_at(&self, head: u64, at: u64) -> (r: Result<Option<StreamMeta>, Error>)
        requires
            self.inv(),
        ensures
            match stream_as_of::<C>(self.recs(), self.trust(), head, at) {
                Err(e) => r == Err::<Option<StreamMeta>, Error>(e),
                Ok(None) => r == Ok::<Option<StreamMeta>, Error>(None),
                Ok(Some(sm)) => r is Ok && r->Ok_0 is Some && r->Ok_0->Some_0@ == sm,
            },
    {
        let mut addr: u64 = head;
        loop
            invariant
                self.inv(),
                stream_as_of::<C>(self.recs(), self.trust(), head, at) == stream_as_of::<C>(
                    self.recs(),
                    self.trust(),
                    addr,
                    at,
                ),
            decreases addr,
        {
            let rec: UnitRecord = match self.read_record_at(addr) {
                Err(e) => {
                    return Err(e);
                },
                Ok(rec) => rec,
            };
            proof {
                assert(record_ok(self.recs()[addr - 1], addr - 1));
            }
            match &rec.content {
                None => {},
                Some(sm) => {
                    if sm.unit_map.len() > 0 && max_of(&sm.unit_map) <= at {
                        return Ok(Some(sm.clone()));
                    }
                },
            }
            match rec.parent {
                None => {
                    return Ok(None);
                },
                Some(p) => {
                    addr = p;
                },
            }
        }
    }

    /// Finds and opens fragment `f` for a reconstruction.
    fn old_fragment(
        &self,
        head_addr: u64,
        head: &UnitRecord,
        f: usize,
        at: u64,
        bits: Option<&[u8]>,
    ) -> (r: Result<Vec<u8>, Error>)
        requires
            self.inv(),
            f <= u32::MAX,
            head@.content is Some,
            head@.stream().locations.len() == head@.stream().unit_map.len(),
        ensures
            ({
                let b = crate::names::opt_bytes(bits);
                match self.found_at(head_addr, head@, f as int, at, b) {
                    Err(e) => r == Err::<Vec<u8>, Error>(e),
                    Ok(x) => match self.found_plain(head@.uuid, f as int, x) {
                        Err(e) => r == Err::<Vec<u8>, Error>(e),
                        Ok(p) => r is Ok && r->Ok_0@ == p,
                    },
                }
            }),
    {
        let hs: &StreamMeta = match &head.content {
            None => {
                return Err(Error::Integrity);
            },
            Some(s) => s,
        };
        let in_head: bool = f < hs.unit_map.len() && !is_hole(hs.locations[f]);
        let unchanged: bool = match bits {
            None => false,
            Some(b) => bitmap_get_bit(b, f),
        };
        if unchanged && in_head {
            let suite: Option<u8> = if f < head.frag_suites.len() {
                Some(head.frag_suites[f])
            } else {
                head.content_suite
            };
            let s: u8 = match suite {
                Some(s) => s,
                None => self.header.cipher,
            };
            return self.read_fragment(s, &head.uuid, f, hs.unit_map[f], hs.locations[f]);
        }
        let found: Option<(BlockLoc, u64, Option<u8>)> = match PersistenceStore::resolve_with_version::<
            C,
        >(
            &self.disk.records,
            head_addr,
            f as u32,
            at,
            self.header.sign_mode,
            &self.header.writer_pubkey,
            &self.writer_set,
        ) {
            Err(e) => {
                return Err(e);
            },
            Ok(x) => x,
        };
        let (loc, version, suite): (BlockLoc, u64, Option<u8>) = match found {
            None => {
                return Err(Error::Integrity);
            },
            Some(x) => x,
        };
        let s: u8 = match suite {
            Some(s) => s,
            None => self.header.cipher,
        };
        if is_hole(loc) {
            let none: Vec<u8> = Vec::new();
            proof {
                assert(none@ =~= Seq::<u8>::empty());
            }
            return Ok(none);
        }
        if in_head && hs.unit_map[f] == version {
            return self.read_fragment(s, &head.uuid, f, version, hs.locations[f]);
        }
        let bytes: Vec<u8> = match self.find_in_tail(&head.uuid, f as u32, version) {
            None => {
                return Err(Error::Integrity);
            },
            Some(b) => b,
        };
        if !C::is_known(s) {
            return Err(Error::Crypto);
        }
        let ctx: BlockCtx = BlockCtx {
            uuid: head.uuid,
            frag: f as u32,
            version,
            key_epoch: self.header.key_epoch,
        };
        match C::open(s, &self.root_key, &ctx, bytes.as_slice()) {
            None => Err(Error::Crypto),
            Some(p) => Ok(p),
        }
    }

    proof fn lemma_old_pieces_err(
        &self,
        head_addr: u64,
        head: RecordModel,
        sm: StreamModel,
        at: u64,
        bits: Option<Seq<u8>>,
        f: nat,
        n: nat,
    )
        requires
            f < n,
            self.old_pieces(head_addr, head, sm, at, bits, f) is Ok,
            self.old_piece(head_addr, head, sm, at, bits, f as int) is Err,
        ensures
            self.old_pieces(head_addr, head, sm, at, bits, n) == Err::<Seq<u8>, Error>(
                self.old_piece(head_addr, head, sm, at, bits, f as int)->Err_0,
            ),
        decreases n,
    {
        if n > f + 1 {
            self.lemma_old_pieces_err(head_addr, head, sm, at, bits, f, (n - 1) as nat);
        }
    }

    /// Rebuilds the content at a key as of version `at`. With a commit's bitmap,
    /// fragments that did not change since are taken from the head.
    pub fn reconstruct_at(&self, key: &[u8], at: u64, bits: Option<&[u8]>) -> (r: Result<
        Vec<u8>,
        Error,
    >)
        requires
            self.inv(),
            self.history_fits(key@, at),
        ensures
            match self.as_of(key@, at, crate::names::opt_bytes(bits)) {
                Err(e) => r == Err::<Vec<u8>, Error>(e),
                Ok(s) => r is Ok && r->Ok_0@ == s,
            },
    {
        let mut out: Vec<u8> = Vec::new();
        let ghost b = crate::names::opt_bytes(bits);
        proof {
            assert(out@ =~= Seq::<u8>::empty());
        }
        let (uuid, head_addr, head): (Uuid, u64, UnitRecord) = match self.find_head(key) {
            Err(e) => {
                return Err(e);
            },
            Ok(x) => x,
        };
        if head.content.is_none() {
            return Ok(out);
        }
        let sm: StreamMeta = match self.stream_at(head_addr, at) {
            Err(e) => {
                return Err(e);
            },
            Ok(None) => {
                return Err(Error::NotFound);
            },
            Ok(Some(s)) => s,
        };
        let n: usize = sm.unit_map.len();
        let fs: usize = fragsize(sm.fragsize_exp) as usize;
        let mut f: usize = 0;
        while f < n
            invariant
                self.inv(),
                b == crate::names::opt_bytes(bits),
                head@.content is Some,
                head@.stream().locations.len() == head@.stream().unit_map.len(),
                sm@.geometry_ok(),
                n == sm@.n(),
                fs == frag_bytes(sm.fragsize_exp),
                f <= n,
                self.old_pieces(head_addr, head@, sm@, at, b, f as nat) == Ok::<Seq<u8>, Error>(
                    out@,
                ),
                self.as_of(key@, at, b) == self.old_pieces(
                    head_addr,
                    head@,
                    sm@,
                    at,
                    b,
                    sm@.n(),
                ),
            decreases n - f,
        {
            let want: usize = if f == n - 1 {
                sm.last_frag_length as usize
            } else {
                fs
            };
            let ghost before = out@;
            let plain: Vec<u8> = match self.old_fragment(head_addr, &head, f, at, bits) {
                Err(e) => {
                    proof {
                        self.lemma_old_pieces_err(
                            head_addr,
                            head@,
                            sm@,
                            at,
                            b,
                            f as nat,
                            sm@.n(),
                        );
                    }
                    return Err(e);
                },
                Ok(p) => p,
            };
            if plain.len() < want {
                let gap: usize = want - plain.len();
                push_all(&mut out, plain.as_slice());
                push_zeros(&mut out, gap);
                proof {
                    assert(out@ =~= before + resized(plain@, want as nat));
                }
            } else if f == n - 1 {
                push_range(&mut out, plain.as_slice(), 0, want);
                proof {
                    assert(out@ =~= before + resized(plain@, want as nat));
                }
            } else {
                push_all(&mut out, plain.as_slice());
            }
            f = f + 1;
        }
        Ok(out)
    }

    /// The content at `path` as of version `at`.
    pub fn checkout(&self, path: &str, at: u64) -> (r: Result<Vec<u8>, Error>)
        requires
            self.inv(),
            self.history_fits(path.spec_bytes(), at),
        ensures
            match self.as_of(path.spec_bytes(), at, None) {
                Err(e) => r == Err::<Vec<u8>, Error>(e),
                Ok(s) => r is Ok && r->Ok_0@ == s,
            },
    {
        self.reconstruct_at(path.as_bytes(), at, None)
    }
}

/// Where a fragment of an earlier version is found.
pub enum Found {
    /// It was never stored.
    Hole,
    /// In a live slot.
    Slot { loc: BlockLoc, version: u64, suite: Option<u8> },
    /// Superseded, in the tail.
    Tail { bytes: Seq<u8>, version: u64, suite: Option<u8> },
}

} // verus!
