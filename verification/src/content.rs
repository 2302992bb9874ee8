//! Reading content: fragments, whole units, ranges and strains.
use vstd::prelude::*;
use vstd::string::StringSliceAdditionalSpecFns;

use crate::block::{frag_bytes, fragsize, lemma_frag_bytes};
use crate::bytes::{push_all, push_range, push_zeros, resized, zeros};
use crate::cache::{cached_at, is_cached, CacheModel};
use crate::crypto::{BlockCtx, Crypto};
use crate::engine::{cache_ok, Engine};
use crate::error::Error;
use crate::heap::in_heap;
use crate::overlay::{
    apply_overlay_full, apply_overlay_to_read, find_pending, overlaid, overlaid_window, overlay_ok,
    pending_of,
};
use crate::unit::{
    geometry_holds, hole, is_hole, stream_byte_len, BlockLoc, RecordModel, StreamMeta, StreamModel,
    UnitRecord, Uuid,
};

verus! {

/// The suite that fragment `f` of a record is sealed under: its own where one
/// is noted, else the record's, else the container's metadata suite.
pub open spec fn suite_of(meta_cipher: u8, r: RecordModel, f: int) -> u8 {
    if 0 <= f < r.frag_suites.len() {
        r.frag_suites[f]
    } else {
        match r.content_suite {
            Some(s) => s,
            None => meta_cipher,
        }
    }
}

/// The bytes in a slot, if the slot exists and has the length of the location.
pub open spec fn stored_at(slots: Seq<Seq<u8>>, loc: BlockLoc) -> Option<Seq<u8>> {
    if in_heap(slots, loc.addr) && slots[loc.addr - 1].len() == loc.len {
        Some(slots[loc.addr - 1])
    } else {
        None
    }
}

/// The plaintext of a stored fragment.
pub open spec fn opened_at<C: Crypto>(
    slots: Seq<Seq<u8>>,
    key: [u8; 32],
    epoch: u64,
    suite: u8,
    uuid: Uuid,
    f: int,
    version: u64,
    loc: BlockLoc,
) -> Result<Seq<u8>, Error> {
    if !C::known(suite) {
        Err(Error::Crypto)
    } else {
        match stored_at(slots, loc) {
            None => Err(Error::Integrity),
            Some(cipher) => match C::opened(
                suite,
                key,
                BlockCtx { uuid, frag: f as u32, version, key_epoch: epoch },
                cipher,
            ) {
                None => Err(Error::Crypto),
                Some(plain) => Ok(plain),
            },
        }
    }
}

/// The byte at position `i` of a plaintext that zeros follow.
pub open spec fn byte_or_zero(plain: Seq<u8>, i: int) -> u8 {
    if 0 <= i < plain.len() {
        plain[i]
    } else {
        0
    }
}

impl<C: Crypto> Engine<C> {
    /// The suite that fragment `f` of a record is sealed under.
    pub open spec fn suite(&self, r: RecordModel, f: int) -> u8 {
        suite_of(self.header.cipher, r, f)
    }

    /// The plaintext of fragment `f` of a record's content, as stored.
    pub open spec fn frag(&self, r: RecordModel, f: int) -> Result<Seq<u8>, Error> {
        opened_at::<C>(
            self.slots(),
            self.root_key,
            self.header.key_epoch,
            self.suite(r, f),
            r.uuid,
            f,
            r.stream().unit_map[f],
            r.stream().locations[f],
        )
    }

    /// Fragment `f` is a hole.
    pub open spec fn hole_at(r: RecordModel, f: int) -> bool {
        r.stream().locations[f] == hole()
    }

    /// The plaintext of fragment `f`; a hole has none.
    pub open spec fn plain(&self, r: RecordModel, f: int) -> Seq<u8> {
        if Self::hole_at(r, f) {
            Seq::empty()
        } else {
            match self.frag(r, f) {
                Ok(p) => p,
                Err(_) => Seq::empty(),
            }
        }
    }

    /// Fragment `f` can be read.
    pub open spec fn readable(&self, r: RecordModel, f: int) -> bool {
        Self::hole_at(r, f) || self.frag(r, f) is Ok
    }

    /// The byte at position `i` of a record's content.
    pub open spec fn byte(&self, r: RecordModel, i: int) -> u8 {
        let fs = frag_bytes(r.stream().fragsize_exp) as int;
        byte_or_zero(self.plain(r, i / fs), i % fs)
    }

    /// The content of a record: as many bytes as its geometry says, zeros
    /// wherever nothing is stored.
    pub open spec fn contents(&self, r: RecordModel) -> Seq<u8> {
        Seq::new(r.stream().size(), |i: int| self.byte(r, i))
    }

    /// The logical length of fragment `f`.
    pub open spec fn want(r: RecordModel, f: int) -> nat {
        if f == r.stream().n() - 1 {
            r.stream().last_frag_length as nat
        } else {
            frag_bytes(r.stream().fragsize_exp)
        }
    }

    /// What fragment `f` contributes to a read of everything: its logical
    /// length, zero-extended; an inner fragment is never cut.
    pub open spec fn piece(&self, r: RecordModel, f: int) -> Result<Seq<u8>, Error> {
        if Self::hole_at(r, f) {
            Ok(zeros(Self::want(r, f)))
        } else {
            match self.frag(r, f) {
                Err(e) => Err(e),
                Ok(p) => Ok(
                    if f == r.stream().n() - 1 || p.len() < Self::want(r, f) {
                        resized(p, Self::want(r, f))
                    } else {
                        p
                    },
                ),
            }
        }
    }

    /// The first `n` pieces; the first that cannot be read decides the error.
    pub open spec fn pieces(&self, r: RecordModel, n: nat) -> Result<Seq<u8>, Error>
        decreases n,
    {
        if n == 0 {
            Ok(Seq::empty())
        } else {
            match self.pieces(r, (n - 1) as nat) {
                Err(e) => Err(e),
                Ok(s) => match self.piece(r, n - 1) {
                    Err(e) => Err(e),
                    Ok(p) => Ok(s + p),
                },
            }
        }
    }

    /// Reading a record's content in full.
    pub open spec fn full(&self, r: RecordModel) -> Result<Seq<u8>, Error> {
        self.pieces(r, r.stream().n())
    }

    /// The geometry of the content at `key` can be worked with.
    pub open spec fn geometry_at(&self, key: Seq<u8>) -> bool {
        self.head(key) is Ok ==> self.head(key)->Ok_0.2.stream().geometry_ok()
    }

    /// Tests that the geometry of the content at `key` can be worked with: where
    /// it cannot, the content is not to be read or written.
    pub fn geometry_sound(&self, key: &[u8]) -> (r: bool)
        requires
            self.inv(),
        ensures
            r == self.geometry_at(key@),
    {
        match self.find_head(key) {
            Err(_) => true,
            Ok((uuid, addr, rec)) => match &rec.content {
                None => true,
                Some(sm) => geometry_holds(sm),
            },
        }
    }

    /// The suite of fragment `f` of a record.
    pub fn content_frag_suite_id(&self, rec: &UnitRecord, f: usize) -> (s: u8)
        ensures
            s == self.suite(rec@, f as int),
    {
        if f < rec.frag_suites.len() {
            rec.frag_suites[f]
        } else {
            self.record_content_suite(rec)
        }
    }

    /// The suite of a record's content where fragments have none of their own.
    pub fn record_content_suite(&self, rec: &UnitRecord) -> (s: u8)
        ensures
            s == match rec@.content_suite {
                Some(s) => s,
                None => self.header.cipher,
            },
    {
        match rec.content_suite {
            Some(s) => s,
            None => self.header.cipher,
        }
    }

    /// Reads and opens one fragment.
    pub fn read_fragment(
        &self,
        suite: u8,
        uuid: &Uuid,
        f: usize,
        version: u64,
        loc: BlockLoc,
    ) -> (r: Result<Vec<u8>, Error>)
        requires
            f <= u32::MAX,
        ensures
            match opened_at::<C>(
                self.slots(),
                self.root_key,
                self.header.key_epoch,
                suite,
                *uuid,
                f as int,
                version,
                loc,
            ) {
                Ok(p) => r is Ok && r->Ok_0@ == p,
                Err(e) => r == Err::<Vec<u8>, Error>(e),
            },
    {
        if !C::is_known(suite) {
            return Err(Error::Crypto);
        }
        let cipher: Vec<u8> = match self.disk.blocks.get(loc.addr) {
            None => {
                return Err(Error::Integrity);
            },
            Some(b) => b,
        };
        if cipher.len() as u64 != loc.len as u64 {
            return Err(Error::Integrity);
        }
        let ctx: BlockCtx = BlockCtx {
            uuid: *uuid,
            frag: f as u32,
            version,
            key_epoch: self.header.key_epoch,
        };
        match C::open(suite, &self.root_key, &ctx, cipher.as_slice()) {
            None => Err(Error::Crypto),
            Some(p) => Ok(p),
        }
    }

    /// Reads and opens fragment `f` of a record's content.
    pub fn read_frag_of(&self, rec: &UnitRecord, sm: &StreamMeta, f: usize) -> (r: Result<
        Vec<u8>,
        Error,
    >)
        requires
            rec@.content == Some(sm@),
            f < sm@.n(),
            sm@.locations.len() == sm@.unit_map.len(),
            sm@.n() <= u32::MAX,
        ensures
            match self.frag(rec@, f as int) {
                Ok(p) => r is Ok && r->Ok_0@ == p,
                Err(e) => r == Err::<Vec<u8>, Error>(e),
            },
    {
        let suite: u8 = self.content_frag_suite_id(rec, f);
        self.read_fragment(suite, &rec.uuid, f, sm.unit_map[f], sm.locations[f])
    }

    /// Lays the unit's pending writes over its whole content.
    fn apply_wal_overlay_full(&self, uuid: &Uuid, out: &mut Vec<u8>)
        requires
            overlay_ok(self.overlay@),
        ensures
            final(out)@ == overlaid(old(out)@, pending_of(self.overlay@, *uuid)),
    {
        match find_pending(&self.overlay, uuid) {
            None => {},
            Some(i) => {
                apply_overlay_full(out, &self.overlay[i].writes);
            },
        }
    }

    /// Lays the unit's pending writes over a range that was read.
    fn apply_wal_overlay_partial(
        &self,
        uuid: &Uuid,
        out: &mut Vec<u8>,
        read_offset: u64,
        read_len: usize,
    )
        requires
            overlay_ok(self.overlay@),
            pending_of(self.overlay@, *uuid).len() > 0 ==> read_offset + read_len <= u64::MAX,
        ensures
            final(out)@ == overlaid_window(
                old(out)@,
                pending_of(self.overlay@, *uuid),
                read_offset as int,
                read_offset + read_len,
            ),
    {
        match find_pending(&self.overlay, uuid) {
            None => {},
            Some(i) => {
                if self.overlay[i].writes.len() > 0 {
                    apply_overlay_to_read(
                        out,
                        &self.overlay[i].writes,
                        read_offset,
                        read_len,
                    );
                } else {
                    proof {
                        assert(pending_of(self.overlay@, *uuid).len() == 0);
                    }
                }
            },
        }
    }

    /// The content of a record in full.
    pub fn read_full(&self, rec: &UnitRecord) -> (r: Result<Vec<u8>, Error>)
        requires
            rec@.stream().geometry_ok(),
        ensures
            match self.full(rec@) {
                Ok(s) => r is Ok && r->Ok_0@ == s,
                Err(e) => r == Err::<Vec<u8>, Error>(e),
            },
    {
        let mut out: Vec<u8> = Vec::new();
        let sm: &StreamMeta = match &rec.content {
            None => {
                proof {
                    assert(out@ =~= Seq::<u8>::empty());
                }
                return Ok(out);
            },
            Some(sm) => sm,
        };
        let n: usize = sm.unit_map.len();
        let fs: usize = fragsize(sm.fragsize_exp) as usize;
        let mut f: usize = 0;
        proof {
            assert(out@ =~= Seq::<u8>::empty());
        }
        while f < n
            invariant
                rec.content == Some(*sm),
                sm@.geometry_ok(),
                n == sm@.n(),
                fs == frag_bytes(sm.fragsize_exp),
                f <= n,
                self.pieces(rec@, f as nat) == Ok::<Seq<u8>, Error>(out@),
            decreases n - f,
        {
            let want: usize = if f == n - 1 {
                sm.last_frag_length as usize
            } else {
                fs
            };
            assert(want == Self::want(rec@, f as int));
            let ghost before = out@;
            if is_hole(sm.locations[f]) {
                push_zeros(&mut out, want);
            } else {
                let plain: Vec<u8> = match self.read_frag_of(rec, sm, f) {
                    Err(e) => {
                        proof {
                            self.lemma_pieces_err(rec@, f as nat, sm@.n());
                        }
                        return Err(e);
                    },
                    Ok(p) => p,
                };
                if plain.len() < want {
                    let gap: usize = want - plain.len();
                    push_all(&mut out, plain.as_slice());
                    push_zeros(&mut out, gap);
                    proof {
                        assert(out@ =~= before + resized(plain@, want as nat));
                    }
                } else if f == n - 1 {
                    push_range(&mut out, plain.as_slice(), 0, want);
                    proof {
                        assert(out@ =~= before + resized(plain@, want as nat));
                    }
                } else {
                    push_all(&mut out, plain.as_slice());
                }
            }
            f = f + 1;
        }
        Ok(out)
    }

    /// Once a piece cannot be read, no longer prefix can.
    pub proof fn lemma_pieces_err(&self, r: RecordModel, f: nat, n: nat)
        requires
            f < n,
            self.pieces(r, f) is Ok,
            self.piece(r, f as int) is Err,
        ensures
            self.pieces(r, n) == Err::<Seq<u8>, Error>(self.piece(r, f as int)->Err_0),
        decreases n,
    {
        if n > f + 1 {
            self.lemma_pieces_err(r, f, (n - 1) as nat);
        }
    }

    /// The content at `path`, pending writes laid over it.
    pub fn read(&self, path: &str) -> (r: Result<Vec<u8>, Error>)
        requires
            self.inv(),
            self.geometry_at(path.spec_bytes()),
        ensures
            match self.head(path.spec_bytes()) {
                Err(e) => r == Err::<Vec<u8>, Error>(e),
                Ok((uuid, _, m)) => match self.full(m) {
                    Err(e) => r == Err::<Vec<u8>, Error>(e),
                    Ok(s) => r is Ok && r->Ok_0@ == overlaid(s, pending_of(self.overlay@, uuid)),
                },
            },
    {
        self.read_key(path.as_bytes())
    }

    /// The content at a key, pending writes laid over it.
    pub fn read_key(&self, key: &[u8]) -> (r: Result<Vec<u8>, Error>)
        requires
            self.inv(),
            self.geometry_at(key@),
        ensures
            match self.head(key@) {
                Err(e) => r == Err::<Vec<u8>, Error>(e),
                Ok((uuid, _, m)) => match self.full(m) {
                    Err(e) => r == Err::<Vec<u8>, Error>(e),
                    Ok(s) => r is Ok && r->Ok_0@ == overlaid(s, pending_of(self.overlay@, uuid)),
                },
            },
    {
        let (uuid, addr, rec): (Uuid, u64, UnitRecord) = match self.find_head(key) {
            Err(e) => {
                return Err(e);
            },
            Ok(x) => x,
        };
        match self.read_full(&rec) {
            Err(e) => Err(e),
            Ok(s) => {
                let mut out: Vec<u8> = s;
                self.apply_wal_overlay_full(&uuid, &mut out);
                Ok(out)
            },
        }
    }
}

/// Position `i` lies in fragment `f`.
pub proof fn lemma_in_fragment(i: int, f: int, fs: int)
    requires
        fs >= 1,
        f * fs <= i < f * fs + fs,
    ensures
        i / fs == f,
        i % fs == i - f * fs,
{
    vstd::arithmetic::div_mod::lemma_fundamental_div_mod_converse(i, fs, f, i - f * fs);
}

/// The last position of a stream lies in its last fragment.
pub proof fn lemma_last_fragment(sm: StreamModel, i: int)
    requires
        sm.geometry_ok(),
        0 <= i < sm.size(),
    ensures
        0 <= i / frag_bytes(sm.fragsize_exp) as int,
        i / frag_bytes(sm.fragsize_exp) as int <= sm.n() - 1,
        i < sm.n() * frag_bytes(sm.fragsize_exp),
{
    lemma_frag_bytes(sm.fragsize_exp);
    let fs = frag_bytes(sm.fragsize_exp) as int;
    let n = sm.n() as int;
    assert(i < n * fs) by (nonlinear_arith)
        requires
            i < (n - 1) * fs + sm.last_frag_length,
            sm.last_frag_length <= fs,
    ;
    assert(0 <= i / fs <= n - 1) by (nonlinear_arith)
        requires
            0 <= i < n * fs,
            fs >= 1,
    ;
}

impl<C: Crypto> Engine<C> {
    /// The first fragment from `f` to `end` that is not there, or whose suite
    /// is unknown, decides the error.
    pub open spec fn range_error(&self, r: RecordModel, f: int, end: int) -> Option<Error>
        decreases end + 1 - f,
    {
        if f > end {
            None
        } else if !Self::hole_at(r, f) && stored_at(self.slots(), r.stream().locations[f])
            is None {
            Some(Error::Integrity)
        } else if !Self::hole_at(r, f) && !C::known(self.suite(r, f)) {
            Some(Error::Crypto)
        } else {
            self.range_error(r, f + 1, end)
        }
    }

    /// Reading `len` bytes of a record's content from `offset` on, cut at its
    /// end.
    pub open spec fn range(&self, r: RecordModel, offset: int, len: int) -> Result<
        Seq<u8>,
        Error,
    > {
        let size = r.stream().size() as int;
        let fs = frag_bytes(r.stream().fragsize_exp) as int;
        if len == 0 || offset >= size {
            Ok(Seq::empty())
        } else {
            let to = if offset + len <= size {
                offset + len
            } else {
                size
            };
            match self.range_error(r, offset / fs, (to - 1) / fs) {
                Some(e) => Err(e),
                None => if forall|f: int|
                    offset / fs <= f <= (to - 1) / fs ==> #[trigger] self.readable(r, f) {
                    Ok(self.contents(r).subrange(offset, to))
                } else {
                    Err(Error::Crypto)
                },
            }
        }
    }

    fn check_range(&self, rec: &UnitRecord, sm: &StreamMeta, start: usize, end: usize) -> (r: Result<
        (),
        Error,
    >)
        requires
            rec@.content == Some(sm@),
            sm@.locations.len() == sm@.unit_map.len(),
            start <= end < sm@.n(),
        ensures
            r == match self.range_error(rec@, start as int, end as int) {
                Some(e) => Err::<(), Error>(e),
                None => Ok::<(), Error>(()),
            },
    {
        let n: usize = sm.unit_map.len();
        let mut f: usize = start;
        while f <= end
            invariant
                rec@.content == Some(sm@),
                sm@.locations.len() == sm@.unit_map.len(),
                n == sm@.n(),
                start <= f <= end + 1,
                end < sm@.n(),
                self.range_error(rec@, start as int, end as int) == self.range_error(
                    rec@,
                    f as int,
                    end as int,
                ),
            decreases end + 1 - f,
        {
            let loc: BlockLoc = sm.locations[f];
            if !is_hole(loc) {
                match self.disk.blocks.get(loc.addr) {
                    None => {
                        return Err(Error::Integrity);
                    },
                    Some(b) => {
                        if b.len() as u64 != loc.len as u64 {
                            return Err(Error::Integrity);
                        }
                    },
                }
                if !C::is_known(self.content_frag_suite_id(rec, f)) {
                    return Err(Error::Crypto);
                }
            }
            f = f + 1;
        }
        Ok(())
    }

    /// A fragment that passed the range check fails to open with a crypto error.
    proof fn lemma_range_error(&self, r: RecordModel, start: int, end: int, f: int)
        requires
            start <= f <= end,
            self.range_error(r, start, end) is None,
            !self.readable(r, f),
        ensures
            self.frag(r, f) == Err::<Seq<u8>, Error>(Error::Crypto),
        decreases end + 1 - start,
    {
        if start < f {
            self.lemma_range_error(r, start + 1, end, f);
        }
    }

    /// Appends bytes `from` to `upto` of fragment `f`, zeros where it has none.
    pub fn append_part(
        &self,
        rec: &UnitRecord,
        sm: &StreamMeta,
        f: usize,
        from: usize,
        upto: usize,
        out: &mut Vec<u8>,
    ) -> (r: Result<(), Error>)
        requires
            rec@.content == Some(sm@),
            sm@.geometry_ok(),
            f < sm@.n(),
            from <= upto,
        ensures
            r is Ok <==> self.readable(rec@, f as int),
            r is Err ==> self.frag(rec@, f as int) == Err::<Seq<u8>, Error>(r->Err_0),
            r is Ok ==> final(out)@ == old(out)@ + Seq::new(
                (upto - from) as nat,
                |j: int| byte_or_zero(self.plain(rec@, f as int), from + j),
            ),
    {
        let ghost add = Seq::new(
            (upto - from) as nat,
            |j: int| byte_or_zero(self.plain(rec@, f as int), from + j),
        );
        if is_hole(sm.locations[f]) {
            push_zeros(out, upto - from);
            proof {
                assert(out@ =~= old(out)@ + add);
            }
            return Ok(());
        }
        let plain: Vec<u8> = match self.read_frag_of(rec, sm, f) {
            Err(e) => {
                return Err(e);
            },
            Ok(p) => p,
        };
        let filled: usize = if upto <= plain.len() {
            upto
        } else {
            plain.len()
        };
        if from < filled {
            push_range(out, plain.as_slice(), from, filled);
            push_zeros(out, upto - filled);
        } else {
            push_zeros(out, upto - from);
        }
        proof {
            assert(out@ =~= old(out)@ + add);
        }
        Ok(())
    }

    /// Reads a range of a record's content, without pending writes.
    pub fn read_range(&self, rec: &UnitRecord, offset: u64, len: usize) -> (r: Result<
        Vec<u8>,
        Error,
    >)
        requires
            rec@.stream().geometry_ok(),
        ensures
            match self.range(rec@, offset as int, len as int) {
                Ok(s) => r is Ok && r->Ok_0@ == s,
                Err(e) => r == Err::<Vec<u8>, Error>(e),
            },
    {
        let mut out: Vec<u8> = Vec::new();
        proof {
            assert(out@ =~= Seq::<u8>::empty());
        }
        if len == 0 {
            return Ok(out);
        }
        let sm: &StreamMeta = match &rec.content {
            None => {
                return Ok(out);
            },
            Some(sm) => sm,
        };
        let size: u64 = stream_byte_len(sm);
        if offset >= size {
            return Ok(out);
        }
        let fs: u64 = fragsize(sm.fragsize_exp);
        let available: u64 = size - offset;
        let take: u64 = if (len as u64) <= available {
            len as u64
        } else {
            available
        };
        let to: u64 = offset + take;
        let ghost gfs = fs as int;
        proof {
            lemma_last_fragment(sm@, offset as int);
            lemma_last_fragment(sm@, to - 1);
            assert(offset as int / gfs <= (to - 1) / gfs) by (nonlinear_arith)
                requires
                    offset as int <= to - 1,
                    gfs >= 1,
            ;
        }
        let start: usize = (offset / fs) as usize;
        let end: usize = ((to - 1) / fs) as usize;
        match self.check_range(rec, sm, start, end) {
            Err(e) => {
                return Err(e);
            },
            Ok(()) => {},
        }
        let mut f: usize = start;
        let ghost mut pos: int = offset as int;
        while f <= end
            invariant
                rec@.content == Some(sm@),
                sm@.geometry_ok(),
                fs == frag_bytes(sm.fragsize_exp),
                gfs == fs,
                1 <= fs <= 0x8000_0000,
                start <= f <= end + 1,
                end < sm@.n(),
                start == offset as int / gfs,
                end == (to - 1) / gfs,
                offset < to <= sm@.size(),
                to < 0x8000_0000_0000_0000,
                len > 0,
                to == if offset + len <= sm@.size() {
                    offset + len
                } else {
                    sm@.size() as int
                },
                self.range_error(rec@, start as int, end as int) is None,
                pos == if f == start {
                    offset as int
                } else if f <= end {
                    f * gfs
                } else {
                    to as int
                },
                offset <= pos <= to,
                out@.len() == pos - offset,
                forall|k: int|
                    0 <= k < out@.len() ==> #[trigger] out@[k] == self.byte(rec@, offset + k),
                forall|g: int| start <= g < f ==> #[trigger] self.readable(rec@, g),
            decreases end + 1 - f,
        {
            let ghost gf = f as int;
            proof {
                lemma_last_fragment(sm@, to - 1);
                assert(gf * gfs <= to - 1) by (nonlinear_arith)
                    requires
                        gf <= (to - 1) / gfs,
                        gfs >= 1,
                        to >= 1,
                ;
                if f == start {
                    assert(gf * gfs <= offset as int && offset as int <= gf * gfs + gfs - 1)
                        by (nonlinear_arith)
                        requires
                            gf == offset as int / gfs,
                            gfs >= 1,
                    ;
                }
            }
            let frag_start: u64 = f as u64 * fs;
            let from: u64 = if offset >= frag_start {
                offset - frag_start
            } else {
                0
            };
            let upto: u64 = if to - frag_start <= fs {
                to - frag_start
            } else {
                fs
            };
            proof {
                assert(pos == frag_start + from);
                assert(from <= upto);
            }
            let ghost before = out@;
            let ghost p = self.plain(rec@, f as int);
            match self.append_part(rec, sm, f, from as usize, upto as usize, &mut out) {
                Err(e) => {
                    proof {
                        self.lemma_range_error(rec@, start as int, end as int, f as int);
                    }
                    return Err(e);
                },
                Ok(()) => {},
            }
            proof {
                assert(out@.len() == before.len() + (upto - from));
                assert forall|k: int| 0 <= k < out@.len() implies #[trigger] out@[k] == self.byte(
                    rec@,
                    offset + k,
                ) by {
                    if k < before.len() {
                        assert(out@[k] == before[k]);
                    } else {
                        let i = offset + k;
                        assert(i == frag_start + from + (k - before.len()));
                        lemma_in_fragment(i, gf, gfs);
                        assert(out@[k] == byte_or_zero(p, i - frag_start));
                    }
                }
                pos = frag_start + upto;
                if f < end {
                    assert(gf + 1 <= (to - 1) / gfs);
                    assert((gf + 1) * gfs <= to - 1) by (nonlinear_arith)
                        requires
                            gf + 1 <= (to - 1) / gfs,
                            gfs >= 1,
                            to >= 1,
                    ;
                    assert((gf + 1) * gfs == gf * gfs + gfs) by (nonlinear_arith);
                } else {
                    assert(to - 1 < gf * gfs + gfs) by (nonlinear_arith)
                        requires
                            gf == (to - 1) / gfs,
                            gfs >= 1,
                            to >= 1,
                    ;
                }
            }
            f = f + 1;
        }
        proof {
            assert(out@ =~= self.contents(rec@).subrange(offset as int, to as int));
        }
        Ok(out)
    }

    /// Two engines with the same slots, key, epoch and metadata suite read the
    /// same.
    pub open spec fn same_reads(a: &Self, b: &Self) -> bool {
        &&& a.slots() == b.slots()
        &&& a.root_key == b.root_key
        &&& a.header.key_epoch == b.header.key_epoch
        &&& a.header.cipher == b.header.cipher
    }

    pub proof fn lemma_same_range_error(a: &Self, b: &Self, r: RecordModel, f: int, end: int)
        requires
            Self::same_reads(a, b),
        ensures
            a.range_error(r, f, end) == b.range_error(r, f, end),
        decreases end + 1 - f,
    {
        if f <= end {
            Self::lemma_same_range_error(a, b, r, f + 1, end);
        }
    }

    pub proof fn lemma_same_range(a: &Self, b: &Self, r: RecordModel, offset: int, len: int)
        requires
            Self::same_reads(a, b),
        ensures
            a.range(r, offset, len) == b.range(r, offset, len),
    {
        let size = r.stream().size() as int;
        let fs = frag_bytes(r.stream().fragsize_exp) as int;
        assert forall|f: int| #[trigger] a.readable(r, f) == b.readable(r, f) by {}
        assert forall|f: int| #[trigger] b.readable(r, f) == a.readable(r, f) by {}
        Self::lemma_same_contents(a, b, r);
        if !(len == 0 || offset >= size) {
            let to = if offset + len <= size {
                offset + len
            } else {
                size
            };
            Self::lemma_same_range_error(a, b, r, offset / fs, (to - 1) / fs);
        }
    }

    pub proof fn lemma_same_contents(a: &Self, b: &Self, r: RecordModel)
        requires
            Self::same_reads(a, b),
        ensures
            a.contents(r) == b.contents(r),
    {
        assert(a.contents(r) =~= b.contents(r));
    }

    /// A record whose slots are untouched reads as before.
    pub proof fn lemma_reads_kept(o: &Self, e: &Self, r: RecordModel)
        requires
            o.root_key == e.root_key,
            o.header.key_epoch == e.header.key_epoch,
            o.header.cipher == e.header.cipher,
            r.stream().geometry_ok(),
            forall|f: int|
                0 <= f < r.stream().n() ==> (#[trigger] r.stream().locations[f]).addr
                    <= o.slots().len(),
            o.slots().len() <= e.slots().len(),
            forall|f: int|
                0 <= f < r.stream().n() && (#[trigger] r.stream().locations[f]).addr != 0
                    ==> e.slots()[r.stream().locations[f].addr - 1]
                    == o.slots()[r.stream().locations[f].addr - 1],
        ensures
            forall|f: int| 0 <= f < r.stream().n() ==> #[trigger] e.frag(r, f) == o.frag(r, f),
            forall|f: int|
                0 <= f < r.stream().n() ==> #[trigger] e.readable(r, f) == o.readable(r, f),
            forall|f: int|
                0 <= f < r.stream().n() ==> #[trigger] e.plain(r, f) == o.plain(r, f),
            e.contents(r) == o.contents(r),
    {
        let sm = r.stream();
        assert forall|f: int| 0 <= f < sm.n() implies #[trigger] e.frag(r, f) == o.frag(
            r,
            f,
        ) by {
            let loc = sm.locations[f];
            assert(stored_at(e.slots(), loc) == stored_at(o.slots(), loc));
        }
        assert forall|f: int| 0 <= f < sm.n() implies #[trigger] e.plain(r, f) == o.plain(
            r,
            f,
        ) by {
            assert(e.frag(r, f) == o.frag(r, f));
        }
        assert forall|f: int| 0 <= f < sm.n() implies #[trigger] e.readable(r, f) == o.readable(
            r,
            f,
        ) by {
            assert(e.frag(r, f) == o.frag(r, f));
        }
        let fs = frag_bytes(sm.fragsize_exp) as int;
        assert forall|i: int| 0 <= i < sm.size() implies #[trigger] e.byte(r, i) == o.byte(r, i) by {
            lemma_last_fragment(sm, i);
            assert(e.plain(r, i / fs) == o.plain(r, i / fs));
        }
        assert(e.contents(r) =~= o.contents(r));
    }

    pub proof fn lemma_same_pieces(a: &Self, b: &Self, r: RecordModel, n: nat)
        requires
            Self::same_reads(a, b),
        ensures
            a.pieces(r, n) == b.pieces(r, n),
        decreases n,
    {
        if n > 0 {
            Self::lemma_same_pieces(a, b, r, (n - 1) as nat);
        }
    }

    /// The record that a ranged read of `key` works on: the cached head, or the
    /// head once its signature is checked.
    pub open spec fn cached_head(&self, key: Seq<u8>) -> Result<(Uuid, RecordModel), Error> {
        match self.head_at(key) {
            Err(e) => Err(e),
            Ok((uuid, addr)) => if exists|i: int|
                cached_at(self.record_cache@, uuid, i) && self.record_cache@[i].addr == addr {
                Ok((uuid, self.recs()[addr - 1]))
            } else {
                match self.record(addr) {
                    Err(e) => Err(e),
                    Ok(r) => Ok((uuid, r)),
                }
            },
        }
    }

    /// The record of unit `uuid` at `addr` is cached.
    pub open spec fn cache_has(&self, uuid: Uuid, addr: u64) -> bool {
        exists|i: int|
            cached_at(self.record_cache@, uuid, i) && self.record_cache@[i].addr == addr
    }

    /// Whether a ranged read of `key` finds the head in the cache.
    pub open spec fn cache_hit(&self, key: Seq<u8>) -> bool {
        self.head_at(key) is Ok && self.cache_has(
            self.head_at(key)->Ok_0.0,
            self.head_at(key)->Ok_0.1,
        )
    }

    /// How many head records were decoded once the one at `addr` was needed; the
    /// count starts over at the end of its range.
    pub open spec fn decodes_after(&self, uuid: Uuid, addr: u64) -> u64 {
        if self.cache_has(uuid, addr) {
            self.decode_count
        } else if self.decode_count == u64::MAX {
            0
        } else {
            (self.decode_count + 1) as u64
        }
    }

    /// Up to `len` bytes of the content at `path` from `offset` on, pending
    /// writes laid over them. The head record is decoded at most once, and not
    /// at all where it is cached.
    pub fn read_at(&mut self, path: &str, offset: u64, len: usize) -> (r: Result<Vec<u8>, Error>)
        requires
            old(self).inv(),
            old(self).cached_head(path.spec_bytes()) is Ok ==> {
                &&& old(self).cached_head(path.spec_bytes())->Ok_0.1.stream().geometry_ok()
                &&& pending_of(
                    old(self).overlay@,
                    old(self).cached_head(path.spec_bytes())->Ok_0.0,
                ).len() > 0 ==> offset + len <= u64::MAX
            },
        ensures
            final(self).inv(),
            old(self).recoverable() ==> final(self).recoverable(),
            *final(self) == (Engine {
                record_cache: final(self).record_cache,
                decode_count: final(self).decode_count,
                ..*old(self)
            }),
            final(self).decode_count == if old(self).cached_head(path.spec_bytes()) is Err {
                old(self).decode_count
            } else {
                old(self).decodes_after(
                    old(self).head_at(path.spec_bytes())->Ok_0.0,
                    old(self).head_at(path.spec_bytes())->Ok_0.1,
                )
            },
            old(self).cached_head(path.spec_bytes()) is Ok ==> final(self).cache_hit(path.spec_bytes()),
            match old(self).cached_head(path.spec_bytes()) {
                Err(e) => r == Err::<Vec<u8>, Error>(e),
                Ok((uuid, m)) => match old(self).range(m, offset as int, len as int) {
                    Err(e) => r == Err::<Vec<u8>, Error>(e),
                    Ok(s) => r is Ok && r->Ok_0@ == if len == 0 {
                        s
                    } else {
                        overlaid_window(
                            s,
                            pending_of(old(self).overlay@, uuid),
                            offset as int,
                            offset + len,
                        )
                    },
                },
            },
    {
        self.read_at_key(path.as_bytes(), offset, len)
    }

    /// As `read_at`, for a key.
    pub fn read_at_key(&mut self, key: &[u8], offset: u64, len: usize) -> (r: Result<Vec<u8>, Error>)
        requires
            old(self).inv(),
            old(self).cached_head(key@) is Ok ==> {
                &&& old(self).cached_head(key@)->Ok_0.1.stream().geometry_ok()
                &&& pending_of(
                    old(self).overlay@,
                    old(self).cached_head(key@)->Ok_0.0,
                ).len() > 0 ==> offset + len <= u64::MAX
            },
        ensures
            final(self).inv(),
            old(self).recoverable() ==> final(self).recoverable(),
            *final(self) == (Engine {
                record_cache: final(self).record_cache,
                decode_count: final(self).decode_count,
                ..*old(self)
            }),
            final(self).decode_count == if old(self).cached_head(key@) is Err {
                old(self).decode_count
            } else {
                old(self).decodes_after(
                    old(self).head_at(key@)->Ok_0.0,
                    old(self).head_at(key@)->Ok_0.1,
                )
            },
            old(self).cached_head(key@) is Ok ==> final(self).cache_hit(key@),
            match old(self).cached_head(key@) {
                Err(e) => r == Err::<Vec<u8>, Error>(e),
                Ok((uuid, m)) => match old(self).range(m, offset as int, len as int) {
                    Err(e) => r == Err::<Vec<u8>, Error>(e),
                    Ok(s) => r is Ok && r->Ok_0@ == if len == 0 {
                        s
                    } else {
                        overlaid_window(
                            s,
                            pending_of(old(self).overlay@, uuid),
                            offset as int,
                            offset + len,
                        )
                    },
                },
            },
    {
        let (uuid, addr): (Uuid, u64) = match self.locate(key) {
            Err(e) => {
                return Err(e);
            },
            Ok(x) => x,
        };
        let ghost before = self.record_cache@;
        let cached: Option<UnitRecord> = self.record_cache.get(&uuid, addr);
        proof {
            let c = self.record_cache@;
            assert(cache_ok(c, self.recs())) by {
                assert forall|i: int| 0 <= i < c.len() implies in_heap(
                    self.recs(),
                    (#[trigger] c[i]).addr,
                ) && self.recs()[c[i].addr - 1] == c[i].rec by {
                    assert(c.len() == before.len());
                    assert(in_heap(self.recs(), before[i].addr));
                    assert(c[i].addr == before[i].addr && c[i].rec == before[i].rec);
                }
            }
        }
        let rec: UnitRecord = match cached {
            Some(rec) => {
                proof {
                    let i = choose|i: int|
                        cached_at(before, uuid, i) && before[i].addr == addr && rec@
                            == before[i].rec;
                    assert(in_heap(self.recs(), before[i].addr));
                    assert(cached_at(self.record_cache@, uuid, i));
                }
                rec
            },
            None => {
                let rec: UnitRecord = match self.read_record_at(addr) {
                    Err(e) => {
                        return Err(e);
                    },
                    Ok(rec) => rec,
                };
                self.decode_count = if self.decode_count == u64::MAX {
                    0
                } else {
                    self.decode_count + 1
                };
                let kept: UnitRecord = rec.clone();
                let ghost mid = self.record_cache@;
                self.record_cache.put(&uuid, addr, kept);
                proof {
                    let c = self.record_cache@;
                    assert forall|i: int| 0 <= i < c.len() implies in_heap(
                        self.recs(),
                        (#[trigger] c[i]).addr,
                    ) && self.recs()[c[i].addr - 1] == c[i].rec by {
                        if c[i].addr == addr && c[i].rec == rec@ {
                        } else {
                            assert(exists|j: int| 0 <= j < mid.len() && mid[j] == c[i]);
                            let j = choose|j: int| 0 <= j < mid.len() && mid[j] == c[i];
                            assert(in_heap(self.recs(), mid[j].addr));
                        }
                    }
                    if is_cached(mid, uuid) {
                        let i = choose|i: int| #[trigger]
                            cached_at(mid, uuid, i) && c == mid.update(
                                i,
                                (CacheModel {
                                    uuid,
                                    addr,
                                    rec: rec@,
                                    last: self.record_cache.now(),
                                }),
                            );
                        assert(cached_at(c, uuid, i));
                    } else {
                        assert(cached_at(c, uuid, c.len() - 1));
                    }
                }
                rec
            },
        };
        proof {
            assert(rec@ == self.recs()[addr - 1]);
            assert(rec@.uuid == uuid);
        }
        proof {
            Self::lemma_same_range(&*self, old(self), rec@, offset as int, len as int);
        }
        match self.read_range(&rec, offset, len) {
            Err(e) => Err(e),
            Ok(s) => {
                let mut out: Vec<u8> = s;
                if len > 0 {
                    self.apply_wal_overlay_partial(&uuid, &mut out, offset, len);
                }
                Ok(out)
            },
        }
    }

    /// How many head records ranged reads had to decode.
    pub fn unit_record_decode_count(&self) -> (n: u64)
        ensures
            n == self.decode_count,
    {
        self.decode_count
    }

    /// Counts decoded head records from zero again.
    pub fn reset_unit_record_decode_count(&mut self)
        requires
            old(self).inv(),
        ensures
            final(self).inv(),
            old(self).recoverable() ==> final(self).recoverable(),
            *final(self) == (Engine { decode_count: 0, ..*old(self) }),
    {
        self.decode_count = 0;
    }
}

} // verus!
