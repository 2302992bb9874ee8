//! Unit records: the streams of a unit, its lineage and its signed part.
use vstd::prelude::*;

use crate::block::{bit_set, bitmap_clear_bit, bitmap_get_bit, frag_bytes, fragsize, lemma_frag_bytes};
use crate::bytes::{
    array16, copy_range, le, lemma_le_len, lemma_pow256_values, lemma_un_le_of_le, push_all,
    push_le, read_le, take16, un_le,
};
use crate::error::Error;
use crate::vector::{lemma_vv_body_len, vv_bytes, VersionVector};

verus! {

/// The identity of a unit.
pub type Uuid = [u8; 16];

/// Where a stored block lies and how long it is. Address zero with length zero
/// is a hole: nothing is stored.
#[derive(Clone, Copy, Debug, PartialEq, Eq, Structural)]
pub struct BlockLoc {
    pub addr: u64,
    pub len: u32,
}

/// The location of nothing.
pub open spec fn hole() -> BlockLoc {
    BlockLoc { addr: 0, len: 0 }
}

/// Whether nothing is stored at `loc`.
pub fn is_hole(loc: BlockLoc) -> (r: bool)
    ensures
        r == (loc == hole()),
{
    loc.addr == 0 && loc.len == 0
}

/// Which fragments of a stream are unchanged since a commit.
#[derive(Debug, PartialEq, Eq)]
pub struct CommitBitmap {
    pub commit: Uuid,
    pub bits: Vec<u8>,
}

/// A [`CommitBitmap`] as a value.
pub struct PinModel {
    pub commit: Uuid,
    pub bits: Seq<u8>,
}

impl View for CommitBitmap {
    type V = PinModel;

    open spec fn view(&self) -> PinModel {
        PinModel { commit: self.commit, bits: self.bits@ }
    }
}

impl Clone for CommitBitmap {
    fn clone(&self) -> (r: Self)
        ensures
            r@ == self@,
    {
        let bits: Vec<u8> = copy_range(self.bits.as_slice(), 0, self.bits.len());
        proof {
            assert(bits@ =~= self.bits@);
        }
        CommitBitmap { commit: self.commit, bits }
    }
}

/// One stream of a unit: its fragments and its causal clock.
#[derive(Debug, PartialEq, Eq)]
pub struct StreamMeta {
    /// The version of each fragment.
    pub unit_map: Vec<u64>,
    /// Where each fragment is stored.
    pub locations: Vec<BlockLoc>,
    /// The writes that the stream has seen.
    pub vv: VersionVector,
    /// A full fragment holds two to this power bytes.
    pub fragsize_exp: u8,
    /// The logical length of the last fragment.
    pub last_frag_length: u32,
    /// The commits that pin fragments of the stream.
    pub pins: Vec<CommitBitmap>,
}

/// A [`StreamMeta`] as a value.
#[verifier::ext_equal]
pub struct StreamModel {
    pub unit_map: Seq<u64>,
    pub locations: Seq<BlockLoc>,
    pub vv: Seq<(u16, u64)>,
    pub fragsize_exp: u8,
    pub last_frag_length: u32,
    pub pins: Seq<PinModel>,
}

/// The pins of a stream as values.
pub open spec fn pins_view(pins: Seq<CommitBitmap>) -> Seq<PinModel> {
    Seq::new(pins.len(), |i: int| pins[i]@)
}

impl View for StreamMeta {
    type V = StreamModel;

    open spec fn view(&self) -> StreamModel {
        StreamModel {
            unit_map: self.unit_map@,
            locations: self.locations@,
            vv: self.vv@,
            fragsize_exp: self.fragsize_exp,
            last_frag_length: self.last_frag_length,
            pins: pins_view(self.pins@),
        }
    }
}

impl StreamModel {
    /// The number of fragments.
    pub open spec fn n(self) -> nat {
        self.unit_map.len()
    }

    /// The logical byte length.
    pub open spec fn size(self) -> nat {
        if self.n() == 0 {
            0
        } else {
            ((self.n() - 1) * frag_bytes(self.fragsize_exp) + self.last_frag_length) as nat
        }
    }

    /// Every fragment has a location, and the sizes are ones that 32-bit
    /// fragment numbers and lengths describe.
    pub open spec fn geometry_ok(self) -> bool {
        &&& self.locations.len() == self.unit_map.len()
        &&& self.fragsize_exp <= 31
        &&& self.n() > 0 ==> self.last_frag_length <= frag_bytes(self.fragsize_exp)
        &&& self.n() <= u32::MAX
    }

    /// The largest version of any fragment, zero without fragments.
    pub open spec fn max_version(self) -> u64 {
        seq_max(self.unit_map)
    }
}

/// The largest element, zero for none.
pub open spec fn seq_max(s: Seq<u64>) -> u64
    decreases s.len(),
{
    if s.len() == 0 {
        0
    } else {
        let m = seq_max(s.drop_last());
        if s.last() > m {
            s.last()
        } else {
            m
        }
    }
}

/// A maximum is an element and no element exceeds it.
pub proof fn lemma_seq_max(s: Seq<u64>)
    ensures
        forall|i: int| 0 <= i < s.len() ==> #[trigger] s[i] <= seq_max(s),
        s.len() > 0 ==> exists|i: int| 0 <= i < s.len() && s[i] == seq_max(s),
    decreases s.len(),
{
    if s.len() > 0 {
        lemma_seq_max(s.drop_last());
        assert forall|i: int| 0 <= i < s.len() implies #[trigger] s[i] <= seq_max(s) by {
            if i < s.len() - 1 {
                assert(s.drop_last()[i] <= seq_max(s.drop_last()));
            }
        }
        if s.last() <= seq_max(s.drop_last()) && s.len() > 1 {
            let i = choose|i: int|
                0 <= i < s.drop_last().len() && s.drop_last()[i] == seq_max(s.drop_last());
            assert(s[i] == seq_max(s));
        } else {
            assert(s[s.len() - 1] == seq_max(s));
        }
    }
}

pub fn max_of(v: &Vec<u64>) -> (m: u64)
    ensures
        m == seq_max(v@),
{
    let mut m: u64 = 0;
    let mut i: usize = 0;
    while i < v.len()
        invariant
            i <= v.len(),
            m == seq_max(v@.take(i as int)),
        decreases v.len() - i,
    {
        proof {
            assert(v@.take(i + 1).drop_last() =~= v@.take(i as int));
        }
        if v[i] > m {
            m = v[i];
        }
        i = i + 1;
    }
    proof {
        assert(v@.take(i as int) =~= v@);
    }
    m
}

pub fn copy_u64s(v: &Vec<u64>) -> (r: Vec<u64>)
    ensures
        r@ == v@,
{
    let mut r: Vec<u64> = Vec::new();
    let mut i: usize = 0;
    while i < v.len()
        invariant
            i <= v.len(),
            r@ == v@.take(i as int),
        decreases v.len() - i,
    {
        r.push(v[i]);
        i = i + 1;
        proof {
            assert(r@ =~= v@.take(i as int));
        }
    }
    proof {
        assert(r@ =~= v@);
    }
    r
}

pub fn copy_bytes(v: &Vec<u8>) -> (r: Vec<u8>)
    ensures
        r@ == v@,
{
    let r: Vec<u8> = copy_range(v.as_slice(), 0, v.len());
    proof {
        assert(r@ =~= v@);
    }
    r
}

pub fn copy_locs(v: &Vec<BlockLoc>) -> (r: Vec<BlockLoc>)
    ensures
        r@ == v@,
{
    let mut r: Vec<BlockLoc> = Vec::new();
    let mut i: usize = 0;
    while i < v.len()
        invariant
            i <= v.len(),
            r@ == v@.take(i as int),
        decreases v.len() - i,
    {
        r.push(v[i]);
        i = i + 1;
        proof {
            assert(r@ =~= v@.take(i as int));
        }
    }
    proof {
        assert(r@ =~= v@);
    }
    r
}

pub fn copy_pins(v: &Vec<CommitBitmap>) -> (r: Vec<CommitBitmap>)
    ensures
        pins_view(r@) == pins_view(v@),
{
    let mut r: Vec<CommitBitmap> = Vec::new();
    let mut i: usize = 0;
    while i < v.len()
        invariant
            i <= v.len(),
            r.len() == i,
            forall|k: int| 0 <= k < i ==> (#[trigger] r@[k])@ == v@[k]@,
        decreases v.len() - i,
    {
        r.push(v[i].clone());
        i = i + 1;
    }
    proof {
        assert(pins_view(r@) =~= pins_view(v@));
    }
    r
}

impl Clone for StreamMeta {
    fn clone(&self) -> (r: Self)
        ensures
            r@ == self@,
    {
        StreamMeta {
            unit_map: copy_u64s(&self.unit_map),
            locations: copy_locs(&self.locations),
            vv: self.vv.clone(),
            fragsize_exp: self.fragsize_exp,
            last_frag_length: self.last_frag_length,
            pins: copy_pins(&self.pins),
        }
    }
}

/// A stream without fragments.
pub open spec fn empty_stream() -> StreamModel {
    StreamModel {
        unit_map: Seq::empty(),
        locations: Seq::empty(),
        vv: Seq::empty(),
        fragsize_exp: 12,
        last_frag_length: 0,
        pins: Seq::empty(),
    }
}

/// The content stream of a fresh unit.
pub fn empty_content_stream() -> (r: StreamMeta)
    ensures
        r@ == empty_stream(),
{
    let r: StreamMeta = StreamMeta {
        unit_map: Vec::new(),
        locations: Vec::new(),
        vv: VersionVector::new(),
        fragsize_exp: crate::block::FRAGSIZE_FLOOR_EXP,
        last_frag_length: 0,
        pins: Vec::new(),
    };
    proof {
        assert(r@ =~= empty_stream());
    }
    r
}

/// Tests that the geometry of a stream can be worked with.
pub fn geometry_holds(sm: &StreamMeta) -> (r: bool)
    ensures
        r == sm@.geometry_ok(),
{
    let n: usize = sm.unit_map.len();
    if sm.locations.len() != n || sm.fragsize_exp > 31 || n as u64 > u32::MAX as u64 {
        return false;
    }
    n == 0 || sm.last_frag_length as u64 <= fragsize(sm.fragsize_exp)
}

/// The logical byte length of a stream.
pub fn stream_byte_len(sm: &StreamMeta) -> (r: u64)
    requires
        sm@.geometry_ok(),
    ensures
        r == sm@.size(),
        r < 0x8000_0000_0000_0000,
{
    let n: usize = sm.unit_map.len();
    if n == 0 {
        return 0;
    }
    let fs: u64 = fragsize(sm.fragsize_exp);
    proof {
        lemma_size_bound(sm@);
        assert((n - 1) * fs <= 0xffff_fffe * 0x8000_0000) by (nonlinear_arith)
            requires
                1 <= n <= 0xffff_ffff,
                1 <= fs <= 0x8000_0000,
        ;
    }
    (n as u64 - 1) * fs + sm.last_frag_length as u64
}

pub proof fn lemma_size_bound(sm: StreamModel)
    requires
        sm.geometry_ok(),
    ensures
        sm.size() < 0x8000_0000_0000_0000,
{
    lemma_frag_bytes(sm.fragsize_exp);
    if sm.n() > 0 {
        let n = sm.n();
        let fs = frag_bytes(sm.fragsize_exp);
        assert((n - 1) * fs <= 0xffff_fffe * 0x8000_0000) by (nonlinear_arith)
            requires
                1 <= n <= 0xffff_ffff,
                1 <= fs <= 0x8000_0000,
        ;
    }
}

/// `sm` with holes of version zero added up to `count` fragments.
pub open spec fn grown(sm: StreamModel, count: nat) -> StreamModel {
    if count <= sm.n() {
        sm
    } else {
        StreamModel {
            unit_map: sm.unit_map + Seq::new((count - sm.n()) as nat, |i: int| 0u64),
            locations: sm.locations + Seq::new((count - sm.n()) as nat, |i: int| hole()),
            ..sm
        }
    }
}

/// Grows a stream with holes to `new_count` fragments; it never shrinks.
pub fn grow_stream(sm: &mut StreamMeta, new_count: usize)
    requires
        old(sm)@.locations.len() == old(sm)@.unit_map.len(),
    ensures
        final(sm)@ == grown(old(sm)@, new_count as nat),
{
    let ghost o = sm@;
    proof {
        assert(sm@ =~= grown(o, o.n()));
    }
    while sm.unit_map.len() < new_count
        invariant
            o.locations.len() == o.unit_map.len(),
            sm@ == grown(o, sm@.n()),
            o.n() <= sm@.n(),
            sm@.n() <= new_count || sm@.n() == o.n(),
        decreases new_count - sm.unit_map.len(),
    {
        sm.unit_map.push(0);
        sm.locations.push(BlockLoc { addr: 0, len: 0 });
        proof {
            assert(sm@ =~= grown(o, sm@.n()));
        }
    }
}

/// What a unit is in a document store.
#[derive(Clone, Copy, Debug, PartialEq, Eq, Structural)]
pub enum UnitKind {
    KvRecord,
}

/// The document-store head of a unit: its store, the digest of its primary
/// key, and its kind.
#[derive(Clone, Copy, Debug, PartialEq, Eq)]
pub struct DbHead {
    pub store: Uuid,
    pub pk: [u8; 16],
    pub kind: UnitKind,
}

/// One version of a unit.
#[derive(Debug, PartialEq, Eq)]
pub struct UnitRecord {
    pub uuid: Uuid,
    /// The content; a directory has none.
    pub content: Option<StreamMeta>,
    /// The metadata, if any.
    pub meta: Option<StreamMeta>,
    /// The record this one supersedes.
    pub parent: Option<u64>,
    /// The heads of unresolved concurrent versions.
    pub concurrent_strains: Vec<u64>,
    /// The suite the content is sealed under.
    pub content_suite: Option<u8>,
    /// The suite of each fragment, where they differ.
    pub frag_suites: Vec<u8>,
    pub signature: Option<[u8; 64]>,
    pub db: Option<DbHead>,
    /// The strain heads that a merge resolved.
    pub superseded: Vec<u64>,
}

/// A [`UnitRecord`] as a value.
#[verifier::ext_equal]
pub struct RecordModel {
    pub uuid: Uuid,
    pub content: Option<StreamModel>,
    pub meta: Option<StreamModel>,
    pub parent: Option<u64>,
    pub strains: Seq<u64>,
    pub content_suite: Option<u8>,
    pub frag_suites: Seq<u8>,
    pub signature: Option<[u8; 64]>,
    pub db: Option<DbHead>,
    pub superseded: Seq<u64>,
}

pub open spec fn stream_view(s: Option<StreamMeta>) -> Option<StreamModel> {
    match s {
        Some(sm) => Some(sm@),
        None => None,
    }
}

impl View for UnitRecord {
    type V = RecordModel;

    open spec fn view(&self) -> RecordModel {
        RecordModel {
            uuid: self.uuid,
            content: stream_view(self.content),
            meta: stream_view(self.meta),
            parent: self.parent,
            strains: self.concurrent_strains@,
            content_suite: self.content_suite,
            frag_suites: self.frag_suites@,
            signature: self.signature,
            db: self.db,
            superseded: self.superseded@,
        }
    }
}

impl RecordModel {
    /// The content stream, or an empty one for a unit without content.
    pub open spec fn stream(self) -> StreamModel {
        match self.content {
            Some(sm) => sm,
            None => empty_stream(),
        }
    }

    /// The vector of the content stream, empty without one.
    pub open spec fn content_vv(self) -> Seq<(u16, u64)> {
        self.stream().vv
    }

    /// The vector of the meta stream, empty without one.
    pub open spec fn meta_vv(self) -> Seq<(u16, u64)> {
        match self.meta {
            Some(sm) => sm.vv,
            None => Seq::empty(),
        }
    }
}

impl UnitRecord {
    /// The vector of the content stream, empty without one.
    pub fn vector(&self) -> (r: VersionVector)
        ensures
            r@ == self@.content_vv(),
    {
        match &self.content {
            Some(sm) => sm.vv.clone(),
            None => VersionVector::new(),
        }
    }

    /// The vector of the meta stream, empty without one.
    pub fn meta_vector(&self) -> (r: VersionVector)
        ensures
            r@ == self@.meta_vv(),
    {
        match &self.meta {
            Some(sm) => sm.vv.clone(),
            None => VersionVector::new(),
        }
    }
}

pub fn clone_stream(s: &Option<StreamMeta>) -> (r: Option<StreamMeta>)
    ensures
        stream_view(r) == stream_view(*s),
{
    match s {
        Some(sm) => Some(sm.clone()),
        None => None,
    }
}

impl Clone for UnitRecord {
    fn clone(&self) -> (r: Self)
        ensures
            r@ == self@,
    {
        UnitRecord {
            uuid: self.uuid,
            content: clone_stream(&self.content),
            meta: clone_stream(&self.meta),
            parent: self.parent,
            concurrent_strains: copy_u64s(&self.concurrent_strains),
            content_suite: self.content_suite,
            frag_suites: copy_bytes(&self.frag_suites),
            signature: self.signature,
            db: self.db,
            superseded: copy_u64s(&self.superseded),
        }
    }
}

impl UnitRecord {
    /// A copy of the content stream, or an empty stream.
    pub fn content_or_empty(&self) -> (r: StreamMeta)
        ensures
            r@ == self@.stream(),
    {
        match &self.content {
            Some(sm) => sm.clone(),
            None => empty_content_stream(),
        }
    }

    /// The bytes that a signature of this record covers.
    pub fn signing_payload(&self) -> (out: Vec<u8>)
        ensures
            out@ == payload_of(self@),
    {
        let mut out: Vec<u8> = Vec::new();
        push_all(&mut out, self.uuid.as_slice());
        proof {
            assert(out@ =~= self.uuid@);
        }
        match &self.content {
            None => {
                out.push(0);
                proof {
                    assert(out@ =~= payload_of(self@));
                }
            },
            Some(sm) => {
                out.push(1);
                out.push(sm.fragsize_exp);
                push_le(&mut out, sm.last_frag_length as u64, 4);
                push_le(&mut out, sm.unit_map.len() as u64, 4);
                push_u64s(&mut out, &sm.unit_map);
                let vvb: Vec<u8> = sm.vv.to_bytes();
                push_le(&mut out, vvb.len() as u64, 4);
                push_all(&mut out, vvb.as_slice());
                proof {
                    assert(out@ =~= payload_of(self@));
                }
            },
        }
        out
    }
}

/// The words of `s`, eight little-endian bytes each.
pub open spec fn words(s: Seq<u64>) -> Seq<u8>
    decreases s.len(),
{
    if s.len() == 0 {
        Seq::empty()
    } else {
        words(s.drop_last()) + le(s.last() as nat, 8)
    }
}

pub fn push_u64s(out: &mut Vec<u8>, v: &Vec<u64>)
    ensures
        final(out)@ == old(out)@ + words(v@),
{
    let mut i: usize = 0;
    proof {
        assert(v@.take(0) =~= Seq::empty());
        assert(out@ =~= old(out)@ + words(v@.take(0)));
    }
    while i < v.len()
        invariant
            i <= v.len(),
            out@ == old(out)@ + words(v@.take(i as int)),
        decreases v.len() - i,
    {
        push_le(out, v[i], 8);
        i = i + 1;
        proof {
            assert(v@.take(i as int).drop_last() =~= v@.take(i - 1));
            assert(out@ =~= old(out)@ + words(v@.take(i as int)));
        }
    }
    proof {
        assert(v@.take(i as int) =~= v@);
    }
}

pub proof fn lemma_words_len(s: Seq<u64>)
    ensures
        words(s).len() == s.len() * 8,
    decreases s.len(),
{
    if s.len() > 0 {
        lemma_words_len(s.drop_last());
        lemma_le_len(s.last() as nat, 8);
    }
}

/// The `n` words that start at `off`.
pub open spec fn words_at(buf: Seq<u8>, off: int, n: nat) -> Seq<u64> {
    Seq::new(n, |i: int| un_le(buf.subrange(off + i * 8, off + i * 8 + 8)) as u64)
}

/// Reading words back gives the words.
pub proof fn lemma_words_at(buf: Seq<u8>, off: int, s: Seq<u64>)
    requires
        0 <= off,
        off + s.len() * 8 <= buf.len(),
        buf.subrange(off, off + s.len() * 8) == words(s),
    ensures
        words_at(buf, off, s.len()) == s,
    decreases s.len(),
{
    if s.len() > 0 {
        let p = s.drop_last();
        lemma_words_len(p);
        lemma_words_len(s);
        lemma_le_len(s.last() as nat, 8);
        lemma_pow256_values();
        let w = words(s);
        assert(buf.subrange(off, off + p.len() * 8) =~= words(p)) by {
            assert(buf.subrange(off, off + p.len() * 8) =~= w.subrange(0, p.len() as int * 8));
        }
        lemma_words_at(buf, off, p);
        let l = off + p.len() * 8;
        assert(buf.subrange(l, l + 8) =~= le(s.last() as nat, 8)) by {
            assert(buf.subrange(l, l + 8) =~= w.subrange(p.len() as int * 8, p.len() as int * 8 + 8));
        }
        lemma_un_le_of_le(s.last() as nat, 8);
        assert forall|i: int| 0 <= i < s.len() implies words_at(buf, off, s.len())[i] == s[i] by {
            if i < p.len() {
                assert(words_at(buf, off, p.len())[i] == p[i]);
            } else {
                assert(buf.subrange(off + i * 8, off + i * 8 + 8) =~= buf.subrange(l, l + 8));
            }
        }
    }
    assert(words_at(buf, off, s.len()) =~= s);
}

pub fn read_u64s(buf: &[u8], off: usize, n: usize) -> (r: Vec<u64>)
    requires
        off + n * 8 <= buf.len(),
    ensures
        r@ == words_at(buf@, off as int, n as nat),
{
    let mut r: Vec<u64> = Vec::new();
    let mut i: usize = 0;
    while i < n
        invariant
            i <= n,
            off + n * 8 <= buf.len(),
            r@ == words_at(buf@, off as int, i as nat),
        decreases n - i,
    {
        let w: u64 = read_le(buf, off + i * 8, 8);
        r.push(w);
        i = i + 1;
        proof {
            assert(r@ =~= words_at(buf@, off as int, i as nat));
        }
    }
    proof {
        assert(r@ =~= words_at(buf@, off as int, n as nat));
    }
    r
}

/// The signed part of a record: its identity, then whether it has content,
/// then the geometry, fragment versions and vector of the content. Locations,
/// lineage, strains, suites and metadata are not covered.
pub open spec fn payload_of(r: RecordModel) -> Seq<u8> {
    match r.content {
        None => r.uuid@ + seq![0u8],
        Some(sm) => r.uuid@ + seq![1u8, sm.fragsize_exp] + le(sm.last_frag_length as nat, 4) + le(
            sm.unit_map.len(),
            4,
        ) + words(sm.unit_map) + le(vv_bytes(sm.vv).len(), 4) + vv_bytes(sm.vv),
    }
}

/// The signed fields of a content stream.
#[derive(Debug, PartialEq, Eq)]
pub struct SignedContent {
    pub unit_map: Vec<u64>,
    pub fragsize_exp: u8,
    pub last_frag_length: u32,
    pub vv_bytes: Vec<u8>,
}

/// A [`SignedContent`] as a value.
#[verifier::ext_equal]
pub struct SignedModel {
    pub unit_map: Seq<u64>,
    pub fragsize_exp: u8,
    pub last_frag_length: u32,
    pub vv_bytes: Seq<u8>,
}

impl View for SignedContent {
    type V = SignedModel;

    open spec fn view(&self) -> SignedModel {
        SignedModel {
            unit_map: self.unit_map@,
            fragsize_exp: self.fragsize_exp,
            last_frag_length: self.last_frag_length,
            vv_bytes: self.vv_bytes@,
        }
    }
}

/// What a signing payload says.
#[derive(Debug, PartialEq, Eq)]
pub struct SigningPayload {
    pub uuid: Uuid,
    pub content: Option<SignedContent>,
}

pub open spec fn signed_view(c: Option<SignedContent>) -> Option<SignedModel> {
    match c {
        Some(x) => Some(x@),
        None => None,
    }
}

/// The four-byte number at `off`.
pub open spec fn num4(buf: Seq<u8>, off: int) -> nat {
    un_le(buf.subrange(off, off + 4))
}

/// What the bytes of a signing payload say; `None` for bytes that are none.
pub open spec fn payload_parse(buf: Seq<u8>) -> Option<(Uuid, Option<SignedModel>)> {
    if buf.len() < 17 {
        None
    } else if buf[16] == 0 {
        if buf.len() == 17 {
            Some((array16(buf.subrange(0, 16)), None))
        } else {
            None
        }
    } else if buf[16] != 1 || buf.len() < 26 {
        None
    } else {
        let n = num4(buf, 22);
        let vo: int = 26 + n as int * 8;
        if buf.len() < vo + 4 {
            None
        } else if buf.len() != vo + 4 + num4(buf, vo) {
            None
        } else {
            Some(
                (
                    array16(buf.subrange(0, 16)),
                    Some(
                        SignedModel {
                            unit_map: words_at(buf, 26, n),
                            fragsize_exp: buf[17],
                            last_frag_length: num4(buf, 18) as u32,
                            vv_bytes: buf.subrange(vo + 4, buf.len() as int),
                        },
                    ),
                ),
            )
        }
    }
}

pub proof fn lemma_num4(buf: Seq<u8>, off: int)
    requires
        0 <= off,
        off + 4 <= buf.len(),
    ensures
        num4(buf, off) <= 0xffff_ffff,
{
    lemma_pow256_values();
    crate::bytes::lemma_le_of_un_le(buf.subrange(off, off + 4));
}

/// Reads a signing payload.
pub fn parse_signing_payload(buf: &[u8]) -> (r: Result<SigningPayload, Error>)
    ensures
        match payload_parse(buf@) {
            None => r == Err::<SigningPayload, Error>(Error::Integrity),
            Some(p) => r is Ok && r->Ok_0.uuid == p.0 && signed_view(r->Ok_0.content) == p.1,
        },
{
    if buf.len() < 17 {
        return Err(Error::Integrity);
    }
    let uuid: Uuid = take16(buf, 0);
    if buf[16] == 0 {
        if buf.len() == 17 {
            return Ok(SigningPayload { uuid, content: None });
        }
        return Err(Error::Integrity);
    }
    if buf[16] != 1 || buf.len() < 26 {
        return Err(Error::Integrity);
    }
    proof {
        lemma_num4(buf@, 18);
        lemma_num4(buf@, 22);
    }
    let last: u32 = read_le(buf, 18, 4) as u32;
    let n: u64 = read_le(buf, 22, 4);
    if (buf.len() as u64) < 26 + n * 8 + 4 {
        return Err(Error::Integrity);
    }
    let n: usize = n as usize;
    let vo: usize = 26 + n * 8;
    proof {
        lemma_num4(buf@, vo as int);
    }
    let vlen: u64 = read_le(buf, vo, 4);
    if (buf.len() - vo - 4) as u64 != vlen {
        return Err(Error::Integrity);
    }
    let unit_map: Vec<u64> = read_u64s(buf, 26, n);
    let vv_bytes: Vec<u8> = copy_range(buf, vo + 4, buf.len());
    Ok(
        SigningPayload {
            uuid,
            content: Some(
                SignedContent { unit_map, fragsize_exp: buf[17], last_frag_length: last, vv_bytes },
            ),
        },
    )
}

/// Reading the payload of a record gives its signed fields back.
pub proof fn law_payload_round_trip(r: RecordModel)
    requires
        r.content is Some ==> {
            &&& r.content->Some_0.unit_map.len() <= u32::MAX
            &&& r.content->Some_0.vv.len() < 0x1_0000
        },
    ensures
        payload_parse(payload_of(r)) == Some(
            (
                r.uuid,
                match r.content {
                    None => None,
                    Some(sm) => Some(
                        SignedModel {
                            unit_map: sm.unit_map,
                            fragsize_exp: sm.fragsize_exp,
                            last_frag_length: sm.last_frag_length,
                            vv_bytes: vv_bytes(sm.vv),
                        },
                    ),
                },
            ),
        ),
{
    let buf = payload_of(r);
    assert(buf.subrange(0, 16) =~= r.uuid@);
    assert(array16(r.uuid@)@ == r.uuid@);
    assert(array16(r.uuid@) =~= r.uuid);
    match r.content {
        None => {},
        Some(sm) => {
            let n = sm.unit_map.len();
            let vb = vv_bytes(sm.vv);
            lemma_le_len(sm.last_frag_length as nat, 4);
            lemma_le_len(n, 4);
            lemma_le_len(vb.len(), 4);
            lemma_le_len(sm.vv.len(), 2);
            lemma_vv_body_len(sm.vv);
            lemma_words_len(sm.unit_map);
            lemma_pow256_values();
            lemma_un_le_of_le(sm.last_frag_length as nat, 4);
            lemma_un_le_of_le(n, 4);
            lemma_un_le_of_le(vb.len(), 4);
            let vo: int = 26 + n as int * 8;
            assert(buf.subrange(18, 22) =~= le(sm.last_frag_length as nat, 4));
            assert(buf.subrange(22, 26) =~= le(n, 4));
            assert(buf.subrange(26, vo) =~= words(sm.unit_map));
            lemma_words_at(buf, 26, sm.unit_map);
            assert(buf.subrange(vo, vo + 4) =~= le(vb.len(), 4));
            assert(buf.subrange(vo + 4, buf.len() as int) =~= vb);
        },
    }
}

// ── Pins ────────────────────────────────────────────────────────────────────

/// `new` is `old` with the bits from `lo` up to but not including `hi` cleared.
pub open spec fn pins_cleared(
    old_pins: Seq<PinModel>,
    new_pins: Seq<PinModel>,
    lo: int,
    hi: int,
) -> bool {
    &&& new_pins.len() == old_pins.len()
    &&& forall|i: int|
        0 <= i < old_pins.len() ==> (#[trigger] new_pins[i]).commit == old_pins[i].commit
    &&& forall|i: int, k: int|
        #![trigger bit_set(new_pins[i].bits, k)]
        0 <= i < old_pins.len() ==> bit_set(new_pins[i].bits, k) == (bit_set(
            old_pins[i].bits,
            k,
        ) && !(lo <= k < hi))
}

/// The commits that pin fragment `f`.
pub open spec fn pinning(pins: Seq<PinModel>, f: int) -> Seq<Uuid>
    decreases pins.len(),
{
    if pins.len() == 0 {
        Seq::empty()
    } else {
        let p = pinning(pins.drop_last(), f);
        if bit_set(pins.last().bits, f) {
            p.push(pins.last().commit)
        } else {
            p
        }
    }
}

/// Clears fragment `f` in every pin and returns the commits that pinned it.
pub fn clear_pins(pins: &mut Vec<CommitBitmap>, f: usize) -> (commits: Vec<Uuid>)
    ensures
        pins_cleared(pins_view(old(pins)@), pins_view(final(pins)@), f as int, f + 1),
        commits@ == pinning(pins_view(old(pins)@), f as int),
{
    let ghost all = pins_view(pins@);
    let n: usize = pins.len();
    let mut commits: Vec<Uuid> = Vec::new();
    let mut i: usize = 0;
    proof {
        assert(all.take(0) =~= Seq::empty());
    }
    while i < n
        invariant
            n == pins@.len(),
            all == pins_view(old(pins)@),
            all.len() == n,
            i <= n,
            forall|k: int| i <= k < n ==> (#[trigger] pins@[k])@ == all[k],
            forall|k: int| 0 <= k < i ==> (#[trigger] pins@[k]).commit == all[k].commit,
            forall|k: int, b: int|
                #![trigger bit_set(pins@[k].bits@, b)]
                0 <= k < i ==> bit_set(pins@[k].bits@, b) == (bit_set(all[k].bits, b) && b != f),
            commits@ == pinning(all.take(i as int), f as int),
        decreases n - i,
    {
        let mut pin: CommitBitmap = pins[i].clone();
        proof {
            assert(pins@[i as int]@ == all[i as int]);
            assert(all.take(i + 1).drop_last() =~= all.take(i as int));
            assert(all.take(i + 1).last() == all[i as int]);
        }
        if bitmap_get_bit(pin.bits.as_slice(), f) {
            commits.push(pin.commit);
        }
        bitmap_clear_bit(&mut pin.bits, f);
        pins.set(i, pin);
        i = i + 1;
    }
    proof {
        assert(all.take(i as int) =~= all);
        let new_pins = pins_view(pins@);
        assert forall|j: int, k: int|
            #![trigger bit_set(new_pins[j].bits, k)]
            0 <= j < all.len() implies bit_set(new_pins[j].bits, k) == (bit_set(all[j].bits, k)
            && !(f <= k < f + 1)) by {
            assert(new_pins[j].bits == pins@[j].bits@);
        }
    }
    commits
}

/// Clearing one range after the other clears both.
pub proof fn lemma_pins_cleared_step(
    a: Seq<PinModel>,
    b: Seq<PinModel>,
    c: Seq<PinModel>,
    lo: int,
    mid: int,
)
    requires
        lo <= mid,
        pins_cleared(a, b, lo, mid),
        pins_cleared(b, c, mid, mid + 1),
    ensures
        pins_cleared(a, c, lo, mid + 1),
{
    assert forall|i: int| 0 <= i < a.len() implies (#[trigger] c[i]).commit == a[i].commit by {
        assert(b[i].commit == a[i].commit);
    }
    assert forall|i: int, k: int|
        #![trigger bit_set(c[i].bits, k)]
        0 <= i < a.len() implies bit_set(c[i].bits, k) == (bit_set(a[i].bits, k) && !(lo <= k < mid
        + 1)) by {
        assert(bit_set(b[i].bits, k) == (bit_set(a[i].bits, k) && !(lo <= k < mid)));
    }
}

} // verus!
