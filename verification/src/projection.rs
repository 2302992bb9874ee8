//! The portable form of a record that travels between replicas.
use vstd::prelude::*;

use crate::bytes::{
    array64, copy_range, le, lemma_le_len, lemma_pow256_values, lemma_un_le_of_le, push_all,
    push_le, read_le, take64, un_le,
};
use crate::error::Error;
use crate::unit::{
    lemma_num4, lemma_words_at, lemma_words_len, num4, push_u64s, read_u64s, words, words_at,
};
use crate::vector::{
    lemma_vv_bytes_round_trip, vv_bytes, vv_entries_of, vv_ordered, vv_well_formed, VersionVector,
};

verus! {

/// The metadata that travels with a record: its bytes, version and vector.
#[derive(Debug)]
pub struct MetaPart {
    pub plain: Vec<u8>,
    pub version: u64,
    pub vv: VersionVector,
}

/// A [`MetaPart`] as a value.
#[verifier::ext_equal]
pub struct MetaModel {
    pub plain: Seq<u8>,
    pub version: u64,
    pub vv: Seq<(u16, u64)>,
}

impl View for MetaPart {
    type V = MetaModel;

    open spec fn view(&self) -> MetaModel {
        MetaModel { plain: self.plain@, version: self.version, vv: self.vv@ }
    }
}

pub open spec fn meta_view(m: Option<MetaPart>) -> Option<MetaModel> {
    match m {
        Some(x) => Some(x@),
        None => None,
    }
}

/// A signature and the bytes that it covers.
#[derive(Debug)]
pub struct Attestation {
    pub signature: [u8; 64],
    pub payload: Vec<u8>,
}

/// An [`Attestation`] as a value.
#[verifier::ext_equal]
pub struct AttestModel {
    pub signature: [u8; 64],
    pub payload: Seq<u8>,
}

impl View for Attestation {
    type V = AttestModel;

    open spec fn view(&self) -> AttestModel {
        AttestModel { signature: self.signature, payload: self.payload@ }
    }
}

pub open spec fn attest_view(a: Option<Attestation>) -> Option<AttestModel> {
    match a {
        Some(x) => Some(x@),
        None => None,
    }
}

/// A record as it travels: its key, the geometry, versions and vector of its
/// content, the author's signature, whether there is content at all, and the
/// metadata. Local addresses do not travel.
#[derive(Debug)]
pub struct Projection {
    pub key: Vec<u8>,
    pub fragsize_exp: u8,
    pub last_frag_length: u32,
    pub unit_map: Vec<u64>,
    pub vv: VersionVector,
    pub attest: Option<Attestation>,
    pub has_content: bool,
    pub meta: Option<MetaPart>,
}

/// A [`Projection`] as a value.
#[verifier::ext_equal]
pub struct ProjectionModel {
    pub key: Seq<u8>,
    pub fragsize_exp: u8,
    pub last_frag_length: u32,
    pub unit_map: Seq<u64>,
    pub vv: Seq<(u16, u64)>,
    pub attest: Option<AttestModel>,
    pub has_content: bool,
    pub meta: Option<MetaModel>,
}

impl View for Projection {
    type V = ProjectionModel;

    open spec fn view(&self) -> ProjectionModel {
        ProjectionModel {
            key: self.key@,
            fragsize_exp: self.fragsize_exp,
            last_frag_length: self.last_frag_length,
            unit_map: self.unit_map@,
            vv: self.vv@,
            attest: attest_view(self.attest),
            has_content: self.has_content,
            meta: meta_view(self.meta),
        }
    }
}

/// The key and the content section.
pub open spec fn head_bytes(p: ProjectionModel) -> Seq<u8> {
    le(p.key.len(), 4) + p.key + seq![p.fragsize_exp] + le(p.last_frag_length as nat, 4) + le(
        p.unit_map.len(),
        4,
    ) + words(p.unit_map) + le(vv_bytes(p.vv).len(), 4) + vv_bytes(p.vv)
}

/// The signature section.
pub open spec fn attest_bytes(a: Option<AttestModel>) -> Seq<u8> {
    match a {
        None => Seq::empty(),
        Some(x) => x.signature@ + le(x.payload.len(), 4) + x.payload,
    }
}

/// The four bytes `MSx1`.
pub open spec fn trailer_magic() -> Seq<u8> {
    seq![0x4du8, 0x53u8, 0x78u8, 0x31u8]
}

/// The metadata section.
pub open spec fn trailer_bytes(has_content: bool, m: Option<MetaModel>) -> Seq<u8> {
    trailer_magic() + seq![
        if has_content {
            1u8
        } else {
            0u8
        },
    ] + match m {
        None => seq![0u8],
        Some(x) => seq![1u8] + le(x.version as nat, 8) + le(vv_bytes(x.vv).len(), 4) + vv_bytes(
            x.vv,
        ) + le(x.plain.len(), 4) + x.plain,
    }
}

/// The byte form of a projection.
pub open spec fn projection_bytes(p: ProjectionModel) -> Seq<u8> {
    head_bytes(p) + attest_bytes(p.attest) + trailer_bytes(p.has_content, p.meta)
}

/// What the first section of `b` says, and where it ends.
pub open spec fn head_parse(b: Seq<u8>) -> Option<(ProjectionModel, int)> {
    let ke: int = 4 + num4(b, 0) as int;
    let mo: int = ke + 9;
    let n = num4(b, ke + 5);
    let vo: int = mo + n as int * 8;
    let end: int = vo + 4 + num4(b, vo) as int;
    if b.len() < 4 || b.len() < mo || b.len() < vo + 4 || b.len() < end || !vv_well_formed(
        b.subrange(vo + 4, end),
    ) {
        None
    } else {
        Some(
            (
                ProjectionModel {
                    key: b.subrange(4, ke),
                    fragsize_exp: b[ke],
                    last_frag_length: num4(b, ke + 1) as u32,
                    unit_map: words_at(b, mo, n),
                    vv: vv_entries_of(b.subrange(vo + 4, end)),
                    attest: None,
                    has_content: true,
                    meta: None,
                },
                end,
            ),
        )
    }
}

/// What the signature section at `off` says, and where it ends.
pub open spec fn attest_parse(b: Seq<u8>, off: int) -> Option<(AttestModel, int)> {
    let end: int = off + 68 + num4(b, off + 64) as int;
    if b.len() < off + 68 || b.len() < end {
        None
    } else {
        Some(
            (
                AttestModel {
                    signature: array64(b.subrange(off, off + 64)),
                    payload: b.subrange(off + 68, end),
                },
                end,
            ),
        )
    }
}

/// What the metadata section at `off` says. Without the magic there is none:
/// the unit has content and no metadata.
pub open spec fn trailer_parse(b: Seq<u8>, off: int) -> Option<(bool, Option<MetaModel>)> {
    if b.len() < off + 5 || b.subrange(off, off + 4) != trailer_magic() {
        Some((true, None))
    } else if b.len() < off + 6 {
        None
    } else if b[off + 5] == 0 {
        Some((b[off + 4] != 0, None))
    } else {
        let vo: int = off + 18;
        let ve: int = vo + num4(b, off + 14) as int;
        let end: int = ve + 4 + num4(b, ve) as int;
        if b.len() < vo || b.len() < ve + 4 || !vv_well_formed(b.subrange(vo, ve)) || b.len()
            < end {
            None
        } else {
            Some(
                (
                    b[off + 4] != 0,
                    Some(
                        MetaModel {
                            plain: b.subrange(ve + 4, end),
                            version: un_le(b.subrange(off + 6, off + 14)) as u64,
                            vv: vv_entries_of(b.subrange(vo, ve)),
                        },
                    ),
                ),
            )
        }
    }
}

/// What the bytes of a projection say, with or without a signature section.
pub open spec fn projection_parse(b: Seq<u8>, signed: bool) -> Option<ProjectionModel> {
    match head_parse(b) {
        None => None,
        Some((head, off)) => if signed {
            match attest_parse(b, off) {
                None => None,
                Some((a, off2)) => match trailer_parse(b, off2) {
                    None => None,
                    Some((has_content, meta)) => Some(
                        ProjectionModel { attest: Some(a), has_content, meta, ..head },
                    ),
                },
            }
        } else {
            match trailer_parse(b, off) {
                None => None,
                Some((has_content, meta)) => Some(ProjectionModel { has_content, meta, ..head }),
            }
        },
    }
}

fn push_head(out: &mut Vec<u8>, p: &Projection)
    ensures
        final(out)@ == old(out)@ + head_bytes(p@),
{
    push_le(out, p.key.len() as u64, 4);
    push_all(out, p.key.as_slice());
    out.push(p.fragsize_exp);
    push_le(out, p.last_frag_length as u64, 4);
    push_le(out, p.unit_map.len() as u64, 4);
    push_u64s(out, &p.unit_map);
    let vvb: Vec<u8> = p.vv.to_bytes();
    push_le(out, vvb.len() as u64, 4);
    push_all(out, vvb.as_slice());
    proof {
        assert(out@ =~= old(out)@ + head_bytes(p@));
    }
}

fn push_attest(out: &mut Vec<u8>, a: &Attestation)
    ensures
        final(out)@ == old(out)@ + attest_bytes(Some(a@)),
{
    push_all(out, a.signature.as_slice());
    push_le(out, a.payload.len() as u64, 4);
    push_all(out, a.payload.as_slice());
    proof {
        assert(out@ =~= old(out)@ + attest_bytes(Some(a@)));
    }
}

fn push_trailer(out: &mut Vec<u8>, has_content: bool, meta: &Option<MetaPart>)
    ensures
        final(out)@ == old(out)@ + trailer_bytes(has_content, meta_view(*meta)),
{
    out.push(0x4d);
    out.push(0x53);
    out.push(0x78);
    out.push(0x31);
    let flag: u8 = if has_content {
        1
    } else {
        0
    };
    out.push(flag);
    match meta {
        None => {
            out.push(0);
        },
        Some(m) => {
            out.push(1);
            push_le(out, m.version, 8);
            let mvv: Vec<u8> = m.vv.to_bytes();
            push_le(out, mvv.len() as u64, 4);
            push_all(out, mvv.as_slice());
            push_le(out, m.plain.len() as u64, 4);
            push_all(out, m.plain.as_slice());
        },
    }
    proof {
        assert(out@ =~= old(out)@ + trailer_bytes(has_content, meta_view(*meta)));
    }
}

/// The byte form of a projection.
pub fn encode_projection(p: &Projection) -> (out: Vec<u8>)
    ensures
        out@ == projection_bytes(p@),
{
    let mut out: Vec<u8> = Vec::new();
    push_head(&mut out, p);
    proof {
        lemma_empty_front(out@, head_bytes(p@));
    }
    match &p.attest {
        None => {
            proof {
                lemma_empty_back(out@);
            }
        },
        Some(a) => {
            push_attest(&mut out, a);
        },
    }
    push_trailer(&mut out, p.has_content, &p.meta);
    out
}

proof fn lemma_empty_front(out: Seq<u8>, s: Seq<u8>)
    requires
        out == Seq::<u8>::empty() + s,
    ensures
        out == s,
{
    assert(out =~= s);
}

proof fn lemma_empty_back(s: Seq<u8>)
    ensures
        s + Seq::<u8>::empty() == s,
{
    assert(s + Seq::<u8>::empty() =~= s);
}

proof fn lemma_add_assoc(a: Seq<u8>, b: Seq<u8>, c: Seq<u8>)
    ensures
        a + b + c == a + (b + c),
{
    assert(a + b + c =~= a + (b + c));
}

fn parse_head(b: &[u8]) -> (r: Result<(Projection, usize), Error>)
    ensures
        match head_parse(b@) {
            None => r == Err::<(Projection, usize), Error>(Error::Integrity),
            Some((p, off)) => r is Ok && r->Ok_0.0@ == p && r->Ok_0.1 == off && off <= b@.len(),
        },
{
    let len: u64 = b.len() as u64;
    if len < 4 {
        return Err(Error::Integrity);
    }
    proof {
        lemma_num4(b@, 0);
    }
    let klen: u64 = read_le(b, 0, 4);
    if len < 4 + klen + 9 {
        return Err(Error::Integrity);
    }
    let ke: usize = 4 + klen as usize;
    proof {
        lemma_num4(b@, ke + 1);
        lemma_num4(b@, ke + 5);
    }
    let last: u32 = read_le(b, ke + 1, 4) as u32;
    let n: u64 = read_le(b, ke + 5, 4);
    let mo: usize = ke + 9;
    if len < mo as u64 + n * 8 + 4 {
        return Err(Error::Integrity);
    }
    let vo: usize = mo + n as usize * 8;
    proof {
        lemma_num4(b@, vo as int);
    }
    let vlen: u64 = read_le(b, vo, 4);
    if len < vo as u64 + 4 + vlen {
        return Err(Error::Integrity);
    }
    let end: usize = vo + 4 + vlen as usize;
    let vvb: Vec<u8> = copy_range(b, vo + 4, end);
    let vv: VersionVector = match VersionVector::from_bytes(vvb.as_slice()) {
        Ok(v) => v,
        Err(_) => {
            return Err(Error::Integrity);
        },
    };
    Ok(
        (
            Projection {
                key: copy_range(b, 4, ke),
                fragsize_exp: b[ke],
                last_frag_length: last,
                unit_map: read_u64s(b, mo, n as usize),
                vv,
                attest: None,
                has_content: true,
                meta: None,
            },
            end,
        ),
    )
}

fn parse_attest(b: &[u8], off: usize) -> (r: Result<(Attestation, usize), Error>)
    requires
        off <= b@.len(),
    ensures
        match attest_parse(b@, off as int) {
            None => r == Err::<(Attestation, usize), Error>(Error::Integrity),
            Some((a, end)) => r is Ok && r->Ok_0.0@ == a && r->Ok_0.1 == end && end <= b@.len(),
        },
{
    if b.len() - off < 68 {
        return Err(Error::Integrity);
    }
    proof {
        lemma_num4(b@, off + 64);
    }
    let plen: u64 = read_le(b, off + 64, 4);
    if ((b.len() - off - 68) as u64) < plen {
        return Err(Error::Integrity);
    }
    let end: usize = off + 68 + plen as usize;
    Ok((Attestation { signature: take64(b, off), payload: copy_range(b, off + 68, end) }, end))
}

fn parse_trailer(b: &[u8], off: usize) -> (r: Result<(bool, Option<MetaPart>), Error>)
    requires
        off <= b@.len(),
    ensures
        match trailer_parse(b@, off as int) {
            None => r == Err::<(bool, Option<MetaPart>), Error>(Error::Integrity),
            Some((c, m)) => r is Ok && r->Ok_0.0 == c && meta_view(r->Ok_0.1) == m,
        },
{
    let left: usize = b.len() - off;
    if left < 5 {
        return Ok((true, None));
    }
    proof {
        let w = b@.subrange(off as int, off + 4);
        if b@[off as int] == 0x4d && b@[off + 1] == 0x53 && b@[off + 2] == 0x78 && b@[off + 3]
            == 0x31 {
            assert(w =~= trailer_magic());
        } else {
            assert(w[0] == b@[off as int]);
            assert(w[1] == b@[off + 1]);
            assert(w[2] == b@[off + 2]);
            assert(w[3] == b@[off + 3]);
        }
    }
    if b[off] != 0x4d || b[off + 1] != 0x53 || b[off + 2] != 0x78 || b[off + 3] != 0x31 {
        return Ok((true, None));
    }
    if left < 6 {
        return Err(Error::Integrity);
    }
    let has_content: bool = b[off + 4] != 0;
    if b[off + 5] == 0 {
        return Ok((has_content, None));
    }
    if left < 18 {
        return Err(Error::Integrity);
    }
    proof {
        lemma_num4(b@, off + 14);
    }
    let version: u64 = read_le(b, off + 6, 8);
    let vlen: u64 = read_le(b, off + 14, 4);
    if ((left - 18) as u64) < vlen + 4 {
        return Err(Error::Integrity);
    }
    let vo: usize = off + 18;
    let ve: usize = vo + vlen as usize;
    let mvv: Vec<u8> = copy_range(b, vo, ve);
    let vv: VersionVector = match VersionVector::from_bytes(mvv.as_slice()) {
        Ok(v) => v,
        Err(_) => {
            return Err(Error::Integrity);
        },
    };
    proof {
        lemma_num4(b@, ve as int);
    }
    let mlen: u64 = read_le(b, ve, 4);
    if ((b.len() - ve - 4) as u64) < mlen {
        return Err(Error::Integrity);
    }
    let plain: Vec<u8> = copy_range(b, ve + 4, ve + 4 + mlen as usize);
    Ok((has_content, Some(MetaPart { plain, version, vv })))
}

/// Reads a projection; `signed` says whether a signature section must be there.
pub fn parse_projection(b: &[u8], signed: bool) -> (r: Result<Projection, Error>)
    ensures
        match projection_parse(b@, signed) {
            None => r == Err::<Projection, Error>(Error::Integrity),
            Some(p) => r is Ok && r->Ok_0@ == p,
        },
{
    let (head, off): (Projection, usize) = match parse_head(b) {
        Ok(x) => x,
        Err(_) => {
            return Err(Error::Integrity);
        },
    };
    let mut p: Projection = head;
    let mut at: usize = off;
    if signed {
        match parse_attest(b, off) {
            Ok((a, end)) => {
                p.attest = Some(a);
                at = end;
            },
            Err(_) => {
                return Err(Error::Integrity);
            },
        }
    }
    match parse_trailer(b, at) {
        Ok((c, m)) => {
            p.has_content = c;
            p.meta = m;
            Ok(p)
        },
        Err(_) => Err(Error::Integrity),
    }
}

proof fn lemma_head_round_trip(p: ProjectionModel, rest: Seq<u8>)
    requires
        p.key.len() <= u32::MAX,
        p.unit_map.len() <= u32::MAX,
        vv_ordered(p.vv),
        p.vv.len() < 0x1_0000,
    ensures
        head_parse(head_bytes(p) + rest) == Some(
            (
                ProjectionModel { attest: None, has_content: true, meta: None, ..p },
                head_bytes(p).len() as int,
            ),
        ),
{
    let b = head_bytes(p) + rest;
    let vb = vv_bytes(p.vv);
    let n = p.unit_map.len();
    lemma_pow256_values();
    lemma_le_len(p.key.len(), 4);
    lemma_le_len(p.last_frag_length as nat, 4);
    lemma_le_len(n, 4);
    lemma_le_len(vb.len(), 4);
    lemma_words_len(p.unit_map);
    lemma_vv_bytes_round_trip(p.vv);
    lemma_un_le_of_le(p.key.len(), 4);
    lemma_un_le_of_le(p.last_frag_length as nat, 4);
    lemma_un_le_of_le(n, 4);
    lemma_un_le_of_le(vb.len(), 4);
    let ke: int = 4 + p.key.len() as int;
    let mo: int = ke + 9;
    let vo: int = mo + n as int * 8;
    let end: int = vo + 4 + vb.len() as int;
    assert(b.subrange(0, 4) =~= le(p.key.len(), 4));
    assert(b.subrange(4, ke) =~= p.key);
    assert(b[ke] == p.fragsize_exp);
    assert(b.subrange(ke + 1, ke + 5) =~= le(p.last_frag_length as nat, 4));
    assert(b.subrange(ke + 5, ke + 9) =~= le(n, 4));
    assert(b.subrange(mo, vo) =~= words(p.unit_map));
    lemma_words_at(b, mo, p.unit_map);
    assert(b.subrange(vo, vo + 4) =~= le(vb.len(), 4));
    assert(b.subrange(vo + 4, end) =~= vb);
    assert(head_bytes(p).len() == end);
}

proof fn lemma_attest_round_trip(front: Seq<u8>, a: AttestModel, rest: Seq<u8>)
    requires
        a.payload.len() <= u32::MAX,
    ensures
        attest_parse(front + attest_bytes(Some(a)) + rest, front.len() as int) == Some(
            (a, (front + attest_bytes(Some(a))).len() as int),
        ),
{
    let b = front + attest_bytes(Some(a)) + rest;
    let off = front.len() as int;
    lemma_pow256_values();
    lemma_le_len(a.payload.len(), 4);
    lemma_un_le_of_le(a.payload.len(), 4);
    assert(b.subrange(off, off + 64) =~= a.signature@);
    assert(b.subrange(off + 64, off + 68) =~= le(a.payload.len(), 4));
    assert(b.subrange(off + 68, off + 68 + a.payload.len()) =~= a.payload);
    assert(array64(a.signature@)@ == a.signature@);
    assert(array64(a.signature@) =~= a.signature);
}

proof fn lemma_trailer_round_trip(front: Seq<u8>, has_content: bool, m: Option<MetaModel>)
    requires
        m is Some ==> {
            &&& vv_ordered(m->Some_0.vv)
            &&& m->Some_0.vv.len() < 0x1_0000
            &&& m->Some_0.plain.len() <= u32::MAX
        },
    ensures
        trailer_parse(front + trailer_bytes(has_content, m), front.len() as int) == Some(
            (has_content, m),
        ),
{
    let b = front + trailer_bytes(has_content, m);
    let off = front.len() as int;
    assert(b.subrange(off, off + 4) =~= trailer_magic());
    assert(b[off + 4] == if has_content {
        1u8
    } else {
        0u8
    });
    match m {
        None => {
            assert(b[off + 5] == 0);
        },
        Some(x) => {
            let vb = vv_bytes(x.vv);
            lemma_pow256_values();
            lemma_le_len(x.version as nat, 8);
            lemma_le_len(vb.len(), 4);
            lemma_le_len(x.plain.len(), 4);
            lemma_vv_bytes_round_trip(x.vv);
            lemma_un_le_of_le(x.version as nat, 8);
            lemma_un_le_of_le(vb.len(), 4);
            lemma_un_le_of_le(x.plain.len(), 4);
            let vo: int = off + 18;
            let ve: int = vo + vb.len() as int;
            assert(b[off + 5] == 1);
            assert(b.subrange(off + 6, off + 14) =~= le(x.version as nat, 8));
            assert(b.subrange(off + 14, off + 18) =~= le(vb.len(), 4));
            assert(b.subrange(vo, ve) =~= vb);
            assert(b.subrange(ve, ve + 4) =~= le(x.plain.len(), 4));
            assert(b.subrange(ve + 4, ve + 4 + x.plain.len()) =~= x.plain);
        },
    }
}

/// Every length in the projection fits its field.
pub open spec fn projection_fits(p: ProjectionModel) -> bool {
    &&& p.key.len() <= u32::MAX
    &&& p.unit_map.len() <= u32::MAX
    &&& vv_ordered(p.vv)
    &&& p.vv.len() < 0x1_0000
    &&& p.attest is Some ==> p.attest->Some_0.payload.len() <= u32::MAX
    &&& p.meta is Some ==> {
        &&& vv_ordered(p.meta->Some_0.vv)
        &&& p.meta->Some_0.vv.len() < 0x1_0000
        &&& p.meta->Some_0.plain.len() <= u32::MAX
    }
}

/// Reading the byte form of a projection gives the projection back.
pub proof fn law_projection_round_trip(p: ProjectionModel)
    requires
        projection_fits(p),
    ensures
        projection_parse(projection_bytes(p), p.attest is Some) == Some(p),
{
    let front = head_bytes(p);
    let tail = trailer_bytes(p.has_content, p.meta);
    match p.attest {
        None => {
            lemma_empty_back(front);
            lemma_head_round_trip(p, tail);
            lemma_trailer_round_trip(front, p.has_content, p.meta);
        },
        Some(a) => {
            let mid = attest_bytes(Some(a));
            lemma_add_assoc(front, mid, tail);
            lemma_head_round_trip(p, mid + tail);
            lemma_attest_round_trip(front, a, tail);
            lemma_trailer_round_trip(front + mid, p.has_content, p.meta);
        },
    }
}

} // verus!
