//! Units with conflicting versions: looking at the strains and resolving them.
use vstd::prelude::*;
use vstd::string::*;
use vstd::utf8::valid_utf8;

use crate::block::{
    derive_fragsize_exp, dot, exp_for, few_frags, frag_bytes, frags_for, last_frag_length, last_len,
    lemma_exp_range, lemma_frag_bytes, lemma_frags, pack_dot,
};
use crate::bytes::copy_range;
use crate::content::stored_at;
use crate::crypto::Crypto;
use crate::engine::{live, place, places_step, Engine, RecordSignIntent};
use crate::error::Error;
use crate::heap::in_heap;
use crate::merge::longer;
use crate::outside::string_from_utf8;
use crate::overlay::{overlaid, pending_of};
use crate::sync::{presence, present_flags};
use crate::text::{decimal_text, push_decimal, push_vector, vector_text};
use crate::unit::{
    clone_stream, copy_u64s, hole, is_hole, stream_byte_len, BlockLoc, RecordModel, StreamMeta,
    StreamModel, UnitRecord, Uuid,
};
use crate::vector::{vv_dominates, vv_get, vv_max, vv_ordered, VersionVector};
use crate::write::frag_slice;

verus! {

/// What is known of one strain of a unit; the head is strain zero.
#[derive(Debug)]
pub struct StrainInfo {
    /// Which strain this is, for people to read.
    pub message: String,
    pub vv: VersionVector,
    /// The logical byte length.
    pub size: u64,
    pub frag_versions: Vec<u64>,
    /// Which fragments are stored here.
    pub present: Vec<bool>,
    pub last_frag_length: u32,
    pub fragsize_exp: u8,
}

/// A [`StrainInfo`] as a value.
#[verifier::ext_equal]
pub struct StrainModel {
    pub message: Seq<char>,
    pub vv: Seq<(u16, u64)>,
    pub size: u64,
    pub frag_versions: Seq<u64>,
    pub present: Seq<bool>,
    pub last_frag_length: u32,
    pub fragsize_exp: u8,
}

impl View for StrainInfo {
    type V = StrainModel;

    open spec fn view(&self) -> StrainModel {
        StrainModel {
            message: self.message@,
            vv: self.vv@,
            size: self.size,
            frag_versions: self.frag_versions@,
            present: self.present@,
            last_frag_length: self.last_frag_length,
            fragsize_exp: self.fragsize_exp,
        }
    }
}

/// How to resolve a conflict.
#[derive(Debug)]
pub enum Resolution {
    /// Keep the content of this strain.
    ChooseStrain(usize),
    /// Use this content.
    MergedContent(Vec<u8>),
}

/// What is said of strain `index`.
pub open spec fn message_text(index: nat, sm: StreamModel) -> Seq<char> {
    if index == 0 {
        "primary strain — "@ + decimal_text(sm.size()) + " bytes @ VV "@ + vector_text(sm.vv)
    } else {
        "conflict: concurrent strain #"@ + decimal_text(index) + " (diverged edit) — "@
            + decimal_text(sm.size()) + " bytes @ VV "@ + vector_text(sm.vv)
    }
}

fn strain_message(index: usize, sm: &StreamMeta) -> (r: String)
    requires
        sm@.geometry_ok(),
    ensures
        r@ == message_text(index as nat, sm@),
{
    let size: u64 = stream_byte_len(sm);
    let mut r: String = String::new();
    if index == 0 {
        r.append("primary strain — ");
    } else {
        r.append("conflict: concurrent strain #");
        push_decimal(&mut r, index as u64);
        r.append(" (diverged edit) — ");
    }
    push_decimal(&mut r, size);
    r.append(" bytes @ VV ");
    push_vector(&mut r, &sm.vv);
    proof {
        assert(r@ =~= message_text(index as nat, sm@));
    }
    r
}

/// What is known of strain `index`, the record of which is `m`.
pub open spec fn strain_info(index: nat, m: RecordModel) -> Result<StrainModel, Error> {
    match m.content {
        None => Err(Error::Integrity),
        Some(sm) => Ok(
            StrainModel {
                message: message_text(index, sm),
                vv: sm.vv,
                size: sm.size() as u64,
                frag_versions: sm.unit_map,
                present: presence(sm.locations),
                last_frag_length: sm.last_frag_length,
                fragsize_exp: sm.fragsize_exp,
            },
        ),
    }
}

fn strain_info_from_record(index: usize, rec: &UnitRecord) -> (r: Result<StrainInfo, Error>)
    requires
        rec@.stream().geometry_ok(),
    ensures
        match strain_info(index as nat, rec@) {
            Err(e) => r is Err && r->Err_0 == e,
            Ok(s) => r is Ok && r->Ok_0@ == s,
        },
{
    match &rec.content {
        None => Err(Error::Integrity),
        Some(sm) => Ok(
            StrainInfo {
                message: strain_message(index, sm),
                vv: sm.vv.clone(),
                size: stream_byte_len(sm),
                frag_versions: copy_u64s(&sm.unit_map),
                present: present_flags(&sm.locations),
                last_frag_length: sm.last_frag_length,
                fragsize_exp: sm.fragsize_exp,
            },
        ),
    }
}

pub open spec fn infos_view(v: Seq<StrainInfo>) -> Seq<StrainModel> {
    Seq::new(v.len(), |i: int| v[i]@)
}

impl<C: Crypto> Engine<C> {
    /// Whether the unit at a key has strains beside its head.
    pub fn has_conflict(&self, key: &[u8]) -> (r: Result<bool, Error>)
        requires
            self.inv(),
        ensures
            match self.head(key@) {
                Err(e) => r == Err::<bool, Error>(e),
                Ok((_, _, m)) => r == Ok::<bool, Error>(m.strains.len() > 0),
            },
    {
        match self.find_head(key) {
            Err(e) => Err(e),
            Ok((uuid, addr, rec)) => Ok(rec.concurrent_strains.len() > 0),
        }
    }

    /// The geometry of the head at `key` and of its strains can be worked with.
    pub open spec fn strains_fit(&self, key: Seq<u8>) -> bool {
        self.head(key) is Ok ==> {
            let m = self.head(key)->Ok_0.2;
            &&& m.stream().geometry_ok()
            &&& forall|i: int|
                0 <= i < m.strains.len() && self.record(#[trigger] m.strains[i]) is Ok
                    ==> self.record(m.strains[i])->Ok_0.stream().geometry_ok()
        }
    }

    /// The head and the first `n` strains.
    pub open spec fn strain_infos(&self, m: RecordModel, n: nat) -> Result<Seq<StrainModel>, Error>
        decreases n,
    {
        if n == 0 {
            match strain_info(0, m) {
                Err(e) => Err(e),
                Ok(s) => Ok(seq![s]),
            }
        } else {
            match self.strain_infos(m, (n - 1) as nat) {
                Err(e) => Err(e),
                Ok(v) => match self.record(m.strains[n - 1]) {
                    Err(e) => Err(e),
                    Ok(r) => match strain_info(n, r) {
                        Err(e) => Err(e),
                        Ok(s) => Ok(v.push(s)),
                    },
                },
            }
        }
    }

    proof fn lemma_infos(&self, m: RecordModel, i: nat, n: nat)
        requires
            i <= n,
            self.strain_infos(m, i) is Err,
        ensures
            self.strain_infos(m, n) == self.strain_infos(m, i),
        decreases n,
    {
        if i < n {
            self.lemma_infos(m, i, (n - 1) as nat);
        }
    }

    /// The head and all strains of the unit at a key.
    pub fn unit_strains(&self, key: &[u8]) -> (r: Result<Vec<StrainInfo>, Error>)
        requires
            self.inv(),
            self.strains_fit(key@),
        ensures
            match self.head(key@) {
                Err(e) => r is Err && r->Err_0 == e,
                Ok((_, _, m)) => match self.strain_infos(m, m.strains.len()) {
                    Err(e) => r is Err && r->Err_0 == e,
                    Ok(s) => r is Ok && infos_view(r->Ok_0@) == s,
                },
            },
    {
        let (uuid, addr, rec): (Uuid, u64, UnitRecord) = match self.find_head(key) {
            Err(e) => {
                return Err(e);
            },
            Ok(x) => x,
        };
        let ghost m = rec@;
        let n: usize = rec.concurrent_strains.len();
        let mut out: Vec<StrainInfo> = Vec::new();
        match strain_info_from_record(0, &rec) {
            Err(e) => {
                proof {
                    self.lemma_infos(m, 0, n as nat);
                }
                return Err(e);
            },
            Ok(s) => {
                out.push(s);
                proof {
                    assert(infos_view(out@) =~= seq![s@]);
                }
            },
        }
        let mut i: usize = 0;
        while i < n
            invariant
                n == rec.concurrent_strains@.len(),
                m == rec@,
                self.head(key@) is Ok,
                self.head(key@)->Ok_0.2 == m,
                self.strains_fit(key@),
                i <= n,
                self.strain_infos(m, i as nat) == Ok::<Seq<StrainModel>, Error>(infos_view(out@)),
            decreases n - i,
        {
            let ghost before = infos_view(out@);
            proof {
                if self.strain_infos(m, (i + 1) as nat) is Err {
                    self.lemma_infos(m, (i + 1) as nat, n as nat);
                }
            }
            let strain: UnitRecord = match self.read_record_at(rec.concurrent_strains[i]) {
                Err(e) => {
                    return Err(e);
                },
                Ok(s) => s,
            };
            proof {
                assert(self.record(m.strains[i as int]) is Ok);
            }
            match strain_info_from_record(i + 1, &strain) {
                Err(e) => {
                    return Err(e);
                },
                Ok(s) => {
                    out.push(s);
                    proof {
                        assert(infos_view(out@) =~= before.push(s@));
                    }
                },
            }
            i = i + 1;
        }
        Ok(out)
    }

    /// The content of a strain beside the head.
    pub open spec fn strain_content(&self, m: RecordModel, i: nat) -> Result<Seq<u8>, Error> {
        if i > m.strains.len() {
            Err(Error::NotFound)
        } else {
            match self.record(m.strains[i - 1]) {
                Err(e) => Err(e),
                Ok(r) => if r.content is None {
                    Err(Error::NotFound)
                } else if Self::has_hole(r) {
                    Err(Error::NotFound)
                } else {
                    self.full(r)
                },
            }
        }
    }

    fn holes_in(rec: &UnitRecord) -> (r: bool)
        ensures
            r == Self::has_hole(rec@),
    {
        match &rec.content {
            None => {},
            Some(sm) => {
                let n: usize = sm.locations.len();
                let mut f: usize = 0;
                while f < n
                    invariant
                        n == sm@.locations.len(),
                        rec@.content == Some(sm@),
                        forall|g: int| 0 <= g < f ==> !#[trigger] Self::hole_at(rec@, g),
                    decreases n - f,
                {
                    if is_hole(sm.locations[f]) {
                        proof {
                            assert(Self::hole_at(rec@, f as int));
                        }
                        return true;
                    }
                    f = f + 1;
                }
            },
        }
        false
    }

    fn read_strain_of(&self, rec: &UnitRecord, index: usize) -> (r: Result<Vec<u8>, Error>)
        requires
            index > 0,
            forall|i: int|
                0 <= i < rec@.strains.len() && self.record(#[trigger] rec@.strains[i]) is Ok
                    ==> self.record(rec@.strains[i])->Ok_0.stream().geometry_ok(),
        ensures
            match self.strain_content(rec@, index as nat) {
                Err(e) => r == Err::<Vec<u8>, Error>(e),
                Ok(s) => r is Ok && r->Ok_0@ == s,
            },
    {
        if index > rec.concurrent_strains.len() {
            return Err(Error::NotFound);
        }
        let strain: UnitRecord = match self.read_record_at(rec.concurrent_strains[index - 1]) {
            Err(e) => {
                return Err(e);
            },
            Ok(s) => s,
        };
        proof {
            assert(self.record(rec@.strains[index - 1]) is Ok);
        }
        if strain.content.is_none() || Self::holes_in(&strain) {
            return Err(Error::NotFound);
        }
        self.read_full(&strain)
    }

    /// What reading strain `i` of the unit at `key` gives.
    pub open spec fn strain_read(&self, key: Seq<u8>, i: nat) -> Result<Seq<u8>, Error> {
        match self.head(key) {
            Err(e) => Err(e),
            Ok((uuid, _, m)) => if i == 0 {
                match self.full(m) {
                    Err(e) => Err(e),
                    Ok(s) => Ok(overlaid(s, pending_of(self.overlay@, uuid))),
                }
            } else {
                self.strain_content(m, i)
            },
        }
    }

    /// The content of a strain of the unit at `path`; strain zero is the head.
    pub fn read_strain(&self, path: &str, strain_index: usize) -> (r: Result<Vec<u8>, Error>)
        requires
            self.inv(),
            self.strains_fit(path.spec_bytes()),
        ensures
            match self.strain_read(path.spec_bytes(), strain_index as nat) {
                Err(e) => r == Err::<Vec<u8>, Error>(e),
                Ok(s) => r is Ok && r->Ok_0@ == s,
            },
    {
        if strain_index == 0 {
            return self.read(path);
        }
        match self.find_head(path.as_bytes()) {
            Err(e) => Err(e),
            Ok((uuid, addr, rec)) => self.read_strain_of(&rec, strain_index),
        }
    }
}


impl<C: Crypto> Engine<C> {
    /// The first strain that cannot be read.
    pub open spec fn strain_error(&self, strains: Seq<u64>) -> Option<Error>
        decreases strains.len(),
    {
        if strains.len() == 0 {
            None
        } else {
            match self.strain_error(strains.drop_last()) {
                Some(e) => Some(e),
                None => match self.record(strains.last()) {
                    Err(e) => Some(e),
                    Ok(_) => None,
                },
            }
        }
    }

    /// The counter of host `h` that the head and its strains have reached
    /// together.
    pub open spec fn reached(&self, vv: Seq<(u16, u64)>, strains: Seq<u64>, h: u16) -> u64
        decreases strains.len(),
    {
        if strains.len() == 0 {
            vv_get(vv, h)
        } else {
            let p = self.reached(vv, strains.drop_last(), h);
            match self.record(strains.last()) {
                Err(_) => p,
                Ok(m) => if m.content is Some {
                    vv_max(p, vv_get(m.content_vv(), h))
                } else {
                    p
                },
            }
        }
    }

    proof fn lemma_strain_error(&self, strains: Seq<u64>, i: int)
        requires
            0 <= i <= strains.len(),
            self.strain_error(strains.take(i)) is Some,
        ensures
            self.strain_error(strains) == self.strain_error(strains.take(i)),
        decreases strains.len() - i,
    {
        if i < strains.len() {
            assert(strains.take(i + 1).drop_last() =~= strains.take(i));
            self.lemma_strain_error(strains, i + 1);
        } else {
            assert(strains.take(i) =~= strains);
        }
    }

    /// Joins the vectors of a head and its strains.
    fn join_strains(&self, rec: &UnitRecord) -> (r: Result<VersionVector, Error>)
        ensures
            match self.strain_error(rec@.strains) {
                Some(e) => r is Err && r->Err_0 == e,
                None => r is Ok && forall|h: u16| #[trigger]
                    vv_get(r->Ok_0@, h) == self.reached(rec@.content_vv(), rec@.strains, h),
            },
    {
        let mut vv: VersionVector = rec.vector();
        let ghost strains = rec@.strains;
        let n: usize = rec.concurrent_strains.len();
        let mut i: usize = 0;
        proof {
            assert(strains.take(0) =~= Seq::empty());
        }
        while i < n
            invariant
                strains == rec@.strains,
                n == strains.len(),
                i <= n,
                self.strain_error(strains.take(i as int)) is None,
                forall|h: u16| #[trigger]
                    vv_get(vv@, h) == self.reached(rec@.content_vv(), strains.take(i as int), h),
            decreases n - i,
        {
            proof {
                assert(strains.take(i + 1).drop_last() =~= strains.take(i as int));
                assert(strains.take(i + 1).last() == strains[i as int]);
                if self.strain_error(strains.take(i + 1)) is Some {
                    self.lemma_strain_error(strains, i + 1);
                }
            }
            let strain: UnitRecord = match self.read_record_at(rec.concurrent_strains[i]) {
                Err(e) => {
                    return Err(e);
                },
                Ok(s) => s,
            };
            match &strain.content {
                None => {},
                Some(sm) => {
                    vv = vv.join(&sm.vv);
                },
            }
            i = i + 1;
        }
        proof {
            assert(strains.take(n as int) =~= strains);
        }
        Ok(vv)
    }

    /// Some fragment of the head is not synced yet.
    pub open spec fn has_hole(m: RecordModel) -> bool {
        exists|f: int| 0 <= f < m.stream().locations.len() && #[trigger] Self::hole_at(m, f)
    }

    /// The content that a resolution asks for.
    pub open spec fn resolution(&self, key: Seq<u8>, m: RecordModel, r: Resolution) -> Result<
        Seq<u8>,
        Error,
    > {
        match r {
            Resolution::MergedContent(b) => Ok(b@),
            Resolution::ChooseStrain(i) => if i == 0 {
                if Self::has_hole(m) {
                    Err(Error::NotFound)
                } else {
                    self.full(m)
                }
            } else if !valid_utf8(key) {
                Err(Error::Integrity)
            } else {
                self.strain_content(m, i as nat)
            },
        }
    }

    /// The fragment size of resolved content.
    pub open spec fn resolved_exp(m: RecordModel, len: nat) -> u8 {
        if m.stream().n() == 0 {
            exp_for(longer(len, 1), 12, 22)
        } else {
            m.stream().fragsize_exp
        }
    }

    /// The machine limits of a resolution.
    pub open spec fn resolution_fits(&self, key: Seq<u8>, r: Resolution) -> bool {
        self.head(key) is Ok ==> {
            let m = self.head(key)->Ok_0.2;
            &&& self.reached(m.content_vv(), m.strains, self.local_alias) < u64::MAX
            &&& self.resolution(key, m, r) is Ok ==> {
                let len = self.resolution(key, m, r)->Ok_0.len();
                &&& len <= 0x7fff_ffff_ffff_ffff
                &&& few_frags(len, Self::resolved_exp(m, len))
            }
        }
    }

    /// `r1` is the head that resolves the conflict of head `m` with content
    /// `bytes`: it follows the head, supersedes every strain, and its vector is
    /// ahead of all of them.
    pub open spec fn resolved_record(
        o: &Self,
        e: &Self,
        addr: u64,
        m: RecordModel,
        bytes: Seq<u8>,
        r1: RecordModel,
    ) -> bool {
        let sm1 = r1.stream();
        let exp = Self::resolved_exp(m, bytes.len());
        let n = frags_for(bytes.len(), exp);
        let next = (o.reached(m.content_vv(), m.strains, o.local_alias) + 1) as u64;
        &&& r1 == (RecordModel {
            uuid: m.uuid,
            content: Some(sm1),
            meta: m.meta,
            parent: Some(addr),
            strains: Seq::empty(),
            content_suite: Some(o.header.content_cipher),
            frag_suites: Seq::empty(),
            signature: r1.signature,
            db: m.db,
            superseded: m.strains,
        })
        &&& vv_ordered(sm1.vv)
        &&& forall|h: u16| #[trigger]
            vv_get(sm1.vv, h) == if h == o.local_alias {
                next
            } else {
                o.reached(m.content_vv(), m.strains, h)
            }
        &&& sm1.fragsize_exp == exp
        &&& sm1.unit_map.len() == n
        &&& sm1.locations.len() == n
        &&& sm1.pins.len() == 0
        &&& sm1.last_frag_length == if n == 0 {
            0
        } else {
            last_len(bytes.len(), exp) as int
        }
        &&& forall|g: int| 0 <= g < n ==> #[trigger] sm1.unit_map[g] == dot(o.local_alias, next)
        &&& forall|g: int|
            0 <= g < n ==> #[trigger] e.frag(r1, g) == Ok::<Seq<u8>, Error>(
                o.padded(frag_slice(bytes, frag_bytes(exp) as int, g), exp),
            )
        &&& e.contents(r1) == bytes
    }

    /// What resolving the conflict at `key` does.
    pub open spec fn resolution_done(o: &Self, e: &Self, key: Seq<u8>, r: Resolution) -> bool {
        let (uuid, addr, m) = o.head(key)->Ok_0;
        let r1 = e.recs().last();
        &&& e.recs() == o.recs().push(r1)
        &&& e.recs().len() <= u64::MAX
        &&& e.ids@ == o.ids@.insert(uuid@, e.recs().len() as u64)
        &&& e.keys@ == o.keys@
        &&& Self::resolved_record(o, e, addr, m, o.resolution(key, m, r)->Ok_0, r1)
        &&& r1 == o.signed_fresh((RecordModel { signature: None, ..r1 }))
        &&& Self::same_setup(o, e)
        &&& Self::past_kept(o, e)
        &&& Self::commit_step(o, e)
    }

    /// Why a conflict cannot be resolved.
    pub open spec fn resolve_error(&self, key: Seq<u8>, m: RecordModel, r: Resolution) -> Option<Error> {
        match self.strain_error(m.strains) {
            Some(e) => Some(e),
            None => match self.resolution(key, m, r) {
                Err(e) => Some(e),
                Ok(_) => if !C::known(self.header.content_cipher) {
                    Some(Error::Crypto)
                } else if !self.may_sign() {
                    Some(Error::Integrity)
                } else {
                    None
                },
            },
        }
    }

    fn resolved_bytes(&self, key: &[u8], rec: &UnitRecord, r: Resolution) -> (out: Result<
        Vec<u8>,
        Error,
    >)
        requires
            self.inv(),
            self.strains_fit(key@),
            self.head(key@) is Ok,
            self.head(key@)->Ok_0.2 == rec@,
        ensures
            match self.resolution(key@, rec@, r) {
                Err(e) => out == Err::<Vec<u8>, Error>(e),
                Ok(s) => out is Ok && out->Ok_0@ == s,
            },
    {
        match r {
            Resolution::MergedContent(b) => Ok(b),
            Resolution::ChooseStrain(i) => {
                if i == 0 {
                    if Self::holes_in(rec) {
                        return Err(Error::NotFound);
                    }
                    return self.read_full(rec);
                }
                let copy: Vec<u8> = copy_range(key, 0, key.len());
                proof {
                    assert(copy@ =~= key@);
                }
                if string_from_utf8(copy).is_none() {
                    return Err(Error::Integrity);
                }
                self.read_strain_of(rec, i)
            },
        }
    }

    /// Resolves the conflict of the unit at a key: one content goes on, with a
    /// vector ahead of every strain. Without a conflict nothing happens.
    pub fn resolve_conflict(&mut self, key: &[u8], r: Resolution) -> (out: Result<(), Error>)
        requires
            old(self).inv(),
            old(self).header.commit_seq < u64::MAX,
            old(self).strains_fit(key@),
            old(self).resolution_fits(key@, r),
        ensures
            final(self).inv(),
            old(self).recoverable() ==> final(self).recoverable(),
            match old(self).head(key@) {
                Err(e) => out == Err::<(), Error>(e) && *final(self) == *old(self),
                Ok((uuid, addr, m)) => if m.strains.len() == 0 {
                    out is Ok && *final(self) == *old(self)
                } else {
                    match old(self).resolve_error(key@, m, r) {
                        Some(e) => out == Err::<(), Error>(e) && Self::nothing_installed(
                            old(self),
                            final(self),
                        ),
                        None => out is Ok && Self::resolution_done(
                            old(self),
                            final(self),
                            key@,
                            r,
                        ),
                    }
                },
            },
    {
        let ghost o = *self;
        let ghost lo = o.slots().len();
        let (uuid, addr, rec): (Uuid, u64, UnitRecord) = match self.find_head(key) {
            Err(e) => {
                return Err(e);
            },
            Ok(x) => x,
        };
        let ghost m = rec@;
        if rec.concurrent_strains.len() == 0 {
            return Ok(());
        }
        let mut vv: VersionVector = match self.join_strains(&rec) {
            Err(e) => {
                return Err(e);
            },
            Ok(v) => v,
        };
        let ghost joined = vv@;
        let sync_id: u64 = vv.bump(self.local_alias);
        let bytes: Vec<u8> = match self.resolved_bytes(key, &rec, r) {
            Err(e) => {
                return Err(e);
            },
            Ok(b) => b,
        };
        let len: u64 = bytes.len() as u64;
        let exp: u8 = match &rec.content {
            None => derive_fragsize_exp(if len >= 1 { len } else { 1 }, 12, 22),
            Some(sm) => if sm.unit_map.len() == 0 {
                derive_fragsize_exp(if len >= 1 { len } else { 1 }, 12, 22)
            } else {
                sm.fragsize_exp
            },
        };
        if !C::is_known(self.header.content_cipher) {
            return Err(Error::Crypto);
        }
        proof {
            lemma_exp_range(longer(len as nat, 1), 12, 22);
            assert(exp == Self::resolved_exp(m, bytes@.len()));
            assert(exp <= 31);
        }
        let version: u64 = pack_dot(self.local_alias, sync_id);
        let mut unit_map: Vec<u64> = Vec::new();
        let mut locations: Vec<BlockLoc> = Vec::new();
        self.store_content(&uuid, &bytes, exp, version, false, &mut unit_map, &mut locations);
        let ghost mid = *self;
        let last: u32 = if unit_map.len() == 0 {
            0
        } else {
            last_frag_length(len, exp)
        };
        let out: UnitRecord = UnitRecord {
            uuid,
            content: Some(
                StreamMeta {
                    unit_map,
                    locations,
                    vv,
                    fragsize_exp: exp,
                    last_frag_length: last,
                    pins: Vec::new(),
                },
            ),
            meta: clone_stream(&rec.meta),
            parent: Some(addr),
            concurrent_strains: Vec::new(),
            content_suite: Some(self.header.content_cipher),
            frag_suites: Vec::new(),
            signature: None,
            db: rec.db,
            superseded: copy_u64s(&rec.concurrent_strains),
        };
        let ghost r1 = out@;
        proof {
            assert(r1.strains =~= Seq::<u64>::empty());
            assert(r1.frag_suites =~= Seq::<u8>::empty());
            assert(r1.superseded =~= m.strains);
            Self::lemma_content_stored(&o, &mid, r1, bytes@, exp, version);
            assert forall|a: u64| #[trigger] mid.dirty@.contains(a) implies a <= lo by {
                assert(in_heap(o.slots(), a));
            }
            Self::lemma_fresh_places(&o, &mid, m, r1);
            o.lemma_may_sign(r1);
            mid.lemma_may_sign(r1);
        }
        match self.commit_head(out, RecordSignIntent::Fresh, Ghost(lo)) {
            Err(e) => Err(e),
            Ok(()) => {
                proof {
                    let w = self.recs().last();
                    assert(w == (RecordModel { signature: w.signature, ..r1 }));
                    assert((RecordModel { signature: None, ..w }) == r1);
                    self.lemma_signature_free(r1, w);
                    Self::lemma_same_contents(&mid, &*self, r1);
                    assert forall|g: int| 0 <= g < w.stream().n() implies #[trigger] self.frag(w, g)
                        == Ok::<Seq<u8>, Error>(
                        o.padded(frag_slice(bytes@, frag_bytes(exp) as int, g), exp),
                    ) by {
                        assert(self.frag(w, g) == self.frag(r1, g));
                        assert(self.frag(r1, g) == mid.frag(r1, g));
                    }
                }
                Ok(())
            },
        }
    }

    /// Content that was split into fresh slots is read back from them.
    pub proof fn lemma_content_stored(
        o: &Self,
        e: &Self,
        r1: RecordModel,
        bytes: Seq<u8>,
        exp: u8,
        version: u64,
    )
        requires
            exp <= 31,
            e.header == o.header,
            e.root_key == o.root_key,
            C::known(o.header.content_cipher),
            r1.content is Some,
            r1.content_suite == Some(o.header.content_cipher),
            r1.frag_suites.len() == 0,
            r1.stream().fragsize_exp == exp,
            r1.stream().unit_map.len() == frags_for(bytes.len(), exp),
            r1.stream().locations.len() == frags_for(bytes.len(), exp),
            r1.stream().n() > 0 ==> r1.stream().last_frag_length == last_len(bytes.len(), exp),
            forall|g: int|
                0 <= g < r1.stream().n() ==> #[trigger] r1.stream().unit_map[g] == version,
            forall|g: int|
                0 <= g < r1.stream().n() ==> {
                    let loc = #[trigger] r1.stream().locations[g];
                    let plain = frag_slice(bytes, frag_bytes(exp) as int, g);
                    let block = o.sealed_frag(r1.uuid, g, version, plain, exp);
                    &&& loc != hole()
                    &&& stored_at(e.slots(), loc) == Some(block)
                    &&& C::opened(
                        o.header.content_cipher,
                        o.root_key,
                        o.ctx(r1.uuid, g, version),
                        block,
                    ) == Some(o.padded(plain, exp))
                },
        ensures
            e.contents(r1) == bytes,
            forall|g: int|
                0 <= g < r1.stream().n() ==> #[trigger] e.frag(r1, g) == Ok::<Seq<u8>, Error>(
                    o.padded(frag_slice(bytes, frag_bytes(exp) as int, g), exp),
                ),
    {
        let fs = frag_bytes(exp) as int;
        lemma_frag_bytes(exp);
        lemma_frags(bytes.len(), exp);
        assert forall|g: int| 0 <= g < r1.stream().n() implies #[trigger] e.frag(r1, g) == Ok::<
            Seq<u8>,
            Error,
        >(o.padded(frag_slice(bytes, fs, g), exp)) by {
            let loc = r1.stream().locations[g];
            assert(r1.stream().unit_map[g] == version);
            assert(stored_at(e.slots(), loc) is Some);
        }
        if bytes.len() > 0 {
            let none = RecordModel { content: None, ..r1 };
            assert(o.contents(none) =~= Seq::<u8>::empty());
            assert(o.target(none, 0, bytes) =~= bytes);
            let touched = |g: int| true;
            Self::lemma_contents_touched(o, e, none, 0, bytes, r1, exp, touched);
        } else {
            assert(e.contents(r1) =~= bytes);
        }
    }

    /// Content in fresh slots, one each, shares no slot.
    pub proof fn lemma_fresh_places(o: &Self, e: &Self, m: RecordModel, r1: RecordModel)
        requires
            o.inv(),
            o.ids@.contains_key(m.uuid@),
            o.head_of(m.uuid@) == m,
            r1.meta == m.meta,
            r1.content is Some,
            o.slots().len() <= e.slots().len(),
            forall|g: int|
                0 <= g < r1.stream().locations.len() ==> o.slots().len() < (
                #[trigger] r1.stream().locations[g]).addr <= e.slots().len()
                    && r1.stream().locations[g].addr == o.slots().len() + g + 1,
        ensures
            places_step(o.ids@, o.recs(), m.uuid@, r1, o.slots().len(), e.slots().len()),
    {
        let lo = o.slots().len();
        let k = m.uuid@;
        let locs = r1.stream().locations;
        assert forall|p: int| #[trigger]
            place(r1, p) == 0 || place(r1, p) == live(o.ids@, o.recs(), k, p) || lo < place(r1, p)
                <= e.slots().len() by {
            if 0 <= p < locs.len() {
                assert(locs[p].addr > lo);
            }
        }
        assert forall|p: int, q: int|
            #![trigger place(r1, p), place(r1, q)]
            place(r1, p) > lo && place(r1, p) == place(r1, q) implies p == q by {
            assert(live(o.ids@, o.recs(), k, -1) <= lo);
            if 0 <= p < locs.len() {
                assert(locs[p].addr == lo + p + 1);
            }
            if 0 <= q < locs.len() {
                assert(locs[q].addr == lo + q + 1);
            }
        }
    }
}

/// A resolution contains everything that any strain knew: its vector dominates
/// the head's and each strain's.
pub proof fn law_resolution_contains_every_strain<C: Crypto>(
    o: &Engine<C>,
    e: &Engine<C>,
    addr: u64,
    m: RecordModel,
    bytes: Seq<u8>,
    r1: RecordModel,
    i: int,
)
    requires
        Engine::<C>::resolved_record(o, e, addr, m, bytes, r1),
        o.reached(m.content_vv(), m.strains, o.local_alias) < u64::MAX,
        0 <= i < m.strains.len(),
        o.record(m.strains[i]) is Ok,
        o.record(m.strains[i])->Ok_0.content is Some,
    ensures
        vv_dominates(r1.content_vv(), m.content_vv()),
        vv_dominates(r1.content_vv(), o.record(m.strains[i])->Ok_0.content_vv()),
        r1.content_vv() != m.content_vv(),
        r1.content_vv() != o.record(m.strains[i])->Ok_0.content_vv(),
        r1.strains.len() == 0,
        r1.superseded.contains(m.strains[i]),
{
    let s = o.record(m.strains[i])->Ok_0.content_vv();
    assert forall|h: u16| #[trigger] vv_get(r1.content_vv(), h) >= vv_get(m.content_vv(), h) by {
        lemma_reached(o, m.content_vv(), m.strains, i, h);
    }
    assert forall|h: u16| #[trigger] vv_get(r1.content_vv(), h) >= vv_get(s, h) by {
        lemma_reached(o, m.content_vv(), m.strains, i, h);
    }
    lemma_reached(o, m.content_vv(), m.strains, i, o.local_alias);
    assert(vv_get(r1.content_vv(), o.local_alias) > vv_get(s, o.local_alias));
    assert(vv_get(r1.content_vv(), o.local_alias) > vv_get(m.content_vv(), o.local_alias));
}

proof fn lemma_reached<C: Crypto>(
    o: &Engine<C>,
    vv: Seq<(u16, u64)>,
    strains: Seq<u64>,
    i: int,
    h: u16,
)
    requires
        0 <= i < strains.len(),
        o.record(strains[i]) is Ok,
        o.record(strains[i])->Ok_0.content is Some,
    ensures
        o.reached(vv, strains, h) >= vv_get(vv, h),
        o.reached(vv, strains, h) >= vv_get(o.record(strains[i])->Ok_0.content_vv(), h),
    decreases strains.len(),
{
    lemma_reached_base(o, vv, strains, h);
    if i < strains.len() - 1 {
        lemma_reached(o, vv, strains.drop_last(), i, h);
    }
}

proof fn lemma_reached_base<C: Crypto>(
    o: &Engine<C>,
    vv: Seq<(u16, u64)>,
    strains: Seq<u64>,
    h: u16,
)
    ensures
        o.reached(vv, strains, h) >= vv_get(vv, h),
    decreases strains.len(),
{
    if strains.len() > 0 {
        lemma_reached_base(o, vv, strains.drop_last(), h);
    }
}

} // verus!
