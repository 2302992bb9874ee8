//! Creating, naming and listing units.
use vstd::prelude::*;
use vstd::string::StringSliceAdditionalSpecFns;
use vstd::utf8::{decode_utf8, encode_utf8, valid_utf8};

use crate::bytes::{copy_range, push_all, push_range, same_bytes, take16};
use crate::catalog::{
    has_prefix, lemma_map_of, lex_lt, pair_view, starts_with, with_prefix, ByteMap,
};
use crate::crypto::Crypto;
use crate::engine::{live, place, places_step, Engine, RecordSignIntent};
use crate::error::Error;
use crate::outside::{random_bytes, string_from_utf8};
use crate::unit::{
    empty_content_stream, empty_stream, max_of, stream_byte_len, BlockLoc, DbHead, RecordModel,
    StreamMeta, StreamModel, UnitKind, UnitRecord, Uuid,
};
use crate::vector::{vv_is_bump, VersionVector};

verus! {

/// One child of a directory.
#[derive(Debug, PartialEq, Eq, PartialOrd, Ord)]
pub struct DirEntry {
    /// The path segment.
    pub name: String,
    /// Whether something lies below it, or it is a unit without content.
    pub is_dir: bool,
    /// The unit at this very path, if there is one.
    pub uuid: Option<Uuid>,
}

/// What a look at a unit's head record tells.
#[derive(Debug, Clone, Copy, PartialEq, Eq)]
pub struct UnitSummary {
    pub uuid: Uuid,
    /// A unit without content.
    pub is_dir: bool,
    /// The logical byte length of the content.
    pub size: u64,
    pub fragment_count: u64,
    /// The largest fragment version; without content, that of the metadata.
    pub version: u64,
}

impl<C: Crypto> Engine<C> {
    /// The record of a fresh unit.
    pub open spec fn fresh_record(
        &self,
        uuid: Uuid,
        content: bool,
        db: Option<DbHead>,
        meta: Option<StreamModel>,
    ) -> RecordModel {
        RecordModel {
            uuid,
            content: if content {
                Some(empty_stream())
            } else {
                None
            },
            meta: if meta is None && !content {
                Some(empty_stream())
            } else {
                meta
            },
            parent: None,
            strains: Seq::empty(),
            content_suite: Some(self.header.content_cipher),
            frag_suites: Seq::empty(),
            signature: None,
            db,
            superseded: Seq::empty(),
        }
    }

    /// What creating a unit with a given identity, and a given nonce for its
    /// metadata, does.
    pub open spec fn create_step(
        o: &Self,
        e: &Self,
        key: Seq<u8>,
        uuid: Uuid,
        content: bool,
        db: Option<DbHead>,
        meta: Option<(Seq<u8>, Seq<u8>)>,
        r: Result<Uuid, Error>,
    ) -> bool {
        if o.keys@.contains_key(key) {
            r == Err::<Uuid, Error>(Error::Integrity) && *e == *o
        } else if !o.may_sign() {
            r == Err::<Uuid, Error>(Error::Integrity) && Self::nothing_installed(o, e)
        } else {
            let m = e.recs().last();
            &&& r == Ok::<Uuid, Error>(uuid)
            &&& e.recs() == o.recs().push(m)
            &&& e.recs().len() <= u64::MAX
            &&& e.ids@ == o.ids@.insert(uuid@, e.recs().len() as u64)
            &&& e.keys@ == o.keys@.insert(key, uuid)
            &&& Self::same_setup(o, e)
            &&& Self::past_kept(o, e)
            &&& Self::commit_step(o, e)
            &&& match meta {
                None => {
                    &&& e.slots() == o.slots()
                    &&& m == o.signed_fresh(o.fresh_record(uuid, content, db, None))
                },
                Some((plain, nonce)) => {
                    let version = crate::block::dot(o.local_alias, 1);
                    let addr = (o.slots().len() + 1) as u64;
                    &&& e.slots() == o.slots().push(
                        o.meta_block(uuid, addr, version, nonce, plain),
                    )
                    &&& m.meta is Some
                    &&& vv_is_bump(Seq::empty(), o.local_alias, m.meta_vv())
                    &&& m.meta->Some_0 == Self::meta_stream(
                        m.meta_vv(),
                        version,
                        (BlockLoc { addr, len: e.slots().last().len() as u32 }),
                    )
                    &&& m == o.signed_fresh(o.fresh_record(uuid, content, db, m.meta))
                },
            }
        }
    }

    /// Creates a unit with a given identity at a key that is not taken. Metadata
    /// comes with the nonce to seal it with.
    pub fn create_unit_as(
        &mut self,
        key: &[u8],
        uuid: Uuid,
        content: bool,
        db: Option<DbHead>,
        meta: Option<(&[u8], &[u8])>,
    ) -> (r: Result<Uuid, Error>)
        requires
            old(self).inv(),
            old(self).header.commit_seq < u64::MAX,
            meta is Some ==> meta->Some_0.0@.len() + 28 <= u32::MAX && meta->Some_0.1@.len() == 12,
        ensures
            final(self).inv(),
            old(self).recoverable() ==> final(self).recoverable(),
            Self::create_step(
                old(self),
                final(self),
                key@,
                uuid,
                content,
                db,
                match meta {
                    Some(m) => Some((m.0@, m.1@)),
                    None => None,
                },
                r,
            ),
    {
        let ghost o = *self;
        let ghost lo = o.slots().len();
        if self.keys.get(key).is_some() {
            return Err(Error::Integrity);
        }
        let meta_slot: Option<StreamMeta> = match meta {
            Some((plain, nonce)) => {
                let mut vv: VersionVector = VersionVector::new();
                proof {
                    assert(!crate::vector::vv_has(vv@, self.local_alias));
                }
                let sync_id: u64 = vv.bump(self.local_alias);
                let version: u64 = crate::block::pack_dot(self.local_alias, sync_id);
                Some(self.stage_meta(&uuid, plain, version, vv, nonce))
            },
            None => if content {
                None
            } else {
                Some(empty_content_stream())
            },
        };
        let ghost mid = *self;
        let rec: UnitRecord = UnitRecord {
            uuid,
            content: if content {
                Some(empty_content_stream())
            } else {
                None
            },
            meta: meta_slot,
            parent: None,
            concurrent_strains: Vec::new(),
            content_suite: Some(self.header.content_cipher),
            frag_suites: Vec::new(),
            signature: None,
            db,
            superseded: Vec::new(),
        };
        let ghost r1 = rec@;
        proof {
            assert(r1.strains =~= Seq::<u64>::empty());
            assert(r1.superseded =~= Seq::<u64>::empty());
            assert(r1.frag_suites =~= Seq::<u8>::empty());
            assert forall|p: int| #[trigger]
                place(r1, p) == 0 || place(r1, p) == live(o.ids@, o.recs(), uuid@, p) || lo
                    < place(r1, p) <= self.slots().len() by {}
            assert(places_step(o.ids@, o.recs(), uuid@, r1, lo, self.slots().len()));
            o.lemma_may_sign(r1);
            self.lemma_may_sign(r1);
        }
        match self.install_head(rec, RecordSignIntent::Fresh, Ghost(lo)) {
            Err(e) => {
                return Err(e);
            },
            Ok(_) => {},
        }
        self.keys.put(key, uuid);
        self.publish();
        Ok(uuid)
    }

    /// Draws an identity and a nonce.
    fn draw() -> (r: Option<(Uuid, Vec<u8>)>)
        ensures
            r is Some ==> r->Some_0.1@.len() == 12,
    {
        let id: Vec<u8> = match random_bytes(16) {
            None => {
                return None;
            },
            Some(v) => v,
        };
        let nonce: Vec<u8> = match random_bytes(12) {
            None => {
                return None;
            },
            Some(v) => v,
        };
        Some((take16(id.as_slice(), 0), nonce))
    }

    /// Creates a unit with a random identity.
    fn create_unit_inner(
        &mut self,
        key: &[u8],
        content: bool,
        db: Option<DbHead>,
        meta: Option<&[u8]>,
    ) -> (r: Result<Uuid, Error>)
        requires
            old(self).inv(),
            old(self).header.commit_seq < u64::MAX,
            meta is Some ==> meta->Some_0@.len() + 28 <= u32::MAX,
        ensures
            final(self).inv(),
            old(self).recoverable() ==> final(self).recoverable(),
            Self::created(old(self), final(self), key@, content, db, opt_bytes(meta), r),
    {
        if self.keys.get(key).is_some() {
            proof {
                let none: Uuid = arbitrary();
                let nonce = Seq::new(12, |i: int| 0u8);
                assert(Self::create_step(
                    old(self),
                    &*self,
                    key@,
                    none,
                    content,
                    db,
                    with_nonce(opt_bytes(meta), nonce),
                    Err(Error::Integrity),
                ));
            }
            return Err(Error::Integrity);
        }
        let (uuid, nonce): (Uuid, Vec<u8>) = match Self::draw() {
            None => {
                return Err(Error::Entropy);
            },
            Some(x) => x,
        };
        proof {
            assert(with_nonce(opt_bytes(meta), nonce@) == match meta {
                Some(m) => Some((m@, nonce@)),
                None => None,
            });
        }
        match meta {
            None => self.create_unit_as(key, uuid, content, db, None),
            Some(m) => self.create_unit_as(key, uuid, content, db, Some((m, nonce.as_slice()))),
        }
    }

    /// What creating a unit does, whatever identity and nonce were drawn; the
    /// system may have none to give.
    pub open spec fn created(
        o: &Self,
        e: &Self,
        key: Seq<u8>,
        content: bool,
        db: Option<DbHead>,
        meta: Option<Seq<u8>>,
        r: Result<Uuid, Error>,
    ) -> bool {
        ||| r == Err::<Uuid, Error>(Error::Entropy) && *e == *o && !o.keys@.contains_key(key)
        ||| exists|uuid: Uuid, nonce: Seq<u8>|
            nonce.len() == 12 && #[trigger] Self::create_step(
                o,
                e,
                key,
                uuid,
                content,
                db,
                with_nonce(meta, nonce),
                r,
            )
    }

    /// Creates a unit with empty content.
    pub fn create_unit(&mut self, path: &str) -> (r: Result<Uuid, Error>)
        requires
            old(self).inv(),
            old(self).header.commit_seq < u64::MAX,
        ensures
            final(self).inv(),
            old(self).recoverable() ==> final(self).recoverable(),
            Self::created(old(self), final(self), path.spec_bytes(), true, None, None, r),
    {
        self.create_unit_inner(path.as_bytes(), true, None, None)
    }

    /// Creates a unit with empty content at an arbitrary key.
    pub fn create_unit_raw_key(&mut self, key: &[u8]) -> (r: Result<Uuid, Error>)
        requires
            old(self).inv(),
            old(self).header.commit_seq < u64::MAX,
        ensures
            final(self).inv(),
            old(self).recoverable() ==> final(self).recoverable(),
            Self::created(old(self), final(self), key@, true, None, None, r),
    {
        self.create_unit_inner(key, true, None, None)
    }

    /// Creates a document-store unit.
    pub fn create_kv_unit(&mut self, path: &str, store: [u8; 16], pk: [u8; 16]) -> (r: Result<
        Uuid,
        Error,
    >)
        requires
            old(self).inv(),
            old(self).header.commit_seq < u64::MAX,
        ensures
            final(self).inv(),
            old(self).recoverable() ==> final(self).recoverable(),
            Self::created(
                old(self),
                final(self),
                path.spec_bytes(),
                true,
                Some(DbHead { store, pk, kind: UnitKind::KvRecord }),
                None,
                r,
            ),
    {
        let db: DbHead = DbHead { store, pk, kind: UnitKind::KvRecord };
        self.create_unit_inner(path.as_bytes(), true, Some(db), None)
    }

    /// Creates a unit without content.
    pub fn mkdir(&mut self, path: &str) -> (r: Result<Uuid, Error>)
        requires
            old(self).inv(),
            old(self).header.commit_seq < u64::MAX,
        ensures
            final(self).inv(),
            old(self).recoverable() ==> final(self).recoverable(),
            Self::created(old(self), final(self), path.spec_bytes(), false, None, None, r),
    {
        self.create_unit_inner(path.as_bytes(), false, None, None)
    }

    /// Creates a unit with empty content and with metadata.
    pub fn create_unit_with_meta(&mut self, path: &str, meta_bytes: &[u8]) -> (r: Result<
        Uuid,
        Error,
    >)
        requires
            old(self).inv(),
            old(self).header.commit_seq < u64::MAX,
            meta_bytes@.len() + 28 <= u32::MAX,
        ensures
            final(self).inv(),
            old(self).recoverable() ==> final(self).recoverable(),
            Self::created(
                old(self),
                final(self),
                path.spec_bytes(),
                true,
                None,
                Some(meta_bytes@),
                r,
            ),
    {
        self.create_unit_inner(path.as_bytes(), true, None, Some(meta_bytes))
    }

    /// Creates a unit without content and with metadata.
    pub fn mkdir_with_meta(&mut self, path: &str, meta_bytes: &[u8]) -> (r: Result<Uuid, Error>)
        requires
            old(self).inv(),
            old(self).header.commit_seq < u64::MAX,
            meta_bytes@.len() + 28 <= u32::MAX,
        ensures
            final(self).inv(),
            old(self).recoverable() ==> final(self).recoverable(),
            Self::created(
                old(self),
                final(self),
                path.spec_bytes(),
                false,
                None,
                Some(meta_bytes@),
                r,
            ),
    {
        self.create_unit_inner(path.as_bytes(), false, None, Some(meta_bytes))
    }
}

/// Metadata beside the nonce that seals it.
pub open spec fn with_nonce(meta: Option<Seq<u8>>, nonce: Seq<u8>) -> Option<
    (Seq<u8>, Seq<u8>),
> {
    match meta {
        Some(m) => Some((m, nonce)),
        None => None,
    }
}

pub open spec fn opt_bytes(m: Option<&[u8]>) -> Option<Seq<u8>> {
    match m {
        Some(b) => Some(b@),
        None => None,
    }
}

/// `k` is `base` or lies below it.
pub open spec fn is_within(k: Seq<u8>, base: Seq<u8>) -> bool {
    k == base || (k.len() > base.len() && k.take(base.len() as int) == base && k[base.len() as int]
        == 0x2f)
}

pub fn within(k: &[u8], base: &[u8]) -> (r: bool)
    ensures
        r == is_within(k@, base@),
{
    if same_bytes(k, base) {
        return true;
    }
    if k.len() <= base.len() {
        return false;
    }
    starts_with(k, base) && k[base.len()] == 0x2f
}

/// The key that `k`, which lies in `from`, has once `from` is called `to`.
pub open spec fn moved_key(k: Seq<u8>, from: Seq<u8>, to: Seq<u8>) -> Seq<u8> {
    to + k.skip(from.len() as int)
}

/// The pairs of `s` within `base`.
pub open spec fn pairs_within(s: Seq<(Seq<u8>, Uuid)>, base: Seq<u8>) -> Seq<(Seq<u8>, Uuid)>
    decreases s.len(),
{
    if s.len() == 0 {
        Seq::empty()
    } else {
        let p = pairs_within(s.drop_last(), base);
        if is_within(s.last().0, base) {
            p.push(s.last())
        } else {
            p
        }
    }
}

/// The catalog after the first `n` moves.
pub open spec fn after_moves(
    m: Map<Seq<u8>, Uuid>,
    moves: Seq<(Seq<u8>, Uuid)>,
    from: Seq<u8>,
    to: Seq<u8>,
    n: nat,
) -> Map<Seq<u8>, Uuid>
    decreases n,
{
    if n == 0 {
        m
    } else {
        let p = after_moves(m, moves, from, to, (n - 1) as nat);
        let (k, u) = moves[n - 1];
        p.insert(moved_key(k, from, to), u).remove(k)
    }
}

/// Every key of `s` is text.
pub open spec fn all_text(s: Seq<(Seq<u8>, Uuid)>) -> bool {
    forall|i: int| 0 <= i < s.len() ==> valid_utf8((#[trigger] s[i]).0)
}

impl<C: Crypto> Engine<C> {
    /// Only the path catalog changed, to `keys`.
    pub open spec fn names_step(o: &Self, e: &Self, keys: Map<Seq<u8>, Uuid>) -> bool {
        &&& e.keys@ == keys
        &&& e.ids@ == o.ids@
        &&& e.recs() == o.recs()
        &&& e.slots() == o.slots()
        &&& Self::past_kept(o, e)
        &&& Self::same_setup(o, e)
        &&& Self::commit_step(o, e)
    }

    /// The unit at `path`.
    pub fn uuid_for_path(&self, path: &str) -> (r: Result<Uuid, Error>)
        requires
            self.inv(),
        ensures
            r == if self.keys@.contains_key(path.spec_bytes()) {
                Ok::<Uuid, Error>(self.keys@[path.spec_bytes()])
            } else {
                Err::<Uuid, Error>(Error::NotFound)
            },
    {
        self.uuid_for_raw_key(path.as_bytes())
    }

    /// The unit at a key.
    pub fn uuid_for_raw_key(&self, key: &[u8]) -> (r: Result<Uuid, Error>)
        requires
            self.inv(),
        ensures
            r == if self.keys@.contains_key(key@) {
                Ok::<Uuid, Error>(self.keys@[key@])
            } else {
                Err::<Uuid, Error>(Error::NotFound)
            },
    {
        match self.keys.get(key) {
            None => Err(Error::NotFound),
            Some(u) => Ok(u),
        }
    }

    /// The address of the head record of the unit at `path`.
    pub fn head_record_addr(&self, path: &str) -> (r: Result<u64, Error>)
        requires
            self.inv(),
        ensures
            r == match self.head_at(path.spec_bytes()) {
                Ok((_, addr)) => Ok::<u64, Error>(addr),
                Err(e) => Err::<u64, Error>(e),
            },
    {
        match self.locate(path.as_bytes()) {
            Err(e) => Err(e),
            Ok((uuid, addr)) => Ok(addr),
        }
    }

    /// The document-store head of the unit at `path`.
    pub fn unit_db_head(&self, path: &str) -> (r: Result<Option<DbHead>, Error>)
        requires
            self.inv(),
        ensures
            r == match self.head(path.spec_bytes()) {
                Ok((_, _, m)) => Ok::<Option<DbHead>, Error>(m.db),
                Err(e) => Err::<Option<DbHead>, Error>(e),
            },
    {
        match self.find_head(path.as_bytes()) {
            Err(e) => Err(e),
            Ok((uuid, addr, rec)) => Ok(rec.db),
        }
    }

    /// The fragment-size exponent of the content at `path`.
    pub fn content_fragsize_exp(&self, path: &str) -> (r: Result<u8, Error>)
        requires
            self.inv(),
        ensures
            r == match self.head(path.spec_bytes()) {
                Ok((_, _, m)) => match m.content {
                    Some(sm) => Ok::<u8, Error>(sm.fragsize_exp),
                    None => Err::<u8, Error>(Error::NotFound),
                },
                Err(e) => Err::<u8, Error>(e),
            },
    {
        match self.find_head(path.as_bytes()) {
            Err(e) => Err(e),
            Ok((uuid, addr, rec)) => match &rec.content {
                None => Err(Error::NotFound),
                Some(sm) => Ok(sm.fragsize_exp),
            },
        }
    }

    /// The summary of a record. A unit without content has the version of its
    /// metadata.
    pub open spec fn summary(r: RecordModel) -> UnitSummary {
        UnitSummary {
            uuid: r.uuid,
            is_dir: r.content is None,
            size: r.stream().size() as u64,
            fragment_count: r.stream().n() as u64,
            version: match r.content {
                Some(sm) => sm.max_version(),
                None => match r.meta {
                    Some(sm) => sm.max_version(),
                    None => 0,
                },
            },
        }
    }

    fn summarise(rec: &UnitRecord) -> (s: UnitSummary)
        requires
            rec@.stream().geometry_ok(),
        ensures
            s == Self::summary(rec@),
    {
        match &rec.content {
            None => UnitSummary {
                uuid: rec.uuid,
                is_dir: true,
                size: 0,
                fragment_count: 0,
                version: match &rec.meta {
                    None => 0,
                    Some(sm) => max_of(&sm.unit_map),
                },
            },
            Some(sm) => UnitSummary {
                uuid: rec.uuid,
                is_dir: false,
                size: stream_byte_len(sm),
                fragment_count: sm.unit_map.len() as u64,
                version: max_of(&sm.unit_map),
            },
        }
    }

    /// A summary of the unit at `path`. A directory has the version of its
    /// metadata.
    pub fn unit_summary(&self, path: &str) -> (r: Result<UnitSummary, Error>)
        requires
            self.inv(),
            self.geometry_at(path.spec_bytes()),
        ensures
            r == match self.head(path.spec_bytes()) {
                Err(e) => Err::<UnitSummary, Error>(e),
                Ok((_, _, m)) => Ok::<UnitSummary, Error>(Self::summary(m)),
            },
    {
        match self.find_head(path.as_bytes()) {
            Err(e) => Err(e),
            Ok((uuid, addr, rec)) => Ok(Self::summarise(&rec)),
        }
    }

    /// A summary of the unit at a key. A directory has the version of its
    /// metadata.
    pub fn unit_summary_raw_key(&self, key: &[u8]) -> (r: Result<UnitSummary, Error>)
        requires
            self.inv(),
            self.geometry_at(key@),
        ensures
            r == match self.head(key@) {
                Err(e) => Err::<UnitSummary, Error>(e),
                Ok((_, _, m)) => Ok::<UnitSummary, Error>(Self::summary(m)),
            },
    {
        match self.find_head(key) {
            Err(e) => Err(e),
            Ok((uuid, addr, rec)) => Ok(Self::summarise(&rec)),
        }
    }

    /// What unlinking `k` does.
    pub open spec fn unlinked(o: &Self, e: &Self, k: Seq<u8>, r: Result<(), Error>) -> bool {
        &&& !o.keys@.contains_key(k) ==> r == Err::<(), Error>(Error::NotFound)
            && Self::nothing_installed(o, &(Engine { keys: o.keys, ..*e })) && e.keys@ == o.keys@
        &&& o.keys@.contains_key(k) ==> r is Ok && Self::names_step(o, e, o.keys@.remove(k))
    }

    /// Unlinks a path. The unit itself stays.
    pub fn remove(&mut self, path: &str) -> (r: Result<(), Error>)
        requires
            old(self).inv(),
            old(self).header.commit_seq < u64::MAX,
        ensures
            final(self).inv(),
            old(self).recoverable() ==> final(self).recoverable(),
            Self::unlinked(old(self), final(self), path.spec_bytes(), r),
    {
        let key: &[u8] = path.as_bytes();
        let existed: bool = self.keys.remove(key);
        if !existed {
            proof {
                assert(old(self).keys@.remove(key@) =~= old(self).keys@);
            }
            return Err(Error::NotFound);
        }
        self.publish();
        Ok(())
    }

    /// What moving the unit at `k` to `l` does.
    pub open spec fn renamed(
        o: &Self,
        e: &Self,
        k: Seq<u8>,
        l: Seq<u8>,
        r: Result<(), Error>,
    ) -> bool {
        let m = o.keys@;
        if !m.contains_key(k) {
            r == Err::<(), Error>(Error::NotFound) && *e == *o
        } else if m.contains_key(l) {
            r == Err::<(), Error>(Error::Integrity) && *e == *o
        } else {
            r is Ok && Self::names_step(o, e, m.insert(l, m[k]).remove(k))
        }
    }

    /// Moves a unit from one path to another that is free. The unit keeps its
    /// identity and history.
    pub fn rename(&mut self, old_path: &str, new_path: &str) -> (r: Result<(), Error>)
        requires
            old(self).inv(),
            old(self).header.commit_seq < u64::MAX,
        ensures
            final(self).inv(),
            old(self).recoverable() ==> final(self).recoverable(),
            Self::renamed(
                old(self),
                final(self),
                old_path.spec_bytes(),
                new_path.spec_bytes(),
                r,
            ),
    {
        let from: &[u8] = old_path.as_bytes();
        let to: &[u8] = new_path.as_bytes();
        let uuid: Uuid = match self.keys.get(from) {
            None => {
                return Err(Error::NotFound);
            },
            Some(u) => u,
        };
        if self.keys.get(to).is_some() {
            return Err(Error::Integrity);
        }
        self.keys.put(to, uuid);
        let gone: bool = self.keys.remove(from);
        self.publish();
        Ok(())
    }

    /// What giving the unit at `k` the path `l` does.
    pub open spec fn linked(
        o: &Self,
        e: &Self,
        k: Seq<u8>,
        l: Seq<u8>,
        r: Result<(), Error>,
    ) -> bool {
        let m = o.keys@;
        if !m.contains_key(k) {
            r == Err::<(), Error>(Error::NotFound) && *e == *o
        } else if m.contains_key(l) {
            r == Err::<(), Error>(Error::Integrity) && *e == *o
        } else {
            r is Ok && Self::names_step(o, e, m.insert(l, m[k]))
        }
    }

    /// Gives a unit a second path, which must be free.
    pub fn link(&mut self, existing_path: &str, new_path: &str) -> (r: Result<(), Error>)
        requires
            old(self).inv(),
            old(self).header.commit_seq < u64::MAX,
        ensures
            final(self).inv(),
            old(self).recoverable() ==> final(self).recoverable(),
            Self::linked(
                old(self),
                final(self),
                existing_path.spec_bytes(),
                new_path.spec_bytes(),
                r,
            ),
    {
        let to: &[u8] = new_path.as_bytes();
        let uuid: Uuid = match self.keys.get(existing_path.as_bytes()) {
            None => {
                return Err(Error::NotFound);
            },
            Some(u) => u,
        };
        if self.keys.get(to).is_some() {
            return Err(Error::Integrity);
        }
        self.keys.put(to, uuid);
        self.publish();
        Ok(())
    }

    /// Some key lies within `base`.
    pub open spec fn any_within(s: Seq<(Seq<u8>, Uuid)>, base: Seq<u8>) -> bool {
        exists|i: int| 0 <= i < s.len() && is_within((#[trigger] s[i]).0, base)
    }

    /// What moving the subtree `from` to `to` does.
    pub open spec fn prefix_renamed(
        o: &Self,
        e: &Self,
        from: Seq<u8>,
        to: Seq<u8>,
        r: Result<u64, Error>,
    ) -> bool {
        let moves = pairs_within(o.keys.pairs(), from);
        if is_within(to, from) {
            r == Err::<u64, Error>(Error::Integrity) && *e == *o
        } else if !all_text(moves) {
            r == Err::<u64, Error>(Error::Integrity) && *e == *o
        } else if moves.len() == 0 {
            r == Err::<u64, Error>(Error::NotFound) && *e == *o
        } else if Self::any_within(o.keys.pairs(), to) {
            r == Err::<u64, Error>(Error::Integrity) && *e == *o
        } else {
            r == Ok::<u64, Error>(moves.len() as u64) && Self::names_step(
                o,
                e,
                after_moves(o.keys@, moves, from, to, moves.len()),
            )
        }
    }

    /// Moves a whole subtree: the path itself and everything below it. Neither
    /// may the target lie within the source, nor anything at the target yet.
    pub fn rename_prefix(&mut self, old_path: &str, new_path: &str) -> (r: Result<u64, Error>)
        requires
            old(self).inv(),
            old(self).header.commit_seq < u64::MAX,
        ensures
            final(self).inv(),
            old(self).recoverable() ==> final(self).recoverable(),
            Self::prefix_renamed(
                old(self),
                final(self),
                old_path.spec_bytes(),
                new_path.spec_bytes(),
                r,
            ),
    {
        let from: &[u8] = old_path.as_bytes();
        let to: &[u8] = new_path.as_bytes();
        if within(to, from) {
            return Err(Error::Integrity);
        }
        let ghost pairs = self.keys.pairs();
        let n: usize = self.keys.len();
        let mut moves: Vec<(Vec<u8>, Uuid)> = Vec::new();
        let mut text: bool = true;
        let mut taken: bool = false;
        let mut i: usize = 0;
        proof {
            assert(pairs.take(0) =~= Seq::empty());
            assert(pair_view(moves@) =~= Seq::empty());
        }
        while i < n
            invariant
                pairs == self.keys.pairs(),
                n == pairs.len(),
                i <= n,
                from@ == old_path.spec_bytes(),
                to@ == new_path.spec_bytes(),
                pair_view(moves@) == pairs_within(pairs.take(i as int), from@),
                text == all_text(pairs_within(pairs.take(i as int), from@)),
                taken == Self::any_within(pairs.take(i as int), to@),
            decreases n - i,
        {
            let (k, u): (Vec<u8>, Uuid) = self.keys.pair_at(i);
            let ghost t = pairs.take(i + 1);
            proof {
                assert(t.drop_last() =~= pairs.take(i as int));
                assert(t.last() == pairs[i as int]);
                assert((k@, u) == pairs[i as int]);
            }
            let ghost before = pairs_within(pairs.take(i as int), from@);
            let ghost taken_before = taken;
            if within(k.as_slice(), to) {
                taken = true;
            }
            proof {
                if taken_before {
                    let j = choose|j: int|
                        0 <= j < pairs.take(i as int).len() && is_within(
                            (#[trigger] pairs.take(i as int)[j]).0,
                            to@,
                        );
                    assert(t[j] == pairs.take(i as int)[j]);
                }
                if is_within(k@, to@) {
                    assert(is_within(t[i as int].0, to@));
                }
                if Self::any_within(t, to@) {
                    let j = choose|j: int|
                        0 <= j < t.len() && is_within((#[trigger] t[j]).0, to@);
                    if j < i {
                        assert(is_within(pairs.take(i as int)[j].0, to@));
                    }
                }
            }
            if within(k.as_slice(), from) {
                let copy: Vec<u8> = copy_range(k.as_slice(), 0, k.len());
                proof {
                    assert(copy@ =~= k@);
                }
                let ghost text_before = text;
                if string_from_utf8(copy).is_none() {
                    text = false;
                }
                let ghost after = pairs_within(t, from@);
                let ghost mv = pair_view(moves@);
                moves.push((k, u));
                proof {
                    assert(after == before.push((k@, u)));
                    assert(pair_view(moves@) =~= mv.push((k@, u)));
                    assert(after[before.len() as int].0 == k@);
                    if text {
                        assert forall|j: int| 0 <= j < after.len() implies valid_utf8(
                            (#[trigger] after[j]).0,
                        ) by {
                            if j < before.len() {
                                assert(valid_utf8(before[j].0));
                            }
                        }
                    } else if !text_before {
                        let j = choose|j: int|
                            0 <= j < before.len() && !valid_utf8((#[trigger] before[j]).0);
                        assert(after[j] == before[j]);
                    }
                }
            }
            i = i + 1;
        }
        proof {
            assert(pairs.take(n as int) =~= pairs);
        }
        if !text {
            return Err(Error::Integrity);
        }
        if moves.len() == 0 {
            proof {
                assert(pair_view(moves@).len() == 0);
            }
            return Err(Error::NotFound);
        }
        if taken {
            return Err(Error::Integrity);
        }
        let ghost mv = pair_view(moves@);
        let total: usize = moves.len();
        let mut j: usize = 0;
        while j < total
            invariant
                total == moves@.len(),
                mv == pair_view(moves@),
                j <= total,
                mv == pairs_within(old(self).keys.pairs(), from@),
                self.inv(),
                old(self).recoverable() ==> self.recoverable(),
                *self == (Engine { keys: self.keys, ..*old(self) }),
                self.keys@ == after_moves(old(self).keys@, mv, from@, to@, j as nat),
            decreases total - j,
        {
            let k: &Vec<u8> = &moves[j].0;
            let mut dest: Vec<u8> = Vec::new();
            push_all(&mut dest, to);
            proof {
                assert(mv[j as int] == (k@, moves@[j as int].1));
                Self::lemma_moves_are_within(old(self).keys.pairs(), from@, j as int);
            }
            push_range(&mut dest, k.as_slice(), from.len(), k.len());
            proof {
                assert(dest@ =~= moved_key(k@, from@, to@));
            }
            self.keys.put(dest.as_slice(), moves[j].1);
            let gone: bool = self.keys.remove(k.as_slice());
            j = j + 1;
        }
        self.publish();
        Ok(total as u64)
    }

    proof fn lemma_moves_are_within(s: Seq<(Seq<u8>, Uuid)>, base: Seq<u8>, i: int)
        requires
            0 <= i < pairs_within(s, base).len(),
        ensures
            is_within(pairs_within(s, base)[i].0, base),
        decreases s.len(),
    {
        if s.len() > 0 {
            let p = pairs_within(s.drop_last(), base);
            if i < p.len() {
                Self::lemma_moves_are_within(s.drop_last(), base, i);
            }
        }
    }

    // ── Listing ─────────────────────────────────────────────────────────────

    /// What listing the paths that start with `prefix` gives.
    pub open spec fn paths_listed(&self, prefix: Seq<u8>, r: Result<Vec<String>, Error>) -> bool {
        let found = with_prefix(self.keys.pairs(), prefix);
        if all_text(found) {
            &&& r is Ok
            &&& r->Ok_0@.len() == found.len()
            &&& forall|i: int|
                0 <= i < found.len() ==> (#[trigger] r->Ok_0@[i])@ == decode_utf8(found[i].0)
        } else {
            r is Err && r->Err_0 == Error::Integrity
        }
    }

    /// All paths that start with `prefix`, in order.
    pub fn list(&self, prefix: &str) -> (r: Result<Vec<String>, Error>)
        requires
            self.inv(),
        ensures
            self.paths_listed(prefix.spec_bytes(), r),
    {
        let pairs: Vec<(Vec<u8>, Uuid)> = self.keys.scan(prefix.as_bytes());
        let ghost found = pair_view(pairs@);
        let mut out: Vec<String> = Vec::new();
        let mut i: usize = 0;
        while i < pairs.len()
            invariant
                found == pair_view(pairs@),
                found == with_prefix(self.keys.pairs(), prefix.spec_bytes()),
                i <= pairs.len(),
                out@.len() == i,
                forall|k: int|
                    0 <= k < i ==> valid_utf8((#[trigger] found[k]).0) && out@[k]@ == decode_utf8(
                        found[k].0,
                    ),
            decreases pairs.len() - i,
        {
            let k: Vec<u8> = copy_range(pairs[i].0.as_slice(), 0, pairs[i].0.len());
            proof {
                assert(k@ =~= found[i as int].0);
            }
            match string_from_utf8(k) {
                None => {
                    proof {
                        assert(!valid_utf8(found[i as int].0));
                    }
                    return Err(Error::Integrity);
                },
                Some(s) => {
                    out.push(s);
                },
            }
            i = i + 1;
        }
        proof {
            assert forall|k: int| 0 <= k < found.len() implies (#[trigger] out@[k])@
                == decode_utf8(found[k].0) by {
                assert(valid_utf8(found[k].0));
            }
        }
        Ok(out)
    }

    /// Whether a unit has metadata but no content; a unit without a record has
    /// neither.
    pub open spec fn meta_only(&self, uuid: Uuid) -> Result<bool, Error> {
        if !self.ids@.contains_key(uuid@) {
            Ok(false)
        } else {
            match self.record(self.ids@[uuid@]) {
                Err(e) => Err(e),
                Ok(r) => Ok(r.meta is Some && r.content is None),
            }
        }
    }

    fn is_meta_only_unit(&self, uuid: &Uuid) -> (r: Result<bool, Error>)
        requires
            self.inv(),
        ensures
            r == self.meta_only(*uuid),
    {
        match self.ids.get(uuid.as_slice()) {
            None => Ok(false),
            Some(addr) => match self.read_record_at(addr) {
                Err(e) => Err(e),
                Ok(rec) => Ok(rec.meta.is_some() && rec.content.is_none()),
            },
        }
    }
}

/// How long the first path segment of `s` is.
pub open spec fn seg_len(s: Seq<u8>) -> nat
    decreases s.len(),
{
    if s.len() == 0 || s[0] == 0x2f {
        0
    } else {
        1 + seg_len(s.skip(1))
    }
}

fn segment_len(s: &[u8], from: usize) -> (n: usize)
    requires
        from <= s@.len(),
    ensures
        n == seg_len(s@.skip(from as int)),
        from + n <= s@.len(),
{
    let len: usize = s.len();
    let mut i: usize = from;
    while i < len && s[i] != 0x2f
        invariant
            len == s@.len(),
            from <= i <= len,
            seg_len(s@.skip(from as int)) == (i - from) + seg_len(s@.skip(i as int)),
        decreases len - i,
    {
        proof {
            let t = s@.skip(i as int);
            assert(t[0] == s@[i as int]);
            assert(t.skip(1) =~= s@.skip(i + 1));
        }
        i = i + 1;
    }
    proof {
        let t = s@.skip(i as int);
        if i < len {
            assert(t[0] == s@[i as int]);
        }
        assert(seg_len(t) == 0);
    }
    i - from
}

impl<C: Crypto> Engine<C> {
    /// The children of a directory as far as the first `n` paths tell: for each
    /// segment whether it is a directory, and the unit at that very path.
    pub open spec fn dir_fold(
        &self,
        pairs: Seq<(Seq<u8>, Uuid)>,
        skip: int,
        n: nat,
    ) -> Result<Map<Seq<u8>, (bool, Option<Uuid>)>, Error>
        decreases n,
    {
        if n == 0 {
            Ok(Map::empty())
        } else {
            match self.dir_fold(pairs, skip, (n - 1) as nat) {
                Err(e) => Err(e),
                Ok(m) => {
                    let (k, u) = pairs[n - 1];
                    let rest = k.skip(skip);
                    let seg = rest.take(seg_len(rest) as int);
                    let cur = if m.contains_key(seg) {
                        m[seg]
                    } else {
                        (false, None)
                    };
                    if !valid_utf8(k) || !valid_utf8(seg) {
                        Err(Error::Integrity)
                    } else if seg.len() < rest.len() {
                        Ok(m.insert(seg, (true, cur.1)))
                    } else if cur.0 {
                        Ok(m.insert(seg, (true, Some(u))))
                    } else {
                        match self.meta_only(u) {
                            Err(e) => Err(e),
                            Ok(b) => Ok(m.insert(seg, (b, Some(u)))),
                        }
                    }
                },
            }
        }
    }

    proof fn lemma_dir_err(&self, pairs: Seq<(Seq<u8>, Uuid)>, skip: int, i: nat, n: nat)
        requires
            i <= n,
            self.dir_fold(pairs, skip, i) is Err,
        ensures
            self.dir_fold(pairs, skip, n) == self.dir_fold(pairs, skip, i),
        decreases n,
    {
        if i < n {
            self.lemma_dir_err(pairs, skip, i, (n - 1) as nat);
        }
    }

    /// What listing the children below `prefix` gives.
    pub open spec fn dir_listed(&self, prefix: Seq<u8>, r: Result<Vec<DirEntry>, Error>) -> bool {
        let found = with_prefix(self.keys.pairs(), prefix);
        match self.dir_fold(found, prefix.len() as int, found.len()) {
            Err(e) => r is Err && r->Err_0 == e,
            Ok(m) => {
                &&& r is Ok
                &&& forall|i: int, j: int|
                    0 <= i < j < r->Ok_0@.len() ==> lex_lt(
                        encode_utf8(r->Ok_0@[i].name@),
                        encode_utf8(r->Ok_0@[j].name@),
                    )
                &&& forall|i: int|
                    0 <= i < r->Ok_0@.len() ==> {
                        let name = encode_utf8((#[trigger] r->Ok_0@[i]).name@);
                        &&& m.contains_key(name)
                        &&& m[name] == (r->Ok_0@[i].is_dir, r->Ok_0@[i].uuid)
                    }
                &&& forall|s: Seq<u8>| #[trigger]
                    m.contains_key(s) ==> exists|i: int|
                        0 <= i < r->Ok_0@.len() && encode_utf8((#[trigger] r->Ok_0@[i]).name@) == s
            },
        }
    }

    /// The immediate children below `prefix`, by name.
    pub fn list_dir(&self, prefix: &str) -> (r: Result<Vec<DirEntry>, Error>)
        requires
            self.inv(),
        ensures
            self.dir_listed(prefix.spec_bytes(), r),
    {
        let pre: &[u8] = prefix.as_bytes();
        let skip: usize = pre.len();
        let pairs: Vec<(Vec<u8>, Uuid)> = self.keys.scan(pre);
        let ghost found = pair_view(pairs@);
        let mut segs: ByteMap<(bool, Option<Uuid>)> = ByteMap::new();
        let mut i: usize = 0;
        while i < pairs.len()
            invariant
                self.inv(),
                found == pair_view(pairs@),
                found == with_prefix(self.keys.pairs(), pre@),
                pre@ == prefix.spec_bytes(),
                skip == pre@.len(),
                i <= pairs.len(),
                segs.wf(),
                self.dir_fold(found, skip as int, i as nat) == Ok::<
                    Map<Seq<u8>, (bool, Option<Uuid>)>,
                    Error,
                >(segs@),
                forall|s: Seq<u8>| #[trigger] segs@.contains_key(s) ==> valid_utf8(s),
            decreases pairs.len() - i,
        {
            let key: &Vec<u8> = &pairs[i].0;
            let uuid: Uuid = pairs[i].1;
            proof {
                assert(found[i as int] == (key@, uuid));
                lemma_prefixed(self.keys.pairs(), pre@, i as int);
                if self.dir_fold(found, skip as int, (i + 1) as nat) is Err {
                    self.lemma_dir_err(found, skip as int, (i + 1) as nat, found.len());
                }
            }
            let whole: Vec<u8> = copy_range(key.as_slice(), 0, key.len());
            let n: usize = segment_len(key.as_slice(), skip);
            let seg: Vec<u8> = copy_range(key.as_slice(), skip, skip + n);
            let ghost rest = key@.skip(skip as int);
            proof {
                assert(whole@ =~= key@);
                assert(seg@ =~= rest.take(seg_len(rest) as int));
            }
            if string_from_utf8(whole).is_none() {
                return Err(Error::Integrity);
            }
            let copy: Vec<u8> = copy_range(seg.as_slice(), 0, seg.len());
            proof {
                assert(copy@ =~= seg@);
            }
            if string_from_utf8(copy).is_none() {
                return Err(Error::Integrity);
            }
            let cur: (bool, Option<Uuid>) = match segs.get(seg.as_slice()) {
                None => (false, None),
                Some(c) => c,
            };
            if skip + n < key.len() {
                segs.put(seg.as_slice(), (true, cur.1));
            } else if cur.0 {
                segs.put(seg.as_slice(), (true, Some(uuid)));
            } else {
                match self.is_meta_only_unit(&uuid) {
                    Err(e) => {
                        return Err(e);
                    },
                    Ok(b) => {
                        segs.put(seg.as_slice(), (b, Some(uuid)));
                    },
                }
            }
            i = i + 1;
        }
        let mut out: Vec<DirEntry> = Vec::new();
        let total: usize = segs.len();
        let ghost ps = segs.pairs();
        proof {
            lemma_map_of(ps);
        }
        let mut j: usize = 0;
        while j < total
            invariant
                segs.wf(),
                ps == segs.pairs(),
                total == ps.len(),
                j <= total,
                out@.len() == j,
                forall|s: Seq<u8>| #[trigger] segs@.contains_key(s) ==> valid_utf8(s),
                forall|k: int|
                    0 <= k < ps.len() ==> segs@.contains_key((#[trigger] ps[k]).0) && segs@[ps[k].0]
                        == ps[k].1,
                forall|k: int|
                    0 <= k < j ==> encode_utf8((#[trigger] out@[k]).name@) == ps[k].0 && (
                    out@[k].is_dir, out@[k].uuid) == ps[k].1,
            decreases total - j,
        {
            let (name, v): (Vec<u8>, (bool, Option<Uuid>)) = segs.pair_at(j);
            proof {
                assert(segs@.contains_key(ps[j as int].0));
                vstd::utf8::decode_utf8_encode_utf8(name@);
            }
            match string_from_utf8(name) {
                None => {
                    return Err(Error::Integrity);
                },
                Some(s) => {
                    out.push(DirEntry { name: s, is_dir: v.0, uuid: v.1 });
                },
            }
            j = j + 1;
        }
        proof {
            assert forall|a: int, b: int| 0 <= a < b < out@.len() implies lex_lt(
                encode_utf8(out@[a].name@),
                encode_utf8(out@[b].name@),
            ) by {
                assert(lex_lt(ps[a].0, ps[b].0));
            }
            assert forall|s: Seq<u8>| #[trigger] segs@.contains_key(s) implies exists|a: int|
                0 <= a < out@.len() && encode_utf8((#[trigger] out@[a]).name@) == s by {
                let a = choose|a: int| 0 <= a < ps.len() && ps[a].0 == s;
                assert(encode_utf8(out@[a].name@) == s);
            }
        }
        Ok(out)
    }
}

/// Prefixed pairs have the prefix.
proof fn lemma_prefixed(s: Seq<(Seq<u8>, Uuid)>, p: Seq<u8>, i: int)
    requires
        0 <= i < with_prefix(s, p).len(),
    ensures
        has_prefix(with_prefix(s, p)[i].0, p),
    decreases s.len(),
{
    if s.len() > 0 {
        let r = with_prefix(s.drop_last(), p);
        if i < r.len() {
            lemma_prefixed(s.drop_last(), p, i);
        }
    }
}

/// A name is no more than a name: however names are renamed, linked or removed,
/// a unit that still has one is found under it with the same head, and reads
/// the same.
pub proof fn law_names_do_not_touch_units<C: Crypto>(
    o: &Engine<C>,
    e: &Engine<C>,
    keys: Map<Seq<u8>, Uuid>,
    before: Seq<u8>,
    after: Seq<u8>,
)
    requires
        Engine::<C>::names_step(o, e, keys),
        o.head(before) is Ok,
        keys.contains_key(after),
        keys[after] == o.keys@[before],
    ensures
        e.head(after) == o.head(before),
        e.contents(o.head(before)->Ok_0.2) == o.contents(o.head(before)->Ok_0.2),
        e.full(o.head(before)->Ok_0.2) == o.full(o.head(before)->Ok_0.2),
{
    let m = o.head(before)->Ok_0.2;
    assert(e.trust() == o.trust());
    Engine::<C>::lemma_same_contents(o, e, m);
    Engine::<C>::lemma_same_pieces(o, e, m, m.stream().n());
}

} // verus!
