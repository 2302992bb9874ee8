//! The record of a named commit.
use vstd::prelude::*;
use vstd::string::*;
use vstd::utf8::{decode_utf8, encode_utf8, valid_utf8};

use crate::bytes::{
    array16, copy_range, le, lemma_le_len, lemma_pow256_values, lemma_un_le_of_le, push_all,
    push_le, read_le, take16, un_le,
};
use crate::error::Error;
use crate::evicted::{lemma_uuid_run_len, lemma_uuids_at, uuid_run, uuids_at};
use crate::outside::string_from_utf8;
use crate::unit::{lemma_num4, num4, Uuid};

verus! {

/// A named commit: which versions of which units it holds, and the commits that
/// it follows.
#[derive(Debug)]
pub struct Commit {
    pub title: String,
    pub message: String,
    pub commitish: Uuid,
    pub parents: Vec<Uuid>,
    /// Unit, content version, metadata version.
    pub entries: Vec<(Uuid, u64, u64)>,
}

/// A [`Commit`] as a value.
#[verifier::ext_equal]
pub struct CommitModel {
    pub title: Seq<char>,
    pub message: Seq<char>,
    pub commitish: Uuid,
    pub parents: Seq<Uuid>,
    pub entries: Seq<(Uuid, u64, u64)>,
}

impl View for Commit {
    type V = CommitModel;

    open spec fn view(&self) -> CommitModel {
        CommitModel {
            title: self.title@,
            message: self.message@,
            commitish: self.commitish,
            parents: self.parents@,
            entries: self.entries@,
        }
    }
}

/// The entries, thirty-two bytes each.
pub open spec fn entry_run(s: Seq<(Uuid, u64, u64)>) -> Seq<u8>
    decreases s.len(),
{
    if s.len() == 0 {
        Seq::empty()
    } else {
        entry_run(s.drop_last()) + s.last().0@ + le(s.last().1 as nat, 8) + le(
            s.last().2 as nat,
            8,
        )
    }
}

pub open spec fn entry_at(buf: Seq<u8>, off: int) -> (Uuid, u64, u64) {
    (
        array16(buf.subrange(off, off + 16)),
        un_le(buf.subrange(off + 16, off + 24)) as u64,
        un_le(buf.subrange(off + 24, off + 32)) as u64,
    )
}

pub open spec fn entries_at(buf: Seq<u8>, off: int, n: nat) -> Seq<(Uuid, u64, u64)> {
    Seq::new(n, |i: int| entry_at(buf, off + i * 32))
}

/// A string with its length in front.
pub open spec fn sized(b: Seq<u8>) -> Seq<u8> {
    le(b.len(), 4) + b
}

/// The byte form of a commit.
pub open spec fn commit_bytes(c: CommitModel) -> Seq<u8> {
    c.commitish@ + sized(encode_utf8(c.title)) + sized(encode_utf8(c.message)) + le(
        c.parents.len(),
        4,
    ) + uuid_run(c.parents) + le(c.entries.len(), 4) + entry_run(c.entries)
}

/// Where the fields of a byte form start: title, message, parents, entries.
pub open spec fn message_start(b: Seq<u8>) -> int {
    20 + num4(b, 16) as int
}

pub open spec fn parents_start(b: Seq<u8>) -> int {
    message_start(b) + 4 + num4(b, message_start(b)) as int
}

pub open spec fn entries_start(b: Seq<u8>) -> int {
    parents_start(b) + 4 + num4(b, parents_start(b)) as int * 16
}

/// Every field lies within the bytes, and the strings are text.
pub open spec fn commit_well_formed(b: Seq<u8>) -> bool {
    &&& b.len() >= 20
    &&& b.len() >= message_start(b) + 4
    &&& b.len() >= parents_start(b) + 4
    &&& b.len() >= entries_start(b) + 4
    &&& b.len() == entries_start(b) + 4 + num4(b, entries_start(b)) as int * 32
    &&& valid_utf8(b.subrange(20, message_start(b)))
    &&& valid_utf8(b.subrange(message_start(b) + 4, parents_start(b)))
}

/// What the bytes of a commit say; `None` for bytes that are none.
pub open spec fn commit_parse(b: Seq<u8>) -> Option<CommitModel> {
    if commit_well_formed(b) {
        Some(
            CommitModel {
                title: decode_utf8(b.subrange(20, message_start(b))),
                message: decode_utf8(b.subrange(message_start(b) + 4, parents_start(b))),
                commitish: array16(b.subrange(0, 16)),
                parents: uuids_at(b, parents_start(b) + 4, num4(b, parents_start(b))),
                entries: entries_at(b, entries_start(b) + 4, num4(b, entries_start(b))),
            },
        )
    } else {
        None
    }
}

impl Commit {
    /// The byte form.
    pub fn encode(&self) -> (out: Vec<u8>)
        ensures
            out@ == commit_bytes(self@),
    {
        let mut out: Vec<u8> = Vec::new();
        push_all(&mut out, self.commitish.as_slice());
        let title: &[u8] = self.title.as_str().as_bytes();
        push_le(&mut out, title.len() as u64, 4);
        push_all(&mut out, title);
        let message: &[u8] = self.message.as_str().as_bytes();
        push_le(&mut out, message.len() as u64, 4);
        push_all(&mut out, message);
        push_le(&mut out, self.parents.len() as u64, 4);
        let ghost head = out@;
        proof {
            assert(head =~= self.commitish@ + sized(encode_utf8(self.title@)) + sized(
                encode_utf8(self.message@),
            ) + le(self.parents@.len(), 4));
            assert(self.parents@.take(0) =~= Seq::empty());
            assert(out@ =~= head + uuid_run(self.parents@.take(0)));
        }
        let mut i: usize = 0;
        while i < self.parents.len()
            invariant
                i <= self.parents@.len(),
                out@ == head + uuid_run(self.parents@.take(i as int)),
            decreases self.parents@.len() - i,
        {
            push_all(&mut out, self.parents[i].as_slice());
            i = i + 1;
            proof {
                assert(self.parents@.take(i as int).drop_last() =~= self.parents@.take(i - 1));
                assert(out@ =~= head + uuid_run(self.parents@.take(i as int)));
            }
        }
        proof {
            assert(self.parents@.take(i as int) =~= self.parents@);
        }
        push_le(&mut out, self.entries.len() as u64, 4);
        let ghost mid = out@;
        proof {
            assert(self.entries@.take(0) =~= Seq::empty());
            assert(out@ =~= mid + entry_run(self.entries@.take(0)));
        }
        let mut j: usize = 0;
        while j < self.entries.len()
            invariant
                j <= self.entries@.len(),
                out@ == mid + entry_run(self.entries@.take(j as int)),
            decreases self.entries@.len() - j,
        {
            let e: (Uuid, u64, u64) = self.entries[j];
            push_all(&mut out, e.0.as_slice());
            push_le(&mut out, e.1, 8);
            push_le(&mut out, e.2, 8);
            j = j + 1;
            proof {
                assert(self.entries@.take(j as int).drop_last() =~= self.entries@.take(j - 1));
                assert(out@ =~= mid + entry_run(self.entries@.take(j as int)));
            }
        }
        proof {
            assert(self.entries@.take(j as int) =~= self.entries@);
            assert(out@ =~= commit_bytes(self@));
        }
        out
    }

    /// Reads the byte form.
    pub fn decode(b: &[u8]) -> (r: Result<Commit, Error>)
        ensures
            match commit_parse(b@) {
                None => r is Err && r->Err_0 == Error::Integrity,
                Some(c) => r is Ok && r->Ok_0@ == c,
            },
    {
        let total: usize = b.len();
        let len: u64 = total as u64;
        if len < 20 {
            return Err(Error::Integrity);
        }
        proof {
            lemma_num4(b@, 16);
        }
        let tl: u64 = read_le(b, 16, 4);
        if len < 20 + tl + 4 {
            return Err(Error::Integrity);
        }
        let ms: usize = 20 + tl as usize;
        proof {
            lemma_num4(b@, ms as int);
        }
        let ml: u64 = read_le(b, ms, 4);
        if len < ms as u64 + 4 + ml + 4 {
            return Err(Error::Integrity);
        }
        let ps: usize = ms + 4 + ml as usize;
        proof {
            lemma_num4(b@, ps as int);
        }
        let np: u64 = read_le(b, ps, 4);
        if len < ps as u64 + 4 + np * 16 + 4 {
            return Err(Error::Integrity);
        }
        let es: usize = ps + 4 + np as usize * 16;
        proof {
            lemma_num4(b@, es as int);
        }
        let ne: u64 = read_le(b, es, 4);
        if len != es as u64 + 4 + ne * 32 {
            return Err(Error::Integrity);
        }
        let title: String = match string_from_utf8(copy_range(b, 20, ms)) {
            None => {
                return Err(Error::Integrity);
            },
            Some(s) => s,
        };
        let message: String = match string_from_utf8(copy_range(b, ms + 4, ps)) {
            None => {
                return Err(Error::Integrity);
            },
            Some(s) => s,
        };
        let commitish: Uuid = take16(b, 0);
        let mut parents: Vec<Uuid> = Vec::new();
        let mut i: usize = 0;
        while i < np as usize
            invariant
                i <= np,
                np <= usize::MAX,
                total == b@.len(),
                ps + 4 + np * 16 <= total,
                parents@ == uuids_at(b@, ps + 4, i as nat),
            decreases np - i,
        {
            parents.push(take16(b, ps + 4 + i * 16));
            i = i + 1;
            proof {
                assert(parents@ =~= uuids_at(b@, ps + 4, i as nat));
            }
        }
        let mut entries: Vec<(Uuid, u64, u64)> = Vec::new();
        let mut j: usize = 0;
        while j < ne as usize
            invariant
                j <= ne,
                ne <= usize::MAX,
                total == b@.len(),
                es + 4 + ne * 32 == total,
                entries@ == entries_at(b@, es + 4, j as nat),
            decreases ne - j,
        {
            let at: usize = es + 4 + j * 32;
            entries.push((take16(b, at), read_le(b, at + 16, 8), read_le(b, at + 24, 8)));
            j = j + 1;
            proof {
                assert(entries@ =~= entries_at(b@, es + 4, j as nat));
            }
        }
        let c: Commit = Commit { title, message, commitish, parents, entries };
        proof {
            assert(c@ =~= commit_parse(b@)->Some_0);
        }
        Ok(c)
    }
}

pub proof fn lemma_entry_run_len(s: Seq<(Uuid, u64, u64)>)
    ensures
        entry_run(s).len() == s.len() * 32,
    decreases s.len(),
{
    if s.len() > 0 {
        lemma_entry_run_len(s.drop_last());
        lemma_le_len(s.last().1 as nat, 8);
        lemma_le_len(s.last().2 as nat, 8);
    }
}

proof fn lemma_entries_at(buf: Seq<u8>, off: int, s: Seq<(Uuid, u64, u64)>)
    requires
        0 <= off,
        off + s.len() * 32 <= buf.len(),
        buf.subrange(off, off + s.len() * 32) == entry_run(s),
    ensures
        entries_at(buf, off, s.len()) == s,
    decreases s.len(),
{
    if s.len() > 0 {
        let p = s.drop_last();
        let e = s.last();
        lemma_entry_run_len(p);
        lemma_entry_run_len(s);
        lemma_pow256_values();
        lemma_le_len(e.1 as nat, 8);
        lemma_le_len(e.2 as nat, 8);
        lemma_un_le_of_le(e.1 as nat, 8);
        lemma_un_le_of_le(e.2 as nat, 8);
        let w = entry_run(s);
        let pl = p.len() as int * 32;
        assert(buf.subrange(off, off + pl) =~= entry_run(p)) by {
            assert(buf.subrange(off, off + pl) =~= w.subrange(0, pl));
        }
        lemma_entries_at(buf, off, p);
        let l = off + pl;
        assert(buf.subrange(l, l + 16) =~= e.0@) by {
            assert(buf.subrange(l, l + 16) =~= w.subrange(pl, pl + 16));
        }
        assert(buf.subrange(l + 16, l + 24) =~= le(e.1 as nat, 8)) by {
            assert(buf.subrange(l + 16, l + 24) =~= w.subrange(pl + 16, pl + 24));
        }
        assert(buf.subrange(l + 24, l + 32) =~= le(e.2 as nat, 8)) by {
            assert(buf.subrange(l + 24, l + 32) =~= w.subrange(pl + 24, pl + 32));
        }
        assert(array16(e.0@)@ == e.0@);
        assert(array16(e.0@) =~= e.0);
        assert(entry_at(buf, l) == e);
        assert forall|i: int| 0 <= i < s.len() implies entries_at(buf, off, s.len())[i] == s[i] by {
            if i < p.len() {
                assert(entries_at(buf, off, p.len())[i] == p[i]);
            } else {
                assert(off + i * 32 == l);
            }
        }
    }
    assert(entries_at(buf, off, s.len()) =~= s);
}

/// Every length fits its field.
pub open spec fn commit_fits(c: CommitModel) -> bool {
    &&& encode_utf8(c.title).len() <= u32::MAX
    &&& encode_utf8(c.message).len() <= u32::MAX
    &&& c.parents.len() <= u32::MAX
    &&& c.entries.len() <= u32::MAX
}

/// Reading the byte form of a commit gives the commit back.
pub proof fn law_commit_round_trip(c: CommitModel)
    requires
        commit_fits(c),
    ensures
        commit_parse(commit_bytes(c)) == Some(c),
{
    let b = commit_bytes(c);
    let t = encode_utf8(c.title);
    let m = encode_utf8(c.message);
    let p = c.parents.len();
    let n = c.entries.len();
    lemma_pow256_values();
    lemma_le_len(t.len(), 4);
    lemma_le_len(m.len(), 4);
    lemma_le_len(p, 4);
    lemma_le_len(n, 4);
    lemma_un_le_of_le(t.len(), 4);
    lemma_un_le_of_le(m.len(), 4);
    lemma_un_le_of_le(p, 4);
    lemma_un_le_of_le(n, 4);
    lemma_uuid_run_len(c.parents);
    lemma_entry_run_len(c.entries);
    vstd::utf8::encode_utf8_valid_utf8(c.title);
    vstd::utf8::encode_utf8_valid_utf8(c.message);
    vstd::utf8::encode_utf8_decode_utf8(c.title);
    vstd::utf8::encode_utf8_decode_utf8(c.message);
    let ms: int = 20 + t.len() as int;
    let ps: int = ms + 4 + m.len() as int;
    let es: int = ps + 4 + p as int * 16;
    assert(b.subrange(0, 16) =~= c.commitish@);
    assert(array16(c.commitish@)@ == c.commitish@);
    assert(array16(c.commitish@) =~= c.commitish);
    assert(b.subrange(16, 20) =~= le(t.len(), 4));
    assert(message_start(b) == ms);
    assert(b.subrange(20, ms) =~= t);
    assert(b.subrange(ms, ms + 4) =~= le(m.len(), 4));
    assert(parents_start(b) == ps);
    assert(b.subrange(ms + 4, ps) =~= m);
    assert(b.subrange(ps, ps + 4) =~= le(p, 4));
    assert(entries_start(b) == es);
    assert(b.subrange(ps + 4, es) =~= uuid_run(c.parents));
    lemma_uuids_at(b, ps + 4, c.parents);
    assert(b.subrange(es, es + 4) =~= le(n, 4));
    assert(b.subrange(es + 4, es + 4 + n as int * 32) =~= entry_run(c.entries));
    lemma_entries_at(b, es + 4, c.entries);
    assert(commit_parse(b)->Some_0 =~= c);
}

} // verus!
