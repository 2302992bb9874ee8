//! Laws on byte forms: where their fields lie, and what is bound by a seal, a tag or a
//! signature.
use vstd::prelude::*;
use vstd::utf8::encode_utf8;

use crate::bytes::{
    le, lemma_le_len, lemma_pow256_values, lemma_un_le_of_le, pow256, un_le,
};
use crate::commit_record::{commit_bytes, CommitModel};
use crate::engine::ContainerHeader;
use crate::evicted::{evict_bytes, lemma_uuid_run_len, EvictedModel};
use crate::header::{field_bytes, header_bytes};
use crate::members::lemma_key_run_len;
use crate::meta::meta_aad;
use crate::outside::crc32;
use crate::record_block::record_aad;
use crate::transport::projection_aad;
use crate::unit::{lemma_words_at, lemma_words_len, payload_of, words, RecordModel, Uuid};
use crate::vector::{peer_bytes, vv_body, vv_bytes, PeerEntry};
use crate::verify_trailer::frame_bytes;
use crate::writerset::{key_run, set_payload, WriterSetModel};

verus! {

/// Numbers are stored with their low byte first.
pub proof fn law_low_bytes_come_first(x: nat, n: nat, i: nat)
    requires
        i < n,
    ensures
        le(x, n).len() == n,
        le(x, n)[i as int] == (x / pow256(i)) % 256,
        pow256(0) == 1,
        pow256(i + 1) == 256 * pow256(i),
    decreases n,
{
    lemma_le_len(x, n);
    lemma_le_len(x / 256, (n - 1) as nat);
    if i == 0 {
        assert(pow256(0) == 1);
        assert(le(x, n)[0] == (x % 256) as u8);
    } else {
        let j = (i - 1) as nat;
        law_low_bytes_come_first(x / 256, (n - 1) as nat, j);
        assert(le(x, n)[i as int] == le(x / 256, (n - 1) as nat)[j as int]);
        lemma_pow256_positive(j);
        assert(pow256(i) == 256 * pow256(j));
        vstd::arithmetic::div_mod::lemma_div_denominator(x as int, 256, pow256(j) as int);
    }
}

proof fn lemma_pow256_positive(n: nat)
    ensures
        pow256(n) > 0,
    decreases n,
{
    if n > 0 {
        lemma_pow256_positive((n - 1) as nat);
    }
}

/// A vector is stored as the number of its entries in two bytes, and ten bytes for
/// each entry in their order: two for the alias, eight for the counter.
pub proof fn law_vectors_lie_entry_by_entry(s: Seq<(u16, u64)>, i: int)
    requires
        0 <= i < s.len() < 0x1_0000,
    ensures
        vv_bytes(s).len() == 2 + 10 * s.len(),
        un_le(vv_bytes(s).subrange(0, 2)) == s.len(),
        un_le(vv_bytes(s).subrange(2 + 10 * i, 4 + 10 * i)) == s[i].0,
        un_le(vv_bytes(s).subrange(4 + 10 * i, 12 + 10 * i)) == s[i].1,
{
    let b = vv_bytes(s);
    lemma_pow256_values();
    lemma_le_len(s.len(), 2);
    lemma_un_le_of_le(s.len(), 2);
    lemma_vv_body(s, i);
    lemma_le_len(s[i].0 as nat, 2);
    lemma_le_len(s[i].1 as nat, 8);
    lemma_un_le_of_le(s[i].0 as nat, 2);
    lemma_un_le_of_le(s[i].1 as nat, 8);
    assert(b.subrange(0, 2) =~= le(s.len(), 2));
    let entry = vv_body(s).subrange(10 * i, 10 * i + 10);
    assert(b.subrange(2 + 10 * i, 4 + 10 * i) =~= entry.subrange(0, 2));
    assert(b.subrange(4 + 10 * i, 12 + 10 * i) =~= entry.subrange(2, 10));
    assert(entry.subrange(0, 2) =~= le(s[i].0 as nat, 2));
    assert(entry.subrange(2, 10) =~= le(s[i].1 as nat, 8));
}

proof fn lemma_vv_body(s: Seq<(u16, u64)>, i: int)
    requires
        0 <= i < s.len(),
    ensures
        vv_body(s).len() == 10 * s.len(),
        vv_body(s).subrange(10 * i, 10 * i + 10) == le(s[i].0 as nat, 2) + le(s[i].1 as nat, 8),
    decreases s.len(),
{
    let p = s.drop_last();
    lemma_le_len(s.last().0 as nat, 2);
    lemma_le_len(s.last().1 as nat, 8);
    if p.len() > 0 {
        lemma_vv_body(p, if i < p.len() { i } else { 0 });
    } else {
        assert(vv_body(p).len() == 0);
    }
    if i < p.len() {
        assert(vv_body(s).subrange(10 * i, 10 * i + 10) =~= vv_body(p).subrange(
            10 * i,
            10 * i + 10,
        ));
    } else {
        assert(vv_body(s).subrange(10 * i, 10 * i + 10) =~= le(s[i].0 as nat, 2) + le(
            s[i].1 as nat,
            8,
        ));
    }
}

/// A peer's entry is stored in thirty-eight bytes: `SFPR`, a one, whether it is
/// retired, and the key.
pub proof fn law_peer_entries_lie_in_order(e: PeerEntry)
    ensures
        peer_bytes(e).len() == 38,
        peer_bytes(e)[0] == 0x53 && peer_bytes(e)[1] == 0x46 && peer_bytes(e)[2] == 0x50
            && peer_bytes(e)[3] == 0x52,
        peer_bytes(e)[4] == 1,
        peer_bytes(e)[5] == 1 <==> e.retired,
        peer_bytes(e)[5] == 0 <==> !e.retired,
        peer_bytes(e).subrange(6, 38) == e.pubkey@,
{
    assert(peer_bytes(e).subrange(6, 38) =~= e.pubkey@);
}

/// A superseded block is stored with its unit, fragment, length, version, number of
/// commits, time, slot and commit number at fixed places; then the commits, then the
/// bytes, and last the checksum of everything before it.
pub proof fn law_superseded_blocks_lie_in_order(e: EvictedModel)
    requires
        e.commits.len() <= u32::MAX,
    ensures
        ({
            let b = evict_bytes(e);
            let n = 68 + 16 * e.commits.len() as int + e.bytes.len();
            &&& b.len() == n + 4
            &&& b[0] == 0x73 && b[1] == 0x66 && b[2] == 0x73 && b[3] == 0x65
            &&& b.subrange(8, 24) == e.uuid@
            &&& un_le(b.subrange(24, 28)) == e.frag
            &&& un_le(b.subrange(28, 32)) == e.length
            &&& un_le(b.subrange(32, 40)) == e.old_version
            &&& un_le(b.subrange(40, 44)) == e.commits.len()
            &&& e.timestamp >= 0 ==> un_le(b.subrange(44, 52)) == e.timestamp
            &&& e.timestamp < 0 ==> un_le(b.subrange(44, 52)) - 0x1_0000_0000_0000_0000
                == e.timestamp
            &&& un_le(b.subrange(52, 60)) == e.inplace_addr
            &&& un_le(b.subrange(60, 68)) == e.target_commit_seq
            &&& b.subrange(n - e.bytes.len(), n) == e.bytes
            &&& un_le(b.subrange(n, n + 4)) == crc32(b.subrange(0, n))
        }),
{
    let b = evict_bytes(e);
    let t = crate::evicted::bits_of(e.timestamp);
    let body = crate::evicted::evict_body(e);
    lemma_pow256_values();
    lemma_uuid_run_len(e.commits);
    lemma_le_len(e.frag as nat, 4);
    lemma_le_len(e.length as nat, 4);
    lemma_le_len(e.old_version as nat, 8);
    lemma_le_len(e.commits.len(), 4);
    lemma_le_len(t as nat, 8);
    lemma_le_len(e.inplace_addr as nat, 8);
    lemma_le_len(e.target_commit_seq as nat, 8);
    lemma_le_len(crc32(body) as nat, 4);
    lemma_un_le_of_le(e.frag as nat, 4);
    lemma_un_le_of_le(e.length as nat, 4);
    lemma_un_le_of_le(e.old_version as nat, 8);
    lemma_un_le_of_le(e.commits.len(), 4);
    lemma_un_le_of_le(t as nat, 8);
    lemma_un_le_of_le(e.inplace_addr as nat, 8);
    lemma_un_le_of_le(e.target_commit_seq as nat, 8);
    lemma_un_le_of_le(crc32(body) as nat, 4);
    let n = body.len() as int;
    assert(b.subrange(8, 24) =~= e.uuid@);
    assert(b.subrange(24, 28) =~= le(e.frag as nat, 4));
    assert(b.subrange(28, 32) =~= le(e.length as nat, 4));
    assert(b.subrange(32, 40) =~= le(e.old_version as nat, 8));
    assert(b.subrange(40, 44) =~= le(e.commits.len(), 4));
    assert(b.subrange(44, 52) =~= le(t as nat, 8));
    assert(b.subrange(52, 60) =~= le(e.inplace_addr as nat, 8));
    assert(b.subrange(60, 68) =~= le(e.target_commit_seq as nat, 8));
    assert(b.subrange(n - e.bytes.len(), n) =~= e.bytes);
    assert(b.subrange(0, n) =~= body);
    assert(b.subrange(n, n + 4) =~= le(crc32(body) as nat, 4));
}

/// What is signed of a record is its unit; whether it has content; and then the size of
/// its fragments, the length of the last, the versions and the vector.
pub proof fn law_signed_fields_lie_in_order(r: RecordModel, i: int)
    requires
        r.content is Some,
        0 <= i < r.content->Some_0.unit_map.len() <= u32::MAX,
    ensures
        ({
            let b = payload_of(r);
            let sm = r.content->Some_0;
            &&& b.subrange(0, 16) == r.uuid@
            &&& b[16] == 1
            &&& b[17] == sm.fragsize_exp
            &&& un_le(b.subrange(18, 22)) == sm.last_frag_length
            &&& un_le(b.subrange(22, 26)) == sm.unit_map.len()
            &&& un_le(b.subrange(26 + 8 * i, 34 + 8 * i)) == sm.unit_map[i]
            &&& b.skip(30 + 8 * sm.unit_map.len() as int) == vv_bytes(sm.vv)
        }),
{
    let b = payload_of(r);
    let sm = r.content->Some_0;
    let n = sm.unit_map.len();
    lemma_pow256_values();
    lemma_words_len(sm.unit_map);
    lemma_le_len(sm.last_frag_length as nat, 4);
    lemma_le_len(n, 4);
    lemma_le_len(vv_bytes(sm.vv).len(), 4);
    lemma_un_le_of_le(sm.last_frag_length as nat, 4);
    lemma_un_le_of_le(n, 4);
    assert(b.subrange(0, 16) =~= r.uuid@);
    assert(b.subrange(18, 22) =~= le(sm.last_frag_length as nat, 4));
    assert(b.subrange(22, 26) =~= le(n, 4));
    assert(b.subrange(26, 26 + n as int * 8) =~= words(sm.unit_map));
    lemma_words_at(b, 26, sm.unit_map);
    let w = crate::unit::words_at(b, 26, n);
    assert(w[i] == sm.unit_map[i]);
    lemma_word_at(sm.unit_map, i);
    lemma_le_len(sm.unit_map[i] as nat, 8);
    lemma_un_le_of_le(sm.unit_map[i] as nat, 8);
    assert(b.subrange(26 + 8 * i, 34 + 8 * i) =~= words(sm.unit_map).subrange(8 * i, 8 * i + 8));
    assert(b.skip(30 + 8 * n as int) =~= vv_bytes(sm.vv));
}

proof fn lemma_word_at(s: Seq<u64>, i: int)
    requires
        0 <= i < s.len(),
    ensures
        words(s).len() == 8 * s.len(),
        words(s).subrange(8 * i, 8 * i + 8) == le(s[i] as nat, 8),
    decreases s.len(),
{
    let p = s.drop_last();
    lemma_words_len(s);
    lemma_words_len(p);
    lemma_le_len(s.last() as nat, 8);
    if i < p.len() {
        lemma_word_at(p, i);
        assert(words(s).subrange(8 * i, 8 * i + 8) =~= words(p).subrange(8 * i, 8 * i + 8));
    } else {
        assert(words(s).subrange(8 * i, 8 * i + 8) =~= le(s[i] as nat, 8));
    }
}

/// A framed record is its length and its bytes, the signer's key, the signature, and the
/// signed bytes with their length in front.
pub proof fn law_frames_lie_in_order(
    projection: Seq<u8>,
    pubkey: [u8; 32],
    signature: [u8; 64],
    payload: Seq<u8>,
)
    requires
        projection.len() <= u32::MAX,
        payload.len() <= u32::MAX,
    ensures
        ({
            let b = frame_bytes(projection, pubkey, signature, payload);
            let n = 4 + projection.len() as int;
            &&& b.len() == n + 100 + payload.len()
            &&& un_le(b.subrange(0, 4)) == projection.len()
            &&& b.subrange(4, n) == projection
            &&& b.subrange(n, n + 32) == pubkey@
            &&& b.subrange(n + 32, n + 96) == signature@
            &&& un_le(b.subrange(n + 96, n + 100)) == payload.len()
            &&& b.skip(n + 100) == payload
        }),
{
    let b = frame_bytes(projection, pubkey, signature, payload);
    let n = 4 + projection.len() as int;
    lemma_pow256_values();
    lemma_le_len(projection.len(), 4);
    lemma_le_len(payload.len(), 4);
    lemma_un_le_of_le(projection.len(), 4);
    lemma_un_le_of_le(payload.len(), 4);
    assert(b.subrange(0, 4) =~= le(projection.len(), 4));
    assert(b.subrange(4, n) =~= projection);
    assert(b.subrange(n, n + 32) =~= pubkey@);
    assert(b.subrange(n + 32, n + 96) =~= signature@);
    assert(b.subrange(n + 96, n + 100) =~= le(payload.len(), 4));
    assert(b.skip(n + 100) =~= payload);
}

/// A commit is stored as its name, its title and its message with their lengths in front,
/// and the numbers of its parents and entries before each of them.
pub proof fn law_commits_lie_in_order(c: CommitModel)
    requires
        encode_utf8(c.title).len() <= u32::MAX,
        encode_utf8(c.message).len() <= u32::MAX,
        c.parents.len() <= u32::MAX,
        c.entries.len() <= u32::MAX,
    ensures
        ({
            let b = commit_bytes(c);
            let t = encode_utf8(c.title);
            let m = encode_utf8(c.message);
            let p = 24 + t.len() as int + m.len();
            let q = p + 4 + 16 * c.parents.len();
            &&& b.subrange(0, 16) == c.commitish@
            &&& un_le(b.subrange(16, 20)) == t.len()
            &&& b.subrange(20, 20 + t.len() as int) == t
            &&& un_le(b.subrange(20 + t.len() as int, 24 + t.len() as int)) == m.len()
            &&& b.subrange(24 + t.len() as int, p) == m
            &&& un_le(b.subrange(p, p + 4)) == c.parents.len()
            &&& un_le(b.subrange(q, q + 4)) == c.entries.len()
            &&& b.len() == q + 4 + 32 * c.entries.len()
        }),
{
    let b = commit_bytes(c);
    let t = encode_utf8(c.title);
    let m = encode_utf8(c.message);
    let p = 24 + t.len() as int + m.len();
    let q = p + 4 + 16 * c.parents.len();
    lemma_pow256_values();
    lemma_uuid_run_len(c.parents);
    crate::commit_record::lemma_entry_run_len(c.entries);
    lemma_le_len(t.len(), 4);
    lemma_le_len(m.len(), 4);
    lemma_le_len(c.parents.len(), 4);
    lemma_le_len(c.entries.len(), 4);
    lemma_un_le_of_le(t.len(), 4);
    lemma_un_le_of_le(m.len(), 4);
    lemma_un_le_of_le(c.parents.len(), 4);
    lemma_un_le_of_le(c.entries.len(), 4);
    assert(b.subrange(0, 16) =~= c.commitish@);
    assert(b.subrange(16, 20) =~= le(t.len(), 4));
    assert(b.subrange(20, 20 + t.len() as int) =~= t);
    assert(b.subrange(20 + t.len() as int, 24 + t.len() as int) =~= le(m.len(), 4));
    assert(b.subrange(24 + t.len() as int, p) =~= m);
    assert(b.subrange(p, p + 4) =~= le(c.parents.len(), 4));
    assert(b.subrange(q, q + 4) =~= le(c.entries.len(), 4));
}

proof fn lemma_le_same(x: nat, y: nat, n: nat)
    requires
        x < pow256(n),
        y < pow256(n),
        le(x, n) == le(y, n),
    ensures
        x == y,
{
    lemma_un_le_of_le(x, n);
    lemma_un_le_of_le(y, n);
}

/// Sealed metadata is bound to its unit, its slot and its version; a sealed record to its
/// address; a sealed projection to its unit. None of them can stand in for another.
pub proof fn law_seals_are_bound_to_their_place(
    u: Uuid,
    a: u64,
    v: u64,
    u2: Uuid,
    a2: u64,
    v2: u64,
)
    ensures
        meta_aad(u, a, v) == meta_aad(u2, a2, v2) ==> u == u2 && a == a2 && v == v2,
        record_aad(a) == record_aad(a2) ==> a == a2,
        projection_aad(u) == projection_aad(u2) ==> u == u2,
        meta_aad(u, a, v) != record_aad(a2),
        meta_aad(u, a, v) != projection_aad(u2),
        record_aad(a) != projection_aad(u2),
{
    lemma_pow256_values();
    lemma_le_len(a as nat, 8);
    lemma_le_len(a2 as nat, 8);
    lemma_le_len(v as nat, 8);
    lemma_le_len(v2 as nat, 8);
    assert(meta_aad(u, a, v).len() == 33);
    assert(record_aad(a).len() == 9 && record_aad(a2).len() == 9);
    assert(projection_aad(u2).len() == 27);
    if meta_aad(u, a, v) == meta_aad(u2, a2, v2) {
        let x = meta_aad(u, a, v);
        assert(x.subrange(1, 17) =~= u@);
        assert(x.subrange(1, 17) =~= u2@);
        assert(u =~= u2);
        assert(x.subrange(17, 25) =~= le(a as nat, 8));
        assert(x.subrange(17, 25) =~= le(a2 as nat, 8));
        assert(x.subrange(25, 33) =~= le(v as nat, 8));
        assert(x.subrange(25, 33) =~= le(v2 as nat, 8));
        lemma_le_same(a as nat, a2 as nat, 8);
        lemma_le_same(v as nat, v2 as nat, 8);
    }
    if record_aad(a) == record_aad(a2) {
        assert(record_aad(a).subrange(0, 8) =~= le(a as nat, 8));
        assert(record_aad(a).subrange(0, 8) =~= le(a2 as nat, 8));
        lemma_le_same(a as nat, a2 as nat, 8);
    }
    if projection_aad(u) == projection_aad(u2) {
        assert(projection_aad(u).subrange(0, 16) =~= u@);
        assert(projection_aad(u).subrange(0, 16) =~= u2@);
        assert(u =~= u2);
    }
}

/// The tag of a container covers everything that its header says: no two headers have the
/// same bytes.
pub proof fn law_the_tag_covers_the_header(g: ContainerHeader, h: ContainerHeader)
    requires
        header_bytes(g) == header_bytes(h),
    ensures
        g == h,
{
    lemma_pow256_values();
    let x = header_bytes(g);
    lemma_header(g);
    lemma_header(h);
    lemma_le_same(g.writer_set_epoch as nat, h.writer_set_epoch as nat, 8);
    lemma_le_same(g.key_epoch as nat, h.key_epoch as nat, 8);
    lemma_le_same(g.commit_seq as nat, h.commit_seq as nat, 8);
    lemma_le_same(g.wal_applied_seq as nat, h.wal_applied_seq as nat, 8);
    assert(g.salt =~= h.salt);
    assert(g.writer_pubkey =~= h.writer_pubkey);
    assert(g.owner_pubkey =~= h.owner_pubkey);
    let f = field_bytes(g.writer_set);
    assert(f[0] == field_bytes(h.writer_set)[0]);
    if g.writer_set is Some {
        assert(f.subrange(1, 17) =~= g.writer_set->Some_0@);
        assert(f.subrange(1, 17) =~= h.writer_set->Some_0@);
        assert(g.writer_set->Some_0 =~= h.writer_set->Some_0);
    }
}

proof fn lemma_header(h: ContainerHeader)
    ensures
        ({
            let x = header_bytes(h);
            &&& x.len() == 118 + field_bytes(h.writer_set).len()
            &&& x[0] == h.cipher
            &&& x[1] == h.content_cipher
            &&& x[2] == crate::header::mode_code(h.sign_mode)
            &&& x[3] == crate::header::flag_code(h.wal_enabled)
            &&& x[4] == crate::header::flag_code(h.pad_blocks)
            &&& x[5] == h.eviction_code
            &&& x.subrange(6, 22) == h.salt@
            &&& x.subrange(22, 54) == h.writer_pubkey@
            &&& x.subrange(54, 86) == h.owner_pubkey@
            &&& x.subrange(86, 94) == le(h.writer_set_epoch as nat, 8)
            &&& x.subrange(94, 102) == le(h.key_epoch as nat, 8)
            &&& x.subrange(102, 110) == le(h.commit_seq as nat, 8)
            &&& x.subrange(110, 118) == le(h.wal_applied_seq as nat, 8)
            &&& x.skip(118) == field_bytes(h.writer_set)
        }),
{
    let x = header_bytes(h);
    lemma_le_len(h.writer_set_epoch as nat, 8);
    lemma_le_len(h.key_epoch as nat, 8);
    lemma_le_len(h.commit_seq as nat, 8);
    lemma_le_len(h.wal_applied_seq as nat, 8);
    assert(x.subrange(6, 22) =~= h.salt@);
    assert(x.subrange(22, 54) =~= h.writer_pubkey@);
    assert(x.subrange(54, 86) =~= h.owner_pubkey@);
    assert(x.subrange(86, 94) =~= le(h.writer_set_epoch as nat, 8));
    assert(x.subrange(94, 102) =~= le(h.key_epoch as nat, 8));
    assert(x.subrange(102, 110) =~= le(h.commit_seq as nat, 8));
    assert(x.subrange(110, 118) =~= le(h.wal_applied_seq as nat, 8));
    assert(x.skip(118) =~= field_bytes(h.writer_set));
}

/// The owner's signature covers the whole writer set: its epoch, the key epoch it is bound
/// to, the owner, and who is in it and who was removed, in their order.
pub proof fn law_the_signature_covers_the_set(a: WriterSetModel, b: WriterSetModel)
    requires
        set_payload(a) == set_payload(b),
        a.writers.len() <= u64::MAX,
        b.writers.len() <= u64::MAX,
        a.removed.len() <= u64::MAX,
        b.removed.len() <= u64::MAX,
    ensures
        a.epoch == b.epoch,
        a.key_epoch == b.key_epoch,
        a.owner_pubkey == b.owner_pubkey,
        a.writers == b.writers,
        a.removed == b.removed,
{
    lemma_pow256_values();
    lemma_set(a);
    lemma_set(b);
    lemma_le_same(a.epoch as nat, b.epoch as nat, 8);
    lemma_le_same(a.key_epoch as nat, b.key_epoch as nat, 8);
    assert(a.owner_pubkey =~= b.owner_pubkey);
    lemma_le_same(a.writers.len(), b.writers.len(), 8);
    lemma_key_run_same(a.writers, b.writers);
    lemma_le_same(a.removed.len(), b.removed.len(), 8);
    lemma_key_run_same(a.removed, b.removed);
}

proof fn lemma_set(s: WriterSetModel)
    ensures
        ({
            let x = set_payload(s);
            let n = 56 + s.writers.len() as int * 32;
            &&& x.len() == n + 8 + s.removed.len() * 32
            &&& x.subrange(0, 8) == le(s.epoch as nat, 8)
            &&& x.subrange(8, 16) == le(s.key_epoch as nat, 8)
            &&& x.subrange(16, 48) == s.owner_pubkey@
            &&& x.subrange(48, 56) == le(s.writers.len(), 8)
            &&& x.subrange(56, n) == key_run(s.writers)
            &&& x.subrange(n, n + 8) == le(s.removed.len(), 8)
            &&& x.skip(n + 8) == key_run(s.removed)
        }),
{
    let x = set_payload(s);
    let n = 56 + s.writers.len() as int * 32;
    lemma_key_run_len(s.writers);
    lemma_key_run_len(s.removed);
    lemma_le_len(s.epoch as nat, 8);
    lemma_le_len(s.key_epoch as nat, 8);
    lemma_le_len(s.writers.len(), 8);
    lemma_le_len(s.removed.len(), 8);
    assert(x.subrange(0, 8) =~= le(s.epoch as nat, 8));
    assert(x.subrange(8, 16) =~= le(s.key_epoch as nat, 8));
    assert(x.subrange(16, 48) =~= s.owner_pubkey@);
    assert(x.subrange(48, 56) =~= le(s.writers.len(), 8));
    assert(x.subrange(56, n) =~= key_run(s.writers));
    assert(x.subrange(n, n + 8) =~= le(s.removed.len(), 8));
    assert(x.skip(n + 8) =~= key_run(s.removed));
}

proof fn lemma_key_run_same(a: Seq<[u8; 32]>, b: Seq<[u8; 32]>)
    requires
        key_run(a) == key_run(b),
        a.len() == b.len(),
    ensures
        a == b,
    decreases a.len(),
{
    if a.len() > 0 {
        let x = key_run(a);
        let p = a.drop_last();
        let q = b.drop_last();
        lemma_key_run_len(p);
        lemma_key_run_len(q);
        let n = p.len() as int * 32;
        assert(x.subrange(0, n) =~= key_run(p));
        assert(x.subrange(0, n) =~= key_run(q));
        assert(x.subrange(n, n + 32) =~= a.last()@);
        assert(x.subrange(n, n + 32) =~= b.last()@);
        assert(a.last() =~= b.last());
        lemma_key_run_same(p, q);
        assert(a =~= p.push(a.last()));
        assert(b =~= q.push(b.last()));
    } else {
        assert(a =~= b);
    }
}

} // verus!
