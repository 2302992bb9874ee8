//! Laws on what operations note about content: versions, vectors, suites, pins, padding
//! and the names of the units that hold commits.
use vstd::prelude::*;

use crate::block::{bit_set, frag_bytes};
use crate::crypto::Crypto;
use crate::engine::Engine;
use crate::error::Error;
use crate::tags::{commit_key, commits_prefix, head_key, hex, hex_digit};
use crate::unit::{hole, pinning, seq_max, PinModel, RecordModel, Uuid};
use crate::vector::vv_get;

verus! {

/// The next write of this host to content with vector `vv` gets this version: its number
/// in the upper bits, the host in the lower sixteen.
pub open spec fn next_dot(host: u16, vv: Seq<(u16, u64)>) -> int {
    ((vv_get(vv, host) + 1) % 0x1_0000_0000_0000) * 0x1_0000 + host
}

/// A write gives a new version to the fragments that it falls into, and only to those,
/// unless the fragments change size, when all are new. The others keep their block and
/// their suite. The vector counts one more write of this host. Metadata, document head
/// and identity stay, and the record before is its parent.
pub proof fn law_writes_mark_what_they_touch<C: Crypto>(
    o: &Engine<C>,
    e: &Engine<C>,
    head_addr: u64,
    r0: RecordModel,
    offset: int,
    data: Seq<u8>,
    r1: RecordModel,
    g: int,
)
    requires
        Engine::<C>::wrote(o, e, head_addr, r0, offset, data, r1),
        0 <= offset,
        data.len() > 0,
        vv_get(r0.stream().vv, o.local_alias) < u64::MAX,
        0 <= g < r1.stream().n(),
    ensures
        ({
            let sm0 = r0.stream();
            let sm1 = r1.stream();
            let fs = frag_bytes(sm1.fragsize_exp) as int;
            let same = sm0.n() > 0 && sm1.fragsize_exp == sm0.fragsize_exp;
            let hit = offset < (g + 1) * fs && g * fs < offset + data.len();
            &&& hit || (sm0.n() > 0 && !same) ==> {
                &&& sm1.unit_map[g] == next_dot(o.local_alias, sm0.vv)
                &&& e.suite(r1, g) == o.header.content_cipher
            }
            &&& same && !hit ==> {
                &&& sm1.unit_map[g] == sm0.unit_map[g]
                &&& sm1.locations[g] == sm0.locations[g]
                &&& e.suite(r1, g) == o.suite(r0, g)
            }
            &&& sm1.size() >= offset + data.len()
            &&& sm1.size() >= sm0.size()
            &&& sm1.size() == offset + data.len() || sm1.size() == sm0.size()
            &&& vv_get(sm1.vv, o.local_alias) == vv_get(sm0.vv, o.local_alias) + 1
            &&& forall|h: u16|
                h != o.local_alias ==> #[trigger] vv_get(sm1.vv, h) == vv_get(sm0.vv, h)
        }),
        r1.uuid == r0.uuid,
        r1.meta == r0.meta,
        r1.db == r0.db,
        r1.parent == Some(head_addr),
        r1.strains.len() == 0,
{
    let sm0 = r0.stream();
    let sm1 = r1.stream();
    let end = offset + data.len() as int;
    let fs = frag_bytes(sm1.fragsize_exp) as int;
    crate::block::lemma_frag_bytes(sm1.fragsize_exp);
    lemma_overlap(offset, end, fs, g);
    if !crate::write::rechunks(sm0, end as nat) {
        o.lemma_suites_after(r0, r1, sm1.n(), offset / fs, (end - 1) / fs, g);
    }
    assert(e.suite(r1, g) == o.suite(r1, g));
}

proof fn lemma_overlap(offset: int, end: int, fs: int, g: int)
    requires
        0 <= offset < end,
        0 < fs,
        0 <= g,
    ensures
        (offset / fs <= g <= (end - 1) / fs) <==> (offset < (g + 1) * fs && g * fs < end),
{
    assert(offset / fs <= g <==> offset < (g + 1) * fs) by (nonlinear_arith)
        requires
            0 <= offset,
            0 < fs,
            0 <= g,
    ;
    assert(g <= (end - 1) / fs <==> g * fs < end) by (nonlinear_arith)
        requires
            0 < end,
            0 < fs,
            0 <= g,
    ;
}

/// Extending content keeps every fragment that it had, with its version, its block and its
/// suite, and adds holes of version zero. The vector counts one more write.
pub proof fn law_extending_keeps_the_fragments<C: Crypto>(
    o: &Engine<C>,
    r0: RecordModel,
    head_addr: u64,
    size: nat,
    r1: RecordModel,
    g: int,
)
    requires
        o.extended(r0, head_addr, size, r1),
        r0.stream().geometry_ok(),
        vv_get(r0.stream().vv, o.local_alias) < u64::MAX,
        0 <= g < r1.stream().n(),
    ensures
        ({
            let sm0 = r0.stream();
            let sm1 = r1.stream();
            &&& sm1.size() == size
            &&& sm0.n() > 0 ==> sm1.fragsize_exp == sm0.fragsize_exp
            &&& g < sm0.n() ==> sm1.unit_map[g] == sm0.unit_map[g] && sm1.locations[g]
                == sm0.locations[g]
            &&& g >= sm0.n() ==> sm1.unit_map[g] == 0 && sm1.locations[g].addr == 0
                && sm1.locations[g].len == 0
            &&& vv_get(sm1.vv, o.local_alias) == vv_get(sm0.vv, o.local_alias) + 1
            &&& forall|h: u16|
                h != o.local_alias ==> #[trigger] vv_get(sm1.vv, h) == vv_get(sm0.vv, h)
        }),
        r1.uuid == r0.uuid,
        r1.meta == r0.meta,
        r1.db == r0.db,
        r1.parent == Some(head_addr),
{
}

/// Cutting content keeps the fragments before the cut, with their versions and blocks. Only
/// the one that the cut falls into may become new. The vector counts one more write.
pub proof fn law_cutting_keeps_the_fragments_before<C: Crypto>(
    o: &Engine<C>,
    e: &Engine<C>,
    r0: RecordModel,
    head_addr: u64,
    size: nat,
    r1: RecordModel,
    g: int,
)
    requires
        Engine::<C>::truncated(o, e, r0, head_addr, size, r1),
        r0.stream().geometry_ok(),
        0 < size < r0.stream().size(),
        vv_get(r0.stream().vv, o.local_alias) < u64::MAX,
        0 <= g < r1.stream().n(),
    ensures
        ({
            let sm0 = r0.stream();
            let sm1 = r1.stream();
            let fs = frag_bytes(sm0.fragsize_exp) as int;
            &&& sm1.size() == size
            &&& sm1.fragsize_exp == sm0.fragsize_exp
            &&& (g + 1) * fs <= size ==> sm1.unit_map[g] == sm0.unit_map[g] && sm1.locations[g]
                == sm0.locations[g]
            &&& sm1.unit_map[g] == sm0.unit_map[g] || sm1.unit_map[g] == next_dot(
                o.local_alias,
                sm0.vv,
            )
            &&& (g + 1) * fs > size && sm0.locations[g] != hole() ==> sm1.unit_map[g] == next_dot(
                o.local_alias,
                sm0.vv,
            )
            &&& vv_get(sm1.vv, o.local_alias) == vv_get(sm0.vv, o.local_alias) + 1
            &&& forall|h: u16|
                h != o.local_alias ==> #[trigger] vv_get(sm1.vv, h) == vv_get(sm0.vv, h)
        }),
        r1.uuid == r0.uuid,
        r1.meta == r0.meta,
        r1.db == r0.db,
        r1.parent == Some(head_addr),
{
    let sm0 = r0.stream();
    let exp = sm0.fragsize_exp;
    let fs = frag_bytes(exp) as int;
    let n = crate::block::frags_for(size, exp) as int;
    crate::block::lemma_frag_bytes(exp);
    crate::block::lemma_frags(size, exp);
    assert(n <= sm0.n()) by (nonlinear_arith)
        requires
            (n - 1) * fs < size,
            size < (sm0.n() - 1) * fs + sm0.last_frag_length,
            sm0.last_frag_length <= fs,
            0 < fs,
    ;
    assert((n - 1) * fs + fs == n * fs) by (nonlinear_arith);
    if g < n - 1 {
        assert((g + 1) * fs <= (n - 1) * fs) by (nonlinear_arith)
            requires
                g + 1 <= n - 1,
                0 < fs,
        ;
    }
}

/// The version of content is the largest of its fragments' versions.
pub proof fn law_the_latest_version_counts(s: Seq<u64>)
    ensures
        s.len() == 0 ==> seq_max(s) == 0,
        s.len() > 0 ==> s.contains(seq_max(s)),
        forall|i: int| 0 <= i < s.len() ==> #[trigger] s[i] <= seq_max(s),
    decreases s.len(),
{
    if s.len() > 0 {
        let p = s.drop_last();
        law_the_latest_version_counts(p);
        if s.last() > seq_max(p) || p.len() == 0 {
            assert(s[s.len() - 1] == s.last());
            if p.len() == 0 && s.last() == 0 {
                assert(seq_max(s) == 0);
            }
        } else {
            let k = choose|k: int| 0 <= k < p.len() && p[k] == seq_max(p);
            assert(s[k] == seq_max(p));
        }
        assert forall|i: int| 0 <= i < s.len() implies #[trigger] s[i] <= seq_max(s) by {
            if i < p.len() {
                assert(s[i] == p[i]);
            }
        }
    }
}

/// A fragment is pinned by exactly the commits whose bit for it is set.
pub proof fn law_set_bits_pin(pins: Seq<PinModel>, f: int, c: Uuid)
    ensures
        pinning(pins, f).contains(c) <==> exists|i: int|
            0 <= i < pins.len() && (#[trigger] pins[i]).commit == c && bit_set(pins[i].bits, f),
    decreases pins.len(),
{
    if pins.len() > 0 {
        let q = pins.drop_last();
        let p = pinning(q, f);
        law_set_bits_pin(q, f, c);
        if pinning(pins, f).contains(c) {
            let k = choose|k: int| 0 <= k < pinning(pins, f).len() && pinning(pins, f)[k] == c;
            if k < p.len() {
                assert(p[k] == c);
                let i = choose|i: int|
                    0 <= i < q.len() && (#[trigger] q[i]).commit == c && bit_set(q[i].bits, f);
                assert(pins[i] == q[i]);
            } else {
                assert(pins[pins.len() - 1].commit == c);
            }
        }
        if exists|i: int|
            0 <= i < pins.len() && (#[trigger] pins[i]).commit == c && bit_set(pins[i].bits, f) {
            let i = choose|i: int|
                0 <= i < pins.len() && (#[trigger] pins[i]).commit == c && bit_set(pins[i].bits, f);
            if i < q.len() {
                assert(q[i] == pins[i]);
                let k = choose|k: int| 0 <= k < p.len() && p[k] == c;
                assert(pinning(pins, f)[k] == c);
            } else {
                assert(pinning(pins, f)[p.len() as int] == c);
            }
        }
    }
}

/// A commit pins every fragment of the content that it is made of, and takes no pin of an
/// earlier commit away.
pub proof fn law_commits_pin_every_fragment(m: RecordModel, x: RecordModel, commitish: Uuid, f: int)
    requires
        crate::tags::pinned(m, x, commitish),
        m.content is Some,
        0 <= f < m.stream().n(),
    ensures
        pinning(x.stream().pins, f).contains(commitish),
        forall|c: Uuid|
            c != commitish ==> (#[trigger] pinning(x.stream().pins, f).contains(c) <==> pinning(
                m.stream().pins,
                f,
            ).contains(c)),
        x.stream().unit_map == m.stream().unit_map,
        x.stream().locations == m.stream().locations,
        x.content_vv() == m.content_vv(),
        x.parent == m.parent,
        x.meta == m.meta,
        x.uuid == m.uuid,
{
    let pins = x.stream().pins;
    law_set_bits_pin(pins, f, commitish);
    assert(pins[pins.len() - 1].commit == commitish && bit_set(pins[pins.len() - 1].bits, f));
    let p = pinning(m.stream().pins, f);
    assert(pinning(pins, f) == p.push(commitish));
    assert forall|c: Uuid| c != commitish implies (#[trigger] pinning(pins, f).contains(c)
        <==> p.contains(c)) by {
        if p.contains(c) {
            let k = choose|k: int| 0 <= k < p.len() && p[k] == c;
            assert(p.push(commitish)[k] == c);
        }
        if pinning(pins, f).contains(c) {
            let k = choose|k: int| 0 <= k < p.len() + 1 && p.push(commitish)[k] == c;
            assert(p[k] == c);
        }
    }
}

/// What is sealed starts with the plaintext; behind it there are only zeros, up to what the
/// suite needs at least, and up to a whole fragment where the container pads. Nothing is
/// added that is not needed.
pub proof fn law_padding_is_zeros_behind<C: Crypto>(
    e: &Engine<C>,
    suite: u8,
    plain: Seq<u8>,
    exp: u8,
)
    ensures
        ({
            let p = e.padded_under(suite, plain, exp);
            &&& p.len() >= plain.len()
            &&& p.len() >= C::min_len(suite)
            &&& e.header.pad_blocks ==> p.len() >= frag_bytes(exp)
            &&& p.len() == plain.len() || p.len() == C::min_len(suite) || (e.header.pad_blocks
                && p.len() == frag_bytes(exp))
            &&& p.subrange(0, plain.len() as int) == plain
            &&& forall|i: int| plain.len() <= i < p.len() ==> #[trigger] p[i] == 0
        }),
{
    let p = e.padded_under(suite, plain, exp);
    assert(p.subrange(0, plain.len() as int) =~= plain);
}

/// The units of two commits have different names, and none has the name of the unit that
/// says which commit is the last.
pub proof fn law_commits_have_names_of_their_own(a: Uuid, b: Uuid)
    ensures
        commit_key(a) == commit_key(b) ==> a == b,
        commit_key(a) != head_key(),
        commit_key(a).len() == commits_prefix().len() + 32,
{
    lemma_hex_len(a@);
    lemma_hex_len(b@);
    if commit_key(a) == commit_key(b) {
        let n = commits_prefix().len() as int;
        assert(commit_key(a).skip(n) =~= hex(a@));
        assert(commit_key(b).skip(n) =~= hex(b@));
        lemma_hex_same(a@, b@);
        assert(a =~= b);
    }
}

proof fn lemma_hex_len(b: Seq<u8>)
    ensures
        hex(b).len() == 2 * b.len(),
    decreases b.len(),
{
    if b.len() > 0 {
        lemma_hex_len(b.drop_last());
    }
}

proof fn lemma_hex_same(a: Seq<u8>, b: Seq<u8>)
    requires
        a.len() == b.len(),
        hex(a) == hex(b),
    ensures
        a == b,
    decreases a.len(),
{
    if a.len() > 0 {
        let p = a.drop_last();
        let q = b.drop_last();
        let n = 2 * p.len() as int;
        lemma_hex_len(p);
        lemma_hex_len(q);
        assert(hex(a).subrange(0, n) =~= hex(p));
        assert(hex(b).subrange(0, n) =~= hex(q));
        lemma_hex_same(p, q);
        let x = a.last() as int;
        let y = b.last() as int;
        assert(hex(a)[n] == hex_digit(x / 16) && hex(b)[n] == hex_digit(y / 16));
        assert(hex(a)[n + 1] == hex_digit(x % 16) && hex(b)[n + 1] == hex_digit(y % 16));
        assert(x / 16 == y / 16 && x % 16 == y % 16);
        assert(a =~= p.push(a.last()));
        assert(b =~= q.push(b.last()));
    } else {
        assert(a =~= b);
    }
}

/// A head record that is cached is not decoded again; one that is not is decoded once.
pub proof fn law_cached_heads_are_not_decoded<C: Crypto>(
    e: &Engine<C>,
    uuid: Uuid,
    addr: u64,
    i: int,
)
    requires
        e.decode_count < u64::MAX,
    ensures
        0 <= i < e.record_cache@.len() && e.record_cache@[i].uuid == uuid
            && e.record_cache@[i].addr == addr ==> e.decodes_after(uuid, addr) == e.decode_count,
        (forall|j: int|
            0 <= j < e.record_cache@.len() ==> (#[trigger] e.record_cache@[j]).uuid != uuid
                || e.record_cache@[j].addr != addr) ==> e.decodes_after(uuid, addr)
            == e.decode_count + 1,
{
    if 0 <= i < e.record_cache@.len() && e.record_cache@[i].uuid == uuid
        && e.record_cache@[i].addr == addr {
        assert(crate::cache::cached_at(e.record_cache@, uuid, i));
    }
}

/// A commit notes its title, its message, the commit that was the last one before it if
/// there was one, and of every path, in order, the unit and the latest versions of its
/// content and its metadata.
pub proof fn law_commits_note_what_they_hold<C: Crypto>(
    o: &Engine<C>,
    keys: Seq<Seq<u8>>,
    title: Seq<char>,
    message: Seq<char>,
    commitish: Uuid,
    last: Uuid,
    i: int,
)
    requires
        o.tag_entries(keys) is Ok,
        0 <= i < keys.len(),
    ensures
        ({
            let c = o.commit_of(keys, title, message, commitish);
            let m = o.head(keys[i])->Ok_0.2;
            &&& c.title == title
            &&& c.message == message
            &&& c.commitish == commitish
            &&& o.content_at(head_key()) == Ok::<Seq<u8>, Error>(last@) ==> c.parents == seq![last]
            &&& o.content_at(head_key()) is Err ==> c.parents.len() == 0
            &&& c.parents.len() <= 1
            &&& c.entries.len() == keys.len()
            &&& o.head(keys[i]) is Ok
            &&& c.entries[i].0 == o.head(keys[i])->Ok_0.0
            &&& m.content is Some ==> c.entries[i].1 == seq_max(m.content->Some_0.unit_map)
            &&& m.content is None ==> c.entries[i].1 == 0
            &&& m.meta is Some ==> c.entries[i].2 == seq_max(m.meta->Some_0.unit_map)
            &&& m.meta is None ==> c.entries[i].2 == 0
        }),
{
    lemma_entries(o, keys, i);
    if o.content_at(head_key()) == Ok::<Seq<u8>, Error>(last@) {
        assert(crate::bytes::array16(last@)@ == last@);
        assert(crate::bytes::array16(last@) =~= last);
    }
}

proof fn lemma_entries<C: Crypto>(o: &Engine<C>, keys: Seq<Seq<u8>>, i: int)
    requires
        o.tag_entries(keys) is Ok,
        0 <= i < keys.len(),
    ensures
        o.tag_entries(keys)->Ok_0.len() == keys.len(),
        o.head(keys[i]) is Ok,
        ({
            let m = o.head(keys[i])->Ok_0.2;
            o.tag_entries(keys)->Ok_0[i] == (
                o.head(keys[i])->Ok_0.0,
                crate::tags::version_of(m.content),
                crate::tags::version_of(m.meta),
            )
        }),
    decreases keys.len(),
{
    let p = keys.drop_last();
    if p.len() > 0 {
        lemma_entries(o, p, if i < p.len() { i } else { 0 });
    } else {
        assert(o.tag_entries(p) == Ok::<Seq<(Uuid, u64, u64)>, Error>(Seq::empty()));
    }
    if i < p.len() {
        assert(p[i] == keys[i]);
    }
}

/// Of a unit, a commit holds the version of the first entry for it, and none where no entry
/// is for it.
pub proof fn law_first_entries_count<C: Crypto>(entries: Seq<(Uuid, u64, u64)>, uuid: Uuid, i: int)
    requires
        0 <= i < entries.len(),
        forall|j: int| 0 <= j < i ==> (#[trigger] entries[j]).0 != uuid,
    ensures
        entries[i].0 == uuid ==> Engine::<C>::committed_version(entries, uuid) == Some(entries[i].1),
        i == entries.len() - 1 && entries[i].0 != uuid ==> Engine::<C>::committed_version(
            entries,
            uuid,
        ) is None,
    decreases entries.len(),
{
    let p = entries.drop_last();
    if i < p.len() {
        assert forall|j: int| 0 <= j < i implies (#[trigger] p[j]).0 != uuid by {
            assert(entries[j].0 != uuid);
        }
        law_first_entries_count::<C>(p, uuid, i);
    } else if p.len() > 0 {
        assert forall|j: int| 0 <= j < p.len() - 1 implies (#[trigger] p[j]).0 != uuid by {
            assert(entries[j].0 != uuid);
        }
        assert(entries[p.len() - 1].0 != uuid);
        law_first_entries_count::<C>(p, uuid, p.len() - 1);
    }
}

/// Writes of nothing, past the end of the content, past what a number can say, or to a path
/// that leads to nothing are refused. Where everything can be read and the suite is known,
/// all others are taken.
pub proof fn law_writes_must_follow_on<C: Crypto>(
    e: &Engine<C>,
    key: Seq<u8>,
    offset: int,
    len: nat,
)
    requires
        0 <= offset,
    ensures
        len == 0 ==> e.write_error(key, offset, len) == Some(Error::Integrity)
            && e.raw_write_error(key, offset, len) == Some(Error::Integrity),
        len > 0 && e.head(key) is Err ==> e.write_error(key, offset, len) == Some(
            e.head(key)->Err_0,
        ) && e.raw_write_error(key, offset, len) == Some(e.head(key)->Err_0),
        len > 0 && e.head(key) is Ok && (offset > e.head(key)->Ok_0.2.stream().size() || offset + len
            > u64::MAX) ==> e.write_error(key, offset, len) == Some(Error::Integrity)
            && e.raw_write_error(key, offset, len) == Some(Error::Integrity),
        len > 0 && e.head(key) is Ok && offset <= e.head(key)->Ok_0.2.stream().size() && offset + len
            <= u64::MAX && C::known(e.header.content_cipher) && (forall|g: int|
            0 <= g < e.head(key)->Ok_0.2.stream().n() ==> #[trigger] e.readable(
                e.head(key)->Ok_0.2,
                g,
            )) && e.head(key)->Ok_0.2.stream().fragsize_exp <= 31 ==> e.write_error(
            key,
            offset,
            len,
        ) is None && e.raw_write_error(key, offset, len) is None,
{
    if len > 0 && e.head(key) is Ok && C::known(e.header.content_cipher) && (forall|g: int|
        0 <= g < e.head(key)->Ok_0.2.stream().n() ==> #[trigger] e.readable(
            e.head(key)->Ok_0.2,
            g,
        )) && e.head(key)->Ok_0.2.stream().fragsize_exp <= 31 && offset + len <= u64::MAX {
        let r = e.head(key)->Ok_0.2;
        let sm = r.stream();
        let end = (offset + len) as nat;
        e.lemma_all_readable(r, 0, sm.n() - 1);
        crate::block::lemma_exp_range(end, 12, 22);
        crate::block::lemma_exp_range(crate::write::grown_size(sm, end), 12, 22);
        crate::block::lemma_frag_bytes(crate::write::write_exp(sm, end));
        crate::block::lemma_frag_bytes(crate::write::start_exp(sm, end));
        let fs = frag_bytes(crate::write::write_exp(sm, end)) as int;
        let gs = frag_bytes(crate::write::start_exp(sm, end)) as int;
        assert(0 <= offset / fs) by (nonlinear_arith)
            requires
                0 <= offset,
                0 < fs,
        ;
        assert(0 <= offset / gs) by (nonlinear_arith)
            requires
                0 <= offset,
                0 < gs,
        ;
        let a = (end - 1) / fs;
        let b = (end - 1) / gs;
        e.lemma_all_readable(
            r,
            offset / fs,
            if a < sm.n() {
                a
            } else {
                sm.n() - 1
            },
        );
        e.lemma_all_readable(
            r,
            offset / gs,
            if b < sm.n() {
                b
            } else {
                sm.n() - 1
            },
        );
    }
}

/// Registering a unit binds its path and leaves every other path alone. A unit that is known
/// stays as it is; a new one is empty. A path that leads elsewhere is not bound again.
pub proof fn law_registering_binds_the_path<C: Crypto>(
    o: &Engine<C>,
    e: &Engine<C>,
    key: Seq<u8>,
    uuid: Uuid,
    r: Result<(), Error>,
    other: Seq<u8>,
)
    requires
        o.inv(),
        Engine::<C>::registered(o, e, key, uuid, r),
    ensures
        o.keys@.contains_key(key) && o.keys@[key] != uuid ==> r == Err::<(), Error>(
            Error::Integrity,
        ) && *e == *o,
        !o.keys@.contains_key(key) || o.keys@[key] == uuid ==> (r is Ok <==> o.may_sign()
            || o.ids@.contains_key(uuid@)),
        r is Err ==> r == Err::<(), Error>(Error::Integrity) && *e == *o,
        r is Ok ==> {
            &&& e.keys@.contains_key(key)
            &&& e.keys@[key] == uuid
            &&& other != key ==> (e.keys@.contains_key(other) <==> o.keys@.contains_key(other))
            &&& other != key && o.keys@.contains_key(other) ==> e.keys@[other] == o.keys@[other]
            &&& e.slots() == o.slots()
            &&& e.ids@.contains_key(uuid@)
            &&& o.ids@.contains_key(uuid@) ==> e.head_of(uuid@) == o.head_of(uuid@)
            &&& !o.ids@.contains_key(uuid@) ==> {
                &&& e.head_of(uuid@).uuid == uuid
                &&& e.head_of(uuid@).content is Some
                &&& e.head_of(uuid@).stream().n() == 0
                &&& e.head_of(uuid@).meta is None
                &&& e.head_of(uuid@).parent is None
                &&& e.head_of(uuid@).strains.len() == 0
                &&& e.head_of(uuid@).content_vv().len() == 0
            }
        },
{
}

/// Blocks that are taken out of the content are kept, as they are stored, with the version
/// and the commits of their fragment.
pub proof fn law_blocks_taken_out_are_kept<C: Crypto>(
    o: &Engine<C>,
    r: RecordModel,
    first: int,
    upto: int,
    f: int,
) -> (i: int)
    requires
        0 <= first <= f < upto,
        f < r.stream().n(),
        r.stream().locations[f] != hole(),
        crate::content::stored_at(o.slots(), r.stream().locations[f]) is Some,
        !crate::engine::journal_has(o.journaled@, r.uuid@, f as u32),
    ensures
        0 <= i < o.kept_images(r, first, upto).len(),
        ({
            let x = o.kept_images(r, first, upto)[i];
            &&& x.uuid == r.uuid
            &&& x.frag == f as u32
            &&& x.old_version == r.stream().unit_map[f]
            &&& x.bytes == o.slots()[r.stream().locations[f].addr - 1]
            &&& x.commits == pinning(r.stream().pins, f)
            &&& x.inplace_addr == 0
        }),
    decreases upto - first,
{
    if f == upto - 1 {
        o.kept_images(r, first, upto).len() - 1
    } else {
        law_blocks_taken_out_are_kept(o, r, first, upto - 1, f)
    }
}

/// When content grows into larger fragments, the blocks that a commit pins are kept, with
/// their version and their commits, and no others are.
pub proof fn law_growing_keeps_what_is_pinned<C: Crypto>(
    o: &Engine<C>,
    e: &Engine<C>,
    r: RecordModel,
    offset: int,
    data: Seq<u8>,
    f: int,
) -> (i: int)
    requires
        Engine::<C>::superseded(o, e, r, offset, data),
        crate::write::rechunks(r.stream(), (offset + data.len()) as nat),
    ensures
        o.tail().len() <= e.tail().len(),
        e.tail().take(o.tail().len() as int) == o.tail(),
        forall|j: int|
            o.tail().len() <= j < e.tail().len() ==> (#[trigger] e.tail()[j]).commits.len() > 0
                && e.tail()[j].uuid == r.uuid,
        0 <= f < r.stream().n() && r.stream().locations[f] != hole() && pinning(
            r.stream().pins,
            f,
        ).len() > 0 ==> {
            &&& o.tail().len() <= i < e.tail().len()
            &&& e.tail()[i].frag == f as u32
            &&& e.tail()[i].old_version == r.stream().unit_map[f]
            &&& e.tail()[i].bytes == o.slots()[r.stream().locations[f].addr - 1]
            &&& e.tail()[i].commits == pinning(r.stream().pins, f)
        },
{
    let n = r.stream().n() as int;
    let kept = o.pinned_images(r, n);
    let i = lemma_pinned_images(o, r, n, f);
    assert(e.tail().take(o.tail().len() as int) =~= o.tail());
    assert forall|j: int| o.tail().len() <= j < e.tail().len() implies (
    #[trigger] e.tail()[j]).commits.len() > 0 && e.tail()[j].uuid == r.uuid by {
        assert(e.tail()[j] == kept[j - o.tail().len()]);
    }
    o.tail().len() + i
}

proof fn lemma_pinned_images<C: Crypto>(o: &Engine<C>, r: RecordModel, upto: int, f: int) -> (i: int)
    requires
        upto <= r.stream().n(),
    ensures
        forall|j: int|
            0 <= j < o.pinned_images(r, upto).len() ==> (#[trigger] o.pinned_images(
                r,
                upto,
            )[j]).commits.len() > 0 && o.pinned_images(r, upto)[j].uuid == r.uuid,
        0 <= f < upto && r.stream().locations[f] != hole() && pinning(r.stream().pins, f).len() > 0
            ==> {
            let x = o.pinned_images(r, upto)[i];
            &&& 0 <= i < o.pinned_images(r, upto).len()
            &&& x.frag == f as u32
            &&& x.old_version == r.stream().unit_map[f]
            &&& x.bytes == o.slots()[r.stream().locations[f].addr - 1]
            &&& x.commits == pinning(r.stream().pins, f)
        },
    decreases upto,
{
    if upto <= 0 {
        0
    } else {
        let s = o.pinned_images(r, upto);
        let p = o.pinned_images(r, upto - 1);
        let i = lemma_pinned_images(o, r, upto - 1, f);
        assert forall|j: int| 0 <= j < s.len() implies (#[trigger] s[j]).commits.len() > 0
            && s[j].uuid == r.uuid by {
            if j < p.len() {
                assert(s[j] == p[j]);
            }
        }
        if f == upto - 1 {
            s.len() - 1
        } else {
            i
        }
    }
}

/// Extending content never makes it shorter, and gives no content to a unit that has none:
/// then nothing changes. Otherwise the content has the size that was asked for.
pub proof fn law_extending_only_grows<C: Crypto>(
    o: &Engine<C>,
    e: &Engine<C>,
    key: Seq<u8>,
    size: nat,
    r: Result<(), Error>,
)
    requires
        Engine::<C>::extend_step(o, e, key, size, r),
    ensures
        o.head(key) is Err ==> r is Err && *e == *o,
        o.head(key) is Ok ==> {
            let m = o.head(key)->Ok_0.2;
            &&& m.content is None || size <= m.stream().size() ==> r is Ok && *e == *o
            &&& m.content is Some && m.stream().size() < size ==> (r is Ok <==> o.may_sign())
            &&& m.content is Some && m.stream().size() < size && r is Ok
                ==> e.recs().last().stream().size() == size
            &&& r is Err ==> r == Err::<(), Error>(Error::Integrity) && *e == *o
        },
{
}

/// A write under a raw key gives a new version to the fragments that it falls into, and only
/// to those; the others keep their block and their suite. Fragments never change size.
pub proof fn law_raw_writes_mark_what_they_touch<C: Crypto>(
    o: &Engine<C>,
    e: &Engine<C>,
    head_addr: u64,
    r0: RecordModel,
    offset: int,
    data: Seq<u8>,
    r1: RecordModel,
    g: int,
)
    requires
        Engine::<C>::raw_wrote(o, e, head_addr, r0, offset, data, r1),
        0 <= offset,
        data.len() > 0,
        vv_get(r0.stream().vv, o.local_alias) < u64::MAX,
        0 <= g < r1.stream().n(),
    ensures
        ({
            let sm0 = r0.stream();
            let sm1 = r1.stream();
            let fs = frag_bytes(sm1.fragsize_exp) as int;
            let hit = offset < (g + 1) * fs && g * fs < offset + data.len();
            &&& sm0.n() > 0 ==> sm1.fragsize_exp == sm0.fragsize_exp
            &&& hit ==> {
                &&& sm1.unit_map[g] == next_dot(o.local_alias, sm0.vv)
                &&& e.suite(r1, g) == o.header.content_cipher
            }
            &&& !hit ==> {
                &&& sm1.unit_map[g] == sm0.unit_map[g]
                &&& sm1.locations[g] == sm0.locations[g]
                &&& e.suite(r1, g) == o.suite(r0, g)
            }
        }),
        r1.parent == Some(head_addr),
        r1.uuid == r0.uuid,
        r1.db == r0.db,
{
    let sm1 = r1.stream();
    let end = offset + data.len() as int;
    let fs = frag_bytes(sm1.fragsize_exp) as int;
    crate::block::lemma_frag_bytes(sm1.fragsize_exp);
    lemma_overlap(offset, end, fs, g);
    o.lemma_suites_after(r0, r1, sm1.n(), offset / fs, (end - 1) / fs, g);
    assert(e.suite(r1, g) == o.suite(r1, g));
}

} // verus!
