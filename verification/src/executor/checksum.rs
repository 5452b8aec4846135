//! The checksum that identifies the content of a migration.
//!
//! It is the standard base64 text of the SHA3-256 digest of the migration's
//! id (eight bytes, big-endian) followed by the UTF-8 bytes of its queries:
//! for each change set in order, those of its `up` change and then those of
//! its `down` change, if any.

use vstd::prelude::*;
use vstd::utf8::encode_utf8;

use crate::migrations::{Change, ChangeSet, Migration};

verus! {

/// The SHA3-256 digest of `data`.
pub uninterp spec fn sha3_256_digest(data: Seq<u8>) -> Seq<u8>;

/// The standard base64 encoding (alphabet `A-Za-z0-9+/`, `=` padding) of `data`.
pub uninterp spec fn base64_standard(data: Seq<u8>) -> Seq<char>;

/// The eight bytes of `x`, most significant first (two's complement).
pub open spec fn be_bytes(x: i64) -> Seq<u8> {
    let u = x as u64;
    seq![
        (u >> 56u64) as u8,
        (u >> 48u64) as u8,
        (u >> 40u64) as u8,
        (u >> 32u64) as u8,
        (u >> 24u64) as u8,
        (u >> 16u64) as u8,
        (u >> 8u64) as u8,
        u as u8,
    ]
}

/// The UTF-8 bytes of the queries `qs`, one after another.
pub open spec fn queries_bytes(qs: Seq<String>) -> Seq<u8>
    decreases qs.len(),
{
    if qs.len() == 0 {
        seq![]
    } else {
        queries_bytes(qs.drop_last()) + encode_utf8(qs.last()@)
    }
}

/// The bytes that a change contributes to the checksum.
pub open spec fn change_bytes(c: Change) -> Seq<u8> {
    match c {
        Change::Query { query } => encode_utf8(query@),
        Change::Queries { queries } => queries_bytes(queries@),
        Change::SqlFile { .. } => seq![],
    }
}

/// The bytes that a change set contributes to the checksum.
pub open spec fn change_set_bytes(cs: ChangeSet) -> Seq<u8> {
    change_bytes(cs.up) + match cs.down {
        Some(c) => change_bytes(c),
        None => seq![],
    }
}

/// The bytes that the change sets `s` contribute to the checksum.
pub open spec fn change_sets_bytes(s: Seq<ChangeSet>) -> Seq<u8>
    decreases s.len(),
{
    if s.len() == 0 {
        seq![]
    } else {
        change_sets_bytes(s.drop_last()) + change_set_bytes(s.last())
    }
}

/// Everything that is hashed for the checksum of `m`.
pub open spec fn checksum_input(m: Migration) -> Seq<u8> {
    be_bytes(m.id) + change_sets_bytes(m.changes@)
}

/// The checksum of `m`.
pub open spec fn checksum_of(m: Migration) -> Seq<char> {
    base64_standard(sha3_256_digest(checksum_input(m)))
}

/// `c` is a SQL file.
pub open spec fn is_sql_file(c: Change) -> bool {
    c is SqlFile
}

/// No change of `m`, up or down, is a SQL file (the checksum of SQL files is
/// not defined).
pub open spec fn checksummable(m: Migration) -> bool {
    forall|i: int|
        0 <= i < m.changes@.len() ==> {
            &&& !is_sql_file(#[trigger] m.changes@[i].up)
            &&& (m.changes@[i].down matches Some(c) ==> !is_sql_file(c))
        }
}

/// Every migration of `disk` has a checksum.
pub open spec fn all_checksummable(disk: Seq<Migration>) -> bool {
    forall|i: int| 0 <= i < disk.len() ==> checksummable(#[trigger] disk[i])
}

/// The index of the first migration of `disk` from `i` on that has no
/// checksum, or the length of `disk` if there is none.
pub open spec fn first_unchecksummable_from(disk: Seq<Migration>, i: int) -> int
    decreases disk.len() - i,
{
    if i < 0 || i >= disk.len() {
        disk.len() as int
    } else if !checksummable(disk[i]) {
        i
    } else {
        first_unchecksummable_from(disk, i + 1)
    }
}

/// Where the first migration of `disk` that has no checksum stands, if any.
pub fn first_without_checksum(disk: &Vec<Migration>) -> (r: Option<usize>)
    ensures
        r matches Some(k) ==> k < disk@.len() && k == first_unchecksummable_from(disk@, 0) && !checksummable(
            disk@[k as int],
        ),
        r is None ==> all_checksummable(disk@),
{
    let n = disk.len();
    for i in 0..n
        invariant
            n == disk@.len(),
            forall|j: int| 0 <= j < i ==> checksummable(#[trigger] disk@[j]),
            first_unchecksummable_from(disk@, 0) == first_unchecksummable_from(disk@, i as int),
    {
        if has_sql_file(&disk[i]) {
            return Some(i);
        }
    }
    None
}

/// Whether some change of `migration`, up or down, is a SQL file, so that it
/// has no checksum.
pub fn has_sql_file(migration: &Migration) -> (r: bool)
    ensures
        r == !checksummable(*migration),
{
    let n = migration.changes.len();
    for i in 0..n
        invariant
            n == migration.changes@.len(),
            forall|j: int|
                0 <= j < i ==> {
                    &&& !is_sql_file(#[trigger] migration.changes@[j].up)
                    &&& (migration.changes@[j].down matches Some(c) ==> !is_sql_file(c))
                },
    {
        let cs = &migration.changes[i];
        if let Change::SqlFile { .. } = &cs.up {
            return true;
        }
        if let Some(Change::SqlFile { .. }) = &cs.down {
            return true;
        }
    }
    false
}

/// Computes the SHA3-256 digest of `data` with `sha3::Sha3_256::digest`.
/// Claims that the result is the digest named by `sha3_256_digest` and that
/// it is 32 bytes long (the hash's output size).
#[verifier::external_body]
fn sha3_256(data: &[u8]) -> (digest: Vec<u8>)
    ensures
        digest@ == sha3_256_digest(data@),
        digest@.len() == 32,
{
    <sha3::Sha3_256 as sha3::Digest>::digest(data).to_vec()
}

/// Encodes `data` with `base64::encode` (standard alphabet, with padding).
/// Claims that the result is the text named by `base64_standard`, four
/// characters for every three bytes begun (`encoded_size` with padding). The length
/// bound keeps `base64::encode` clear of the size overflow on which it panics.
#[verifier::external_body]
fn base64_encode(data: &[u8]) -> (text: String)
    requires
        data@.len() <= usize::MAX / 2,
    ensures
        text@ == base64_standard(data@),
        text@.len() == 4 * ((data@.len() + 2) / 3),
{
    base64::encode(data)
}

/// Appends `bytes` to `buf`.
fn push_bytes(buf: &mut Vec<u8>, bytes: &[u8])
    ensures
        final(buf)@ == old(buf)@ + bytes@,
{
    let n = bytes.len();
    for i in 0..n
        invariant
            n == bytes@.len(),
            buf@ == old(buf)@ + bytes@.take(i as int),
    {
        assert(bytes@.take(i + 1) == bytes@.take(i as int).push(bytes@[i as int]));
        buf.push(bytes[i]);
    }
    assert(bytes@.take(n as int) == bytes@);
}

/// Appends the bytes that `change` contributes to the checksum.
fn push_change(buf: &mut Vec<u8>, change: &Change)
    requires
        !is_sql_file(*change),
    ensures
        final(buf)@ == old(buf)@ + change_bytes(*change),
{
    match change {
        Change::Query { query } => {
            push_bytes(buf, query.as_str().as_bytes());
        },
        Change::Queries { queries } => {
            let n = queries.len();
            for i in 0..n
                invariant
                    n == queries@.len(),
                    buf@ == old(buf)@ + queries_bytes(queries@.take(i as int)),
            {
                assert(queries@.take(i + 1).drop_last() == queries@.take(i as int));
                push_bytes(buf, queries[i].as_str().as_bytes());
            }
            assert(queries@.take(n as int) == queries@);
        },
        Change::SqlFile { .. } => {
            assert(false);
        },
    }
}

/// The checksum of `migration`: the base64 text of the SHA3-256 digest of
/// its id and queries.
pub fn new(migration: &Migration) -> (checksum: String)
    requires
        checksummable(*migration),
    ensures
        checksum@ == checksum_of(*migration),
        checksum@.len() == 44,
{
    let mut buf: Vec<u8> = Vec::new();
    let u = migration.id as u64;
    buf.push((u >> 56) as u8);
    buf.push((u >> 48) as u8);
    buf.push((u >> 40) as u8);
    buf.push((u >> 32) as u8);
    buf.push((u >> 24) as u8);
    buf.push((u >> 16) as u8);
    buf.push((u >> 8) as u8);
    buf.push(u as u8);
    assert(buf@ == be_bytes(migration.id));
    let n = migration.changes.len();
    for i in 0..n
        invariant
            n == migration.changes@.len(),
            checksummable(*migration),
            buf@ == be_bytes(migration.id) + change_sets_bytes(migration.changes@.take(i as int)),
    {
        let cs = &migration.changes[i];
        assert(migration.changes@.take(i + 1).drop_last() == migration.changes@.take(i as int));
        assert(!is_sql_file(migration.changes@[i as int].up));
        push_change(&mut buf, &cs.up);
        match &cs.down {
            Some(c) => {
                push_change(&mut buf, c);
            },
            None => {},
        }
    }
    assert(migration.changes@.take(n as int) == migration.changes@);
    let digest = sha3_256(buf.as_slice());
    base64_encode(digest.as_slice())
}

/// Two lists of change sets with the same changes, up and down, contribute
/// the same bytes, whatever their dialects.
proof fn lemma_change_sets_bytes_ignore_dialect(a: Seq<ChangeSet>, b: Seq<ChangeSet>)
    requires
        a.len() == b.len(),
        forall|i: int|
            0 <= i < a.len() ==> (#[trigger] a[i]).up == b[i].up && a[i].down == b[i].down,
    ensures
        change_sets_bytes(a) == change_sets_bytes(b),
    decreases a.len(),
{
    if a.len() > 0 {
        assert(a.last() == a[a.len() - 1]);
        assert(b.last() == b[b.len() - 1]);
        assert forall|i: int| 0 <= i < a.drop_last().len() implies (#[trigger] a.drop_last()[i]).up
            == b.drop_last()[i].up && a.drop_last()[i].down == b.drop_last()[i].down by {
            assert(a.drop_last()[i] == a[i]);
            assert(b.drop_last()[i] == b[i]);
        }
        lemma_change_sets_bytes_ignore_dialect(a.drop_last(), b.drop_last());
    }
}

/// The checksum of a migration depends on its id and its changes only: two
/// migrations whose change sets differ at most in their dialects have the
/// same checksum.
pub proof fn lemma_checksum_ignores_dialect(a: Migration, b: Migration)
    requires
        a.id == b.id,
        a.changes@.len() == b.changes@.len(),
        forall|i: int|
            0 <= i < a.changes@.len() ==> (#[trigger] a.changes@[i]).up == b.changes@[i].up
                && a.changes@[i].down == b.changes@[i].down,
    ensures
        checksum_of(a) == checksum_of(b),
{
    lemma_change_sets_bytes_ignore_dialect(a.changes@, b.changes@);
}

/// The number that the eight bytes `b`, most significant first, spell.
pub open spec fn decode_be(b: Seq<u8>) -> int {
    b[0] as int * 0x100000000000000 + b[1] as int * 0x1000000000000 + b[2] as int * 0x10000000000
        + b[3] as int * 0x100000000 + b[4] as int * 0x1000000 + b[5] as int * 0x10000 + b[6] as int
        * 0x100 + b[7] as int
}

/// The bytes of the queries that change `c` runs, in order: the UTF-8 bytes
/// of its query, or of each of its queries one after another.
pub open spec fn change_text_bytes(c: Change) -> Seq<u8> {
    match c {
        Change::Query { query } => encode_utf8(query@),
        Change::Queries { queries } => queries@.map_values(|q: String| encode_utf8(q@)).flatten(),
        Change::SqlFile { .. } => seq![],
    }
}

/// The bytes of the queries of change set `cs`: those of its up change, then
/// those of its own down change, if any.
pub open spec fn change_set_text_bytes(cs: ChangeSet) -> Seq<u8> {
    change_text_bytes(cs.up) + match cs.down {
        Some(c) => change_text_bytes(c),
        None => Seq::<u8>::empty(),
    }
}

/// The checksum input starts with the id: its first eight bytes spell the id
/// (as a 64-bit two's-complement number), most significant byte first.
pub proof fn lemma_checksum_input_starts_with_id(m: Migration)
    ensures
        checksum_input(m).len() >= 8,
        decode_be(checksum_input(m).take(8)) == (m.id as u64) as int,
{
    let u = m.id as u64;
    let b = checksum_input(m).take(8);
    assert(b =~= be_bytes(m.id));
    let b0 = (u >> 56u64) as u8;
    let b1 = (u >> 48u64) as u8;
    let b2 = (u >> 40u64) as u8;
    let b3 = (u >> 32u64) as u8;
    let b4 = (u >> 24u64) as u8;
    let b5 = (u >> 16u64) as u8;
    let b6 = (u >> 8u64) as u8;
    let b7 = u as u8;
    assert(b0 as u64 * 0x100000000000000u64 + b1 as u64 * 0x1000000000000u64 + b2 as u64 * 0x10000000000u64
        + b3 as u64 * 0x100000000u64 + b4 as u64 * 0x1000000u64 + b5 as u64 * 0x10000u64 + b6 as u64
        * 0x100u64 + b7 as u64 == u) by (bit_vector)
        requires
            b0 == (u >> 56u64) as u8,
            b1 == (u >> 48u64) as u8,
            b2 == (u >> 40u64) as u8,
            b3 == (u >> 32u64) as u8,
            b4 == (u >> 24u64) as u8,
            b5 == (u >> 16u64) as u8,
            b6 == (u >> 8u64) as u8,
            b7 == u as u8,
    ;
}

/// Migrations with different ids have checksum inputs that differ in their
/// first eight bytes.
pub proof fn lemma_checksum_input_id_injective(a: Migration, b: Migration)
    requires
        a.id != b.id,
    ensures
        checksum_input(a).take(8) != checksum_input(b).take(8),
{
    lemma_checksum_input_starts_with_id(a);
    lemma_checksum_input_starts_with_id(b);
    let x = a.id;
    let y = b.id;
    assert(x != y ==> (x as u64) != (y as u64)) by (bit_vector);
}

/// The bytes that change sets `s` contribute are, change set by change set
/// in order, the bytes of each one's up change and then of its own down
/// change.
proof fn lemma_change_sets_bytes_concatenation(s: Seq<ChangeSet>)
    ensures
        change_sets_bytes(s) == Seq::new(s.len(), |i: int| change_set_text_bytes(s[i])).flatten(),
    decreases s.len(),
{
    let parts = Seq::new(s.len(), |i: int| change_set_text_bytes(s[i]));
    if s.len() == 0 {
        assert(parts =~= Seq::<Seq<u8>>::empty());
    } else {
        lemma_change_sets_bytes_concatenation(s.drop_last());
        let front = Seq::new(s.drop_last().len(), |i: int| change_set_text_bytes(s.drop_last()[i]));
        assert(parts =~= front.push(change_set_text_bytes(s.last())));
        front.lemma_flatten_push(change_set_text_bytes(s.last()));
        lemma_change_bytes_text(s.last().up);
        if let Some(c) = s.last().down {
            lemma_change_bytes_text(c);
        }
    }
}

/// The bytes of a change are those of its queries.
proof fn lemma_change_bytes_text(c: Change)
    ensures
        change_bytes(c) == change_text_bytes(c),
{
    if let Change::Queries { queries } = c {
        lemma_queries_bytes_flatten(queries@);
    }
}

/// The bytes of queries are the UTF-8 bytes of each, one after another.
proof fn lemma_queries_bytes_flatten(qs: Seq<String>)
    ensures
        queries_bytes(qs) == qs.map_values(|q: String| encode_utf8(q@)).flatten(),
    decreases qs.len(),
{
    if qs.len() == 0 {
        assert(qs.map_values(|q: String| encode_utf8(q@)) =~= Seq::<Seq<u8>>::empty());
    } else {
        lemma_queries_bytes_flatten(qs.drop_last());
        let front = qs.drop_last().map_values(|q: String| encode_utf8(q@));
        assert(qs.map_values(|q: String| encode_utf8(q@)) =~= front.push(encode_utf8(qs.last()@)));
        front.lemma_flatten_push(encode_utf8(qs.last()@));
    }
}

/// What the checksum hashes: the eight bytes of the id, then, change set by
/// change set in order, the UTF-8 bytes of the queries of its up change and
/// then of its own down change (one query, or each of a list of queries).
pub proof fn lemma_checksum_input_layout(m: Migration)
    ensures
        checksum_input(m).len() >= 8,
        decode_be(checksum_input(m).take(8)) == (m.id as u64) as int,
        checksum_input(m).skip(8) == Seq::new(
            m.changes@.len(),
            |i: int| change_set_text_bytes(m.changes@[i]),
        ).flatten(),
{
    lemma_checksum_input_starts_with_id(m);
    lemma_change_sets_bytes_concatenation(m.changes@);
    assert(checksum_input(m).skip(8) =~= change_sets_bytes(m.changes@));
}

/// The checksum input sees every change set: two migrations with the same
/// id whose change sets have the same query bytes except at change set `i`,
/// where they differ (say, in the down queries), have different checksum
/// inputs.
pub proof fn lemma_checksum_input_sees_each_change_set(a: Migration, b: Migration, i: int)
    requires
        a.id == b.id,
        a.changes@.len() == b.changes@.len(),
        0 <= i < a.changes@.len(),
        forall|j: int|
            0 <= j < a.changes@.len() && j != i ==> change_set_text_bytes(#[trigger] a.changes@[j])
                == change_set_text_bytes(b.changes@[j]),
        change_set_text_bytes(a.changes@[i]) != change_set_text_bytes(b.changes@[i]),
    ensures
        checksum_input(a) != checksum_input(b),
{
    lemma_checksum_input_layout(a);
    lemma_checksum_input_layout(b);
    let n = a.changes@.len();
    let pa = Seq::new(n, |j: int| change_set_text_bytes(a.changes@[j]));
    let pb = Seq::new(n, |j: int| change_set_text_bytes(b.changes@[j]));
    let front = pa.take(i);
    let back = pa.skip(i + 1);
    let x = pa[i];
    let y = pb[i];
    assert(pb.take(i) =~= front) by {
        assert forall|j: int| 0 <= j < i implies pb.take(i)[j] == front[j] by {
            assert(a.changes@[j] == a.changes@[j]);
            assert(change_set_text_bytes(a.changes@[j]) == change_set_text_bytes(b.changes@[j]));
        }
    }
    assert(pb.skip(i + 1) =~= back) by {
        assert forall|j: int| 0 <= j < back.len() implies pb.skip(i + 1)[j] == back[j] by {
            assert(change_set_text_bytes(a.changes@[i + 1 + j]) == change_set_text_bytes(b.changes@[i + 1 + j]));
        }
    }
    assert(pa =~= front.push(x) + back);
    assert(pb =~= front.push(y) + back);
    vstd::seq_lib::lemma_flatten_concat(front.push(x), back);
    vstd::seq_lib::lemma_flatten_concat(front.push(y), back);
    front.lemma_flatten_push(x);
    front.lemma_flatten_push(y);
    let f = front.flatten();
    let g = back.flatten();
    if checksum_input(a) == checksum_input(b) {
        assert(checksum_input(a).skip(8) == checksum_input(b).skip(8));
        assert(f + x + g == f + y + g);
        assert(x.len() == y.len());
        assert((f + x + g).subrange(f.len() as int, (f.len() + x.len()) as int) =~= x);
        assert((f + y + g).subrange(f.len() as int, (f.len() + y.len()) as int) =~= y);
    }
}

} // verus!
