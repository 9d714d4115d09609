//! Records, index entries and their 16-byte little-endian file formats.
use vstd::bytes::{
    lemma_auto_spec_u64_to_from_le_bytes, spec_u64_from_le_bytes, spec_u64_to_le_bytes,
    u64_from_le_bytes, u64_to_le_bytes,
};
use vstd::prelude::*;
use vstd::slice::slice_subrange;

verus! {

/// Bytes taken by one record or one index entry on disk.
pub const ROW_SIZE: usize = 16;

/// A stored `(key, value)` pair.
#[derive(Clone, Copy, Debug, PartialEq, Eq, Structural)]
pub struct Record {
    pub key: u64,
    pub value: u64,
}

/// A `(key, original_position)` pair of the index.
#[derive(Clone, Copy, Debug, PartialEq, Eq, Structural)]
pub struct IndexEntry {
    pub key: u64,
    pub position: u64,
}

/// Items ordered by a `u64` key.
pub trait Keyed {
    spec fn key_of(&self) -> u64;

    fn key(&self) -> (r: u64)
        ensures
            r == self.key_of(),
    ;
}

impl Keyed for Record {
    open spec fn key_of(&self) -> u64 {
        self.key
    }

    fn key(&self) -> (r: u64) {
        self.key
    }
}

impl Keyed for IndexEntry {
    open spec fn key_of(&self) -> u64 {
        self.key
    }

    fn key(&self) -> (r: u64) {
        self.key
    }
}

/// Keys never decrease along `s`.
pub open spec fn sorted_by_key<T: Keyed>(s: Seq<T>) -> bool {
    forall|i: int, j: int| 0 <= i <= j < s.len() ==> s[i].key_of() <= s[j].key_of()
}

/// Failures of the record store.
#[derive(Clone, Copy, Debug, PartialEq, Eq, Structural)]
pub enum StoreError {
    /// The path does not exist.
    NotFound,
    /// A read or a write failed.
    Io,
    /// The byte length is not a multiple of the row size.
    CorruptFormat,
}

/// The `u64` stored little-endian in bytes `[start, start + 8)`.
pub open spec fn le_u64_at(bytes: Seq<u8>, start: int) -> u64 {
    spec_u64_from_le_bytes(bytes.subrange(start, start + 8))
}

/// The first `u64` of row `i`: a key.
pub open spec fn row_first(bytes: Seq<u8>, i: int) -> u64 {
    le_u64_at(bytes, 16 * i)
}

/// The second `u64` of row `i`: a value or an original position.
pub open spec fn row_second(bytes: Seq<u8>, i: int) -> u64 {
    le_u64_at(bytes, 16 * i + 8)
}

/// The records that a well-formed record file holds.
pub open spec fn records_of(bytes: Seq<u8>) -> Seq<Record> {
    Seq::new(
        (bytes.len() / 16) as nat,
        |i: int| Record { key: row_first(bytes, i), value: row_second(bytes, i) },
    )
}

/// The entries that a well-formed index file holds.
pub open spec fn entries_of(bytes: Seq<u8>) -> Seq<IndexEntry> {
    Seq::new(
        (bytes.len() / 16) as nat,
        |i: int| IndexEntry { key: row_first(bytes, i), position: row_second(bytes, i) },
    )
}

/// The bytes of an index file holding `entries` in order.
pub open spec fn index_bytes(entries: Seq<IndexEntry>) -> Seq<u8>
    decreases entries.len(),
{
    if entries.len() == 0 {
        Seq::empty()
    } else {
        let e = entries.last();
        index_bytes(entries.drop_last()) + spec_u64_to_le_bytes(e.key) + spec_u64_to_le_bytes(
            e.position,
        )
    }
}

/// Writing entries to an index file and reading the file back gives the same
/// entries, 16 bytes each.
pub proof fn lemma_index_bytes_round_trip(entries: Seq<IndexEntry>)
    ensures
        index_bytes(entries).len() == 16 * entries.len(),
        entries_of(index_bytes(entries)) == entries,
    decreases entries.len(),
{
    lemma_auto_spec_u64_to_from_le_bytes();
    if entries.len() > 0 {
        let rest = entries.drop_last();
        let e = entries.last();
        lemma_index_bytes_round_trip(rest);
        let prefix = index_bytes(rest);
        let kb = spec_u64_to_le_bytes(e.key);
        let pb = spec_u64_to_le_bytes(e.position);
        let b = index_bytes(entries);
        assert(b == prefix + kb + pb);
        let n = entries.len() - 1;
        assert forall|i: int| 0 <= i < n implies #[trigger] entries_of(b)[i] == entries[i] by {
            assert(b.subrange(16 * i, 16 * i + 8) =~= prefix.subrange(16 * i, 16 * i + 8));
            assert(b.subrange(16 * i + 8, 16 * i + 16) =~= prefix.subrange(16 * i + 8, 16 * i + 16));
            assert(entries_of(prefix)[i] == rest[i]);
        }
        assert(b.subrange(16 * n, 16 * n + 8) =~= kb);
        assert(b.subrange(16 * n + 8, 16 * n + 16) =~= pb);
        assert(entries_of(b) =~= entries);
    } else {
        assert(entries_of(index_bytes(entries)) =~= entries);
    }
}

/// Reads the `u64` pair of row `i`.
fn read_row(bytes: &[u8], i: usize) -> (r: (u64, u64))
    requires
        i < bytes@.len() / 16,
    ensures
        r.0 == row_first(bytes@, i as int),
        r.1 == row_second(bytes@, i as int),
{
    let len = bytes.len();
    assert(16 * i + 16 <= len) by (nonlinear_arith)
        requires
            i < len / 16,
    ;
    let off = i * ROW_SIZE;
    let first = u64_from_le_bytes(slice_subrange(bytes, off, off + 8));
    let second = u64_from_le_bytes(slice_subrange(bytes, off + 8, off + 16));
    (first, second)
}

/// Parses a record file; fails with `CorruptFormat` unless its length is a
/// multiple of 16.
pub fn decode_records(bytes: &[u8]) -> (r: Result<Vec<Record>, StoreError>)
    ensures
        bytes@.len() % 16 == 0 <==> r.is_ok(),
        r.is_err() ==> r == Err::<Vec<Record>, StoreError>(StoreError::CorruptFormat),
        r.is_ok() ==> r.unwrap()@ == records_of(bytes@),
{
    if bytes.len() % ROW_SIZE != 0 {
        return Err(StoreError::CorruptFormat);
    }
    let n = bytes.len() / ROW_SIZE;
    let mut out: Vec<Record> = Vec::with_capacity(n);
    let mut i: usize = 0;
    while i < n
        invariant
            n == bytes@.len() / 16,
            i <= n,
            out@ == records_of(bytes@).subrange(0, i as int),
        decreases n - i,
    {
        let (key, value) = read_row(bytes, i);
        out.push(Record { key, value });
        i = i + 1;
        assert(out@ =~= records_of(bytes@).subrange(0, i as int));
    }
    assert(out@ =~= records_of(bytes@));
    Ok(out)
}

/// Parses an index file; fails with `CorruptFormat` unless its length is a
/// multiple of 16.
pub fn decode_index(bytes: &[u8]) -> (r: Result<Vec<IndexEntry>, StoreError>)
    ensures
        bytes@.len() % 16 == 0 <==> r.is_ok(),
        r.is_err() ==> r == Err::<Vec<IndexEntry>, StoreError>(StoreError::CorruptFormat),
        r.is_ok() ==> r.unwrap()@ == entries_of(bytes@),
{
    if bytes.len() % ROW_SIZE != 0 {
        return Err(StoreError::CorruptFormat);
    }
    let n = bytes.len() / ROW_SIZE;
    let mut out: Vec<IndexEntry> = Vec::with_capacity(n);
    let mut i: usize = 0;
    while i < n
        invariant
            n == bytes@.len() / 16,
            i <= n,
            out@ == entries_of(bytes@).subrange(0, i as int),
        decreases n - i,
    {
        let (key, position) = read_row(bytes, i);
        out.push(IndexEntry { key, position });
        i = i + 1;
        assert(out@ =~= entries_of(bytes@).subrange(0, i as int));
    }
    assert(out@ =~= entries_of(bytes@));
    Ok(out)
}

/// Serialises index entries as consecutive little-endian `(key, position)` rows.
pub fn encode_index(entries: &Vec<IndexEntry>) -> (r: Vec<u8>)
    ensures
        r@ == index_bytes(entries@),
        r@.len() == 16 * entries@.len(),
        entries_of(r@) == entries@,
{
    proof {
        lemma_index_bytes_round_trip(entries@);
    }
    let mut out: Vec<u8> = Vec::new();
    let mut i: usize = 0;
    while i < entries.len()
        invariant
            i <= entries@.len(),
            out@ == index_bytes(entries@.subrange(0, i as int)),
        decreases entries@.len() - i,
    {
        let e = entries[i];
        let mut k = u64_to_le_bytes(e.key);
        let mut p = u64_to_le_bytes(e.position);
        out.append(&mut k);
        out.append(&mut p);
        proof {
            let s = entries@.subrange(0, i + 1);
            assert(s.drop_last() =~= entries@.subrange(0, i as int));
        }
        i = i + 1;
    }
    assert(entries@.subrange(0, entries@.len() as int) =~= entries@);
    out
}

} // verus!
