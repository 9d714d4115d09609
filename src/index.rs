//! Index construction: sorts `(key, position)` pairs of a record set by key.
use crate::record::{
    IndexEntry, Keyed, Record, StoreError, decode_records, encode_index, entries_of, records_of,
    sorted_by_key,
};
use rayon::slice::ParallelSliceMut;
use vstd::prelude::*;
use vstd::multiset::group_multiset_axioms;
use vstd::seq_lib::group_to_multiset_ensures;

verus! {

/// Each record's key paired with its zero-based position, in file order.
pub open spec fn keyed_positions(records: Seq<Record>) -> Seq<IndexEntry> {
    Seq::new(records.len(), |i: int| IndexEntry { key: records[i].key, position: i as u64 })
}

/// `index` is a valid index of `records`: sorted by key, and a permutation of
/// the records' `(key, position)` pairs.
pub open spec fn is_index_of(records: Seq<Record>, index: Seq<IndexEntry>) -> bool {
    &&& sorted_by_key(index)
    &&& index.to_multiset() == keyed_positions(records).to_multiset()
}

/// Facts of a valid index that every use of it needs: its length, and that
/// each entry names an existing record with the entry's key.
pub proof fn lemma_index_entries(records: Seq<Record>, index: Seq<IndexEntry>)
    requires
        is_index_of(records, index),
        records.len() <= usize::MAX,
    ensures
        index.len() == records.len(),
        forall|i: int|
            0 <= i < index.len() ==> {
                &&& (#[trigger] index[i]).position < records.len()
                &&& records[index[i].position as int].key == index[i].key
            },
{
    broadcast use group_to_multiset_ensures;

    let kp = keyed_positions(records);
    assert(index.len() == index.to_multiset().len());
    assert(kp.len() == kp.to_multiset().len());
    assert forall|i: int| 0 <= i < index.len() implies {
        &&& (#[trigger] index[i]).position < records.len()
        &&& records[index[i].position as int].key == index[i].key
    } by {
        assert(index.contains(index[i]));
        assert(index.to_multiset().count(index[i]) > 0);
        assert(kp.to_multiset().count(index[i]) > 0);
        assert(kp.contains(index[i]));
        let q = choose|q: int| 0 <= q < kp.len() && kp[q] == index[i];
        assert(kp[q].position == q as u64);
    }
}

/// The position in `index` of the entry for record `p`.
pub proof fn index_entry_of(records: Seq<Record>, index: Seq<IndexEntry>, p: int) -> (j: int)
    requires
        is_index_of(records, index),
        0 <= p < records.len(),
    ensures
        0 <= j < index.len(),
        index[j] == keyed_positions(records)[p],
{
    broadcast use group_to_multiset_ensures;

    let kp = keyed_positions(records);
    assert(kp.contains(kp[p]));
    assert(kp.to_multiset().count(kp[p]) > 0);
    assert(index.to_multiset().count(kp[p]) > 0);
    assert(index.contains(kp[p]));
    choose|j: int| 0 <= j < index.len() && index[j] == kp[p]
}

/// The positions that `index` pairs with `key`.
pub open spec fn positions_with_key(index: Seq<IndexEntry>, key: u64) -> Set<u64> {
    Set::new(|p: u64| index.contains(IndexEntry { key, position: p }))
}

/// Some entry of `index` holds position `p`.
pub open spec fn holds_position(index: Seq<IndexEntry>, p: int) -> bool {
    exists|i: int| 0 <= i < index.len() && #[trigger] index[i].position == p
}

/// The record that each entry of `index` points at, in index order.
pub open spec fn resolved(records: Seq<Record>, index: Seq<IndexEntry>) -> Seq<Record> {
    index.map_values(|e: IndexEntry| records[e.position as int])
}

/// Mapping two sequences that hold the same elements gives sequences that hold
/// the same elements.
pub proof fn lemma_map_keeps_multiset<A, B>(s1: Seq<A>, s2: Seq<A>, f: spec_fn(A) -> B)
    requires
        s1.to_multiset() == s2.to_multiset(),
    ensures
        s1.map_values(f).to_multiset() == s2.map_values(f).to_multiset(),
    decreases s1.len(),
{
    broadcast use group_to_multiset_ensures, group_multiset_axioms;

    if s1.len() == 0 {
        assert(s2.len() == s2.to_multiset().len());
        assert(s1.map_values(f) =~= s2.map_values(f));
    } else {
        let x = s1.last();
        assert(s1.contains(x));
        assert(s1.to_multiset().count(x) > 0);
        assert(s2.to_multiset().count(x) > 0);
        let j = choose|j: int| 0 <= j < s2.len() && s2[j] == x;
        let t1 = s1.drop_last();
        let t2 = s2.remove(j);
        assert(s1 =~= t1.push(x));
        assert(t1.to_multiset() =~= s1.to_multiset().remove(x));
        lemma_map_keeps_multiset(t1, t2, f);
        let m1 = s1.map_values(f);
        let m2 = s2.map_values(f);
        assert(m1 =~= t1.map_values(f).push(f(x)));
        assert(m2.remove(j) =~= t2.map_values(f));
        assert(m2[j] == f(x));
        assert(m2.contains(f(x)));
        assert(m2.to_multiset().count(f(x)) > 0);
        assert(m2.to_multiset() =~= m2.remove(j).to_multiset().insert(f(x)));
    }
}

/// Permutation: a valid index of `records` has one entry per record, every
/// position `0..len` occurs in it, and no position occurs twice.
pub proof fn lemma_index_is_permutation(records: Seq<Record>, index: Seq<IndexEntry>)
    requires
        is_index_of(records, index),
        records.len() <= usize::MAX,
    ensures
        index.len() == records.len(),
        forall|p: int| 0 <= p < records.len() ==> #[trigger] holds_position(index, p),
        forall|i: int, j: int|
            0 <= i < index.len() && 0 <= j < index.len() && i != j ==> #[trigger] index[i].position
                != #[trigger] index[j].position,
{
    lemma_index_entries(records, index);
    let kp = keyed_positions(records);
    assert forall|p: int| 0 <= p < records.len() implies #[trigger] holds_position(index, p) by {
        let i = index_entry_of(records, index, p);
        assert(index[i].position == p);
    }
    assert(kp.no_duplicates());
    kp.lemma_multiset_has_no_duplicates();
    index.lemma_multiset_has_no_duplicates_conv();
    assert forall|i: int, j: int|
        0 <= i < index.len() && 0 <= j < index.len() && i != j implies #[trigger] index[i].position
        != #[trigger] index[j].position by {
        if index[i].position == index[j].position {
            assert(index[i] == index[j]);
        }
    }
}

/// Any two valid indexes of the same records (the parallel and the sequential
/// build among them) pair every key with the same set of positions; only the
/// order among equal keys may differ.
pub proof fn lemma_builds_agree(records: Seq<Record>, a: Seq<IndexEntry>, b: Seq<IndexEntry>)
    requires
        is_index_of(records, a),
        is_index_of(records, b),
    ensures
        sorted_by_key(a),
        sorted_by_key(b),
        forall|key: u64| #[trigger] positions_with_key(a, key) == positions_with_key(b, key),
{
    broadcast use group_to_multiset_ensures;

    assert forall|key: u64| #[trigger] positions_with_key(a, key) == positions_with_key(b, key) by {
        assert forall|p: u64| a.contains(IndexEntry { key, position: p }) == b.contains(
            IndexEntry { key, position: p },
        ) by {
            let e = IndexEntry { key, position: p };
            assert(a.contains(e) == (a.to_multiset().count(e) > 0));
            assert(b.contains(e) == (b.to_multiset().count(e) > 0));
        }
        assert(positions_with_key(a, key) =~= positions_with_key(b, key));
    }
}

/// Round trip: resolving every entry of a valid index back to its record gives
/// the original records again, each once, and each under the entry's key.
pub proof fn lemma_resolve_round_trip(records: Seq<Record>, index: Seq<IndexEntry>)
    requires
        is_index_of(records, index),
        records.len() <= usize::MAX,
    ensures
        resolved(records, index).to_multiset() == records.to_multiset(),
        forall|i: int|
            0 <= i < index.len() ==> #[trigger] resolved(records, index)[i].key == index[i].key,
{
    lemma_index_entries(records, index);
    let f = |e: IndexEntry| records[e.position as int];
    let kp = keyed_positions(records);
    lemma_map_keeps_multiset(index, kp, f);
    assert(kp.map_values(f) =~= records);
    assert(resolved(records, index) == index.map_values(f));
}

/// Relies on rayon's `ParallelSliceMut::par_sort_by_key`: reorders the
/// elements, in parallel, so that their keys never decrease.
#[verifier::external_body]
fn par_sort_entries(v: &mut Vec<IndexEntry>)
    ensures
        final(v)@.to_multiset() == old(v)@.to_multiset(),
        sorted_by_key(final(v)@),
{
    v.par_sort_by_key(|e| e.key);
}

/// Relies on std's `slice::sort_by_key`: reorders the elements, on the calling
/// thread, so that their keys never decrease.
#[verifier::external_body]
fn sort_by_key_seq<T: Keyed>(v: &mut Vec<T>)
    ensures
        final(v)@.to_multiset() == old(v)@.to_multiset(),
        sorted_by_key(final(v)@),
{
    v.sort_by_key(|e| e.key());
}

/// The records' `(key, position)` pairs, in file order.
fn pair_with_positions(records: &Vec<Record>) -> (r: Vec<IndexEntry>)
    ensures
        r@ == keyed_positions(records@),
{
    let n = records.len();
    let mut out: Vec<IndexEntry> = Vec::with_capacity(n);
    let mut i: usize = 0;
    while i < n
        invariant
            n == records@.len(),
            i <= n,
            out@ == keyed_positions(records@).subrange(0, i as int),
        decreases n - i,
    {
        out.push(IndexEntry { key: records[i].key, position: i as u64 });
        i = i + 1;
        assert(out@ =~= keyed_positions(records@).subrange(0, i as int));
    }
    assert(out@ =~= keyed_positions(records@));
    out
}

/// Builds the index of `records`, sorting in parallel.
pub fn build_index(records: &Vec<Record>) -> (r: Vec<IndexEntry>)
    ensures
        is_index_of(records@, r@),
{
    let mut entries = pair_with_positions(records);
    par_sort_entries(&mut entries);
    entries
}

/// Builds the index of `records`, sorting on the calling thread.
pub fn build_index_sequential(records: &Vec<Record>) -> (r: Vec<IndexEntry>)
    ensures
        is_index_of(records@, r@),
{
    let mut entries = pair_with_positions(records);
    sort_by_key_seq(&mut entries);
    entries
}

/// Turns the bytes of a record file into the bytes of its index file; fails
/// with `CorruptFormat` unless the length is a multiple of 16.
pub fn build_index_file(record_bytes: &[u8]) -> (r: Result<Vec<u8>, StoreError>)
    ensures
        record_bytes@.len() % 16 == 0 <==> r.is_ok(),
        r.is_err() ==> r == Err::<Vec<u8>, StoreError>(StoreError::CorruptFormat),
        r matches Ok(out) ==> {
            &&& out@.len() == record_bytes@.len()
            &&& is_index_of(records_of(record_bytes@), entries_of(out@))
        },
{
    let records = decode_records(record_bytes)?;
    let entries = build_index(&records);
    let n = records.len();
    proof {
        assert(records@.len() == n);
        lemma_index_entries(records@, entries@);
    }
    let out = encode_index(&entries);
    assert(out@.len() == record_bytes@.len()) by (nonlinear_arith)
        requires
            out@.len() == 16 * (record_bytes@.len() / 16),
            record_bytes@.len() % 16 == 0,
    ;
    Ok(out)
}

/// The in-memory variant: a copy of `records` sorted by key, carrying the values.
pub fn sort_records(records: &Vec<Record>) -> (r: Vec<Record>)
    ensures
        sorted_by_key(r@),
        r@.to_multiset() == records@.to_multiset(),
{
    let mut out = records.clone();
    sort_by_key_seq(&mut out);
    out
}

} // verus!
