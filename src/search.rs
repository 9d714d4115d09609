//! Lookup engine: binary search over key-sorted sequences, and resolution of
//! index entries back to records.
use crate::index::is_index_of;
use crate::record::{IndexEntry, Keyed, Record, sorted_by_key};
use vstd::prelude::*;
use vstd::seq_lib::group_to_multiset_ensures;

verus! {

/// Some item of `s` has key `target`.
pub open spec fn has_key<T: Keyed>(s: Seq<T>, target: u64) -> bool {
    exists|i: int| 0 <= i < s.len() && #[trigger] s[i].key_of() == target
}

/// Binary search for `target` in `rows`, which must be sorted by key. Returns
/// the position of some item with that key, or `None` when there is none;
/// which of several equal keys is found is left open.
pub fn binary_search_dna<T: Keyed>(rows: &Vec<T>, target: u64) -> (r: Option<usize>)
    requires
        sorted_by_key(rows@),
    ensures
        r.is_some() <==> has_key(rows@, target),
        r matches Some(i) ==> i < rows@.len() && rows@[i as int].key_of() == target,
{
    let mut low: usize = 0;
    let mut high: usize = rows.len();
    while low < high
        invariant
            low <= high <= rows@.len(),
            sorted_by_key(rows@),
            forall|i: int| 0 <= i < low ==> #[trigger] rows@[i].key_of() < target,
            forall|i: int| high <= i < rows@.len() ==> #[trigger] rows@[i].key_of() > target,
        decreases high - low,
    {
        let mid = low + (high - low) / 2;
        let k = rows[mid].key();
        if k == target {
            return Some(mid);
        } else if k < target {
            low = mid + 1;
        } else {
            high = mid;
        }
    }
    None
}

/// Looks `target` up in records already sorted by key (the in-memory variant).
pub fn lookup_sorted(rows: &Vec<Record>, target: u64) -> (r: Option<Record>)
    requires
        sorted_by_key(rows@),
    ensures
        r.is_some() <==> has_key(rows@, target),
        r matches Some(rec) ==> rec.key == target && rows@.contains(rec),
{
    match binary_search_dna(rows, target) {
        Some(i) => {
            let rec = rows[i];
            assert(rows@.contains(rec));
            Some(rec)
        }
        None => None,
    }
}

/// Looks `target` up through `index` and resolves the match to its record.
pub fn lookup(index: &Vec<IndexEntry>, records: &Vec<Record>, target: u64) -> (r: Option<Record>)
    requires
        is_index_of(records@, index@),
    ensures
        r.is_some() <==> has_key(records@, target),
        r matches Some(rec) ==> rec.key == target && records@.contains(rec),
{
    let n = records.len();
    proof {
        broadcast use group_to_multiset_ensures;
        assert(records@.len() == n);
        crate::index::lemma_index_entries(records@, index@);
    }
    match binary_search_dna(index, target) {
        Some(i) => {
            let pos = index[i].position as usize;
            let rec = records[pos];
            assert(records@[pos as int].key_of() == target);
            assert(records@.contains(rec));
            Some(rec)
        }
        None => {
            proof {
                if has_key(records@, target) {
                    let p = choose|p: int| 0 <= p < records@.len() && #[trigger] records@[p].key_of() == target;
                    let j = crate::index::index_entry_of(records@, index@, p);
                    assert(index@[j].key_of() == target);
                }
            }
            None
        }
    }
}

} // verus!
