//! Fixed-width key/value record files with a sorted position index and
//! logarithmic point lookup.
pub mod codec;
pub mod index;
pub mod record;
pub mod search;

pub use codec::u64_to_acgt;
pub use index::{build_index, build_index_file, build_index_sequential, sort_records};
pub use record::{decode_index, decode_records, encode_index, IndexEntry, Keyed, Record, StoreError};
pub use search::{binary_search_dna, lookup, lookup_sorted};
