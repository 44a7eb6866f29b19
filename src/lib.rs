//! Columnar value storage and segment ordering for a search index:
//! bit vectors, a monotonic block codec, sorted doc values with ordinal
//! lookup, and document permutations for single-segment sorts and
//! cross-segment merges.

pub mod bits;
pub mod bytes_order;
pub mod sorted_doc_values;
pub mod sort_field;
pub mod sorter;
pub mod multi_sorter;
pub mod monotonic_block_packed;
pub mod long_values;
pub mod lock_registry;
