//! Per-document 64-bit values, stored directly or in the block codec.

use crate::monotonic_block_packed::MonotonicBlockPackedReader;
use vstd::prelude::*;

verus! {

/// Maps a document ordinal to a 64-bit integer.
pub enum LongValues {
    Direct(Vec<i64>),
    Packed(MonotonicBlockPackedReader),
}

impl LongValues {
    pub open spec fn values(&self) -> Seq<i64> {
        match self {
            LongValues::Direct(v) => v@,
            LongValues::Packed(r) => r@,
        }
    }

    pub fn len(&self) -> (r: usize)
        ensures
            r == self.values().len(),
    {
        match self {
            LongValues::Direct(v) => v.len(),
            LongValues::Packed(r) => r.size(),
        }
    }

    pub fn get(&self, index: usize) -> (r: i64)
        requires
            index < self.values().len(),
        ensures
            r == self.values()[index as int],
    {
        match self {
            LongValues::Direct(v) => v[index],
            LongValues::Packed(r) => r.get(index),
        }
    }
}

} // verus!
