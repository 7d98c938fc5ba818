//! A small in-process full-text index for short records. Each record's
//! character n-grams are Bloom-encoded, and up to 128 filters are stored
//! transposed per bucket, so that a conjunctive query costs one word-wide AND
//! per query bit per bucket.
use vstd::prelude::*;

pub mod bigrams;
pub mod bloom;
pub mod bucket;
pub mod index;
pub mod laws;
pub mod message;
pub mod shard;
pub mod text;
pub mod trigrams;

use crate::index::SearchIndex;

verus! {

/// A new, empty index with the default configuration.
pub fn get_search_index() -> (r: SearchIndex)
    ensures
        r.wf(),
        r.spec_size() == 0,
        r.shards().len() == 0,
        r.spec_enrich(),
        r.spec_ratio() == crate::bloom::DEFAULT_RATIO,
{
    SearchIndex::default()
}

} // verus!
