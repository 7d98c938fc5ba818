//! Properties of the index that span several operations.
use vstd::prelude::*;

use crate::bloom::parameters_fit;
use crate::bucket::{Bucket, BucketParts, parts_valid};
use crate::index::{
    IndexParts, SearchIndex, all_and_hits, all_or_hits, covers, index_parts_valid, known_key, lemma_hits_were_inserted,
    lemma_no_false_negatives, lemma_or_hits_were_inserted,
};
use crate::shard::{Shard, ShardParts, flat_docs, shard_parts_valid};

verus! {

/// The document count equals the number of inserts since construction or
/// the last `clear`.
pub proof fn lemma_size_counts_inserts(idx: SearchIndex)
    requires
        idx.wf(),
        idx.follows_history(),
    ensures
        idx.spec_size() == idx.history().len(),
{
}

/// Every bucket of every shard holds at most 128 documents.
pub proof fn lemma_bucket_counts_bounded(idx: SearchIndex)
    requires
        idx.wf(),
    ensures
        forall|s: int, b: int|
            0 <= s < idx.shards().len() && 0 <= b < idx.shards()[s].buckets().len() ==> (#[trigger] idx.shards()[s].buckets()[b]).count()
                <= 128,
{
    assert forall|s: int, b: int|
        0 <= s < idx.shards().len() && 0 <= b < idx.shards()[s].buckets().len() implies (#[trigger] idx.shards()[s].buckets()[b]).count()
        <= 128 by {
        assert(idx.shards()[s].wf());
        assert(idx.shards()[s].buckets()[b].wf());
    }
}

/// Every key a search (AND or OR) returns is the key of an earlier insert.
pub proof fn lemma_results_were_inserted(idx: SearchIndex, qf: Seq<Seq<char>>)
    requires
        idx.wf(),
        idx.follows_history(),
    ensures
        forall|i: int|
            0 <= i < all_and_hits(idx.shards(), qf).len() ==> known_key(
                idx.history(),
                #[trigger] all_and_hits(idx.shards(), qf)[i],
            ),
        forall|i: int|
            0 <= i < all_or_hits(idx.shards(), qf).len() ==> known_key(
                idx.history(),
                #[trigger] all_or_hits(idx.shards(), qf)[i],
            ),
{
    lemma_hits_were_inserted(idx, qf);
    lemma_or_hits_were_inserted(idx, qf);
}

/// An inserted text with features is found by an exact search for its own
/// features (when its parameters could be held).
pub proof fn lemma_inserted_text_found(idx: SearchIndex, j: int)
    requires
        idx.wf(),
        idx.follows_history(),
        0 <= j < idx.history().len(),
        idx.history()[j].1.len() > 0,
        parameters_fit(idx.history()[j].1.len(), idx.spec_ratio()),
    ensures
        all_and_hits(idx.shards(), idx.history()[j].1).contains(idx.history()[j].0),
{
    let f = idx.history()[j].1;
    assert(covers(f, f)) by {
        assert forall|i: int| 0 <= i < f.len() implies f.contains(#[trigger] f[i]) by {}
    }
    lemma_no_false_negatives(idx, f, j);
}

/// The key of an insert without features, if no other insert shares it, is
/// never returned by an AND or OR search.
pub proof fn lemma_featureless_never_found(idx: SearchIndex, qf: Seq<Seq<char>>, j: int)
    requires
        idx.wf(),
        idx.follows_history(),
        0 <= j < idx.history().len(),
        idx.history()[j].1.len() == 0,
        forall|j2: int| 0 <= j2 < idx.history().len() && j2 != j ==> (#[trigger] idx.history()[j2]).0 != idx.history()[j].0,
    ensures
        !all_and_hits(idx.shards(), qf).contains(idx.history()[j].0),
        !all_or_hits(idx.shards(), qf).contains(idx.history()[j].0),
{
    let h = idx.history();
    let key = h[j].0;
    lemma_results_were_inserted(idx, qf);
    if all_and_hits(idx.shards(), qf).contains(key) {
        let i = choose|i: int| 0 <= i < all_and_hits(idx.shards(), qf).len() && all_and_hits(idx.shards(), qf)[i] == key;
        assert(known_key(h, all_and_hits(idx.shards(), qf)[i]));
        let j2 = choose|j2: int| 0 <= j2 < h.len() && (#[trigger] h[j2]).0 == key && h[j2].1.len() > 0;
        assert(j2 != j);
    }
    if all_or_hits(idx.shards(), qf).contains(key) {
        let i = choose|i: int| 0 <= i < all_or_hits(idx.shards(), qf).len() && all_or_hits(idx.shards(), qf)[i] == key;
        assert(known_key(h, all_or_hits(idx.shards(), qf)[i]));
        let j2 = choose|j2: int| 0 <= j2 < h.len() && (#[trigger] h[j2]).0 == key && h[j2].1.len() > 0;
        assert(j2 != j);
    }
}

/// Two buckets with the same fields hold the same documents; a
/// well-formed bucket's fields are valid parts.
proof fn lemma_bucket_parts(a: Bucket, p: BucketParts, b: Bucket)
    requires
        a.parts_are(p),
        b.parts_are(p),
    ensures
        a.docs() == b.docs(),
        a.wf() ==> parts_valid(p),
{
    assert forall|d: int| 0 <= d < a.docs().len() implies a.docs()[d] == b.docs()[d] by {
        assert(a.doc_bits(d) =~= b.doc_bits(d));
    }
    assert(a.docs() =~= b.docs());
}

/// Bucket lists with the same documents bucket by bucket hold the same
/// documents in all.
proof fn lemma_flat_docs_same(x: Seq<Bucket>, y: Seq<Bucket>)
    requires
        x.len() == y.len(),
        forall|i: int| 0 <= i < x.len() ==> (#[trigger] x[i]).docs() == y[i].docs(),
    ensures
        flat_docs(x) == flat_docs(y),
    decreases x.len(),
{
    if x.len() > 0 {
        assert forall|i: int| 0 <= i < x.drop_last().len() implies (#[trigger] x.drop_last()[i]).docs() == y.drop_last()[i].docs() by {
            assert(x.drop_last()[i] == x[i] && y.drop_last()[i] == y[i]);
        }
        lemma_flat_docs_same(x.drop_last(), y.drop_last());
    }
}

/// Two shards with the same fields hold the same documents with the same
/// parameters; a well-formed shard's fields are valid parts.
proof fn lemma_shard_parts(a: Shard, p: ShardParts, b: Shard)
    requires
        a.parts_are(p),
        b.parts_are(p),
    ensures
        a.docs() == b.docs(),
        a.spec_m() == b.spec_m(),
        a.spec_k() == b.spec_k(),
        a.wf() ==> shard_parts_valid(p),
{
    assert forall|i: int| 0 <= i < a.buckets().len() implies (#[trigger] a.buckets()[i]).docs() == b.buckets()[i].docs() by {
        lemma_bucket_parts(a.buckets()[i], p.bucket@[i], b.buckets()[i]);
    }
    lemma_flat_docs_same(a.buckets(), b.buckets());
    if a.wf() {
        assert forall|i: int| 0 <= i < p.bucket@.len() implies parts_valid(#[trigger] p.bucket@[i]) by {
            assert(a.buckets()[i].wf());
            lemma_bucket_parts(a.buckets()[i], p.bucket@[i], b.buckets()[i]);
        }
        assert forall|i: int| 0 <= i < p.bucket@.len() - 1 implies (#[trigger] p.bucket@[i]).bloom_count == 128 by {
            assert(a.buckets()[i].parts_are(p.bucket@[i]));
        }
        assert forall|i: int| 0 <= i < p.bucket@.len() implies p.bucket@[i].bloom_size == p.bloom_size
            && (#[trigger] p.bucket@[i]).bloom_k == p.bloom_k by {
            assert(a.buckets()[i].parts_are(p.bucket@[i]));
        }
    }
}

/// Shard lists with the same documents and parameters shard by shard give
/// the same search results.
proof fn lemma_hits_same(x: Seq<Shard>, y: Seq<Shard>, qf: Seq<Seq<char>>)
    requires
        x.len() == y.len(),
        forall|i: int|
            0 <= i < x.len() ==> (#[trigger] x[i]).docs() == y[i].docs() && x[i].spec_m() == y[i].spec_m()
                && x[i].spec_k() == y[i].spec_k(),
    ensures
        all_and_hits(x, qf) == all_and_hits(y, qf),
        all_or_hits(x, qf) == all_or_hits(y, qf),
    decreases x.len(),
{
    if x.len() > 0 {
        assert forall|i: int| 0 <= i < x.drop_last().len() implies (#[trigger] x.drop_last()[i]).docs()
            == y.drop_last()[i].docs() && x.drop_last()[i].spec_m() == y.drop_last()[i].spec_m()
            && x.drop_last()[i].spec_k() == y.drop_last()[i].spec_k() by {
            assert(x.drop_last()[i] == x[i] && y.drop_last()[i] == y[i]);
        }
        lemma_hits_same(x.drop_last(), y.drop_last(), qf);
        assert(x.last().docs() == y.last().docs());
    }
}

/// Restoring a snapshot gives the index back: when `a` is well formed and
/// `a` and `b` both have exactly the fields held in `p` (what `to_parts`
/// and `from_parts` promise), `p` is a valid snapshot, and `b` agrees with
/// `a` on its size and configuration, on every shard's parameters and
/// stored documents, and so on the result of every search.
pub proof fn lemma_snapshot_round_trip(a: SearchIndex, p: IndexParts, b: SearchIndex)
    requires
        a.wf(),
        a.parts_are(p),
        b.parts_are(p),
    ensures
        index_parts_valid(p),
        b.spec_size() == a.spec_size(),
        b.spec_ratio() == a.spec_ratio(),
        b.spec_enrich() == a.spec_enrich(),
        b.shards().len() == a.shards().len(),
        forall|s: int|
            0 <= s < a.shards().len() ==> (#[trigger] b.shards()[s]).docs() == a.shards()[s].docs()
                && b.shards()[s].spec_m() == a.shards()[s].spec_m() && b.shards()[s].spec_k() == a.shards()[s].spec_k(),
        forall|qf: Seq<Seq<char>>|
            #[trigger] all_and_hits(b.shards(), qf) == all_and_hits(a.shards(), qf) && all_or_hits(b.shards(), qf)
                == all_or_hits(a.shards(), qf),
{
    assert forall|s: int| 0 <= s < a.shards().len() implies (#[trigger] b.shards()[s]).docs() == a.shards()[s].docs()
        && b.shards()[s].spec_m() == a.shards()[s].spec_m() && b.shards()[s].spec_k() == a.shards()[s].spec_k() by {
        lemma_shard_parts(a.shards()[s], p.shards@[s], b.shards()[s]);
    }
    assert forall|s: int| 0 <= s < p.shards@.len() implies shard_parts_valid(#[trigger] p.shards@[s]) by {
        assert(a.shards()[s].wf());
        lemma_shard_parts(a.shards()[s], p.shards@[s], b.shards()[s]);
    }
    assert forall|s: int, t: int| 0 <= s < t < p.shards@.len() implies !(#[trigger] p.shards@[s].bloom_size
        == #[trigger] p.shards@[t].bloom_size && p.shards@[s].bloom_k == p.shards@[t].bloom_k) by {
        assert(a.shards()[s].parts_are(p.shards@[s]));
        assert(a.shards()[t].parts_are(p.shards@[t]));
        assert(!(a.shards()[s].spec_m() == a.shards()[t].spec_m() && a.shards()[s].spec_k() == a.shards()[t].spec_k()));
    }
    assert forall|qf: Seq<Seq<char>>|
        #[trigger] all_and_hits(b.shards(), qf) == all_and_hits(a.shards(), qf) && all_or_hits(b.shards(), qf)
            == all_or_hits(a.shards(), qf) by {
        lemma_hits_same(b.shards(), a.shards(), qf);
    }
}

} // verus!
