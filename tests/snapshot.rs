use melt_rs::bucket::{Bucket, BucketParts};
use melt_rs::index::{IndexParts, SearchIndex};
use melt_rs::shard::{Shard, ShardParts};

fn sample_index() -> SearchIndex {
    let mut index = SearchIndex::default();
    for i in 0..140 {
        index.add(&format!("log line {}", i % 3));
    }
    index.add("");
    index.add("Hello, world!");
    let long: String = (100..300).map(|i| i.to_string()).collect::<Vec<String>>().join(" ");
    index.add(&long);
    index
}

fn same_parts(a: &IndexParts, b: &IndexParts) -> bool {
    a.size == b.size
        && a.ratio == b.ratio
        && a.enrich == b.enrich
        && a.shards.len() == b.shards.len()
        && a.shards.iter().zip(b.shards.iter()).all(|(x, y)| {
            x.bloom_size == y.bloom_size
                && x.bloom_k == y.bloom_k
                && x.bucket.len() == y.bucket.len()
                && x.bucket.iter().zip(y.bucket.iter()).all(|(p, q)| {
                    p.messages == q.messages
                        && p.bloom_filter == q.bloom_filter
                        && p.bloom_count == q.bloom_count
                        && p.bloom_size == q.bloom_size
                        && p.bloom_k == q.bloom_k
                })
        })
}

#[test]
fn snapshot_round_trip_keeps_content_and_results() {
    let index = sample_index();
    let parts = index.to_parts();
    let restored = SearchIndex::from_parts(&parts).expect("a snapshot of an index is valid");
    assert!(same_parts(&parts, &restored.to_parts()));
    assert_eq!(restored.get_size(), index.get_size());
    assert_eq!(restored.shard_count(), index.shard_count());
    for q in ["", "log", "line 1", "hello", "150 151", "missing"] {
        assert_eq!(restored.search(q, true), index.search(q, true));
        assert_eq!(restored.search(q, false), index.search(q, false));
        assert_eq!(restored.search_or(q), index.search_or(q));
    }
}

#[test]
fn restored_index_keeps_growing() {
    let index = sample_index();
    let mut restored = SearchIndex::from_parts(&index.to_parts()).unwrap();
    let key = restored.add("brand new record");
    assert_eq!(key, index.get_size() + 1);
    assert!(restored.search("brand new", true).contains(&key));
}

#[test]
fn snapshot_with_zero_ratio_is_rejected() {
    let mut parts = sample_index().to_parts();
    parts.ratio = 0;
    assert!(SearchIndex::from_parts(&parts).is_none());
}

#[test]
fn snapshot_with_duplicate_shard_parameters_is_rejected() {
    let index = sample_index();
    let mut parts = index.to_parts();
    let again = index.to_parts().shards.remove(0);
    parts.shards.push(again);
    assert!(SearchIndex::from_parts(&parts).is_none());
}

#[test]
fn bucket_parts_are_checked() {
    let mut b = Bucket::new(1, 1);
    b.add_message(&["abc".to_string()], 7);
    let good = b.to_parts();
    assert_eq!(good.bloom_count, 1);
    assert_eq!(good.messages[0], 7);
    assert!(Bucket::from_parts(&good).is_some());

    let mut stray = b.to_parts();
    stray.bloom_filter[5] |= 1u128 << 3;
    assert!(Bucket::from_parts(&stray).is_none());

    let mut short = b.to_parts();
    short.messages.pop();
    assert!(Bucket::from_parts(&short).is_none());

    let mut wrong_len = b.to_parts();
    wrong_len.bloom_filter.push(0);
    assert!(Bucket::from_parts(&wrong_len).is_none());

    let mut over = b.to_parts();
    over.bloom_count = 129;
    assert!(Bucket::from_parts(&over).is_none());

    let full = BucketParts {
        messages: vec![1; 128],
        bloom_filter: vec![u128::MAX; 128],
        bloom_count: 128,
        bloom_size: 1,
        bloom_k: 1,
    };
    assert!(Bucket::from_parts(&full).is_some());
}

#[test]
fn shard_parts_are_checked() {
    let mut s = Shard::new(1, 1);
    for i in 0..130 {
        s.add_message(&["abc".to_string()], i);
    }
    let good = s.to_parts();
    assert_eq!(good.bucket.len(), 2);
    assert!(Shard::from_parts(&good).is_some());

    let mut partial_first = s.to_parts();
    partial_first.bucket.swap(0, 1);
    assert!(Shard::from_parts(&partial_first).is_none());

    let mut other_k = s.to_parts();
    other_k.bucket[1].bloom_k = 2;
    assert!(Shard::from_parts(&other_k).is_none());

    let empty = ShardParts { bucket: Vec::new(), bloom_size: 0, bloom_k: 1 };
    assert!(Shard::from_parts(&empty).is_none());
}
