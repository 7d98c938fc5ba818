use melt_rs::get_search_index;
use melt_rs::index::SearchIndex;

#[test]
fn test_search_non_case_sens() {
    let mut index = SearchIndex::default();

    let item = "Hello, wor杯ld!";
    let i = index.add(item);
    let string = "hello".to_string();
    let vec = index.search(string.as_str(), true);
    let res = vec.first().unwrap();
    assert_eq!(*res, i as usize);

    let mut index = SearchIndex::default();

    let item = "Hello, wor杯ld!";
    let i = index.add(item);
    let string = "Hello".to_string();
    let vec = index.search(string.as_str(), true);
    let res = vec.first().unwrap();
    assert_eq!(*res, i as usize);

    let item = "Hello, wor杯ld!";
    index.add(item);
    let string = "He3llo".to_string();
    let vec = index.search(string.as_str(), true);
    let res = vec.first().unwrap_or(&(0 as usize));
    assert_eq!(*res, 0 as usize);
}

#[test]
fn test_search_not_exact() {
    let mut index = SearchIndex::default();

    let item = "Hello, wor杯ld!";
    let _ = index.add(item);
    let string = "hello wor".to_string();
    let vec = index.search(string.as_str(), true);
    assert_eq!(0, vec.len());

    let mut index = SearchIndex::default();

    let item = "Hello, wor杯ld!";
    let _ = index.add(item);
    let string = "hello wor".to_string();
    let vec = index.search(string.as_str(), false);
    assert_eq!(1, vec.len());
}

#[test]
fn test_search_or() {
    let mut index = SearchIndex::default();

    let item = "Hello, wor杯ld!";
    let _ = index.add(item);
    let string = "hello there".to_string();
    let vec = index.search_or(string.as_str());
    assert_eq!(1, vec.len());
}

#[test]
fn empty_index_finds_nothing() {
    let index = get_search_index();
    assert_eq!(index.search("anything", true), Vec::<usize>::new());
    assert_eq!(index.get_size(), 0);
}

#[test]
fn hello_world_case_insensitive() {
    let mut index = SearchIndex::default();
    assert_eq!(index.add("Hello, world!"), 1);
    assert!(index.search("hello", true).contains(&1));
    assert!(index.search("HELLO", true).contains(&1));
    assert_eq!(index.search("he3llo", true), Vec::<usize>::new());
}

#[test]
fn duplicate_documents_get_distinct_keys() {
    let mut index = SearchIndex::default();
    assert_eq!(index.add("Hello, world!"), 1);
    assert_eq!(index.add("Hello, world!"), 2);
    let mut hits = index.search("hello", true);
    hits.sort();
    assert_eq!(hits, vec![1, 2]);
}

#[test]
fn full_bucket_opens_a_second_one() {
    let mut index = SearchIndex::default();
    for _ in 0..134 {
        index.add("shared feature text");
    }
    assert_eq!(index.shard_count(), 1);
    let shard = index.get_shard(0);
    assert_eq!(shard.bucket_count(), 2);
    assert_eq!(shard.bucket_len(0), 128);
    assert_eq!(shard.bucket_len(1), 6);
    let hits = index.search("shared", true);
    assert_eq!(hits, (1..=134).collect::<Vec<usize>>());
}

#[test]
fn new_parameters_open_a_new_shard() {
    let mut index = SearchIndex::default();
    index.add("abc");
    assert_eq!(index.shard_count(), 1);
    index.add("xyz");
    assert_eq!(index.shard_count(), 1);
    let long: String = (100..400).map(|i| i.to_string()).collect::<Vec<String>>().join(" ");
    index.add(&long);
    assert_eq!(index.shard_count(), 2);
    assert_eq!(index.get_shard(0).get_m(), 1);
    assert!(index.get_shard(1).get_m() > 1);
}

#[test]
fn search_or_matches_any_word() {
    let mut index = SearchIndex::default();
    index.add("Hello, world!");
    assert_eq!(index.search_or("hello missing"), vec![1]);
    assert_eq!(index.search_or(""), Vec::<usize>::new());
}

#[test]
fn word_search_versus_exact_search() {
    let mut index = SearchIndex::default();
    index.add("Hello, world!");
    assert_eq!(index.search("hello wor", false), vec![1]);
    assert_eq!(index.search("hello wor", true), Vec::<usize>::new());
}

#[test]
fn empty_query_returns_every_key() {
    let mut index = SearchIndex::default();
    assert_eq!(index.search("", true), Vec::<usize>::new());
    index.add("one");
    index.add("two");
    index.add("three");
    assert_eq!(index.search("", true), vec![1, 2, 3]);
    assert_eq!(index.search("", false), vec![1, 2, 3]);
}

#[test]
fn query_without_features_returns_nothing() {
    let mut index = SearchIndex::default();
    index.add("Hello, world!");
    assert_eq!(index.search("\u{100}", true), Vec::<usize>::new());
    let mut plain = SearchIndex::with_ratio(1_063_216_608, false);
    plain.add("Hello, world!");
    assert_eq!(plain.search("he", true), Vec::<usize>::new());
    assert_eq!(plain.search("hel", true), vec![1]);
}

#[test]
fn empty_text_is_counted_but_never_found() {
    let mut index = SearchIndex::default();
    assert_eq!(index.add(""), 1);
    assert_eq!(index.get_size(), 1);
    assert_eq!(index.shard_count(), 0);
    index.add("Hello, world!");
    for q in ["a", "hello", "", " ", "world"] {
        if !q.is_empty() {
            assert!(!index.search(q, true).contains(&1));
            assert!(!index.search(q, false).contains(&1));
            assert!(!index.search_or(q).contains(&1));
        }
    }
}

#[test]
fn size_counts_adds_and_clear_resets() {
    let mut index = SearchIndex::default();
    for i in 1..=5 {
        assert_eq!(index.add("some text"), i);
    }
    assert_eq!(index.get_size(), 5);
    index.clear();
    assert_eq!(index.get_size(), 0);
    assert_eq!(index.shard_count(), 0);
    assert_eq!(index.add("again"), 1);
}

#[test]
fn every_inserted_document_finds_itself() {
    let mut index = SearchIndex::default();
    let docs: Vec<String> = (0..300).map(|i| format!("record number {} of the log", i)).collect();
    for (i, d) in docs.iter().enumerate() {
        assert_eq!(index.add(d), i + 1);
    }
    for (i, d) in docs.iter().enumerate() {
        assert!(index.search(d, true).contains(&(i + 1)));
        assert!(index.search(d, false).contains(&(i + 1)));
    }
}

#[test]
fn results_are_known_keys_and_supersets_are_found() {
    let mut index = SearchIndex::with_ratio(9_585_058_377, false);
    index.add("the quick brown fox");
    index.add("jumps over the lazy dog");
    index.add("quick thinking");
    let hits = index.search("quick", true);
    assert!(hits.contains(&1));
    assert!(hits.contains(&3));
    for h in &hits {
        assert!((1..=3).contains(h));
    }
    for h in index.search_or("lazy fox") {
        assert!((1..=3).contains(&h));
    }
}

#[test]
fn add_message_uses_the_given_key() {
    let mut index = SearchIndex::default();
    index.add_message("Hello, world!", 42);
    assert_eq!(index.get_size(), 1);
    assert_eq!(index.search("hello", true), vec![42]);
}

#[test]
fn shard_level_search_matches_index_search() {
    let mut index = SearchIndex::default();
    index.add("Hello, world!");
    let f = index.features_of_query("hello", true);
    assert_eq!(index.search_shard(0, &f), vec![1]);
    assert_eq!(index.search_or_shard(0, &f), vec![1]);
    assert!(index.get_enrich());
    assert_eq!(index.get_ratio(), 1_063_216_608);
}
