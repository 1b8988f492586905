//! End-to-end tests of index building, searching and the binary format.

use tinysearch::{BasicPost, DecodeError, PostId, Storage, TinySearch};

fn post(title: &str, url: &str, body: Option<&str>) -> BasicPost {
    BasicPost {
        title: title.to_string(),
        url: url.to_string(),
        body: body.map(|b| b.to_string()),
        meta: Vec::new(),
    }
}

#[test]
fn two_documents_ranked() {
    // One document matches both query terms, the other matches none.
    let posts = vec![
        post("Rust Guide", "/rust", Some("Learn Rust programming")),
        post("Bluetooth Speaker", "/speaker", Some("Portable waterproof speaker")),
    ];
    let search = TinySearch::new();
    let index = search.build_index(&posts).unwrap();
    let results = search.search(&index, "rust programming", 10);
    assert_eq!(results.len(), 1);
    assert_eq!(results[0].title, "Rust Guide");
    assert_eq!(results[0].url, "/rust");
}

#[test]
fn empty_query_returns_nothing() {
    let posts = vec![post("Rust Guide", "/rust", Some("Learn Rust programming"))];
    let search = TinySearch::new();
    let index = search.build_index(&posts).unwrap();
    let results = search.search(&index, "", 10);
    assert_eq!(results.len(), 0);
}

#[test]
fn result_cap_respected() {
    let posts = vec![
        post("alpha omega", "/1", None),
        post("beta omega", "/2", None),
        post("gamma omega", "/3", None),
    ];
    let search = TinySearch::new();
    let index = search.build_index(&posts).unwrap();
    assert_eq!(search.search(&index, "omega", 0).len(), 0);
    assert_eq!(search.search(&index, "omega", 2).len(), 2);
    assert_eq!(search.search(&index, "omega", 10).len(), 3);
}

#[test]
fn ranking_is_descending_with_stable_ties() {
    // The first post matches the query in title and body, the second only
    // in the body, the third and fourth tie and must keep index order.
    let posts = vec![
        post("zebra facts", "/a", Some("zebra zebra")),
        post("animal list", "/b", Some("the zebra appears here")),
        post("tied one", "/c", Some("zebra")),
        post("tied two", "/d", Some("zebra")),
    ];
    let search = TinySearch::new();
    let index = search.build_index(&posts).unwrap();
    let results = search.search(&index, "zebra", 10);
    assert_eq!(results.len(), 4);
    assert_eq!(results[0].url, "/a");
    // the title match outranks body-only matches
    let urls: Vec<&str> = results.iter().map(|r| r.url.as_str()).collect();
    let pos_c = urls.iter().position(|u| *u == "/c").unwrap();
    let pos_d = urls.iter().position(|u| *u == "/d").unwrap();
    assert!(pos_c < pos_d, "equal scores must keep index order");
}

#[test]
fn title_match_raises_score() {
    let stopwords: Vec<String> = Vec::new();
    let posts = vec![post("orchid care", "/o", Some("water weekly"))];
    let search = TinySearch::new().with_stopwords(stopwords.clone());
    let index = search.build_index(&posts).unwrap();
    let (pid, filter) = (&index[0].0, &index[0].1);
    let without: Vec<String> = vec!["water".to_string()];
    let with: Vec<String> = vec!["water".to_string(), "orchid".to_string()];
    let s1 = tinysearch::search::score(pid, &without, filter, &stopwords);
    let s2 = tinysearch::search::score(pid, &with, filter, &stopwords);
    assert!(s2 >= s1 + 3, "a title-matching term must add at least the title weight");
}

#[test]
fn round_trip_preserves_search_results() {
    let posts = vec![
        post("Rust Guide", "/rust", Some("Learn Rust programming")),
        post("Bluetooth Speaker", "/speaker", Some("Portable waterproof speaker")),
        post("Cooking at Home", "/cook", Some("Simple pasta recipes")),
    ];
    let search = TinySearch::new();
    let index = search.build_index(&posts).unwrap();
    let bytes = Storage { filters: index.clone() }.to_bytes();
    let decoded = search.load_index_from_bytes(&bytes).unwrap();
    for query in ["rust", "speaker", "pasta recipes", "guide speaker", ""] {
        let a = search.search(&index, query, 10);
        let b = search.search(&decoded, query, 10);
        let ta: Vec<(&str, &str, &str)> =
            a.iter().map(|p| (p.title.as_str(), p.url.as_str(), p.meta.as_str())).collect();
        let tb: Vec<(&str, &str, &str)> =
            b.iter().map(|p| (p.title.as_str(), p.url.as_str(), p.meta.as_str())).collect();
        assert_eq!(ta, tb, "query {:?} must answer identically after the round trip", query);
    }
}

#[test]
fn serialize_then_load_is_identity_on_bytes() {
    let posts = vec![post("One", "/1", Some("first body")), post("Two", "/2", None)];
    let search = TinySearch::new();
    let bytes = search.build_and_serialize_index(&posts).unwrap();
    let index = search.load_index_from_bytes(&bytes).unwrap();
    let bytes2 = Storage { filters: index }.to_bytes();
    assert_eq!(bytes, bytes2);
}

#[test]
fn truncated_bytes_fail_to_decode() {
    let posts = vec![post("Rust Guide", "/rust", Some("Learn Rust programming"))];
    let search = TinySearch::new();
    let bytes = search.build_and_serialize_index(&posts).unwrap();
    let truncated = &bytes[..3];
    assert!(search.load_index_from_bytes(truncated).is_err());
}

#[test]
fn decode_error_variants() {
    let search = TinySearch::new();
    // empty input: no header
    assert_eq!(Storage::from_bytes(&[]).err().unwrap(), DecodeError::BadHeader);
    // wrong magic bytes
    assert_eq!(
        Storage::from_bytes(&[0u8, 1, 2, 3, 4, 5, 6, 7, 8, 9, 10]).err().unwrap(),
        DecodeError::BadHeader
    );
    // a good header with no entry count
    assert_eq!(Storage::from_bytes(&[84u8, 83, 1]).err().unwrap(), DecodeError::Truncated);
    // one entry promised, none present
    let mut bytes = vec![84u8, 83, 1];
    bytes.extend_from_slice(&1u64.to_le_bytes());
    assert_eq!(Storage::from_bytes(&bytes).err().unwrap(), DecodeError::Malformed);
    // a valid encoding with a trailing byte
    let posts = vec![post("One", "/1", None)];
    let mut good = search.build_and_serialize_index(&posts).unwrap();
    good.push(0);
    assert_eq!(Storage::from_bytes(&good).err().unwrap(), DecodeError::TrailingBytes);
}

#[test]
fn decode_rejects_invalid_character() {
    // build a valid single-post encoding, then corrupt the title's first
    // character into a surrogate scalar value
    let posts = vec![post("abcd", "/x", None)];
    let search = TinySearch::new();
    let mut bytes = search.build_and_serialize_index(&posts).unwrap();
    // layout: 3 header bytes, 8 count bytes, 8 title-length bytes, then
    // the first character's four little-endian bytes
    let surrogate = 0xD800u32.to_le_bytes();
    bytes[19..23].copy_from_slice(&surrogate);
    assert_eq!(Storage::from_bytes(&bytes).err().unwrap(), DecodeError::Malformed);
}

#[test]
fn duplicate_identities_merge_last_body_wins() {
    let posts = vec![
        post("Same", "/same", Some("first body words")),
        post("Same", "/same", Some("second body words")),
    ];
    let search = TinySearch::new();
    let index = search.build_index(&posts).unwrap();
    assert_eq!(index.len(), 1, "identical identities must merge");
    let results = search.search(&index, "second", 10);
    assert_eq!(results.len(), 1, "the last body must win");
}

#[test]
fn metadata_is_indexed() {
    let posts = vec![BasicPost {
        title: "Plain Title".to_string(),
        url: "/m".to_string(),
        body: None,
        meta: vec![("author".to_string(), "Galadriel".to_string())],
    }];
    let search = TinySearch::new();
    let index = search.build_index(&posts).unwrap();
    let results = search.search(&index, "galadriel", 10);
    assert_eq!(results.len(), 1);
    assert!(!index[0].0.meta.is_empty());
}

#[test]
fn custom_stopwords_replace_builtin() {
    let posts = vec![post("the zebra", "/z", None)];
    let search = TinySearch::new().with_stopwords(vec!["zebra".to_string()]);
    let index = search.build_index(&posts).unwrap();
    assert_eq!(search.search(&index, "zebra", 10).len(), 0);
    // "the" is no longer a stopword under the custom list
    assert_eq!(search.search(&index, "the", 10).len(), 1);
}

#[test]
fn post_id_reference_semantics() {
    // search returns references into the given index
    let posts = vec![post("Lighthouse Keeper", "/keeper", None)];
    let search = TinySearch::new();
    let index = search.build_index(&posts).unwrap();
    let results = search.search(&index, "lighthouse", 1);
    assert_eq!(results[0], &index[0].0);
}

#[test]
fn free_search_function() {
    let posts = vec![post("Hiking Trails", "/hike", Some("mountain paths"))];
    let search = TinySearch::new();
    let index = search.build_index(&posts).unwrap();
    let stopwords = search.get_stopwords().clone();
    let results = tinysearch::search(&index, "mountain", 5, &stopwords);
    assert_eq!(results.len(), 1);
    assert_eq!(results[0].title, "Hiking Trails");
}

#[test]
fn score_formula_exact_value() {
    // Both query terms are genuinely present in the filter, one also in
    // the title: the score is exactly 3 * 1 + 2.
    let stopwords: Vec<String> = Vec::new();
    let posts = vec![post("alpha beta", "/f", Some("gamma"))];
    let search = TinySearch::new().with_stopwords(stopwords.clone());
    let index = search.build_index(&posts).unwrap();
    let (pid, filter) = (&index[0].0, &index[0].1);
    let terms = vec!["alpha".to_string(), "gamma".to_string()];
    let s = tinysearch::search::score(pid, &terms, filter, &stopwords);
    assert_eq!(s, 5);
}

#[test]
fn unicode_letters_are_word_characters() {
    let stopwords: Vec<String> = Vec::new();
    let toks = tinysearch::tokenize::tokenize("Crème brûlée!", &stopwords);
    assert_eq!(toks, vec!["crème".to_string(), "brûlée".to_string()]);
}
