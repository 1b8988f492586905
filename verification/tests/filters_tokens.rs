//! Tests of tokenization, filter construction and bucket index math.

use tinysearch::filter::XorFilter;
use tinysearch::tokenize::{cleanup, tokenize};
use tinysearch::{get_alt_index, get_fai, valid, PostId, Score, TinySearch};

fn no_stopwords() -> Vec<String> {
    Vec::new()
}

#[test]
fn test_fp_and_index() {
    let data = "seif";
    let fai = get_fai(data.as_bytes());
    let fp = fai.fp;
    let i1 = fai.i1;
    let i2 = fai.i2;
    let i11 = get_alt_index(fp, i2);
    assert_eq!(i11, i1);

    let i22 = get_alt_index(fp, i11);
    assert_eq!(i22, i2);
}

#[test]
fn random_index_picks_one_of_the_pair() {
    let fai = get_fai("anything".as_bytes());
    for _ in 0..32 {
        let r = fai.random_index();
        assert!(r == fai.i1 || r == fai.i2);
    }
}

#[test]
fn test_generate_filters() {
    let posts = vec![(
        PostId {
            title: "Maybe You Don't Need Kubernetes, Or Excel - You Know".to_string(),
            url: "".to_string(),
            meta: "".to_string(),
        },
        None,
    )];
    let filters = TinySearch::new().generate_filters(posts).unwrap();
    assert_eq!(filters.len(), 1);
    let (_post_id, filter) = filters.first().unwrap();

    assert!(!filter.contains_token(" "));
    assert!(!filter.contains_token("    "));
    assert!(!filter.contains_token("foo"));
    assert!(!filter.contains_token("-"));
    assert!(!filter.contains_token(","));
    assert!(!filter.contains_token("'"));

    // "you", "don't", and "need" get stripped out because they are stopwords
    assert!(!filter.contains_token("you"));
    assert!(!filter.contains_token("don't"));
    assert!(!filter.contains_token("need"));

    assert!(filter.contains_token("maybe"));
    assert!(filter.contains_token("kubernetes"));
    assert!(filter.contains_token("excel"));
}

#[test]
fn storage_test_generate_filters() {
    let posts = vec![(
        PostId {
            title: "Maybe You Don't Need Kubernetes, Or Excel - You Know".to_string(),
            url: "".to_string(),
            meta: "".to_string(),
        },
        None,
    )];
    let filters = TinySearch::new().generate_filters(posts).unwrap();
    assert_eq!(filters.len(), 1);
    let (_post_id, filter) = filters.first().unwrap();

    assert!(!filter.contains_token("you"));
    assert!(!filter.contains_token("don't"));
    assert!(!filter.contains_token("need"));
    assert!(filter.contains_token("maybe"));
    assert!(filter.contains_token("kubernetes"));
    assert!(filter.contains_token("excel"));
}

#[test]
fn tokenize_lowercases_and_splits_on_separators() {
    let toks = tokenize("Don't STOP, me-now!", &no_stopwords());
    assert_eq!(
        toks,
        vec!["don't".to_string(), "stop".to_string(), "me".to_string(), "now".to_string()]
    );
}

#[test]
fn tokenize_collapses_duplicates() {
    let toks = tokenize("apple APPLE Apple pear", &no_stopwords());
    assert_eq!(toks, vec!["apple".to_string(), "pear".to_string()]);
}

#[test]
fn tokenize_removes_stopwords() {
    let stops = vec!["the".to_string(), "and".to_string()];
    let toks = tokenize("The cat and THE dog", &stops);
    assert_eq!(toks, vec!["cat".to_string(), "dog".to_string()]);
}

#[test]
fn tokenize_empty_input_is_empty() {
    assert!(tokenize("", &no_stopwords()).is_empty());
    assert!(tokenize("..., --- 123", &no_stopwords()).is_empty());
}

#[test]
fn tokenize_is_idempotent_on_rejoined_output() {
    let stops = vec!["the".to_string()];
    let first = tokenize("The quick brown fox, the lazy dog!", &stops);
    let joined = first.join(" ");
    let second = tokenize(&joined, &stops);
    let mut a = first.clone();
    let mut b = second.clone();
    a.sort();
    b.sort();
    assert_eq!(a, b);
}

#[test]
fn stopword_only_document_yields_no_tokens() {
    let search = TinySearch::new();
    let stops = search.get_stopwords().clone();
    let toks = tokenize("the and or but you", &stops);
    assert!(toks.is_empty());
}

#[test]
fn cleanup_replaces_separators_with_spaces() {
    assert_eq!(cleanup("a.b,c"), "a b c");
    assert_eq!(cleanup("don't-stop"), "don't stop");
    assert_eq!(cleanup("1a2b"), " a b");
    let search = TinySearch::new();
    assert_eq!(search.cleanup("x;y".to_string()), "x y");
}

#[test]
fn filter_reports_every_seeded_token() {
    let tokens: Vec<String> = vec![
        "alpha".to_string(),
        "beta".to_string(),
        "gamma".to_string(),
        "delta".to_string(),
    ];
    let filter = XorFilter::build(&tokens);
    for t in &tokens {
        assert!(filter.contains_token(t.as_str()));
    }
}

#[test]
fn score_counts_matching_terms() {
    let tokens: Vec<String> = vec!["alpha".to_string(), "beta".to_string()];
    let filter = XorFilter::build(&tokens);
    let terms = vec!["alpha".to_string(), "beta".to_string(), "qqqzzz".to_string()];
    let s = filter.score(&terms);
    assert!(s >= 2);
}

#[test]
fn valid_names() {
    assert!(valid("abc"));
    assert!(valid("a-b_c9"));
    assert!(!valid("a"));
    assert!(!valid(""));
    assert!(!valid("a b"));
    assert!(!valid("a.b"));
}
