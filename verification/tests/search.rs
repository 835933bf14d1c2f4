use minisearch_rs::tokenizer::TokenizerConfig;
use minisearch_rs::{query_terms, DocMatch, Index};

fn cfg() -> TokenizerConfig {
    TokenizerConfig::default()
}

#[test]
fn query_terms_are_sorted_and_distinct() {
    let q = query_terms("wasm Rust rust browser the RUST", &cfg());
    assert_eq!(q, vec!["browser".to_string(), "rust".to_string(), "wasm".to_string()]);
}

#[test]
fn query_terms_of_stopwords_only_are_empty() {
    assert!(query_terms("the and of", &cfg()).is_empty());
    assert!(query_terms("", &cfg()).is_empty());
}

#[test]
fn query_terms_byte_order() {
    let q = query_terms("zeta Alpha émile beta", &cfg());
    assert_eq!(q, vec!["alpha".to_string(), "beta".to_string(), "zeta".to_string(), "émile".to_string()]);
}

#[test]
fn match_documents_collects_frequencies() {
    let mut idx = Index::new();
    idx.add_document("a", "rust rust rust rust", &cfg()).unwrap();
    idx.add_document("b", "rust wasm", &cfg()).unwrap();
    idx.add_document("c", "python", &cfg()).unwrap();
    let terms = query_terms("rust wasm", &cfg());
    let m = idx.match_documents(&terms);
    assert_eq!(
        m,
        vec![
            DocMatch { doc_id: 0, length: 4, terms: vec![(2, 4)] },
            DocMatch { doc_id: 1, length: 2, terms: vec![(2, 1), (1, 1)] },
        ]
    );
}

#[test]
fn match_documents_without_hits() {
    let mut idx = Index::new();
    idx.add_document("a", "rust web search", &cfg()).unwrap();
    let terms = query_terms("python", &cfg());
    assert!(idx.match_documents(&terms).is_empty());
    assert!(Index::new().match_documents(&terms).is_empty());
}

#[test]
fn repeated_query_terms_count_once() {
    let mut idx = Index::new();
    idx.add_document("a", "rust web search", &cfg()).unwrap();
    let once = idx.match_documents(&query_terms("rust", &cfg()));
    let thrice = idx.match_documents(&query_terms("rust rust rust", &cfg()));
    assert_eq!(once, thrice);
}
