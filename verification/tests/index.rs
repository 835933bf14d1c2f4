use minisearch_rs::index::{DocMeta, Posting};
use minisearch_rs::tokenizer::TokenizerConfig;
use minisearch_rs::{Error, Index};

fn cfg() -> TokenizerConfig {
    TokenizerConfig::default()
}

#[test]
fn adds_documents_and_assigns_sequential_ids() {
    let mut idx = Index::new();
    let id0 = idx.add_document("a", "rust web", &cfg()).unwrap();
    let id1 = idx.add_document("b", "rust browser", &cfg()).unwrap();
    assert_eq!(id0, 0);
    assert_eq!(id1, 1);
    assert_eq!(idx.doc_count(), 2);
    assert_eq!(idx.doc(0).unwrap().external_id, "a");
    assert_eq!(idx.doc(1).unwrap().external_id, "b");
}

#[test]
fn duplicate_external_id_is_rejected() {
    let mut idx = Index::new();
    idx.add_document("a", "rust", &cfg()).unwrap();
    let err = idx.add_document("a", "again", &cfg()).unwrap_err();
    assert!(matches!(err, Error::DuplicateDocId(ref s) if s == "a"));
}

#[test]
fn posting_lists_are_built_correctly() {
    let mut idx = Index::new();
    idx.add_document("a", "rust rust web", &cfg()).unwrap();
    idx.add_document("b", "rust browser", &cfg()).unwrap();

    let rust = idx.postings("rust");
    assert_eq!(rust.len(), 2);
    let p0 = rust.iter().find(|p| p.doc_id == 0).unwrap();
    let p1 = rust.iter().find(|p| p.doc_id == 1).unwrap();
    assert_eq!(p0.term_freq, 2);
    assert_eq!(p1.term_freq, 1);

    assert_eq!(idx.postings("web").len(), 1);
    assert_eq!(idx.postings("browser").len(), 1);
    assert!(idx.postings("missing").is_empty());
}

#[test]
fn empty_index_counts() {
    let idx = Index::new();
    assert_eq!(idx.doc_count(), 0);
    assert_eq!(idx.term_count(), 0);
    assert!(idx.postings("anything").is_empty());
    assert!(idx.doc(0).is_none());
}

#[test]
fn duplicate_leaves_index_unchanged() {
    let mut idx = Index::new();
    idx.add_document("a", "rust web", &cfg()).unwrap();
    assert!(idx.add_document("a", "python snakes", &cfg()).is_err());
    assert_eq!(idx.doc_count(), 1);
    assert_eq!(idx.term_count(), 2);
    assert!(idx.postings("python").is_empty());
}

#[test]
fn lengths_and_vocabulary() {
    let mut idx = Index::new();
    idx.add_document("a", "rust web", &cfg()).unwrap();
    idx.add_document("b", "rust browser webassembly", &cfg()).unwrap();
    idx.add_document("c", "the", &cfg()).unwrap();
    assert_eq!(idx.doc(0).unwrap().length, 2);
    assert_eq!(idx.doc(1).unwrap().length, 3);
    assert_eq!(idx.doc(2).unwrap().length, 0);
    assert_eq!(idx.term_count(), 4);
    assert_eq!(idx.total_length(), 5);
    assert_eq!(Index::new().total_length(), 0);
}

#[test]
fn postings_are_in_document_order() {
    let mut idx = Index::new();
    for (i, text) in ["rust a", "b", "rust c rust", "rust"].iter().enumerate() {
        idx.add_document(&format!("d{i}"), text, &cfg()).unwrap();
    }
    let list = idx.postings("rust");
    assert_eq!(
        list,
        &[
            Posting { doc_id: 0, term_freq: 1 },
            Posting { doc_id: 2, term_freq: 2 },
            Posting { doc_id: 3, term_freq: 1 },
        ]
    );
}

#[test]
fn parts_round_trip() {
    let mut idx = Index::new();
    idx.add_document("a", "Rust is a memory safe systems language.", &cfg()).unwrap();
    idx.add_document("b", "WebAssembly lets Rust run in the browser.", &cfg()).unwrap();
    let (terms, docs) = idx.to_parts();
    let loaded = Index::from_parts(terms, docs).unwrap();
    assert_eq!(loaded.doc_count(), idx.doc_count());
    assert_eq!(loaded.term_count(), idx.term_count());
    assert_eq!(loaded.postings("rust"), idx.postings("rust"));
    assert_eq!(loaded.doc(0), idx.doc(0));
}

#[test]
fn invalid_parts_are_refused() {
    let docs = vec![DocMeta { external_id: "a".to_string(), length: 1 }];
    let unsorted = vec![(
        "rust".to_string(),
        vec![Posting { doc_id: 0, term_freq: 1 }, Posting { doc_id: 0, term_freq: 1 }],
    )];
    assert!(Index::from_parts(unsorted, docs.clone()).is_none());
    let dangling = vec![("rust".to_string(), vec![Posting { doc_id: 1, term_freq: 1 }])];
    assert!(Index::from_parts(dangling, docs.clone()).is_none());
    let twice = vec![
        ("rust".to_string(), vec![Posting { doc_id: 0, term_freq: 1 }]),
        ("rust".to_string(), vec![Posting { doc_id: 0, term_freq: 1 }]),
    ];
    assert!(Index::from_parts(twice, docs.clone()).is_none());
    let same_ids = vec![docs[0].clone(), docs[0].clone()];
    assert!(Index::from_parts(Vec::new(), same_ids).is_none());
}

#[test]
fn error_messages() {
    assert_eq!(Error::DuplicateDocId("a".to_string()).message(), "duplicate document id: a");
    assert_eq!(Error::Decode("bad".to_string()).message(), "decode error: bad");
    assert_eq!(Error::Encode("x".to_string()).message(), "encode error: x");
}

#[test]
fn io_error_message_has_prefix() {
    let e = Error::Io(std::io::Error::new(std::io::ErrorKind::Other, "disk gone"));
    let m = e.message();
    assert!(m.starts_with("io error: "));
    assert_eq!(m, "io error: disk gone");
}

#[test]
fn frequencies_add_up_to_document_length() {
    let texts = ["rust rust web", "browser rust wasm wasm wasm", "the web"];
    let mut idx = Index::new();
    for (i, t) in texts.iter().enumerate() {
        idx.add_document(&i.to_string(), t, &cfg()).unwrap();
    }
    for (i, t) in texts.iter().enumerate() {
        let mut terms: Vec<String> = minisearch_rs::tokenizer::tokenize(t, &cfg())
            .into_iter()
            .map(|tok| tok.term)
            .collect();
        terms.sort();
        terms.dedup();
        let total: u32 = terms
            .iter()
            .map(|term| {
                idx.postings(term)
                    .iter()
                    .filter(|p| p.doc_id as usize == i)
                    .map(|p| p.term_freq)
                    .sum::<u32>()
            })
            .sum();
        assert_eq!(total, idx.doc(i as u32).unwrap().length);
    }
}

#[test]
fn postings_follow_added_documents() {
    let mut idx = Index::new();
    idx.add_document("x", "rust web", &cfg()).unwrap();
    idx.add_document("y", "browser", &cfg()).unwrap();
    idx.add_document("z", "rust rust rust", &cfg()).unwrap();
    assert_eq!(
        idx.postings("rust"),
        &[Posting { doc_id: 0, term_freq: 1 }, Posting { doc_id: 2, term_freq: 3 }]
    );
    assert!(idx.postings("python").is_empty());
    assert!(Index::new().postings("anything").is_empty());
    for term in ["rust", "web", "browser"] {
        assert!(idx.postings(term).iter().all(|p| p.term_freq >= 1));
    }
}

#[test]
fn term_count_counts_distinct_terms_of_all_documents() {
    let mut idx = Index::new();
    idx.add_document("a", "rust rust web", &cfg()).unwrap();
    idx.add_document("b", "rust browser", &cfg()).unwrap();
    assert_eq!(idx.term_count(), 3);
    for term in ["rust", "web", "browser"] {
        assert!(!idx.postings(term).is_empty());
    }
}

#[test]
fn doc_count_counts_distinct_external_ids() {
    let mut idx = Index::new();
    let ids = ["a", "b", "a", "c", "b", "a"];
    let mut ok = 0;
    for id in ids {
        if idx.add_document(id, "some text", &cfg()).is_ok() {
            ok += 1;
        }
    }
    assert_eq!(ok, 3);
    assert_eq!(idx.doc_count(), 3);
    assert!(idx.doc(2).is_some());
    assert!(idx.doc(3).is_none());
}

#[test]
fn parts_with_an_empty_posting_list_are_refused() {
    let docs = vec![DocMeta { external_id: "a".to_string(), length: 1 }];
    let parts = vec![("rust".to_string(), Vec::new())];
    assert!(Index::from_parts(parts, docs).is_none());
}
