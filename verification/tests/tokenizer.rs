use minisearch_rs::tokenizer::{stopwords, tokenize, tokenize_default, Token, TokenizerConfig};

fn terms(tokens: &[Token]) -> Vec<&str> {
    tokens.iter().map(|t| t.term.as_str()).collect()
}

#[test]
fn stopwords_list_is_sorted() {
    let list = stopwords();
    let mut sorted = list.to_vec();
    sorted.sort_unstable();
    assert_eq!(list.as_slice(), sorted.as_slice());
}

#[test]
fn lowercases_and_drops_punctuation() {
    let tokens = tokenize_default("Rust is GREAT, isn't it?");
    assert!(terms(&tokens).contains(&"rust"));
    assert!(terms(&tokens).contains(&"great"));
    assert!(!terms(&tokens).contains(&"is"));
    assert!(!terms(&tokens).contains(&"it"));
}

#[test]
fn preserves_latin_unicode_words() {
    let tokens = tokenize_default("café résumé naïve");
    let t = terms(&tokens);
    assert!(t.contains(&"café"));
    assert!(t.contains(&"résumé"));
    assert!(t.contains(&"naïve"));
}

#[test]
fn cjk_splits_per_codepoint_for_now() {
    let tokens = tokenize_default("北京 search");
    let t = terms(&tokens);
    assert!(t.contains(&"北"));
    assert!(t.contains(&"京"));
    assert!(t.contains(&"search"));
}

#[test]
fn byte_offsets_round_trip() {
    let input = "Rust and WebAssembly";
    let tokens = tokenize_default(input);
    for tok in &tokens {
        let original = &input[tok.start..tok.end];
        assert_eq!(original.to_lowercase(), tok.term);
    }
}

#[test]
fn empty_input_yields_no_tokens() {
    assert!(tokenize_default("").is_empty());
    assert!(tokenize_default("   \n\t  ").is_empty());
    assert!(tokenize_default("!!! ??? ...").is_empty());
}

#[test]
fn stopwords_can_be_disabled() {
    let cfg = TokenizerConfig {
        drop_stopwords: false,
        ..TokenizerConfig::default()
    };
    let tokens = tokenize("the rust", &cfg);
    assert_eq!(terms(&tokens), vec!["the", "rust"]);
}

#[test]
fn tokens_carry_exact_offsets() {
    let tokens = tokenize_default("Hello, World");
    assert_eq!(tokens.len(), 2);
    assert_eq!(tokens[0], Token { term: "hello".to_string(), start: 0, end: 5 });
    assert_eq!(tokens[1], Token { term: "world".to_string(), start: 7, end: 12 });
}

#[test]
fn min_len_drops_short_words() {
    let cfg = TokenizerConfig { drop_punct: true, drop_stopwords: false, min_len: 3 };
    let tokens = tokenize("go to the web", &cfg);
    assert_eq!(terms(&tokens), vec!["the", "web"]);
}

#[test]
fn multibyte_offsets_are_bytes() {
    let input = "Über café";
    let tokens = tokenize_default(input);
    assert_eq!(tokens.len(), 2);
    assert_eq!((tokens[0].start, tokens[0].end), (0, 5));
    assert_eq!((tokens[1].start, tokens[1].end), (6, 11));
    assert_eq!(tokens[0].term, "über");
}

#[test]
fn offsets_round_trip_on_mixed_text() {
    let input = "The QUICK brown fox — jumps over 32 lazy DOGS!";
    let tokens = tokenize_default(input);
    let mut last_end = 0;
    for tok in &tokens {
        assert!(tok.start >= last_end);
        assert_eq!(input[tok.start..tok.end].to_lowercase(), tok.term);
        last_end = tok.end;
    }
    assert!(terms(&tokens).contains(&"32"));
    assert!(!terms(&tokens).contains(&"the"));
}

#[test]
fn default_config_values() {
    let cfg = TokenizerConfig::default();
    assert!(cfg.drop_punct);
    assert!(cfg.drop_stopwords);
    assert_eq!(cfg.min_len, 1);
}

#[test]
fn dropping_stopwords_filters_the_tokens() {
    let text = "The cat and the hat: it is in the box, with a bow.";
    let on = TokenizerConfig { drop_punct: true, drop_stopwords: true, min_len: 1 };
    let off = TokenizerConfig { drop_punct: true, drop_stopwords: false, min_len: 1 };
    let list = stopwords();
    let filtered: Vec<Token> = tokenize(text, &off)
        .into_iter()
        .filter(|t| !list.contains(&t.term.as_str()))
        .collect();
    assert_eq!(tokenize(text, &on), filtered);
    assert!(tokenize(text, &off).len() > filtered.len());
}
