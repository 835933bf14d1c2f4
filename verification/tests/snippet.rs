use minisearch_rs::snippet::highlight_terms;
use minisearch_rs::text::byte_to_utf16_offset;
use minisearch_rs::tokenizer::TokenizerConfig;
use minisearch_rs::{extract_snippet as extract, Snippet, SnippetConfig};

fn tcfg() -> TokenizerConfig {
    TokenizerConfig::default()
}

fn scfg() -> SnippetConfig {
    SnippetConfig::default()
}

#[test]
fn returns_none_when_query_is_empty() {
    let s = extract("rust web search", &[], &tcfg(), &scfg());
    assert!(s.is_none());
}

#[test]
fn returns_none_when_no_match() {
    let s = extract("rust web search", &["python"], &tcfg(), &scfg());
    assert!(s.is_none());
}

#[test]
fn highlights_each_match() {
    let text = "Rust is a systems language. WebAssembly extends Rust to the browser.";
    let snippet = extract(text, &["rust"], &tcfg(), &scfg()).unwrap();
    assert_eq!(snippet.highlights.len(), 2);
    for &(s, e) in &snippet.highlights {
        assert_eq!(snippet.text[s..e].to_lowercase(), "rust");
    }
}

#[test]
fn ellipsis_added_when_truncated() {
    let mut text = String::new();
    for _ in 0..100 {
        text.push_str("filler word here ");
    }
    text.push_str(" rust ");
    for _ in 0..100 {
        text.push_str(" more padding text");
    }
    let snippet = extract(&text, &["rust"], &tcfg(), &scfg()).unwrap();
    assert!(snippet.text.starts_with("… "));
    assert!(snippet.text.ends_with(" …"));
    assert_eq!(snippet.highlights.len(), 1);
    let (s, e) = snippet.highlights[0];
    assert_eq!(&snippet.text[s..e], "rust");
}

#[test]
fn no_ellipsis_for_short_text() {
    let snippet = extract("rust web", &["rust"], &tcfg(), &scfg()).unwrap();
    assert!(!snippet.text.starts_with("…"));
    assert!(!snippet.text.ends_with("…"));
}

#[test]
fn snaps_to_word_boundaries() {
    let text = "WebAssembly is awesome and rust integrates with WebAssembly cleanly.";
    let snippet = extract(text, &["rust"], &tcfg(), &scfg()).unwrap();
    let body = snippet
        .text
        .trim_start_matches('…')
        .trim_start()
        .trim_end_matches('…')
        .trim_end();
    let first_word = body.split_whitespace().next().unwrap_or("");
    let last_word = body.split_whitespace().last().unwrap_or("");
    assert!(text.contains(first_word));
    assert!(text.contains(last_word));
}

#[test]
fn short_text_snippet_is_whole_text() {
    let snippet = extract("Rust web", &["RUST"], &tcfg(), &scfg()).unwrap();
    assert_eq!(
        snippet,
        Snippet { text: "Rust web".to_string(), highlights: vec![(0, 4)] }
    );
}

#[test]
fn empty_text_gives_none() {
    assert!(extract("", &["rust"], &tcfg(), &scfg()).is_none());
}

#[test]
fn densest_window_wins() {
    // A lone match early, then three matches close together later.
    let mut text = String::from("rust ");
    for _ in 0..40 {
        text.push_str("pad ");
    }
    text.push_str("rust rust rust end");
    let cfg = SnippetConfig { window_bytes: 40, use_ellipsis: false };
    let snippet = extract(&text, &["rust"], &tcfg(), &cfg).unwrap();
    assert_eq!(snippet.highlights.len(), 3);
    for &(s, e) in &snippet.highlights {
        assert_eq!(&snippet.text[s..e], "rust");
    }
    assert!(!snippet.text.starts_with('…'));
}

#[test]
fn highlight_offsets_shift_by_prefix() {
    let mut text = String::new();
    for _ in 0..20 {
        text.push_str("lorem ipsum ");
    }
    text.push_str("rust");
    let snippet = extract(&text, &["rust"], &tcfg(), &scfg()).unwrap();
    assert!(snippet.text.starts_with("… "));
    assert!(snippet.text.ends_with("rust"));
    let (s, e) = snippet.highlights[0];
    assert_eq!(e, snippet.text.len());
    assert_eq!(e - s, 4);
}

#[test]
fn utf16_offsets() {
    let s = "a😀b";
    assert_eq!(byte_to_utf16_offset(s, 0), 0);
    assert_eq!(byte_to_utf16_offset(s, 1), 1);
    assert_eq!(byte_to_utf16_offset(s, 5), 3);
    assert_eq!(byte_to_utf16_offset(s, 6), 4);
    assert_eq!(byte_to_utf16_offset(s, 100), 4);
    assert_eq!(byte_to_utf16_offset("café", 3), 3);
    assert_eq!(byte_to_utf16_offset("café", 5), 4);
}

#[test]
fn default_snippet_config() {
    let c = SnippetConfig::default();
    assert_eq!(c.window_bytes, 160);
    assert!(c.use_ellipsis);
}

#[test]
fn window_holds_every_match_that_fits() {
    // Matches at bytes 100..104 and 244..248 of a 400-byte text: a 160-byte
    // window starting at 88 holds both, and none further left does.
    let mut text = "a ".repeat(50);
    text.push_str("rust ");
    text.push_str(&"a ".repeat(69));
    text.push(' ');
    text.push_str("rust");
    text.push_str(&" a".repeat(76));
    assert_eq!(text.len(), 400);
    assert_eq!(&text[100..104], "rust");
    assert_eq!(&text[244..248], "rust");
    let cfg = SnippetConfig { window_bytes: 160, use_ellipsis: true };
    let snippet = extract(&text, &["rust"], &tcfg(), &cfg).unwrap();
    assert_eq!(snippet.text, format!("… {} …", &text[88..248]));
    assert_eq!(snippet.highlights, vec![(16, 20), (160, 164)]);
}

#[test]
fn highlights_fall_on_char_boundaries() {
    let text = "Ünïcode wörds: rust, çafé rust ☃ rust";
    let cfg = SnippetConfig { window_bytes: 12, use_ellipsis: true };
    let snippet = extract(text, &["rust"], &tcfg(), &cfg).unwrap();
    assert!(!snippet.highlights.is_empty());
    for &(s, e) in &snippet.highlights {
        assert!(snippet.text.is_char_boundary(s));
        assert!(snippet.text.is_char_boundary(e));
        assert_eq!(&snippet.text[s..e], "rust");
    }
}

#[test]
fn highlight_terms_split_at_whitespace_and_lowercase() {
    assert_eq!(
        highlight_terms("  Rust  WebAssembly\tBROWSER\n"),
        vec!["rust".to_string(), "webassembly".to_string(), "browser".to_string()]
    );
    assert!(highlight_terms("").is_empty());
    assert!(highlight_terms(" \t ").is_empty());
    assert_eq!(highlight_terms("Ça\u{3000}va"), vec!["ça".to_string(), "va".to_string()]);
}

#[test]
fn narrow_window_still_shows_the_first_match() {
    let zero = SnippetConfig { window_bytes: 0, use_ellipsis: true };
    let snippet = extract("x rust", &["rust"], &tcfg(), &zero).unwrap();
    assert_eq!(
        snippet,
        Snippet { text: "… rust".to_string(), highlights: vec![(4, 8)] }
    );
    let three = SnippetConfig { window_bytes: 3, use_ellipsis: true };
    let snippet = extract("one rust two rust", &["rust"], &tcfg(), &three).unwrap();
    assert_eq!(snippet.text, "… rust …");
    assert_eq!(snippet.highlights, vec![(4, 8)]);
}

#[test]
fn highlight_terms_split_like_split_whitespace() {
    for u in 0u32..0x3100 {
        if let Some(c) = char::from_u32(u) {
            let s = format!("a{c}b");
            let expected: Vec<String> = s.split_whitespace().map(str::to_lowercase).collect();
            assert_eq!(highlight_terms(&s), expected, "char U+{u:04X}");
        }
    }
}
