use embedding::text::{build_vocab, load_text_data, load_text_data_advanced, TextProcessor};

#[test]
fn test_build_vocab() {
    let sentences = vec![
        vec!["hello".to_string(), "world".to_string()],
        vec!["hello".to_string(), "rust".to_string()],
    ];

    let (vocab, reverse_vocab) = build_vocab(&sentences);

    assert_eq!(vocab.len(), 3);
    assert_eq!(reverse_vocab.len(), 3);
    assert_eq!(vocab.get("hello"), Some(&0));
    assert_eq!(vocab.get("world"), Some(&1));
    assert_eq!(vocab.get("rust"), Some(&2));
}

#[test]
fn test_load_text_data() {
    let text = "Hello world! This is a test.";
    let sentences = load_text_data(text);

    assert_eq!(sentences.len(), 2);
    assert_eq!(sentences[0], vec!["hello", "world"]);
    assert_eq!(sentences[1], vec!["this", "is", "a", "test"]);
}

#[test]
fn test_text_processing_pipeline() {
    let processor = TextProcessor {
        lowercase: true,
        remove_punctuation: true,
        remove_numbers: true,
        remove_html: true,
        remove_urls: true,
        expand_contractions: true,
        remove_stop_words: false,
        normalize_unicode: false,
        language: "en".to_string(),
    };

    let text = "<p>Visit https://example.com! It's a test with 123 numbers.</p>";
    let sentences = processor.process_text(text);
    assert_eq!(sentences.len(), 1);
    assert_eq!(sentences[0], vec!["visit", "it", "is", "a", "test", "with", "numbers"]);
}

#[test]
fn text_vocab_roundtrip_ids() {
    let sentences = load_text_data("the cat sat. the dog sat on the cat.");
    let (vocab, reverse_vocab) = build_vocab(&sentences);
    assert_eq!(reverse_vocab, vec!["the", "cat", "sat", "dog", "on"]);
    for s in &sentences {
        for w in s {
            let id = *vocab.get(w).unwrap();
            assert!(id < reverse_vocab.len());
            assert_eq!(&reverse_vocab[id], w);
        }
    }
}

#[test]
fn text_detect_language() {
    let p = TextProcessor::default();
    assert_eq!(p.detect_language("The cat and the dog"), "en");
    assert_eq!(p.detect_language("Le chat noir mange"), "unknown");
    assert_eq!(p.detect_language(""), "unknown");
}

#[test]
fn text_stop_word_switch_drops_stop_words() {
    let mut p = TextProcessor::default();
    p.remove_stop_words = true;
    let sentences = load_text_data_advanced("The cat is on the mat.", &p);
    assert_eq!(sentences, vec![vec!["cat", "mat"]]);
}

#[test]
fn text_empty_and_punctuation_only() {
    assert!(load_text_data("").is_empty());
    assert!(load_text_data("!!! ... ???").is_empty());
}

#[test]
fn text_tokens_are_clean() {
    let sentences = load_text_data("Hello, World!! Ünïcode café; x_y z-9?");
    for s in &sentences {
        assert!(!s.is_empty());
        for t in s {
            assert!(!t.is_empty());
            assert!(t.chars().all(|c| c.is_alphanumeric()));
        }
    }
}

#[test]
fn stop_words_are_removed_when_asked() {
    let p = TextProcessor { remove_stop_words: true, ..TextProcessor::default() };
    assert_eq!(p.process_text("the cat"), vec![vec!["cat"]]);
    assert_eq!(p.process_text("The cat sat on the mat. It is."), vec![vec!["cat", "sat", "mat"]]);
    assert_eq!(TextProcessor::default().process_text("the cat"), vec![vec!["the", "cat"]]);
}

#[test]
fn url_removal_keeps_the_other_text() {
    let p = TextProcessor { remove_urls: true, ..TextProcessor::default() };
    assert_eq!(p.process_text("a\nb"), vec![vec!["a"], vec!["b"]]);
    assert_eq!(
        p.process_text("see https://example.com now\nor www.rust-lang.org later"),
        vec![vec!["see", "now"], vec!["or", "later"]]
    );
}

#[test]
fn contractions_expand_once() {
    let p = TextProcessor { expand_contractions: true, ..TextProcessor::default() };
    assert_eq!(p.process_text("Can't stop, won't stop"), vec![vec!["cannot", "stop", "will", "not", "stop"]]);
    assert_eq!(p.process_text("It's fine"), vec![vec!["it", "is", "fine"]]);
}

#[test]
fn tokens_are_letters_and_digits() {
    let sentences = load_text_data("Hello, world! C3-PO's (droid) ... done?");
    assert_eq!(sentences, vec![vec!["hello", "world"], vec!["c3pos", "droid"], vec!["done"]]);
}

#[test]
fn unicode_whitespace_separates_words() {
    assert_eq!(load_text_data("a\u{a0}b\u{3000}c\u{2009}d"), vec![vec!["a", "b", "c", "d"]]);
}
