use embedding::text::build_vocab;
use embedding::tokenizer::{BPETokenizer, WordPieceTokenizer};

fn strings(v: &[&str]) -> Vec<String> {
    v.iter().map(|s| s.to_string()).collect()
}

#[test]
fn test_wordpiece_tokenizer_roundtrip() {
    let corpus = vec![
        "hello".to_string(),
        "world".to_string(),
        "hello".to_string(),
        "world".to_string(),
        "helloworld".to_string(),
    ];
    let tokenizer = WordPieceTokenizer::train(&corpus, 50);
    assert!(tokenizer.vocab_size > 0);

    let encoded = tokenizer.encode("hello world");
    assert!(!encoded.is_empty());

    let decoded = tokenizer.decode(&encoded);
    assert!(!decoded.is_empty());

    let single = tokenizer.encode("hello");
    assert!(!single.is_empty());
    let single_decoded = tokenizer.decode(&single);
    assert_eq!(single_decoded, "hello");
}

#[test]
fn bpe_train_merges_most_frequent_pairs() {
    let corpus = strings(&["ab", "ab", "b"]);
    let t = BPETokenizer::train(&corpus, 10);
    assert_eq!(
        t.merges,
        vec![
            ("b".to_string(), "</w>".to_string()),
            ("a".to_string(), "b</w>".to_string())
        ]
    );
    assert_eq!(t.vocab_size, 5);
    assert_eq!(t.vocab.len(), 5);
    assert_eq!(t.vocab.get("a"), Some(&0));
    assert_eq!(t.vocab.get("b"), Some(&1));
    assert_eq!(t.vocab.get("</w>"), Some(&2));
    assert_eq!(t.vocab.get("b</w>"), Some(&3));
    assert_eq!(t.vocab.get("ab</w>"), Some(&4));
    assert_eq!(t.encode("ab"), vec!["ab</w>"]);
    assert_eq!(t.decode(&t.encode("ab")), "ab");
}

#[test]
fn bpe_train_stops_at_target() {
    let corpus = strings(&["ab", "ab", "b"]);
    let t = BPETokenizer::train(&corpus, 4);
    assert_eq!(t.merges.len(), 1);
    assert_eq!(t.vocab_size, 4);
    let t = BPETokenizer::train(&corpus, 2);
    assert!(t.merges.is_empty());
    assert_eq!(t.vocab_size, 3);
}

#[test]
fn bpe_train_ignores_blank_words_and_lowercases() {
    let corpus = strings(&["  ", "", " AB "]);
    let t = BPETokenizer::train(&corpus, 100);
    assert_eq!(t.vocab.get("a"), Some(&0));
    assert_eq!(t.vocab.get("b"), Some(&1));
    assert_eq!(t.vocab.get("</w>"), Some(&2));
    assert_eq!(t.vocab_size, t.vocab.len());
    assert_eq!(t.encode("ab"), vec!["ab</w>"]);
}

#[test]
fn bpe_train_empty_corpus() {
    let t = BPETokenizer::train(&[], 10);
    assert_eq!(t.vocab_size, 0);
    assert!(t.merges.is_empty());
}

#[test]
fn bpe_encode_decode_roundtrip() {
    let corpus = strings(&["low", "lower", "lowest", "low", "newer", "wider"]);
    let t = BPETokenizer::train(&corpus, 30);
    for w in ["low", "lower", "newest", "abc"] {
        assert_eq!(t.decode(&t.encode(w)), w);
        let joined: String = t.encode(w).concat();
        assert_eq!(joined, format!("{}</w>", w));
    }
}

#[test]
fn bpe_encode_without_merges_is_characters() {
    let t = BPETokenizer::default();
    assert_eq!(t.encode("Hi"), vec!["h", "i", "</w>"]);
    assert_eq!(t.decode(&strings(&["h", "i</w>", "yo", "</w>"])), "hi yo");
}

#[test]
fn wordpiece_train_vocabulary() {
    let corpus = strings(&["ab", "ab", "Abc"]);
    let t = WordPieceTokenizer::train(&corpus, 100);
    assert_eq!(t.vocab.get("[PAD]"), Some(&0));
    assert_eq!(t.vocab.get("[UNK]"), Some(&1));
    assert_eq!(t.vocab.get("[CLS]"), Some(&2));
    assert_eq!(t.vocab.get("[SEP]"), Some(&3));
    assert_eq!(t.vocab.get("[MASK]"), Some(&4));
    assert_eq!(t.vocab.get("a"), Some(&5));
    assert_eq!(t.vocab.get("b"), Some(&6));
    assert_eq!(t.vocab.get("A"), Some(&7));
    assert_eq!(t.vocab.get("c"), Some(&8));
    // "ab" occurs three times, "bc" and "abc" once each
    assert_eq!(t.vocab.get("ab"), Some(&9));
    assert!(t.vocab.get("bc").is_some());
    assert!(t.vocab.get("abc").is_some());
    assert_eq!(t.vocab_size, 12);
    assert_eq!(t.unk_token, "[UNK]");
}

#[test]
fn wordpiece_train_respects_target() {
    let corpus = strings(&["ab", "ab", "abc"]);
    let t = WordPieceTokenizer::train(&corpus, 9);
    assert_eq!(t.vocab_size, 9);
    assert_eq!(t.vocab.get("ab"), Some(&8));
    assert!(t.vocab.get("bc").is_none());
    let t = WordPieceTokenizer::train(&corpus, 3);
    assert_eq!(t.vocab_size, 8);
}

#[test]
fn wordpiece_try_train_rejects_unsliceable_words() {
    let ok = strings(&["héllo"]);
    assert!(WordPieceTokenizer::try_train(&ok, 10).is_none());
    let ok = strings(&["é", "ab"]);
    let t = WordPieceTokenizer::try_train(&ok, 100).unwrap();
    assert!(t.vocab.get("é").is_some());
    assert!(t.vocab.get("ab").is_some());
}

#[test]
fn wordpiece_encode_and_decode() {
    let sentences = vec![strings(&["un", "##aff", "##able", "play", "##ing"])];
    let (vocab, _) = build_vocab(&sentences);
    let t = WordPieceTokenizer::from_vocab(vocab);
    assert_eq!(t.vocab_size, 5);
    assert_eq!(t.unk_token, "[UNK]");
    assert_eq!(t.encode_word("xy"), vec!["[UNK]", "[UNK]"]);
    assert_eq!(t.encode("Play xy"), vec!["play", "[UNK]", "[UNK]"]);
    assert_eq!(t.decode(&strings(&["play", "##ing", "un"])), "playing un");
}

#[test]
fn bpe_roundtrip_with_angle_brackets() {
    let corpus = strings(&["a<b", "a<b", "<w", "x</"]);
    let t = BPETokenizer::train(&corpus, 20);
    for w in ["a<b", "<w", "x</", "</w", "<<"] {
        assert_eq!(t.decode(&t.encode(w)), w);
    }
}

#[test]
fn bpe_trained_vocabulary_holds_merges() {
    let corpus = strings(&["low", "lower", "lowest", "newer", "wider"]);
    let t = BPETokenizer::train(&corpus, 25);
    assert!(t.vocab_size <= 25);
    assert_eq!(t.vocab.len(), t.vocab_size);
    for (a, b) in &t.merges {
        assert!(t.vocab.get(&format!("{}{}", a, b)).is_some());
    }
}

#[test]
fn wordpiece_ids_are_positions() {
    let corpus = strings(&["ab", "ab", "abc", "bcd"]);
    let t = WordPieceTokenizer::train(&corpus, 14);
    assert!(t.vocab_size <= 14);
    let mut candidates: Vec<String> = strings(&["[PAD]", "[UNK]", "[CLS]", "[SEP]", "[MASK]"]);
    for w in &corpus {
        let cs: Vec<char> = w.chars().collect();
        for n in 1..=cs.len() {
            for win in cs.windows(n) {
                let s: String = win.iter().collect();
                if !candidates.contains(&s) {
                    candidates.push(s);
                }
            }
        }
    }
    let mut ids: Vec<usize> = candidates.iter().filter_map(|c| t.vocab.get(c.as_str()).copied()).collect();
    ids.sort();
    assert_eq!(ids, (0..t.vocab_size).collect::<Vec<usize>>());
}
