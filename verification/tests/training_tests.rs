use embedding::text::build_vocab;
use embedding::training::{context_ids, offer_negative_sample};

fn sentence(words: &[&str]) -> Vec<String> {
    words.iter().map(|w| w.to_string()).collect()
}

#[test]
fn context_of_a_middle_word() {
    let s = sentence(&["the", "cat", "sat", "on", "the", "mat"]);
    let (vocab, _) = build_vocab(&[s.clone()]);
    // ids: the 0, cat 1, sat 2, on 3, mat 4
    assert_eq!(context_ids(&s, &vocab, 2, 1), vec![1, 3]);
    assert_eq!(context_ids(&s, &vocab, 2, 2), vec![0, 1, 3, 0]);
}

#[test]
fn context_is_cut_at_the_sentence_ends() {
    let s = sentence(&["a", "b", "c"]);
    let (vocab, _) = build_vocab(&[s.clone()]);
    assert_eq!(context_ids(&s, &vocab, 0, 5), vec![1, 2]);
    assert_eq!(context_ids(&s, &vocab, 2, 1), vec![1]);
    assert_eq!(context_ids(&s, &vocab, 1, 0), Vec::<usize>::new());
}

#[test]
fn context_skips_unknown_words() {
    let s = sentence(&["a", "b", "c", "d"]);
    let (vocab, _) = build_vocab(&[sentence(&["a", "d"])]);
    assert_eq!(context_ids(&s, &vocab, 0, 3), vec![1]);
    assert_eq!(context_ids(&s, &vocab, 3, 3), vec![0]);
}

#[test]
fn context_never_exceeds_twice_the_window() {
    let s = sentence(&["w", "w", "w", "w", "w", "w", "w"]);
    let (vocab, _) = build_vocab(&[s.clone()]);
    for window in 0..4 {
        for target in 0..s.len() {
            assert!(context_ids(&s, &vocab, target, window).len() <= 2 * window);
        }
    }
}

#[test]
fn negative_samples_skip_the_target_and_repeats() {
    let mut samples = Vec::new();
    for candidate in [3, 5, 3, 7, 5, 1] {
        offer_negative_sample(&mut samples, candidate, 7);
    }
    assert_eq!(samples, vec![3, 5, 1]);
}
