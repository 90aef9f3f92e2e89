use embedding::text::load_text_data;
use embedding::evaluation::{
    check_fold_count, cross_validation_fold, fold_partition, partition_by_order, pick_sentences,
    shuffled_order, split_sentences, validation_data,
};

fn sents(words: &[&[&str]]) -> Vec<Vec<String>> {
    words.iter().map(|s| s.iter().map(|w| w.to_string()).collect()).collect()
}

fn pair(a: &str, b: &str) -> (String, String) {
    (a.to_string(), b.to_string())
}

#[test]
fn validation_pairs_from_sentences() {
    let s = sents(&[&["a", "b", "c"], &["d"], &["e", "f"]]);
    let v = validation_data(&s);
    assert_eq!(v.positive_pairs, vec![pair("a", "b"), pair("b", "c"), pair("e", "f")]);
    assert_eq!(v.negative_pairs, vec![pair("a", "c")]);
    assert!(v.analogies.is_empty());
}

#[test]
fn validation_analogies_need_four_sentences() {
    let s = sents(&[&["a"], &["b"], &[], &["c"], &["d"], &["e", "x"]]);
    let v = validation_data(&s);
    // every window of four sentences starting at 0, 1 or 2 holds the empty one
    assert!(v.analogies.is_empty());
    let s = sents(&[&["hello"], &["world"], &["foo"], &["bar"], &["baz"]]);
    let v = validation_data(&s);
    assert_eq!(v.analogies.len(), 2);
    assert_eq!(v.analogies[0].0, "hello");
    assert_eq!(v.analogies[1].3, "baz");
}

#[test]
fn validation_of_nothing() {
    let v = validation_data(&[]);
    assert!(v.positive_pairs.is_empty() && v.negative_pairs.is_empty() && v.analogies.is_empty());
}

#[test]
fn split_keeps_every_sentence_once() {
    let s = sents(&[&["a"], &["b"], &["c"], &["d"], &["e"]]);
    let (train, val) = split_sentences(&s, 3);
    assert_eq!(train.len(), 3);
    assert_eq!(val.len(), 2);
    let mut all: Vec<Vec<String>> = train.into_iter().chain(val).collect();
    all.sort();
    assert_eq!(all, s);
}

#[test]
fn partition_follows_order() {
    let s = sents(&[&["a"], &["b"], &["c"]]);
    let (train, val) = partition_by_order(&s, &[2, 0, 1], 1);
    assert_eq!(train, sents(&[&["c"]]));
    assert_eq!(val, sents(&[&["a"], &["b"]]));
    assert_eq!(pick_sentences(&s, &[1, 1]), sents(&[&["b"], &["b"]]));
}

#[test]
fn folds_hold_out_each_sentence_once() {
    let s = sents(&[&["a"], &["b"], &["c"], &["d"], &["e"]]);
    let order = vec![4, 3, 2, 1, 0];
    let (train0, val0) = fold_partition(&s, &order, 2, 0);
    assert_eq!(val0, sents(&[&["e"], &["d"]]));
    assert_eq!(train0, sents(&[&["c"], &["b"], &["a"]]));
    let (train1, val1) = fold_partition(&s, &order, 2, 1);
    assert_eq!(val1, sents(&[&["c"], &["b"], &["a"]]));
    assert_eq!(train1, sents(&[&["e"], &["d"]]));
}

#[test]
fn fold_count_checked() {
    assert!(check_fold_count(1, 5).is_err());
    assert!(check_fold_count(6, 5).is_err());
    assert!(check_fold_count(2, 5).is_ok());
    assert_eq!(
        check_fold_count(0, 0).unwrap_err(),
        "k must be between 2 and the number of sentences"
    );
    let s = sents(&[&["a"], &["b"]]);
    let order = shuffled_order(2);
    assert!(cross_validation_fold(&s, &order, 3, 0).is_err());
    let (train, val) = cross_validation_fold(&s, &order, 2, 1).unwrap();
    assert_eq!(train.len() + val.len(), 2);
}

#[test]
fn shuffled_order_is_a_permutation() {
    let mut o = shuffled_order(10);
    o.sort();
    assert_eq!(o, (0..10).collect::<Vec<usize>>());
}

fn make_test_sentences() -> Vec<Vec<String>> {
    load_text_data("the cat sat on the mat. the dog sat on the log. the cat chased the dog.")
}

#[test]
fn test_create_validation_data_edge_cases() {
    // Single sentence
    let single = vec![vec!["hello".to_string(), "world".to_string()]];
    let val = validation_data(&single);
    assert_eq!(val.positive_pairs.len(), 1);
    assert!(val.negative_pairs.is_empty());

    // Empty sentences
    let empty: Vec<Vec<String>> = vec![];
    let val_empty = validation_data(&empty);
    assert!(val_empty.positive_pairs.is_empty());
    assert!(val_empty.negative_pairs.is_empty());
    assert!(val_empty.analogies.is_empty());

    // Two-word sentence only
    let two_word = vec![vec!["a".to_string(), "b".to_string(), "c".to_string()]];
    let val2 = validation_data(&two_word);
    assert!(!val2.positive_pairs.is_empty());
    assert!(!val2.negative_pairs.is_empty());
}

#[test]
fn test_split_data_produces_correct_sizes() {
    let sentences = make_test_sentences();
    let train_size = |ratio: f64| (sentences.len() as f64 * ratio) as usize;

    let (train, val) = split_sentences(&sentences, train_size(0.7));
    assert_eq!(train.len() + val.len(), sentences.len());

    let (train2, val2) = split_sentences(&sentences, train_size(0.5));
    assert_eq!(train2.len() + val2.len(), sentences.len());

    let (train3, val3) = split_sentences(&sentences, train_size(1.0));
    assert_eq!(train3.len(), sentences.len());
    assert!(val3.is_empty());
}
