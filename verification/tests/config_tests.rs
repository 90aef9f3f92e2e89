use embedding::config::{DataLoader, ModelType, TrainingData};
use embedding::transfer::{MultimodalFusion, SubwordEmbedder};

fn sentences(n: usize) -> Vec<Vec<String>> {
    (0..n).map(|i| vec![format!("w{}", i)]).collect()
}

#[test]
fn config_training_data_from_text() {
    let data = TrainingData::from_text("the cat sat on the mat");
    assert_eq!(data.sentences, vec![vec!["the", "cat", "sat", "on", "the", "mat"]]);
    assert_eq!(data.reverse_vocab, vec!["the", "cat", "sat", "on", "mat"]);
    assert_eq!(data.vocab.get("mat"), Some(&4));
}

#[test]
fn config_add_words() {
    let mut data = TrainingData::from_text("a b");
    let added = data.add_words(&["b".to_string(), "c".to_string(), "c".to_string()]);
    assert_eq!(added, vec![2]);
    assert_eq!(data.reverse_vocab, vec!["a", "b", "c"]);
    assert_eq!(data.vocab.get("c"), Some(&2));
}

#[test]
fn config_batches_in_order() {
    let loader = DataLoader::new(2, false);
    let batches = loader.load_batches(&sentences(5));
    assert_eq!(batches.len(), 3);
    assert_eq!(batches[0], vec![vec!["w0"], vec!["w1"]]);
    assert_eq!(batches[2], vec![vec!["w4"]]);
    assert!(loader.load_batches(&[]).is_empty());
}

#[test]
fn config_shuffled_batches_keep_members() {
    let loader = DataLoader::new(3, true);
    let batches = loader.load_batches(&sentences(7));
    assert_eq!(batches.len(), 3);
    let mut first: Vec<Vec<String>> = batches[0].clone();
    first.sort();
    assert_eq!(first, vec![vec!["w0"], vec!["w1"], vec!["w2"]]);
    assert_eq!(batches[2], vec![vec!["w6"]]);
}

#[test]
fn config_file_path_and_model_type() {
    let mut loader = DataLoader::new(0, false);
    assert_eq!(loader.file_path, None);
    loader.set_file_path("corpus.txt".to_string());
    assert_eq!(loader.file_path, Some("corpus.txt".to_string()));
    assert_eq!(loader.load_batches(&sentences(2)).len(), 2);
    assert!(ModelType::SkipGram != ModelType::Cbow);
}

#[test]
fn transfer_ngrams() {
    let e = SubwordEmbedder::new(3, 4);
    assert_eq!(e.ngrams("ab"), vec!["<ab", "ab>", "<ab>"]);
    let e = SubwordEmbedder::new(5, 6);
    assert!(e.ngrams("ab").is_empty());
    let f = MultimodalFusion::new(8, 4, 6);
    assert_eq!((f.text_dim, f.aux_dim, f.fused_dim), (8, 4, 6));
}
