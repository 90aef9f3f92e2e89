use embedding::backend::CpuBackend;
use embedding::benchmark::{BenchmarkEvaluator, BuiltinBenchmark};
use embedding::mmap::{mmap_file_bytes, MmapError, MmapIndex, MmapSaveError};
use embedding::pretrained::{
    read_binary_header, BinaryFormatError, PretrainedFormat, PretrainedLoader, TextHeaderError,
};

#[test]
fn test_builtin_benchmark_aliases() {
    assert_eq!(BuiltinBenchmark::parse("ws353"), Some(BuiltinBenchmark::WordSim353));
    assert_eq!(BuiltinBenchmark::parse("simlex"), Some(BuiltinBenchmark::SimLex999));
}

#[test]
fn benchmark_names_and_parse() {
    assert_eq!(BuiltinBenchmark::names(), &["wordsim353", "simlex999", "men", "rw", "scws"]);
    for (name, b) in BuiltinBenchmark::names().iter().zip([
        BuiltinBenchmark::WordSim353,
        BuiltinBenchmark::SimLex999,
        BuiltinBenchmark::Men,
        BuiltinBenchmark::Rw,
        BuiltinBenchmark::Scws,
    ]) {
        assert_eq!(BuiltinBenchmark::parse(name), Some(b));
        assert_eq!(BuiltinBenchmark::parse(&name.to_uppercase()), Some(b));
        assert_eq!(b.file_stem(), *name);
    }
    assert_eq!(BuiltinBenchmark::parse("Rare-Words"), Some(BuiltinBenchmark::Rw));
    assert_eq!(BuiltinBenchmark::parse("MEN-TR-3K"), Some(BuiltinBenchmark::Men));
    assert_eq!(BuiltinBenchmark::parse("unknown"), None);
}

#[test]
fn benchmark_unknown_name_message() {
    assert_eq!(
        BenchmarkEvaluator::select_builtin("unknown").unwrap_err(),
        "Unknown benchmark 'unknown'. Available: wordsim353, simlex999, men, rw, scws"
    );
    assert_eq!(BenchmarkEvaluator::select_builtin("SCWS"), Ok(BuiltinBenchmark::Scws));
}

#[test]
fn benchmark_tsv_records() {
    let text = "# comment\ncat\tdog\t0.8\n\n  Cat \t Mat \t 0.2 \r\nonly\ttwo\nfox\tdog\tx\textra\n";
    let r = BenchmarkEvaluator::tsv_records(text);
    let expected: Vec<(String, String, String)> = vec![
        ("cat".into(), "dog".into(), "0.8".into()),
        ("cat".into(), "mat".into(), "0.2".into()),
        ("fox".into(), "dog".into(), "x".into()),
    ];
    assert_eq!(r, expected);
}

#[test]
fn backend_name() {
    let b = CpuBackend::new();
    assert_eq!(b.name(), "cpu");
    let _ = CpuBackend::default();
}

fn floats(v: &[f32]) -> Vec<u8> {
    v.iter().flat_map(|x| x.to_ne_bytes()).collect()
}

#[test]
fn mmap_file_roundtrip() {
    let words = vec!["cat".to_string(), "dög".to_string()];
    let rows = vec![floats(&[1.0, 2.0]), floats(&[3.0, 4.0])];
    let bytes = mmap_file_bytes(&words, &rows).unwrap();
    assert_eq!(&bytes[0..4], b"EMBD");
    let index = MmapIndex::parse(&bytes).unwrap();
    assert_eq!(index.dim, 2);
    assert_eq!(index.words, words);
    assert_eq!(index.distinct, words);
    assert_eq!(index.places, vec![(0, 8), (8, 8)]);
    let (s, e) = index.row_range("dög", bytes.len()).unwrap();
    assert_eq!(&bytes[s..e], rows[1].as_slice());
    assert_eq!(index.row_range("bird", bytes.len()), None);
    assert_eq!(index.row_range("cat", e - 9), None);
    assert_eq!(index.vocab.len(), 2);
}

#[test]
fn mmap_save_errors() {
    let words = vec!["a".to_string()];
    assert_eq!(mmap_file_bytes(&words, &[]), Err(MmapSaveError::LengthMismatch));
    let words = vec!["a".to_string(), "b".to_string()];
    let rows = vec![floats(&[1.0]), floats(&[1.0, 2.0])];
    assert_eq!(mmap_file_bytes(&words, &rows), Err(MmapSaveError::InconsistentDimensions));
    let empty = mmap_file_bytes(&[], &[]).unwrap();
    assert_eq!(empty.len(), 24);
    let index = MmapIndex::parse(&empty).unwrap();
    assert_eq!(index.dim, 0);
    assert!(index.words.is_empty());
}

#[test]
fn mmap_read_errors() {
    assert_eq!(MmapIndex::parse(b"EMBD").err(), Some(MmapError::TooSmall));
    let mut bytes = mmap_file_bytes(&["a".to_string()], &[floats(&[1.0])]).unwrap();
    let mut bad = bytes.clone();
    bad[0] = b'X';
    assert_eq!(MmapIndex::parse(&bad).err(), Some(MmapError::BadMagic));
    let mut bad = bytes.clone();
    bad[4] = 2;
    assert_eq!(MmapIndex::parse(&bad).err(), Some(MmapError::UnsupportedVersion(2)));
    bytes.truncate(30);
    assert_eq!(MmapIndex::parse(&bytes).err(), Some(MmapError::CorruptIndex));
    let mut long = mmap_file_bytes(&["ab".to_string()], &[floats(&[1.0])]).unwrap();
    long.truncate(33);
    assert_eq!(MmapIndex::parse(&long).err(), Some(MmapError::CorruptEntry));
    let mut long = mmap_file_bytes(&["ab".to_string()], &[floats(&[1.0])]).unwrap();
    long.truncate(40);
    assert_eq!(MmapIndex::parse(&long).err(), Some(MmapError::CorruptDataOffset));
}

#[test]
fn pretrained_format_detection() {
    assert_eq!(PretrainedLoader::head_len("a.BIN"), 4);
    assert_eq!(PretrainedLoader::head_len("a.vec"), 1);
    assert_eq!(PretrainedLoader::head_len("a.txt"), 0);
    assert_eq!(PretrainedLoader::detect_format_from("x.Bin", b"EMBD"), PretrainedFormat::MmapBinary);
    assert_eq!(PretrainedLoader::detect_format_from("x.bin", b"EMB"), PretrainedFormat::Word2VecBinary);
    assert_eq!(PretrainedLoader::detect_format_from("x.vec", b"3"), PretrainedFormat::FastText);
    assert_eq!(PretrainedLoader::detect_format_from("x.vec", b"-"), PretrainedFormat::FastText);
    assert_eq!(PretrainedLoader::detect_format_from("x.vec", b"c"), PretrainedFormat::Word2VecBinary);
    assert_eq!(PretrainedLoader::detect_format_from("x.TXT", b""), PretrainedFormat::GloVe);
    assert_eq!(PretrainedLoader::detect_format_from("x.emb", b""), PretrainedFormat::Word2VecText);
}

#[test]
fn pretrained_text_header() {
    assert_eq!(PretrainedLoader::read_text_header("3 4"), Ok((3, 4)));
    assert_eq!(PretrainedLoader::read_text_header(" +3\t4 "), Ok((3, 4)));
    assert_eq!(PretrainedLoader::read_text_header("3"), Err(TextHeaderError::InvalidHeader));
    assert_eq!(PretrainedLoader::read_text_header("x 4"), Err(TextHeaderError::InvalidVocabSize));
    assert_eq!(PretrainedLoader::read_text_header("3 -4"), Err(TextHeaderError::InvalidDimension));
    assert_eq!(
        PretrainedLoader::read_text_header("3 99999999999999999999999"),
        Err(TextHeaderError::InvalidDimension)
    );
}

#[test]
fn pretrained_binary_layout() {
    let mut file = b"2 1\n".to_vec();
    file.extend_from_slice(b"cat ");
    file.extend_from_slice(&1.5f32.to_le_bytes());
    file.push(b'\n');
    file.extend_from_slice(b"dog ");
    file.extend_from_slice(&2.5f32.to_le_bytes());
    let entries = PretrainedLoader::read_word2vec_binary(&file).unwrap();
    assert_eq!(entries.len(), 2);
    assert_eq!(entries[0].0, "cat");
    assert_eq!(entries[0].1, 1.5f32.to_le_bytes().to_vec());
    assert_eq!(entries[1].0, "dog");
    assert_eq!(entries[1].1, 2.5f32.to_le_bytes().to_vec());

    assert_eq!(
        PretrainedLoader::read_word2vec_binary(b"2 1"),
        Err(BinaryFormatError::UnterminatedHeader)
    );
    assert_eq!(
        PretrainedLoader::read_word2vec_binary(b"2\n"),
        Err(BinaryFormatError::InvalidHeader)
    );
    assert_eq!(
        PretrainedLoader::read_word2vec_binary(b"a 1\n"),
        Err(BinaryFormatError::InvalidVocabSize)
    );
    assert_eq!(
        PretrainedLoader::read_word2vec_binary(b"1 b\n"),
        Err(BinaryFormatError::InvalidDimension)
    );
    assert_eq!(
        PretrainedLoader::read_word2vec_binary(b"1 1\ncat"),
        Err(BinaryFormatError::UnterminatedWord)
    );
    assert_eq!(
        PretrainedLoader::read_word2vec_binary(b"1 1\ncat \x00\x00"),
        Err(BinaryFormatError::ShortVector(b"cat".to_vec()))
    );
}

#[test]
fn test_load_builtin_unknown() {
    assert!(BenchmarkEvaluator::select_builtin("unknown").is_err());
}

#[test]
fn pretrained_binary_header() {
    assert_eq!(read_binary_header(b"12 300\nrest"), Ok((12, 300, 7)));
    assert_eq!(read_binary_header(b"12 300"), Err(BinaryFormatError::UnterminatedHeader));
    assert_eq!(read_binary_header(b"12 300 7\n"), Err(BinaryFormatError::InvalidHeader));
}

#[test]
fn mmap_header_cut_short_is_too_small() {
    let mut bytes = b"EMBD".to_vec();
    bytes.extend_from_slice(&1u32.to_le_bytes());
    bytes.extend_from_slice(&[0u8; 12]);
    assert_eq!(bytes.len(), 20);
    assert_eq!(MmapIndex::parse(&bytes).err(), Some(MmapError::TooSmall));
    bytes.extend_from_slice(&[0u8; 3]);
    assert_eq!(MmapIndex::parse(&bytes).err(), Some(MmapError::TooSmall));
    bytes.push(0);
    assert!(MmapIndex::parse(&bytes).is_ok());
}
