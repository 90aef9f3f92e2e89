use embedding::code::{load_code_data, load_code_data_advanced, split_camel_case, CodeProcessor};

fn processor(language: &str, strings: bool, camel: bool) -> CodeProcessor {
    CodeProcessor {
        language: language.to_string(),
        remove_comments: true,
        remove_string_literals: strings,
        split_camel_case: camel,
        remove_numbers: true,
    }
}

#[test]
fn test_strip_comments_c_style() {
    let processor = processor("rust", false, false);
    let code = "let x = 5; // initialize\n/* block\ncomment */\nlet y = 10;";
    let sentences = processor.process_code(code);

    assert_eq!(sentences.len(), 2);
    assert!(sentences[0].contains(&"let".to_string()));
    assert!(!sentences[0].iter().any(|t| t.contains("initialize")));
    assert!(!sentences[1].iter().any(|t| t.contains("comment")));
}

#[test]
fn test_strip_comments_python() {
    let processor = processor("python", false, false);
    let code = "x = 5  # initialize\ny = 10";
    let sentences = processor.process_code(code);

    assert_eq!(sentences.len(), 2);
    assert!(!sentences[0].iter().any(|t| t.contains("initialize")));
}

#[test]
fn test_remove_string_literals() {
    let processor = processor("rust", true, false);
    let code = r#"let msg = "hello world"; let x = 1;"#;
    let sentences = processor.process_code(code);

    assert_eq!(sentences.len(), 1);
    assert!(sentences[0].contains(&"let".to_string()));
    assert!(sentences[0].contains(&"msg".to_string()));
    assert!(!sentences[0].iter().any(|t| t.contains("hello")));
}

#[test]
fn test_camel_case_splitting() {
    let processor = processor("rust", true, true);
    let code = "fn computeEmbeddingVector() {}";
    let sentences = processor.process_code(code);

    assert_eq!(sentences.len(), 1);
    let tokens = &sentences[0];
    assert!(tokens.contains(&"compute".to_string()));
    assert!(tokens.contains(&"embedding".to_string()));
    assert!(tokens.contains(&"vector".to_string()));
}

#[test]
fn test_pascal_case_splitting() {
    let processor = processor("rust", true, true);
    let code = "struct EmbeddingModel;";
    let sentences = processor.process_code(code);

    assert_eq!(sentences.len(), 1);
    let tokens = &sentences[0];
    assert!(tokens.contains(&"embedding".to_string()));
    assert!(tokens.contains(&"model".to_string()));
}

#[test]
fn test_acronym_preservation() {
    assert_eq!(split_camel_case("HTTPResponse"), vec!["http", "response"]);
    assert_eq!(split_camel_case("URLLoader"), vec!["url", "loader"]);
}

#[test]
fn test_no_camel_split() {
    let processor = processor("rust", true, false);
    let code = "fn computeEmbeddingVector() {}";
    let sentences = processor.process_code(code);

    let tokens = &sentences[0];
    assert!(tokens.contains(&"computeEmbeddingVector".to_string()));
    assert!(!tokens.contains(&"compute".to_string()));
}

#[test]
fn test_load_code_data() {
    let code = "let x = 5;\nlet y = 10;";
    let sentences = load_code_data(code);
    assert_eq!(sentences.len(), 2);
    assert_eq!(sentences[0], vec!["let", "x"]);
    assert_eq!(sentences[1], vec!["let", "y"]);
}

#[test]
fn test_rust_code_processing() {
    let code = r#"
            // This is a comment
            fn main() {
                let vector = vec![1, 2, 3];
                println!("hello");
            }
        "#;
    let sentences = load_code_data(code);
    assert!(!sentences.is_empty());

    for sentence in &sentences {
        for token in sentence {
            assert_ne!(token, "hello");
            assert_ne!(token, "comment");
        }
    }

    let all_tokens: Vec<String> = sentences.into_iter().flatten().collect();
    assert!(all_tokens.contains(&"fn".to_string()));
    assert!(all_tokens.contains(&"main".to_string()));
    assert!(all_tokens.contains(&"let".to_string()));
    assert!(all_tokens.contains(&"vector".to_string()));
}

#[test]
fn code_split_camel_case_digits_and_underscores() {
    assert_eq!(split_camel_case("parseJSON2Html"), vec!["parse", "json2", "html"]);
    assert_eq!(split_camel_case("snake_case"), vec!["snake", "case"]);
    assert_eq!(split_camel_case("x"), vec!["x"]);
}

#[test]
fn code_default_processor_matches_load_code_data() {
    let code = "let total = count + 42; // sum\nlet name = \"text\";";
    let p = CodeProcessor::default();
    assert_eq!(load_code_data_advanced(code, &p), load_code_data(code));
}

#[test]
fn code_numbers_kept_when_asked() {
    let mut p = processor("rust", true, false);
    p.remove_numbers = false;
    let sentences = p.process_code("let x = 42;");
    assert_eq!(sentences, vec![vec!["let", "x", "42"]]);
}

#[test]
fn code_every_token_is_valid() {
    let sentences = load_code_data("a = 1; _ = 2;\n// only a comment\n\n#[attr]");
    for s in &sentences {
        assert!(!s.is_empty());
        for t in s {
            assert!(!t.is_empty());
            assert!(t.chars().all(|c| c.is_alphanumeric() || c == '_'));
            assert!(!t.chars().all(|c| c.is_ascii_digit()));
        }
    }
}

#[test]
fn snake_case_is_split_at_underscores() {
    assert_eq!(split_camel_case("snake_case"), vec!["snake", "case"]);
    assert_eq!(split_camel_case("__Max_Len_"), vec!["max", "len"]);
    assert_eq!(split_camel_case("a_b"), vec!["a", "b"]);
    let p = processor("rust", true, true);
    assert_eq!(p.process_code("let word_count = 1;"), vec![vec!["let", "word", "count"]]);
}

#[test]
fn literals_are_removed_without_comment_removal() {
    let p = CodeProcessor {
        language: "rust".to_string(),
        remove_comments: false,
        remove_string_literals: true,
        split_camel_case: false,
        remove_numbers: true,
    };
    assert_eq!(p.process_code("let s = \"hello\";"), vec![vec!["let", "s"]]);
    assert_eq!(p.process_code("x = 1; // note"), vec![vec!["x", "note"]]);
}

#[test]
fn code_tokens_are_identifier_characters() {
    let code = "fn parse_JSON(x: &str) -> u8 { /* c */ x.len() as u8 }\n// only a comment\nlet s = \"lit\";";
    let sentences = load_code_data(code);
    assert!(sentences.len() <= 2);
    for s in &sentences {
        for t in s {
            assert!(t.chars().all(|c| c.is_ascii_alphanumeric() || c == '_'));
        }
    }
    assert_eq!(sentences[0], vec!["fn", "parse", "json", "x", "str", "u8", "x", "len", "as", "u8"]);
}
