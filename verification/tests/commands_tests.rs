use embedding::commands::{
    parse_interactive_line, parse_model_type, training_sentences, ExportFormat, InteractiveCommand,
};
use embedding::config::ModelType;

#[test]
fn commands_model_types() {
    assert_eq!(parse_model_type("skipgram"), Some(ModelType::SkipGram));
    assert_eq!(parse_model_type("cbow"), Some(ModelType::Cbow));
    assert_eq!(parse_model_type("CBOW"), None);
}

#[test]
fn commands_export_formats() {
    assert_eq!(ExportFormat::parse("text"), Some(ExportFormat::Text));
    assert_eq!(ExportFormat::parse("json"), Some(ExportFormat::Json));
    assert_eq!(ExportFormat::parse("bin"), Some(ExportFormat::Bin));
    assert_eq!(ExportFormat::parse("word2vec"), Some(ExportFormat::Word2Vec));
    assert_eq!(ExportFormat::parse("csv"), None);
}

#[test]
fn commands_interactive_lines() {
    assert!(matches!(parse_interactive_line("   "), InteractiveCommand::Blank));
    assert!(matches!(parse_interactive_line("quit"), InteractiveCommand::Quit));
    assert!(matches!(parse_interactive_line(" exit now"), InteractiveCommand::Quit));
    match parse_interactive_line("sim cat dog extra") {
        InteractiveCommand::Similarity(a, b) => assert_eq!((a.as_str(), b.as_str()), ("cat", "dog")),
        other => panic!("unexpected {:?}", other),
    }
    match parse_interactive_line("analogy king man woman") {
        InteractiveCommand::Analogy(a, b, c) => {
            assert_eq!((a.as_str(), b.as_str(), c.as_str()), ("king", "man", "woman"))
        }
        other => panic!("unexpected {:?}", other),
    }
    match parse_interactive_line("search\tcat") {
        InteractiveCommand::Search(w) => assert_eq!(w, "cat"),
        other => panic!("unexpected {:?}", other),
    }
    match parse_interactive_line("sim cat") {
        InteractiveCommand::Usage(u) => assert_eq!(u, "Usage: sim <word1> <word2>"),
        other => panic!("unexpected {:?}", other),
    }
    match parse_interactive_line("analogy a b") {
        InteractiveCommand::Usage(u) => assert_eq!(u, "Usage: analogy <word1> <word2> <word3>"),
        other => panic!("unexpected {:?}", other),
    }
    match parse_interactive_line("search") {
        InteractiveCommand::Usage(u) => assert_eq!(u, "Usage: search <word>"),
        other => panic!("unexpected {:?}", other),
    }
    assert!(matches!(parse_interactive_line("help"), InteractiveCommand::Unknown));
}

#[test]
fn commands_training_sentences() {
    let code = "let camelCase = 1; // note";
    assert_eq!(
        training_sentences(code, true, "rust".to_string()),
        vec![vec!["let", "camel", "case"]]
    );
    assert_eq!(
        training_sentences("Hello there. Bye!", false, String::new()),
        vec![vec!["hello", "there"], vec!["bye"]]
    );
}
