//! The decisions of the command-line tool: which model, which export
//! format, which corpus reading, and what an interactive line asks for.
use vstd::prelude::*;

use crate::chars::{chars_of, str_eq, string_of, ws_split, split_whitespace_chars};
use crate::code::{load_code_data_advanced, CodeFlags, CodeProcessor};
use crate::config::ModelType;
use crate::text::{load_text_data, TextFilters};

verus! {

/// The model architecture a command-line name selects: `skipgram` or `cbow`.
pub fn parse_model_type(name: &str) -> (r: Option<ModelType>)
    ensures
        r == (if name@ == "skipgram"@ {
            Some(ModelType::SkipGram)
        } else if name@ == "cbow"@ {
            Some(ModelType::Cbow)
        } else {
            None::<ModelType>
        }),
{
    if str_eq(name, "skipgram") {
        Some(ModelType::SkipGram)
    } else if str_eq(name, "cbow") {
        Some(ModelType::Cbow)
    } else {
        None
    }
}

/// The formats embeddings can be exported in.
#[derive(Debug, Clone, Copy, PartialEq, Eq, Structural)]
pub enum ExportFormat {
    Text,
    Json,
    Bin,
    Word2Vec,
}

impl ExportFormat {
    /// The export format a command-line name selects: `text`, `json`, `bin`
    /// or `word2vec`.
    pub fn parse(name: &str) -> (r: Option<ExportFormat>)
        ensures
            r == (if name@ == "text"@ {
                Some(ExportFormat::Text)
            } else if name@ == "json"@ {
                Some(ExportFormat::Json)
            } else if name@ == "bin"@ {
                Some(ExportFormat::Bin)
            } else if name@ == "word2vec"@ {
                Some(ExportFormat::Word2Vec)
            } else {
                None::<ExportFormat>
            }),
    {
        if str_eq(name, "text") {
            Some(ExportFormat::Text)
        } else if str_eq(name, "json") {
            Some(ExportFormat::Json)
        } else if str_eq(name, "bin") {
            Some(ExportFormat::Bin)
        } else if str_eq(name, "word2vec") {
            Some(ExportFormat::Word2Vec)
        } else {
            None
        }
    }
}

/// The sentences a training run reads from its input: source code in the
/// given language (otherwise the default code settings), or plain text.
pub fn training_sentences(text: &str, is_code: bool, language: String) -> (r: Vec<Vec<String>>)
    ensures
        is_code ==> r.deep_view() == (CodeFlags {
            python: language@ == "python"@,
            remove_comments: true,
            remove_string_literals: true,
            split_camel_case: true,
            remove_numbers: true,
        }).process_code(text@),
        !is_code ==> r.deep_view() == TextFilters::standard().process_text(text@),
{
    if is_code {
        let processor = CodeProcessor { language, ..CodeProcessor::default() };
        load_code_data_advanced(text, &processor)
    } else {
        load_text_data(text)
    }
}

/// What a line typed in interactive mode asks for.
#[derive(Debug, Clone)]
pub enum InteractiveCommand {
    /// Nothing but whitespace: ask again.
    Blank,
    /// `quit` or `exit`.
    Quit,
    /// `sim <word1> <word2>`.
    Similarity(String, String),
    /// `analogy <a> <b> <c>`.
    Analogy(String, String, String),
    /// `search <word>`.
    Search(String),
    /// A known command with too few words: the usage line to print.
    Usage(String),
    /// Anything else.
    Unknown,
}

/// The usage line of an interactive command given too few words.
pub open spec fn usage_of(command: Seq<char>) -> Seq<char> {
    if command == "sim"@ {
        "Usage: sim <word1> <word2>"@
    } else if command == "analogy"@ {
        "Usage: analogy <word1> <word2> <word3>"@
    } else {
        "Usage: search <word>"@
    }
}

/// How many words, the command included, an interactive command needs.
pub open spec fn words_needed(command: Seq<char>) -> nat {
    if command == "sim"@ {
        3
    } else if command == "analogy"@ {
        4
    } else {
        2
    }
}

/// The command an interactive line asks for, read from its
/// whitespace-separated words: the first names the command, the next ones
/// are its words, and words beyond those are ignored.
pub open spec fn interactive_meaning(line: Seq<char>, r: InteractiveCommand) -> bool {
    let parts = ws_split(line);
    if parts.len() == 0 {
        r is Blank
    } else if parts[0] == "quit"@ || parts[0] == "exit"@ {
        r is Quit
    } else if parts[0] == "sim"@ || parts[0] == "analogy"@ || parts[0] == "search"@ {
        if parts.len() < words_needed(parts[0]) {
            r matches InteractiveCommand::Usage(u) && u@ == usage_of(parts[0])
        } else if parts[0] == "sim"@ {
            r matches InteractiveCommand::Similarity(a, b) && a@ == parts[1] && b@ == parts[2]
        } else if parts[0] == "analogy"@ {
            r matches InteractiveCommand::Analogy(a, b, c) && a@ == parts[1] && b@ == parts[2]
                && c@ == parts[3]
        } else {
            r matches InteractiveCommand::Search(w) && w@ == parts[1]
        }
    } else {
        r is Unknown
    }
}

/// Reads an interactive line.
pub fn parse_interactive_line(line: &str) -> (r: InteractiveCommand)
    ensures
        interactive_meaning(line@, r),
{
    let cs = chars_of(line);
    let parts = split_whitespace_chars(&cs);
    let ghost pv = parts.deep_view();
    assert(pv == ws_split(line@));
    if parts.len() == 0 {
        return InteractiveCommand::Blank;
    }
    assert forall|k: int| 0 <= k < parts@.len() implies #[trigger] parts@[k]@ == pv[k] by {
        assert(parts@[k].deep_view() =~= parts@[k]@);
    }
    let head = string_of(parts[0].as_slice());
    assert(head@ == pv[0]);
    let n = parts.len();
    proof {
        reveal_strlit("sim");
        reveal_strlit("analogy");
        reveal_strlit("search");
        reveal_strlit("quit");
        reveal_strlit("exit");
    }
    if str_eq(head.as_str(), "quit") || str_eq(head.as_str(), "exit") {
        InteractiveCommand::Quit
    } else if str_eq(head.as_str(), "sim") {
        if n >= 3 {
            let a = string_of(parts[1].as_slice());
            let b = string_of(parts[2].as_slice());
            InteractiveCommand::Similarity(a, b)
        } else {
            InteractiveCommand::Usage("Usage: sim <word1> <word2>".to_owned())
        }
    } else if str_eq(head.as_str(), "analogy") {
        if n >= 4 {
            let a = string_of(parts[1].as_slice());
            let b = string_of(parts[2].as_slice());
            let c = string_of(parts[3].as_slice());
            InteractiveCommand::Analogy(a, b, c)
        } else {
            InteractiveCommand::Usage("Usage: analogy <word1> <word2> <word3>".to_owned())
        }
    } else if str_eq(head.as_str(), "search") {
        if n >= 2 {
            let w = string_of(parts[1].as_slice());
            InteractiveCommand::Search(w)
        } else {
            InteractiveCommand::Usage("Usage: search <word>".to_owned())
        }
    } else {
        InteractiveCommand::Unknown
    }
}

} // verus!
