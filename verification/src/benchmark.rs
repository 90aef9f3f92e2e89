//! Word-similarity benchmarks: their names and the layout of their files.
use vstd::prelude::*;

use crate::chars::{
    is_ascii_chars, chars_of, join_strings, join_with, lowercase, split_chars_on, split_on, str_eq,
    str_to_lowercase, string_of, trim, trim_chars,
};
use crate::code::{lines, split_lines};

verus! {

/// Built-in word similarity benchmark datasets shipped with the crate.
#[derive(Debug, Clone, Copy, PartialEq, Eq, Structural)]
pub enum BuiltinBenchmark {
    WordSim353,
    SimLex999,
    Men,
    Rw,
    Scws,
}

/// The benchmark a lowercased name or alias denotes.
pub open spec fn benchmark_named(l: Seq<char>) -> Option<BuiltinBenchmark> {
    if l == "wordsim353"@ || l == "wordsim-353"@ || l == "ws353"@ {
        Some(BuiltinBenchmark::WordSim353)
    } else if l == "simlex999"@ || l == "simlex-999"@ || l == "simlex"@ {
        Some(BuiltinBenchmark::SimLex999)
    } else if l == "men"@ || l == "men-tr-3k"@ {
        Some(BuiltinBenchmark::Men)
    } else if l == "rw"@ || l == "rw-stanford"@ || l == "rare-words"@ {
        Some(BuiltinBenchmark::Rw)
    } else if l == "scws"@ {
        Some(BuiltinBenchmark::Scws)
    } else {
        None
    }
}

/// The names of the built-in benchmarks, in the order they are listed.
pub open spec fn benchmark_names() -> Seq<Seq<char>> {
    seq!["wordsim353"@, "simlex999"@, "men"@, "rw"@, "scws"@]
}

/// Name law: every listed benchmark name parses back to its benchmark, and
/// the names are listed in the order of the variants.
pub proof fn lemma_listed_names_parse()
    ensures
        benchmark_named(lowercase(benchmark_names()[0])) == Some(BuiltinBenchmark::WordSim353),
        benchmark_named(lowercase(benchmark_names()[1])) == Some(BuiltinBenchmark::SimLex999),
        benchmark_named(lowercase(benchmark_names()[2])) == Some(BuiltinBenchmark::Men),
        benchmark_named(lowercase(benchmark_names()[3])) == Some(BuiltinBenchmark::Rw),
        benchmark_named(lowercase(benchmark_names()[4])) == Some(BuiltinBenchmark::Scws),
{
    reveal_strlit("wordsim353");
    reveal_strlit("wordsim-353");
    reveal_strlit("ws353");
    reveal_strlit("simlex999");
    reveal_strlit("simlex-999");
    reveal_strlit("simlex");
    reveal_strlit("men");
    reveal_strlit("men-tr-3k");
    reveal_strlit("rw");
    reveal_strlit("rw-stanford");
    reveal_strlit("rare-words");
    reveal_strlit("scws");
    let n = benchmark_names();
    assert forall|i: int| 0 <= i < 5 implies lowercase(#[trigger] n[i]) == n[i] by {
        assert(is_ascii_chars(n[i]));
        assert(lowercase(n[i]) =~= n[i]);
    }
}

impl BuiltinBenchmark {
    /// Parses a benchmark name (case-insensitive, accepts aliases like `wordsim353`).
    pub fn parse(name: &str) -> (r: Option<Self>)
        ensures
            r == benchmark_named(lowercase(name@)),
    {
        let l = str_to_lowercase(name);
        let s = l.as_str();
        if str_eq(s, "wordsim353") || str_eq(s, "wordsim-353") || str_eq(s, "ws353") {
            Some(BuiltinBenchmark::WordSim353)
        } else if str_eq(s, "simlex999") || str_eq(s, "simlex-999") || str_eq(s, "simlex") {
            Some(BuiltinBenchmark::SimLex999)
        } else if str_eq(s, "men") || str_eq(s, "men-tr-3k") {
            Some(BuiltinBenchmark::Men)
        } else if str_eq(s, "rw") || str_eq(s, "rw-stanford") || str_eq(s, "rare-words") {
            Some(BuiltinBenchmark::Rw)
        } else if str_eq(s, "scws") {
            Some(BuiltinBenchmark::Scws)
        } else {
            None
        }
    }

    /// Returns all supported built-in benchmark names.
    pub fn names() -> (r: &'static [&'static str])
        ensures
            r@.len() == 5,
            forall|i: int| 0 <= i < 5 ==> #[trigger] r@[i]@ == benchmark_names()[i],
    {
        let r: &'static [&'static str] = &["wordsim353", "simlex999", "men", "rw", "scws"];
        r
    }

    /// The name under which the benchmark's data file is stored.
    pub fn file_stem(self) -> (r: &'static str)
        ensures
            r@ == benchmark_names()[match self {
                BuiltinBenchmark::WordSim353 => 0int,
                BuiltinBenchmark::SimLex999 => 1,
                BuiltinBenchmark::Men => 2,
                BuiltinBenchmark::Rw => 3,
                BuiltinBenchmark::Scws => 4,
            }],
    {
        match self {
            BuiltinBenchmark::WordSim353 => "wordsim353",
            BuiltinBenchmark::SimLex999 => "simlex999",
            BuiltinBenchmark::Men => "men",
            BuiltinBenchmark::Rw => "rw",
            BuiltinBenchmark::Scws => "scws",
        }
    }
}

/// Evaluates embedding models against standard word similarity benchmarks
/// such as WordSim-353 or SimLex-999.
pub struct BenchmarkEvaluator;

/// One benchmark line cut into its fields: the two words, trimmed and
/// lowercased, and the score text, trimmed.
pub open spec fn record_of(parts: Seq<Seq<char>>) -> (Seq<char>, Seq<char>, Seq<char>) {
    (lowercase(trim(parts[0])), lowercase(trim(parts[1])), trim(parts[2]))
}

/// Whether a trimmed line carries a record: it is not empty, not a `#`
/// comment, and has at least three tab-separated fields.
pub open spec fn is_record_line(t: Seq<char>) -> bool {
    t.len() > 0 && t[0] != '#' && split_on(t, '\t').len() >= 3
}

/// The records of the lines, in order.
pub open spec fn records_of_lines(ls: Seq<Seq<char>>) -> Seq<(Seq<char>, Seq<char>, Seq<char>)>
    decreases ls.len(),
{
    if ls.len() == 0 {
        seq![]
    } else {
        let prev = records_of_lines(ls.drop_last());
        let t = trim(ls.last());
        if is_record_line(t) {
            prev.push(record_of(split_on(t, '\t')))
        } else {
            prev
        }
    }
}

/// The message for a benchmark name that is not known.
pub open spec fn unknown_benchmark_message(name: Seq<char>) -> Seq<char> {
    "Unknown benchmark '"@ + name + "'. Available: "@ + join_with(benchmark_names(), ", "@)
}

/// The concatenation of two strings.
fn concat_str(a: String, b: &str) -> (r: String)
    ensures
        r@ == a@ + b@,
{
    a.concat(b)
}

impl BenchmarkEvaluator {
    /// The built-in benchmark a name selects, or the message that lists the
    /// available ones.
    pub fn select_builtin(name: &str) -> (r: Result<BuiltinBenchmark, String>)
        ensures
            match r {
                Ok(b) => benchmark_named(lowercase(name@)) == Some(b),
                Err(e) => benchmark_named(lowercase(name@)) is None && e@
                    == unknown_benchmark_message(name@),
            },
    {
        match BuiltinBenchmark::parse(name) {
            Some(b) => Ok(b),
            None => {
                let names = BuiltinBenchmark::names();
                let mut owned: Vec<String> = Vec::new();
                let mut i: usize = 0;
                while i < names.len()
                    invariant
                        i <= names@.len(),
                        names@.len() == 5,
                        forall|k: int| 0 <= k < 5 ==> #[trigger] names@[k]@ == benchmark_names()[k],
                        owned.deep_view() =~= benchmark_names().take(i as int),
                    decreases names.len() - i,
                {
                    let ghost before = owned.deep_view();
                    owned.push(names[i].to_owned());
                    assert(owned.deep_view() =~= before.push(benchmark_names()[i as int]));
                    i = i + 1;
                }
                assert(benchmark_names().take(5) =~= benchmark_names());
                let listed = join_strings(&owned, ", ");
                let m = concat_str("Unknown benchmark '".to_owned(), name);
                let m = concat_str(m, "'. Available: ");
                let m = concat_str(m, listed.as_str());
                Err(m)
            },
        }
    }

    /// Cuts a TSV benchmark file, where each line is `word1\tword2\tscore`,
    /// into records. Blank lines and `#` comments are skipped, and so are
    /// lines with fewer than three fields; the score is left as text.
    pub fn tsv_records(text: &str) -> (r: Vec<(String, String, String)>)
        ensures
            r.deep_view() == records_of_lines(lines(text@)),
    {
        let cs = chars_of(text);
        let ls = split_lines(&cs);
        let ghost lv = ls.deep_view();
        let mut out: Vec<(String, String, String)> = Vec::new();
        let mut i: usize = 0;
        while i < ls.len()
            invariant
                i <= ls.len(),
                lv == ls.deep_view(),
                lv == lines(text@),
                out.deep_view() == records_of_lines(lv.take(i as int)),
            decreases ls.len() - i,
        {
            assert(lv.take(i + 1).drop_last() =~= lv.take(i as int));
            assert(ls[i as int].deep_view() =~= ls[i as int]@);
            let t = trim_chars(ls[i].as_slice());
            if t.len() > 0 && t[0] != '#' {
                let parts = split_chars_on(t.as_slice(), '\t');
                if parts.len() >= 3 {
                    let ghost pv = parts.deep_view();
                    assert(parts[0].deep_view() =~= parts[0]@);
                    assert(parts[1].deep_view() =~= parts[1]@);
                    assert(parts[2].deep_view() =~= parts[2]@);
                    let w1 = string_of(trim_chars(parts[0].as_slice()).as_slice());
                    let w2 = string_of(trim_chars(parts[1].as_slice()).as_slice());
                    let score = string_of(trim_chars(parts[2].as_slice()).as_slice());
                    let w1 = str_to_lowercase(w1.as_str());
                    let w2 = str_to_lowercase(w2.as_str());
                    let ghost before = out.deep_view();
                    out.push((w1, w2, score));
                    assert(out.deep_view() =~= before.push(record_of(pv)));
                }
            }
            i = i + 1;
        }
        assert(lv.take(i as int) =~= lv);
        out
    }
}

} // verus!
