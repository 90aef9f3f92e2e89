//! Source-code preprocessing: comment and literal stripping, identifier
//! tokenization and camelCase splitting.
use vstd::prelude::*;

use crate::chars::{
    ascii_lower_char, char_is_alphanumeric, chars_of, is_alnum, is_ascii_char, is_ascii_chars,
    is_ascii_digit, is_ascii_digit_exec, is_ascii_lower, is_ascii_lower_exec, is_ascii_upper,
    is_ascii_upper_exec, lowercase, split_chars_on, split_on, split_state, str_eq,
    str_to_lowercase, string_of, utf8_len, utf8_len_exceeds,
};

verus! {

/// Processes source code into tokenized sentences for embedding training.
///
/// Strips comments and string literals, tokenizes identifiers/keywords,
/// and optionally splits camelCase / PascalCase names into sub-words.
#[derive(Debug, Clone)]
pub struct CodeProcessor {
    /// Target language hint (e.g. "rust", "python", "javascript").
    /// Affects comment syntax when `remove_comments` is true.
    pub language: String,
    pub remove_comments: bool,
    pub remove_string_literals: bool,
    pub split_camel_case: bool,
    pub remove_numbers: bool,
}

impl Default for CodeProcessor {
    fn default() -> (p: Self)
        ensures
            p.language@ == "rust"@,
            p.remove_comments,
            p.remove_string_literals,
            p.split_camel_case,
            p.remove_numbers,
    {
        Self {
            language: "rust".to_owned(),
            remove_comments: true,
            remove_string_literals: true,
            split_camel_case: true,
            remove_numbers: true,
        }
    }
}

// ---------------------------------------------------------------------------
// Comment and literal stripping
// ---------------------------------------------------------------------------

/// The position of the line feed that ends the line at `j`, or the end of the text.
pub open spec fn scan_line_end(c: Seq<char>, j: int) -> int
    decreases c.len() - j,
{
    if 0 <= j < c.len() && c[j] != '\n' {
        scan_line_end(c, j + 1)
    } else {
        j
    }
}

/// From `j`, the position of the `*` of the next `*/`, or the last position
/// when there is none.
pub open spec fn scan_block_end(c: Seq<char>, j: int) -> int
    decreases c.len() - j,
{
    if 0 <= j && j + 1 < c.len() && !(c[j] == '*' && c[j + 1] == '/') {
        scan_block_end(c, j + 1)
    } else {
        j
    }
}

/// From `j` inside a literal opened by `quote`, the position just past the
/// closing quote (backslash escapes skip a character), or the end of the text.
pub open spec fn scan_literal_end(c: Seq<char>, j: int, quote: char) -> int
    decreases c.len() - j,
{
    if j < 0 || j >= c.len() {
        j
    } else if c[j] == '\\' && j + 1 < c.len() {
        scan_literal_end(c, j + 2, quote)
    } else if c[j] == quote {
        j + 1
    } else {
        scan_literal_end(c, j + 1, quote)
    }
}

/// The end of a line comment lies between its start and the end of the code,
/// and past the start when a character other than a line feed is there.
pub proof fn lemma_scan_line_end(c: Seq<char>, j: int)
    requires
        0 <= j <= c.len(),
    ensures
        j <= scan_line_end(c, j) <= c.len(),
        j < c.len() && c[j] != '\n' ==> scan_line_end(c, j) > j,
    decreases c.len() - j,
{
    if j < c.len() && c[j] != '\n' {
        lemma_scan_line_end(c, j + 1);
    }
}

/// The end of a block comment lies between its start and the end of the code.
pub proof fn lemma_scan_block_end(c: Seq<char>, j: int)
    requires
        0 <= j <= c.len(),
    ensures
        j <= scan_block_end(c, j) <= c.len(),
    decreases c.len() - j,
{
    if j + 1 < c.len() && !(c[j] == '*' && c[j + 1] == '/') {
        lemma_scan_block_end(c, j + 1);
    }
}

/// The end of a quoted literal lies between its start and the end of the code.
pub proof fn lemma_scan_literal_end(c: Seq<char>, j: int, quote: char)
    requires
        0 <= j <= c.len(),
    ensures
        j <= scan_literal_end(c, j, quote) <= c.len(),
    decreases c.len() - j,
{
    if j < c.len() {
        if c[j] == '\\' && j + 1 < c.len() {
            lemma_scan_literal_end(c, j + 2, quote);
        } else if c[j] != quote {
            lemma_scan_literal_end(c, j + 1, quote);
        }
    }
}

/// Literal law: a literal opened by `quote` ends just past the first
/// `quote` that no backslash escapes. Scanning from `j`, the end is either
/// the end of the code or the position right after a `quote`, and every
/// `quote` passed over on the way follows a backslash; a different quote
/// character does not end the literal.
pub proof fn lemma_literal_end(c: Seq<char>, j: int, quote: char)
    requires
        0 <= j <= c.len(),
        quote != '\\',
    ensures
        scan_literal_end(c, j, quote) == c.len() || (j < scan_literal_end(c, j, quote)
            && c[scan_literal_end(c, j, quote) - 1] == quote),
        forall|k: int|
            j <= k < scan_literal_end(c, j, quote) - 1 && #[trigger] c[k] == quote ==> k > j
                && c[k - 1] == '\\',
    decreases c.len() - j,
{
    lemma_scan_literal_end(c, j, quote);
    if j < c.len() {
        if c[j] == '\\' && j + 1 < c.len() {
            lemma_literal_end(c, j + 2, quote);
        } else if c[j] != quote {
            lemma_literal_end(c, j + 1, quote);
        }
    }
}

/// The code from position `i` on, without comments (`//` and `/* */`, and `#`
/// lines when `python`) when `comments`, and without quoted literals when
/// `strings`.
pub open spec fn strip_from(c: Seq<char>, i: int, python: bool, comments: bool, strings: bool) -> Seq<
    char,
>
    decreases c.len() + 2 - i,
{
    if i < 0 || i >= c.len() {
        seq![]
    } else if comments && c[i] == '/' && i + 1 < c.len() && c[i + 1] == '*' {
        proof {
            lemma_scan_block_end(c, i + 2);
        }
        strip_from(c, scan_block_end(c, i + 2) + 2, python, comments, strings)
    } else if comments && c[i] == '/' && i + 1 < c.len() && c[i + 1] == '/' {
        proof {
            lemma_scan_line_end(c, i);
        }
        strip_from(c, scan_line_end(c, i), python, comments, strings)
    } else if comments && python && c[i] == '#' {
        proof {
            lemma_scan_line_end(c, i);
        }
        strip_from(c, scan_line_end(c, i), python, comments, strings)
    } else if strings && (c[i] == '"' || c[i] == '\'') {
        proof {
            lemma_scan_literal_end(c, i + 1, c[i]);
        }
        strip_from(c, scan_literal_end(c, i + 1, c[i]), python, comments, strings)
    } else {
        seq![c[i]] + strip_from(c, i + 1, python, comments, strings)
    }
}

// ---------------------------------------------------------------------------
// Lines
// ---------------------------------------------------------------------------

/// A line without the carriage return that ended it.
pub open spec fn without_cr(s: Seq<char>) -> Seq<char> {
    if s.len() > 0 && s.last() == '\r' {
        s.drop_last()
    } else {
        s
    }
}

/// Left-to-right state of line splitting: finished lines and the line being read.
pub open spec fn lines_state(s: Seq<char>) -> (Seq<Seq<char>>, Seq<char>)
    decreases s.len(),
{
    if s.len() == 0 {
        (seq![], seq![])
    } else {
        let (done, cur) = lines_state(s.drop_last());
        if s.last() == '\n' {
            (done.push(without_cr(cur)), seq![])
        } else {
            (done, cur.push(s.last()))
        }
    }
}

/// `str::lines`: the lines ended by `\n` or `\r\n`; a last line without a line
/// feed counts when it is non-empty.
pub open spec fn lines(s: Seq<char>) -> Seq<Seq<char>> {
    let (done, cur) = lines_state(s);
    if cur.len() > 0 {
        done.push(cur)
    } else {
        done
    }
}

/// The lines of a text, as `str::lines` gives them.
pub fn split_lines(cs: &[char]) -> (r: Vec<Vec<char>>)
    ensures
        r.deep_view() == lines(cs@),
{
    let mut done: Vec<Vec<char>> = Vec::new();
    let mut cur: Vec<char> = Vec::new();
    let mut i: usize = 0;
    while i < cs.len()
        invariant
            i <= cs.len(),
            (done.deep_view(), cur@) == lines_state(cs@.take(i as int)),
        decreases cs.len() - i,
    {
        assert(cs@.take(i + 1).drop_last() =~= cs@.take(i as int));
        let c = cs[i];
        if c == '\n' {
            if cur.len() > 0 && cur[cur.len() - 1] == '\r' {
                cur.pop();
            }
            let ghost before = done.deep_view();
            let ghost line = cur@;
            assert(cur.deep_view() =~= cur@);
            done.push(cur);
            cur = Vec::new();
            assert(done.deep_view() =~= before.push(line));
        } else {
            cur.push(c);
        }
        i = i + 1;
    }
    assert(cs@.take(i as int) =~= cs@);
    if cur.len() > 0 {
        let ghost before = done.deep_view();
        assert(cur.deep_view() =~= cur@);
        done.push(cur);
        assert(done.deep_view() =~= before.push(lines_state(cs@).1));
    }
    done
}

// ---------------------------------------------------------------------------
// camelCase splitting
// ---------------------------------------------------------------------------

/// After reading the first `n` characters of `s`: the finished parts and the part being read.
pub open spec fn camel_state(s: Seq<char>, n: int) -> (Seq<Seq<char>>, Seq<char>)
    decreases n,
{
    if n <= 0 {
        (seq![], seq![])
    } else {
        let (parts, cur) = camel_state(s, n - 1);
        let i = n - 1;
        let ch = s[i];
        if is_ascii_upper(ch) && cur.len() > 0 {
            let prev_is_upper = i > 0 && is_ascii_upper(s[i - 1]);
            let next_is_lower = i + 1 < s.len() && is_ascii_lower(s[i + 1]);
            if (prev_is_upper && next_is_lower && utf8_len(cur) > 1) || !prev_is_upper {
                (parts.push(lowercase(cur)), seq![ch])
            } else {
                (parts, cur.push(ch))
            }
        } else {
            (parts, cur.push(ch))
        }
    }
}

/// The non-empty pieces, lowercased, in order.
pub open spec fn lowered_pieces(ps: Seq<Seq<char>>) -> Seq<Seq<char>>
    decreases ps.len(),
{
    if ps.len() == 0 {
        seq![]
    } else if ps.last().len() > 0 {
        lowered_pieces(ps.drop_last()).push(lowercase(ps.last()))
    } else {
        lowered_pieces(ps.drop_last())
    }
}

/// Splits an identifier into lowercase sub-words: a snake_case identifier
/// (one holding `_`) at its underscores, empty pieces dropped; any other at
/// its camelCase or PascalCase boundaries, one of at most two bytes staying
/// whole.
pub open spec fn split_camel_case_spec(s: Seq<char>) -> Seq<Seq<char>> {
    if s.contains('_') {
        lowered_pieces(split_on(s, '_'))
    } else if utf8_len(s) <= 2 {
        seq![lowercase(s)]
    } else {
        let (parts, cur) = camel_state(s, s.len() as int);
        if cur.len() > 0 {
            parts.push(lowercase(cur))
        } else {
            parts
        }
    }
}

/// Splits a camelCase or PascalCase identifier into sub-words.
///
/// Examples:
/// - `camelCase` → `["camel", "case"]`
/// - `PascalCase` → `["pascal", "case"]`
/// - `HTTPResponse` → `["http", "response"]`
/// - `snake_case` → `["snake", "case"]`
pub fn split_camel_case(input: &str) -> (r: Vec<String>)
    ensures
        r.deep_view() == split_camel_case_spec(input@),
{
    let chars = chars_of(input);
    let mut has_underscore = false;
    let mut k: usize = 0;
    while k < chars.len()
        invariant
            k <= chars.len(),
            chars@ == input@,
            has_underscore == chars@.take(k as int).contains('_'),
        decreases chars.len() - k,
    {
        assert(chars@.take(k + 1) =~= chars@.take(k as int).push(chars@[k as int]));
        if chars[k] == '_' {
            assert(chars@.take(k + 1)[k as int] == '_');
            has_underscore = true;
        }
        k = k + 1;
    }
    assert(chars@.take(k as int) =~= chars@);
    if has_underscore {
        let pieces = split_chars_on(chars.as_slice(), '_');
        let ghost pv = pieces.deep_view();
        let mut v: Vec<String> = Vec::new();
        let mut k: usize = 0;
        while k < pieces.len()
            invariant
                k <= pieces.len(),
                pv == pieces.deep_view(),
                pv == split_on(input@, '_'),
                v.deep_view() == lowered_pieces(pv.take(k as int)),
            decreases pieces.len() - k,
        {
            assert(pv.take(k + 1).drop_last() =~= pv.take(k as int));
            assert(pieces[k as int]@ == pv[k as int]);
            if pieces[k].len() > 0 {
                let s = string_of(pieces[k].as_slice());
                let low = str_to_lowercase(s.as_str());
                let ghost before = v.deep_view();
                v.push(low);
                assert(v.deep_view() =~= before.push(lowercase(pv[k as int])));
            }
            k = k + 1;
        }
        assert(pv.take(k as int) =~= pv);
        return v;
    }
    if !utf8_len_exceeds(&chars, 2) {
        let mut v: Vec<String> = Vec::new();
        v.push(str_to_lowercase(input));
        assert(v.deep_view() =~= seq![lowercase(input@)]);
        return v;
    }
    let mut result: Vec<String> = Vec::new();
    let mut current: Vec<char> = Vec::new();
    let mut i: usize = 0;
    while i < chars.len()
        invariant
            i <= chars.len(),
            chars@ == input@,
            (result.deep_view(), current@) == camel_state(chars@, i as int),
        decreases chars.len() - i,
    {
        let ch = chars[i];
        if is_ascii_upper_exec(ch) && current.len() > 0 {
            let prev_is_upper = i > 0 && is_ascii_upper_exec(chars[i - 1]);
            let next_is_lower = i + 1 < chars.len() && is_ascii_lower_exec(chars[i + 1]);
            let cur_long = utf8_len_exceeds(&current, 1);
            if (prev_is_upper && next_is_lower && cur_long) || !prev_is_upper {
                let s = string_of(&current);
                let low = str_to_lowercase(s.as_str());
                let ghost before = result.deep_view();
                result.push(low);
                assert(result.deep_view() =~= before.push(lowercase(current@)));
                current = Vec::new();
                current.push(ch);
                assert(current@ =~= seq![ch]);
            } else {
                current.push(ch);
            }
        } else {
            current.push(ch);
        }
        i = i + 1;
    }
    if current.len() > 0 {
        let s = string_of(&current);
        let low = str_to_lowercase(s.as_str());
        let ghost before = result.deep_view();
        result.push(low);
        assert(result.deep_view() =~= before.push(lowercase(current@)));
    }
    result
}

// ---------------------------------------------------------------------------
// Tokens
// ---------------------------------------------------------------------------

/// Characters that belong to identifiers: letters, digits and `_`.
pub open spec fn is_ident_char(c: char) -> bool {
    is_alnum(c) || c == '_'
}

pub open spec fn all_ascii_digits(s: Seq<char>) -> bool {
    forall|i: int| 0 <= i < s.len() ==> is_ascii_digit(#[trigger] s[i])
}

/// The parts of `parts` that satisfy `valid`, in order.
pub open spec fn valid_parts(p: CodeFlags, parts: Seq<Seq<char>>) -> Seq<Seq<char>>
    decreases parts.len(),
{
    if parts.len() == 0 {
        seq![]
    } else if p.is_valid_token(parts.last()) {
        valid_parts(p, parts.drop_last()).push(parts.last())
    } else {
        valid_parts(p, parts.drop_last())
    }
}

/// The switches of a [`CodeProcessor`] that decide what its pipeline does.
pub struct CodeFlags {
    pub python: bool,
    pub remove_comments: bool,
    pub remove_string_literals: bool,
    pub split_camel_case: bool,
    pub remove_numbers: bool,
}

impl CodeFlags {
    /// A token is kept when it has between one and 64 bytes and, if numbers
    /// are removed, is not made of ASCII digits only.
    pub open spec fn is_valid_token(self, t: Seq<char>) -> bool {
        &&& t.len() > 0
        &&& utf8_len(t) <= 64
        &&& !(self.remove_numbers && all_ascii_digits(t))
    }

    /// The tokens that one identifier run contributes.
    pub open spec fn run_tokens(self, raw: Seq<char>) -> Seq<Seq<char>> {
        if utf8_len(raw) > 1 && self.split_camel_case {
            valid_parts(self, split_camel_case_spec(raw))
        } else if self.is_valid_token(raw) {
            seq![raw]
        } else {
            seq![]
        }
    }

    /// Left-to-right state of line tokenization: the tokens so far and the
    /// identifier run being read.
    pub open spec fn tokenize_state(self, line: Seq<char>) -> (Seq<Seq<char>>, Seq<char>)
        decreases line.len(),
    {
        if line.len() == 0 {
            (seq![], seq![])
        } else {
            let (toks, cur) = self.tokenize_state(line.drop_last());
            let ch = line.last();
            if is_ident_char(ch) {
                (toks, cur.push(ch))
            } else if cur.len() > 0 {
                (toks + self.run_tokens(cur), seq![])
            } else {
                (toks, cur)
            }
        }
    }

    /// The tokens of one line: its identifier runs, each turned into tokens.
    pub open spec fn tokenize_line(self, line: Seq<char>) -> Seq<Seq<char>> {
        let (toks, cur) = self.tokenize_state(line);
        if cur.len() > 0 {
            toks + self.run_tokens(cur)
        } else {
            toks
        }
    }

    /// The token lists of the lines that have at least one token.
    pub open spec fn sentences_of(self, ls: Seq<Seq<char>>) -> Seq<Seq<Seq<char>>>
        decreases ls.len(),
    {
        if ls.len() == 0 {
            seq![]
        } else if self.tokenize_line(ls.last()).len() > 0 {
            self.sentences_of(ls.drop_last()).push(self.tokenize_line(ls.last()))
        } else {
            self.sentences_of(ls.drop_last())
        }
    }

    /// The code after comment removal and literal removal, each when switched on.
    pub open spec fn cleaned(self, code: Seq<char>) -> Seq<char> {
        if self.remove_comments || self.remove_string_literals {
            strip_from(code, 0, self.python, self.remove_comments, self.remove_string_literals)
        } else {
            code
        }
    }

    /// The tokenized sentences of a piece of source code, one per line with tokens.
    pub open spec fn process_code(self, code: Seq<char>) -> Seq<Seq<Seq<char>>> {
        self.sentences_of(lines(self.cleaned(code)))
    }

    /// The switches of the default processor (Rust, everything on).
    pub open spec fn standard() -> CodeFlags {
        CodeFlags {
            python: false,
            remove_comments: true,
            remove_string_literals: true,
            split_camel_case: true,
            remove_numbers: true,
        }
    }
}

impl CodeProcessor {
    /// The switches that decide what the pipeline does; `#` starts a comment
    /// only for `python`.
    pub open spec fn flags(&self) -> CodeFlags {
        CodeFlags {
            python: self.language@ == "python"@,
            remove_comments: self.remove_comments,
            remove_string_literals: self.remove_string_literals,
            split_camel_case: self.split_camel_case,
            remove_numbers: self.remove_numbers,
        }
    }

    /// Converts raw source code into tokenized sentences (one per logical line).
    pub fn process_code(&self, code: &str) -> (r: Vec<Vec<String>>)
        ensures
            r.deep_view() == self.flags().process_code(code@),
    {
        let cleaned = if self.remove_comments || self.remove_string_literals {
            self.strip_comments(code)
        } else {
            code.to_owned()
        };
        let ghost f = self.flags();
        let cs = chars_of(cleaned.as_str());
        let mut sentences: Vec<Vec<String>> = Vec::new();
        let mut cur: Vec<char> = Vec::new();
        let mut i: usize = 0;
        while i < cs.len()
            invariant
                i <= cs.len(),
                f == self.flags(),
                sentences.deep_view() == f.sentences_of(lines_state(cs@.take(i as int)).0),
                cur@ == lines_state(cs@.take(i as int)).1,
            decreases cs.len() - i,
        {
            assert(cs@.take(i + 1).drop_last() =~= cs@.take(i as int));
            let c = cs[i];
            if c == '\n' {
                let ghost done = lines_state(cs@.take(i as int)).0;
                if cur.len() > 0 && cur[cur.len() - 1] == '\r' {
                    cur.pop();
                }
                let ghost line = cur@;
                assert(done.push(line).drop_last() =~= done);
                let toks = self.tokenize_line(&cur);
                let ghost old_s = sentences.deep_view();
                if toks.len() > 0 {
                    sentences.push(toks);
                    assert(sentences.deep_view() =~= old_s.push(f.tokenize_line(line)));
                }
                cur = Vec::new();
            } else {
                cur.push(c);
            }
            i = i + 1;
        }
        assert(cs@.take(i as int) =~= cs@);
        if cur.len() > 0 {
            let ghost done = lines_state(cs@).0;
            assert(done.push(cur@).drop_last() =~= done);
            let toks = self.tokenize_line(&cur);
            let ghost old_s = sentences.deep_view();
            if toks.len() > 0 {
                sentences.push(toks);
                assert(sentences.deep_view() =~= old_s.push(f.tokenize_line(cur@)));
            }
        }
        sentences
    }

    /// The code without comments and without string literals, each when switched on.
    fn strip_comments(&self, code: &str) -> (r: String)
        ensures
            r@ == strip_from(
                code@,
                0,
                self.flags().python,
                self.remove_comments,
                self.remove_string_literals,
            ),
    {
        let python = str_eq(self.language.as_str(), "python");
        let strings = self.remove_string_literals;
        let comments = self.remove_comments;
        let chars = chars_of(code);
        let n = chars.len();
        let ghost c = chars@;
        let mut result: Vec<char> = Vec::new();
        let mut i: usize = 0;
        while i < n
            invariant
                n == chars.len(),
                c == chars@,
                i <= n,
                strip_from(c, 0, python, comments, strings) == result@ + strip_from(c, i as int, python, comments, strings),
            decreases n - i,
        {
            if comments && chars[i] == '/' && i + 1 < n && chars[i + 1] == '*' {
                let mut j: usize = i + 2;
                proof {
                    lemma_scan_block_end(c, j as int);
                }
                while j < n - 1 && !(chars[j] == '*' && chars[j + 1] == '/')
                    invariant
                        n == chars.len(),
                        c == chars@,
                        i + 2 <= j <= n,
                        scan_block_end(c, i + 2) == scan_block_end(c, j as int),
                    decreases n - j,
                {
                    j = j + 1;
                }
                assert(scan_block_end(c, j as int) == j);
                assert(strip_from(c, i as int, python, comments, strings) == strip_from(
                    c,
                    j + 2,
                    python,
                    comments,
                    strings,
                ));
                if j < n - 1 {
                    i = j + 2;
                } else {
                    assert(strip_from(c, j + 2, python, comments, strings) == Seq::<char>::empty());
                    assert(strip_from(c, n as int, python, comments, strings) == Seq::<char>::empty());
                    i = n;
                }
                continue;
            }
            if comments && chars[i] == '/' && i + 1 < n && chars[i + 1] == '/' {
                let mut j: usize = i;
                while j < n && chars[j] != '\n'
                    invariant
                        n == chars.len(),
                        c == chars@,
                        i <= j <= n,
                        scan_line_end(c, i as int) == scan_line_end(c, j as int),
                    decreases n - j,
                {
                    j = j + 1;
                }
                i = j;
                continue;
            }
            if comments && python && chars[i] == '#' {
                let mut j: usize = i;
                while j < n && chars[j] != '\n'
                    invariant
                        n == chars.len(),
                        c == chars@,
                        i <= j <= n,
                        scan_line_end(c, i as int) == scan_line_end(c, j as int),
                    decreases n - j,
                {
                    j = j + 1;
                }
                i = j;
                continue;
            }
            if strings && (chars[i] == '"' || chars[i] == '\'') {
                let quote = chars[i];
                let mut j: usize = i + 1;
                let mut closed = false;
                proof {
                    lemma_scan_literal_end(c, i + 1, quote);
                }
                while !closed && j < n
                    invariant
                        n == chars.len(),
                        c == chars@,
                        i + 1 <= j <= n,
                        scan_literal_end(c, i + 1, quote) == if closed {
                            j as int
                        } else {
                            scan_literal_end(c, j as int, quote)
                        },
                    decreases n - j,
                {
                    if chars[j] == '\\' && j + 1 < n {
                        j = j + 2;
                    } else if chars[j] == quote {
                        j = j + 1;
                        closed = true;
                    } else {
                        j = j + 1;
                    }
                }
                assert(strip_from(c, i as int, python, comments, strings) == strip_from(
                    c,
                    j as int,
                    python,
                    comments,
                    strings,
                ));
                i = j;
                continue;
            }
            result.push(chars[i]);
            i = i + 1;
            assert(result@ + strip_from(c, i as int, python, comments, strings) =~= result@.drop_last() + (
            seq![c[i - 1]] + strip_from(c, i as int, python, comments, strings)));
        }
        string_of(&result)
    }

    /// The tokens of one line: identifier runs, each split and filtered.
    fn tokenize_line(&self, line: &[char]) -> (r: Vec<String>)
        ensures
            r.deep_view() == self.flags().tokenize_line(line@),
    {
        let ghost f = self.flags();
        let mut tokens: Vec<String> = Vec::new();
        let mut current: Vec<char> = Vec::new();
        let mut i: usize = 0;
        while i < line.len()
            invariant
                i <= line.len(),
                f == self.flags(),
                (tokens.deep_view(), current@) == f.tokenize_state(line@.take(i as int)),
            decreases line.len() - i,
        {
            assert(line@.take(i + 1).drop_last() =~= line@.take(i as int));
            let ch = line[i];
            if char_is_alphanumeric(ch) || ch == '_' {
                current.push(ch);
            } else if current.len() > 0 {
                self.push_token(&mut tokens, &current);
                current = Vec::new();
            }
            i = i + 1;
        }
        assert(line@.take(i as int) =~= line@);
        if current.len() > 0 {
            self.push_token(&mut tokens, &current);
        }
        tokens
    }

    /// Appends the tokens of one identifier run.
    fn push_token(&self, out: &mut Vec<String>, raw: &[char])
        ensures
            final(out).deep_view() == old(out).deep_view() + self.flags().run_tokens(raw@),
    {
        let ghost f = self.flags();
        let ghost base = out.deep_view();
        if utf8_len_exceeds(raw, 1) && self.split_camel_case {
            let s = string_of(raw);
            let parts = split_camel_case(s.as_str());
            let ghost pv = parts.deep_view();
            let mut k: usize = 0;
            while k < parts.len()
                invariant
                    k <= parts.len(),
                    pv == parts.deep_view(),
                    f == self.flags(),
                    out.deep_view() == base + valid_parts(f, pv.take(k as int)),
                decreases parts.len() - k,
            {
                assert(pv.take(k + 1).drop_last() =~= pv.take(k as int));
                let part = parts[k].as_str();
                assert(part@ == pv[k as int]);
                if self.is_valid_token(part) {
                    let ghost before = out.deep_view();
                    out.push(part.to_owned());
                    assert(out.deep_view() =~= before.push(pv[k as int]));
                }
                k = k + 1;
            }
            assert(pv.take(k as int) =~= pv);
        } else {
            let s = string_of(raw);
            if self.is_valid_token(s.as_str()) {
                out.push(s);
                assert(out.deep_view() =~= base + seq![raw@]);
            } else {
                assert(out.deep_view() =~= base + Seq::<Seq<char>>::empty());
            }
        }
    }

    /// Whether a candidate token is kept.
    fn is_valid_token(&self, token: &str) -> (r: bool)
        ensures
            r == self.flags().is_valid_token(token@),
    {
        let cs = chars_of(token);
        if cs.len() == 0 || utf8_len_exceeds(&cs, 64) {
            return false;
        }
        if self.remove_numbers {
            let mut all_digits = true;
            let mut i: usize = 0;
            while i < cs.len()
                invariant
                    i <= cs.len(),
                    all_digits == all_ascii_digits(cs@.take(i as int)),
                decreases cs.len() - i,
            {
                if !is_ascii_digit_exec(cs[i]) {
                    assert(!is_ascii_digit(cs@.take(i + 1)[i as int]));
                    all_digits = false;
                }
                i = i + 1;
            }
            assert(cs@.take(i as int) =~= cs@);
            if all_digits {
                return false;
            }
        }
        true
    }
}

// ---------------------------------------------------------------------------
// Tokens of ASCII code
// ---------------------------------------------------------------------------

/// An ASCII identifier character: an ASCII letter or digit, or `_`.
pub open spec fn is_ascii_ident_char(c: char) -> bool {
    is_ascii_char(c) && is_ident_char(c)
}

/// Every character is an ASCII letter or digit, or `_`.
pub open spec fn ascii_ident(t: Seq<char>) -> bool {
    forall|k: int| 0 <= k < t.len() ==> is_ascii_ident_char(#[trigger] t[k])
}

/// Every token of the list is made of ASCII identifier characters.
pub open spec fn ascii_ident_tokens(ts: Seq<Seq<char>>) -> bool {
    forall|j: int| 0 <= j < ts.len() ==> ascii_ident(#[trigger] ts[j])
}

proof fn lemma_ident_tokens_concat(a: Seq<Seq<char>>, b: Seq<Seq<char>>)
    requires
        ascii_ident_tokens(a),
        ascii_ident_tokens(b),
    ensures
        ascii_ident_tokens(a + b),
{
    assert forall|j: int| 0 <= j < (a + b).len() implies ascii_ident(#[trigger] (a + b)[j]) by {
        if j < a.len() {
            assert((a + b)[j] == a[j]);
        } else {
            assert((a + b)[j] == b[j - a.len()]);
        }
    }
}

proof fn lemma_strip_from_ascii(c: Seq<char>, i: int, python: bool, comments: bool, strings: bool)
    requires
        is_ascii_chars(c),
    ensures
        is_ascii_chars(strip_from(c, i, python, comments, strings)),
    decreases c.len() + 2 - i,
{
    if i < 0 || i >= c.len() {
    } else if comments && c[i] == '/' && i + 1 < c.len() && c[i + 1] == '*' {
        lemma_scan_block_end(c, i + 2);
        lemma_strip_from_ascii(c, scan_block_end(c, i + 2) + 2, python, comments, strings);
    } else if comments && c[i] == '/' && i + 1 < c.len() && c[i + 1] == '/' {
        lemma_scan_line_end(c, i);
        lemma_strip_from_ascii(c, scan_line_end(c, i), python, comments, strings);
    } else if comments && python && c[i] == '#' {
        lemma_scan_line_end(c, i);
        lemma_strip_from_ascii(c, scan_line_end(c, i), python, comments, strings);
    } else if strings && (c[i] == '"' || c[i] == '\'') {
        lemma_scan_literal_end(c, i + 1, c[i]);
        lemma_strip_from_ascii(c, scan_literal_end(c, i + 1, c[i]), python, comments, strings);
    } else {
        lemma_strip_from_ascii(c, i + 1, python, comments, strings);
        let rest = strip_from(c, i + 1, python, comments, strings);
        let r = seq![c[i]] + rest;
        assert forall|k: int| 0 <= k < r.len() implies is_ascii_char(#[trigger] r[k]) by {
            if k > 0 {
                assert(r[k] == rest[k - 1]);
            }
        }
    }
}

proof fn lemma_lines_state_ascii(s: Seq<char>)
    requires
        is_ascii_chars(s),
    ensures
        forall|j: int| 0 <= j < lines_state(s).0.len() ==> is_ascii_chars(#[trigger] lines_state(s).0[j]),
        is_ascii_chars(lines_state(s).1),
    decreases s.len(),
{
    if s.len() > 0 {
        let init = s.drop_last();
        assert forall|k: int| 0 <= k < init.len() implies is_ascii_char(#[trigger] init[k]) by {
            assert(init[k] == s[k]);
        }
        lemma_lines_state_ascii(init);
        let (done, cur) = lines_state(init);
        assert(is_ascii_char(s[s.len() - 1]));
        if s.last() == '\n' {
            let l = without_cr(cur);
            assert(is_ascii_chars(l)) by {
                assert forall|k: int| 0 <= k < l.len() implies is_ascii_char(#[trigger] l[k]) by {
                    assert(l[k] == cur[k]);
                }
            }
            let nd = done.push(l);
            assert forall|j: int| 0 <= j < nd.len() implies is_ascii_chars(#[trigger] nd[j]) by {
                if j < done.len() {
                    assert(nd[j] == done[j]);
                }
            }
        } else {
            let nc = cur.push(s.last());
            assert forall|k: int| 0 <= k < nc.len() implies is_ascii_char(#[trigger] nc[k]) by {
                if k < cur.len() {
                    assert(nc[k] == cur[k]);
                }
            }
        }
    }
}

proof fn lemma_lines_ascii(s: Seq<char>)
    requires
        is_ascii_chars(s),
    ensures
        forall|j: int| 0 <= j < lines(s).len() ==> is_ascii_chars(#[trigger] lines(s)[j]),
{
    lemma_lines_state_ascii(s);
    let (done, cur) = lines_state(s);
    if cur.len() > 0 {
        let all = done.push(cur);
        assert forall|j: int| 0 <= j < all.len() implies is_ascii_chars(#[trigger] all[j]) by {
            if j < done.len() {
                assert(all[j] == done[j]);
            }
        }
    }
}

proof fn lemma_lowercase_ident(t: Seq<char>)
    requires
        ascii_ident(t),
    ensures
        ascii_ident(lowercase(t)),
{
    assert(is_ascii_chars(t)) by {
        assert forall|k: int| 0 <= k < t.len() implies is_ascii_char(#[trigger] t[k]) by {
            assert(is_ascii_ident_char(t[k]));
        }
    }
    let l = lowercase(t);
    assert forall|k: int| 0 <= k < l.len() implies is_ascii_ident_char(#[trigger] l[k]) by {
        assert(is_ascii_ident_char(t[k]));
        assert(l[k] == ascii_lower_char(t[k]));
    }
}

proof fn lemma_split_state_ident(s: Seq<char>, sep: char)
    requires
        ascii_ident(s),
    ensures
        ascii_ident_tokens(split_state(s, sep).0),
        ascii_ident(split_state(s, sep).1),
    decreases s.len(),
{
    if s.len() > 0 {
        let init = s.drop_last();
        assert forall|k: int| 0 <= k < init.len() implies is_ascii_ident_char(#[trigger] init[k]) by {
            assert(init[k] == s[k]);
        }
        lemma_split_state_ident(init, sep);
        let (done, cur) = split_state(init, sep);
        assert(is_ascii_ident_char(s[s.len() - 1]));
        if s.last() == sep {
            let nd = done.push(cur);
            assert forall|j: int| 0 <= j < nd.len() implies ascii_ident(#[trigger] nd[j]) by {
                if j < done.len() {
                    assert(nd[j] == done[j]);
                }
            }
        } else {
            let nc = cur.push(s.last());
            assert forall|k: int| 0 <= k < nc.len() implies is_ascii_ident_char(#[trigger] nc[k]) by {
                if k < cur.len() {
                    assert(nc[k] == cur[k]);
                }
            }
        }
    }
}

proof fn lemma_lowered_pieces_ident(ps: Seq<Seq<char>>)
    requires
        ascii_ident_tokens(ps),
    ensures
        ascii_ident_tokens(lowered_pieces(ps)),
    decreases ps.len(),
{
    if ps.len() > 0 {
        let init = ps.drop_last();
        assert forall|j: int| 0 <= j < init.len() implies ascii_ident(#[trigger] init[j]) by {
            assert(init[j] == ps[j]);
        }
        lemma_lowered_pieces_ident(init);
        let prev = lowered_pieces(init);
        if ps.last().len() > 0 {
            assert(ascii_ident(ps[ps.len() - 1]));
            lemma_lowercase_ident(ps.last());
            let cur = prev.push(lowercase(ps.last()));
            assert forall|j: int| 0 <= j < cur.len() implies ascii_ident(#[trigger] cur[j]) by {
                if j < prev.len() {
                    assert(cur[j] == prev[j]);
                }
            }
        }
    }
}

proof fn lemma_camel_state_ident(s: Seq<char>, n: int)
    requires
        ascii_ident(s),
        n <= s.len(),
    ensures
        ascii_ident_tokens(camel_state(s, n).0),
        ascii_ident(camel_state(s, n).1),
    decreases n,
{
    if n > 0 {
        lemma_camel_state_ident(s, n - 1);
        let (parts, cur) = camel_state(s, n - 1);
        let ch = s[n - 1];
        assert(is_ascii_ident_char(ch));
        let nc = cur.push(ch);
        assert forall|k: int| 0 <= k < nc.len() implies is_ascii_ident_char(#[trigger] nc[k]) by {
            if k < cur.len() {
                assert(nc[k] == cur[k]);
            }
        }
        assert(ascii_ident(seq![ch])) by {
            assert forall|k: int| 0 <= k < 1 implies is_ascii_ident_char(#[trigger] seq![ch][k]) by {
            }
        }
        lemma_lowercase_ident(cur);
        let np = parts.push(lowercase(cur));
        assert forall|j: int| 0 <= j < np.len() implies ascii_ident(#[trigger] np[j]) by {
            if j < parts.len() {
                assert(np[j] == parts[j]);
            }
        }
    }
}

proof fn lemma_split_camel_ident(raw: Seq<char>)
    requires
        ascii_ident(raw),
    ensures
        ascii_ident_tokens(split_camel_case_spec(raw)),
{
    if raw.contains('_') {
        lemma_split_state_ident(raw, '_');
        let (done, cur) = split_state(raw, '_');
        let ps = done.push(cur);
        assert forall|j: int| 0 <= j < ps.len() implies ascii_ident(#[trigger] ps[j]) by {
            if j < done.len() {
                assert(ps[j] == done[j]);
            }
        }
        lemma_lowered_pieces_ident(ps);
    } else if utf8_len(raw) <= 2 {
        lemma_lowercase_ident(raw);
        assert(seq![lowercase(raw)][0] == lowercase(raw));
    } else {
        lemma_camel_state_ident(raw, raw.len() as int);
        let (parts, cur) = camel_state(raw, raw.len() as int);
        if cur.len() > 0 {
            lemma_lowercase_ident(cur);
            let np = parts.push(lowercase(cur));
            assert forall|j: int| 0 <= j < np.len() implies ascii_ident(#[trigger] np[j]) by {
                if j < parts.len() {
                    assert(np[j] == parts[j]);
                }
            }
        }
    }
}

proof fn lemma_valid_parts_ident(f: CodeFlags, parts: Seq<Seq<char>>)
    requires
        ascii_ident_tokens(parts),
    ensures
        ascii_ident_tokens(valid_parts(f, parts)),
    decreases parts.len(),
{
    if parts.len() > 0 {
        let init = parts.drop_last();
        assert forall|j: int| 0 <= j < init.len() implies ascii_ident(#[trigger] init[j]) by {
            assert(init[j] == parts[j]);
        }
        lemma_valid_parts_ident(f, init);
        let prev = valid_parts(f, init);
        if f.is_valid_token(parts.last()) {
            assert(ascii_ident(parts[parts.len() - 1]));
            let cur = prev.push(parts.last());
            assert forall|j: int| 0 <= j < cur.len() implies ascii_ident(#[trigger] cur[j]) by {
                if j < prev.len() {
                    assert(cur[j] == prev[j]);
                }
            }
        }
    }
}

proof fn lemma_run_tokens_ident(f: CodeFlags, raw: Seq<char>)
    requires
        ascii_ident(raw),
    ensures
        ascii_ident_tokens(f.run_tokens(raw)),
{
    if utf8_len(raw) > 1 && f.split_camel_case {
        lemma_split_camel_ident(raw);
        lemma_valid_parts_ident(f, split_camel_case_spec(raw));
    } else if f.is_valid_token(raw) {
        assert(seq![raw][0] == raw);
    }
}

proof fn lemma_tokenize_state_ident(f: CodeFlags, line: Seq<char>)
    requires
        is_ascii_chars(line),
    ensures
        ascii_ident_tokens(f.tokenize_state(line).0),
        ascii_ident(f.tokenize_state(line).1),
    decreases line.len(),
{
    if line.len() > 0 {
        let init = line.drop_last();
        assert forall|k: int| 0 <= k < init.len() implies is_ascii_char(#[trigger] init[k]) by {
            assert(init[k] == line[k]);
        }
        lemma_tokenize_state_ident(f, init);
        let (toks, cur) = f.tokenize_state(init);
        let ch = line.last();
        assert(is_ascii_char(line[line.len() - 1]));
        if is_ident_char(ch) {
            let nc = cur.push(ch);
            assert forall|k: int| 0 <= k < nc.len() implies is_ascii_ident_char(#[trigger] nc[k]) by {
                if k < cur.len() {
                    assert(nc[k] == cur[k]);
                }
            }
        } else if cur.len() > 0 {
            lemma_run_tokens_ident(f, cur);
            lemma_ident_tokens_concat(toks, f.run_tokens(cur));
        }
    }
}

proof fn lemma_sentences_ident(f: CodeFlags, ls: Seq<Seq<char>>)
    requires
        forall|j: int| 0 <= j < ls.len() ==> is_ascii_chars(#[trigger] ls[j]),
    ensures
        forall|i: int| 0 <= i < f.sentences_of(ls).len() ==> ascii_ident_tokens(#[trigger] f.sentences_of(ls)[i]),
        f.sentences_of(ls).len() <= ls.len(),
    decreases ls.len(),
{
    if ls.len() > 0 {
        let init = ls.drop_last();
        assert forall|j: int| 0 <= j < init.len() implies is_ascii_chars(#[trigger] init[j]) by {
            assert(init[j] == ls[j]);
        }
        lemma_sentences_ident(f, init);
        let prev = f.sentences_of(init);
        let line = ls.last();
        assert(is_ascii_chars(ls[ls.len() - 1]));
        lemma_tokenize_state_ident(f, line);
        let (toks, cur) = f.tokenize_state(line);
        let t = f.tokenize_line(line);
        assert(ascii_ident_tokens(t)) by {
            if cur.len() > 0 {
                lemma_run_tokens_ident(f, cur);
                lemma_ident_tokens_concat(toks, f.run_tokens(cur));
            }
        }
        if t.len() > 0 {
            let ns = prev.push(t);
            assert forall|i: int| 0 <= i < ns.len() implies ascii_ident_tokens(#[trigger] ns[i]) by {
                if i < prev.len() {
                    assert(ns[i] == prev[i]);
                }
            }
        }
    }
}

/// Token law for ASCII code: every token is made of ASCII letters, digits
/// and underscores, and there is at most one sentence per line of the code
/// left after comment and literal removal.
pub proof fn lemma_ascii_code_tokens(f: CodeFlags, code: Seq<char>)
    requires
        is_ascii_chars(code),
    ensures
        forall|i: int|
            0 <= i < f.process_code(code).len() ==> ascii_ident_tokens(
                #[trigger] f.process_code(code)[i],
            ),
        f.process_code(code).len() <= lines(f.cleaned(code)).len(),
{
    assert(is_ascii_chars(f.cleaned(code))) by {
        if f.remove_comments || f.remove_string_literals {
            lemma_strip_from_ascii(code, 0, f.python, f.remove_comments, f.remove_string_literals);
        }
    }
    lemma_lines_ascii(f.cleaned(code));
    lemma_sentences_ident(f, lines(f.cleaned(code)));
}

// ---------------------------------------------------------------------------
// Line counts
// ---------------------------------------------------------------------------

/// How many line feeds a text holds.
pub open spec fn newline_count(s: Seq<char>) -> nat
    decreases s.len(),
{
    if s.len() == 0 {
        0
    } else {
        newline_count(s.drop_last()) + if s.last() == '\n' {
            1nat
        } else {
            0nat
        }
    }
}

/// How many lines `str::lines` gives: one per line feed, and one more for
/// a last line that has none.
pub open spec fn line_count(s: Seq<char>) -> nat {
    newline_count(s) + if s.len() > 0 && s.last() != '\n' {
        1nat
    } else {
        0nat
    }
}

proof fn lemma_lines_state_len(s: Seq<char>)
    ensures
        lines_state(s).0.len() == newline_count(s),
        lines_state(s).1.len() > 0 <==> (s.len() > 0 && s.last() != '\n'),
    decreases s.len(),
{
    if s.len() > 0 {
        lemma_lines_state_len(s.drop_last());
    }
}

proof fn lemma_lines_len(s: Seq<char>)
    ensures
        lines(s).len() == line_count(s),
{
    lemma_lines_state_len(s);
}

proof fn lemma_newline_count_concat(a: Seq<char>, b: Seq<char>)
    ensures
        newline_count(a + b) == newline_count(a) + newline_count(b),
    decreases b.len(),
{
    if b.len() == 0 {
        assert(a + b =~= a);
    } else {
        lemma_newline_count_concat(a, b.drop_last());
        assert((a + b).drop_last() =~= a + b.drop_last());
    }
}

proof fn lemma_line_count_suffix(x: Seq<char>, y: Seq<char>)
    ensures
        line_count(y) <= line_count(x + y),
{
    lemma_newline_count_concat(x, y);
    if y.len() > 0 {
        assert((x + y).last() == y.last());
    }
}

proof fn lemma_line_count_cons(x: char, s: Seq<char>)
    ensures
        line_count(seq![x] + s) == if s.len() == 0 {
            1
        } else {
            line_count(s) + if x == '\n' {
                1nat
            } else {
                0nat
            }
        },
        s.len() > 0 ==> line_count(s) >= 1,
{
    lemma_newline_count_concat(seq![x], s);
    assert(seq![x].drop_last() =~= Seq::<char>::empty());
    assert(newline_count(seq![x]) == newline_count(Seq::<char>::empty()) + if x == '\n' {
        1nat
    } else {
        0nat
    });
    if s.len() > 0 {
        assert((seq![x] + s).last() == s.last());
        if s.last() == '\n' {
            assert(s.drop_last().push(s.last()) =~= s);
        }
    } else {
        assert(seq![x] + s =~= seq![x]);
    }
}

proof fn lemma_strip_line_count(c: Seq<char>, i: int, python: bool, comments: bool, strings: bool)
    requires
        0 <= i,
    ensures
        line_count(strip_from(c, i, python, comments, strings)) <= line_count(
            if i <= c.len() {
                c.skip(i)
            } else {
                Seq::<char>::empty()
            },
        ),
    decreases c.len() + 2 - i,
{
    let r = strip_from(c, i, python, comments, strings);
    if i >= c.len() {
    } else {
        let skipped_to = |j: int|
            {
                &&& i < j
                &&& line_count(strip_from(c, j, python, comments, strings)) <= line_count(
                    if j <= c.len() {
                        c.skip(j)
                    } else {
                        Seq::<char>::empty()
                    },
                )
            };
        if comments && c[i] == '/' && i + 1 < c.len() && c[i + 1] == '*' {
            lemma_scan_block_end(c, i + 2);
            let j = scan_block_end(c, i + 2) + 2;
            lemma_strip_line_count(c, j, python, comments, strings);
            if j <= c.len() {
                assert(c.skip(i) =~= c.subrange(i, j) + c.skip(j));
                lemma_line_count_suffix(c.subrange(i, j), c.skip(j));
            }
        } else if (comments && c[i] == '/' && i + 1 < c.len() && c[i + 1] == '/') || (comments
            && python && c[i] == '#') {
            lemma_scan_line_end(c, i);
            let j = scan_line_end(c, i);
            lemma_strip_line_count(c, j, python, comments, strings);
            assert(c.skip(i) =~= c.subrange(i, j) + c.skip(j));
            lemma_line_count_suffix(c.subrange(i, j), c.skip(j));
        } else if strings && (c[i] == '"' || c[i] == '\'') {
            lemma_scan_literal_end(c, i + 1, c[i]);
            let j = scan_literal_end(c, i + 1, c[i]);
            lemma_strip_line_count(c, j, python, comments, strings);
            assert(c.skip(i) =~= c.subrange(i, j) + c.skip(j));
            lemma_line_count_suffix(c.subrange(i, j), c.skip(j));
        } else {
            lemma_strip_line_count(c, i + 1, python, comments, strings);
            let rest = strip_from(c, i + 1, python, comments, strings);
            let tail = c.skip(i + 1);
            assert(c.skip(i) =~= seq![c[i]] + tail);
            lemma_line_count_cons(c[i], rest);
            lemma_line_count_cons(c[i], tail);
            if tail.len() == 0 {
                assert(rest.len() == 0);
            }
        }
    }
}

/// Sentence law for code: processing gives at most one sentence per line of
/// the code (`str::lines`); removing comments and literals never adds a line.
pub proof fn lemma_code_sentences_per_line(f: CodeFlags, code: Seq<char>)
    ensures
        f.process_code(code).len() <= lines(code).len(),
{
    lemma_sentences_of_len(f, lines(f.cleaned(code)));
    lemma_lines_len(f.cleaned(code));
    lemma_lines_len(code);
    if f.remove_comments || f.remove_string_literals {
        lemma_strip_line_count(code, 0, f.python, f.remove_comments, f.remove_string_literals);
        assert(code.skip(0) =~= code);
    }
}

proof fn lemma_sentences_of_len(f: CodeFlags, ls: Seq<Seq<char>>)
    ensures
        f.sentences_of(ls).len() <= ls.len(),
    decreases ls.len(),
{
    if ls.len() > 0 {
        lemma_sentences_of_len(f, ls.drop_last());
    }
}

/// Loads source code from a string and processes it with default settings.
pub fn load_code_data(code: &str) -> (r: Vec<Vec<String>>)
    ensures
        r.deep_view() == CodeFlags::standard().process_code(code@),
{
    let processor = CodeProcessor::default();
    proof {
        reveal_strlit("rust");
        reveal_strlit("python");
        assert("rust"@.len() != "python"@.len());
    }
    processor.process_code(code)
}

/// Loads source code from a string using a custom processor.
pub fn load_code_data_advanced(code: &str, processor: &CodeProcessor) -> (r: Vec<Vec<String>>)
    ensures
        r.deep_view() == processor.flags().process_code(code@),
{
    processor.process_code(code)
}

/// Token law: every token of processed code passes the token filter: it has
/// between one and 64 bytes and, when numbers are removed, is not all digits;
/// every sentence has at least one token.
pub proof fn lemma_code_tokens_valid(f: CodeFlags, code: Seq<char>)
    ensures
        forall|i: int|
            0 <= i < f.process_code(code).len() ==> (#[trigger] f.process_code(code)[i]).len() > 0
                && forall|j: int|
                0 <= j < f.process_code(code)[i].len() ==> f.is_valid_token(
                    #[trigger] f.process_code(code)[i][j],
                ),
{
    lemma_sentences_valid(f, lines(f.cleaned(code)));
}

proof fn lemma_valid_parts(f: CodeFlags, parts: Seq<Seq<char>>)
    ensures
        forall|j: int|
            0 <= j < valid_parts(f, parts).len() ==> f.is_valid_token(
                #[trigger] valid_parts(f, parts)[j],
            ),
    decreases parts.len(),
{
    if parts.len() > 0 {
        lemma_valid_parts(f, parts.drop_last());
        let prev = valid_parts(f, parts.drop_last());
        if f.is_valid_token(parts.last()) {
            assert forall|j: int| 0 <= j < prev.push(parts.last()).len() implies f.is_valid_token(
                #[trigger] prev.push(parts.last())[j],
            ) by {
                if j < prev.len() {
                    assert(prev.push(parts.last())[j] == prev[j]);
                }
            }
        }
    }
}

proof fn lemma_run_tokens_valid(f: CodeFlags, raw: Seq<char>)
    ensures
        forall|j: int|
            0 <= j < f.run_tokens(raw).len() ==> f.is_valid_token(#[trigger] f.run_tokens(raw)[j]),
{
    lemma_valid_parts(f, split_camel_case_spec(raw));
}

proof fn lemma_append_valid(f: CodeFlags, a: Seq<Seq<char>>, b: Seq<Seq<char>>)
    requires
        forall|j: int| 0 <= j < a.len() ==> f.is_valid_token(#[trigger] a[j]),
        forall|j: int| 0 <= j < b.len() ==> f.is_valid_token(#[trigger] b[j]),
    ensures
        forall|j: int| 0 <= j < (a + b).len() ==> f.is_valid_token(#[trigger] (a + b)[j]),
{
    assert forall|j: int| 0 <= j < (a + b).len() implies f.is_valid_token(#[trigger] (a + b)[j]) by {
        if j < a.len() {
            assert((a + b)[j] == a[j]);
        } else {
            assert((a + b)[j] == b[j - a.len()]);
        }
    }
}

proof fn lemma_tokenize_state_valid(f: CodeFlags, line: Seq<char>)
    ensures
        forall|j: int|
            0 <= j < f.tokenize_state(line).0.len() ==> f.is_valid_token(
                #[trigger] f.tokenize_state(line).0[j],
            ),
    decreases line.len(),
{
    if line.len() > 0 {
        lemma_tokenize_state_valid(f, line.drop_last());
        let (toks, cur) = f.tokenize_state(line.drop_last());
        lemma_run_tokens_valid(f, cur);
        lemma_append_valid(f, toks, f.run_tokens(cur));
    }
}

proof fn lemma_tokenize_line_valid(f: CodeFlags, line: Seq<char>)
    ensures
        forall|j: int|
            0 <= j < f.tokenize_line(line).len() ==> f.is_valid_token(
                #[trigger] f.tokenize_line(line)[j],
            ),
{
    lemma_tokenize_state_valid(f, line);
    let (toks, cur) = f.tokenize_state(line);
    lemma_run_tokens_valid(f, cur);
    lemma_append_valid(f, toks, f.run_tokens(cur));
}

proof fn lemma_sentences_valid(f: CodeFlags, ls: Seq<Seq<char>>)
    ensures
        forall|i: int|
            0 <= i < f.sentences_of(ls).len() ==> (#[trigger] f.sentences_of(ls)[i]).len() > 0
                && forall|j: int|
                0 <= j < f.sentences_of(ls)[i].len() ==> f.is_valid_token(
                    #[trigger] f.sentences_of(ls)[i][j],
                ),
    decreases ls.len(),
{
    if ls.len() > 0 {
        lemma_sentences_valid(f, ls.drop_last());
        lemma_tokenize_line_valid(f, ls.last());
        let prev = f.sentences_of(ls.drop_last());
        let t = f.tokenize_line(ls.last());
        if t.len() > 0 {
            let cur = prev.push(t);
            assert forall|i: int| 0 <= i < cur.len() implies (#[trigger] cur[i]).len() > 0
                && forall|j: int| 0 <= j < cur[i].len() ==> f.is_valid_token(#[trigger] cur[i][j]) by {
                if i < prev.len() {
                    assert(cur[i] == prev[i]);
                } else {
                    assert(cur[i] == t);
                }
            }
        }
    }
}

} // verus!
