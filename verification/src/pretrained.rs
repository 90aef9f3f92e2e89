//! Pre-trained embedding files: telling their formats apart, and reading
//! the layout of Google's binary Word2Vec format.
use vstd::prelude::*;

use crate::chars::{chars_of, lowercase, str_to_lowercase, ws_split, split_whitespace_chars};
use crate::mmap::{file_bytes, header_bytes, lossy_string, magic, utf8_lossy};

verus! {

/// Supported pre-trained embedding file formats.
#[derive(Debug, Clone, Copy, PartialEq, Eq, Structural)]
pub enum PretrainedFormat {
    /// Word2Vec/Gensim text format: `vocab_size dim` header, then `word f32...` per line.
    Word2VecText,
    /// Google's original Word2Vec binary format: `vocab_size dim` header,
    /// then `word<space><binary_f32_x_dim>` per entry.
    Word2VecBinary,
    /// GloVe text format: same as Word2Vec text (`word f32...`).
    GloVe,
    /// fastText `.vec` text format: same as Word2Vec text.
    FastText,
    /// The memory-mapped `.bin` format of this crate.
    MmapBinary,
}

/// `s` ends with `suffix`.
pub open spec fn has_suffix(s: Seq<char>, suffix: Seq<char>) -> bool {
    suffix.len() <= s.len() && s.skip(s.len() - suffix.len()) == suffix
}

/// Whether `s` ends with `suffix`.
fn chars_end_with(s: &[char], suffix: &str) -> (r: bool)
    ensures
        r == has_suffix(s@, suffix@),
{
    let p = chars_of(suffix);
    if p.len() > s.len() {
        return false;
    }
    let off = s.len() - p.len();
    let mut i: usize = 0;
    while i < p.len()
        invariant
            i <= p.len(),
            p.len() <= s.len(),
            off + p.len() == s.len(),
            p@ == suffix@,
            forall|k: int| 0 <= k < i ==> s@[off + k] == p@[k],
        decreases p.len() - i,
    {
        if s[off + i] != p[i] {
            assert(s@.skip(off as int)[i as int] != suffix@[i as int]);
            return false;
        }
        i = i + 1;
    }
    assert(s@.skip(off as int) =~= suffix@);
    true
}

/// The bytes `EMBD` that open a memory-mapped file.
pub open spec fn mmap_magic() -> Seq<u8> {
    seq![69u8, 77u8, 66u8, 68u8]
}

/// The format a file's lowercased path and first bytes indicate: a `.bin`
/// file is memory-mapped when it starts with `EMBD`, Google binary
/// otherwise; a `.vec` file is fastText text when its first byte is a digit
/// or `-`, Google binary otherwise; a `.txt` file is GloVe; anything else is
/// Word2Vec text.
pub open spec fn format_for(lower_path: Seq<char>, head: Seq<u8>) -> PretrainedFormat {
    if has_suffix(lower_path, ".bin"@) {
        if head == mmap_magic() {
            PretrainedFormat::MmapBinary
        } else {
            PretrainedFormat::Word2VecBinary
        }
    } else if has_suffix(lower_path, ".vec"@) {
        if head.len() > 0 && ((48u8 <= head[0] && head[0] <= 57u8) || head[0] == 45u8) {
            PretrainedFormat::FastText
        } else {
            PretrainedFormat::Word2VecBinary
        }
    } else if has_suffix(lower_path, ".txt"@) {
        PretrainedFormat::GloVe
    } else {
        PretrainedFormat::Word2VecText
    }
}

/// Format law: a file written in the memory-mappable format under a name
/// ending in `.bin` (in any case) is detected as that format.
pub proof fn lemma_written_mmap_file_detected(
    lower_path: Seq<char>,
    words: Seq<Seq<char>>,
    rows: Seq<Seq<u8>>,
)
    requires
        has_suffix(lower_path, ".bin"@),
    ensures
        format_for(lower_path, file_bytes(words, rows).take(4)) == PretrainedFormat::MmapBinary,
{
    let b = file_bytes(words, rows);
    assert(b.take(4) =~= magic());
    assert(magic() =~= mmap_magic());
}

/// How many leading bytes the format decision reads for a lowercased path:
/// up to four for `.bin`, one for `.vec`, none otherwise.
pub open spec fn head_len_for(lower_path: Seq<char>) -> nat {
    if has_suffix(lower_path, ".bin"@) {
        4
    } else if has_suffix(lower_path, ".vec"@) {
        1
    } else {
        0
    }
}

/// Loader for pre-trained embeddings with format auto-detection.
pub struct PretrainedLoader;

impl PretrainedLoader {
    /// How many leading bytes of the file `detect_format_from` looks at:
    /// for `.bin` the first four (or fewer, if the file is shorter), for
    /// `.vec` exactly the first one.
    pub fn head_len(path: &str) -> (r: usize)
        ensures
            r == head_len_for(lowercase(path@)),
    {
        let lower = str_to_lowercase(path);
        let cs = chars_of(lower.as_str());
        if chars_end_with(&cs, ".bin") {
            4
        } else if chars_end_with(&cs, ".vec") {
            1
        } else {
            0
        }
    }

    /// Detects the format of a file from its path (case-insensitively) and
    /// its first bytes.
    pub fn detect_format_from(path: &str, head: &[u8]) -> (r: PretrainedFormat)
        ensures
            r == format_for(lowercase(path@), head@),
    {
        let lower = str_to_lowercase(path);
        let cs = chars_of(lower.as_str());
        if chars_end_with(&cs, ".bin") {
            if head.len() == 4 && head[0] == 69u8 && head[1] == 77u8 && head[2] == 66u8 && head[3]
                == 68u8 {
                assert(head@ =~= mmap_magic());
                PretrainedFormat::MmapBinary
            } else {
                assert(head@ != mmap_magic()) by {
                    if head@ == mmap_magic() {
                        assert(head@[0] == 69u8 && head@[1] == 77u8);
                        assert(head@[2] == 66u8 && head@[3] == 68u8);
                    }
                }
                PretrainedFormat::Word2VecBinary
            }
        } else if chars_end_with(&cs, ".vec") {
            if head.len() > 0 && ((48u8 <= head[0] && head[0] <= 57u8) || head[0] == 45u8) {
                PretrainedFormat::FastText
            } else {
                PretrainedFormat::Word2VecBinary
            }
        } else if chars_end_with(&cs, ".txt") {
            PretrainedFormat::GloVe
        } else {
            PretrainedFormat::Word2VecText
        }
    }
}

// ---------------------------------------------------------------------------
// Decimal numbers
// ---------------------------------------------------------------------------

/// The value of ASCII decimal digits.
pub open spec fn digits_value(s: Seq<char>) -> nat
    decreases s.len(),
{
    if s.len() == 0 {
        0
    } else {
        10 * digits_value(s.drop_last()) + ((s.last() as u32) - 48) as nat
    }
}

/// All characters are ASCII digits.
pub open spec fn all_digits(s: Seq<char>) -> bool {
    forall|i: int| 0 <= i < s.len() ==> '0' <= #[trigger] s[i] && s[i] <= '9'
}

/// `str::parse::<usize>`: an optional `+`, then one or more ASCII digits,
/// whose value fits the machine word.
pub open spec fn parse_usize_spec(s: Seq<char>) -> Option<usize> {
    let t = if s.len() > 0 && s[0] == '+' {
        s.skip(1)
    } else {
        s
    };
    if t.len() == 0 || !all_digits(t) || digits_value(t) > usize::MAX {
        None
    } else {
        Some(digits_value(t) as usize)
    }
}

/// Parses a decimal `usize` as `str::parse` does.
pub fn parse_usize(s: &[char]) -> (r: Option<usize>)
    ensures
        r == parse_usize_spec(s@),
{
    let start: usize = if s.len() > 0 && s[0] == '+' {
        1
    } else {
        0
    };
    let ghost t = if s@.len() > 0 && s@[0] == '+' {
        s@.skip(1)
    } else {
        s@
    };
    assert(t =~= s@.skip(start as int));
    if start >= s.len() {
        return None;
    }
    let mut v: usize = 0;
    let mut i: usize = start;
    assert(t.take(0) =~= Seq::<char>::empty());
    while i < s.len()
        invariant
            start <= i <= s.len(),
            t == (if s@.len() > 0 && s@[0] == '+' {
                s@.skip(1)
            } else {
                s@
            }),
            t =~= s@.skip(start as int),
            all_digits(t.take(i - start)),
            v == digits_value(t.take(i - start)),
        decreases s.len() - i,
    {
        let c = s[i];
        assert(t.take(i - start + 1).drop_last() =~= t.take(i - start));
        assert(t.take(i - start + 1).last() == c);
        assert(t[i - start] == s@[i as int]);
        if c < '0' || c > '9' {
            assert(!all_digits(t)) by {
                assert(t[i - start] == c);
            }
            assert(parse_usize_spec(s@) is None);
            return None;
        }
        let d = (c as u32 - 48) as usize;
        if v > (usize::MAX - d) / 10 {
            proof {
                if all_digits(t) {
                    lemma_digits_value_prefix(t, i - start + 1);
                }
            }
            assert(digits_value(t.take(i - start + 1)) > usize::MAX) by (nonlinear_arith)
                requires
                    digits_value(t.take(i - start + 1)) == 10 * v + d,
                    v > (usize::MAX - d) / 10,
                    d <= 9,
            ;
            return None;
        }
        assert(10 * v + d <= usize::MAX) by (nonlinear_arith)
            requires
                v <= (usize::MAX - d) / 10,
                d <= 9,
        ;
        v = 10 * v + d;
        i = i + 1;
        assert(all_digits(t.take(i - start))) by {
            assert forall|k: int| 0 <= k < i - start implies '0' <= #[trigger] t.take(
                i - start,
            )[k] && t.take(i - start)[k] <= '9' by {
                if k < i - start - 1 {
                    assert(t.take(i - start)[k] == t.take(i - start - 1)[k]);
                }
            }
        }
    }
    assert(t.take(i - start) =~= t);
    Some(v)
}

/// A longer digit prefix has at least the value of a shorter one.
proof fn lemma_digits_value_prefix(t: Seq<char>, k: int)
    requires
        0 <= k <= t.len(),
        all_digits(t),
    ensures
        digits_value(t.take(k)) <= digits_value(t),
    decreases t.len(),
{
    if k < t.len() {
        assert(t.drop_last().take(k) =~= t.take(k));
        lemma_digits_value_prefix(t.drop_last(), k);
    } else {
        assert(t.take(k) =~= t);
    }
}

// ---------------------------------------------------------------------------
// Google's binary Word2Vec layout
// ---------------------------------------------------------------------------

/// Why a binary Word2Vec file cannot be read.
#[derive(Debug, Clone, PartialEq, Eq)]
pub enum BinaryFormatError {
    /// The header line has no line feed.
    UnterminatedHeader,
    /// The header does not have exactly two fields.
    InvalidHeader,
    /// The first header field is not a number.
    InvalidVocabSize,
    /// The second header field is not a number.
    InvalidDimension,
    /// A word is not followed by a space.
    UnterminatedWord,
    /// The vector after the word with these bytes is cut short.
    ShortVector(Vec<u8>),
}

/// What is wrong with a binary file, as the model of reading states it.
pub enum BinaryIssue {
    UnterminatedHeader,
    InvalidHeader,
    InvalidVocabSize,
    InvalidDimension,
    UnterminatedWord,
    ShortVector(Seq<u8>),
}

/// The issue an error reports.
pub open spec fn issue_of(e: BinaryFormatError) -> BinaryIssue {
    match e {
        BinaryFormatError::UnterminatedHeader => BinaryIssue::UnterminatedHeader,
        BinaryFormatError::InvalidHeader => BinaryIssue::InvalidHeader,
        BinaryFormatError::InvalidVocabSize => BinaryIssue::InvalidVocabSize,
        BinaryFormatError::InvalidDimension => BinaryIssue::InvalidDimension,
        BinaryFormatError::UnterminatedWord => BinaryIssue::UnterminatedWord,
        BinaryFormatError::ShortVector(w) => BinaryIssue::ShortVector(w@),
    }
}

/// The position of the first `stop` byte at or after `from`, if any.
pub open spec fn find_byte(b: Seq<u8>, from: nat, stop: u8) -> Option<nat>
    decreases b.len() - from,
{
    if from >= b.len() {
        None
    } else if b[from as int] == stop {
        Some(from)
    } else {
        find_byte(b, from + 1, stop)
    }
}

/// The header of a binary file: the line before the first line feed,
/// decoded, split at whitespace into the vocabulary size and dimension;
/// with the position after the line feed.
pub open spec fn binary_header(b: Seq<u8>) -> Result<(nat, nat, nat), BinaryIssue> {
    match find_byte(b, 0, 10u8) {
        None => Err(BinaryIssue::UnterminatedHeader),
        Some(nl) => {
            let parts = ws_split(utf8_lossy(b.take(nl as int)));
            if parts.len() != 2 {
                Err(BinaryIssue::InvalidHeader)
            } else {
                match parse_usize_spec(parts[0]) {
                    None => Err(BinaryIssue::InvalidVocabSize),
                    Some(n) => match parse_usize_spec(parts[1]) {
                        None => Err(BinaryIssue::InvalidDimension),
                        Some(d) => Ok((n as nat, d as nat, nl + 1)),
                    },
                }
            }
        },
    }
}

/// Reading `remaining` entries from `pos`: each a word up to a space, then
/// `4 * dim` bytes of vector, then one byte skipped when there is one.
/// The entries are the words' bytes with their vectors' bytes.
pub open spec fn binary_entries(b: Seq<u8>, pos: nat, remaining: nat, dim: nat) -> Result<
    Seq<(Seq<u8>, Seq<u8>)>,
    BinaryIssue,
>
    decreases remaining,
{
    if remaining == 0 {
        Ok(seq![])
    } else {
        match find_byte(b, pos, 32u8) {
            None => Err(BinaryIssue::UnterminatedWord),
            Some(sp) => {
                let word = b.subrange(pos as int, sp as int);
                let vstart = sp + 1;
                if vstart + 4 * dim > b.len() {
                    Err(BinaryIssue::ShortVector(word))
                } else {
                    let vend = vstart + 4 * dim;
                    let next = if vend < b.len() {
                        vend + 1
                    } else {
                        vend
                    };
                    match binary_entries(b, next as nat, (remaining - 1) as nat, dim) {
                        Ok(rest) => Ok(seq![(word, b.subrange(vstart as int, vend as int))] + rest),
                        Err(e) => Err(e),
                    }
                }
            },
        }
    }
}

/// What reading a binary file gives: each word's bytes with its vector's
/// bytes, in file order; or what is wrong with it.
pub open spec fn binary_file(b: Seq<u8>) -> Result<Seq<(Seq<u8>, Seq<u8>)>, BinaryIssue> {
    match binary_header(b) {
        Err(e) => Err(e),
        Ok(h) => binary_entries(b, h.2, h.0, h.1),
    }
}

/// The files whose reading fails outright: a vector too large to allocate
/// once the first word has been read.
pub open spec fn binary_reading_fails(b: Seq<u8>) -> bool {
    match binary_header(b) {
        Err(_) => false,
        Ok(h) => h.0 > 0 && find_byte(b, h.2, 32u8) is Some && 4 * h.1 > isize::MAX,
    }
}

/// The position of the first `stop` byte at or after `from`.
fn find_byte_exec(b: &[u8], from: usize, stop: u8) -> (r: Option<usize>)
    requires
        from <= b@.len(),
    ensures
        r is None ==> find_byte(b@, from as nat, stop) is None,
        r matches Some(p) ==> from <= p,
        r matches Some(p) ==> p < b@.len(),
        r matches Some(p) ==> find_byte(b@, from as nat, stop) == Some(p as nat),
{
    let mut i: usize = from;
    while i < b.len()
        invariant
            from <= i <= b@.len(),
            find_byte(b@, from as nat, stop) == find_byte(b@, i as nat, stop),
        decreases b.len() - i,
    {
        if b[i] == stop {
            return Some(i);
        }
        i = i + 1;
    }
    None
}

/// The first `n` bytes.
fn bytes_between(b: &[u8], from: usize, to: usize) -> (r: Vec<u8>)
    requires
        from <= to <= b@.len(),
    ensures
        r@ == b@.subrange(from as int, to as int),
{
    let mut out: Vec<u8> = Vec::new();
    let mut i: usize = from;
    while i < to
        invariant
            from <= i <= to <= b@.len(),
            out@ =~= b@.subrange(from as int, i as int),
        decreases to - i,
    {
        out.push(b[i]);
        i = i + 1;
    }
    out
}

/// Reads the `vocab_size dim` header line of a binary Word2Vec file: gives
/// the two numbers and the position just after the line feed that ends it.
pub fn read_binary_header(b: &[u8]) -> (r: Result<(usize, usize, usize), BinaryFormatError>)
    ensures
        r matches Ok(x) ==> x.2 <= b@.len(),
        match (r, binary_header(b@)) {
            (Ok(x), Ok(y)) => x.0 == y.0 && x.1 == y.1 && x.2 == y.2,
            (Err(e), Err(i)) => issue_of(e) == i,
            _ => false,
        },
{
    let found = find_byte_exec(b, 0, 10u8);
    let nl = match found {
        None => {
            return Err(BinaryFormatError::UnterminatedHeader);
        },
        Some(p) => {
            assert(p < b.len());
            p
        },
    };
    let line = lossy_string(&b[0..nl]);
    assert(b@.subrange(0, nl as int) =~= b@.take(nl as int));
    let cs = chars_of(line.as_str());
    let parts = split_whitespace_chars(&cs);
    let ghost pv = parts.deep_view();
    if parts.len() != 2 {
        return Err(BinaryFormatError::InvalidHeader);
    }
    assert(parts@[0].deep_view() =~= parts@[0]@);
    assert(parts@[1].deep_view() =~= parts@[1]@);
    let n = match parse_usize(parts[0].as_slice()) {
        None => {
            return Err(BinaryFormatError::InvalidVocabSize);
        },
        Some(n) => n,
    };
    let d = match parse_usize(parts[1].as_slice()) {
        None => {
            return Err(BinaryFormatError::InvalidDimension);
        },
        Some(d) => d,
    };
    Ok((n, d, nl + 1))
}

/// Why the header line of a text embedding file is refused.
#[derive(Debug, Clone, Copy, PartialEq, Eq, Structural)]
pub enum TextHeaderError {
    /// Not exactly two fields.
    InvalidHeader,
    /// The first field is not a number.
    InvalidVocabSize,
    /// The second field is not a number.
    InvalidDimension,
}

/// The vocabulary size and dimension a text header line states.
pub open spec fn text_header(line: Seq<char>) -> Result<(usize, usize), TextHeaderError> {
    let parts = ws_split(line);
    if parts.len() != 2 {
        Err(TextHeaderError::InvalidHeader)
    } else {
        match parse_usize_spec(parts[0]) {
            None => Err(TextHeaderError::InvalidVocabSize),
            Some(n) => match parse_usize_spec(parts[1]) {
                None => Err(TextHeaderError::InvalidDimension),
                Some(d) => Ok((n, d)),
            },
        }
    }
}

impl PretrainedLoader {
    /// Reads the `<vocab> <dim>` header line of a text embedding file.
    pub fn read_text_header(line: &str) -> (r: Result<(usize, usize), TextHeaderError>)
        ensures
            r == text_header(line@),
    {
        let cs = chars_of(line);
        let parts = split_whitespace_chars(&cs);
        if parts.len() != 2 {
            return Err(TextHeaderError::InvalidHeader);
        }
        assert(parts@[0].deep_view() =~= parts@[0]@);
        assert(parts@[1].deep_view() =~= parts@[1]@);
        match parse_usize(parts[0].as_slice()) {
            None => Err(TextHeaderError::InvalidVocabSize),
            Some(n) => match parse_usize(parts[1].as_slice()) {
                None => Err(TextHeaderError::InvalidDimension),
                Some(d) => Ok((n, d)),
            },
        }
    }
}

impl PretrainedLoader {
    /// Whether reading the binary file fails outright (see
    /// `binary_reading_fails`): the check to make before `read_word2vec_binary`.
    pub fn binary_fails_outright(b: &[u8]) -> (r: bool)
        ensures
            r == binary_reading_fails(b@),
    {
        match read_binary_header(b) {
            Err(_) => false,
            Ok((n, dim, start)) => {
                if n == 0 {
                    return false;
                }
                let found = find_byte_exec(b, start, 32u8);
                match found {
                    None => false,
                    Some(_) => dim > (isize::MAX as usize) / 4,
                }
            },
        }
    }

    /// Reads the layout of a binary Word2Vec file: a text header
    /// `vocab_size dim` ended by a line feed, then per word its bytes up to
    /// a space and `4 * dim` bytes of little-endian values, after which one
    /// byte is skipped. Gives each word, decoded, with its vector's bytes.
    pub fn read_word2vec_binary(b: &[u8]) -> (r: Result<Vec<(String, Vec<u8>)>, BinaryFormatError>)
        requires
            !binary_reading_fails(b@),
        ensures
            match (r, binary_file(b@)) {
                (Ok(es), Ok(spec)) => es@.len() == spec.len() && forall|i: int|
                    0 <= i < spec.len() ==> (#[trigger] es@[i]).0@ == utf8_lossy(spec[i].0)
                        && es@[i].1@ == spec[i].1,
                (Err(e), Err(i)) => issue_of(e) == i,
                _ => false,
            },
    {
        let ghost bv = b@;
        let (n, dim, start) = match read_binary_header(b) {
            Err(e) => {
                return Err(e);
            },
            Ok(h) => h,
        };
        let mut out: Vec<(String, Vec<u8>)> = Vec::new();
        let mut pos: usize = start;
        let mut k: usize = 0;
        let ghost mut done: Seq<(Seq<u8>, Seq<u8>)> = seq![];
        assert(done + Seq::<(Seq<u8>, Seq<u8>)>::empty() =~= done);
        while k < n
            invariant
                bv == b@,
                !binary_reading_fails(bv),
                k <= n,
                pos <= b@.len(),
                binary_header(bv) matches Ok(h) && h.0 == n && h.1 == dim && h.2 == start,
                k > 0 || pos == start,
                k > 0 ==> 4 * dim <= isize::MAX,
                done.len() == k,
                out@.len() == k,
                forall|i: int|
                    0 <= i < k ==> (#[trigger] out@[i]).0@ == utf8_lossy(done[i].0) && out@[i].1@
                        == done[i].1,
                binary_entries(bv, start as nat, n as nat, dim as nat) == (match binary_entries(
                    bv,
                    pos as nat,
                    (n - k) as nat,
                    dim as nat,
                ) {
                    Ok(rest) => Ok::<Seq<(Seq<u8>, Seq<u8>)>, BinaryIssue>(done + rest),
                    Err(e) => Err(e),
                }),
            decreases n - k,
        {
            let ghost rem = (n - k) as nat;
            let found = find_byte_exec(b, pos, 32u8);
            let sp = match found {
                None => {
                    return Err(BinaryFormatError::UnterminatedWord);
                },
                Some(p) => {
                    assert(p < b.len());
                    p
                },
            };
            let word_bytes = bytes_between(b, pos, sp);
            let vstart = sp + 1;
            proof {
                if k == 0 {
                    assert(find_byte(bv, start as nat, 32u8) is Some);
                }
            }
            if dim > (b.len() - vstart) / 4 {
                assert(vstart + 4 * dim > b@.len());
                return Err(BinaryFormatError::ShortVector(word_bytes));
            }
            assert(vstart + 4 * dim <= b@.len());
            let vend = vstart + 4 * dim;
            let vector = bytes_between(b, vstart, vend);
            let word = lossy_string(word_bytes.as_slice());
            let next = if vend < b.len() {
                vend + 1
            } else {
                vend
            };
            let ghost e = (bv.subrange(pos as int, sp as int), bv.subrange(vstart as int, vend as int));
            proof {
                match binary_entries(bv, next as nat, (rem - 1) as nat, dim as nat) {
                    Ok(rest) => {
                        assert(done + (seq![e] + rest) =~= done.push(e) + rest);
                    },
                    Err(_) => {},
                }
                done = done.push(e);
            }
            out.push((word, vector));
            pos = next;
            k = k + 1;
        }
        Ok(out)
    }
}

} // verus!
