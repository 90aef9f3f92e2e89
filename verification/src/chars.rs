//! Character classes and the string primitives that the text pipelines share.
//!
//! Strings are modelled by their `Seq<char>` views. The Unicode character
//! classes that std decides from its tables are named here; their ASCII part
//! is spelled out.
use vstd::prelude::*;

verus! {

// ---------------------------------------------------------------------------
// Character classes
// ---------------------------------------------------------------------------

/// Whether a non-ASCII character has the Unicode `White_Space` property:
/// next line, no-break space, ogham space mark, the spaces from en quad to
/// hair space, line and paragraph separators, narrow no-break space, medium
/// mathematical space and ideographic space.
pub open spec fn unicode_space_above_ascii(c: char) -> bool {
    c == '\u{85}' || c == '\u{a0}' || c == '\u{1680}' || ('\u{2000}' <= c && c <= '\u{200a}')
        || c == '\u{2028}' || c == '\u{2029}' || c == '\u{202f}' || c == '\u{205f}'
        || c == '\u{3000}'
}

/// Whether a non-ASCII character is alphabetic or numeric in Unicode terms.
pub uninterp spec fn unicode_alnum_above_ascii(c: char) -> bool;

/// The Unicode lowercase mapping of a whole string.
pub uninterp spec fn unicode_lowercase(s: Seq<char>) -> Seq<char>;

pub open spec fn is_ascii_char(c: char) -> bool {
    (c as u32) < 128
}

pub open spec fn is_ascii_chars(s: Seq<char>) -> bool {
    forall|i: int| 0 <= i < s.len() ==> is_ascii_char(#[trigger] s[i])
}

pub open spec fn is_ascii_digit(c: char) -> bool {
    '0' <= c && c <= '9'
}

pub open spec fn is_ascii_upper(c: char) -> bool {
    'A' <= c && c <= 'Z'
}

pub open spec fn is_ascii_lower(c: char) -> bool {
    'a' <= c && c <= 'z'
}

/// The `White_Space` property: in ASCII, tab, line feed, vertical tab,
/// form feed, carriage return and space.
pub open spec fn is_space(c: char) -> bool {
    if is_ascii_char(c) {
        c == ' ' || c == '\t' || c == '\n' || c == '\u{b}' || c == '\u{c}' || c == '\r'
    } else {
        unicode_space_above_ascii(c)
    }
}

/// Alphabetic or numeric: in ASCII, the letters and the digits.
pub open spec fn is_alnum(c: char) -> bool {
    if is_ascii_char(c) {
        is_ascii_upper(c) || is_ascii_lower(c) || is_ascii_digit(c)
    } else {
        unicode_alnum_above_ascii(c)
    }
}

pub open spec fn ascii_lower_char(c: char) -> char {
    if is_ascii_upper(c) {
        ((c as u32) + 32) as char
    } else {
        c
    }
}

/// The lowercase form of a string: the ASCII mapping on ASCII text,
/// the Unicode mapping otherwise.
pub open spec fn lowercase(s: Seq<char>) -> Seq<char> {
    if is_ascii_chars(s) {
        s.map_values(|c: char| ascii_lower_char(c))
    } else {
        unicode_lowercase(s)
    }
}

/// `char::is_whitespace`: true of the characters with the Unicode
/// `White_Space` property, which the contract lists in full.
#[verifier::external_body]
pub(crate) fn char_is_whitespace(c: char) -> (r: bool)
    ensures
        r == is_space(c),
        !is_ascii_char(c) ==> r == unicode_space_above_ascii(c),
{
    c.is_whitespace()
}

/// `char::is_alphanumeric`: alphabetic or numeric in Unicode terms. The
/// contract spells out the ASCII part (letters and digits) and names the rest.
#[verifier::external_body]
pub(crate) fn char_is_alphanumeric(c: char) -> (r: bool)
    ensures
        r == is_alnum(c),
        !is_ascii_char(c) ==> r == unicode_alnum_above_ascii(c),
{
    c.is_alphanumeric()
}

/// `str::to_lowercase`: the Unicode lowercase mapping, which on ASCII text
/// maps `A..=Z` to `a..=z` and keeps every other character.
#[verifier::external_body]
pub(crate) fn str_to_lowercase(s: &str) -> (r: String)
    ensures
        r@ == lowercase(s@),
        !is_ascii_chars(s@) ==> r@ == unicode_lowercase(s@),
{
    s.to_lowercase()
}

/// `String::push`: appends one character.
#[verifier::external_body]
pub(crate) fn push_char(s: &mut String, c: char)
    ensures
        final(s)@ == old(s)@.push(c),
{
    s.push(c)
}

pub fn is_ascii_digit_exec(c: char) -> (r: bool)
    ensures
        r == is_ascii_digit(c),
{
    '0' <= c && c <= '9'
}

pub fn is_ascii_upper_exec(c: char) -> (r: bool)
    ensures
        r == is_ascii_upper(c),
{
    'A' <= c && c <= 'Z'
}

pub fn is_ascii_lower_exec(c: char) -> (r: bool)
    ensures
        r == is_ascii_lower(c),
{
    'a' <= c && c <= 'z'
}

// ---------------------------------------------------------------------------
// UTF-8 length
// ---------------------------------------------------------------------------

/// Number of bytes in the UTF-8 encoding of `c`.
pub open spec fn utf8_width(c: char) -> nat {
    if (c as u32) < 0x80 {
        1
    } else if (c as u32) < 0x800 {
        2
    } else if (c as u32) < 0x10000 {
        3
    } else {
        4
    }
}

/// Number of bytes in the UTF-8 encoding of `s`, what `str::len` returns.
pub open spec fn utf8_len(s: Seq<char>) -> nat
    decreases s.len(),
{
    if s.len() == 0 {
        0
    } else {
        utf8_len(s.drop_last()) + utf8_width(s.last())
    }
}

/// Whether the UTF-8 encoding of `s` is longer than `limit` bytes.
pub fn utf8_len_exceeds(s: &[char], limit: usize) -> (r: bool)
    ensures
        r == (utf8_len(s@) > limit),
{
    let mut n: usize = 0;
    let mut i: usize = 0;
    while i < s.len()
        invariant
            i <= s.len(),
            n == utf8_len(s@.take(i as int)),
            n <= limit,
        decreases s.len() - i,
    {
        assert(s@.take(i + 1).drop_last() =~= s@.take(i as int));
        let c = s[i];
        let w: usize = if (c as u32) < 0x80 {
            1
        } else if (c as u32) < 0x800 {
            2
        } else if (c as u32) < 0x10000 {
            3
        } else {
            4
        };
        i = i + 1;
        if w > limit - n {
            proof {
                lemma_utf8_len_prefix(s@, i as int);
            }
            return true;
        }
        n = n + w;
    }
    assert(s@.take(i as int) =~= s@);
    false
}

/// A prefix of a text takes no more bytes than the text.
pub proof fn lemma_utf8_len_prefix(s: Seq<char>, k: int)
    requires
        0 <= k <= s.len(),
    ensures
        utf8_len(s.take(k)) <= utf8_len(s),
    decreases s.len(),
{
    if k < s.len() {
        assert(s.drop_last().take(k) =~= s.take(k));
        lemma_utf8_len_prefix(s.drop_last(), k);
    } else {
        assert(s.take(k) =~= s);
    }
}

/// The byte length is at least the number of characters.
pub proof fn lemma_utf8_len_ge_len(s: Seq<char>)
    ensures
        utf8_len(s) >= s.len(),
    decreases s.len(),
{
    if s.len() > 0 {
        lemma_utf8_len_ge_len(s.drop_last());
    }
}

// ---------------------------------------------------------------------------
// Conversions between strings and character vectors
// ---------------------------------------------------------------------------

/// The characters of a string, in order.
pub fn chars_of(s: &str) -> (r: Vec<char>)
    ensures
        r@ == s@,
{
    let mut v: Vec<char> = Vec::new();
    for c in it: s.chars()
        invariant
            v@ == it.seq().take(it.index() as int),
            it.seq() == s@,
    {
        v.push(c);
    }
    v
}

/// A string holding the given characters.
pub fn string_of(cs: &[char]) -> (r: String)
    ensures
        r@ == cs@,
{
    let mut s = String::new();
    let mut i: usize = 0;
    while i < cs.len()
        invariant
            i <= cs.len(),
            s@ == cs@.take(i as int),
        decreases cs.len() - i,
    {
        push_char(&mut s, cs[i]);
        i = i + 1;
        assert(s@ =~= cs@.take(i as int));
    }
    assert(cs@.take(i as int) =~= cs@);
    s
}

/// Whether two strings hold the same characters.
pub fn str_eq(a: &str, b: &str) -> (r: bool)
    ensures
        r == (a@ == b@),
{
    let x = chars_of(a);
    let y = chars_of(b);
    chars_eq(&x, &y)
}

pub fn chars_eq(x: &[char], y: &[char]) -> (r: bool)
    ensures
        r == (x@ == y@),
{
    if x.len() != y.len() {
        return false;
    }
    let mut i: usize = 0;
    while i < x.len()
        invariant
            i <= x.len(),
            x.len() == y.len(),
            forall|k: int| 0 <= k < i ==> x@[k] == y@[k],
        decreases x.len() - i,
    {
        if x[i] != y[i] {
            return false;
        }
        i = i + 1;
    }
    assert(x@ =~= y@);
    true
}

/// Whether `s` begins with `prefix`.
pub open spec fn has_prefix(s: Seq<char>, prefix: Seq<char>) -> bool {
    prefix.len() <= s.len() && s.take(prefix.len() as int) == prefix
}

pub fn chars_start_with(s: &[char], prefix: &str) -> (r: bool)
    ensures
        r == has_prefix(s@, prefix@),
{
    let p = chars_of(prefix);
    if p.len() > s.len() {
        return false;
    }
    let mut i: usize = 0;
    while i < p.len()
        invariant
            i <= p.len(),
            p.len() <= s.len(),
            p@ == prefix@,
            forall|k: int| 0 <= k < i ==> s@[k] == p@[k],
        decreases p.len() - i,
    {
        if s[i] != p[i] {
            assert(s@.take(p.len() as int)[i as int] != p@[i as int]);
            return false;
        }
        i = i + 1;
    }
    assert(s@.take(p.len() as int) =~= p@);
    true
}

// ---------------------------------------------------------------------------
// Splitting on whitespace
// ---------------------------------------------------------------------------

/// The state of a left-to-right whitespace split after reading `s`:
/// the finished words and the word being read.
pub open spec fn ws_split_state(s: Seq<char>) -> (Seq<Seq<char>>, Seq<char>)
    decreases s.len(),
{
    if s.len() == 0 {
        (seq![], seq![])
    } else {
        let (words, cur) = ws_split_state(s.drop_last());
        let c = s.last();
        if is_space(c) {
            if cur.len() > 0 {
                (words.push(cur), seq![])
            } else {
                (words, cur)
            }
        } else {
            (words, cur.push(c))
        }
    }
}

/// `str::split_whitespace`: the maximal runs of non-whitespace characters.
pub open spec fn ws_split(s: Seq<char>) -> Seq<Seq<char>> {
    let (words, cur) = ws_split_state(s);
    if cur.len() > 0 {
        words.push(cur)
    } else {
        words
    }
}

/// Every word of a whitespace split is non-empty and holds no whitespace.
pub proof fn lemma_ws_split_words(s: Seq<char>)
    ensures
        forall|i: int|
            0 <= i < ws_split(s).len() ==> (#[trigger] ws_split(s)[i]).len() > 0 && forall|j: int|
                0 <= j < ws_split(s)[i].len() ==> !is_space(#[trigger] ws_split(s)[i][j]),
{
    lemma_ws_split_state(s);
}

/// When every character of a text has a property or is whitespace, every
/// character of every word of its whitespace split has the property.
pub proof fn lemma_ws_split_chars(s: Seq<char>, prop: spec_fn(char) -> bool)
    requires
        forall|k: int| 0 <= k < s.len() ==> prop(#[trigger] s[k]) || is_space(s[k]),
    ensures
        forall|i: int, j: int|
            0 <= i < ws_split(s).len() && 0 <= j < ws_split(s)[i].len() ==> prop(
                #[trigger] ws_split(s)[i][j],
            ),
{
    lemma_ws_split_state_chars(s, prop);
    let (words, cur) = ws_split_state(s);
    if cur.len() > 0 {
        let all = words.push(cur);
        assert forall|i: int, j: int| 0 <= i < all.len() && 0 <= j < all[i].len() implies prop(
            #[trigger] all[i][j],
        ) by {
            if i < words.len() {
                assert(all[i] == words[i]);
            }
        }
    }
}

proof fn lemma_ws_split_state_chars(s: Seq<char>, prop: spec_fn(char) -> bool)
    requires
        forall|k: int| 0 <= k < s.len() ==> prop(#[trigger] s[k]) || is_space(s[k]),
    ensures
        ({
            let (words, cur) = ws_split_state(s);
            &&& forall|i: int, j: int|
                0 <= i < words.len() && 0 <= j < words[i].len() ==> prop(#[trigger] words[i][j])
            &&& forall|j: int| 0 <= j < cur.len() ==> prop(#[trigger] cur[j])
        }),
    decreases s.len(),
{
    if s.len() > 0 {
        let init = s.drop_last();
        assert forall|k: int| 0 <= k < init.len() implies prop(#[trigger] init[k]) || is_space(
            init[k],
        ) by {
            assert(init[k] == s[k]);
        }
        lemma_ws_split_state_chars(init, prop);
        let (words, cur) = ws_split_state(init);
        let c = s.last();
        assert(prop(c) || is_space(c));
        if is_space(c) {
            if cur.len() > 0 {
                let nw = words.push(cur);
                assert forall|i: int, j: int| 0 <= i < nw.len() && 0 <= j < nw[i].len() implies prop(
                    #[trigger] nw[i][j],
                ) by {
                    if i < words.len() {
                        assert(nw[i] == words[i]);
                    }
                }
            }
        } else {
            let nc = cur.push(c);
            assert forall|j: int| 0 <= j < nc.len() implies prop(#[trigger] nc[j]) by {
                if j < cur.len() {
                    assert(nc[j] == cur[j]);
                }
            }
        }
    }
}

proof fn lemma_ws_split_state(s: Seq<char>)
    ensures
        ({
            let (words, cur) = ws_split_state(s);
            &&& forall|i: int|
                0 <= i < words.len() ==> (#[trigger] words[i]).len() > 0 && forall|j: int|
                    0 <= j < words[i].len() ==> !is_space(#[trigger] words[i][j])
            &&& forall|j: int| 0 <= j < cur.len() ==> !is_space(#[trigger] cur[j])
        }),
    decreases s.len(),
{
    if s.len() > 0 {
        lemma_ws_split_state(s.drop_last());
        let (words, cur) = ws_split_state(s.drop_last());
        let c = s.last();
        if is_space(c) {
            if cur.len() > 0 {
                let nw = words.push(cur);
                assert forall|i: int| 0 <= i < nw.len() implies (#[trigger] nw[i]).len() > 0
                    && forall|j: int| 0 <= j < nw[i].len() ==> !is_space(#[trigger] nw[i][j]) by {
                    if i < words.len() {
                        assert(nw[i] == words[i]);
                    } else {
                        assert(nw[i] == cur);
                    }
                }
            }
        } else {
            let nc = cur.push(c);
            assert forall|j: int| 0 <= j < nc.len() implies !is_space(#[trigger] nc[j]) by {
                if j < cur.len() {
                    assert(nc[j] == cur[j]);
                }
            }
        }
    }
}

/// The whitespace-separated words of a character sequence.
pub fn split_whitespace_chars(s: &[char]) -> (r: Vec<Vec<char>>)
    ensures
        r.deep_view() == ws_split(s@),
{
    let mut words: Vec<Vec<char>> = Vec::new();
    let mut cur: Vec<char> = Vec::new();
    let mut i: usize = 0;
    while i < s.len()
        invariant
            i <= s.len(),
            (words.deep_view(), cur@) == ws_split_state(s@.take(i as int)),
        decreases s.len() - i,
    {
        assert(s@.take(i + 1).drop_last() =~= s@.take(i as int));
        let c = s[i];
        let ghost old_words = words.deep_view();
        if char_is_whitespace(c) {
            if cur.len() > 0 {
                assert(cur.deep_view() =~= cur@);
                words.push(cur);
                cur = Vec::new();
                assert(words.deep_view() =~= old_words.push(ws_split_state(s@.take(i as int)).1));
            }
        } else {
            cur.push(c);
        }
        i = i + 1;
    }
    assert(s@.take(i as int) =~= s@);
    if cur.len() > 0 {
        let ghost old_words = words.deep_view();
        assert(cur.deep_view() =~= cur@);
        words.push(cur);
        assert(words.deep_view() =~= old_words.push(ws_split_state(s@).1));
    }
    words
}

// ---------------------------------------------------------------------------
// Trimming
// ---------------------------------------------------------------------------

pub open spec fn trim_front(s: Seq<char>) -> Seq<char>
    decreases s.len(),
{
    if s.len() > 0 && is_space(s[0]) {
        trim_front(s.drop_first())
    } else {
        s
    }
}

pub open spec fn trim_back(s: Seq<char>) -> Seq<char>
    decreases s.len(),
{
    if s.len() > 0 && is_space(s.last()) {
        trim_back(s.drop_last())
    } else {
        s
    }
}

/// `str::trim`: the text without leading and trailing whitespace.
pub open spec fn trim(s: Seq<char>) -> Seq<char> {
    trim_back(trim_front(s))
}

/// Trimming keeps a stretch of the text: what is left is a slice of it.
pub proof fn lemma_trim_is_slice(s: Seq<char>)
    ensures
        exists|a: int, b: int| 0 <= a <= b <= s.len() && trim(s) == s.subrange(a, b),
{
    lemma_trim_front_suffix(s);
    let f = trim_front(s);
    lemma_trim_back_prefix(f);
    let a = s.len() - f.len();
    let b = a + trim_back(f).len();
    assert(trim(s) =~= s.subrange(a, b));
}

proof fn lemma_trim_front_suffix(s: Seq<char>)
    ensures
        trim_front(s).len() <= s.len(),
        trim_front(s) == s.skip(s.len() - trim_front(s).len()),
    decreases s.len(),
{
    if s.len() > 0 && is_space(s[0]) {
        lemma_trim_front_suffix(s.drop_first());
        assert(s.drop_first().skip(s.drop_first().len() - trim_front(s).len()) =~= s.skip(
            s.len() - trim_front(s).len(),
        ));
    } else {
        assert(s.skip(0) =~= s);
    }
}

proof fn lemma_trim_back_prefix(s: Seq<char>)
    ensures
        trim_back(s).len() <= s.len(),
        trim_back(s) == s.take(trim_back(s).len() as int),
    decreases s.len(),
{
    if s.len() > 0 && is_space(s.last()) {
        lemma_trim_back_prefix(s.drop_last());
        assert(s.drop_last().take(trim_back(s).len() as int) =~= s.take(trim_back(s).len() as int));
    } else {
        assert(s.take(s.len() as int) =~= s);
    }
}

/// The characters of `s` without leading and trailing whitespace.
pub fn trim_chars(s: &[char]) -> (r: Vec<char>)
    ensures
        r@ == trim(s@),
{
    let mut start: usize = 0;
    assert(s@.skip(0) =~= s@);
    while start < s.len() && char_is_whitespace(s[start])
        invariant
            start <= s.len(),
            trim_front(s@) == trim_front(s@.skip(start as int)),
        decreases s.len() - start,
    {
        assert(s@.skip(start as int).drop_first() =~= s@.skip(start + 1));
        start = start + 1;
    }
    let mut end: usize = s.len();
    let ghost front = s@.skip(start as int);
    assert(trim_front(front) == front);
    while end > start && char_is_whitespace(s[end - 1])
        invariant
            start <= end <= s.len(),
            front == s@.skip(start as int),
            trim_back(front) == trim_back(s@.subrange(start as int, end as int)),
        decreases end,
    {
        assert(s@.subrange(start as int, end as int).drop_last() =~= s@.subrange(
            start as int,
            end - 1,
        ));
        end = end - 1;
    }
    let mut out: Vec<char> = Vec::new();
    let mut k: usize = start;
    while k < end
        invariant
            start <= k <= end <= s.len(),
            out@ == s@.subrange(start as int, k as int),
        decreases end - k,
    {
        out.push(s[k]);
        k = k + 1;
        assert(out@ =~= s@.subrange(start as int, k as int));
    }
    assert(s@.subrange(start as int, end as int) == trim_back(s@.subrange(start as int, end as int)));
    out
}

/// `str::trim` on a string.
pub fn trim_str(s: &str) -> (r: String)
    ensures
        r@ == trim(s@),
{
    let cs = chars_of(s);
    let t = trim_chars(&cs);
    string_of(&t)
}

// ---------------------------------------------------------------------------
// Splitting on a character
// ---------------------------------------------------------------------------

/// Left-to-right state of splitting on `sep`: finished pieces and the piece being read.
pub open spec fn split_state(s: Seq<char>, sep: char) -> (Seq<Seq<char>>, Seq<char>)
    decreases s.len(),
{
    if s.len() == 0 {
        (seq![], seq![])
    } else {
        let (done, cur) = split_state(s.drop_last(), sep);
        if s.last() == sep {
            (done.push(cur), seq![])
        } else {
            (done, cur.push(s.last()))
        }
    }
}

/// `str::split` on one character: the pieces between separators, empty
/// ones included; there is always at least one.
pub open spec fn split_on(s: Seq<char>, sep: char) -> Seq<Seq<char>> {
    split_state(s, sep).0.push(split_state(s, sep).1)
}

/// The pieces of `s` between occurrences of `sep`.
pub fn split_chars_on(s: &[char], sep: char) -> (r: Vec<Vec<char>>)
    ensures
        r.deep_view() == split_on(s@, sep),
{
    let mut pieces: Vec<Vec<char>> = Vec::new();
    let mut cur: Vec<char> = Vec::new();
    let mut i: usize = 0;
    while i < s.len()
        invariant
            i <= s.len(),
            (pieces.deep_view(), cur@) == split_state(s@.take(i as int), sep),
        decreases s.len() - i,
    {
        assert(s@.take(i + 1).drop_last() =~= s@.take(i as int));
        let c = s[i];
        if c == sep {
            let ghost before = pieces.deep_view();
            assert(cur.deep_view() =~= cur@);
            pieces.push(cur);
            cur = Vec::new();
            assert(pieces.deep_view() =~= before.push(split_state(s@.take(i as int), sep).1));
        } else {
            cur.push(c);
        }
        i = i + 1;
    }
    assert(s@.take(i as int) =~= s@);
    let ghost before = pieces.deep_view();
    assert(cur.deep_view() =~= cur@);
    pieces.push(cur);
    assert(pieces.deep_view() =~= before.push(split_state(s@, sep).1));
    pieces
}

// ---------------------------------------------------------------------------
// Joining
// ---------------------------------------------------------------------------

/// The words written one after another with `sep` between each two.
pub open spec fn join_with(words: Seq<Seq<char>>, sep: Seq<char>) -> Seq<char>
    decreases words.len(),
{
    if words.len() == 0 {
        seq![]
    } else if words.len() == 1 {
        words[0]
    } else {
        join_with(words.drop_last(), sep) + sep + words.last()
    }
}

/// The concatenation of the words.
pub open spec fn concat_all(words: Seq<Seq<char>>) -> Seq<char>
    decreases words.len(),
{
    if words.len() == 0 {
        seq![]
    } else {
        concat_all(words.drop_last()) + words.last()
    }
}

/// Joining two lists of pieces one after the other joins their concatenations.
pub proof fn lemma_concat_all_append(a: Seq<Seq<char>>, b: Seq<Seq<char>>)
    ensures
        concat_all(a + b) == concat_all(a) + concat_all(b),
    decreases b.len(),
{
    if b.len() == 0 {
        assert(a + b =~= a);
        assert(concat_all(a) + concat_all(b) =~= concat_all(a));
    } else {
        lemma_concat_all_append(a, b.drop_last());
        assert((a + b).drop_last() =~= a + b.drop_last());
        assert(concat_all(a) + concat_all(b.drop_last()) + b.last() =~= concat_all(a) + (
        concat_all(b.drop_last()) + b.last()));
    }
}

/// The strings joined with `sep` between each two, as `[String]::join` does.
pub fn join_strings(words: &[String], sep: &str) -> (r: String)
    ensures
        r@ == join_with(words.deep_view(), sep@),
{
    let mut out = String::new();
    let mut i: usize = 0;
    let sep_chars = chars_of(sep);
    while i < words.len()
        invariant
            i <= words.len(),
            sep_chars@ == sep@,
            out@ == join_with(words.deep_view().take(i as int), sep@),
        decreases words.len() - i,
    {
        let ghost before = out@;
        assert(words.deep_view().take(i + 1).drop_last() =~= words.deep_view().take(i as int));
        if i > 0 {
            let mut k: usize = 0;
            while k < sep_chars.len()
                invariant
                    k <= sep_chars.len(),
                    out@ == before + sep_chars@.take(k as int),
                decreases sep_chars.len() - k,
            {
                push_char(&mut out, sep_chars[k]);
                k = k + 1;
                assert(out@ =~= before + sep_chars@.take(k as int));
            }
            assert(sep_chars@.take(k as int) =~= sep_chars@);
        }
        let w = chars_of(words[i].as_str());
        let ghost mid = out@;
        let mut k: usize = 0;
        while k < w.len()
            invariant
                k <= w.len(),
                out@ == mid + w@.take(k as int),
            decreases w.len() - k,
        {
            push_char(&mut out, w[k]);
            k = k + 1;
            assert(out@ =~= mid + w@.take(k as int));
        }
        assert(w@.take(k as int) =~= w@);
        i = i + 1;
        if i == 1 {
            assert(out@ =~= words.deep_view().take(1)[0]);
        }
    }
    assert(words.deep_view().take(i as int) =~= words.deep_view());
    out
}

} // verus!
