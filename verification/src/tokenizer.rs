//! Subword tokenizers: byte-pair encoding and WordPiece.
use vstd::hash_map::StringHashMap;
use vstd::prelude::*;

use crate::chars::{
    chars_of, concat_all, has_prefix, is_space, join_strings, join_with, lemma_concat_all_append,
    lowercase, push_char, split_whitespace_chars, str_to_lowercase, string_of, trim, trim_chars,
    trim_back, trim_front, ws_split,
};

verus! {

// ---------------------------------------------------------------------------
// Byte-pair encoding: merges
// ---------------------------------------------------------------------------

/// The end-of-word marker that closes every word's token list.
pub open spec fn end_marker() -> Seq<char> {
    "</w>"@
}

/// One left-to-right pass that replaces each adjacent `a`, `b` by their concatenation.
pub open spec fn merge_pass(t: Seq<Seq<char>>, a: Seq<char>, b: Seq<char>) -> Seq<Seq<char>>
    decreases t.len(),
{
    if t.len() == 0 {
        seq![]
    } else if t.len() >= 2 && t[0] == a && t[1] == b {
        seq![a + b] + merge_pass(t.skip(2), a, b)
    } else {
        seq![t[0]] + merge_pass(t.skip(1), a, b)
    }
}

/// The merges applied one after another, in order.
pub open spec fn apply_merges(t: Seq<Seq<char>>, merges: Seq<(Seq<char>, Seq<char>)>) -> Seq<
    Seq<char>,
>
    decreases merges.len(),
{
    if merges.len() == 0 {
        t
    } else {
        apply_merges(merge_pass(t, merges[0].0, merges[0].1), merges.drop_first())
    }
}

/// A word split into single characters, followed by the end-of-word marker.
pub open spec fn initial_tokens(w: Seq<char>) -> Seq<Seq<char>> {
    Seq::new(w.len(), |i: int| seq![w[i]]).push(end_marker())
}

/// The BPE tokens of a text: its lowercase characters and the marker, merged.
pub open spec fn bpe_encode_spec(merges: Seq<(Seq<char>, Seq<char>)>, text: Seq<char>) -> Seq<
    Seq<char>,
> {
    apply_merges(initial_tokens(lowercase(text)), merges)
}

/// The text with each end-of-word marker (left to right, not overlapping)
/// replaced by a space.
pub open spec fn replace_marker(s: Seq<char>) -> Seq<char>
    decreases s.len(),
{
    if s.len() == 0 {
        seq![]
    } else if s.len() >= 4 && has_prefix(s, end_marker()) {
        " "@ + replace_marker(s.skip(4))
    } else {
        seq![s[0]] + replace_marker(s.skip(1))
    }
}

/// The text that BPE tokens decode to: the tokens concatenated, markers
/// turned into spaces, and the result trimmed.
pub open spec fn bpe_decode_spec(tokens: Seq<Seq<char>>) -> Seq<char> {
    trim(replace_marker(concat_all(tokens)))
}

/// Byte Pair Encoding tokenizer with trained merge rules.
pub struct BPETokenizer {
    pub vocab: StringHashMap<usize>,
    pub merges: Vec<(String, String)>,
    pub vocab_size: usize,
}

impl Default for BPETokenizer {
    fn default() -> (t: Self)
        ensures
            t.vocab@ == Map::<Seq<char>, usize>::empty(),
            t.merges@.len() == 0,
            t.vocab_size == 0,
    {
        BPETokenizer { vocab: StringHashMap::new(), merges: Vec::new(), vocab_size: 0 }
    }
}

/// The tokens `t` after one merge pass.
pub(crate) fn merge_tokens(t: &Vec<String>, a: &String, b: &String) -> (r: Vec<String>)
    ensures
        r.deep_view() == merge_pass(t.deep_view(), a@, b@),
{
    let ghost tv = t.deep_view();
    let mut merged = a.clone();
    let bs = chars_of(b.as_str());
    let mut k: usize = 0;
    while k < bs.len()
        invariant
            k <= bs.len(),
            bs@ == b@,
            merged@ == a@ + bs@.take(k as int),
        decreases bs.len() - k,
    {
        push_char(&mut merged, bs[k]);
        k = k + 1;
        assert(merged@ =~= a@ + bs@.take(k as int));
    }
    assert(bs@.take(k as int) =~= bs@);
    let mut out: Vec<String> = Vec::new();
    let mut i: usize = 0;
    assert(tv.skip(0) =~= tv);
    while i < t.len()
        invariant
            i <= t.len(),
            tv == t.deep_view(),
            merged@ == a@ + b@,
            out.deep_view() + merge_pass(tv.skip(i as int), a@, b@) == merge_pass(tv, a@, b@),
        decreases t.len() - i,
    {
        let ghost rest = tv.skip(i as int);
        let ghost before = out.deep_view();
        if i + 1 < t.len() && t[i] == *a && t[i + 1] == *b {
            assert(rest[0] == tv[i as int] && rest[1] == tv[i + 1]);
            assert(rest.skip(2) =~= tv.skip(i + 2));
            out.push(merged.clone());
            assert(out.deep_view() =~= before + seq![a@ + b@]);
            assert(out.deep_view() + merge_pass(tv.skip(i + 2), a@, b@) =~= before + merge_pass(
                rest,
                a@,
                b@,
            ));
            i = i + 2;
        } else {
            assert(rest[0] == tv[i as int]);
            assert(i + 1 < t.len() ==> rest[1] == tv[i + 1]);
            assert(rest.skip(1) =~= tv.skip(i + 1));
            out.push(t[i].clone());
            assert(out.deep_view() =~= before + seq![tv[i as int]]);
            assert(out.deep_view() + merge_pass(tv.skip(i + 1), a@, b@) =~= before + merge_pass(
                rest,
                a@,
                b@,
            ));
            i = i + 1;
        }
    }
    assert(tv.skip(i as int) =~= Seq::<Seq<char>>::empty());
    assert(out.deep_view() + Seq::<Seq<char>>::empty() =~= out.deep_view());
    out
}

/// The merges of `merges` applied to `t` in order.
fn apply_merge_list(t: Vec<String>, merges: &Vec<(String, String)>) -> (r: Vec<String>)
    ensures
        r.deep_view() == apply_merges(t.deep_view(), merges.deep_view()),
{
    let ghost mv = merges.deep_view();
    let ghost goal = apply_merges(t.deep_view(), mv);
    let mut tokens = t;
    let mut k: usize = 0;
    assert(mv.skip(0) =~= mv);
    while k < merges.len()
        invariant
            k <= merges.len(),
            mv == merges.deep_view(),
            apply_merges(tokens.deep_view(), mv.skip(k as int)) == goal,
        decreases merges.len() - k,
    {
        let ghost rest = mv.skip(k as int);
        assert(rest[0] == mv[k as int]);
        assert(rest.drop_first() =~= mv.skip(k + 1));
        let (a, b) = &merges[k];
        assert(mv[k as int] == (a@, b@));
        tokens = merge_tokens(&tokens, a, b);
        k = k + 1;
    }
    assert(mv.skip(k as int) =~= Seq::<(Seq<char>, Seq<char>)>::empty());
    tokens
}

/// The single characters of a word followed by the end-of-word marker.
pub(crate) fn initial_token_list(w: &str) -> (r: Vec<String>)
    ensures
        r.deep_view() == initial_tokens(w@),
{
    let cs = chars_of(w);
    let mut tokens: Vec<String> = Vec::new();
    let mut i: usize = 0;
    while i < cs.len()
        invariant
            i <= cs.len(),
            cs@ == w@,
            tokens.deep_view() == Seq::new(i as nat, |k: int| seq![w@[k]]),
        decreases cs.len() - i,
    {
        let mut s = String::new();
        push_char(&mut s, cs[i]);
        assert(s@ =~= seq![w@[i as int]]);
        let ghost before = tokens.deep_view();
        let ghost sv = s@;
        tokens.push(s);
        assert(tokens.deep_view() =~= before.push(sv));
        i = i + 1;
        assert(tokens.deep_view() =~= Seq::new(i as nat, |k: int| seq![w@[k]]));
    }
    let ghost before = tokens.deep_view();
    tokens.push("</w>".to_owned());
    assert(tokens.deep_view() =~= initial_tokens(w@));
    tokens
}

impl BPETokenizer {
    /// Tokenizes a word using the learned BPE merge rules.
    pub fn encode(&self, text: &str) -> (r: Vec<String>)
        ensures
            r.deep_view() == bpe_encode_spec(self.merges.deep_view(), text@),
    {
        let word = str_to_lowercase(text);
        let tokens = initial_token_list(word.as_str());
        apply_merge_list(tokens, &self.merges)
    }

    /// Reconstructs the original word from BPE tokens.
    pub fn decode(&self, tokens: &[String]) -> (r: String)
        ensures
            r@ == bpe_decode_spec(tokens.deep_view()),
    {
        let mut all: Vec<char> = Vec::new();
        let mut i: usize = 0;
        while i < tokens.len()
            invariant
                i <= tokens.len(),
                all@ == concat_all(tokens.deep_view().take(i as int)),
            decreases tokens.len() - i,
        {
            assert(tokens.deep_view().take(i + 1).drop_last() =~= tokens.deep_view().take(
                i as int,
            ));
            let cs = chars_of(tokens[i].as_str());
            let ghost before = all@;
            let mut k: usize = 0;
            while k < cs.len()
                invariant
                    k <= cs.len(),
                    all@ == before + cs@.take(k as int),
                decreases cs.len() - k,
            {
                all.push(cs[k]);
                k = k + 1;
                assert(all@ =~= before + cs@.take(k as int));
            }
            assert(cs@.take(k as int) =~= cs@);
            i = i + 1;
        }
        assert(tokens.deep_view().take(i as int) =~= tokens.deep_view());
        let ghost joined = all@;
        let mut out: Vec<char> = Vec::new();
        let mut j: usize = 0;
        assert(joined.skip(0) =~= joined);
        while j < all.len()
            invariant
                j <= all.len(),
                joined == all@,
                out@ + replace_marker(joined.skip(j as int)) == replace_marker(joined),
            decreases all.len() - j,
        {
            let ghost rest = joined.skip(j as int);
            let is_marker = all.len() - j > 3 && all[j] == '<' && all[j + 1] == '/' && all[j
                + 2] == 'w' && all[j + 3] == '>';
            proof {
                reveal_strlit("</w>");
                reveal_strlit(" ");
                if is_marker {
                    assert(rest.take(4) =~= end_marker());
                    assert(replace_marker(rest) == " "@ + replace_marker(rest.skip(4)));
                } else if rest.len() >= 4 && has_prefix(rest, end_marker()) {
                    assert(rest.take(4)[0] == rest[0]);
                    assert(rest.take(4)[1] == rest[1]);
                    assert(rest.take(4)[2] == rest[2]);
                    assert(rest.take(4)[3] == rest[3]);
                }
            }
            let ghost before = out@;
            if is_marker {
                out.push(' ');
                assert(rest.skip(4) =~= joined.skip(j + 4));
                assert(out@ + replace_marker(joined.skip(j + 4)) =~= before + (" "@ + replace_marker(
                    rest.skip(4),
                )));
                j = j + 4;
            } else {
                out.push(all[j]);
                assert(rest.skip(1) =~= joined.skip(j + 1));
                assert(out@ + replace_marker(joined.skip(j + 1)) =~= before + (seq![rest[0]]
                    + replace_marker(rest.skip(1))));
                j = j + 1;
            }
        }
        assert(joined.skip(j as int) =~= Seq::<char>::empty());
        assert(out@ + Seq::<char>::empty() =~= out@);
        let t = trim_chars(&out);
        string_of(&t)
    }
}

// ---------------------------------------------------------------------------
// Byte-pair encoding laws
// ---------------------------------------------------------------------------

proof fn lemma_concat_all_cons(x: Seq<char>, rest: Seq<Seq<char>>)
    ensures
        concat_all(seq![x] + rest) == x + concat_all(rest),
{
    lemma_concat_all_append(seq![x], rest);
    assert(seq![x].drop_last() =~= Seq::<Seq<char>>::empty());
    assert(Seq::<char>::empty() + x =~= x);
    assert(concat_all(seq![x]) == concat_all(Seq::<Seq<char>>::empty()) + x);
}

/// A merge pass keeps the concatenation of the tokens.
pub proof fn lemma_merge_pass_concat(t: Seq<Seq<char>>, a: Seq<char>, b: Seq<char>)
    ensures
        concat_all(merge_pass(t, a, b)) == concat_all(t),
    decreases t.len(),
{
    if t.len() == 0 {
    } else if t.len() >= 2 && t[0] == a && t[1] == b {
        lemma_merge_pass_concat(t.skip(2), a, b);
        lemma_concat_all_cons(a + b, merge_pass(t.skip(2), a, b));
        assert(t =~= seq![a] + (seq![b] + t.skip(2)));
        lemma_concat_all_cons(a, seq![b] + t.skip(2));
        lemma_concat_all_cons(b, t.skip(2));
        assert(a + b + concat_all(t.skip(2)) =~= a + (b + concat_all(t.skip(2))));
    } else {
        lemma_merge_pass_concat(t.skip(1), a, b);
        lemma_concat_all_cons(t[0], merge_pass(t.skip(1), a, b));
        assert(t =~= seq![t[0]] + t.skip(1));
        lemma_concat_all_cons(t[0], t.skip(1));
    }
}

/// Merging keeps the concatenation of the tokens.
pub proof fn lemma_apply_merges_concat(t: Seq<Seq<char>>, merges: Seq<(Seq<char>, Seq<char>)>)
    ensures
        concat_all(apply_merges(t, merges)) == concat_all(t),
    decreases merges.len(),
{
    if merges.len() > 0 {
        lemma_merge_pass_concat(t, merges[0].0, merges[0].1);
        lemma_apply_merges_concat(merge_pass(t, merges[0].0, merges[0].1), merges.drop_first());
    }
}

proof fn lemma_initial_concat(w: Seq<char>)
    ensures
        concat_all(initial_tokens(w)) == w + end_marker(),
    decreases w.len(),
{
    let singles = Seq::new(w.len(), |i: int| seq![w[i]]);
    lemma_singles_concat(w);
    assert(initial_tokens(w).drop_last() =~= singles);
}

proof fn lemma_singles_concat(w: Seq<char>)
    ensures
        concat_all(Seq::new(w.len(), |i: int| seq![w[i]])) == w,
    decreases w.len(),
{
    if w.len() > 0 {
        lemma_singles_concat(w.drop_last());
        assert(Seq::new(w.len(), |i: int| seq![w[i]]).drop_last() =~= Seq::new(
            w.drop_last().len(),
            |i: int| seq![w.drop_last()[i]],
        ));
        assert(w.drop_last() + seq![w.last()] =~= w);
    }
}

/// BPE law: the tokens of a word concatenate to its lowercase form followed
/// by the end-of-word marker.
pub proof fn lemma_bpe_encode_concat(merges: Seq<(Seq<char>, Seq<char>)>, text: Seq<char>)
    ensures
        concat_all(bpe_encode_spec(merges, text)) == lowercase(text) + end_marker(),
{
    lemma_apply_merges_concat(initial_tokens(lowercase(text)), merges);
    lemma_initial_concat(lowercase(text));
}

/// The text holds no end-of-word marker `</w>`.
pub open spec fn no_marker(s: Seq<char>) -> bool {
    forall|k: int| 0 <= k && k + 4 <= s.len() ==> #[trigger] s.subrange(k, k + 4) != end_marker()
}

proof fn lemma_replace_marker_plain(s: Seq<char>)
    requires
        no_marker(s),
    ensures
        replace_marker(s + end_marker()) == s + " "@,
    decreases s.len(),
{
    reveal_strlit("</w>");
    reveal_strlit(" ");
    let m = end_marker();
    if s.len() == 0 {
        assert(s + m =~= m);
        assert(has_prefix(m, m)) by {
            assert(m.take(4) =~= m);
        }
        assert(m.skip(4) =~= Seq::<char>::empty());
        assert(replace_marker(m) == " "@ + replace_marker(m.skip(4)));
        assert(replace_marker(Seq::<char>::empty()) == Seq::<char>::empty());
        assert(s + " "@ =~= " "@);
        assert(" "@ + Seq::<char>::empty() =~= " "@);
    } else {
        let t = s + m;
        assert(m[0] == '<' && m[1] == '/' && m[2] == 'w' && m[3] == '>');
        assert(!has_prefix(t, m)) by {
            if has_prefix(t, m) {
                let p = t.take(4);
                assert(p == m);
                if s.len() >= 4 {
                    assert(s.subrange(0int, 0int + 4) != m);
                    assert(s.subrange(0, 4) =~= p);
                } else if s.len() == 1 {
                    assert(p[1] == m[0]);
                } else if s.len() == 2 {
                    assert(p[2] == m[0]);
                } else {
                    assert(p[3] == m[0]);
                }
            }
        }
        assert(t.skip(1) =~= s.skip(1) + m);
        assert(no_marker(s.skip(1))) by {
            assert forall|k: int| 0 <= k && k + 4 <= s.skip(1).len() implies #[trigger] s.skip(
                1,
            ).subrange(k, k + 4) != m by {
                assert(s.subrange(k + 1, (k + 1) + 4) != m);
                assert(s.skip(1).subrange(k, k + 4) =~= s.subrange(k + 1, k + 5));
            }
        }
        lemma_replace_marker_plain(s.skip(1));
        assert(t.len() >= 4);
        assert(replace_marker(t) == seq![t[0]] + replace_marker(t.skip(1)));
        assert(seq![s[0]] + (s.skip(1) + " "@) =~= s + " "@);
    }
}

/// BPE law: decoding the tokens of a word gives back its lowercase form when
/// that form holds no end-of-word marker `</w>` and no whitespace at its ends.
pub proof fn lemma_bpe_roundtrip(merges: Seq<(Seq<char>, Seq<char>)>, text: Seq<char>)
    requires
        no_marker(lowercase(text)),
        trim(lowercase(text)) == lowercase(text),
    ensures
        bpe_decode_spec(bpe_encode_spec(merges, text)) == lowercase(text),
{
    let lw = lowercase(text);
    lemma_bpe_encode_concat(merges, text);
    lemma_replace_marker_plain(lw);
    reveal_strlit(" ");
    let t = lw + " "@;
    assert(is_space(' '));
    if lw.len() == 0 {
        assert(t =~= " "@);
        assert(" "@.drop_first() =~= Seq::<char>::empty());
        assert(trim_front(t) == trim_front(Seq::<char>::empty()));
        assert(trim(t) =~= Seq::<char>::empty());
    } else {
        lemma_trim_keeps(lw);
        assert(t[0] == lw[0]);
        assert(trim_front(t) == t);
        assert(t.drop_last() =~= lw);
        assert(trim_back(t) == trim_back(lw));
    }
}

proof fn lemma_trim_keeps(s: Seq<char>)
    requires
        s.len() > 0,
        trim(s) == s,
    ensures
        !is_space(s[0]),
        trim_back(s) == s,
{
    lemma_trim_front_shrinks(s);
    lemma_trim_back_shrinks(trim_front(s));
    if is_space(s[0]) {
        lemma_trim_front_shrinks(s.drop_first());
    }
    assert(trim_front(s) == s);
}

proof fn lemma_trim_front_shrinks(s: Seq<char>)
    ensures
        trim_front(s).len() <= s.len(),
        trim_front(s).len() == s.len() ==> trim_front(s) == s,
    decreases s.len(),
{
    if s.len() > 0 && is_space(s[0]) {
        lemma_trim_front_shrinks(s.drop_first());
    }
}

proof fn lemma_trim_back_shrinks(s: Seq<char>)
    ensures
        trim_back(s).len() <= s.len(),
        trim_back(s).len() == s.len() ==> trim_back(s) == s,
    decreases s.len(),
{
    if s.len() > 0 && is_space(s.last()) {
        lemma_trim_back_shrinks(s.drop_last());
    }
}

// ---------------------------------------------------------------------------
// WordPiece
// ---------------------------------------------------------------------------

/// The continuation prefix of WordPiece pieces that do not start a word.
pub open spec fn continuation_prefix() -> Seq<char> {
    "##"@
}

/// The end of the longest piece `c[i..e]` with `i < e <= j` that the
/// vocabulary holds, or `i` when it holds none.
pub open spec fn longest_match_end(dom: Set<Seq<char>>, c: Seq<char>, i: int, j: int) -> int
    decreases j - i,
{
    if j <= i {
        i
    } else if dom.contains(c.subrange(i, j)) {
        j
    } else {
        longest_match_end(dom, c, i, j - 1)
    }
}

/// The longest vocabulary match starting at `i` ends between `i` and `j`, is a
/// vocabulary entry when it is not empty, and is not empty when the single
/// character at `i` is an entry.
pub proof fn lemma_longest_match_end_bounds(dom: Set<Seq<char>>, c: Seq<char>, i: int, j: int)
    requires
        i <= j,
    ensures
        i <= longest_match_end(dom, c, i, j) <= j,
        longest_match_end(dom, c, i, j) > i ==> dom.contains(
            c.subrange(i, longest_match_end(dom, c, i, j)),
        ),
        i < j && dom.contains(c.subrange(i, i + 1)) ==> longest_match_end(dom, c, i, j) > i,
    decreases j - i,
{
    if j > i && !dom.contains(c.subrange(i, j)) {
        lemma_longest_match_end_bounds(dom, c, i, j - 1);
    }
}

/// The greedy longest-match pieces of `c` from position `i`: matched pieces,
/// `##`-prefixed after the first position, and `unk` for each character that
/// starts no match.
pub open spec fn wordpiece_pieces_from(
    dom: Set<Seq<char>>,
    c: Seq<char>,
    i: int,
    unk: Seq<char>,
) -> Seq<Seq<char>>
    decreases c.len() - i,
{
    if i < 0 || i >= c.len() {
        seq![]
    } else {
        let e = longest_match_end(dom, c, i, c.len() as int);
        proof {
            lemma_longest_match_end_bounds(dom, c, i, c.len() as int);
        }
        if e > i {
            seq![
                (if i == 0 {
                    Seq::<char>::empty()
                } else {
                    continuation_prefix()
                }) + c.subrange(i, e),
            ] + wordpiece_pieces_from(dom, c, e, unk)
        } else {
            seq![unk] + wordpiece_pieces_from(dom, c, i + 1, unk)
        }
    }
}

/// The WordPiece tokens of one word: the greedy pieces of its lowercase form.
pub open spec fn wordpiece_encode_word_spec(
    dom: Set<Seq<char>>,
    unk: Seq<char>,
    word: Seq<char>,
) -> Seq<Seq<char>> {
    wordpiece_pieces_from(dom, lowercase(word), 0, unk)
}

/// The WordPiece tokens of whitespace-separated words, in order.
pub open spec fn wordpiece_encode_words(
    dom: Set<Seq<char>>,
    unk: Seq<char>,
    words: Seq<Seq<char>>,
) -> Seq<Seq<char>>
    decreases words.len(),
{
    if words.len() == 0 {
        seq![]
    } else {
        wordpiece_encode_words(dom, unk, words.drop_last()) + wordpiece_encode_word_spec(
            dom,
            unk,
            words.last(),
        )
    }
}

/// Reading tokens left to right: `##` pieces extend the current word, any
/// other token starts a new word.
pub open spec fn wordpiece_decode_fold(
    words: Seq<Seq<char>>,
    cur: Seq<char>,
    tokens: Seq<Seq<char>>,
) -> Seq<Seq<char>>
    decreases tokens.len(),
{
    if tokens.len() == 0 {
        if cur.len() > 0 {
            words.push(cur)
        } else {
            words
        }
    } else {
        let t = tokens[0];
        if has_prefix(t, continuation_prefix()) {
            wordpiece_decode_fold(words, cur + t.skip(2), tokens.drop_first())
        } else if cur.len() > 0 {
            wordpiece_decode_fold(words.push(cur), t, tokens.drop_first())
        } else {
            wordpiece_decode_fold(words, t, tokens.drop_first())
        }
    }
}

/// The words that WordPiece tokens decode to, joined by single spaces.
pub open spec fn wordpiece_decode_spec(tokens: Seq<Seq<char>>) -> Seq<char> {
    join_with(wordpiece_decode_fold(seq![], seq![], tokens), " "@)
}

/// WordPiece tokenizer with a fixed vocabulary and greedy longest-match encoding.
///
/// Used by BERT-style models. Subword pieces that are not word beginnings
/// are prefixed with `##`.
pub struct WordPieceTokenizer {
    pub vocab: StringHashMap<usize>,
    pub vocab_size: usize,
    pub unk_token: String,
}

impl WordPieceTokenizer {
    /// Creates a WordPiece tokenizer from an existing vocabulary map.
    pub fn from_vocab(vocab: StringHashMap<usize>) -> (r: Self)
        ensures
            r.vocab@ == vocab@,
            r.vocab_size == vocab@.len(),
            r.unk_token@ == "[UNK]"@,
    {
        let vocab_size = vocab.len();
        Self { vocab, vocab_size, unk_token: "[UNK]".to_owned() }
    }

    /// Encodes a word into WordPiece tokens using greedy longest-match.
    pub fn encode_word(&self, word: &str) -> (r: Vec<String>)
        ensures
            r.deep_view() == wordpiece_encode_word_spec(self.vocab@.dom(), self.unk_token@, word@),
    {
        let text = str_to_lowercase(word);
        let chars = chars_of(text.as_str());
        let ghost c = chars@;
        let ghost dom = self.vocab@.dom();
        let ghost unk = self.unk_token@;
        let n = chars.len();
        let mut tokens: Vec<String> = Vec::new();
        let mut i: usize = 0;
        while i < n
            invariant
                n == chars.len(),
                c == chars@,
                dom == self.vocab@.dom(),
                unk == self.unk_token@,
                i <= n,
                tokens.deep_view() + wordpiece_pieces_from(dom, c, i as int, unk)
                    == wordpiece_pieces_from(dom, c, 0, unk),
            decreases n - i,
        {
            let mut j: usize = i;
            let mut best: usize = i;
            let mut cand = String::new();
            let mut best_str = String::new();
            assert(cand@ =~= c.subrange(i as int, j as int));
            while j < n
                invariant
                    n == chars.len(),
                    c == chars@,
                    dom == self.vocab@.dom(),
                    i < n,
                    i <= j <= n,
                    cand@ == c.subrange(i as int, j as int),
                    best == longest_match_end(dom, c, i as int, j as int),
                    best > i ==> best_str@ == c.subrange(i as int, best as int),
                decreases n - j,
            {
                push_char(&mut cand, chars[j]);
                j = j + 1;
                assert(cand@ =~= c.subrange(i as int, j as int));
                if self.vocab.contains_key(cand.as_str()) {
                    best = j;
                    best_str = cand.clone();
                }
            }
            proof {
                lemma_longest_match_end_bounds(dom, c, i as int, n as int);
            }
            let ghost before = tokens.deep_view();
            let ghost rest = wordpiece_pieces_from(dom, c, i as int, unk);
            if best > i {
                let piece = if i == 0 {
                    best_str
                } else {
                    let mut p = "##".to_owned();
                    let bs = chars_of(best_str.as_str());
                    let mut k: usize = 0;
                    while k < bs.len()
                        invariant
                            k <= bs.len(),
                            p@ == continuation_prefix() + bs@.take(k as int),
                        decreases bs.len() - k,
                    {
                        push_char(&mut p, bs[k]);
                        k = k + 1;
                        assert(p@ =~= continuation_prefix() + bs@.take(k as int));
                    }
                    assert(bs@.take(k as int) =~= bs@);
                    p
                };
                assert(i == 0 ==> piece@ =~= Seq::<char>::empty() + c.subrange(
                    i as int,
                    best as int,
                ));
                tokens.push(piece);
                assert(tokens.deep_view() =~= before.push(piece@));
                assert(before + rest =~= tokens.deep_view() + wordpiece_pieces_from(
                    dom,
                    c,
                    best as int,
                    unk,
                ));
                i = best;
            } else {
                tokens.push(self.unk_token.clone());
                assert(tokens.deep_view() =~= before.push(unk));
                assert(before + rest =~= tokens.deep_view() + wordpiece_pieces_from(
                    dom,
                    c,
                    i + 1,
                    unk,
                ));
                i = i + 1;
            }
        }
        assert(tokens.deep_view() + Seq::<Seq<char>>::empty() =~= tokens.deep_view());
        tokens
    }

    /// Encodes a full sentence into WordPiece tokens.
    pub fn encode(&self, text: &str) -> (r: Vec<String>)
        ensures
            r.deep_view() == wordpiece_encode_words(
                self.vocab@.dom(),
                self.unk_token@,
                ws_split(text@),
            ),
    {
        let cs = chars_of(text);
        let words = split_whitespace_chars(&cs);
        let ghost wv = words.deep_view();
        let ghost dom = self.vocab@.dom();
        let ghost unk = self.unk_token@;
        let mut all_tokens: Vec<String> = Vec::new();
        let mut k: usize = 0;
        while k < words.len()
            invariant
                k <= words.len(),
                wv == words.deep_view(),
                dom == self.vocab@.dom(),
                unk == self.unk_token@,
                all_tokens.deep_view() == wordpiece_encode_words(dom, unk, wv.take(k as int)),
            decreases words.len() - k,
        {
            assert(wv.take(k + 1).drop_last() =~= wv.take(k as int));
            assert(words[k as int]@ == wv[k as int]);
            let w = string_of(words[k].as_slice());
            let pieces = self.encode_word(w.as_str());
            let ghost pv = pieces.deep_view();
            let ghost base = all_tokens.deep_view();
            let mut m: usize = 0;
            while m < pieces.len()
                invariant
                    m <= pieces.len(),
                    pv == pieces.deep_view(),
                    all_tokens.deep_view() == base + pv.take(m as int),
                decreases pieces.len() - m,
            {
                let ghost prev = all_tokens.deep_view();
                all_tokens.push(pieces[m].clone());
                assert(all_tokens.deep_view() =~= prev.push(pv[m as int]));
                m = m + 1;
                assert(all_tokens.deep_view() =~= base + pv.take(m as int));
            }
            assert(pv.take(m as int) =~= pv);
            k = k + 1;
        }
        assert(wv.take(k as int) =~= wv);
        all_tokens
    }

    /// Decodes WordPiece tokens back into a string.
    pub fn decode(&self, tokens: &[String]) -> (r: String)
        ensures
            r@ == wordpiece_decode_spec(tokens.deep_view()),
    {
        let ghost tv = tokens.deep_view();
        let mut words: Vec<String> = Vec::new();
        let mut current = String::new();
        let mut i: usize = 0;
        assert(tv.skip(0) =~= tv);
        assert(words.deep_view() =~= Seq::<Seq<char>>::empty());
        assert(current@ =~= Seq::<char>::empty());
        while i < tokens.len()
            invariant
                i <= tokens.len(),
                tv == tokens.deep_view(),
                wordpiece_decode_fold(words.deep_view(), current@, tv.skip(i as int))
                    == wordpiece_decode_fold(seq![], seq![], tv),
            decreases tokens.len() - i,
        {
            let ghost rest = tv.skip(i as int);
            assert(rest[0] == tv[i as int]);
            assert(rest.drop_first() =~= tv.skip(i + 1));
            let token = &tokens[i];
            let tc = chars_of(token.as_str());
            if tc.len() >= 2 && tc[0] == '#' && tc[1] == '#' {
                proof {
                    reveal_strlit("##");
                    assert(token@.take(2) =~= continuation_prefix());
                }
                let ghost before = current@;
                let mut k: usize = 2;
                while k < tc.len()
                    invariant
                        2 <= k <= tc.len(),
                        current@ == before + tc@.subrange(2, k as int),
                    decreases tc.len() - k,
                {
                    push_char(&mut current, tc[k]);
                    k = k + 1;
                    assert(current@ =~= before + tc@.subrange(2, k as int));
                }
                assert(tc@.subrange(2, k as int) =~= token@.skip(2));
            } else {
                proof {
                    reveal_strlit("##");
                    if has_prefix(token@, continuation_prefix()) {
                        assert(token@.take(2)[0] == token@[0]);
                        assert(token@.take(2)[1] == token@[1]);
                    }
                }
                if !current.as_str().is_empty() {
                    let ghost before = words.deep_view();
                    let ghost cur_old = current@;
                    words.push(current);
                    assert(words.deep_view() =~= before.push(cur_old));
                    current = token.clone();
                } else {
                    current = token.clone();
                }
            }
            i = i + 1;
        }
        assert(tv.skip(i as int) =~= Seq::<Seq<char>>::empty());
        if !current.as_str().is_empty() {
            let ghost before = words.deep_view();
            let ghost cur_old = current@;
            words.push(current);
            assert(words.deep_view() =~= before.push(cur_old));
        }
        join_strings(&words, " ")
    }
}

/// WordPiece law: decoding the tokens of a word gives back its lowercase
/// form when each of its characters is itself a vocabulary entry and it holds
/// no `#`.
pub proof fn lemma_wordpiece_roundtrip(dom: Set<Seq<char>>, unk: Seq<char>, word: Seq<char>)
    requires
        forall|i: int| 0 <= i < lowercase(word).len() ==> dom.contains(seq![lowercase(word)[i]]),
        !lowercase(word).contains('#'),
    ensures
        wordpiece_decode_spec(wordpiece_encode_word_spec(dom, unk, word)) == lowercase(word),
{
    let c = lowercase(word);
    reveal_strlit("##");
    if c.len() == 0 {
        assert(wordpiece_encode_word_spec(dom, unk, word) == Seq::<Seq<char>>::empty());
        assert(join_with(Seq::<Seq<char>>::empty(), " "@) == Seq::<char>::empty());
    } else {
        let n = c.len() as int;
        lemma_longest_match_end_bounds(dom, c, 0, n);
        assert(c.subrange(0, 1) =~= seq![c[0]]);
        let e = longest_match_end(dom, c, 0, n);
        let t = Seq::<char>::empty() + c.subrange(0, e);
        let pieces = wordpiece_pieces_from(dom, c, 0, unk);
        assert(pieces == seq![t] + wordpiece_pieces_from(dom, c, e, unk));
        assert(pieces[0] == t);
        assert((seq![t] + wordpiece_pieces_from(dom, c, e, unk)).drop_first() =~= wordpiece_pieces_from(dom, c, e, unk));
        assert(!has_prefix(t, continuation_prefix())) by {
            if has_prefix(t, continuation_prefix()) {
                assert(t.take(2)[0] == t[0]);
                assert(t[0] == c[0]);
                assert(c.contains(c[0]));
            }
        }
        assert(t =~= c.take(e));
        lemma_wordpiece_fold(dom, c, e, unk);
        assert(wordpiece_decode_fold(seq![], seq![], pieces) == seq![c]);
        assert(join_with(seq![c], " "@) == c);
    }
}

proof fn lemma_wordpiece_fold(dom: Set<Seq<char>>, c: Seq<char>, i: int, unk: Seq<char>)
    requires
        0 < i <= c.len(),
        forall|k: int| 0 <= k < c.len() ==> dom.contains(seq![c[k]]),
    ensures
        wordpiece_decode_fold(seq![], c.take(i), wordpiece_pieces_from(dom, c, i, unk)) == seq![c],
    decreases c.len() - i,
{
    reveal_strlit("##");
    if i == c.len() {
        assert(c.take(i) =~= c);
    } else {
        let n = c.len() as int;
        lemma_longest_match_end_bounds(dom, c, i, n);
        assert(c.subrange(i, i + 1) =~= seq![c[i]]);
        let e = longest_match_end(dom, c, i, n);
        let t = continuation_prefix() + c.subrange(i, e);
        let rest = wordpiece_pieces_from(dom, c, e, unk);
        assert(wordpiece_pieces_from(dom, c, i, unk) == seq![t] + rest);
        assert((seq![t] + rest)[0] == t);
        assert((seq![t] + rest).drop_first() =~= rest);
        assert(t.take(2) =~= continuation_prefix());
        assert(c.take(i) + t.skip(2) =~= c.take(e));
        lemma_wordpiece_fold(dom, c, e, unk);
    }
}

} // verus!
