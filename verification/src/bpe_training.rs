//! Learning byte-pair merges from a corpus.
//!
//! Training words are held as token lists; each round counts the adjacent
//! token pairs over all words, merges a most frequent one everywhere and
//! records the merged token in the vocabulary.
use vstd::hash_map::StringHashMap;
use vstd::prelude::*;

use crate::chars::{
    ascii_lower_char, is_ascii_char, is_ascii_chars, is_ascii_upper, lemma_trim_is_slice, lowercase,
    str_to_lowercase, trim, trim_str,
};
use crate::tokenizer::{
    apply_merges, bpe_encode_spec, initial_token_list, initial_tokens, merge_pass, merge_tokens,
    BPETokenizer,
};

verus! {

// ---------------------------------------------------------------------------
// The model of training
// ---------------------------------------------------------------------------

/// The words a corpus trains on: each lowercased, then trimmed; empty ones
/// are left out.
pub open spec fn training_words(corpus: Seq<Seq<char>>) -> Seq<Seq<char>>
    decreases corpus.len(),
{
    if corpus.len() == 0 {
        seq![]
    } else {
        let prev = training_words(corpus.drop_last());
        let w = trim(lowercase(corpus.last()));
        if w.len() == 0 {
            prev
        } else {
            prev.push(w)
        }
    }
}

/// The token list of each training word after the merges.
pub open spec fn merged_states(words: Seq<Seq<char>>, merges: Seq<(Seq<char>, Seq<char>)>) -> Seq<
    Seq<Seq<char>>,
> {
    Seq::new(words.len(), |i: int| apply_merges(initial_tokens(words[i]), merges))
}

/// How often `a` stands directly before `b` in one token list.
pub open spec fn pair_occurrences(t: Seq<Seq<char>>, a: Seq<char>, b: Seq<char>) -> int
    decreases t.len(),
{
    if t.len() < 2 {
        0
    } else {
        pair_occurrences(t.drop_last(), a, b) + if t[t.len() - 2] == a && t[t.len() - 1] == b {
            1int
        } else {
            0int
        }
    }
}

/// How often `a` stands directly before `b`, over all token lists.
pub open spec fn pair_count(states: Seq<Seq<Seq<char>>>, a: Seq<char>, b: Seq<char>) -> int
    decreases states.len(),
{
    if states.len() == 0 {
        0
    } else {
        pair_count(states.drop_last(), a, b) + pair_occurrences(states.last(), a, b)
    }
}

/// A count as a machine-width counter records it: it stops at the largest value.
pub open spec fn capped(x: int) -> int {
    if x < usize::MAX {
        x
    } else {
        usize::MAX as int
    }
}

/// Position `j` of list `i` starts a pair of adjacent tokens.
pub open spec fn is_position(states: Seq<Seq<Seq<char>>>, i: int, j: int) -> bool {
    0 <= i < states.len() && 0 <= j && j + 1 < states[i].len()
}

/// The adjacent tokens at position `j` of list `i`.
pub open spec fn pair_at(states: Seq<Seq<Seq<char>>>, i: int, j: int) -> (Seq<char>, Seq<char>) {
    (states[i][j], states[i][j + 1])
}

/// `a` stands directly before `b` somewhere.
pub open spec fn pair_occurs(states: Seq<Seq<Seq<char>>>, a: Seq<char>, b: Seq<char>) -> bool {
    exists|i: int, j: int| is_position(states, i, j) && #[trigger] pair_at(states, i, j) == (a, b)
}

/// `(a, b)` occurs, and no pair occurs more often (counts capped at machine width).
pub open spec fn is_most_frequent_pair(
    states: Seq<Seq<Seq<char>>>,
    a: Seq<char>,
    b: Seq<char>,
) -> bool {
    &&& pair_occurs(states, a, b)
    &&& forall|x: Seq<char>, y: Seq<char>|
        #[trigger] capped(pair_count(states, x, y)) <= capped(pair_count(states, a, b))
}

/// No list holds two tokens, so no pair is left to merge.
pub open spec fn fully_merged(states: Seq<Seq<Seq<char>>>) -> bool {
    forall|i: int| 0 <= i < states.len() ==> #[trigger] states[i].len() <= 1
}

/// The number of tokens over all lists.
pub open spec fn total_tokens(states: Seq<Seq<Seq<char>>>) -> int
    decreases states.len(),
{
    if states.len() == 0 {
        0
    } else {
        total_tokens(states.drop_last()) + states.last().len()
    }
}

/// The initial tokens of the words, word after word.
pub open spec fn initial_token_stream(words: Seq<Seq<char>>) -> Seq<Seq<char>>
    decreases words.len(),
{
    if words.len() == 0 {
        seq![]
    } else {
        initial_token_stream(words.drop_last()) + initial_tokens(words.last())
    }
}

/// The distinct tokens in order of first appearance, each mapped to its position.
pub open spec fn numbered(tokens: Seq<Seq<char>>) -> (Seq<Seq<char>>, Map<Seq<char>, usize>)
    decreases tokens.len(),
{
    if tokens.len() == 0 {
        (seq![], Map::empty())
    } else {
        let prev = numbered(tokens.drop_last());
        let t = tokens.last();
        if prev.0.contains(t) {
            prev
        } else {
            (prev.0.push(t), prev.1.insert(t, prev.0.len() as usize))
        }
    }
}

/// The vocabulary after recording the merges in order: each merged token
/// gets the number of distinct tokens at that moment as its id, also when
/// it was already present.
pub open spec fn with_merges(
    start: (Seq<Seq<char>>, Map<Seq<char>, usize>),
    merges: Seq<(Seq<char>, Seq<char>)>,
) -> (Seq<Seq<char>>, Map<Seq<char>, usize>)
    decreases merges.len(),
{
    if merges.len() == 0 {
        start
    } else {
        let prev = with_merges(start, merges.drop_last());
        let s = merges.last().0 + merges.last().1;
        (
            if prev.0.contains(s) {
                prev.0
            } else {
                prev.0.push(s)
            },
            prev.1.insert(s, prev.0.len() as usize),
        )
    }
}

/// The distinct tokens and the id map of a vocabulary trained on `words`
/// with the given merges.
pub open spec fn trained_vocab(words: Seq<Seq<char>>, merges: Seq<(Seq<char>, Seq<char>)>) -> (
    Seq<Seq<char>>,
    Map<Seq<char>, usize>,
) {
    with_merges(numbered(initial_token_stream(words)), merges)
}

/// The id map holds exactly the listed tokens, and the list repeats none.
pub open spec fn consistent(v: (Seq<Seq<char>>, Map<Seq<char>, usize>)) -> bool {
    &&& v.1.dom() == v.0.to_set()
    &&& v.0.no_duplicates()
}

// ---------------------------------------------------------------------------
// Lemmas
// ---------------------------------------------------------------------------

/// The numbering of a token stream is consistent and maps each listed token
/// to its position.
pub proof fn lemma_numbered(tokens: Seq<Seq<char>>)
    ensures
        consistent(numbered(tokens)),
        forall|k: int|
            0 <= k < numbered(tokens).0.len() ==> numbered(tokens).1[#[trigger] numbered(
                tokens,
            ).0[k]] == k as usize,
    decreases tokens.len(),
{
    if tokens.len() == 0 {
        assert(numbered(tokens).1.dom() =~= numbered(tokens).0.to_set());
    } else {
        lemma_numbered(tokens.drop_last());
        let prev = numbered(tokens.drop_last());
        let t = tokens.last();
        let cur = numbered(tokens);
        if prev.0.contains(t) {
            assert(cur == prev);
        } else {
            prev.0.lemma_push_to_set_commute(t);
            assert(cur == (prev.0.push(t), prev.1.insert(t, prev.0.len() as usize)));
            assert(cur.1.dom() =~= cur.0.to_set());
            assert forall|i: int, j: int| 0 <= i < cur.0.len() && 0 <= j < cur.0.len() && i != j
                implies cur.0[i] != cur.0[j] by {
                if i < prev.0.len() && j < prev.0.len() {
                    assert(cur.0[i] == prev.0[i] && cur.0[j] == prev.0[j]);
                } else if i < prev.0.len() {
                    assert(cur.0[i] == prev.0[i]);
                    assert(prev.0.contains(prev.0[i]));
                } else if j < prev.0.len() {
                    assert(cur.0[j] == prev.0[j]);
                    assert(prev.0.contains(prev.0[j]));
                }
            }
            assert(cur.0.no_duplicates());
            assert forall|k: int| 0 <= k < cur.0.len() implies cur.1[#[trigger] cur.0[k]]
                == k as usize by {
                if k < prev.0.len() {
                    assert(cur.0[k] == prev.0[k]);
                    assert(prev.0.contains(prev.0[k]));
                    assert(prev.0[k] != t);
                }
            }
        }
    }
}

/// Recording merges keeps a vocabulary consistent.
pub proof fn lemma_with_merges_consistent(
    start: (Seq<Seq<char>>, Map<Seq<char>, usize>),
    merges: Seq<(Seq<char>, Seq<char>)>,
)
    requires
        consistent(start),
    ensures
        consistent(with_merges(start, merges)),
    decreases merges.len(),
{
    if merges.len() > 0 {
        lemma_with_merges_consistent(start, merges.drop_last());
        let prev = with_merges(start, merges.drop_last());
        let s = merges.last().0 + merges.last().1;
        let cur = with_merges(start, merges);
        if prev.0.contains(s) {
            assert(cur.1.dom() =~= cur.0.to_set());
        } else {
            prev.0.lemma_push_to_set_commute(s);
            assert(cur.1.dom() =~= cur.0.to_set());
        }
    }
}

/// Vocabulary law: the size a trained tokenizer reports is the number of
/// entries of its vocabulary, and no token is listed twice.
pub proof fn lemma_trained_vocab_size(words: Seq<Seq<char>>, merges: Seq<(Seq<char>, Seq<char>)>)
    ensures
        trained_vocab(words, merges).1.dom().len() == trained_vocab(words, merges).0.len(),
        trained_vocab(words, merges).0.no_duplicates(),
{
    lemma_numbered(initial_token_stream(words));
    lemma_with_merges_consistent(numbered(initial_token_stream(words)), merges);
    trained_vocab(words, merges).0.unique_seq_to_set();
}

/// Recording merges adds at most one token per merge, keeps every token
/// listed, and gives every merged pair's concatenation an id.
proof fn lemma_with_merges_grow(
    start: (Seq<Seq<char>>, Map<Seq<char>, usize>),
    merges: Seq<(Seq<char>, Seq<char>)>,
)
    ensures
        with_merges(start, merges).0.len() <= start.0.len() + merges.len(),
        with_merges(start, merges).0.len() >= start.0.len(),
        forall|k: int|
            0 <= k < merges.len() ==> with_merges(start, merges).1.dom().contains(
                #[trigger] merges[k].0 + merges[k].1,
            ),
    decreases merges.len(),
{
    if merges.len() > 0 {
        let init = merges.drop_last();
        lemma_with_merges_grow(start, init);
        let cur = with_merges(start, merges);
        assert forall|k: int| 0 <= k < merges.len() implies cur.1.dom().contains(
            #[trigger] merges[k].0 + merges[k].1,
        ) by {
            if k < init.len() {
                assert(init[k] == merges[k]);
            }
        }
    }
}

/// Training law: a trained BPE vocabulary holds the concatenation of every
/// merged pair, and it grows past its starting tokens (the distinct
/// characters and the end-of-word marker) only while it is below the
/// target, so it ends no larger than the larger of the two.
pub proof fn lemma_trained_vocab_bounds(
    words: Seq<Seq<char>>,
    merges: Seq<(Seq<char>, Seq<char>)>,
    target: usize,
)
    requires
        merges_justified(words, merges, target),
    ensures
        forall|k: int|
            0 <= k < merges.len() ==> trained_vocab(words, merges).1.dom().contains(
                #[trigger] merges[k].0 + merges[k].1,
            ),
        trained_vocab(words, merges).0.len() <= if target as nat >= numbered(
            initial_token_stream(words),
        ).0.len() {
            target as nat
        } else {
            numbered(initial_token_stream(words)).0.len()
        },
{
    let start = numbered(initial_token_stream(words));
    lemma_with_merges_grow(start, merges);
    if merges.len() > 0 {
        let k = merges.len() - 1;
        assert(step_justified(words, merges, k, target));
        assert(merges.take(k) =~= merges.drop_last());
        let prev = with_merges(start, merges.drop_last());
        assert(prev.0.len() < target);
        assert(with_merges(start, merges).0.len() <= prev.0.len() + 1);
    }
}

/// Each training word is the trimmed lowercase form of a corpus word.
proof fn lemma_training_word_source(corpus: Seq<Seq<char>>, i: int)
    requires
        0 <= i < training_words(corpus).len(),
    ensures
        exists|j: int| 0 <= j < corpus.len() && training_words(corpus)[i] == trim(lowercase(#[trigger] corpus[j])),
    decreases corpus.len(),
{
    let prev = training_words(corpus.drop_last());
    if i < prev.len() {
        lemma_training_word_source(corpus.drop_last(), i);
        let j = choose|j: int|
            0 <= j < corpus.drop_last().len() && prev[i] == trim(lowercase(#[trigger] corpus.drop_last()[j]));
        assert(corpus.drop_last()[j] == corpus[j]);
        assert(training_words(corpus)[i] == prev[i]);
    } else {
        assert(training_words(corpus)[i] == trim(lowercase(corpus[corpus.len() - 1])));
    }
}

/// The lowercase form of an ASCII text, trimmed, is its own lowercase form.
proof fn lemma_lowercase_settled(c: Seq<char>)
    requires
        is_ascii_chars(c),
    ensures
        lowercase(trim(lowercase(c))) == trim(lowercase(c)),
{
    let l = lowercase(c);
    assert forall|k: int| 0 <= k < l.len() implies is_ascii_char(#[trigger] l[k]) && !is_ascii_upper(
        l[k],
    ) by {
        assert(l[k] == ascii_lower_char(c[k]));
    }
    lemma_trim_is_slice(l);
    let w = trim(l);
    let (a, b) = choose|a: int, b: int| 0 <= a <= b <= l.len() && w == l.subrange(a, b);
    assert forall|k: int| 0 <= k < w.len() implies is_ascii_char(#[trigger] w[k]) && !is_ascii_upper(
        w[k],
    ) by {
        assert(w[k] == l[a + k]);
    }
    assert(lowercase(w) =~= w);
}

/// Training law: on an ASCII corpus, encoding a training word gives exactly
/// its tokens at the end of training; so when training stopped with no pair
/// left, every training word encodes to a single token.
pub proof fn lemma_training_words_encode(
    corpus: Seq<Seq<char>>,
    merges: Seq<(Seq<char>, Seq<char>)>,
)
    requires
        forall|j: int| 0 <= j < corpus.len() ==> is_ascii_chars(#[trigger] corpus[j]),
    ensures
        forall|i: int|
            0 <= i < training_words(corpus).len() ==> bpe_encode_spec(
                merges,
                #[trigger] training_words(corpus)[i],
            ) == merged_states(training_words(corpus), merges)[i],
        fully_merged(merged_states(training_words(corpus), merges)) ==> forall|i: int|
            0 <= i < training_words(corpus).len() ==> bpe_encode_spec(
                merges,
                #[trigger] training_words(corpus)[i],
            ).len() <= 1,
{
    let words = training_words(corpus);
    assert forall|i: int| 0 <= i < words.len() implies bpe_encode_spec(merges, #[trigger] words[i])
        == merged_states(words, merges)[i] by {
        lemma_training_word_source(corpus, i);
        let j = choose|j: int| 0 <= j < corpus.len() && words[i] == trim(lowercase(#[trigger] corpus[j]));
        lemma_lowercase_settled(corpus[j]);
    }
    if fully_merged(merged_states(words, merges)) {
        assert forall|i: int| 0 <= i < words.len() implies bpe_encode_spec(
            merges,
            #[trigger] words[i],
        ).len() <= 1 by {
            assert(merged_states(words, merges)[i].len() <= 1);
        }
    }
}

/// Merging `m` after `merges` is one more merge pass.
pub proof fn lemma_apply_merges_push(
    t: Seq<Seq<char>>,
    merges: Seq<(Seq<char>, Seq<char>)>,
    m: (Seq<char>, Seq<char>),
)
    ensures
        apply_merges(t, merges.push(m)) == merge_pass(apply_merges(t, merges), m.0, m.1),
    decreases merges.len(),
{
    let pm = merges.push(m);
    if merges.len() > 0 {
        let mp = merge_pass(t, merges[0].0, merges[0].1);
        assert(pm[0] == merges[0]);
        assert(pm.drop_first() =~= merges.drop_first().push(m));
        assert(apply_merges(t, pm) == apply_merges(mp, pm.drop_first()));
        assert(apply_merges(t, merges) == apply_merges(mp, merges.drop_first()));
        lemma_apply_merges_push(mp, merges.drop_first(), m);
    } else {
        let mp = merge_pass(t, m.0, m.1);
        assert(pm[0] == m);
        assert(pm.drop_first() =~= Seq::<(Seq<char>, Seq<char>)>::empty());
        assert(apply_merges(t, pm) == apply_merges(mp, pm.drop_first()));
        assert(apply_merges(mp, pm.drop_first()) == mp);
        assert(apply_merges(t, merges) == t);
    }
}

/// A merge pass never lengthens a list, and shortens one that holds the pair.
pub proof fn lemma_merge_pass_shorter(t: Seq<Seq<char>>, a: Seq<char>, b: Seq<char>)
    ensures
        merge_pass(t, a, b).len() <= t.len(),
        (exists|j: int| 0 <= j && j + 1 < t.len() && #[trigger] t[j] == a && t[j + 1] == b)
            ==> merge_pass(t, a, b).len() < t.len(),
    decreases t.len(),
{
    if t.len() == 0 {
    } else if t.len() >= 2 && t[0] == a && t[1] == b {
        lemma_merge_pass_shorter(t.skip(2), a, b);
    } else {
        lemma_merge_pass_shorter(t.skip(1), a, b);
        if exists|j: int| 0 <= j && j + 1 < t.len() && #[trigger] t[j] == a && t[j + 1] == b {
            let j = choose|j: int| 0 <= j && j + 1 < t.len() && #[trigger] t[j] == a && t[j + 1] == b;
            assert(j >= 1);
            assert(t.skip(1)[j - 1] == t[j]);
            assert(t.skip(1)[j] == t[j + 1]);
        }
    }
}

/// Merging a pair in every list lowers the token total when the pair occurs.
pub proof fn lemma_total_tokens_shrink(
    old: Seq<Seq<Seq<char>>>,
    new: Seq<Seq<Seq<char>>>,
    a: Seq<char>,
    b: Seq<char>,
)
    requires
        new.len() == old.len(),
        forall|i: int| 0 <= i < old.len() ==> #[trigger] new[i] == merge_pass(old[i], a, b),
    ensures
        total_tokens(new) <= total_tokens(old),
        pair_occurs(old, a, b) ==> total_tokens(new) < total_tokens(old),
    decreases old.len(),
{
    if old.len() > 0 {
        let n = old.len() - 1;
        assert forall|i: int| 0 <= i < n implies #[trigger] new.drop_last()[i] == merge_pass(
            old.drop_last()[i],
            a,
            b,
        ) by {
            assert(new.drop_last()[i] == new[i]);
        }
        lemma_total_tokens_shrink(old.drop_last(), new.drop_last(), a, b);
        lemma_merge_pass_shorter(old.last(), a, b);
        assert(new.last() == merge_pass(old.last(), a, b));
        if pair_occurs(old, a, b) {
            let (i, j) = choose|i: int, j: int|
                is_position(old, i, j) && #[trigger] pair_at(old, i, j) == (a, b);
            if i == n {
                assert(old.last()[j] == a && old.last()[j + 1] == b);
            } else {
                assert(pair_at(old.drop_last(), i, j) == pair_at(old, i, j));
                assert(is_position(old.drop_last(), i, j));
            }
        }
    }
}

/// A token total is never negative.
proof fn lemma_total_tokens_nonneg(states: Seq<Seq<Seq<char>>>)
    ensures
        total_tokens(states) >= 0,
    decreases states.len(),
{
    if states.len() > 0 {
        lemma_total_tokens_nonneg(states.drop_last());
    }
}

/// A pair that stands at no position of a list occurs zero times in it.
proof fn lemma_occurrences_zero(t: Seq<Seq<char>>, a: Seq<char>, b: Seq<char>)
    requires
        forall|j: int| 0 <= j && j + 1 < t.len() ==> !(#[trigger] t[j] == a && t[j + 1] == b),
    ensures
        pair_occurrences(t, a, b) == 0,
    decreases t.len(),
{
    if t.len() >= 2 {
        let d = t.drop_last();
        assert forall|j: int| 0 <= j && j + 1 < d.len() implies !(#[trigger] d[j] == a && d[j + 1]
            == b) by {
            assert(d[j] == t[j] && d[j + 1] == t[j + 1]);
        }
        lemma_occurrences_zero(d, a, b);
        let k = t.len() - 2;
        assert(!(t[k] == a && t[k + 1] == b));
    }
}

/// A pair that stands at no position is counted zero times.
proof fn lemma_pair_count_zero(s: Seq<Seq<Seq<char>>>, a: Seq<char>, b: Seq<char>)
    requires
        !pair_occurs(s, a, b),
    ensures
        pair_count(s, a, b) == 0,
    decreases s.len(),
{
    if s.len() > 0 {
        let d = s.drop_last();
        if pair_occurs(d, a, b) {
            let (i, j) = choose|i: int, j: int|
                is_position(d, i, j) && #[trigger] pair_at(d, i, j) == (a, b);
            assert(pair_at(s, i, j) == pair_at(d, i, j));
            assert(is_position(s, i, j));
        }
        lemma_pair_count_zero(d, a, b);
        let n = s.len() - 1;
        assert forall|j: int| 0 <= j && j + 1 < s.last().len() implies !(#[trigger] s.last()[j] == a
            && s.last()[j + 1] == b) by {
            if s.last()[j] == a && s.last()[j + 1] == b {
                assert(is_position(s, n, j));
                assert(pair_at(s, n, j) == (a, b));
            }
        }
        lemma_occurrences_zero(s.last(), a, b);
    }
}

// ---------------------------------------------------------------------------
// Counting pairs
// ---------------------------------------------------------------------------

/// Whether `(a, b)` is among the listed pairs.
fn pair_listed(pairs: &Vec<(String, String)>, a: &String, b: &String) -> (r: bool)
    ensures
        r == pairs.deep_view().contains((a@, b@)),
{
    let ghost pv = pairs.deep_view();
    let mut k: usize = 0;
    while k < pairs.len()
        invariant
            k <= pairs.len(),
            pv == pairs.deep_view(),
            forall|m: int| 0 <= m < k ==> #[trigger] pv[m] != (a@, b@),
        decreases pairs.len() - k,
    {
        assert(pv[k as int] == (pairs[k as int].0@, pairs[k as int].1@));
        if pairs[k].0 == *a && pairs[k].1 == *b {
            assert(pv[k as int] == (a@, b@));
            return true;
        }
        k = k + 1;
    }
    assert(!pv.contains((a@, b@)));
    false
}

/// Every pair of adjacent tokens, each listed once, in order of first appearance.
fn adjacent_pairs(states: &Vec<Vec<String>>) -> (r: Vec<(String, String)>)
    ensures
        forall|i: int, j: int|
            is_position(states.deep_view(), i, j) ==> r.deep_view().contains(
                #[trigger] pair_at(states.deep_view(), i, j),
            ),
        forall|c: int|
            0 <= c < r.deep_view().len() ==> pair_occurs(
                states.deep_view(),
                (#[trigger] r.deep_view()[c]).0,
                r.deep_view()[c].1,
            ),
{
    let ghost sv = states.deep_view();
    let mut out: Vec<(String, String)> = Vec::new();
    let mut i: usize = 0;
    while i < states.len()
        invariant
            i <= states.len(),
            sv == states.deep_view(),
            forall|p: int, q: int|
                0 <= p < i && is_position(sv, p, q) ==> out.deep_view().contains(
                    #[trigger] pair_at(sv, p, q),
                ),
            forall|c: int|
                0 <= c < out.deep_view().len() ==> pair_occurs(
                    sv,
                    (#[trigger] out.deep_view()[c]).0,
                    out.deep_view()[c].1,
                ),
        decreases states.len() - i,
    {
        let t = &states[i];
        assert(t.deep_view() == sv[i as int]);
        let mut j: usize = 0;
        while j + 1 < t.len()
            invariant
                i < states.len(),
                j == 0 || j < t.len(),
                sv == states.deep_view(),
                t.deep_view() == sv[i as int],
                forall|p: int, q: int|
                    0 <= p < i && is_position(sv, p, q) ==> out.deep_view().contains(
                        #[trigger] pair_at(sv, p, q),
                    ),
                forall|q: int|
                    0 <= q < j && is_position(sv, i as int, q) ==> out.deep_view().contains(
                        #[trigger] pair_at(sv, i as int, q),
                    ),
                forall|c: int|
                    0 <= c < out.deep_view().len() ==> pair_occurs(
                        sv,
                        (#[trigger] out.deep_view()[c]).0,
                        out.deep_view()[c].1,
                    ),
            decreases t.len() - j,
        {
            let ghost here = pair_at(sv, i as int, j as int);
            assert(here == (t[j as int]@, t[j + 1]@));
            if !pair_listed(&out, &t[j], &t[j + 1]) {
                let ghost before = out.deep_view();
                out.push((t[j].clone(), t[j + 1].clone()));
                assert(out.deep_view() =~= before.push(here));
                assert(out.deep_view()[before.len() as int] == here);
                assert forall|x: (Seq<char>, Seq<char>)| before.contains(x) implies out.deep_view().contains(
                    x,
                ) by {
                    let m = choose|m: int| 0 <= m < before.len() && before[m] == x;
                    assert(out.deep_view()[m] == x);
                }
                assert(is_position(sv, i as int, j as int));
                assert(pair_occurs(sv, here.0, here.1));
            }
            j = j + 1;
        }
        i = i + 1;
    }
    out
}

/// How often `a` stands directly before `b` over all lists, capped at machine width.
fn count_pair(states: &Vec<Vec<String>>, a: &String, b: &String) -> (r: usize)
    ensures
        r == capped(pair_count(states.deep_view(), a@, b@)),
{
    let ghost sv = states.deep_view();
    let mut c: usize = 0;
    let mut i: usize = 0;
    while i < states.len()
        invariant
            i <= states.len(),
            sv == states.deep_view(),
            c == capped(pair_count(sv.take(i as int), a@, b@)),
        decreases states.len() - i,
    {
        let t = &states[i];
        let ghost tv = t.deep_view();
        assert(tv == sv[i as int]);
        assert(sv.take(i + 1).drop_last() =~= sv.take(i as int));
        let ghost base = pair_count(sv.take(i as int), a@, b@);
        if t.len() >= 2 {
            let mut j: usize = 1;
            while j < t.len()
                invariant
                    1 <= j <= t.len(),
                    tv == t.deep_view(),
                    c == capped(base + pair_occurrences(tv.take(j as int), a@, b@)),
                decreases t.len() - j,
            {
                assert(tv.take(j + 1).drop_last() =~= tv.take(j as int));
                let hit = t[j - 1] == *a && t[j] == *b;
                assert(hit == (tv.take(j + 1)[j - 1] == a@ && tv.take(j + 1)[j as int] == b@));
                if hit {
                    if c < usize::MAX {
                        c = c + 1;
                    }
                }
                j = j + 1;
            }
            assert(tv.take(j as int) =~= tv);
        }
        i = i + 1;
    }
    assert(sv.take(i as int) =~= sv);
    c
}

/// A most frequent pair of adjacent tokens, or `None` when no list holds two tokens.
/// Among equally frequent pairs the one that appears first wins.
fn most_frequent_pair(states: &Vec<Vec<String>>) -> (r: Option<(String, String)>)
    ensures
        r is None ==> fully_merged(states.deep_view()),
        r matches Some(p) ==> is_most_frequent_pair(states.deep_view(), p.0@, p.1@),
{
    let ghost sv = states.deep_view();
    let cands = adjacent_pairs(states);
    let ghost cv = cands.deep_view();
    if cands.len() == 0 {
        assert forall|i: int| 0 <= i < sv.len() implies #[trigger] sv[i].len() <= 1 by {
            if sv[i].len() > 1 {
                assert(is_position(sv, i, 0));
                assert(cv.contains(pair_at(sv, i, 0)));
            }
        }
        return None;
    }
    let mut best: usize = 0;
    let mut best_count = count_pair(states, &cands[0].0, &cands[0].1);
    assert(cv[0] == (cands[0].0@, cands[0].1@));
    let mut k: usize = 1;
    while k < cands.len()
        invariant
            1 <= k <= cands.len(),
            best < cands.len(),
            sv == states.deep_view(),
            cv == cands.deep_view(),
            best_count == capped(pair_count(sv, cv[best as int].0, cv[best as int].1)),
            forall|m: int|
                0 <= m < k ==> capped(pair_count(sv, (#[trigger] cv[m]).0, cv[m].1))
                    <= best_count,
        decreases cands.len() - k,
    {
        assert(cv[k as int] == (cands[k as int].0@, cands[k as int].1@));
        let c = count_pair(states, &cands[k].0, &cands[k].1);
        if c > best_count {
            best = k;
            best_count = c;
        }
        k = k + 1;
    }
    let a = cands[best].0.clone();
    let b = cands[best].1.clone();
    assert(cv[best as int] == (a@, b@));
    assert(pair_occurs(sv, cv[best as int].0, cv[best as int].1));
    assert forall|x: Seq<char>, y: Seq<char>|
        #[trigger] capped(pair_count(sv, x, y)) <= capped(pair_count(sv, a@, b@)) by {
        if pair_occurs(sv, x, y) {
            let (i, j) = choose|i: int, j: int|
                is_position(sv, i, j) && #[trigger] pair_at(sv, i, j) == (x, y);
            assert(cv.contains(pair_at(sv, i, j)));
            let m = choose|m: int| 0 <= m < cv.len() && cv[m] == (x, y);
            assert(capped(pair_count(sv, cv[m].0, cv[m].1)) <= best_count);
        } else {
            lemma_pair_count_zero(sv, x, y);
        }
    }
    Some((a, b))
}

/// The concatenation of two strings.
fn concat(a: &String, b: &String) -> (r: String)
    ensures
        r@ == a@ + b@,
{
    a.clone().concat(b.as_str())
}

/// Before merge `k` the vocabulary was below the target size, and the
/// merged pair was a most frequent one.
pub open spec fn step_justified(
    words: Seq<Seq<char>>,
    merges: Seq<(Seq<char>, Seq<char>)>,
    k: int,
    target: usize,
) -> bool {
    &&& trained_vocab(words, merges.take(k)).0.len() < target
    &&& is_most_frequent_pair(merged_states(words, merges.take(k)), merges[k].0, merges[k].1)
}

/// The merge history of a training run: every merge was justified.
pub open spec fn merges_justified(
    words: Seq<Seq<char>>,
    merges: Seq<(Seq<char>, Seq<char>)>,
    target: usize,
) -> bool {
    forall|k: int| 0 <= k < merges.len() ==> #[trigger] step_justified(words, merges, k, target)
}

/// One more justified merge extends a justified history.
proof fn lemma_history_push(
    words: Seq<Seq<char>>,
    merges: Seq<(Seq<char>, Seq<char>)>,
    m: (Seq<char>, Seq<char>),
    target: usize,
)
    requires
        merges_justified(words, merges, target),
        trained_vocab(words, merges).0.len() < target,
        is_most_frequent_pair(merged_states(words, merges), m.0, m.1),
    ensures
        merges_justified(words, merges.push(m), target),
{
    let nm = merges.push(m);
    assert forall|k: int| 0 <= k < nm.len() implies #[trigger] step_justified(
        words,
        nm,
        k,
        target,
    ) by {
        if k < merges.len() {
            assert(nm.take(k) =~= merges.take(k));
            assert(nm[k] == merges[k]);
            assert(step_justified(words, merges, k, target));
        } else {
            assert(nm.take(k) =~= merges);
            assert(nm[k] == m);
        }
    }
}

/// The states after one more merge are one more merge pass of each list.
proof fn lemma_states_push(
    words: Seq<Seq<char>>,
    merges: Seq<(Seq<char>, Seq<char>)>,
    m: (Seq<char>, Seq<char>),
)
    ensures
        merged_states(words, merges.push(m)) =~= Seq::new(
            words.len(),
            |k: int| merge_pass(merged_states(words, merges)[k], m.0, m.1),
        ),
{
    assert forall|k: int| 0 <= k < words.len() implies #[trigger] merged_states(
        words,
        merges.push(m),
    )[k] == merge_pass(merged_states(words, merges)[k], m.0, m.1) by {
        lemma_apply_merges_push(initial_tokens(words[k]), merges, m);
    }
}

/// Each list with the pair merged.
fn merge_everywhere(states: &Vec<Vec<String>>, a: &String, b: &String) -> (r: Vec<Vec<String>>)
    ensures
        r.deep_view() =~= Seq::new(
            states.deep_view().len(),
            |k: int| merge_pass(states.deep_view()[k], a@, b@),
        ),
{
    let ghost sv = states.deep_view();
    let mut next: Vec<Vec<String>> = Vec::new();
    let mut w: usize = 0;
    while w < states.len()
        invariant
            w <= states.len(),
            sv == states.deep_view(),
            next.deep_view() =~= Seq::new(w as nat, |k: int| merge_pass(sv[k], a@, b@)),
        decreases states.len() - w,
    {
        let ghost before = next.deep_view();
        let row = merge_tokens(&states[w], a, b);
        assert(row.deep_view() == merge_pass(sv[w as int], a@, b@));
        next.push(row);
        assert(next.deep_view() =~= before.push(merge_pass(sv[w as int], a@, b@)));
        w = w + 1;
    }
    next
}

/// Numbers the tokens not yet known, in order, after the known ones.
pub(crate) fn number_new_tokens(
    known: &mut Vec<String>,
    vocab: &mut StringHashMap<usize>,
    toks: &Vec<String>,
    Ghost(stream): Ghost<Seq<Seq<char>>>,
)
    requires
        old(known).deep_view() == numbered(stream).0,
        old(vocab)@ == numbered(stream).1,
    ensures
        final(known).deep_view() == numbered(stream + toks.deep_view()).0,
        final(vocab)@ == numbered(stream + toks.deep_view()).1,
{
    let ghost tv = toks.deep_view();
    assert(stream + tv.take(0) =~= stream);
    let mut j: usize = 0;
    while j < toks.len()
        invariant
            j <= toks.len(),
            tv == toks.deep_view(),
            known.deep_view() == numbered(stream + tv.take(j as int)).0,
            vocab@ == numbered(stream + tv.take(j as int)).1,
        decreases toks.len() - j,
    {
        let ghost prefix = stream + tv.take(j as int);
        assert((stream + tv.take(j + 1)).drop_last() =~= prefix);
        assert((stream + tv.take(j + 1)).last() == toks[j as int]@);
        proof {
            lemma_numbered(prefix);
        }
        let ghost kv = known.deep_view();
        if !vocab.contains_key(toks[j].as_str()) {
            assert(!kv.contains(toks[j as int]@)) by {
                if kv.contains(toks[j as int]@) {
                    assert(kv.to_set().contains(toks[j as int]@));
                }
            }
            let id = known.len();
            vocab.insert(toks[j].clone(), id);
            known.push(toks[j].clone());
            assert(known.deep_view() =~= kv.push(toks[j as int]@));
        } else {
            assert(kv.contains(toks[j as int]@)) by {
                assert(kv.to_set().contains(toks[j as int]@));
            }
        }
        j = j + 1;
    }
    assert(tv.take(j as int) =~= tv);
}

/// The training words' initial token lists, the distinct initial tokens and
/// their numbering.
fn starting_point(corpus: &[String]) -> (r: (Vec<Vec<String>>, Vec<String>, StringHashMap<usize>))
    ensures
        r.0.deep_view() == merged_states(
            training_words(corpus.deep_view()),
            Seq::<(Seq<char>, Seq<char>)>::empty(),
        ),
        r.1.deep_view() == trained_vocab(
            training_words(corpus.deep_view()),
            Seq::<(Seq<char>, Seq<char>)>::empty(),
        ).0,
        r.2@ == trained_vocab(
            training_words(corpus.deep_view()),
            Seq::<(Seq<char>, Seq<char>)>::empty(),
        ).1,
{
    let ghost cv = corpus.deep_view();
    let ghost nomerge = Seq::<(Seq<char>, Seq<char>)>::empty();
    let mut states: Vec<Vec<String>> = Vec::new();
    let mut vocab: StringHashMap<usize> = StringHashMap::new();
    let mut known: Vec<String> = Vec::new();
    let mut i: usize = 0;
    assert(states.deep_view() =~= merged_states(training_words(cv.take(0)), nomerge));
    assert(known.deep_view() =~= numbered(initial_token_stream(training_words(cv.take(0)))).0);
    assert(vocab@ =~= numbered(initial_token_stream(training_words(cv.take(0)))).1);
    while i < corpus.len()
        invariant
            i <= corpus.len(),
            cv == corpus.deep_view(),
            nomerge == Seq::<(Seq<char>, Seq<char>)>::empty(),
            states.deep_view() == merged_states(training_words(cv.take(i as int)), nomerge),
            known.deep_view() == numbered(initial_token_stream(training_words(cv.take(i as int)))).0,
            vocab@ == numbered(initial_token_stream(training_words(cv.take(i as int)))).1,
        decreases corpus.len() - i,
    {
        let ghost words = training_words(cv.take(i as int));
        assert(cv.take(i + 1).drop_last() =~= cv.take(i as int));
        assert(cv.take(i + 1).last() == corpus[i as int]@);
        let lower = str_to_lowercase(corpus[i].as_str());
        let cleaned = trim_str(lower.as_str());
        if !cleaned.as_str().is_empty() {
            assert(cleaned@.len() != 0) by {
                if cleaned@.len() == 0 {
                    assert(cleaned@ =~= Seq::<char>::empty());
                }
            }
            let toks = initial_token_list(cleaned.as_str());
            let ghost stream = initial_token_stream(words);
            let ghost tv = toks.deep_view();
            assert(words.push(cleaned@).drop_last() =~= words);
            assert(initial_token_stream(words.push(cleaned@)) =~= stream + tv);
            number_new_tokens(&mut known, &mut vocab, &toks, Ghost(stream));
            let ghost sbefore = states.deep_view();
            states.push(toks);
            assert(states.deep_view() =~= sbefore.push(tv));
            assert(apply_merges(initial_tokens(cleaned@), nomerge) == initial_tokens(cleaned@));
            assert(states.deep_view() =~= merged_states(words.push(cleaned@), nomerge));
        } else {
            assert(cleaned@ =~= Seq::<char>::empty());
        }
        i = i + 1;
    }
    assert(cv.take(i as int) =~= cv);
    (states, known, vocab)
}

impl BPETokenizer {
    /// Trains BPE merge rules from a corpus until the target vocabulary size is reached.
    ///
    /// The vocabulary starts with the tokens of the training words (their
    /// characters and the end-of-word marker), numbered in order of first
    /// appearance. While it holds fewer than `target_vocab_size` tokens and
    /// some pair of adjacent tokens is left, a most frequent pair is merged
    /// in every word and the merged token is recorded with the vocabulary's
    /// size as its id.
    pub fn train(corpus: &[String], target_vocab_size: usize) -> (r: Self)
        ensures
            r.vocab@ == trained_vocab(training_words(corpus.deep_view()), r.merges.deep_view()).1,
            r.vocab_size == trained_vocab(
                training_words(corpus.deep_view()),
                r.merges.deep_view(),
            ).0.len(),
            merges_justified(
                training_words(corpus.deep_view()),
                r.merges.deep_view(),
                target_vocab_size,
            ),
            trained_vocab(training_words(corpus.deep_view()), r.merges.deep_view()).0.len()
                >= target_vocab_size || fully_merged(
                merged_states(training_words(corpus.deep_view()), r.merges.deep_view()),
            ),
    {
        let ghost words = training_words(corpus.deep_view());
        let (mut states, mut known, mut vocab) = starting_point(corpus);
        let mut merges: Vec<(String, String)> = Vec::new();
        assert(merges.deep_view() =~= Seq::<(Seq<char>, Seq<char>)>::empty());
        let mut done = false;
        while !done && known.len() < target_vocab_size
            invariant
                words == training_words(corpus.deep_view()),
                states.deep_view() == merged_states(words, merges.deep_view()),
                known.deep_view() == trained_vocab(words, merges.deep_view()).0,
                vocab@ == trained_vocab(words, merges.deep_view()).1,
                merges_justified(words, merges.deep_view(), target_vocab_size),
                done ==> fully_merged(states.deep_view()),
            decreases total_tokens(states.deep_view()) + if done {
                0int
            } else {
                1int
            },
        {
            let ghost mv = merges.deep_view();
            let ghost sv = states.deep_view();
            proof {
                lemma_total_tokens_nonneg(sv);
            }
            match most_frequent_pair(&states) {
                None => {
                    done = true;
                },
                Some((a, b)) => {
                    let merged = concat(&a, &b);
                    proof {
                        lemma_numbered(initial_token_stream(words));
                        lemma_with_merges_consistent(numbered(initial_token_stream(words)), mv);
                    }
                    let ghost kv = known.deep_view();
                    let id = known.len();
                    if !vocab.contains_key(merged.as_str()) {
                        assert(!kv.contains(merged@)) by {
                            if kv.contains(merged@) {
                                assert(kv.to_set().contains(merged@));
                            }
                        }
                        known.push(merged.clone());
                        assert(known.deep_view() =~= kv.push(merged@));
                    } else {
                        assert(kv.contains(merged@)) by {
                            assert(kv.to_set().contains(merged@));
                        }
                    }
                    vocab.insert(merged, id);
                    let next = merge_everywhere(&states, &a, &b);
                    proof {
                        lemma_total_tokens_shrink(sv, next.deep_view(), a@, b@);
                        lemma_states_push(words, mv, (a@, b@));
                        lemma_history_push(words, mv, (a@, b@), target_vocab_size);
                    }
                    merges.push((a, b));
                    assert(merges.deep_view() =~= mv.push((a@, b@)));
                    assert(merges.deep_view().drop_last() =~= mv);
                    states = next;
                    proof {
                        lemma_total_tokens_nonneg(states.deep_view());
                    }
                },
            }
        }
        let vocab_size = known.len();
        BPETokenizer { vocab, merges, vocab_size }
    }
}

} // verus!
