//! Building a WordPiece vocabulary from a corpus.
//!
//! The vocabulary starts with the reserved tokens and the corpus's
//! characters; it is then filled with the most frequent substrings of the
//! lowercased words, most frequent first, up to the target size.
use vstd::hash_map::StringHashMap;
use vstd::prelude::*;

use crate::bpe_training::{capped, consistent, lemma_numbered, number_new_tokens, numbered};
use crate::chars::{
    chars_of, is_ascii_char, is_ascii_chars, lowercase, push_char, str_to_lowercase, string_of,
    utf8_len, utf8_len_exceeds,
};
use crate::text::{first_occurrences, lemma_first_occurrences_distinct, lemma_first_occurrences_members};
use crate::tokenizer::WordPieceTokenizer;
use crate::transfer::{ngrams_up_to, sized_windows};

verus! {

// ---------------------------------------------------------------------------
// The model of training
// ---------------------------------------------------------------------------

/// The reserved tokens every trained vocabulary starts with, in id order.
pub open spec fn reserved_tokens() -> Seq<Seq<char>> {
    seq!["[PAD]"@, "[UNK]"@, "[CLS]"@, "[SEP]"@, "[MASK]"@]
}

/// Each character of a word as a token of its own.
pub open spec fn single_chars(w: Seq<char>) -> Seq<Seq<char>> {
    Seq::new(w.len(), |i: int| seq![w[i]])
}

/// The characters of the corpus as one-character tokens, word after word.
pub open spec fn char_tokens(corpus: Seq<Seq<char>>) -> Seq<Seq<char>>
    decreases corpus.len(),
{
    if corpus.len() == 0 {
        seq![]
    } else {
        char_tokens(corpus.drop_last()) + single_chars(corpus.last())
    }
}

/// The starting vocabulary: the reserved tokens, then the corpus's
/// characters in order of first appearance, numbered from zero.
pub open spec fn base_vocab(corpus: Seq<Seq<char>>) -> (Seq<Seq<char>>, Map<Seq<char>, usize>) {
    numbered(reserved_tokens() + char_tokens(corpus))
}

/// A lowercased word whose byte windows fall on character boundaries: it is
/// ASCII, or at most two bytes long.
pub open spec fn sliceable(w: Seq<char>) -> bool {
    is_ascii_chars(w) || utf8_len(w) <= 2
}

/// The subword candidates of a lowercased word: for an ASCII word its
/// windows of 2 to 8 characters, shorter ones first; a word of a single
/// two-byte character is its own candidate.
pub open spec fn word_subwords(w: Seq<char>) -> Seq<Seq<char>> {
    if is_ascii_chars(w) {
        ngrams_up_to(
            w,
            2,
            if w.len() < 8 {
                w.len() as int
            } else {
                8
            },
        )
    } else if utf8_len(w) == 2 {
        seq![w]
    } else {
        seq![]
    }
}

/// The subword candidates of all words, lowercased, in corpus order.
pub open spec fn corpus_subwords(corpus: Seq<Seq<char>>) -> Seq<Seq<char>>
    decreases corpus.len(),
{
    if corpus.len() == 0 {
        seq![]
    } else {
        corpus_subwords(corpus.drop_last()) + word_subwords(lowercase(corpus.last()))
    }
}

/// How often `s` is a subword candidate in the corpus.
pub open spec fn subword_count(corpus: Seq<Seq<char>>, s: Seq<char>) -> int {
    corpus_subwords(corpus).to_multiset().count(s) as int
}

/// Every candidate once, more frequent ones first (counts capped at machine width).
pub open spec fn is_frequency_order(order: Seq<Seq<char>>, corpus: Seq<Seq<char>>) -> bool {
    &&& order.no_duplicates()
    &&& order.to_set() == corpus_subwords(corpus).to_set()
    &&& forall|i: int, j: int|
        0 <= i < j < order.len() ==> capped(subword_count(corpus, #[trigger] order[j])) <= capped(
            subword_count(corpus, #[trigger] order[i]),
        )
}

/// The tokens of `order` added one by one while the vocabulary is below
/// `target` entries; a token not yet present gets the next id.
pub open spec fn fill_to(
    start: (Seq<Seq<char>>, Map<Seq<char>, usize>),
    order: Seq<Seq<char>>,
    target: nat,
) -> (Seq<Seq<char>>, Map<Seq<char>, usize>)
    decreases order.len(),
{
    if order.len() == 0 {
        start
    } else {
        let prev = fill_to(start, order.drop_last(), target);
        let t = order.last();
        if prev.0.len() >= target || prev.0.contains(t) {
            prev
        } else {
            (prev.0.push(t), prev.1.insert(t, prev.0.len() as usize))
        }
    }
}

/// `vocab` with `size` entries is what training on `corpus` up to `target`
/// entries gives for some frequency order of the candidates.
pub open spec fn is_trained_wordpiece(
    vocab: Map<Seq<char>, usize>,
    size: usize,
    corpus: Seq<Seq<char>>,
    target: nat,
) -> bool {
    exists|order: Seq<Seq<char>>|
        #[trigger] is_frequency_order(order, corpus) && vocab == fill_to(
            base_vocab(corpus),
            order,
            target,
        ).1 && size == fill_to(base_vocab(corpus), order, target).0.len()
}

// ---------------------------------------------------------------------------
// Lemmas
// ---------------------------------------------------------------------------

/// Filling keeps a vocabulary consistent.
pub proof fn lemma_fill_to_consistent(
    start: (Seq<Seq<char>>, Map<Seq<char>, usize>),
    order: Seq<Seq<char>>,
    target: nat,
)
    requires
        consistent(start),
    ensures
        consistent(fill_to(start, order, target)),
    decreases order.len(),
{
    if order.len() > 0 {
        lemma_fill_to_consistent(start, order.drop_last(), target);
        let prev = fill_to(start, order.drop_last(), target);
        let t = order.last();
        let cur = fill_to(start, order, target);
        if !(prev.0.len() >= target || prev.0.contains(t)) {
            prev.0.lemma_push_to_set_commute(t);
            assert(cur.1.dom() =~= cur.0.to_set());
            assert forall|i: int, j: int|
                0 <= i < cur.0.len() && 0 <= j < cur.0.len() && i != j implies cur.0[i]
                != cur.0[j] by {
                if i < prev.0.len() {
                    assert(prev.0.contains(prev.0[i]));
                }
                if j < prev.0.len() {
                    assert(prev.0.contains(prev.0[j]));
                }
            }
        }
    }
}

/// Vocabulary law: a trained WordPiece vocabulary lists the reserved tokens
/// first, with ids 0 to 4, and never shrinks below its starting vocabulary.
pub proof fn lemma_fill_to_keeps_start(
    start: (Seq<Seq<char>>, Map<Seq<char>, usize>),
    order: Seq<Seq<char>>,
    target: nat,
)
    requires
        consistent(start),
    ensures
        fill_to(start, order, target).0.len() >= start.0.len(),
        forall|k: int|
            0 <= k < start.0.len() ==> fill_to(start, order, target).0[k] == start.0[k]
                && fill_to(start, order, target).1[#[trigger] start.0[k]] == start.1[start.0[k]],
    decreases order.len(),
{
    if order.len() > 0 {
        lemma_fill_to_keeps_start(start, order.drop_last(), target);
        lemma_fill_to_consistent(start, order.drop_last(), target);
        let prev = fill_to(start, order.drop_last(), target);
        let t = order.last();
        if !(prev.0.len() >= target || prev.0.contains(t)) {
            assert forall|k: int| 0 <= k < start.0.len() implies fill_to(start, order, target).0[k]
                == start.0[k] && fill_to(start, order, target).1[#[trigger] start.0[k]]
                == start.1[start.0[k]] by {
                assert(prev.0[k] == start.0[k]);
                assert(prev.0.contains(prev.0[k]));
            }
        }
    }
}

/// Numbering more tokens keeps the numbering of the earlier ones.
proof fn lemma_numbered_prefix(a: Seq<Seq<char>>, b: Seq<Seq<char>>)
    ensures
        numbered(a + b).0.len() >= numbered(a).0.len(),
        forall|k: int|
            0 <= k < numbered(a).0.len() ==> numbered(a + b).0[k] == #[trigger] numbered(a).0[k],
    decreases b.len(),
{
    if b.len() == 0 {
        assert(a + b =~= a);
    } else {
        lemma_numbered_prefix(a, b.drop_last());
        assert((a + b).drop_last() =~= a + b.drop_last());
    }
}

/// Numbering distinct tokens lists them as they are.
proof fn lemma_numbered_distinct(t: Seq<Seq<char>>)
    requires
        t.no_duplicates(),
    ensures
        numbered(t).0 == t,
    decreases t.len(),
{
    if t.len() > 0 {
        let d = t.drop_last();
        assert(d.no_duplicates()) by {
            assert forall|i: int, j: int| 0 <= i < d.len() && 0 <= j < d.len() && i != j implies d[i]
                != d[j] by {
                assert(d[i] == t[i] && d[j] == t[j]);
            }
        }
        lemma_numbered_distinct(d);
        assert(!d.contains(t.last())) by {
            if d.contains(t.last()) {
                let k = choose|k: int| 0 <= k < d.len() && d[k] == t.last();
                assert(t[k] == t[t.len() - 1]);
            }
        }
        assert(d.push(t.last()) =~= t);
    }
}

/// A consistent vocabulary whose ids are the positions of its tokens.
pub open spec fn indexed(v: (Seq<Seq<char>>, Map<Seq<char>, usize>)) -> bool {
    &&& consistent(v)
    &&& forall|k: int| 0 <= k < v.0.len() ==> v.1[#[trigger] v.0[k]] == k as usize
}

proof fn lemma_fill_to_indexed(
    start: (Seq<Seq<char>>, Map<Seq<char>, usize>),
    order: Seq<Seq<char>>,
    target: nat,
)
    requires
        indexed(start),
    ensures
        indexed(fill_to(start, order, target)),
        fill_to(start, order, target).0.len() <= if target >= start.0.len() {
            target
        } else {
            start.0.len()
        },
    decreases order.len(),
{
    if order.len() > 0 {
        lemma_fill_to_indexed(start, order.drop_last(), target);
        lemma_fill_to_consistent(start, order, target);
        let prev = fill_to(start, order.drop_last(), target);
        let t = order.last();
        let cur = fill_to(start, order, target);
        if !(prev.0.len() >= target || prev.0.contains(t)) {
            assert forall|k: int| 0 <= k < cur.0.len() implies cur.1[#[trigger] cur.0[k]]
                == k as usize by {
                if k < prev.0.len() {
                    assert(cur.0[k] == prev.0[k]);
                    assert(prev.0.contains(prev.0[k]));
                }
            }
        }
    }
}

/// Some token of the vocabulary has the id `k`.
pub open spec fn id_taken(vocab: Map<Seq<char>, usize>, k: int) -> bool {
    exists|w: Seq<char>| #[trigger] vocab.dom().contains(w) && vocab[w] == k
}

/// Vocabulary law: a trained WordPiece vocabulary grows past its starting
/// tokens (the reserved ones and the corpus characters) only up to the
/// target, and its ids are exactly `0..size`, one token each.
pub proof fn lemma_trained_wordpiece_ids(
    vocab: Map<Seq<char>, usize>,
    size: usize,
    corpus: Seq<Seq<char>>,
    target: nat,
)
    requires
        is_trained_wordpiece(vocab, size, corpus, target),
    ensures
        size <= if target >= base_vocab(corpus).0.len() {
            target
        } else {
            base_vocab(corpus).0.len()
        },
        vocab.dom().len() == size,
        forall|w: Seq<char>| #[trigger] vocab.dom().contains(w) ==> vocab[w] < size,
        forall|k: int| 0 <= k < size ==> #[trigger] id_taken(vocab, k),
{
    let order = choose|order: Seq<Seq<char>>|
        #[trigger] is_frequency_order(order, corpus) && vocab == fill_to(
            base_vocab(corpus),
            order,
            target,
        ).1 && size == fill_to(base_vocab(corpus), order, target).0.len();
    let base = base_vocab(corpus);
    lemma_numbered(reserved_tokens() + char_tokens(corpus));
    lemma_fill_to_indexed(base, order, target);
    let v = fill_to(base, order, target);
    v.0.unique_seq_to_set();
    assert forall|w: Seq<char>| #[trigger] vocab.dom().contains(w) implies vocab[w] < size by {
        assert(v.0.to_set().contains(w));
        let k = choose|k: int| 0 <= k < v.0.len() && v.0[k] == w;
        assert(v.1[v.0[k]] == k as usize);
    }
    assert forall|k: int| 0 <= k < size implies #[trigger] id_taken(vocab, k) by {
        let w = v.0[k];
        assert(v.1[v.0[k]] == k as usize);
        assert(v.0.to_set().contains(w));
        assert(vocab.dom().contains(w));
    }
}


/// Vocabulary law: a trained WordPiece vocabulary gives the reserved tokens
/// `[PAD]`, `[UNK]`, `[CLS]`, `[SEP]` and `[MASK]` the ids 0 to 4, and
/// holds at least these five entries.
pub proof fn lemma_trained_reserved_ids(
    vocab: Map<Seq<char>, usize>,
    size: usize,
    corpus: Seq<Seq<char>>,
    target: nat,
)
    requires
        is_trained_wordpiece(vocab, size, corpus, target),
    ensures
        size >= 5,
        forall|k: int| 0 <= k < 5 ==> vocab[#[trigger] reserved_tokens()[k]] == k,
{
    let order = choose|order: Seq<Seq<char>>|
        #[trigger] is_frequency_order(order, corpus) && vocab == fill_to(
            base_vocab(corpus),
            order,
            target,
        ).1 && size == fill_to(base_vocab(corpus), order, target).0.len();
    let r = reserved_tokens();
    reveal_strlit("[PAD]");
    reveal_strlit("[UNK]");
    reveal_strlit("[CLS]");
    reveal_strlit("[SEP]");
    reveal_strlit("[MASK]");
    assert(r.no_duplicates()) by {
        assert(r[0][1] == 'P' && r[1][1] == 'U' && r[2][1] == 'C' && r[3][1] == 'S' && r[4][1]
            == 'M');
    }
    lemma_numbered_distinct(r);
    lemma_numbered_prefix(r, char_tokens(corpus));
    let all = reserved_tokens() + char_tokens(corpus);
    lemma_numbered(all);
    let base = base_vocab(corpus);
    lemma_fill_to_keeps_start(base, order, target);
    assert forall|k: int| 0 <= k < 5 implies vocab[#[trigger] reserved_tokens()[k]] == k by {
        assert(numbered(r).0[k] == r[k]);
        assert(base.0[k] == r[k]);
        assert(base.1[base.0[k]] == k as usize);
    }
}

/// The candidates of a word with one more character appended to the corpus.
proof fn lemma_single_chars_stream(corpus: Seq<Seq<char>>, w: Seq<char>)
    ensures
        reserved_tokens() + char_tokens(corpus.push(w)) =~= (reserved_tokens() + char_tokens(
            corpus,
        )) + single_chars(w),
{
    assert(corpus.push(w).drop_last() =~= corpus);
}

// ---------------------------------------------------------------------------
// Building blocks
// ---------------------------------------------------------------------------

/// The reserved tokens.
fn reserved_list() -> (r: Vec<String>)
    ensures
        r.deep_view() == reserved_tokens(),
{
    let mut v: Vec<String> = Vec::new();
    v.push("[PAD]".to_owned());
    v.push("[UNK]".to_owned());
    v.push("[CLS]".to_owned());
    v.push("[SEP]".to_owned());
    v.push("[MASK]".to_owned());
    assert(v.deep_view() =~= reserved_tokens());
    v
}

/// Each character of `w` as a string of its own.
fn single_char_list(w: &str) -> (r: Vec<String>)
    ensures
        r.deep_view() == single_chars(w@),
{
    let cs = chars_of(w);
    let mut out: Vec<String> = Vec::new();
    let mut i: usize = 0;
    while i < cs.len()
        invariant
            i <= cs.len(),
            cs@ == w@,
            out.deep_view() =~= Seq::new(i as nat, |k: int| seq![w@[k]]),
        decreases cs.len() - i,
    {
        let mut s = String::new();
        push_char(&mut s, cs[i]);
        assert(s@ =~= seq![w@[i as int]]);
        let ghost before = out.deep_view();
        let ghost sv = s@;
        out.push(s);
        assert(out.deep_view() =~= before.push(sv));
        i = i + 1;
    }
    out
}

/// Whether every character is ASCII.
fn all_ascii(w: &Vec<char>) -> (r: bool)
    ensures
        r == is_ascii_chars(w@),
{
    let mut i: usize = 0;
    while i < w.len()
        invariant
            i <= w.len(),
            forall|k: int| 0 <= k < i ==> is_ascii_char(#[trigger] w@[k]),
        decreases w.len() - i,
    {
        if (w[i] as u32) >= 128 {
            assert(!is_ascii_char(w@[i as int]));
            return false;
        }
        i = i + 1;
    }
    true
}

/// The subword candidates of a lowercased word.
fn subwords_of(w: &Vec<char>) -> (r: Vec<String>)
    ensures
        r.deep_view() == word_subwords(w@),
{
    if all_ascii(w) {
        let top = if w.len() < 8 {
            w.len()
        } else {
            8
        };
        sized_windows(w, 2, top)
    } else if utf8_len_exceeds(w, 1) && !utf8_len_exceeds(w, 2) {
        let mut out: Vec<String> = Vec::new();
        out.push(string_of(w.as_slice()));
        assert(out.deep_view() =~= seq![w@]);
        out
    } else {
        let out: Vec<String> = Vec::new();
        assert(out.deep_view() =~= Seq::<Seq<char>>::empty());
        out
    }
}

/// The starting vocabulary of a corpus: its distinct tokens and their ids.
fn base_vocabulary(corpus: &[String]) -> (r: (Vec<String>, StringHashMap<usize>))
    ensures
        r.0.deep_view() == base_vocab(corpus.deep_view()).0,
        r.1@ == base_vocab(corpus.deep_view()).1,
{
    let ghost cv = corpus.deep_view();
    let mut known: Vec<String> = Vec::new();
    let mut vocab: StringHashMap<usize> = StringHashMap::new();
    let reserved = reserved_list();
    assert(known.deep_view() =~= numbered(Seq::<Seq<char>>::empty()).0);
    assert(vocab@ =~= numbered(Seq::<Seq<char>>::empty()).1);
    number_new_tokens(&mut known, &mut vocab, &reserved, Ghost(Seq::<Seq<char>>::empty()));
    assert(Seq::<Seq<char>>::empty() + reserved_tokens() =~= reserved_tokens() + char_tokens(
        cv.take(0),
    ));
    let mut i: usize = 0;
    while i < corpus.len()
        invariant
            i <= corpus.len(),
            cv == corpus.deep_view(),
            known.deep_view() == numbered(reserved_tokens() + char_tokens(cv.take(i as int))).0,
            vocab@ == numbered(reserved_tokens() + char_tokens(cv.take(i as int))).1,
        decreases corpus.len() - i,
    {
        let toks = single_char_list(corpus[i].as_str());
        let ghost stream = reserved_tokens() + char_tokens(cv.take(i as int));
        number_new_tokens(&mut known, &mut vocab, &toks, Ghost(stream));
        proof {
            assert(cv.take(i + 1) =~= cv.take(i as int).push(corpus[i as int]@));
            lemma_single_chars_stream(cv.take(i as int), corpus[i as int]@);
        }
        i = i + 1;
    }
    assert(cv.take(i as int) =~= cv);
    (known, vocab)
}

/// The distinct subword candidates of the corpus in order of first
/// appearance, and how often each is a candidate (capped).
fn count_subwords(corpus: &[String]) -> (r: (Vec<String>, StringHashMap<usize>))
    ensures
        r.0.deep_view() == first_occurrences(corpus_subwords(corpus.deep_view())),
        r.1@.dom() == r.0.deep_view().to_set(),
        forall|s: Seq<char>|
            #[trigger] r.1@.contains_key(s) ==> r.1@[s] == capped(
                subword_count(corpus.deep_view(), s),
            ),
{
    let ghost cv = corpus.deep_view();
    let mut distinct: Vec<String> = Vec::new();
    let mut counts: StringHashMap<usize> = StringHashMap::new();
    assert(distinct.deep_view() =~= first_occurrences(corpus_subwords(cv.take(0))));
    assert(counts@.dom() =~= distinct.deep_view().to_set());
    let mut i: usize = 0;
    while i < corpus.len()
        invariant
            i <= corpus.len(),
            cv == corpus.deep_view(),
            distinct.deep_view() == first_occurrences(corpus_subwords(cv.take(i as int))),
            counts@.dom() == distinct.deep_view().to_set(),
            forall|s: Seq<char>|
                #[trigger] counts@.contains_key(s) ==> counts@[s] == capped(
                    corpus_subwords(cv.take(i as int)).to_multiset().count(s) as int,
                ),
        decreases corpus.len() - i,
    {
        let lower = str_to_lowercase(corpus[i].as_str());
        let cs = chars_of(lower.as_str());
        let subs = subwords_of(&cs);
        let ghost prior = corpus_subwords(cv.take(i as int));
        let ghost sv = subs.deep_view();
        assert(prior + sv.take(0) =~= prior);
        let mut j: usize = 0;
        while j < subs.len()
            invariant
                j <= subs.len(),
                sv == subs.deep_view(),
                distinct.deep_view() == first_occurrences(prior + sv.take(j as int)),
                counts@.dom() == distinct.deep_view().to_set(),
                forall|s: Seq<char>|
                    #[trigger] counts@.contains_key(s) ==> counts@[s] == capped(
                        (prior + sv.take(j as int)).to_multiset().count(s) as int,
                    ),
            decreases subs.len() - j,
        {
            let ghost seen = prior + sv.take(j as int);
            let ghost x = subs[j as int]@;
            assert(prior + sv.take(j + 1) =~= seen.push(x));
            assert(seen.push(x).drop_last() =~= seen);
            proof {
                vstd::seq_lib::to_multiset_build(seen, x);
                lemma_first_occurrences_members(seen, x);
                vstd::seq_lib::to_multiset_contains(seen, x);
            }
            let ghost dv = distinct.deep_view();
            let found = match counts.get(subs[j].as_str()) {
                Some(c) => Some(*c),
                None => None,
            };
            match found {
                Some(c) => {
                    assert(dv.to_set().contains(x));
                    assert(dv.contains(x));
                    assert(first_occurrences(seen.push(x)) == dv);
                    let next = if c < usize::MAX {
                        c + 1
                    } else {
                        c
                    };
                    counts.insert(subs[j].clone(), next);
                    assert(counts@.dom() =~= distinct.deep_view().to_set());
                },
                None => {
                    assert(!dv.contains(x)) by {
                        if dv.contains(x) {
                            assert(dv.to_set().contains(x));
                        }
                    }
                    counts.insert(subs[j].clone(), 1);
                    distinct.push(subs[j].clone());
                    assert(distinct.deep_view() =~= dv.push(x));
                    assert(first_occurrences(seen.push(x)) == dv.push(x));
                    proof {
                        dv.lemma_push_to_set_commute(x);
                    }
                    assert(counts@.dom() =~= distinct.deep_view().to_set());
                },
            }
            j = j + 1;
        }
        assert(sv.take(j as int) =~= sv);
        assert(cv.take(i + 1).drop_last() =~= cv.take(i as int));
        assert(cv.take(i + 1).last() == corpus[i as int]@);
        i = i + 1;
    }
    assert(cv.take(i as int) =~= cv);
    (distinct, counts)
}

/// The names of ranked entries.
pub open spec fn names_of(ranked: Seq<(Seq<char>, usize)>) -> Seq<Seq<char>> {
    Seq::new(ranked.len(), |i: int| ranked[i].0)
}

/// The distinct candidates ordered by count, highest first; equal counts keep
/// their order.
fn rank_by_count(distinct: &Vec<String>, counts: &StringHashMap<usize>) -> (r: Vec<String>)
    requires
        counts@.dom() == distinct.deep_view().to_set(),
        distinct.deep_view().no_duplicates(),
    ensures
        r.deep_view().to_multiset() == distinct.deep_view().to_multiset(),
        forall|i: int, j: int|
            0 <= i < j < r.deep_view().len() ==> counts@[#[trigger] r.deep_view()[j]]
                <= counts@[#[trigger] r.deep_view()[i]],
{
    let ghost dv = distinct.deep_view();
    let mut ranked: Vec<(String, usize)> = Vec::new();
    let mut k: usize = 0;
    assert(names_of(ranked.deep_view()) =~= dv.take(0));
    while k < distinct.len()
        invariant
            k <= distinct.len(),
            dv == distinct.deep_view(),
            counts@.dom() == dv.to_set(),
            names_of(ranked.deep_view()).to_multiset() == dv.take(k as int).to_multiset(),
            forall|i: int|
                0 <= i < ranked.deep_view().len() ==> counts@.contains_key(
                    (#[trigger] ranked.deep_view()[i]).0,
                ) && ranked.deep_view()[i].1 == counts@[ranked.deep_view()[i].0],
            forall|i: int, j: int|
                0 <= i < j < ranked.deep_view().len() ==> (#[trigger] ranked.deep_view()[j]).1
                    <= (#[trigger] ranked.deep_view()[i]).1,
        decreases distinct.len() - k,
    {
        let x = &distinct[k];
        assert(dv.to_set().contains(dv[k as int]));
        let c = match counts.get(x.as_str()) {
            Some(c) => *c,
            None => 0,
        };
        assert(c == counts@[x@]);
        let ghost rv = ranked.deep_view();
        let mut p: usize = 0;
        while p < ranked.len() && ranked[p].1 >= c
            invariant
                p <= ranked.len(),
                rv == ranked.deep_view(),
                forall|i: int| 0 <= i < p ==> (#[trigger] rv[i]).1 >= c,
            decreases ranked.len() - p,
        {
            assert(rv[p as int].1 == ranked[p as int].1);
            p = p + 1;
        }
        assert(p < ranked.len() ==> rv[p as int].1 < c) by {
            if p < ranked.len() {
                assert(rv[p as int].1 == ranked[p as int].1);
            }
        }
        let entry = (x.clone(), c);
        let ghost ev = (x@, c);
        ranked.insert(p, entry);
        assert(ranked.deep_view() =~= rv.insert(p as int, ev));
        proof {
            rv.insert_ensures(p as int, ev);
            let nv = ranked.deep_view();
            assert(names_of(nv) =~= names_of(rv).insert(p as int, x@)) by {
                names_of(rv).insert_ensures(p as int, x@);
                assert forall|i: int| 0 <= i < nv.len() implies names_of(nv)[i] == names_of(
                    rv,
                ).insert(p as int, x@)[i] by {
                    if i < p {
                    } else if i == p {
                    } else {
                        assert(nv[i] == rv[i - 1]);
                    }
                }
            }
            vstd::seq_lib::to_multiset_insert(names_of(rv), p as int, x@);
            assert(dv.take(k + 1) =~= dv.take(k as int).push(x@));
            vstd::seq_lib::to_multiset_build(dv.take(k as int), x@);
            assert forall|i: int| 0 <= i < nv.len() implies counts@.contains_key(
                (#[trigger] nv[i]).0,
            ) && nv[i].1 == counts@[nv[i].0] by {
                if i > p {
                    assert(nv[i] == rv[i - 1]);
                } else if i < p {
                    assert(nv[i] == rv[i]);
                }
            }
            assert forall|i: int, j: int| 0 <= i < j < nv.len() implies (
            #[trigger] nv[j]).1 <= (#[trigger] nv[i]).1 by {
                if j < p {
                    assert(nv[i] == rv[i] && nv[j] == rv[j]);
                } else if j == p {
                    assert(nv[i] == rv[i]);
                } else if i > p {
                    assert(nv[i] == rv[i - 1] && nv[j] == rv[j - 1]);
                } else if i == p {
                    assert(nv[j] == rv[j - 1]);
                    assert(rv[p as int].1 < c);
                    if j - 1 > p {
                        assert(rv[j - 1].1 <= rv[p as int].1);
                    }
                } else {
                    assert(nv[i] == rv[i] && nv[j] == rv[j - 1]);
                }
            }
        }
        k = k + 1;
    }
    assert(dv.take(k as int) =~= dv);
    let ghost fv = ranked.deep_view();
    let mut out: Vec<String> = Vec::new();
    let mut m: usize = 0;
    while m < ranked.len()
        invariant
            m <= ranked.len(),
            fv == ranked.deep_view(),
            out.deep_view() =~= names_of(fv).take(m as int),
        decreases ranked.len() - m,
    {
        let ghost before = out.deep_view();
        out.push(ranked[m].0.clone());
        assert(out.deep_view() =~= before.push(fv[m as int].0));
        m = m + 1;
    }
    assert(names_of(fv).take(m as int) =~= names_of(fv));
    assert forall|i: int, j: int| 0 <= i < j < out.deep_view().len() implies counts@[
        #[trigger] out.deep_view()[j]] <= counts@[#[trigger] out.deep_view()[i]] by {
        assert(out.deep_view()[i] == fv[i].0);
        assert(out.deep_view()[j] == fv[j].0);
        assert(fv[j].1 <= fv[i].1);
    }
    out
}

impl WordPieceTokenizer {
    /// Trains a WordPiece vocabulary from a corpus by iteratively adding
    /// the most frequent subword pairs.
    ///
    /// The vocabulary holds the reserved tokens `[PAD]`, `[UNK]`, `[CLS]`,
    /// `[SEP]`, `[MASK]` (ids 0 to 4) and every character of the corpus;
    /// then, while it has fewer than `target_vocab_size` entries, the
    /// substrings of 2 to 8 characters of the lowercased words are added,
    /// most frequent first. A lowercased word longer than two bytes is cut
    /// at byte offsets, so each must be ASCII or at most two bytes long.
    pub fn train(corpus: &[String], target_vocab_size: usize) -> (r: Self)
        requires
            forall|i: int|
                0 <= i < corpus.len() ==> sliceable(lowercase(#[trigger] corpus.deep_view()[i])),
        ensures
            is_trained_wordpiece(
                r.vocab@,
                r.vocab_size,
                corpus.deep_view(),
                target_vocab_size as nat,
            ),
            r.unk_token@ == "[UNK]"@,
    {
        let ghost cv = corpus.deep_view();
        let (mut known, mut vocab) = base_vocabulary(corpus);
        let (distinct, counts) = count_subwords(corpus);
        proof {
            lemma_first_occurrences_distinct(corpus_subwords(cv));
        }
        let order = rank_by_count(&distinct, &counts);
        let ghost ov = order.deep_view();
        let ghost dv = distinct.deep_view();
        proof {
            dv.lemma_multiset_has_no_duplicates();
            ov.lemma_multiset_has_no_duplicates_conv();
            assert forall|s: Seq<char>| ov.to_set().contains(s) <==> corpus_subwords(
                cv,
            ).to_set().contains(s) by {
                vstd::seq_lib::to_multiset_contains(ov, s);
                vstd::seq_lib::to_multiset_contains(dv, s);
                lemma_first_occurrences_members(corpus_subwords(cv), s);
            }
            assert(ov.to_set() =~= corpus_subwords(cv).to_set());
            assert forall|i: int, j: int| 0 <= i < j < ov.len() implies capped(
                subword_count(cv, #[trigger] ov[j]),
            ) <= capped(subword_count(cv, #[trigger] ov[i])) by {
                vstd::seq_lib::to_multiset_contains(ov, ov[i]);
                vstd::seq_lib::to_multiset_contains(ov, ov[j]);
                vstd::seq_lib::to_multiset_contains(dv, ov[i]);
                vstd::seq_lib::to_multiset_contains(dv, ov[j]);
                assert(dv.to_set().contains(ov[i]));
                assert(dv.to_set().contains(ov[j]));
            }
            assert(is_frequency_order(ov, cv));
            lemma_numbered(reserved_tokens() + char_tokens(cv));
        }
        let ghost base = base_vocab(cv);
        let target = target_vocab_size;
        assert(ov.take(0) =~= Seq::<Seq<char>>::empty());
        let mut k: usize = 0;
        while k < order.len()
            invariant
                k <= order.len(),
                ov == order.deep_view(),
                base == base_vocab(cv),
                consistent(base),
                known.deep_view() == fill_to(base, ov.take(k as int), target as nat).0,
                vocab@ == fill_to(base, ov.take(k as int), target as nat).1,
            decreases order.len() - k,
        {
            proof {
                lemma_fill_to_consistent(base, ov.take(k as int), target as nat);
            }
            assert(ov.take(k + 1).drop_last() =~= ov.take(k as int));
            assert(ov.take(k + 1).last() == order[k as int]@);
            let ghost kv = known.deep_view();
            if known.len() < target {
                if !vocab.contains_key(order[k].as_str()) {
                    assert(!kv.contains(order[k as int]@)) by {
                        if kv.contains(order[k as int]@) {
                            assert(kv.to_set().contains(order[k as int]@));
                        }
                    }
                    let id = known.len();
                    vocab.insert(order[k].clone(), id);
                    known.push(order[k].clone());
                    assert(known.deep_view() =~= kv.push(order[k as int]@));
                } else {
                    assert(kv.contains(order[k as int]@)) by {
                        assert(kv.to_set().contains(order[k as int]@));
                    }
                }
            }
            k = k + 1;
        }
        assert(ov.take(k as int) =~= ov);
        let vocab_size = known.len();
        let r = WordPieceTokenizer { vocab, vocab_size, unk_token: "[UNK]".to_owned() };
        assert(is_frequency_order(ov, cv) && r.vocab@ == fill_to(base, ov, target as nat).1
            && r.vocab_size == fill_to(base, ov, target as nat).0.len());
        r
    }

    /// Trains a WordPiece vocabulary when every lowercased word of the corpus
    /// can be cut into byte windows (see `train`); `None` otherwise.
    pub fn try_train(corpus: &[String], target_vocab_size: usize) -> (r: Option<Self>)
        ensures
            r is Some <==> forall|i: int|
                0 <= i < corpus.len() ==> sliceable(lowercase(#[trigger] corpus.deep_view()[i])),
            r matches Some(t) ==> is_trained_wordpiece(
                t.vocab@,
                t.vocab_size,
                corpus.deep_view(),
                target_vocab_size as nat,
            ) && t.unk_token@ == "[UNK]"@,
    {
        let ghost cv = corpus.deep_view();
        let mut i: usize = 0;
        while i < corpus.len()
            invariant
                i <= corpus.len(),
                cv == corpus.deep_view(),
                forall|k: int| 0 <= k < i ==> sliceable(lowercase(#[trigger] cv[k])),
            decreases corpus.len() - i,
        {
            let lower = str_to_lowercase(corpus[i].as_str());
            let cs = chars_of(lower.as_str());
            if !all_ascii(&cs) && utf8_len_exceeds(&cs, 2) {
                assert(!sliceable(lowercase(cv[i as int])));
                return None;
            }
            i = i + 1;
        }
        Some(Self::train(corpus, target_vocab_size))
    }
}

} // verus!
