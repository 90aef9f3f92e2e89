//! Training data containers and batching.
use rand::seq::SliceRandom;
use vstd::hash_map::StringHashMap;
use vstd::prelude::*;

use crate::text::{
    all_words, build_vocab, first_occurrences, is_index_of, load_text_data, TextFilters,
};

verus! {

/// Supported embedding model architectures.
#[derive(Debug, Clone, Copy, PartialEq, Eq, Structural)]
pub enum ModelType {
    SkipGram,
    Cbow,
}

/// Container for tokenized sentences and the vocabulary mapping.
pub struct TrainingData {
    pub sentences: Vec<Vec<String>>,
    pub vocab: StringHashMap<usize>,
    pub reverse_vocab: Vec<String>,
}

impl TrainingData {
    /// Creates [`TrainingData`] from raw text by tokenizing and building the vocabulary.
    pub fn from_text(text: &str) -> (r: Self)
        ensures
            r.sentences.deep_view() == TextFilters::standard().process_text(text@),
            r.reverse_vocab.deep_view() == first_occurrences(all_words(r.sentences.deep_view())),
            is_index_of(r.vocab@, r.reverse_vocab.deep_view()),
    {
        let sentences = load_text_data(text);
        let (vocab, reverse_vocab) = build_vocab(&sentences);
        Self { sentences, vocab, reverse_vocab }
    }

    /// Adds the words that the vocabulary lacks, in order, each with the next
    /// id (the vocabulary's size at the time), and returns the ids it gave.
    pub fn add_words(&mut self, new_words: &[String]) -> (added: Vec<usize>)
        ensures
            (final(self).vocab@, final(self).reverse_vocab.deep_view(), added@) == extend_vocab(
                old(self).vocab@,
                old(self).reverse_vocab.deep_view(),
                new_words.deep_view(),
            ),
            final(self).sentences.deep_view() == old(self).sentences.deep_view(),
    {
        let ghost nv = new_words.deep_view();
        let ghost v0 = self.vocab@;
        let ghost r0 = self.reverse_vocab.deep_view();
        let mut added: Vec<usize> = Vec::new();
        let mut i: usize = 0;
        while i < new_words.len()
            invariant
                i <= new_words.len(),
                nv == new_words.deep_view(),
                (self.vocab@, self.reverse_vocab.deep_view(), added@) == extend_vocab(
                    v0,
                    r0,
                    nv.take(i as int),
                ),
                self.sentences.deep_view() == old(self).sentences.deep_view(),
            decreases new_words.len() - i,
        {
            assert(nv.take(i + 1).drop_last() =~= nv.take(i as int));
            let word = &new_words[i];
            assert(word@ == nv[i as int]);
            if !self.vocab.contains_key(word.as_str()) {
                let new_id = self.vocab.len();
                let ghost rv = self.reverse_vocab.deep_view();
                self.vocab.insert(word.clone(), new_id);
                self.reverse_vocab.push(word.clone());
                added.push(new_id);
                assert(self.reverse_vocab.deep_view() =~= rv.push(word@));
            }
            i = i + 1;
        }
        assert(nv.take(i as int) =~= nv);
        added
    }
}

/// The vocabulary, reverse vocabulary and new ids after adding `words` in
/// order: a word already present is skipped; a new one gets the current
/// vocabulary size as its id and is appended to the reverse vocabulary.
pub open spec fn extend_vocab(
    ids: Map<Seq<char>, usize>,
    rev: Seq<Seq<char>>,
    words: Seq<Seq<char>>,
) -> (Map<Seq<char>, usize>, Seq<Seq<char>>, Seq<usize>)
    decreases words.len(),
{
    if words.len() == 0 {
        (ids, rev, seq![])
    } else {
        let (m, r, added) = extend_vocab(ids, rev, words.drop_last());
        let w = words.last();
        if m.contains_key(w) {
            (m, r, added)
        } else {
            (m.insert(w, m.len() as usize), r.push(w), added.push(m.len() as usize))
        }
    }
}

proof fn lemma_extend_vocab_growth(
    ids: Map<Seq<char>, usize>,
    rev: Seq<Seq<char>>,
    words: Seq<Seq<char>>,
)
    ensures
        extend_vocab(ids, rev, words).1.len() <= rev.len() + words.len(),
    decreases words.len(),
{
    if words.len() > 0 {
        lemma_extend_vocab_growth(ids, rev, words.drop_last());
    }
}

/// Vocabulary law: when the vocabulary indexes its reverse list, adding words
/// keeps it so, and afterwards every added word is in the vocabulary.
pub proof fn lemma_extend_vocab_indexes(
    ids: Map<Seq<char>, usize>,
    rev: Seq<Seq<char>>,
    words: Seq<Seq<char>>,
)
    requires
        is_index_of(ids, rev),
        rev.len() + words.len() <= usize::MAX,
    ensures
        is_index_of(extend_vocab(ids, rev, words).0, extend_vocab(ids, rev, words).1),
        forall|k: int|
            0 <= k < words.len() ==> extend_vocab(ids, rev, words).0.contains_key(
                #[trigger] words[k],
            ),
    decreases words.len(),
{
    if words.len() > 0 {
        let d = words.drop_last();
        lemma_extend_vocab_indexes(ids, rev, d);
        let (m, r, added) = extend_vocab(ids, rev, d);
        lemma_extend_vocab_growth(ids, rev, d);
        lemma_index_len(m, r);
        lemma_index_len(ids, rev);
        let w = words.last();
        if !m.contains_key(w) {
            assert(!r.contains(w)) by {
                if r.contains(w) {
                    assert(r.to_set().contains(w));
                }
            }
            let m2 = m.insert(w, m.len() as usize);
            let r2 = r.push(w);
            r.lemma_push_to_set_commute(w);
            assert(m2.dom() =~= r2.to_set());
            assert forall|i: int| 0 <= i < r2.len() implies m2[#[trigger] r2[i]] == i by {
                if i < r.len() {
                    assert(r2[i] == r[i]);
                    assert(r[i] != w);
                }
            }
        }
        assert forall|k: int| 0 <= k < words.len() implies extend_vocab(
            ids,
            rev,
            words,
        ).0.contains_key(#[trigger] words[k]) by {
            if k < d.len() {
                assert(d[k] == words[k]);
            }
        }
    }
}

/// A map that indexes a list has as many keys as the list has entries.
proof fn lemma_index_len(ids: Map<Seq<char>, usize>, rev: Seq<Seq<char>>)
    requires
        is_index_of(ids, rev),
    ensures
        ids.len() == rev.len(),
        ids.dom().finite(),
{
    assert(rev.no_duplicates()) by {
        assert forall|i: int, j: int|
            0 <= i < rev.len() && 0 <= j < rev.len() && i != j implies rev[i] != rev[j] by {
            if rev[i] == rev[j] {
                assert(ids[rev[i]] == i);
                assert(ids[rev[j]] == j);
            }
        }
    }
    rev.unique_seq_to_set();
}

/// Utility for batching and streaming sentence data.
#[derive(Debug, Clone)]
pub struct DataLoader {
    pub batch_size: usize,
    pub shuffle: bool,
    pub file_path: Option<String>,
}

/// Consecutive runs of `size` items, the last one possibly shorter.
pub open spec fn chunks<A>(s: Seq<A>, size: nat) -> Seq<Seq<A>>
    recommends
        size > 0,
    decreases s.len(),
{
    if s.len() == 0 || size == 0 {
        seq![]
    } else if s.len() <= size {
        seq![s]
    } else {
        seq![s.take(size as int)] + chunks(s.skip(size as int), size)
    }
}

/// Batch law: cutting into batches keeps every item, in order, once: the
/// batches joined give the items back, and every batch but the last holds
/// exactly `size` items, the last between one and `size`.
pub proof fn lemma_chunks_cover<A>(s: Seq<A>, size: nat)
    requires
        size > 0,
    ensures
        chunks(s, size).flatten() == s,
        forall|k: int|
            0 <= k < chunks(s, size).len() - 1 ==> (#[trigger] chunks(s, size)[k]).len() == size,
        chunks(s, size).len() > 0 ==> 1 <= chunks(s, size).last().len() <= size,
    decreases s.len(),
{
    if s.len() == 0 {
        assert(chunks(s, size).flatten() =~= s);
    } else if s.len() <= size {
        assert(chunks(s, size) =~= seq![s]);
        assert(seq![s].drop_first() =~= Seq::<Seq<A>>::empty());
        assert(Seq::<Seq<A>>::empty().flatten() =~= Seq::<A>::empty());
        assert(seq![s].flatten() == s + Seq::<Seq<A>>::empty().flatten());
        assert(chunks(s, size).flatten() =~= s);
    } else {
        let rest = chunks(s.skip(size as int), size);
        lemma_chunks_cover(s.skip(size as int), size);
        assert(chunks(s, size) == seq![s.take(size as int)] + rest);
        assert((seq![s.take(size as int)] + rest).drop_first() =~= rest);
        assert(chunks(s, size).flatten() == s.take(size as int) + rest.flatten());
        assert(chunks(s, size).flatten() =~= s);
        assert forall|k: int| 0 <= k < chunks(s, size).len() - 1 implies (#[trigger] chunks(
            s,
            size,
        )[k]).len() == size by {
            if k > 0 {
                assert(chunks(s, size)[k] == rest[k - 1]);
            }
        }
        if rest.len() > 0 {
            assert(chunks(s, size).last() == rest.last());
        }
    }
}

/// `SliceRandom::shuffle` from rand with the thread-local generator: the
/// items are put in an order chosen at random, so they are kept as a
/// multiset and nothing more is said of the order.
#[verifier::external_body]
pub(crate) fn shuffle_in_place<T: DeepView>(items: &mut Vec<T>)
    ensures
        final(items).deep_view().to_multiset() == old(items).deep_view().to_multiset(),
{
    items.shuffle(&mut rand::thread_rng())
}

impl DataLoader {
    /// Creates a new data loader with the given batch size and options.
    pub fn new(batch_size: usize, shuffle: bool) -> (r: Self)
        ensures
            r.batch_size == batch_size,
            r.shuffle == shuffle,
            r.file_path is None,
    {
        Self { batch_size, shuffle, file_path: None }
    }

    /// Sets the file path for lazy loading.
    pub fn set_file_path(&mut self, path: String)
        ensures
            final(self).file_path == Some(path),
            final(self).batch_size == old(self).batch_size,
            final(self).shuffle == old(self).shuffle,
    {
        self.file_path = Some(path);
    }

    /// The effective batch size: a batch is closed once it reaches the
    /// configured size, so a size of zero closes every batch after one sentence.
    pub open spec fn chunk_size(&self) -> nat {
        if self.batch_size == 0 {
            1
        } else {
            self.batch_size as nat
        }
    }

    /// Groups sentences into fixed-size batches; with `shuffle` each batch is
    /// put in a random order.
    pub fn load_batches(&self, sentences: &[Vec<String>]) -> (r: Vec<Vec<Vec<String>>>)
        ensures
            r.deep_view().len() == chunks(sentences.deep_view(), self.chunk_size()).len(),
            forall|k: int|
                0 <= k < r.deep_view().len() ==> (#[trigger] r.deep_view()[k]).to_multiset()
                    == chunks(sentences.deep_view(), self.chunk_size())[k].to_multiset(),
            !self.shuffle ==> r.deep_view() == chunks(sentences.deep_view(), self.chunk_size()),
    {
        let ghost sv = sentences.deep_view();
        let ghost size = self.chunk_size();
        let ghost all = chunks(sv, size);
        let mut batches: Vec<Vec<Vec<String>>> = Vec::new();
        let mut current_batch: Vec<Vec<String>> = Vec::new();
        let mut start: usize = 0;
        let mut i: usize = 0;
        assert(sv.skip(0) =~= sv);
        while i < sentences.len()
            invariant
                i <= sentences.len(),
                start <= i,
                i - start < size,
                size == self.chunk_size(),
                sv == sentences.deep_view(),
                all == chunks(sv, size),
                current_batch.deep_view() == sv.subrange(start as int, i as int),
                batches.deep_view().len() + chunks(sv.skip(start as int), size).len() == all.len(),
                forall|k: int|
                    0 <= k < chunks(sv.skip(start as int), size).len() ==> all[batches.deep_view().len()
                        + k] == #[trigger] chunks(sv.skip(start as int), size)[k],
                forall|k: int|
                    0 <= k < batches.deep_view().len() ==> (#[trigger] batches.deep_view()[k]).to_multiset()
                        == all[k].to_multiset(),
                !self.shuffle ==> forall|k: int|
                    0 <= k < batches.deep_view().len() ==> #[trigger] batches.deep_view()[k] == all[k],
            decreases sentences.len() - i,
        {
            let sentence = sentences[i].clone();
            assert(sentence.deep_view() =~= sentences[i as int].deep_view());
            let ghost before = current_batch.deep_view();
            current_batch.push(sentence);
            assert(current_batch.deep_view() =~= before.push(sv[i as int]));
            assert(current_batch.deep_view() =~= sv.subrange(start as int, i + 1));
            i = i + 1;
            if current_batch.len() >= self.batch_size {
                let ghost rest = sv.skip(start as int);
                let ghost m = (i - start) as int;
                assert(rest.take(m) =~= sv.subrange(start as int, i as int));
                assert(rest.skip(m) =~= sv.skip(i as int));
                proof { lemma_chunk_front(rest, size, m); }
                let ghost count = batches.deep_view().len();
                assert(all[count as int] == chunks(rest, size)[0]);
                if self.shuffle {
                    shuffle_in_place(&mut current_batch);
                }
                let ghost old_b = batches.deep_view();
                let ghost cb = current_batch.deep_view();
                batches.push(current_batch);
                assert(batches.deep_view() =~= old_b.push(cb));
                current_batch = Vec::new();
                start = i;
                assert(current_batch.deep_view() =~= sv.subrange(start as int, i as int));
                assert forall|k: int|
                    0 <= k < chunks(sv.skip(start as int), size).len() implies all[batches.deep_view().len()
                        + k] == #[trigger] chunks(sv.skip(start as int), size)[k] by {
                    assert(chunks(rest, size)[1 + k] == chunks(sv.skip(start as int), size)[k]);
                }
                assert forall|k: int|
                    0 <= k < batches.deep_view().len() implies (#[trigger] batches.deep_view()[k]).to_multiset()
                        == all[k].to_multiset() by {
                    if k < old_b.len() {
                        assert(batches.deep_view()[k] == old_b[k]);
                    }
                }
            }
        }
        if current_batch.len() > 0 {
            let ghost rest = sv.skip(start as int);
            let ghost m = (i - start) as int;
            assert(rest =~= sv.subrange(start as int, i as int));
            assert(rest.take(m) =~= rest);
            assert(rest.skip(m) =~= Seq::<Seq<Seq<char>>>::empty());
            proof { lemma_chunk_front(rest, size, m); }
            let ghost count = batches.deep_view().len();
            assert(all[count as int] == chunks(rest, size)[0]);
            if self.shuffle {
                shuffle_in_place(&mut current_batch);
            }
            let ghost old_b = batches.deep_view();
            let ghost cb = current_batch.deep_view();
            batches.push(current_batch);
            assert(batches.deep_view() =~= old_b.push(cb));
            assert forall|k: int|
                0 <= k < batches.deep_view().len() implies (#[trigger] batches.deep_view()[k]).to_multiset()
                    == all[k].to_multiset() by {
                if k < old_b.len() {
                    assert(batches.deep_view()[k] == old_b[k]);
                }
            }
        } else {
            assert(sv.skip(start as int) =~= Seq::<Seq<Seq<char>>>::empty());
        }
        if !self.shuffle {
            assert(batches.deep_view() =~= all);
        }
        batches
    }
}

/// Taking the first `m` items off a sequence, where `m` is the chunk size or
/// the whole (shorter) rest, takes off its first chunk.
proof fn lemma_chunk_front<A>(s: Seq<A>, size: nat, m: int)
    requires
        size > 0,
        0 < m <= s.len(),
        m == size || (m < size && m == s.len()),
    ensures
        chunks(s, size).len() == 1 + chunks(s.skip(m), size).len(),
        chunks(s, size)[0] == s.take(m),
        forall|k: int|
            0 <= k < chunks(s.skip(m), size).len() ==> chunks(s, size)[1 + k] == #[trigger] chunks(
                s.skip(m),
                size,
            )[k],
{
    if s.len() <= size {
        assert(s.take(m) =~= s);
        assert(s.skip(m) =~= Seq::<A>::empty());
    }
}

} // verus!
