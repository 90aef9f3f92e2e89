//! Transfer-learning helpers whose logic is discrete: subword n-grams and the
//! dimensions of a multimodal fusion.
use vstd::prelude::*;

use crate::chars::{chars_of, string_of};

verus! {

/// Combines text embeddings with auxiliary vectors (e.g., image features).
#[derive(Debug, Clone)]
pub struct MultimodalFusion {
    pub text_dim: usize,
    pub aux_dim: usize,
    pub fused_dim: usize,
}

impl MultimodalFusion {
    /// Creates a fusion module with the given dimensions.
    /// `fused_dim` is the output dimension after projection.
    pub fn new(text_dim: usize, aux_dim: usize, fused_dim: usize) -> (r: Self)
        ensures
            r.text_dim == text_dim,
            r.aux_dim == aux_dim,
            r.fused_dim == fused_dim,
    {
        Self { text_dim, aux_dim, fused_dim }
    }
}

/// FastText-style subword embeddings using character n-grams.
///
/// Represents words as the sum of their character n-gram vectors,
/// enabling embeddings for out-of-vocabulary words.
pub struct SubwordEmbedder {
    pub min_n: usize,
    pub max_n: usize,
}

/// The word between the boundary markers `<` and `>`.
pub open spec fn bounded_word(word: Seq<char>) -> Seq<char> {
    seq!['<'] + word + seq!['>']
}

/// All windows of `n` consecutive characters, left to right.
pub open spec fn windows(s: Seq<char>, n: nat) -> Seq<Seq<char>> {
    if n > s.len() {
        seq![]
    } else {
        Seq::new((s.len() - n + 1) as nat, |k: int| s.subrange(k, k + n))
    }
}

/// The windows of every size from `min_n` up to `m`, by increasing size.
pub open spec fn ngrams_up_to(s: Seq<char>, min_n: nat, m: int) -> Seq<Seq<char>>
    decreases m - min_n + 1,
{
    if m < min_n {
        seq![]
    } else {
        ngrams_up_to(s, min_n, m - 1) + windows(s, m as nat)
    }
}

impl SubwordEmbedder {
    /// Creates a subword embedder with the given n-gram range.
    pub fn new(min_n: usize, max_n: usize) -> (r: Self)
        ensures
            r.min_n == min_n,
            r.max_n == max_n,
    {
        Self { min_n, max_n }
    }

    /// The character n-grams of a word, with sizes from `min_n` to `max_n`.
    pub open spec fn ngrams_spec(&self, word: Seq<char>) -> Seq<Seq<char>> {
        let b = bounded_word(word);
        ngrams_up_to(
            b,
            self.min_n as nat,
            if (self.max_n as int) < b.len() {
                self.max_n as int
            } else {
                b.len() as int
            },
        )
    }

    /// Extracts character n-grams from a word with boundary markers.
    ///
    /// A size range that starts at zero asks for windows of size zero, which
    /// slices cannot give; such a range is not accepted.
    pub fn ngrams(&self, word: &str) -> (r: Vec<String>)
        requires
            self.min_n > 0,
        ensures
            r.deep_view() == self.ngrams_spec(word@),
    {
        let wc = chars_of(word);
        let mut chars: Vec<char> = Vec::new();
        chars.push('<');
        let mut k: usize = 0;
        while k < wc.len()
            invariant
                k <= wc.len(),
                chars@ == seq!['<'] + wc@.take(k as int),
            decreases wc.len() - k,
        {
            chars.push(wc[k]);
            k = k + 1;
            assert(chars@ =~= seq!['<'] + wc@.take(k as int));
        }
        chars.push('>');
        assert(wc@.take(k as int) =~= wc@);
        assert(chars@ =~= bounded_word(word@));
        let top = if self.max_n < chars.len() {
            self.max_n
        } else {
            chars.len()
        };
        sized_windows(&chars, self.min_n, top)
    }
}

/// The windows of every size from `lo` to `hi`, by increasing size, each
/// size left to right.
pub(crate) fn sized_windows(chars: &Vec<char>, lo: usize, hi: usize) -> (r: Vec<String>)
    requires
        1 <= lo,
        hi <= chars.len(),
    ensures
        r.deep_view() == ngrams_up_to(chars@, lo as nat, hi as int),
{
    let ghost b = chars@;
    let len = chars.len();
    let mut result: Vec<String> = Vec::new();
    if lo > hi {
        assert(ngrams_up_to(b, lo as nat, hi as int) == Seq::<Seq<char>>::empty());
        return result;
    }
    let count = hi - lo + 1;
    let mut i: usize = 0;
    assert(ngrams_up_to(b, lo as nat, lo - 1) == Seq::<Seq<char>>::empty());
    while i < count
        invariant
            b == chars@,
            len == chars.len(),
            hi <= len,
            1 <= lo <= hi,
            count == hi - lo + 1,
            i <= count,
            result.deep_view() == ngrams_up_to(b, lo as nat, lo + i - 1),
        decreases count - i,
    {
        let n = lo + i;
        let ghost base = result.deep_view();
        let mut start: usize = 0;
        while start <= len - n
            invariant
                b == chars@,
                len == chars.len(),
                1 <= n <= len,
                start <= len - n + 1,
                result.deep_view() == base + windows(b, n as nat).take(start as int),
            decreases len - n + 1 - start,
        {
            let gram = string_of(&chars.as_slice()[start..start + n]);
            let ghost before = result.deep_view();
            result.push(gram);
            assert(result.deep_view() =~= before.push(b.subrange(start as int, start + n)));
            start = start + 1;
            assert(result.deep_view() =~= base + windows(b, n as nat).take(start as int));
        }
        assert(windows(b, n as nat).take(start as int) =~= windows(b, n as nat));
        i = i + 1;
    }
    result
}

} // verus!
