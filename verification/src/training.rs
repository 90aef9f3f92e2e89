//! Context windows: which words of a sentence a target word is trained against.
use vstd::hash_map::StringHashMap;
use vstd::prelude::*;

verus! {

/// The first position of the window of `window` places around `target`:
/// `window` places back, or the start of the sentence.
pub open spec fn window_start(target: nat, window: nat) -> nat {
    if target >= window {
        (target - window) as nat
    } else {
        0
    }
}

/// One past the last position of the window of `window` places around
/// `target`, cut at the end of a sentence of `len` words.
pub open spec fn window_end(len: nat, target: nat, window: nat) -> nat {
    if target + window + 1 < len {
        target + window + 1
    } else {
        len
    }
}

/// The vocabulary ids of the words at positions `lo..hi` of the sentence,
/// in order, leaving out position `target` and the words that are not in
/// the vocabulary.
pub open spec fn known_ids(
    sentence: Seq<Seq<char>>,
    vocab: Map<Seq<char>, usize>,
    target: int,
    lo: int,
    hi: int,
) -> Seq<usize>
    decreases hi - lo,
{
    if hi <= lo {
        seq![]
    } else {
        let prev = known_ids(sentence, vocab, target, lo, hi - 1);
        let w = sentence[hi - 1];
        if hi - 1 != target && vocab.contains_key(w) {
            prev.push(vocab[w])
        } else {
            prev
        }
    }
}

/// The context of the word at `target`: the ids of the known words within
/// `window` places of it, in sentence order, the word itself left out.
pub open spec fn context_of(
    sentence: Seq<Seq<char>>,
    vocab: Map<Seq<char>, usize>,
    target: nat,
    window: nat,
) -> Seq<usize> {
    known_ids(
        sentence,
        vocab,
        target as int,
        window_start(target, window) as int,
        window_end(sentence.len(), target, window) as int,
    )
}

/// The vocabulary ids of the context words of the word at `target_idx`:
/// the known words at most `window` places before or after it, in sentence
/// order, without the word itself.
pub fn context_ids(
    sentence: &[String],
    vocab: &StringHashMap<usize>,
    target_idx: usize,
    window: usize,
) -> (r: Vec<usize>)
    requires
        target_idx < sentence.len(),
        target_idx + window + 1 <= usize::MAX,
    ensures
        r@ == context_of(sentence.deep_view(), vocab@, target_idx as nat, window as nat),
{
    let ghost sv = sentence.deep_view();
    let start = if target_idx >= window {
        target_idx - window
    } else {
        0
    };
    let end = if target_idx + window + 1 < sentence.len() {
        target_idx + window + 1
    } else {
        sentence.len()
    };
    let mut out: Vec<usize> = Vec::new();
    let mut p = start;
    while p < end
        invariant
            sv == sentence.deep_view(),
            start <= p <= end,
            end <= sentence.len(),
            out@ == known_ids(sv, vocab@, target_idx as int, start as int, p as int),
        decreases end - p,
    {
        assert(sv[p as int] == sentence@[p as int]@);
        if p != target_idx {
            match vocab.get(sentence[p].as_str()) {
                Some(id) => {
                    out.push(*id);
                },
                None => {},
            }
        }
        p = p + 1;
    }
    out
}

/// Every id of `known_ids` is the id of a known word at a position in
/// `lo..hi` other than `target`, and there are at most as many as such
/// positions.
proof fn lemma_known_ids_positions(
    sentence: Seq<Seq<char>>,
    vocab: Map<Seq<char>, usize>,
    target: int,
    lo: int,
    hi: int,
)
    ensures
        forall|k: int|
            0 <= k < known_ids(sentence, vocab, target, lo, hi).len() ==> exists|p: int|
                lo <= p < hi && p != target && vocab.contains_key(sentence[p])
                    && #[trigger] known_ids(sentence, vocab, target, lo, hi)[k] == vocab[sentence[p]],
        known_ids(sentence, vocab, target, lo, hi).len() <= (if hi <= lo {
            0
        } else if lo <= target < hi {
            hi - lo - 1
        } else {
            hi - lo
        }),
    decreases hi - lo,
{
    if hi > lo {
        lemma_known_ids_positions(sentence, vocab, target, lo, hi - 1);
        let prev = known_ids(sentence, vocab, target, lo, hi - 1);
        let cur = known_ids(sentence, vocab, target, lo, hi);
        assert forall|k: int| 0 <= k < cur.len() implies exists|p: int|
            lo <= p < hi && p != target && vocab.contains_key(sentence[p]) && #[trigger] cur[k]
                == vocab[sentence[p]] by {
            if k < prev.len() {
                assert(cur[k] == prev[k]);
                let p = choose|p: int|
                    lo <= p < hi - 1 && p != target && vocab.contains_key(sentence[p])
                        && #[trigger] prev[k] == vocab[sentence[p]];
                assert(lo <= p < hi && p != target && vocab.contains_key(sentence[p]) && cur[k]
                    == vocab[sentence[p]]);
            } else {
                assert(cur[k] == vocab[sentence[hi - 1]]);
            }
        }
    }
}

/// `id` is the vocabulary id of a known word of the sentence other than the
/// one at `target`, at most `window` places from it.
pub open spec fn id_within_window(
    sentence: Seq<Seq<char>>,
    vocab: Map<Seq<char>, usize>,
    target: nat,
    window: nat,
    id: usize,
) -> bool {
    exists|p: int|
        0 <= p < sentence.len() && p != target && target - window <= p <= target + window
            && vocab.contains_key(#[trigger] sentence[p]) && id == vocab[sentence[p]]
}

/// Each context id is the id of a known word other than the target, within
/// `window` places of it; a word has at most `2 * window` context words.
pub proof fn lemma_context_within_window(
    sentence: Seq<Seq<char>>,
    vocab: Map<Seq<char>, usize>,
    target: nat,
    window: nat,
)
    ensures
        context_of(sentence, vocab, target, window).len() <= 2 * window,
        forall|k: int|
            0 <= k < context_of(sentence, vocab, target, window).len() ==> id_within_window(
                sentence,
                vocab,
                target,
                window,
                #[trigger] context_of(sentence, vocab, target, window)[k],
            ),
{
    let lo = window_start(target, window) as int;
    let hi = window_end(sentence.len(), target, window) as int;
    lemma_known_ids_positions(sentence, vocab, target as int, lo, hi);
    let c = context_of(sentence, vocab, target, window);
    assert(c == known_ids(sentence, vocab, target as int, lo, hi));
    assert forall|k: int| 0 <= k < c.len() implies id_within_window(
        sentence,
        vocab,
        target,
        window,
        #[trigger] c[k],
    ) by {
        let p = choose|p: int|
            lo <= p < hi && p != target && vocab.contains_key(sentence[p])
                && #[trigger] known_ids(sentence, vocab, target as int, lo, hi)[k]
                == vocab[sentence[p]];
        assert(0 <= p < sentence.len() && target - window <= p <= target + window);
        assert(vocab.contains_key(sentence[p]) && c[k] == vocab[sentence[p]]);
    }
}

/// Position `p` holds a context word of the word at `target`: a known word,
/// other than the target itself, at most `window` places from it.
pub open spec fn is_context_position(
    sentence: Seq<Seq<char>>,
    vocab: Map<Seq<char>, usize>,
    target: nat,
    window: nat,
    p: int,
) -> bool {
    &&& 0 <= p < sentence.len()
    &&& p != target
    &&& target - window <= p <= target + window
    &&& vocab.contains_key(sentence[p])
}

/// The known positions in `lo..hi` other than `target`, in order.
spec fn known_positions(
    sentence: Seq<Seq<char>>,
    vocab: Map<Seq<char>, usize>,
    target: int,
    lo: int,
    hi: int,
) -> Seq<int>
    decreases hi - lo,
{
    if hi <= lo {
        seq![]
    } else {
        let prev = known_positions(sentence, vocab, target, lo, hi - 1);
        if hi - 1 != target && vocab.contains_key(sentence[hi - 1]) {
            prev.push(hi - 1)
        } else {
            prev
        }
    }
}

proof fn lemma_known_positions(
    sentence: Seq<Seq<char>>,
    vocab: Map<Seq<char>, usize>,
    target: int,
    lo: int,
    hi: int,
)
    ensures
        ({
            let ps = known_positions(sentence, vocab, target, lo, hi);
            &&& forall|i: int, j: int| 0 <= i < j < ps.len() ==> ps[i] < ps[j]
            &&& forall|i: int|
                0 <= i < ps.len() ==> lo <= #[trigger] ps[i] < hi && ps[i] != target
                    && vocab.contains_key(sentence[ps[i]])
            &&& forall|p: int|
                lo <= p < hi && p != target && vocab.contains_key(#[trigger] sentence[p])
                    ==> ps.contains(p)
            &&& known_ids(sentence, vocab, target, lo, hi) == Seq::new(
                ps.len(),
                |i: int| vocab[sentence[ps[i]]],
            )
        }),
    decreases hi - lo,
{
    if hi > lo {
        lemma_known_positions(sentence, vocab, target, lo, hi - 1);
        let prev = known_positions(sentence, vocab, target, lo, hi - 1);
        let ps = known_positions(sentence, vocab, target, lo, hi);
        let q = hi - 1;
        if q != target && vocab.contains_key(sentence[q]) {
            assert(ps == prev.push(q));
            assert forall|p: int|
                lo <= p < hi && p != target && vocab.contains_key(#[trigger] sentence[p]) implies ps.contains(p) by {
                if p < q {
                    assert(prev.contains(p));
                    let k = choose|k: int| 0 <= k < prev.len() && prev[k] == p;
                    assert(ps[k] == p);
                } else {
                    assert(ps[prev.len() as int] == p);
                }
            }
            assert(known_ids(sentence, vocab, target, lo, hi) =~= Seq::new(
                ps.len(),
                |i: int| vocab[sentence[ps[i]]],
            ));
        } else {
            assert forall|p: int|
                lo <= p < hi && p != target && vocab.contains_key(#[trigger] sentence[p]) implies ps.contains(p) by {
                assert(p < q);
            }
        }
    }
}

/// Context law: the context of the word at `target` is exactly the ids of
/// the words at its context positions (known words other than the target
/// itself, at most `window` places away), every such position once, in
/// sentence order.
pub proof fn lemma_context_complete(
    sentence: Seq<Seq<char>>,
    vocab: Map<Seq<char>, usize>,
    target: nat,
    window: nat,
)
    ensures
        exists|ps: Seq<int>|
            {
                &&& forall|i: int, j: int| 0 <= i < j < ps.len() ==> ps[i] < ps[j]
                &&& forall|i: int|
                    0 <= i < ps.len() ==> is_context_position(
                        sentence,
                        vocab,
                        target,
                        window,
                        #[trigger] ps[i],
                    )
                &&& forall|p: int|
                    #[trigger] is_context_position(sentence, vocab, target, window, p)
                        ==> ps.contains(p)
                &&& context_of(sentence, vocab, target, window) == Seq::new(
                    ps.len(),
                    |i: int| vocab[sentence[ps[i]]],
                )
            },
{
    let lo = window_start(target, window) as int;
    let hi = window_end(sentence.len(), target, window) as int;
    lemma_known_positions(sentence, vocab, target as int, lo, hi);
    let ps = known_positions(sentence, vocab, target as int, lo, hi);
    assert forall|i: int| 0 <= i < ps.len() implies is_context_position(
        sentence,
        vocab,
        target,
        window,
        #[trigger] ps[i],
    ) by {
        assert(lo <= ps[i] < hi);
    }
    assert forall|p: int| #[trigger] is_context_position(sentence, vocab, target, window, p) implies ps.contains(p) by {
        assert(lo <= p < hi && p != target && vocab.contains_key(sentence[p]));
    }
}

/// Negative samples for a target: distinct ids, none of them the target's.
pub open spec fn valid_negatives(samples: Seq<usize>, target_id: usize) -> bool {
    &&& samples.no_duplicates()
    &&& !samples.contains(target_id)
}

/// Takes a drawn candidate into the negative samples of `target_id` unless
/// it is the target itself or was drawn before. Samples that were distinct
/// and free of the target stay so.
pub fn offer_negative_sample(samples: &mut Vec<usize>, candidate: usize, target_id: usize)
    ensures
        final(samples)@ == (if candidate != target_id && !old(samples)@.contains(candidate) {
            old(samples)@.push(candidate)
        } else {
            old(samples)@
        }),
        valid_negatives(old(samples)@, target_id) ==> valid_negatives(final(samples)@, target_id),
{
    if candidate == target_id {
        return;
    }
    let mut i: usize = 0;
    while i < samples.len()
        invariant
            samples@ == old(samples)@,
            i <= samples.len(),
            forall|k: int| 0 <= k < i ==> samples@[k] != candidate,
        decreases samples.len() - i,
    {
        if samples[i] == candidate {
            assert(samples@[i as int] == candidate);
            return;
        }
        i = i + 1;
    }
    assert(!old(samples)@.contains(candidate));
    let ghost before = samples@;
    samples.push(candidate);
    proof {
        if valid_negatives(before, target_id) {
            assert forall|a: int, b: int| 0 <= a < b < samples@.len() implies samples@[a]
                != samples@[b] by {
                if b == before.len() {
                    assert(before[a] != candidate);
                } else {
                    assert(before[a] != before[b]);
                }
            }
            assert(!samples@.contains(target_id)) by {
                if samples@.contains(target_id) {
                    let j = choose|j: int| 0 <= j < samples@.len() && samples@[j] == target_id;
                    if j < before.len() {
                        assert(before[j] == target_id);
                    }
                }
            }
        }
    }
}

} // verus!
