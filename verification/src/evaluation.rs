//! Validation data drawn from sentences, and the splits of a corpus into
//! training and validation parts.
use vstd::prelude::*;

use crate::config::shuffle_in_place;

verus! {

// ---------------------------------------------------------------------------
// Validation pairs
// ---------------------------------------------------------------------------

/// Synthetic validation data generated from sentences for evaluation.
#[derive(Debug, Clone)]
pub struct ValidationData {
    pub positive_pairs: Vec<(String, String)>,
    pub negative_pairs: Vec<(String, String)>,
    /// `(word1, word2, word3, word4)` for `word1 - word2 + word3 = word4`.
    pub analogies: Vec<(String, String, String, String)>,
}

/// The pairs of words `gap` apart within one sentence, left to right.
pub open spec fn pairs_at_gap(s: Seq<Seq<char>>, gap: nat) -> Seq<(Seq<char>, Seq<char>)> {
    if s.len() <= gap {
        seq![]
    } else {
        Seq::new((s.len() - gap) as nat, |i: int| (s[i], s[i + gap]))
    }
}

/// The pairs `gap` apart in each sentence, sentence after sentence.
pub open spec fn all_pairs_at_gap(sentences: Seq<Seq<Seq<char>>>, gap: nat) -> Seq<
    (Seq<char>, Seq<char>),
>
    decreases sentences.len(),
{
    if sentences.len() == 0 {
        seq![]
    } else {
        all_pairs_at_gap(sentences.drop_last(), gap) + pairs_at_gap(sentences.last(), gap)
    }
}

/// The analogy quadruples: the first words of four consecutive sentences,
/// for the first (at most ten) starting sentences, skipped where one of the
/// four sentences is empty.
pub open spec fn analogy_quads(sentences: Seq<Seq<Seq<char>>>, count: nat) -> Seq<
    (Seq<char>, Seq<char>, Seq<char>, Seq<char>),
>
    decreases count,
{
    if count == 0 {
        seq![]
    } else {
        let i = count - 1;
        let prev = analogy_quads(sentences, (count - 1) as nat);
        if sentences[i].len() > 0 && sentences[i + 1].len() > 0 && sentences[i + 2].len() > 0
            && sentences[i + 3].len() > 0 {
            prev.push((sentences[i][0], sentences[i + 1][0], sentences[i + 2][0], sentences[i + 3][0]))
        } else {
            prev
        }
    }
}

/// How many starting sentences the analogies look at.
pub open spec fn analogy_starts(n: nat) -> nat {
    if n < 4 {
        0
    } else if n - 3 < 10 {
        (n - 3) as nat
    } else {
        10
    }
}

/// The pairs of words `gap` apart in one sentence, appended to `out`.
fn push_pairs_at_gap(out: &mut Vec<(String, String)>, s: &Vec<String>, gap: usize)
    requires
        1 <= gap <= 2,
    ensures
        final(out).deep_view() == old(out).deep_view() + pairs_at_gap(s.deep_view(), gap as nat),
{
    let ghost sv = s.deep_view();
    let ghost start = out.deep_view();
    if s.len() <= gap {
        assert(start + pairs_at_gap(sv, gap as nat) =~= start);
        return;
    }
    let mut i: usize = 0;
    while i < s.len() - gap
        invariant
            sv == s.deep_view(),
            gap < s.len(),
            1 <= gap <= 2,
            i <= s.len() - gap,
            out.deep_view() =~= start + pairs_at_gap(sv, gap as nat).take(i as int),
        decreases s.len() - gap - i,
    {
        let ghost before = out.deep_view();
        out.push((s[i].clone(), s[i + gap].clone()));
        assert(out.deep_view() =~= before.push((sv[i as int], sv[i + gap])));
        i = i + 1;
    }
    assert(pairs_at_gap(sv, gap as nat).take(i as int) =~= pairs_at_gap(sv, gap as nat));
}

/// Generates validation pairs and analogies from sentences: consecutive
/// words are positive pairs, words two apart are negative pairs, and the
/// first words of four consecutive sentences form an analogy.
pub fn validation_data(sentences: &[Vec<String>]) -> (r: ValidationData)
    ensures
        r.positive_pairs.deep_view() == all_pairs_at_gap(sentences.deep_view(), 1),
        r.negative_pairs.deep_view() == all_pairs_at_gap(sentences.deep_view(), 2),
        r.analogies.deep_view() == analogy_quads(
            sentences.deep_view(),
            analogy_starts(sentences.deep_view().len()),
        ),
{
    let ghost sv = sentences.deep_view();
    let mut positive_pairs: Vec<(String, String)> = Vec::new();
    let mut negative_pairs: Vec<(String, String)> = Vec::new();
    let mut analogies: Vec<(String, String, String, String)> = Vec::new();
    let mut i: usize = 0;
    assert(positive_pairs.deep_view() =~= all_pairs_at_gap(sv.take(0), 1));
    assert(negative_pairs.deep_view() =~= all_pairs_at_gap(sv.take(0), 2));
    while i < sentences.len()
        invariant
            i <= sentences.len(),
            sv == sentences.deep_view(),
            positive_pairs.deep_view() == all_pairs_at_gap(sv.take(i as int), 1),
            negative_pairs.deep_view() == all_pairs_at_gap(sv.take(i as int), 2),
        decreases sentences.len() - i,
    {
        assert(sv.take(i + 1).drop_last() =~= sv.take(i as int));
        assert(sv.take(i + 1).last() == sentences[i as int].deep_view());
        push_pairs_at_gap(&mut positive_pairs, &sentences[i], 1);
        push_pairs_at_gap(&mut negative_pairs, &sentences[i], 2);
        i = i + 1;
    }
    assert(sv.take(i as int) =~= sv);
    let n = sentences.len();
    let starts: usize = if n < 4 {
        0
    } else if n - 3 < 10 {
        n - 3
    } else {
        10
    };
    let mut k: usize = 0;
    assert(analogies.deep_view() =~= analogy_quads(sv, 0));
    while k < starts
        invariant
            k <= starts,
            starts == analogy_starts(n as nat),
            n == sentences.len(),
            sv == sentences.deep_view(),
            analogies.deep_view() == analogy_quads(sv, k as nat),
        decreases starts - k,
    {
        let s1 = &sentences[k];
        let s2 = &sentences[k + 1];
        let s3 = &sentences[k + 2];
        let s4 = &sentences[k + 3];
        assert(s1.deep_view() == sv[k as int] && s2.deep_view() == sv[k + 1]);
        assert(s3.deep_view() == sv[k + 2] && s4.deep_view() == sv[k + 3]);
        if s1.len() > 0 && s2.len() > 0 && s3.len() > 0 && s4.len() > 0 {
            let ghost before = analogies.deep_view();
            analogies.push((s1[0].clone(), s2[0].clone(), s3[0].clone(), s4[0].clone()));
            assert(analogies.deep_view() =~= before.push(
                (sv[k as int][0], sv[k + 1][0], sv[k + 2][0], sv[k + 3][0]),
            ));
        }
        k = k + 1;
    }
    ValidationData { positive_pairs, negative_pairs, analogies }
}

// ---------------------------------------------------------------------------
// Splits
// ---------------------------------------------------------------------------

/// `order` lists each of `0..n` exactly once.
pub open spec fn is_permutation(order: Seq<usize>, n: nat) -> bool {
    &&& order.len() == n
    &&& order.no_duplicates()
    &&& forall|i: int| 0 <= i < order.len() ==> #[trigger] order[i] < n
}

/// The sentences at the given positions, in that order.
pub open spec fn pick(sentences: Seq<Seq<Seq<char>>>, order: Seq<usize>) -> Seq<Seq<Seq<char>>> {
    Seq::new(order.len(), |i: int| sentences[order[i] as int])
}

/// The sentences at the positions `order` lists, in that order.
pub fn pick_sentences(sentences: &[Vec<String>], order: &[usize]) -> (r: Vec<Vec<String>>)
    requires
        forall|i: int| 0 <= i < order@.len() ==> #[trigger] order@[i] < sentences@.len(),
    ensures
        r.deep_view() == pick(sentences.deep_view(), order@),
{
    let ghost sv = sentences.deep_view();
    let mut out: Vec<Vec<String>> = Vec::new();
    let mut i: usize = 0;
    while i < order.len()
        invariant
            i <= order.len(),
            sv == sentences.deep_view(),
            forall|j: int| 0 <= j < order@.len() ==> #[trigger] order@[j] < sentences@.len(),
            out.deep_view() =~= pick(sv, order@.take(i as int)),
        decreases order.len() - i,
    {
        let ghost before = out.deep_view();
        let idx = order[i];
        assert(order@[i as int] < sentences@.len());
        out.push(sentences[idx].clone());
        assert(out.deep_view() =~= before.push(sv[idx as int]));
        i = i + 1;
    }
    assert(order@.take(i as int) =~= order@);
    out
}

/// Splits sentences along a given order: the first `train_size` positions
/// of `order` give the training sentences, the rest the validation ones.
pub fn partition_by_order(sentences: &[Vec<String>], order: &[usize], train_size: usize) -> (r: (
    Vec<Vec<String>>,
    Vec<Vec<String>>,
))
    requires
        train_size <= order@.len(),
        forall|i: int| 0 <= i < order@.len() ==> #[trigger] order@[i] < sentences@.len(),
    ensures
        r.0.deep_view() == pick(sentences.deep_view(), order@.take(train_size as int)),
        r.1.deep_view() == pick(sentences.deep_view(), order@.skip(train_size as int)),
{
    let front = pick_sentences(sentences, &order[0..train_size]);
    let back = pick_sentences(sentences, &order[train_size..order.len()]);
    assert(order@.subrange(0, train_size as int) =~= order@.take(train_size as int));
    assert(order@.subrange(train_size as int, order@.len() as int) =~= order@.skip(
        train_size as int,
    ));
    (front, back)
}

/// The positions `0..n` in a random order, as random splits and
/// cross-validation folds cut them.
pub fn shuffled_order(n: usize) -> (r: Vec<usize>)
    ensures
        is_permutation(r@, n as nat),
{
    let mut order: Vec<usize> = Vec::new();
    let mut i: usize = 0;
    while i < n
        invariant
            i <= n,
            order@ =~= Seq::new(i as nat, |k: int| k as usize),
        decreases n - i,
    {
        order.push(i);
        i = i + 1;
    }
    let ghost before = order@;
    assert(before.no_duplicates());
    assert(order.deep_view() =~= before);
    shuffle_in_place(&mut order);
    proof {
        assert(order.deep_view() =~= order@);
        let after = order@;
        assert(order.deep_view() == after);
        before.lemma_multiset_has_no_duplicates();
        assert(after.to_multiset() == before.to_multiset());
        after.lemma_multiset_has_no_duplicates_conv();
        assert forall|k: int| 0 <= k < after.len() implies #[trigger] after[k] < n by {
            vstd::seq_lib::to_multiset_contains(after, after[k]);
            vstd::seq_lib::to_multiset_contains(before, after[k]);
            assert(after.contains(after[k]));
        }
        vstd::seq_lib::to_multiset_len(after);
        vstd::seq_lib::to_multiset_len(before);
    }
    order
}

/// Splits sentences at random into `train_size` training sentences and the
/// rest for validation: both parts come from one random order of all the
/// sentences.
pub fn split_sentences(sentences: &[Vec<String>], train_size: usize) -> (r: (
    Vec<Vec<String>>,
    Vec<Vec<String>>,
))
    requires
        train_size <= sentences@.len(),
    ensures
        exists|order: Seq<usize>|
            #[trigger] is_permutation(order, sentences@.len()) && r.0.deep_view() == pick(
                sentences.deep_view(),
                order.take(train_size as int),
            ) && r.1.deep_view() == pick(sentences.deep_view(), order.skip(train_size as int)),
{
    let order = shuffled_order(sentences.len());
    let r = partition_by_order(sentences, &order, train_size);
    assert(is_permutation(order@, sentences@.len()));
    r
}

/// The validation range of fold `fold` out of `k`: equal parts of
/// `n / k` positions, the last fold taking what remains.
pub open spec fn fold_bounds(n: nat, k: nat, fold: nat) -> (int, int) {
    let size = (n / k) as int;
    let start = fold * size;
    (start, if fold == k - 1 {
        n as int
    } else {
        start + size
    })
}

/// The fold's range lies within the positions.
proof fn lemma_fold_range(n: int, k: int, fold: int)
    requires
        1 <= k,
        0 <= fold < k,
        0 <= n,
    ensures
        0 <= fold * (n / k),
        fold * (n / k) + n / k == (fold + 1) * (n / k),
        (fold + 1) * (n / k) <= n,
        (k - 1) * (n / k) <= n,
{
    let s = n / k;
    vstd::arithmetic::div_mod::lemma_fundamental_div_mod(n, k);
    vstd::arithmetic::div_mod::lemma_mod_pos_bound(n, k);
    vstd::arithmetic::div_mod::lemma_div_pos_is_pos(n, k);
    vstd::arithmetic::mul::lemma_mul_inequality(fold + 1, k, s);
    vstd::arithmetic::mul::lemma_mul_inequality(k - 1, k, s);
    vstd::arithmetic::mul::lemma_mul_is_distributive_add_other_way(s, fold, 1);
    vstd::arithmetic::mul::lemma_mul_nonnegative(fold, s);
    assert(k * s == s * k) by (nonlinear_arith);
}

/// Fold law: the validation ranges of the `k` folds lie side by side and
/// together cover all `n` positions, so every sentence is held out in
/// exactly one fold.
pub proof fn lemma_folds_tile(n: nat, k: nat)
    requires
        1 <= k,
    ensures
        fold_bounds(n, k, 0).0 == 0,
        fold_bounds(n, k, (k - 1) as nat).1 == n,
        forall|f: nat|
            f + 1 < k ==> (#[trigger] fold_bounds(n, k, f)).1 == fold_bounds(n, k, f + 1).0,
        forall|f: nat|
            f < k ==> 0 <= (#[trigger] fold_bounds(n, k, f)).0 <= fold_bounds(n, k, f).1 <= n,
{
    assert forall|f: nat| f + 1 < k implies (#[trigger] fold_bounds(n, k, f)).1 == fold_bounds(
        n,
        k,
        f + 1,
    ).0 by {
        vstd::arithmetic::mul::lemma_mul_is_distributive_add_other_way((n / k) as int, f as int, 1);
    }
    assert forall|f: nat| f < k implies 0 <= (#[trigger] fold_bounds(n, k, f)).0 <= fold_bounds(
        n,
        k,
        f,
    ).1 <= n by {
        lemma_fold_range(n as int, k as int, f as int);
    }
}

/// Checks a fold count for cross-validation.
pub fn check_fold_count(k: usize, n: usize) -> (r: Result<(), String>)
    ensures
        r is Ok <==> 2 <= k <= n,
        r matches Err(e) ==> e@ == "k must be between 2 and the number of sentences"@,
{
    if k < 2 || k > n {
        Err("k must be between 2 and the number of sentences".to_owned())
    } else {
        Ok(())
    }
}

/// The training and validation sentences of one cross-validation fold:
/// the positions of `order` in the fold's range are held out, the others,
/// in order, train.
pub fn fold_partition(sentences: &[Vec<String>], order: &[usize], k: usize, fold: usize) -> (r: (
    Vec<Vec<String>>,
    Vec<Vec<String>>,
))
    requires
        2 <= k <= sentences@.len(),
        fold < k,
        is_permutation(order@, sentences@.len()),
    ensures
        ({
            let (start, end) = fold_bounds(sentences@.len(), k as nat, fold as nat);
            &&& 0 <= start <= end <= sentences@.len()
            &&& r.0.deep_view() == pick(
                sentences.deep_view(),
                order@.take(start) + order@.skip(end),
            )
            &&& r.1.deep_view() == pick(sentences.deep_view(), order@.subrange(start, end))
        }),
{
    let n = sentences.len();
    let size = n / k;
    proof {
        lemma_fold_range(n as int, k as int, fold as int);
    }
    let start = fold * size;
    let end = if fold == k - 1 {
        n
    } else {
        start + size
    };
    let mut train_order: Vec<usize> = Vec::new();
    let mut i: usize = 0;
    while i < start
        invariant
            i <= start <= end <= n,
            n == sentences@.len(),
            is_permutation(order@, n as nat),
            train_order@ =~= order@.take(i as int),
        decreases start - i,
    {
        train_order.push(order[i]);
        i = i + 1;
    }
    let mut j: usize = end;
    while j < n
        invariant
            start <= end <= j <= n,
            n == sentences@.len(),
            is_permutation(order@, n as nat),
            train_order@ =~= order@.take(start as int) + order@.subrange(end as int, j as int),
        decreases n - j,
    {
        train_order.push(order[j]);
        j = j + 1;
    }
    assert(order@.subrange(end as int, n as int) =~= order@.skip(end as int));
    assert forall|p: int| 0 <= p < train_order@.len() implies #[trigger] train_order@[p]
        < sentences@.len() by {
        if p < start {
            assert(train_order@[p] == order@[p]);
        } else {
            assert(train_order@[p] == order@[end + p - start]);
        }
    }
    let train = pick_sentences(sentences, &train_order);
    let val = pick_sentences(sentences, &order[start..end]);
    (train, val)
}

/// Splits sentences into the training and validation parts of one
/// cross-validation fold.
pub fn cross_validation_fold(
    sentences: &[Vec<String>],
    order: &[usize],
    k: usize,
    fold: usize,
) -> (r: Result<(Vec<Vec<String>>, Vec<Vec<String>>), String>)
    requires
        fold < k,
        is_permutation(order@, sentences@.len()),
    ensures
        r is Ok <==> 2 <= k <= sentences@.len(),
        r matches Ok(p) ==> ({
            let (start, end) = fold_bounds(sentences@.len(), k as nat, fold as nat);
            &&& p.0.deep_view() == pick(
                sentences.deep_view(),
                order@.take(start) + order@.skip(end),
            )
            &&& p.1.deep_view() == pick(sentences.deep_view(), order@.subrange(start, end))
        }),
        r matches Err(e) ==> e@ == "k must be between 2 and the number of sentences"@,
{
    match check_fold_count(k, sentences.len()) {
        Ok(()) => Ok(fold_partition(sentences, order, k, fold)),
        Err(e) => Err(e),
    }
}

} // verus!
