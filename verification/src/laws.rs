//! What holds of scores and of the best documents.
use vstd::prelude::*;
use vstd::seq_lib::group_to_multiset_ensures;
use vstd::set_lib::{lemma_int_range, lemma_len_subset, set_int_range};

use crate::accumulator::{block_hits, is_hit, total, AccumulatorView, Hit};
use crate::docs::{DocSetView, RowAddrMask};
use crate::posting::DocCandidate;
use crate::ranking::{are_candidates, is_best, is_kth_score, is_lowest, is_top_k, lemma_no_more};
use crate::ranking::{rank, rivals, scored_docs, selected_docs};
use crate::single::{total_order, Single, SingleArithmetic, ZERO};

verus! {

/// The order in which hits are added does not matter.
pub proof fn hits_commute(acc: AccumulatorView, hits: Seq<Hit>, others: Seq<Hit>)
    requires
        hits.to_multiset() == others.to_multiset(),
    ensures
        acc.after(hits) == acc.after(others),
{
    broadcast use group_to_multiset_ensures;

    assert forall|d: int| total(hits, d) == total(others, d) && is_hit(hits, d) == is_hit(
        others,
        d,
    ) by {
        lemma_total_of_items(hits, others, d);
        if is_hit(hits, d) {
            let i = choose|i: int| 0 <= i < hits.len() && (#[trigger] hits[i]).doc_id == d;
            assert(hits.contains(hits[i]));
            assert(others.to_multiset().count(hits[i]) > 0);
            assert(others[others.index_of(hits[i])].doc_id == d);
        }
        if is_hit(others, d) {
            let i = choose|i: int| 0 <= i < others.len() && (#[trigger] others[i]).doc_id == d;
            assert(others.contains(others[i]));
            assert(hits.to_multiset().count(others[i]) > 0);
            assert(hits[hits.index_of(others[i])].doc_id == d);
        }
    }
    assert(acc.after(hits).scores =~= acc.after(others).scores);
    assert(acc.after(hits).touched =~= acc.after(others).touched);
}

proof fn lemma_total_of_items(hits: Seq<Hit>, others: Seq<Hit>, d: int)
    requires
        hits.to_multiset() == others.to_multiset(),
    ensures
        total(hits, d) == total(others, d),
    decreases hits.len(),
{
    broadcast use group_to_multiset_ensures;

    assert(hits.len() == hits.to_multiset().len());
    assert(others.len() == others.to_multiset().len());
    if hits.len() > 0 {
        let last = hits.last();
        let rest = hits.drop_last();
        assert(hits =~= rest.push(last));
        assert(hits.contains(last));
        assert(others.to_multiset().count(last) > 0);
        let k = others.index_of(last);
        assert(others[k] == last);
        assert(rest.to_multiset() =~= others.remove(k).to_multiset());
        lemma_total_of_items(rest, others.remove(k), d);
        lemma_total_without(others, k, d);
    }
}

proof fn lemma_total_without(hits: Seq<Hit>, k: int, d: int)
    requires
        0 <= k < hits.len(),
    ensures
        total(hits, d) == total(hits.remove(k), d) + if hits[k].doc_id == d {
            hits[k].quantized as nat
        } else {
            0
        },
    decreases hits.len(),
{
    if k == hits.len() - 1 {
        assert(hits.remove(k) =~= hits.drop_last());
    } else {
        lemma_total_without(hits.drop_last(), k, d);
        assert(hits.remove(k).drop_last() =~= hits.drop_last().remove(k));
        assert(hits.remove(k).last() == hits.last());
    }
}

/// Hits never lower a score and never make a document untouched, and they leave the
/// documents that they are not on as they were.
pub proof fn hits_only_add(acc: AccumulatorView, hits: Seq<Hit>, d: int)
    requires
        acc.wf(),
        0 <= d < acc.scores.len(),
    ensures
        acc.after(hits).wf(),
        acc.after(hits).scores[d] >= acc.scores[d],
        acc.touched[d] ==> acc.after(hits).touched[d],
        !is_hit(hits, d) ==> acc.after(hits).scores[d] == acc.scores[d]
            && acc.after(hits).touched[d] == acc.touched[d],
{
    if !is_hit(hits, d) {
        lemma_total_of_no_hit(hits, d);
    }
}

/// Whether only touched documents have a score.
pub open spec fn scores_are_touched(acc: AccumulatorView) -> bool {
    forall|d: int|
        0 <= d < acc.scores.len() && #[trigger] acc.scores[d] != 0 ==> acc.touched[d]
}

/// Only touched documents have a score: it is so before the first hit, and hits keep it so.
pub proof fn only_touched_documents_score<A: SingleArithmetic>(
    num_docs: nat,
    max_possible_score: Single,
    acc: AccumulatorView,
    hits: Seq<Hit>,
)
    requires
        acc.wf(),
        scores_are_touched(acc),
    ensures
        scores_are_touched(AccumulatorView::fresh::<A>(num_docs, max_possible_score)),
        scores_are_touched(acc.after(hits)),
{
    assert forall|d: int|
        0 <= d < acc.scores.len() && #[trigger] acc.after(hits).scores[d] != 0 implies acc.after(
        hits,
    ).touched[d] by {
        if !is_hit(hits, d) {
            lemma_total_of_no_hit(hits, d);
            assert(acc.scores[d] != 0);
        }
    }
}

/// A score is the exact sum of what has been added to it, where that fits into 16 bits.
pub proof fn sums_that_fit_are_exact(acc: AccumulatorView, hits: Seq<Hit>, d: int)
    requires
        0 <= d < acc.scores.len(),
        acc.scores[d] + total(hits, d) <= u16::MAX,
    ensures
        acc.after(hits).scores[d] == acc.scores[d] + total(hits, d),
{
}

pub(crate) proof fn lemma_total_of_no_hit(hits: Seq<Hit>, d: int)
    requires
        !is_hit(hits, d),
    ensures
        total(hits, d) == 0,
    decreases hits.len(),
{
    if hits.len() > 0 {
        assert(hits[hits.len() - 1].doc_id != d);
        assert forall|i: int| 0 <= i < hits.drop_last().len() implies (
        #[trigger] hits.drop_last()[i]).doc_id != d by {
            assert(hits[i].doc_id != d);
        }
        lemma_total_of_no_hit(hits.drop_last(), d);
    }
}

/// As many results come back as were asked for, or as there are documents to return.
pub proof fn results_fill_limit<A: SingleArithmetic>(
    acc: AccumulatorView,
    docs: DocSetView,
    mask: RowAddrMask,
    k: nat,
    candidates: Seq<DocCandidate>,
)
    requires
        is_top_k::<A>(acc, docs, mask, k, candidates),
    ensures
        selected_docs(acc, docs, mask).finite(),
        candidates.len() == if selected_docs(acc, docs, mask).len() < k {
            selected_docs(acc, docs, mask).len()
        } else {
            k
        },
{
    let eligible = selected_docs(acc, docs, mask);
    let ids = choose|ids: Seq<int>|
        #[trigger] is_best::<A>(acc, eligible, k, ids) && are_candidates::<A>(
            acc,
            docs,
            ids,
            candidates,
        );
    lemma_int_range(0, acc.scores.len() as int);
    assert(eligible.subset_of(set_int_range(0, acc.scores.len() as int)));
    lemma_len_subset(eligible, set_int_range(0, acc.scores.len() as int));
    ids.unique_seq_to_set();
    assert(ids.to_set().subset_of(eligible));
    lemma_len_subset(ids.to_set(), eligible);
    if ids.len() < k {
        assert(ids.to_set() =~= eligible);
    }
}

/// Every result is a document that a posting has scored, under its own row and score,
/// and the mask selects its row.
pub proof fn results_are_selected<A: SingleArithmetic>(
    acc: AccumulatorView,
    docs: DocSetView,
    mask: RowAddrMask,
    k: nat,
    candidates: Seq<DocCandidate>,
    i: int,
)
    requires
        is_top_k::<A>(acc, docs, mask, k, candidates),
        0 <= i < candidates.len(),
    ensures
        mask.selects(candidates[i].row_id),
        exists|d: int|
            #[trigger] acc.is_scored(d) && candidates[i].row_id == docs.row_ids[d]
                && candidates[i].score == acc.score::<A>(d),
{
    let ids = choose|ids: Seq<int>|
        #[trigger] is_best::<A>(acc, selected_docs(acc, docs, mask), k, ids) && are_candidates::<
            A,
        >(acc, docs, ids, candidates);
    assert(selected_docs(acc, docs, mask).contains(ids[i]));
    assert(acc.is_scored(ids[i]));
}

/// No row comes back twice where no two documents share a row.
pub proof fn results_are_distinct<A: SingleArithmetic>(
    acc: AccumulatorView,
    docs: DocSetView,
    mask: RowAddrMask,
    k: nat,
    candidates: Seq<DocCandidate>,
    i: int,
    j: int,
)
    requires
        is_top_k::<A>(acc, docs, mask, k, candidates),
        docs.row_ids.no_duplicates(),
        forall|d: int| #[trigger] acc.is_scored(d) ==> d < docs.row_ids.len(),
        0 <= i < j < candidates.len(),
    ensures
        candidates[i].row_id != candidates[j].row_id,
{
    let ids = choose|ids: Seq<int>|
        #[trigger] is_best::<A>(acc, selected_docs(acc, docs, mask), k, ids) && are_candidates::<
            A,
        >(acc, docs, ids, candidates);
    assert(selected_docs(acc, docs, mask).contains(ids[i]));
    assert(selected_docs(acc, docs, mask).contains(ids[j]));
}

/// No better document is left out: one that has a score and whose row is selected is among
/// the results, unless there are as many results as were asked for and each of them scores at
/// least as high.
pub proof fn no_better_document_is_left_out<A: SingleArithmetic>(
    acc: AccumulatorView,
    docs: DocSetView,
    mask: RowAddrMask,
    k: nat,
    candidates: Seq<DocCandidate>,
    d: int,
)
    requires
        is_top_k::<A>(acc, docs, mask, k, candidates),
        0 <= d < acc.scores.len(),
        acc.touched[d],
        acc.scores[d] > 0,
        mask.selects(docs.row_ids[d]),
    ensures
        (exists|i: int|
            0 <= i < candidates.len() && (#[trigger] candidates[i]).row_id == docs.row_ids[d]
                && candidates[i].score == acc.score::<A>(d)) || (candidates.len() == k && forall|
            i: int,
        |
            0 <= i < candidates.len() ==> total_order(acc.score::<A>(d)) <= total_order(
                (#[trigger] candidates[i]).score,
            )),
{
    let eligible = selected_docs(acc, docs, mask);
    let ids = choose|ids: Seq<int>|
        #[trigger] is_best::<A>(acc, eligible, k, ids) && are_candidates::<A>(
            acc,
            docs,
            ids,
            candidates,
        );
    assert(eligible.contains(d));
    if ids.contains(d) {
        let i = ids.index_of(d);
        assert(ids[i] == d);
        assert(candidates[i].row_id == docs.row_ids[d]);
    } else {
        assert forall|i: int| 0 <= i < candidates.len() implies total_order(acc.score::<A>(d))
            <= total_order((#[trigger] candidates[i]).score) by {
            assert(rank::<A>(acc, d) <= rank::<A>(acc, ids[i]));
        }
    }
}

/// Earlier documents come first: a document is left out where as many earlier ones as were
/// asked for have a score, are eligible and rank at least as high.
pub proof fn earlier_documents_come_first<A: SingleArithmetic>(
    acc: AccumulatorView,
    eligible: Set<int>,
    k: nat,
    ids: Seq<int>,
    earlier: Seq<int>,
    d: int,
)
    requires
        is_best::<A>(acc, eligible, k, ids),
        forall|e: int| #[trigger] eligible.contains(e) ==> 0 <= e < acc.scores.len(),
        earlier.no_duplicates(),
        earlier.len() == k,
        forall|i: int|
            0 <= i < earlier.len() ==> eligible.contains(#[trigger] earlier[i]) && earlier[i] < d
                && total_order(acc.score::<A>(d)) <= total_order(acc.score::<A>(earlier[i])),
    ensures
        !ids.contains(d),
{
    if ids.contains(d) {
        let i = ids.index_of(d);
        assert(ids[i] == d);
        let range = set_int_range(0, acc.scores.len() as int);
        lemma_int_range(0, acc.scores.len() as int);
        let rivals = rivals::<A>(acc, eligible, ids[i]);
        lemma_len_subset(rivals, range);
        earlier.unique_seq_to_set();
        assert forall|e: int| earlier.to_set().contains(e) implies rivals.contains(e) by {
            let j = earlier.index_of(e);
            assert(earlier[j] == e);
        }
        lemma_len_subset(earlier.to_set(), rivals);
    }
}

/// Two answers to one question differ only in documents of the same rank.
pub proof fn answers_differ_in_ties<A: SingleArithmetic>(
    acc: AccumulatorView,
    eligible: Set<int>,
    k: nat,
    ids: Seq<int>,
    others: Seq<int>,
    d: int,
    e: int,
)
    requires
        is_best::<A>(acc, eligible, k, ids),
        is_best::<A>(acc, eligible, k, others),
        ids.contains(d) && !others.contains(d),
        others.contains(e) && !ids.contains(e),
    ensures
        rank::<A>(acc, d) == rank::<A>(acc, e),
{
    let i = ids.index_of(d);
    let j = others.index_of(e);
    assert(ids[i] == d && others[j] == e);
    assert(eligible.contains(ids[i]) && eligible.contains(others[j]));
}

/// Where no two documents that can be returned rank the same, there is one answer: two
/// answers hold the same rows with the same scores.
pub proof fn answers_agree_without_ties<A: SingleArithmetic>(
    acc: AccumulatorView,
    docs: DocSetView,
    mask: RowAddrMask,
    k: nat,
    candidates: Seq<DocCandidate>,
    others: Seq<DocCandidate>,
    i: int,
)
    requires
        is_top_k::<A>(acc, docs, mask, k, candidates),
        is_top_k::<A>(acc, docs, mask, k, others),
        forall|d: int, e: int|
            #![trigger rank::<A>(acc, d), rank::<A>(acc, e)]
            selected_docs(acc, docs, mask).contains(d) && selected_docs(acc, docs, mask).contains(e)
                && d != e ==> rank::<A>(acc, d) != rank::<A>(acc, e),
        0 <= i < candidates.len(),
    ensures
        candidates.len() == others.len(),
        exists|j: int|
            0 <= j < others.len() && (#[trigger] others[j]).row_id == candidates[i].row_id
                && others[j].score == candidates[i].score,
{
    results_fill_limit::<A>(acc, docs, mask, k, candidates);
    results_fill_limit::<A>(acc, docs, mask, k, others);
    let eligible = selected_docs(acc, docs, mask);
    let ids = choose|ids: Seq<int>|
        #[trigger] is_best::<A>(acc, eligible, k, ids) && are_candidates::<A>(
            acc,
            docs,
            ids,
            candidates,
        );
    let other_ids = choose|ids: Seq<int>|
        #[trigger] is_best::<A>(acc, eligible, k, ids) && are_candidates::<A>(
            acc,
            docs,
            ids,
            others,
        );
    let d = ids[i];
    assert(ids.contains(d));
    if !other_ids.contains(d) {
        if forall|j: int| 0 <= j < other_ids.len() ==> ids.contains(#[trigger] other_ids[j]) {
            let more = other_ids.push(d);
            assert forall|j: int| 0 <= j < more.len() implies ids.contains(#[trigger] more[j]) by {
                if j < other_ids.len() {
                    assert(ids.contains(other_ids[j]));
                }
            }
            lemma_no_more(more, ids);
        } else {
            let j = choose|j: int|
                0 <= j < other_ids.len() && !ids.contains(#[trigger] other_ids[j]);
            let e = other_ids[j];
            assert(other_ids.contains(e));
            answers_differ_in_ties::<A>(acc, eligible, k, ids, other_ids, d, e);
            assert(eligible.contains(ids[i]) && eligible.contains(other_ids[j]));
        }
    }
    let j = other_ids.index_of(d);
    assert(other_ids[j] == d);
    assert(others[j].row_id == candidates[i].row_id);
}

/// `acc` without the scores of the documents whose rows `mask` does not select.
pub open spec fn masked(
    acc: AccumulatorView,
    docs: DocSetView,
    mask: RowAddrMask,
) -> AccumulatorView {
    AccumulatorView {
        scores: Seq::new(
            acc.scores.len(),
            |d: int|
                if mask.selects(docs.row_ids[d]) {
                    acc.scores[d]
                } else {
                    0
                },
        ),
        ..acc
    }
}

/// The mask comes before the limit: documents whose rows it does not select take up none
/// of the places, just as if they had no score.
pub proof fn mask_comes_before_limit<A: SingleArithmetic>(
    acc: AccumulatorView,
    docs: DocSetView,
    mask: RowAddrMask,
    all: RowAddrMask,
    k: nat,
    candidates: Seq<DocCandidate>,
)
    requires
        forall|row_id: u64| #[trigger] all.selects(row_id),
    ensures
        is_top_k::<A>(acc, docs, mask, k, candidates) <==> is_top_k::<A>(
            masked(acc, docs, mask),
            docs,
            all,
            k,
            candidates,
        ),
{
    let other = masked(acc, docs, mask);
    let eligible = selected_docs(acc, docs, mask);
    assert(eligible =~= selected_docs(other, docs, all));
    assert forall|d: int| eligible.contains(d) implies acc.scores[d] == #[trigger] other.scores[d] by {
    }
    if is_top_k::<A>(acc, docs, mask, k, candidates) {
        let ids = choose|ids: Seq<int>|
            #[trigger] is_best::<A>(acc, eligible, k, ids) && are_candidates::<A>(
                acc,
                docs,
                ids,
                candidates,
            );
        lemma_same_best::<A>(acc, other, docs, eligible, k, ids, candidates);
    }
    if is_top_k::<A>(other, docs, all, k, candidates) {
        let ids = choose|ids: Seq<int>|
            #[trigger] is_best::<A>(other, eligible, k, ids) && are_candidates::<A>(
                other,
                docs,
                ids,
                candidates,
            );
        lemma_same_best::<A>(other, acc, docs, eligible, k, ids, candidates);
    }
}

proof fn lemma_same_best<A: SingleArithmetic>(
    acc: AccumulatorView,
    other: AccumulatorView,
    docs: DocSetView,
    eligible: Set<int>,
    k: nat,
    ids: Seq<int>,
    candidates: Seq<DocCandidate>,
)
    requires
        acc.inv_scale == other.inv_scale,
        forall|d: int| #[trigger] eligible.contains(d) ==> acc.scores[d] == other.scores[d],
        is_best::<A>(acc, eligible, k, ids),
        are_candidates::<A>(acc, docs, ids, candidates),
    ensures
        is_best::<A>(other, eligible, k, ids),
        are_candidates::<A>(other, docs, ids, candidates),
{
    assert forall|i: int| 0 <= i < ids.len() implies acc.score::<A>(#[trigger] ids[i])
        == other.score::<A>(ids[i]) by {
        assert(eligible.contains(ids[i]));
    }
    assert forall|i: int| 0 <= i < ids.len() implies rivals::<A>(
        other,
        eligible,
        #[trigger] ids[i],
    ).len() < k by {
        assert(eligible.contains(ids[i]));
        assert(rivals::<A>(acc, eligible, ids[i]) =~= rivals::<A>(other, eligible, ids[i]));
    }
    assert forall|d: int, i: int|
        #![trigger eligible.contains(d), ids[i]]
        eligible.contains(d) && !ids.contains(d) && 0 <= i < ids.len() implies rank::<A>(other, d)
        <= rank::<A>(other, ids[i]) by {
        assert(eligible.contains(ids[i]));
        assert(rank::<A>(acc, d) <= rank::<A>(acc, ids[i]));
    }
}

/// Whether quantized scores keep their order when they are scaled back by `inv_scale`.
pub open spec fn keeps_order<A: SingleArithmetic>(inv_scale: Single) -> bool {
    forall|p: u16, q: u16|
        p < q ==> total_order(
            #[trigger] A::times_spec(A::of_int_spec(p as u64), inv_scale),
        ) < total_order(#[trigger] A::times_spec(A::of_int_spec(q as u64), inv_scale))
}

/// Whether no quantized score becomes negative when it is scaled back by `inv_scale`.
pub open spec fn keeps_sign<A: SingleArithmetic>(inv_scale: Single) -> bool {
    forall|q: u16|
        total_order(ZERO) <= total_order(
            #[trigger] A::times_spec(A::of_int_spec(q as u64), inv_scale),
        )
}

/// Scaling back that keeps the order of quantized scores ranks documents by them.
proof fn lemma_rank_by_sum<A: SingleArithmetic>(acc: AccumulatorView, d: int, e: int)
    requires
        keeps_order::<A>(acc.inv_scale),
    ensures
        acc.scores[d] < acc.scores[e] <==> rank::<A>(acc, d) < rank::<A>(acc, e),
        acc.scores[d] <= acc.scores[e] <==> rank::<A>(acc, d) <= rank::<A>(acc, e),
{
    let p = acc.scores[d];
    let q = acc.scores[e];
    assert(acc.score::<A>(d) == A::times_spec(A::of_int_spec(p as u64), acc.inv_scale));
    assert(acc.score::<A>(e) == A::times_spec(A::of_int_spec(q as u64), acc.inv_scale));
}

/// The best documents are those of the greatest quantized sums: none that is left out has
/// a greater one. Scaling back has to keep the order of the sums.
pub proof fn best_have_the_greatest_sums<A: SingleArithmetic>(
    acc: AccumulatorView,
    eligible: Set<int>,
    k: nat,
    ids: Seq<int>,
    e: int,
    i: int,
)
    requires
        keeps_order::<A>(acc.inv_scale),
        is_best::<A>(acc, eligible, k, ids),
        eligible.contains(e) && !ids.contains(e),
        0 <= i < ids.len(),
    ensures
        acc.scores[e] <= acc.scores[ids[i]],
{
    assert(rank::<A>(acc, e) <= rank::<A>(acc, ids[i]));
    lemma_rank_by_sum::<A>(acc, e, ids[i]);
}

/// Every result has a score above 0. Scaling back has to keep the order of the quantized
/// sums and must give nothing negative.
pub proof fn results_are_positive<A: SingleArithmetic>(
    acc: AccumulatorView,
    docs: DocSetView,
    mask: RowAddrMask,
    k: nat,
    candidates: Seq<DocCandidate>,
    i: int,
)
    requires
        keeps_order::<A>(acc.inv_scale),
        keeps_sign::<A>(acc.inv_scale),
        is_top_k::<A>(acc, docs, mask, k, candidates),
        0 <= i < candidates.len(),
    ensures
        total_order(ZERO) < total_order(candidates[i].score),
{
    results_are_selected::<A>(acc, docs, mask, k, candidates, i);
    let d = choose|d: int|
        #[trigger] acc.is_scored(d) && candidates[i].row_id == docs.row_ids[d]
            && candidates[i].score == acc.score::<A>(d);
    let q = acc.scores[d];
    let none = A::times_spec(A::of_int_spec(0u16 as u64), acc.inv_scale);
    let some = A::times_spec(A::of_int_spec(q as u64), acc.inv_scale);
    assert(total_order(ZERO) <= total_order(none) < total_order(some));
}

/// The documents that have a score and whose quantized sum is beyond `sum`.
pub open spec fn docs_above(acc: AccumulatorView, sum: u16) -> Set<int> {
    Set::new(|d: int| acc.is_scored(d) && acc.scores[d] > sum)
}

/// The documents that have a score and whose quantized sum is at least `sum`.
pub open spec fn docs_from(acc: AccumulatorView, sum: u16) -> Set<int> {
    Set::new(|d: int| acc.is_scored(d) && acc.scores[d] >= sum)
}

/// The threshold is the score of the document with the `k`-th greatest quantized sum, and
/// 0 where fewer documents have a score. Scaling back has to keep the order of the sums.
pub proof fn threshold_is_the_kth_sum<A: SingleArithmetic>(
    acc: AccumulatorView,
    k: nat,
    threshold: Single,
)
    requires
        keeps_order::<A>(acc.inv_scale),
        k > 0,
        is_kth_score::<A>(acc, k, threshold),
    ensures
        scored_docs(acc).len() < k ==> threshold == ZERO,
        scored_docs(acc).len() >= k ==> exists|d: int|
            #[trigger] acc.is_scored(d) && threshold == acc.score::<A>(d) && docs_above(
                acc,
                acc.scores[d],
            ).len() < k <= docs_from(acc, acc.scores[d]).len(),
{
    let scored = scored_docs(acc);
    let ids = choose|ids: Seq<int>|
        #[trigger] is_best::<A>(acc, scored, k, ids) && is_lowest::<A>(acc, ids, k, threshold);
    let range = set_int_range(0, acc.scores.len() as int);
    lemma_int_range(0, acc.scores.len() as int);
    lemma_len_subset(scored, range);
    ids.unique_seq_to_set();
    assert(ids.to_set().subset_of(scored));
    lemma_len_subset(ids.to_set(), scored);
    if ids.len() < k {
        assert(ids.to_set() =~= scored);
    } else {
        let low = choose|i: int|
            0 <= i < ids.len() && acc.score::<A>(#[trigger] ids[i]) == threshold;
        let d = ids[low];
        assert(scored.contains(d));
        let above = docs_above(acc, acc.scores[d]);
        let from = docs_from(acc, acc.scores[d]);
        lemma_len_subset(above, range);
        lemma_len_subset(from, range);
        assert forall|e: int| ids.to_set().contains(e) implies from.contains(e) by {
            let j = ids.index_of(e);
            assert(scored.contains(ids[j]));
            lemma_rank_by_sum::<A>(acc, d, ids[j]);
        }
        lemma_len_subset(ids.to_set(), from);
        assert(ids.to_set().contains(d)) by {
            assert(ids[low] == d);
        }
        assert forall|e: int| above.contains(e) implies ids.to_set().remove(d).contains(e) by {
            lemma_rank_by_sum::<A>(acc, e, d);
            assert(scored.contains(e));
            if !ids.contains(e) {
                assert(rank::<A>(acc, e) <= rank::<A>(acc, ids[low]));
            }
        }
        lemma_len_subset(above, ids.to_set().remove(d));
        assert(acc.is_scored(d));
    }
}

/// The threshold never falls while hits are added. Scaling back has to keep the order of
/// the quantized sums and must give nothing negative.
pub proof fn threshold_never_falls<A: SingleArithmetic>(
    acc: AccumulatorView,
    hits: Seq<Hit>,
    k: nat,
    before: Single,
    after: Single,
)
    requires
        acc.wf(),
        keeps_order::<A>(acc.inv_scale),
        keeps_sign::<A>(acc.inv_scale),
        k > 0,
        is_kth_score::<A>(acc, k, before),
        is_kth_score::<A>(acc.after(hits), k, after),
    ensures
        total_order(before) <= total_order(after),
{
    let now = acc.after(hits);
    let ids = choose|ids: Seq<int>|
        #[trigger] is_best::<A>(acc, scored_docs(acc), k, ids) && is_lowest::<A>(
            acc,
            ids,
            k,
            before,
        );
    let others = choose|ids: Seq<int>|
        #[trigger] is_best::<A>(now, scored_docs(now), k, ids) && is_lowest::<A>(
            now,
            ids,
            k,
            after,
        );
    if ids.len() < k {
        lemma_lowest_not_negative::<A>(now, others, k, after);
    } else {
        assert forall|i: int| 0 <= i < ids.len() implies scored_docs(now).contains(
            #[trigger] ids[i],
        ) && rank::<A>(acc, ids[i]) <= rank::<A>(now, ids[i]) by {
            assert(scored_docs(acc).contains(ids[i]));
            hits_only_add(acc, hits, ids[i]);
            lemma_rank_of_greater_sum::<A>(acc, now, ids[i]);
        }
        lemma_lowest_not_below::<A>(now, k, ids, before, others, after);
    }
}

/// The threshold for fewer documents is not below that for more of them. Scaling back must
/// give nothing negative.
pub proof fn threshold_for_fewer_is_higher<A: SingleArithmetic>(
    acc: AccumulatorView,
    few: nat,
    many: nat,
    of_few: Single,
    of_many: Single,
)
    requires
        keeps_sign::<A>(acc.inv_scale),
        0 < few <= many,
        is_kth_score::<A>(acc, few, of_few),
        is_kth_score::<A>(acc, many, of_many),
    ensures
        total_order(of_many) <= total_order(of_few),
{
    let scored = scored_docs(acc);
    let ids = choose|ids: Seq<int>|
        #[trigger] is_best::<A>(acc, scored, many, ids) && is_lowest::<A>(acc, ids, many, of_many);
    let others = choose|ids: Seq<int>|
        #[trigger] is_best::<A>(acc, scored, few, ids) && is_lowest::<A>(acc, ids, few, of_few);
    if ids.len() < many {
        lemma_lowest_not_negative::<A>(acc, others, few, of_few);
    } else {
        lemma_lowest_not_below::<A>(acc, few, ids, of_many, others, of_few);
    }
}

proof fn lemma_lowest_not_negative<A: SingleArithmetic>(
    acc: AccumulatorView,
    ids: Seq<int>,
    k: nat,
    score: Single,
)
    requires
        keeps_sign::<A>(acc.inv_scale),
        is_lowest::<A>(acc, ids, k, score),
    ensures
        total_order(ZERO) <= total_order(score),
{
    if !(ids.len() < k || ids.len() == 0) {
        let i = choose|i: int| 0 <= i < ids.len() && acc.score::<A>(#[trigger] ids[i]) == score;
        let q = acc.scores[ids[i]];
        assert(score == A::times_spec(A::of_int_spec(q as u64), acc.inv_scale));
    }
}

proof fn lemma_rank_of_greater_sum<A: SingleArithmetic>(
    acc: AccumulatorView,
    now: AccumulatorView,
    d: int,
)
    requires
        keeps_order::<A>(acc.inv_scale),
        now.inv_scale == acc.inv_scale,
        acc.scores[d] <= now.scores[d],
    ensures
        rank::<A>(acc, d) <= rank::<A>(now, d),
{
    let p = acc.scores[d];
    let q = now.scores[d];
    assert(acc.score::<A>(d) == A::times_spec(A::of_int_spec(p as u64), acc.inv_scale));
    assert(now.score::<A>(d) == A::times_spec(A::of_int_spec(q as u64), acc.inv_scale));
}

/// Where at least `k` documents rank at least as high as `score`, the lowest of the best
/// `k` is not below it.
proof fn lemma_lowest_not_below<A: SingleArithmetic>(
    acc: AccumulatorView,
    k: nat,
    ids: Seq<int>,
    score: Single,
    others: Seq<int>,
    lowest: Single,
)
    requires
        k > 0,
        ids.no_duplicates(),
        ids.len() >= k,
        forall|i: int|
            0 <= i < ids.len() ==> scored_docs(acc).contains(#[trigger] ids[i]) && total_order(
                score,
            ) <= rank::<A>(acc, ids[i]),
        is_best::<A>(acc, scored_docs(acc), k, others),
        is_lowest::<A>(acc, others, k, lowest),
    ensures
        total_order(score) <= total_order(lowest),
{
    if others.len() < k {
        assert forall|i: int| 0 <= i < ids.len() implies others.contains(#[trigger] ids[i]) by {
            assert(scored_docs(acc).contains(ids[i]));
        }
        lemma_no_more(ids, others);
    } else if total_order(lowest) < total_order(score) {
        let low = choose|i: int|
            0 <= i < others.len() && acc.score::<A>(#[trigger] others[i]) == lowest;
        let d = others[low];
        assert forall|i: int| 0 <= i < ids.len() implies others.contains(#[trigger] ids[i]) by {
            assert(scored_docs(acc).contains(ids[i]));
            if !others.contains(ids[i]) {
                assert(rank::<A>(acc, ids[i]) <= rank::<A>(acc, others[low]));
            }
        }
        let more = ids.push(d);
        assert forall|i: int| 0 <= i < more.len() implies others.contains(#[trigger] more[i]) by {
            if i < ids.len() {
                assert(others.contains(ids[i]));
            }
        }
        lemma_no_more(more, others);
    }
}

/// Postings that are scored without regard to the lengths of the documents add the same
/// whatever these lengths are, where 0 times any length is 0.
pub proof fn lengths_do_not_matter_in_blocks<A: SingleArithmetic>(
    acc: AccumulatorView,
    doc_ids: Seq<u32>,
    freqs: Seq<u32>,
    qw_k1p1: Single,
    num_tokens: Seq<u32>,
    other_tokens: Seq<u32>,
)
    requires
        forall|n: u64| #[trigger] A::times_spec(ZERO, A::of_int_spec(n)) == ZERO,
    ensures
        block_hits::<A>(acc, doc_ids, freqs, qw_k1p1, num_tokens, ZERO) == block_hits::<A>(
            acc,
            doc_ids,
            freqs,
            qw_k1p1,
            other_tokens,
            ZERO,
        ),
{
    assert(block_hits::<A>(acc, doc_ids, freqs, qw_k1p1, num_tokens, ZERO) =~= block_hits::<A>(
        acc,
        doc_ids,
        freqs,
        qw_k1p1,
        other_tokens,
        ZERO,
    ));
}

} // verus!
