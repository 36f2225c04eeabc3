//! The best documents of an accumulator, and the score that a document has to beat.
use vstd::multiset::Multiset;
use vstd::prelude::*;
use vstd::seq_lib::group_to_multiset_ensures;
use vstd::set_lib::{lemma_int_range, lemma_len_subset, set_int_range};

use crate::accumulator::{AccumulatorView, ScoreAccumulator};
use crate::docs::{DocSet, DocSetView, RowAddrMask};
use crate::heap::{ScoredDoc, ScoredHeap};
use crate::posting::DocCandidate;
use crate::single::{comes_before, lawful, total_order, Single, SingleArithmetic, ZERO};

verus! {

/// The place of document `d` among the documents of `acc`: higher is better. Scores are
/// numbers of positive sign, for which the order of all patterns is that of the values.
pub open spec fn rank<A: SingleArithmetic>(acc: AccumulatorView, d: int) -> int {
    total_order(acc.score::<A>(d))
}

/// The documents of `eligible` before `d` that rank at least as high as `d`.
pub open spec fn rivals<A: SingleArithmetic>(
    acc: AccumulatorView,
    eligible: Set<int>,
    d: int,
) -> Set<int> {
    Set::new(|e: int| eligible.contains(e) && e < d && rank::<A>(acc, d) <= rank::<A>(acc, e))
}

/// Whether `ids` are the best `k` of the documents `eligible`, or all of them if there
/// are fewer: no document that is left out ranks above one that is taken. A document
/// with `k` rivals is not taken; apart from that the choice between documents of the
/// same rank is open, and so is the order of `ids`.
pub open spec fn is_best<A: SingleArithmetic>(
    acc: AccumulatorView,
    eligible: Set<int>,
    k: nat,
    ids: Seq<int>,
) -> bool {
    &&& ids.no_duplicates()
    &&& ids.len() <= k
    &&& forall|i: int| 0 <= i < ids.len() ==> eligible.contains(#[trigger] ids[i])
    &&& ids.len() < k ==> forall|d: int| #[trigger] eligible.contains(d) ==> ids.contains(d)
    &&& forall|d: int, i: int|
        #![trigger eligible.contains(d), ids[i]]
        eligible.contains(d) && !ids.contains(d) && 0 <= i < ids.len() ==> rank::<A>(acc, d)
            <= rank::<A>(acc, ids[i])
    &&& forall|i: int|
        0 <= i < ids.len() ==> rivals::<A>(acc, eligible, #[trigger] ids[i]).len() < k
}

/// The documents that have a score.
pub open spec fn scored_docs(acc: AccumulatorView) -> Set<int> {
    Set::new(|d: int| acc.is_scored(d))
}

/// The documents that have a score and whose row `mask` selects.
pub open spec fn selected_docs(
    acc: AccumulatorView,
    docs: DocSetView,
    mask: RowAddrMask,
) -> Set<int> {
    Set::new(|d: int| acc.is_scored(d) && mask.selects(docs.row_ids[d]))
}

/// Whether `candidates` are the documents `ids`, each with its row and its score.
pub open spec fn are_candidates<A: SingleArithmetic>(
    acc: AccumulatorView,
    docs: DocSetView,
    ids: Seq<int>,
    candidates: Seq<DocCandidate>,
) -> bool {
    &&& candidates.len() == ids.len()
    &&& forall|i: int|
        0 <= i < ids.len() ==> {
            &&& (#[trigger] candidates[i]).row_id == docs.row_ids[ids[i]]
            &&& candidates[i].score == acc.score::<A>(ids[i])
            &&& candidates[i].freqs@.len() == 0
            &&& candidates[i].doc_length == 0
        }
}

/// Whether `candidates` are the best `k` documents that `mask` selects.
pub open spec fn is_top_k<A: SingleArithmetic>(
    acc: AccumulatorView,
    docs: DocSetView,
    mask: RowAddrMask,
    k: nat,
    candidates: Seq<DocCandidate>,
) -> bool {
    exists|ids: Seq<int>|
        #[trigger] is_best::<A>(acc, selected_docs(acc, docs, mask), k, ids)
            && are_candidates::<A>(acc, docs, ids, candidates)
}

/// Whether `score` is the lowest score among the best `k` documents. It is 0 while
/// fewer than `k` documents have a score, or none has.
pub open spec fn is_kth_score<A: SingleArithmetic>(
    acc: AccumulatorView,
    k: nat,
    score: Single,
) -> bool {
    exists|ids: Seq<int>|
        #[trigger] is_best::<A>(acc, scored_docs(acc), k, ids) && is_lowest::<A>(
            acc,
            ids,
            k,
            score,
        )
}

/// Whether `score` is the lowest score of the documents `ids`, or 0 if they are fewer
/// than `k` or none.
pub open spec fn is_lowest<A: SingleArithmetic>(
    acc: AccumulatorView,
    ids: Seq<int>,
    k: nat,
    score: Single,
) -> bool {
    if ids.len() < k || ids.len() == 0 {
        score == ZERO
    } else {
        &&& exists|i: int| 0 <= i < ids.len() && acc.score::<A>(#[trigger] ids[i]) == score
        &&& forall|i: int|
            0 <= i < ids.len() ==> total_order(score) <= rank::<A>(acc, #[trigger] ids[i])
    }
}

/// The score that [`is_kth_score`] describes; there is only one.
pub open spec fn kth_score<A: SingleArithmetic>(acc: AccumulatorView, k: nat) -> Single {
    choose|score: Single| is_kth_score::<A>(acc, k, score)
}

/// Document `d` with its score.
spec fn scored<A: SingleArithmetic>(acc: AccumulatorView, d: int) -> ScoredDoc {
    ScoredDoc { doc_id: d as u32, score: acc.score::<A>(d) }
}

/// The documents of the list `offered`.
spec fn docs_of(offered: Seq<u32>) -> Set<int> {
    Set::new(|e: int| 0 <= e <= u32::MAX && offered.contains(e as u32))
}

/// Whether document `doc_id` comes after all of `offered`.
spec fn is_next(offered: Seq<u32>, doc_id: u32) -> bool {
    forall|i: int| 0 <= i < offered.len() ==> #[trigger] offered[i] < doc_id
}

/// Whether `kept` are the best `k` of the documents `offered`.
spec fn keeps_best<A: SingleArithmetic>(
    acc: AccumulatorView,
    offered: Seq<u32>,
    k: nat,
    kept: Multiset<ScoredDoc>,
) -> bool {
    &&& kept.len() <= k
    &&& forall|x: ScoredDoc|
        #[trigger] kept.count(x) > 0 ==> kept.count(x) == 1 && offered.contains(x.doc_id) && x
            == scored::<A>(acc, x.doc_id as int)
    &&& kept.len() < k ==> forall|i: int|
        0 <= i < offered.len() ==> kept.count(scored::<A>(acc, #[trigger] offered[i] as int)) > 0
    &&& forall|i: int, x: ScoredDoc|
        #![trigger offered[i], kept.count(x)]
        0 <= i < offered.len() && kept.count(x) > 0 && kept.count(
            scored::<A>(acc, offered[i] as int),
        ) == 0 ==> rank::<A>(acc, offered[i] as int) <= x.rank()
    &&& forall|x: ScoredDoc|
        #[trigger] kept.count(x) > 0 ==> rivals::<A>(
            acc,
            docs_of(offered),
            x.doc_id as int,
        ).len() < k
}

impl ScoreAccumulator {
    /// A heap of the best `k` of the documents `offered`.
    fn select_best<A: SingleArithmetic>(&self, offered: &Vec<u32>, k: usize) -> (heap: ScoredHeap)
        requires
            self.wf(),
            lawful::<A>(),
            k > 0 || offered@.len() == 0,
            forall|i: int, j: int| 0 <= i < j < offered@.len() ==> offered@[i] < offered@[j],
            forall|i: int| 0 <= i < offered@.len() ==> #[trigger] offered@[i] < self@.scores.len(),
        ensures
            heap.wf(),
            keeps_best::<A>(self@, offered@, k as nat, heap@),
    {
        let mut heap: ScoredHeap = ScoredHeap::new();
        let mut i: usize = 0;
        while i < offered.len()
            invariant
                self.wf(),
                lawful::<A>(),
                k > 0 || offered@.len() == 0,
                i <= offered@.len(),
                forall|a: int, b: int|
                    0 <= a < b < offered@.len() ==> offered@[a] < offered@[b],
                forall|j: int|
                    0 <= j < offered@.len() ==> #[trigger] offered@[j] < self@.scores.len(),
                heap.wf(),
                keeps_best::<A>(self@, offered@.take(i as int), k as nat, heap@),
            decreases offered@.len() - i,
        {
            let ghost before = heap@;
            let ghost earlier = offered@.take(i as int);
            let doc_id: u32 = offered[i];
            let score: Single = self.score::<A>(doc_id);
            let item: ScoredDoc = ScoredDoc { doc_id, score };
            assert(is_next(earlier, doc_id));
            if heap.len() < k {
                heap.push(item);
                proof {
                    lemma_keep_added::<A>(self@, earlier, doc_id, k as nat, before);
                }
            } else {
                match heap.peek() {
                    Some(min) => {
                        if comes_before(min.score, score) {
                            let out: ScoredDoc = heap.replace_min(item);
                            proof {
                                lemma_keep_replaced::<A>(
                                    self@,
                                    earlier,
                                    doc_id,
                                    k as nat,
                                    before,
                                    out,
                                );
                            }
                        } else {
                            proof {
                                lemma_keep_unchanged::<A>(
                                    self@,
                                    earlier,
                                    doc_id,
                                    k as nat,
                                    before,
                                    min,
                                );
                            }
                        }
                    },
                    None => {},
                }
            }
            assert(offered@.take(i + 1) =~= earlier.push(doc_id));
            i = i + 1;
        }
        assert(offered@.take(i as int) =~= offered@);
        heap
    }
}

impl ScoreAccumulator {
    /// The ids of the documents that have a score, in ascending order.
    fn scored_ids(&self) -> (doc_ids: Vec<u32>)
        requires
            self.wf(),
        ensures
            forall|i: int, j: int| 0 <= i < j < doc_ids.len() ==> doc_ids[i] < doc_ids[j],
            forall|d: u32| #[trigger] doc_ids@.contains(d) <==> self@.is_scored(d as int),
    {
        let touched: Vec<u32> = self.iter_touched();
        let mut doc_ids: Vec<u32> = Vec::new();
        let mut i: usize = 0;
        proof {
            self.lemma_wf();
        }
        while i < touched.len()
            invariant
                self.wf(),
                self@.wf(),
                i <= touched@.len(),
                forall|a: int, b: int| 0 <= a < b < touched.len() ==> touched[a] < touched[b],
                forall|d: u32|
                    #[trigger] touched@.contains(d) <==> d < self@.touched.len()
                        && self@.touched[d as int],
                forall|a: int, b: int| 0 <= a < b < doc_ids.len() ==> doc_ids[a] < doc_ids[b],
                forall|d: u32|
                    #[trigger] doc_ids@.contains(d) <==> touched@.take(i as int).contains(d)
                        && self@.is_scored(d as int),
            decreases touched@.len() - i,
        {
            let doc_id: u32 = touched[i];
            let ghost before = doc_ids@;
            assert(touched@.contains(doc_id));
            proof {
                lemma_ascending_prefix(touched@, i as int);
                assert forall|a: int| 0 <= a < before.len() implies before[a] < doc_id by {
                    assert(before.contains(before[a]));
                }
                lemma_push_contains(before, doc_id);
            }
            if self.quantized(doc_id) != 0 {
                doc_ids.push(doc_id);
            }
            i = i + 1;
        }
        assert(touched@.take(i as int) =~= touched@);
        doc_ids
    }

    /// The best `k` documents whose rows `mask` selects, in no particular order.
    pub fn top_k<A: SingleArithmetic>(&self, k: usize, docs: &DocSet, mask: &RowAddrMask) -> (best:
        Vec<DocCandidate>)
        requires
            self.wf(),
            docs.wf(),
            lawful::<A>(),
            forall|d: int| #[trigger] self@.is_scored(d) ==> d < docs@.row_ids.len(),
        ensures
            is_top_k::<A>(self@, docs@, *mask, k as nat, best@),
    {
        let mut best: Vec<DocCandidate> = Vec::new();
        let ghost eligible = selected_docs(self@, docs@, *mask);
        if k == 0 {
            assert(is_best::<A>(self@, eligible, 0, Seq::empty()));
            return best;
        }
        let scored_ids: Vec<u32> = self.scored_ids();
        let mut offered: Vec<u32> = Vec::new();
        let mut i: usize = 0;
        while i < scored_ids.len()
            invariant
                docs.wf(),
                forall|d: int| #[trigger] self@.is_scored(d) ==> d < docs@.row_ids.len(),
                i <= scored_ids@.len(),
                forall|a: int, b: int|
                    0 <= a < b < scored_ids.len() ==> scored_ids[a] < scored_ids[b],
                forall|d: u32| #[trigger] scored_ids@.contains(d) <==> self@.is_scored(d as int),
                forall|a: int, b: int| 0 <= a < b < offered.len() ==> offered[a] < offered[b],
                forall|d: u32|
                    #[trigger] offered@.contains(d) <==> scored_ids@.take(i as int).contains(d)
                        && mask.selects(docs@.row_ids[d as int]),
            decreases scored_ids@.len() - i,
        {
            let doc_id: u32 = scored_ids[i];
            let ghost before = offered@;
            assert(scored_ids@.contains(doc_id));
            proof {
                lemma_ascending_prefix(scored_ids@, i as int);
                assert forall|a: int| 0 <= a < before.len() implies before[a] < doc_id by {
                    assert(before.contains(before[a]));
                }
                lemma_push_contains(before, doc_id);
            }
            if mask.selected(docs.row_id(doc_id)) {
                offered.push(doc_id);
            }
            i = i + 1;
        }
        proof {
            assert(scored_ids@.take(i as int) =~= scored_ids@);
            assert forall|d: int| docs_of(offered@).contains(d) <==> #[trigger] eligible.contains(
                d,
            ) by {
                if eligible.contains(d) {
                    self.lemma_wf();
                    assert(scored_ids@.contains(d as u32));
                }
            }
            assert(docs_of(offered@) =~= eligible);
            assert forall|a: int| 0 <= a < offered.len() implies #[trigger] offered[a]
                < self@.scores.len() by {
                assert(offered@.contains(offered[a]));
            }
        }
        let heap: ScoredHeap = self.select_best::<A>(&offered, k);
        let items: Vec<ScoredDoc> = heap.into_items();
        let ghost ids = ids_of(items@);
        proof {
            lemma_kept_is_best::<A>(self@, offered@, k as nat, items@);
        }
        let mut n: usize = 0;
        while n < items.len()
            invariant
                docs.wf(),
                n <= items@.len(),
                best.len() == n,
                ids == ids_of(items@),
                forall|a: int|
                    0 <= a < ids.len() ==> 0 <= #[trigger] ids[a] < docs@.row_ids.len(),
                forall|a: int|
                    0 <= a < items.len() ==> (#[trigger] items[a]).score == self@.score::<A>(
                        ids[a],
                    ),
                are_candidates::<A>(self@, docs@, ids.take(n as int), best@),
            decreases items@.len() - n,
        {
            let item: ScoredDoc = items[n];
            assert(ids[n as int] == item.doc_id);
            best.push(
                DocCandidate {
                    row_id: docs.row_id(item.doc_id),
                    score: item.score,
                    freqs: Vec::new(),
                    doc_length: 0,
                },
            );
            n = n + 1;
        }
        assert(ids.take(n as int) =~= ids);
        best
    }
}

/// The lowest score among the best `k` documents, 0 while fewer than `k` have a score, or
/// none has.
pub fn compute_threshold_fast<A: SingleArithmetic>(accumulator: &ScoreAccumulator, k: usize) -> (
threshold: Single)
    requires
        accumulator.wf(),
        lawful::<A>(),
        k > 0 || forall|d: int| !accumulator@.is_scored(d),
    ensures
        is_kth_score::<A>(accumulator@, k as nat, threshold),
        threshold == kth_score::<A>(accumulator@, k as nat),
{
    let ghost acc = accumulator@;
    let offered: Vec<u32> = accumulator.scored_ids();
    proof {
        accumulator.lemma_wf();
        assert forall|d: int| docs_of(offered@).contains(d) <==> #[trigger] scored_docs(
            acc,
        ).contains(d) by {
            if scored_docs(acc).contains(d) {
                assert(offered@.contains(d as u32));
            }
        }
        assert(docs_of(offered@) =~= scored_docs(acc));
        assert forall|a: int| 0 <= a < offered.len() implies #[trigger] offered[a]
            < acc.scores.len() by {
            assert(offered@.contains(offered[a]));
        }
        if offered.len() > 0 {
            assert(offered@.contains(offered[0]));
        }
    }
    let heap: ScoredHeap = accumulator.select_best::<A>(&offered, k);
    let threshold: Single = if heap.len() < k {
        ZERO
    } else {
        match heap.peek() {
            Some(min) => min.score,
            None => ZERO,
        }
    };
    proof {
        broadcast use group_to_multiset_ensures;

        let items = heap.lemma_items();
        let ids = ids_of(items);
        lemma_kept_is_best::<A>(acc, offered@, k as nat, items);
        if 0 < k <= heap@.len() {
            let min = choose|m: ScoredDoc|
                #[trigger] heap@.count(m) > 0 && m.score == threshold && forall|x: ScoredDoc|
                    #[trigger] heap@.count(x) > 0 ==> m.rank() <= x.rank();
            let i = items.index_of(min);
            assert(items[i] == min);
            assert(acc.score::<A>(ids[i]) == threshold);
            assert forall|j: int| 0 <= j < ids.len() implies total_order(threshold) <= rank::<A>(
                acc,
                #[trigger] ids[j],
            ) by {
                assert(heap@.count(items[j]) > 0);
            }
        }
        assert(is_lowest::<A>(acc, ids, k as nat, threshold));
        assert(is_kth_score::<A>(acc, k as nat, threshold));
        lemma_one_kth_score::<A>(acc, k as nat, threshold, kth_score::<A>(acc, k as nat));
    }
    threshold
}

/// There is one lowest score among the best `k` documents, whichever of the documents
/// that share it are taken.
pub proof fn lemma_one_kth_score<A: SingleArithmetic>(
    acc: AccumulatorView,
    k: nat,
    score: Single,
    other: Single,
)
    requires
        is_kth_score::<A>(acc, k, score),
        is_kth_score::<A>(acc, k, other),
    ensures
        score == other,
{
    let eligible = scored_docs(acc);
    let ids = choose|ids: Seq<int>|
        #[trigger] is_best::<A>(acc, eligible, k, ids) && is_lowest::<A>(acc, ids, k, score);
    let others = choose|ids: Seq<int>|
        #[trigger] is_best::<A>(acc, eligible, k, ids) && is_lowest::<A>(acc, ids, k, other);
    if ids.len() < k {
        lemma_no_more(others, ids);
    } else if others.len() < k {
        lemma_no_more(ids, others);
    } else {
        lemma_kth_not_below::<A>(acc, k, ids, score, others, other);
        lemma_kth_not_below::<A>(acc, k, others, other, ids, score);
    }
}

/// The lowest score of one choice of the best `k` is not below that of another choice.
proof fn lemma_kth_not_below<A: SingleArithmetic>(
    acc: AccumulatorView,
    k: nat,
    ids: Seq<int>,
    score: Single,
    others: Seq<int>,
    other: Single,
)
    requires
        is_best::<A>(acc, scored_docs(acc), k, ids),
        is_lowest::<A>(acc, ids, k, score),
        is_best::<A>(acc, scored_docs(acc), k, others),
        is_lowest::<A>(acc, others, k, other),
        ids.len() == k,
        others.len() == k,
    ensures
        total_order(score) >= total_order(other),
{
    if total_order(score) < total_order(other) {
        let low = choose|i: int|
            0 <= i < ids.len() && acc.score::<A>(#[trigger] ids[i]) == score;
        let d = ids[low];
        assert(!others.contains(d));
        assert forall|i: int| 0 <= i < others.len() implies ids.contains(#[trigger] others[i]) by {
            assert(scored_docs(acc).contains(others[i]));
            assert(total_order(other) <= rank::<A>(acc, others[i]));
        }
        let more = others.push(d);
        assert(ids.contains(d));
        assert forall|i: int| 0 <= i < more.len() implies ids.contains(#[trigger] more[i]) by {
            if i < others.len() {
                assert(ids.contains(others[i]));
            }
        }
        lemma_no_more(more, ids);
    }
}

/// A list without repetition whose entries all occur in another is not longer.
pub(crate) proof fn lemma_no_more(few: Seq<int>, many: Seq<int>)
    requires
        few.no_duplicates(),
        forall|i: int| 0 <= i < few.len() ==> many.contains(#[trigger] few[i]),
    ensures
        few.len() <= many.len(),
{
    few.unique_seq_to_set();
    many.lemma_cardinality_of_set();
    vstd::seq_lib::seq_to_set_is_finite(many);
    assert(few.to_set().subset_of(many.to_set()));
    lemma_len_subset(few.to_set(), many.to_set());
}

/// In an ascending list, what comes before position `i` is smaller, and a longer prefix
/// has just one entry more.
proof fn lemma_ascending_prefix(list: Seq<u32>, i: int)
    requires
        0 <= i < list.len(),
        forall|a: int, b: int| 0 <= a < b < list.len() ==> list[a] < list[b],
    ensures
        forall|d: u32| #[trigger] list.take(i).contains(d) ==> d < list[i],
        forall|d: u32|
            #[trigger] list.take(i + 1).contains(d) <==> list.take(i).contains(d) || d == list[i],
{
    assert forall|d: u32| #[trigger] list.take(i).contains(d) implies d < list[i] by {
        let j = list.take(i).index_of(d);
        assert(list[j] == d);
    }
    assert(list.take(i + 1) =~= list.take(i).push(list[i]));
    lemma_push_contains(list.take(i), list[i]);
}

proof fn lemma_push_contains(list: Seq<u32>, x: u32)
    ensures
        forall|d: u32| #[trigger] list.push(x).contains(d) <==> list.contains(d) || d == x,
{
    assert forall|d: u32| #[trigger] list.push(x).contains(d) <==> list.contains(d) || d == x by {
        if list.contains(d) {
            assert(list.push(x)[list.index_of(d)] == d);
        }
        if d == x {
            assert(list.push(x)[list.len() as int] == d);
        }
    }
}

/// The documents of `items`.
spec fn ids_of(items: Seq<ScoredDoc>) -> Seq<int> {
    Seq::new(items.len(), |i: int| items[i].doc_id as int)
}

/// What a heap keeps are the best documents.
proof fn lemma_kept_is_best<A: SingleArithmetic>(
    acc: AccumulatorView,
    offered: Seq<u32>,
    k: nat,
    items: Seq<ScoredDoc>,
)
    requires
        keeps_best::<A>(acc, offered, k, items.to_multiset()),
    ensures
        is_best::<A>(acc, docs_of(offered), k, ids_of(items)),
        forall|i: int|
            0 <= i < items.len() ==> (#[trigger] items[i]).score == acc.score::<A>(
                items[i].doc_id as int,
            ),
{
    broadcast use group_to_multiset_ensures;

    let kept = items.to_multiset();
    let ids = ids_of(items);
    assert(forall|i: int| 0 <= i < items.len() ==> kept.count(#[trigger] items[i]) > 0);
    items.lemma_multiset_has_no_duplicates_conv();
    assert forall|d: int| #[trigger] docs_of(offered).contains(d) && !ids.contains(
        d,
    ) implies kept.count(scored::<A>(acc, d)) == 0 by {
        if kept.count(scored::<A>(acc, d)) > 0 {
            let i = items.index_of(scored::<A>(acc, d));
            assert(items[i] == scored::<A>(acc, d));
            assert(ids[i] == d);
        }
    }
    assert forall|d: int, i: int|
        #![trigger docs_of(offered).contains(d), ids[i]]
        docs_of(offered).contains(d) && !ids.contains(d) && 0 <= i < ids.len() implies rank::<A>(
        acc,
        d,
    ) <= rank::<A>(acc, ids[i]) by {
        let j = offered.index_of(d as u32);
        assert(offered[j] == d as u32);
        assert(kept.count(items[i]) > 0);
    }
    assert forall|d: int| ids.len() < k && #[trigger] docs_of(offered).contains(
        d,
    ) implies ids.contains(d) by {
        let j = offered.index_of(d as u32);
        assert(offered[j] == d as u32);
    }
}

/// As many different documents as `kept` has items at most can be in `kept`.
proof fn lemma_kept_bounds<A: SingleArithmetic>(
    acc: AccumulatorView,
    ids: Set<int>,
    kept: Multiset<ScoredDoc>,
)
    requires
        ids.finite(),
        forall|d: int|
            #[trigger] ids.contains(d) ==> 0 <= d <= u32::MAX && kept.count(scored::<A>(acc, d))
                > 0,
    ensures
        ids.len() <= kept.len(),
    decreases ids.len(),
{
    if ids.len() > 0 {
        let d = ids.choose();
        let rest = kept.remove(scored::<A>(acc, d));
        assert forall|e: int| #[trigger] ids.remove(d).contains(e) implies 0 <= e <= u32::MAX
            && rest.count(scored::<A>(acc, e)) > 0 by {
            assert(ids.contains(e));
            assert(scored::<A>(acc, e) != scored::<A>(acc, d));
        }
        lemma_kept_bounds::<A>(acc, ids.remove(d), rest);
    }
}

/// Sets of document ids are finite.
proof fn lemma_ids_finite(ids: Set<int>)
    requires
        forall|d: int| #[trigger] ids.contains(d) ==> 0 <= d <= u32::MAX,
    ensures
        ids.finite(),
{
    lemma_int_range(0, u32::MAX + 1);
    assert(ids.subset_of(set_int_range(0, u32::MAX + 1)));
    lemma_len_subset(ids, set_int_range(0, u32::MAX + 1));
}

/// A later document is no rival.
proof fn lemma_rivals_stay<A: SingleArithmetic>(
    acc: AccumulatorView,
    offered: Seq<u32>,
    doc_id: u32,
    d: u32,
)
    requires
        is_next(offered, doc_id),
        d <= doc_id,
    ensures
        rivals::<A>(acc, docs_of(offered.push(doc_id)), d as int) == rivals::<A>(
            acc,
            docs_of(offered),
            d as int,
        ),
{
    let all = offered.push(doc_id);
    assert forall|e: u32| e < doc_id implies (#[trigger] all.contains(e) <==> offered.contains(
        e,
    )) by {
        if offered.contains(e) {
            assert(all[offered.index_of(e)] == e);
        }
    }
    assert(rivals::<A>(acc, docs_of(all), d as int) =~= rivals::<A>(
        acc,
        docs_of(offered),
        d as int,
    ));
}

/// With room left, the next document is kept.
proof fn lemma_keep_added<A: SingleArithmetic>(
    acc: AccumulatorView,
    offered: Seq<u32>,
    doc_id: u32,
    k: nat,
    kept: Multiset<ScoredDoc>,
)
    requires
        keeps_best::<A>(acc, offered, k, kept),
        kept.len() < k,
        is_next(offered, doc_id),
    ensures
        keeps_best::<A>(
            acc,
            offered.push(doc_id),
            k,
            kept.insert(scored::<A>(acc, doc_id as int)),
        ),
{
    let item = scored::<A>(acc, doc_id as int);
    let now = kept.insert(item);
    let all = offered.push(doc_id);
    assert(kept.count(item) == 0);
    assert forall|x: ScoredDoc| #[trigger] now.count(x) > 0 implies now.count(x) == 1
        && all.contains(x.doc_id) && x == scored::<A>(acc, x.doc_id as int) && rivals::<A>(
        acc,
        docs_of(all),
        x.doc_id as int,
    ).len() < k by {
        if x == item {
            assert(all[offered.len() as int] == doc_id);
            lemma_rivals_stay::<A>(acc, offered, doc_id, doc_id);
            let ids = rivals::<A>(acc, docs_of(offered), doc_id as int);
            lemma_ids_finite(ids);
            assert forall|d: int| #[trigger] ids.contains(d) implies 0 <= d <= u32::MAX
                && kept.count(scored::<A>(acc, d)) > 0 by {
                assert(offered[offered.index_of(d as u32)] == d as u32);
            }
            lemma_kept_bounds::<A>(acc, ids, kept);
        } else {
            assert(kept.count(x) > 0);
            assert(all[offered.index_of(x.doc_id)] == x.doc_id);
            assert(offered[offered.index_of(x.doc_id)] < doc_id);
            lemma_rivals_stay::<A>(acc, offered, doc_id, x.doc_id);
        }
    }
    assert forall|i: int| 0 <= i < all.len() implies now.count(
        scored::<A>(acc, #[trigger] all[i] as int),
    ) > 0 by {
        if i < offered.len() {
            assert(kept.count(scored::<A>(acc, offered[i] as int)) > 0);
        }
    }
}

/// A document that ranks above the lowest takes its place.
proof fn lemma_keep_replaced<A: SingleArithmetic>(
    acc: AccumulatorView,
    offered: Seq<u32>,
    doc_id: u32,
    k: nat,
    kept: Multiset<ScoredDoc>,
    out: ScoredDoc,
)
    requires
        keeps_best::<A>(acc, offered, k, kept),
        kept.len() == k,
        is_next(offered, doc_id),
        kept.count(out) > 0,
        forall|x: ScoredDoc| #[trigger] kept.count(x) > 0 ==> out.rank() <= x.rank(),
        out.rank() < rank::<A>(acc, doc_id as int),
    ensures
        keeps_best::<A>(
            acc,
            offered.push(doc_id),
            k,
            kept.remove(out).insert(scored::<A>(acc, doc_id as int)),
        ),
{
    let item = scored::<A>(acc, doc_id as int);
    let now = kept.remove(out).insert(item);
    let all = offered.push(doc_id);
    assert(kept.count(item) == 0);
    assert(now.len() == k);
    assert forall|x: ScoredDoc| #[trigger] now.count(x) > 0 implies now.count(x) == 1
        && all.contains(x.doc_id) && x == scored::<A>(acc, x.doc_id as int) && rivals::<A>(
        acc,
        docs_of(all),
        x.doc_id as int,
    ).len() < k by {
        if x == item {
            assert(all[offered.len() as int] == doc_id);
            lemma_rivals_stay::<A>(acc, offered, doc_id, doc_id);
            let ids = rivals::<A>(acc, docs_of(offered), doc_id as int);
            lemma_ids_finite(ids);
            let more = ids.insert(out.doc_id as int);
            assert forall|d: int| #[trigger] more.contains(d) implies 0 <= d <= u32::MAX
                && kept.count(scored::<A>(acc, d)) > 0 by {
                if ids.contains(d) {
                    let i = offered.index_of(d as u32);
                    assert(offered[i] == d as u32);
                    assert(out.rank() < rank::<A>(acc, offered[i] as int));
                }
            }
            lemma_kept_bounds::<A>(acc, more, kept);
            assert(!ids.contains(out.doc_id as int));
        } else {
            assert(kept.count(x) > 0);
            assert(all[offered.index_of(x.doc_id)] == x.doc_id);
            assert(offered[offered.index_of(x.doc_id)] < doc_id);
            lemma_rivals_stay::<A>(acc, offered, doc_id, x.doc_id);
        }
    }
    assert forall|i: int, x: ScoredDoc|
        #![trigger all[i], now.count(x)]
        0 <= i < all.len() && now.count(x) > 0 && now.count(scored::<A>(acc, all[i] as int))
            == 0 implies rank::<A>(acc, all[i] as int) <= x.rank() by {
        assert(i < offered.len());
        let left = scored::<A>(acc, offered[i] as int);
        if x != item {
            assert(kept.count(x) > 0);
        }
        if left == out {
            assert(left.rank() == rank::<A>(acc, all[i] as int));
        } else {
            assert(kept.count(left) == 0);
            assert(rank::<A>(acc, offered[i] as int) <= out.rank());
        }
    }
}

/// A document that does not rank above the lowest is left out.
proof fn lemma_keep_unchanged<A: SingleArithmetic>(
    acc: AccumulatorView,
    offered: Seq<u32>,
    doc_id: u32,
    k: nat,
    kept: Multiset<ScoredDoc>,
    min: ScoredDoc,
)
    requires
        keeps_best::<A>(acc, offered, k, kept),
        kept.len() == k,
        is_next(offered, doc_id),
        forall|x: ScoredDoc| #[trigger] kept.count(x) > 0 ==> min.rank() <= x.rank(),
        rank::<A>(acc, doc_id as int) <= min.rank(),
    ensures
        keeps_best::<A>(acc, offered.push(doc_id), k, kept),
{
    let all = offered.push(doc_id);
    assert forall|x: ScoredDoc| #[trigger] kept.count(x) > 0 implies kept.count(x) == 1
        && all.contains(x.doc_id) && x == scored::<A>(acc, x.doc_id as int) && rivals::<A>(
        acc,
        docs_of(all),
        x.doc_id as int,
    ).len() < k by {
        assert(all[offered.index_of(x.doc_id)] == x.doc_id);
        assert(offered[offered.index_of(x.doc_id)] < doc_id);
        lemma_rivals_stay::<A>(acc, offered, doc_id, x.doc_id);
    }
    assert forall|i: int, x: ScoredDoc|
        #![trigger all[i], kept.count(x)]
        0 <= i < all.len() && kept.count(x) > 0 && kept.count(scored::<A>(acc, all[i] as int))
            == 0 implies rank::<A>(acc, all[i] as int) <= x.rank() by {
        if i < offered.len() {
            assert(offered[i] == all[i]);
        }
    }
}

} // verus!
