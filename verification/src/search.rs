//! Score-at-a-time BM25 search.
//!
//! The terms of a query are taken one after the other, those of the greatest weight
//! first, and the quantized scores of their postings are added up in a dense
//! accumulator. A budget bounds the number of postings, and the terms that are left are
//! skipped once they can add but little to the best documents.
use vstd::prelude::*;

use crate::accumulator::{AccumulatorView, Hit, ScoreAccumulator};
use crate::docs::{DocSet, DocSetView, RowAddrMask};
use crate::formula::{LookupView, ScoreLookupTable};
use crate::posting::faithful;
use crate::posting::{BlockCodec, DocCandidate, FtsSearchParams, Posting, PostingIterator, PostingList};
use crate::ranking::{compute_threshold_fast, is_top_k, kth_score};
use crate::scoring::{all_below, lut_hits, plain_postings, reached, rows_have_frequencies};
use crate::scoring::{has_frequencies, postings_are_below, DecodeBuffer};
use crate::scoring::{process_compressed_list_with_lut, process_plain_list};
use crate::single::{comes_before, lawful, less, less_than, total_order};
use crate::single::{Single, SingleArithmetic, EXIT_SHARE, K1, ONE, ZERO};

verus! {

/// The least postings budget of a search.
pub const MIN_POSTINGS_BUDGET: usize = 50_000;

/// Postings of the budget for each result and term.
pub const POSTINGS_PER_RESULT: usize = 10;

/// The number of terms that are processed whatever they can add.
pub const UNSKIPPED_TERMS: usize = 3;

/// What a search returns.
pub struct SearchOutcome {
    pub candidates: Vec<DocCandidate>,
    /// The number of postings processed, for the metrics to record. `None` where nothing
    /// was searched and nothing is to be recorded.
    pub comparisons: Option<usize>,
}

/// Whether term `a` comes before term `b` in the order of processing: by weight, the
/// greatest first, and for equal weights by place in the query.
pub open spec fn precedes(a: (usize, Single), b: (usize, Single)) -> bool {
    total_order(a.1) > total_order(b.1) || total_order(a.1) == total_order(b.1) && a.0 < b.0
}

/// Whether `order` lists the terms with a positive weight, each with its place in the
/// query and its weight, in the order of processing.
pub open spec fn is_term_order(
    postings: Seq<PostingIterator>,
    order: Seq<(usize, Single)>,
) -> bool {
    &&& forall|i: int|
        0 <= i < order.len() ==> {
            &&& (#[trigger] order[i]).0 < postings.len()
            &&& order[i].1 == postings[order[i].0 as int].query_weight
            &&& less(ZERO, order[i].1)
        }
    &&& forall|p: int|
        0 <= p < postings.len() && less(ZERO, (#[trigger] postings[p]).query_weight)
            ==> order.contains((p as usize, postings[p].query_weight))
    &&& forall|i: int, j: int| 0 <= i < j < order.len() ==> precedes(order[i], order[j])
}

/// The number of terms with a positive weight.
pub open spec fn active_terms(postings: Seq<PostingIterator>) -> nat
    decreases postings.len(),
{
    if postings.len() == 0 {
        0
    } else {
        active_terms(postings.drop_last()) + if less(ZERO, postings.last().query_weight) {
            1nat
        } else {
            0
        }
    }
}

/// The terms with a positive weight in the order of processing.
pub fn term_order(postings: &[PostingIterator]) -> (order: Vec<(usize, Single)>)
    ensures
        is_term_order(postings@, order@),
        order.len() == active_terms(postings@),
{
    let mut order: Vec<(usize, Single)> = Vec::new();
    let mut i: usize = 0;
    while i < postings.len()
        invariant
            i <= postings@.len(),
            is_term_order(postings@.take(i as int), order@),
            order.len() == active_terms(postings@.take(i as int)),
        decreases postings@.len() - i,
    {
        let query_weight: Single = postings[i].query_weight;
        let ghost before = order@;
        let ghost seen = postings@.take(i as int);
        assert(postings@.take(i + 1).drop_last() =~= seen);
        if less_than(ZERO, query_weight) {
            let mut pos: usize = 0;
            while pos < order.len() && !comes_before(order[pos].1, query_weight)
                invariant
                    pos <= order.len(),
                    forall|j: int|
                        0 <= j < pos ==> total_order((#[trigger] order[j]).1) >= total_order(
                            query_weight,
                        ),
                decreases order.len() - pos,
            {
                pos = pos + 1;
            }
            order.insert(pos, (i, query_weight));
            proof {
                lemma_insert_keeps_order(postings@, i as int, before, pos as int);
            }
        } else {
            assert forall|p: int| 0 <= p < i + 1 && less(
                ZERO,
                (#[trigger] postings@.take(i + 1)[p]).query_weight,
            ) implies order@.contains((p as usize, postings@.take(i + 1)[p].query_weight)) by {
                assert(seen[p] == postings@[p]);
            }
        }
        i = i + 1;
    }
    assert(postings@.take(i as int) =~= postings@);
    order
}

/// Inserting the next term behind all of at least its weight keeps the order.
proof fn lemma_insert_keeps_order(
    postings: Seq<PostingIterator>,
    i: int,
    order: Seq<(usize, Single)>,
    pos: int,
)
    requires
        0 <= i < postings.len() <= usize::MAX,
        is_term_order(postings.take(i), order),
        less(ZERO, postings[i].query_weight),
        0 <= pos <= order.len(),
        forall|j: int|
            0 <= j < pos ==> total_order((#[trigger] order[j]).1) >= total_order(
                postings[i].query_weight,
            ),
        pos < order.len() ==> total_order(order[pos].1) < total_order(postings[i].query_weight),
    ensures
        is_term_order(
            postings.take(i + 1),
            order.insert(pos, (i as usize, postings[i].query_weight)),
        ),
{
    let term = (i as usize, postings[i].query_weight);
    let longer = order.insert(pos, term);
    let seen = postings.take(i + 1);
    assert forall|j: int| 0 <= j < longer.len() implies (#[trigger] longer[j]).0 < seen.len()
        && longer[j].1 == seen[longer[j].0 as int].query_weight && less(ZERO, longer[j].1) by {
        if j < pos {
            assert(longer[j] == order[j]);
        } else if j > pos {
            assert(longer[j] == order[j - 1]);
        }
    }
    assert forall|p: int| 0 <= p < seen.len() && less(
        ZERO,
        (#[trigger] seen[p]).query_weight,
    ) implies longer.contains((p as usize, seen[p].query_weight)) by {
        if p < i {
            assert(postings.take(i)[p] == seen[p]);
            let k = order.index_of((p as usize, seen[p].query_weight));
            if k < pos {
                assert(longer[k] == order[k]);
            } else {
                assert(longer[k + 1] == order[k]);
            }
        } else {
            assert(longer[pos] == term);
        }
    }
    assert forall|a: int, b: int| 0 <= a < b < longer.len() implies precedes(
        longer[a],
        longer[b],
    ) by {
        if a < pos {
            assert(longer[a] == order[a]);
        } else if a > pos {
            assert(longer[a] == order[a - 1]);
        }
        if b < pos {
            assert(longer[b] == order[b]);
        } else if b > pos {
            assert(longer[b] == order[b - 1]);
        }
        if a == pos {
            if b > pos + 1 {
                assert(precedes(order[pos], order[b - 1]));
            }
        }
    }
}

/// The most that the terms of `order` from `i` on can add to a score: their weights
/// times K1 + 1, added up from the last term.
pub open spec fn remaining_max<A: SingleArithmetic>(order: Seq<(usize, Single)>, i: int) -> Single
    decreases order.len() - i,
{
    if i >= order.len() {
        ZERO
    } else {
        A::plus_spec(
            remaining_max::<A>(order, i + 1),
            A::times_spec(order[i].1, A::plus_spec(K1, ONE)),
        )
    }
}

/// [`remaining_max`] for each place in `order` and for its end.
pub fn suffix_sums<A: SingleArithmetic>(order: &Vec<(usize, Single)>) -> (sums: Vec<Single>)
    requires
        lawful::<A>(),
        order@.len() < usize::MAX,
    ensures
        sums.len() == order@.len() + 1,
        forall|i: int| 0 <= i <= order@.len() ==> #[trigger] sums[i] == remaining_max::<A>(order@, i),
{
    let n: usize = order.len();
    let mut sums: Vec<Single> = vec![ZERO; n + 1];
    let mut i: usize = n;
    while i > 0
        invariant
            lawful::<A>(),
            i <= n,
            n == order@.len(),
            sums.len() == n + 1,
            forall|j: int|
                i <= j <= n ==> #[trigger] sums[j] == remaining_max::<A>(order@, j),
        decreases i,
    {
        i = i - 1;
        let most: Single = A::times(order[i].1, A::plus(K1, ONE));
        let sum: Single = A::plus(sums[i + 1], most);
        sums[i] = sum;
    }
    sums
}

/// The number of postings in a list.
pub open spec fn list_len<C: BlockCodec>(list: PostingList) -> nat {
    match list {
        PostingList::Compressed(list) => list.postings::<C>().len(),
        PostingList::Plain(list) => list.row_ids@.len(),
    }
}

/// The postings among the first `n` of a list that are on documents of `docs`.
pub open spec fn list_prefix<A: SingleArithmetic, C: BlockCodec>(
    list: PostingList,
    docs: DocSetView,
    n: int,
) -> Seq<Posting> {
    match list {
        PostingList::Compressed(list) => list.postings::<C>().take(n),
        PostingList::Plain(list) => plain_postings::<A>(list, docs, n),
    }
}

/// Whether a list fits the documents, as far as a budget of `budget` postings reaches:
/// compressed postings are on those documents, and plain postings on those documents have
/// a frequency.
pub open spec fn list_fits<C: BlockCodec>(
    list: PostingList,
    docs: DocSetView,
    budget: nat,
) -> bool {
    match list {
        PostingList::Compressed(list) => all_below(
            list.postings::<C>().take(reached(list.postings::<C>().len(), budget) as int),
            docs.row_ids.len(),
        ),
        PostingList::Plain(list) => rows_have_frequencies(list, docs, budget),
    }
}

/// How far a search has come.
pub struct Progress {
    pub acc: AccumulatorView,
    /// The postings of the budget that are left.
    pub remaining: nat,
    /// The lowest score among the best documents when it was last looked at.
    pub threshold: Single,
}

/// What a search reads.
pub struct Query {
    pub postings: Seq<PostingIterator>,
    pub docs: DocSetView,
    pub lut: LookupView,
    /// The number of results asked for.
    pub limit: nat,
}

impl Query {
    /// Whether there is nothing to search: no results are asked for, or there are no terms.
    pub open spec fn is_idle(self) -> bool {
        self.limit == 0 || self.postings.len() == 0
    }

    /// Whether the query can be searched. Where there is something to search, the budget
    /// and the words of the bit set can be counted, and the postings that the search comes
    /// to fit the documents.
    pub open spec fn is_searchable<A: SingleArithmetic, C: BlockCodec>(self) -> bool {
        !self.is_idle() ==> {
            &&& self.docs.row_ids.len() + 63 <= usize::MAX
            &&& POSTINGS_PER_RESULT * self.limit <= usize::MAX
            &&& POSTINGS_PER_RESULT * self.limit * active_terms(self.postings) <= usize::MAX
            &&& forall|order: Seq<(usize, Single)>| #[trigger]
                is_term_order(self.postings, order) ==> self.fits_from::<A, C>(
                    order,
                    0,
                    self.begin::<A>(order),
                )
        }
    }

    /// The number of postings that a search may process.
    pub open spec fn budget(self) -> nat {
        let wanted = POSTINGS_PER_RESULT as nat * self.limit * active_terms(self.postings);
        if wanted < MIN_POSTINGS_BUDGET {
            MIN_POSTINGS_BUDGET as nat
        } else {
            wanted
        }
    }

    /// Whether the search ends before the term at place `i` of `order`: the budget is
    /// used up, or the first terms have been processed and those that are left cannot
    /// add a twentieth of the threshold.
    pub open spec fn ends_before<A: SingleArithmetic>(
        self,
        order: Seq<(usize, Single)>,
        i: int,
        at: Progress,
    ) -> bool {
        ||| at.remaining == 0
        ||| i >= UNSKIPPED_TERMS && less(ZERO, at.threshold) && less(
            remaining_max::<A>(order, i),
            A::times_spec(at.threshold, EXIT_SHARE),
        )
    }

    /// The term at place `i` of `order`.
    pub open spec fn term(self, order: Seq<(usize, Single)>, i: int) -> PostingIterator {
        self.postings[order[i].0 as int]
    }

    /// The number of postings of `term` that are processed.
    pub open spec fn taken<C: BlockCodec>(self, term: PostingIterator, at: Progress) -> nat {
        reached(list_len::<C>(term.list), at.remaining)
    }

    /// The hits of `term`.
    pub open spec fn hits<A: SingleArithmetic, C: BlockCodec>(
        self,
        term: PostingIterator,
        at: Progress,
    ) -> Seq<Hit> {
        lut_hits::<A>(
            at.acc,
            self.lut,
            term.query_weight,
            self.docs.num_tokens,
            list_prefix::<A, C>(term.list, self.docs, self.taken::<C>(term, at) as int),
        )
    }

    /// How far the search is after `term`, the term at place `i` of the order of
    /// processing. The threshold is looked at after every second term, from the third on.
    pub open spec fn step<A: SingleArithmetic, C: BlockCodec>(
        self,
        term: PostingIterator,
        i: int,
        at: Progress,
    ) -> Progress {
        let acc = at.acc.after(self.hits::<A, C>(term, at));
        Progress {
            acc,
            remaining: (at.remaining - self.taken::<C>(term, at)) as nat,
            threshold: if i >= 2 && i % 2 == 0 {
                kth_score::<A>(acc, self.limit)
            } else {
                at.threshold
            },
        }
    }

    /// How far the search is in the end, once it has come as far as `at` before the term
    /// at place `i` of `order`.
    pub open spec fn run<A: SingleArithmetic, C: BlockCodec>(
        self,
        order: Seq<(usize, Single)>,
        i: int,
        at: Progress,
    ) -> Progress
        decreases order.len() - i,
    {
        if i >= order.len() || self.ends_before::<A>(order, i, at) {
            at
        } else {
            self.run::<A, C>(order, i + 1, self.step::<A, C>(self.term(order, i), i, at))
        }
    }

    /// Whether the postings that the search still comes to fit the documents, once it has
    /// come as far as `at` before the term at place `i` of `order`.
    pub open spec fn fits_from<A: SingleArithmetic, C: BlockCodec>(
        self,
        order: Seq<(usize, Single)>,
        i: int,
        at: Progress,
    ) -> bool
        decreases order.len() - i,
    {
        i >= order.len() || self.ends_before::<A>(order, i, at) || {
            &&& list_fits::<C>(self.term(order, i).list, self.docs, at.remaining)
            &&& self.fits_from::<A, C>(
                order,
                i + 1,
                self.step::<A, C>(self.term(order, i), i, at),
            )
        }
    }

    /// How far the search is before the first term of `order`.
    pub open spec fn begin<A: SingleArithmetic>(self, order: Seq<(usize, Single)>) -> Progress {
        Progress {
            acc: AccumulatorView::fresh::<A>(
                self.docs.row_ids.len(),
                remaining_max::<A>(order, 0),
            ),
            remaining: self.budget(),
            threshold: ZERO,
        }
    }

    /// How far the search is in the end.
    pub open spec fn finish<A: SingleArithmetic, C: BlockCodec>(
        self,
        order: Seq<(usize, Single)>,
    ) -> Progress {
        self.run::<A, C>(order, 0, self.begin::<A>(order))
    }

    /// Whether `candidates` are what the query returns of the rows that `mask` selects:
    /// nothing where there is nothing to search, else the best documents at the end of the
    /// search. The terms have one order of processing.
    pub open spec fn returns_candidates<A: SingleArithmetic, C: BlockCodec>(
        self,
        mask: RowAddrMask,
        candidates: Seq<DocCandidate>,
    ) -> bool {
        &&& candidates.len() <= self.limit
        &&& if self.is_idle() {
            candidates.len() == 0
        } else {
            &&& exists|order: Seq<(usize, Single)>| #[trigger] is_term_order(self.postings, order)
            &&& forall|order: Seq<(usize, Single)>| #[trigger]
                is_term_order(self.postings, order) ==> is_top_k::<A>(
                    self.finish::<A, C>(order).acc,
                    self.docs,
                    mask,
                    self.limit,
                    candidates,
                )
        }
    }

    /// Whether `comparisons` is what is recorded of the query: nothing where there is
    /// nothing to search, else the part of the budget that the search has used up.
    pub open spec fn records_comparisons<A: SingleArithmetic, C: BlockCodec>(
        self,
        comparisons: Option<usize>,
    ) -> bool {
        match comparisons {
            None => self.is_idle(),
            Some(n) => {
                &&& !self.is_idle()
                &&& n <= self.budget()
                &&& exists|order: Seq<(usize, Single)>| #[trigger]
                    is_term_order(self.postings, order)
                &&& forall|order: Seq<(usize, Single)>| #[trigger]
                    is_term_order(self.postings, order) ==> n + self.finish::<A, C>(
                        order,
                    ).remaining == self.budget()
            },
        }
    }

    /// Whether `outcome` answers the query with the rows that `mask` selects.
    pub open spec fn is_answered_by<A: SingleArithmetic, C: BlockCodec>(
        self,
        mask: RowAddrMask,
        outcome: SearchOutcome,
    ) -> bool {
        &&& self.returns_candidates::<A, C>(mask, outcome.candidates@)
        &&& self.records_comparisons::<A, C>(outcome.comparisons)
    }
}

/// The number of results that `params` asks for.
pub open spec fn result_limit(params: FtsSearchParams) -> usize {
    match params.limit {
        Some(limit) => limit,
        None => usize::MAX,
    }
}

/// The query for the terms `postings` over `docs`.
pub open spec fn query_of(
    postings: Seq<PostingIterator>,
    docs: DocSetView,
    params: FtsSearchParams,
    lut: LookupView,
) -> Query {
    Query { postings, docs, lut, limit: result_limit(params) as nat }
}

/// Score-at-a-time BM25 search: the best documents for the terms `postings`, and the
/// number of postings that it took.
///
/// A search without a limit has a budget beyond what can be counted, so there has to be
/// a limit unless there are no terms.
pub fn saat_bm25_search<A: SingleArithmetic, C: BlockCodec>(
    postings: &[PostingIterator],
    docs: &DocSet,
    params: &FtsSearchParams,
    mask: &RowAddrMask,
    lut: &ScoreLookupTable,
) -> (outcome: SearchOutcome)
    requires
        lawful::<A>(),
        faithful::<C>(),
        docs.wf(),
        lut.wf(),
        query_of(postings@, docs@, *params, lut@).is_searchable::<A, C>(),
    ensures
        query_of(postings@, docs@, *params, lut@).is_answered_by::<A, C>(*mask, outcome),
{
    search_terms::<A, C>(postings, docs, params, mask, lut, false).unwrap()
}

/// [`saat_bm25_search`] where the query can be searched. `None` where the search comes to
/// postings that do not fit the documents, or where the budget cannot be counted.
pub fn checked_saat_bm25_search<A: SingleArithmetic, C: BlockCodec>(
    postings: &[PostingIterator],
    docs: &DocSet,
    params: &FtsSearchParams,
    mask: &RowAddrMask,
    lut: &ScoreLookupTable,
) -> (outcome: Option<SearchOutcome>)
    requires
        lawful::<A>(),
        faithful::<C>(),
        docs.wf(),
        lut.wf(),
    ensures
        outcome is Some <==> query_of(postings@, docs@, *params, lut@).is_searchable::<A, C>(),
        outcome matches Some(o) ==> query_of(
            postings@,
            docs@,
            *params,
            lut@,
        ).is_answered_by::<A, C>(*mask, o),
{
    search_terms::<A, C>(postings, docs, params, mask, lut, true)
}

/// The search, term by term. `None` where the query cannot be searched; the postings are
/// held against the documents only if `check_lists` asks for it.
fn search_terms<A: SingleArithmetic, C: BlockCodec>(
    postings: &[PostingIterator],
    docs: &DocSet,
    params: &FtsSearchParams,
    mask: &RowAddrMask,
    lut: &ScoreLookupTable,
    check_lists: bool,
) -> (outcome: Option<SearchOutcome>)
    requires
        lawful::<A>(),
        faithful::<C>(),
        docs.wf(),
        lut.wf(),
        check_lists || query_of(postings@, docs@, *params, lut@).is_searchable::<A, C>(),
    ensures
        outcome is Some <==> query_of(postings@, docs@, *params, lut@).is_searchable::<A, C>(),
        outcome matches Some(o) ==> query_of(
            postings@,
            docs@,
            *params,
            lut@,
        ).is_answered_by::<A, C>(*mask, o),
{
    let limit: usize = match params.limit {
        Some(limit) => limit,
        None => usize::MAX,
    };
    if limit == 0 || postings.len() == 0 {
        return Some(SearchOutcome { candidates: Vec::new(), comparisons: None });
    }
    let ghost query = query_of(postings@, docs@, *params, lut@);
    let num_docs: usize = docs.len();
    let num_tokens: &[u32] = docs.num_tokens_slice();
    if num_docs > usize::MAX - 63 {
        return None;
    }

    // Terms by weight, the rarest first.
    let order: Vec<(usize, Single)> = term_order(postings);
    let wanted: usize = match POSTINGS_PER_RESULT.checked_mul(limit) {
        None => {
            return None;
        },
        Some(per_term) => match per_term.checked_mul(order.len()) {
            None => {
                return None;
            },
            Some(wanted) => wanted,
        },
    };
    proof {
        lemma_budget_bounds_terms(limit as nat, order@.len());
        docs.lemma_wf();
        assert forall|other: Seq<(usize, Single)>| #[trigger] is_term_order(
            postings@,
            other,
        ) implies other == order@ by {
            lemma_one_term_order(postings@, other, order@);
        }
    }
    let sums: Vec<Single> = suffix_sums::<A>(&order);
    let mut accumulator: ScoreAccumulator = ScoreAccumulator::new::<A>(num_docs, sums[0]);
    let mut buffer: DecodeBuffer = DecodeBuffer::new();
    let mut num_comparisons: usize = 0;

    let postings_budget: usize = if wanted < MIN_POSTINGS_BUDGET {
        MIN_POSTINGS_BUDGET
    } else {
        wanted
    };
    let mut postings_remaining: usize = postings_budget;
    let mut threshold: Single = ZERO;
    let mut term_idx: usize = 0;
    let ghost begin = query.begin::<A>(order@);
    let ghost mut at = begin;
    while term_idx < order.len()
        invariant_except_break
            query.finish::<A, C>(order@) == query.run::<A, C>(order@, term_idx as int, at),
            query.fits_from::<A, C>(order@, 0, begin) == query.fits_from::<A, C>(
                order@,
                term_idx as int,
                at,
            ),
        invariant
            lawful::<A>(),
            faithful::<C>(),
            docs.wf(),
            lut.wf(),
            accumulator.wf(),
            buffer.wf(),
            limit > 0,
            postings@.len() > 0,
            num_tokens@ == docs@.num_tokens,
            docs@.num_tokens.len() == docs@.row_ids.len(),
            query == query_of(postings@, docs@, *params, lut@),
            limit == query.limit,
            begin == query.begin::<A>(order@),
            is_term_order(postings@, order@),
            check_lists || query.fits_from::<A, C>(order@, 0, begin),
            query.is_searchable::<A, C>() ==> query.fits_from::<A, C>(order@, 0, begin),
            term_idx <= order.len(),
            sums.len() == order@.len() + 1,
            forall|i: int|
                0 <= i <= order@.len() ==> #[trigger] sums[i] == remaining_max::<A>(order@, i),
            at == (Progress {
                acc: accumulator@,
                remaining: postings_remaining as nat,
                threshold,
            }),
            accumulator@.scores.len() == docs@.row_ids.len(),
            num_comparisons + postings_remaining == postings_budget,
        ensures
            query.finish::<A, C>(order@) == at,
            query.fits_from::<A, C>(order@, 0, begin),
        decreases order.len() - term_idx,
    {
        if term_idx >= UNSKIPPED_TERMS && less_than(ZERO, threshold) && less_than(
            sums[term_idx],
            A::times(threshold, EXIT_SHARE),
        ) {
            break;
        }
        if postings_remaining == 0 {
            break;
        }
        let (posting_idx, query_weight): (usize, Single) = order[term_idx];
        let posting: &PostingIterator = &postings[posting_idx];
        if check_lists && !fits::<C>(&posting.list, docs, postings_remaining) {
            return None;
        }
        let ghost before = at;
        let processed: usize = match &posting.list {
            PostingList::Compressed(list) => process_compressed_list_with_lut::<A, C>(
                list,
                query_weight,
                num_tokens,
                lut,
                &mut accumulator,
                &mut buffer,
                postings_remaining,
            ),
            PostingList::Plain(list) => process_plain_list::<A>(
                list,
                query_weight,
                docs,
                lut,
                &mut accumulator,
                postings_remaining,
            ),
        };
        num_comparisons = num_comparisons + processed;
        postings_remaining = postings_remaining - processed;

        if term_idx >= 2 && term_idx % 2 == 0 {
            threshold = compute_threshold_fast::<A>(&accumulator, limit);
        }
        proof {
            at = query.step::<A, C>(query.term(order@, term_idx as int), term_idx as int, before);
        }
        term_idx = term_idx + 1;
    }
    let candidates: Vec<DocCandidate> = accumulator.top_k::<A>(limit, docs, mask);
    Some(SearchOutcome { candidates, comparisons: Some(num_comparisons) })
}

/// Decides [`list_fits`].
pub fn fits<C: BlockCodec>(list: &PostingList, docs: &DocSet, budget: usize) -> (r: bool)
    requires
        faithful::<C>(),
        docs.wf(),
    ensures
        r == list_fits::<C>(*list, docs@, budget as nat),
{
    match list {
        PostingList::Compressed(list) => postings_are_below::<C>(list, docs.len(), budget),
        PostingList::Plain(list) => has_frequencies(list, docs, budget),
    }
}

/// A budget that can be counted leaves room for one more term.
proof fn lemma_budget_bounds_terms(limit: nat, terms: nat)
    requires
        limit > 0,
        POSTINGS_PER_RESULT * limit * terms <= usize::MAX,
    ensures
        terms < usize::MAX,
{
    assert(10 * terms <= 10 * limit * terms) by (nonlinear_arith)
        requires
            limit > 0,
    ;
}

/// There is an order of processing, and it has a place for each term with a positive
/// weight.
pub proof fn lemma_term_order_exists(postings: Seq<PostingIterator>) -> (order: Seq<
    (usize, Single),
>)
    requires
        postings.len() <= usize::MAX,
    ensures
        is_term_order(postings, order),
        order.len() == active_terms(postings),
    decreases postings.len(),
{
    if postings.len() == 0 {
        Seq::empty()
    } else {
        let i = postings.len() - 1;
        let seen = postings.drop_last();
        assert(postings.take(i) =~= seen);
        assert(postings.take(i + 1) =~= postings);
        let order = lemma_term_order_exists(seen);
        let query_weight = postings[i].query_weight;
        if less(ZERO, query_weight) {
            let pos = lemma_place(order, query_weight, 0);
            lemma_insert_keeps_order(postings, i, order, pos);
            order.insert(pos, (i as usize, query_weight))
        } else {
            assert forall|p: int| 0 <= p < postings.len() && less(
                ZERO,
                (#[trigger] postings[p]).query_weight,
            ) implies order.contains((p as usize, postings[p].query_weight)) by {
                assert(seen[p] == postings[p]);
            }
            order
        }
    }
}

/// The place of a term of weight `query_weight` in `order`, from place `i` on.
proof fn lemma_place(order: Seq<(usize, Single)>, query_weight: Single, i: int) -> (pos: int)
    requires
        0 <= i <= order.len(),
        forall|j: int|
            0 <= j < i ==> total_order((#[trigger] order[j]).1) >= total_order(query_weight),
    ensures
        0 <= pos <= order.len(),
        forall|j: int|
            0 <= j < pos ==> total_order((#[trigger] order[j]).1) >= total_order(query_weight),
        pos < order.len() ==> total_order(order[pos].1) < total_order(query_weight),
    decreases order.len() - i,
{
    if i < order.len() && total_order(order[i].1) >= total_order(query_weight) {
        lemma_place(order, query_weight, i + 1)
    } else {
        i
    }
}

/// The order of processing is determined by the terms.
pub proof fn lemma_one_term_order(
    postings: Seq<PostingIterator>,
    order: Seq<(usize, Single)>,
    other: Seq<(usize, Single)>,
)
    requires
        is_term_order(postings, order),
        is_term_order(postings, other),
    ensures
        order == other,
{
    lemma_order_not_longer(postings, order, other, order.len() as int);
    lemma_order_not_longer(postings, other, order, other.len() as int);
    assert(order =~= other);
}

/// Two orders of processing agree on the first `n` terms of the one.
proof fn lemma_order_not_longer(
    postings: Seq<PostingIterator>,
    order: Seq<(usize, Single)>,
    other: Seq<(usize, Single)>,
    n: int,
)
    requires
        is_term_order(postings, order),
        is_term_order(postings, other),
        0 <= n <= order.len(),
    ensures
        n <= other.len(),
        forall|i: int| 0 <= i < n ==> order[i] == other[i],
    decreases n,
{
    if n > 0 {
        lemma_order_not_longer(postings, order, other, n - 1);
        let term = order[n - 1];
        assert(less(ZERO, postings[term.0 as int].query_weight));
        assert(other.contains(term));
        let k = other.index_of(term);
        assert(other[k] == term);
        if k < n - 1 {
            assert(precedes(order[k], order[n - 1]));
        }
        if k > n - 1 {
            let first = other[n - 1];
            assert(less(ZERO, postings[first.0 as int].query_weight));
            assert(order.contains(first));
            let m = order.index_of(first);
            assert(order[m] == first);
            assert(precedes(other[n - 1], other[k]));
            if m < n - 1 {
                assert(precedes(other[m], other[n - 1]));
            }
            if m > n - 1 {
                assert(precedes(order[n - 1], order[m]));
            }
        }
    }
}

} // verus!
