//! What a search computes, stated posting by posting.
use vstd::prelude::*;
use vstd::set_lib::{lemma_int_range, lemma_len_subset, set_int_range};

use crate::accumulator::{is_hit, total, AccumulatorView};
use crate::docs::{DocSetView, RowAddrMask};
use crate::posting::{BlockCodec, Posting, PostingList};
use crate::ranking::{is_best, is_kth_score, is_lowest, is_top_k, kth_score, lemma_one_kth_score};
use crate::ranking::{rivals, scored_docs};
use crate::scoring::lut_hits;
use crate::search::{active_terms, is_term_order, lemma_one_term_order, list_fits, list_prefix};
use crate::search::{remaining_max, Progress, Query, SearchOutcome};
use crate::single::{less, Single, SingleArithmetic, EXIT_SHARE, ZERO};

verus! {

/// A place in the posting list of the term at a place of the order of processing.
pub struct Slot {
    pub term: int,
    pub place: int,
}

/// The number of places in a posting list.
pub open spec fn places<C: BlockCodec>(list: PostingList) -> nat {
    match list {
        PostingList::Compressed(list) => list.postings::<C>().len(),
        PostingList::Plain(list) => list.row_ids@.len(),
    }
}

/// The posting at a place of a list, unless its row is no document.
pub open spec fn posting_at<A: SingleArithmetic, C: BlockCodec>(
    list: PostingList,
    docs: DocSetView,
    place: int,
) -> Option<Posting> {
    match list {
        PostingList::Compressed(list) => Some(list.postings::<C>()[place]),
        PostingList::Plain(list) => match docs.doc_of_row(list.row_ids@[place]) {
            Some(doc_id) => Some(
                Posting { doc_id, freq: A::to_u32_spec(list.frequencies@[place]) },
            ),
            None => None,
        },
    }
}

/// Whether the posting at `slot` is on document `d`.
pub open spec fn is_on<A: SingleArithmetic, C: BlockCodec>(
    query: Query,
    order: Seq<(usize, Single)>,
    slot: Slot,
    d: int,
) -> bool {
    match posting_at::<A, C>(query.term(order, slot.term).list, query.docs, slot.place) {
        Some(posting) => posting.doc_id == d,
        None => false,
    }
}

/// What the posting at `slot` adds to document `d`: the score of its frequency in a document
/// of the length of `d`, times the scale, without its fraction.
pub open spec fn adds<A: SingleArithmetic, C: BlockCodec>(
    query: Query,
    order: Seq<(usize, Single)>,
    slot: Slot,
    d: int,
) -> nat {
    let term = query.term(order, slot.term);
    match posting_at::<A, C>(term.list, query.docs, slot.place) {
        Some(posting) => if posting.doc_id == d {
            A::to_u16_spec(
                A::times_spec(
                    query.lut.score::<A>(
                        posting.freq,
                        query.docs.num_tokens[d],
                        term.query_weight,
                    ),
                    query.begin::<A>(order).acc.scale,
                ),
            ) as nat
        } else {
            0
        },
        None => 0,
    }
}

/// What the postings at `slots` add to document `d` in all.
pub open spec fn adds_all<A: SingleArithmetic, C: BlockCodec>(
    query: Query,
    order: Seq<(usize, Single)>,
    slots: Seq<Slot>,
    d: int,
) -> nat
    decreases slots.len(),
{
    if slots.len() == 0 {
        0
    } else {
        adds_all::<A, C>(query, order, slots.drop_last(), d) + adds::<A, C>(
            query,
            order,
            slots.last(),
            d,
        )
    }
}

/// Whether one of the postings at `slots` is on document `d`.
pub open spec fn some_on<A: SingleArithmetic, C: BlockCodec>(
    query: Query,
    order: Seq<(usize, Single)>,
    slots: Seq<Slot>,
    d: int,
) -> bool {
    exists|i: int| 0 <= i < slots.len() && is_on::<A, C>(query, order, #[trigger] slots[i], d)
}

/// The first `n` places of the list of the term at place `i` of the order of processing.
pub open spec fn places_of(i: int, n: nat) -> Seq<Slot> {
    Seq::new(n, |j: int| Slot { term: i, place: j })
}

/// All places of the lists of the first `n` terms, term after term.
pub open spec fn all_places<C: BlockCodec>(
    query: Query,
    order: Seq<(usize, Single)>,
    n: int,
) -> Seq<Slot>
    decreases n,
{
    if n <= 0 {
        Seq::empty()
    } else {
        all_places::<C>(query, order, n - 1) + places_of(
            n - 1,
            places::<C>(query.term(order, n - 1).list),
        )
    }
}

/// The places of the lists of the first `n` terms that the budget reaches.
pub open spec fn reached_places<C: BlockCodec>(
    query: Query,
    order: Seq<(usize, Single)>,
    n: int,
) -> Seq<Slot> {
    let all = all_places::<C>(query, order, n);
    if all.len() <= query.budget() {
        all
    } else {
        all.take(query.budget() as int)
    }
}

/// The scores after the first `n` terms: for each document the sum of what the postings
/// within the budget add to it, or the greatest 16-bit number if that is beyond.
pub open spec fn sums_after<A: SingleArithmetic, C: BlockCodec>(
    query: Query,
    order: Seq<(usize, Single)>,
    n: int,
) -> AccumulatorView {
    let slots = reached_places::<C>(query, order, n);
    AccumulatorView {
        scores: Seq::new(
            query.docs.row_ids.len(),
            |d: int|
                if adds_all::<A, C>(query, order, slots, d) > 65535 {
                    65535u16
                } else {
                    adds_all::<A, C>(query, order, slots, d) as u16
                },
        ),
        touched: Seq::new(
            query.docs.row_ids.len(),
            |d: int| some_on::<A, C>(query, order, slots, d),
        ),
        ..query.begin::<A>(order).acc
    }
}

/// The threshold before the term at place `n`: 0 before the fourth term, then the lowest
/// score among the best documents after the last odd number of terms.
pub open spec fn threshold_before<A: SingleArithmetic, C: BlockCodec>(
    query: Query,
    order: Seq<(usize, Single)>,
    n: int,
) -> Single {
    if n < 3 {
        ZERO
    } else if n % 2 == 1 {
        kth_score::<A>(sums_after::<A, C>(query, order, n), query.limit)
    } else {
        kth_score::<A>(sums_after::<A, C>(query, order, n - 1), query.limit)
    }
}

/// Whether what the terms from place `n` on can add is less than a twentieth of the
/// threshold, which is not looked at before the fourth term.
pub open spec fn can_be_skipped<A: SingleArithmetic, C: BlockCodec>(
    query: Query,
    order: Seq<(usize, Single)>,
    n: int,
) -> bool {
    let threshold = threshold_before::<A, C>(query, order, n);
    n >= 3 && less(ZERO, threshold) && less(
        remaining_max::<A>(order, n),
        A::times_spec(threshold, EXIT_SHARE),
    )
}

/// Whether a search goes on to the term at place `n`: budget is left, and the terms cannot
/// be skipped.
pub open spec fn goes_on<A: SingleArithmetic, C: BlockCodec>(
    query: Query,
    order: Seq<(usize, Single)>,
    n: int,
) -> bool {
    all_places::<C>(query, order, n).len() < query.budget() && !can_be_skipped::<A, C>(
        query,
        order,
        n,
    )
}

/// A search processes the postings of the first terms, as far as the budget reaches, and no
/// others. It stops before a term only where the budget is used up or the terms that are
/// left can be skipped, and goes on before all earlier terms. Each document has the sum of
/// what the postings on it add, each by its own frequency and the length of that document.
pub proof fn searches_sum_their_postings<A: SingleArithmetic, C: BlockCodec>(
    query: Query,
    order: Seq<(usize, Single)>,
) -> (n: int)
    requires
        is_term_order(query.postings, order),
    ensures
        0 <= n <= order.len(),
        forall|m: int| 0 <= m < n ==> #[trigger] goes_on::<A, C>(query, order, m),
        n < order.len() ==> !goes_on::<A, C>(query, order, n),
        query.finish::<A, C>(order).acc == sums_after::<A, C>(query, order, n),
        query.finish::<A, C>(order).remaining == query.budget() - reached_places::<C>(
            query,
            order,
            n,
        ).len(),
{
    let begin = query.begin::<A>(order);
    let fresh = sums_after::<A, C>(query, order, 0);
    assert(reached_places::<C>(query, order, 0) =~= Seq::empty());
    assert(begin.acc.scores =~= fresh.scores);
    assert(begin.acc.touched =~= fresh.touched);
    lemma_run_sums::<A, C>(query, order, 0, begin)
}

proof fn lemma_run_sums<A: SingleArithmetic, C: BlockCodec>(
    query: Query,
    order: Seq<(usize, Single)>,
    i: int,
    at: Progress,
) -> (n: int)
    requires
        is_term_order(query.postings, order),
        0 <= i <= order.len(),
        forall|m: int| 0 <= m < i ==> #[trigger] goes_on::<A, C>(query, order, m),
        at.acc == sums_after::<A, C>(query, order, i),
        at.remaining == query.budget() - reached_places::<C>(query, order, i).len(),
        at.threshold == threshold_before::<A, C>(query, order, i),
    ensures
        i <= n <= order.len(),
        forall|m: int| 0 <= m < n ==> #[trigger] goes_on::<A, C>(query, order, m),
        n < order.len() ==> !goes_on::<A, C>(query, order, n),
        query.run::<A, C>(order, i, at).acc == sums_after::<A, C>(query, order, n),
        query.run::<A, C>(order, i, at).remaining == query.budget() - reached_places::<C>(
            query,
            order,
            n,
        ).len(),
    decreases order.len() - i,
{
    if i >= order.len() || query.ends_before::<A>(order, i, at) {
        i
    } else {
        assert(goes_on::<A, C>(query, order, i));
        lemma_step_sums::<A, C>(query, order, i, at);
        lemma_run_sums::<A, C>(
            query,
            order,
            i + 1,
            query.step::<A, C>(query.term(order, i), i, at),
        )
    }
}

proof fn lemma_step_sums<A: SingleArithmetic, C: BlockCodec>(
    query: Query,
    order: Seq<(usize, Single)>,
    i: int,
    at: Progress,
)
    requires
        is_term_order(query.postings, order),
        0 <= i < order.len(),
        goes_on::<A, C>(query, order, i),
        at.acc == sums_after::<A, C>(query, order, i),
        at.remaining == query.budget() - reached_places::<C>(query, order, i).len(),
        at.threshold == threshold_before::<A, C>(query, order, i),
    ensures
        ({
            let next = query.step::<A, C>(query.term(order, i), i, at);
            &&& next.acc == sums_after::<A, C>(query, order, i + 1)
            &&& next.remaining == query.budget() - reached_places::<C>(query, order, i + 1).len()
            &&& next.threshold == threshold_before::<A, C>(query, order, i + 1)
        }),
{
    let term = query.term(order, i);
    let next = query.step::<A, C>(term, i, at);
    let before = all_places::<C>(query, order, i);
    let k = query.taken::<C>(term, at);
    let part = places_of(i, k);
    assert(reached_places::<C>(query, order, i) == before);
    assert(reached_places::<C>(query, order, i + 1) =~= before + part);
    let sums = sums_after::<A, C>(query, order, i + 1);
    assert(order[i].1 == term.query_weight);
    assert forall|d: int| 0 <= d < query.docs.row_ids.len() implies next.acc.scores[d]
        == sums.scores[d] && next.acc.touched[d] == sums.touched[d] by {
        lemma_term_sums::<A, C>(query, order, at.acc, i, k, d);
        lemma_adds_up::<A, C>(query, order, before, part, d);
        lemma_some_on::<A, C>(query, order, before, part, d);
    }
    assert(next.acc.scores =~= sums.scores);
    assert(next.acc.touched =~= sums.touched);
}

proof fn lemma_adds_up<A: SingleArithmetic, C: BlockCodec>(
    query: Query,
    order: Seq<(usize, Single)>,
    first: Seq<Slot>,
    second: Seq<Slot>,
    d: int,
)
    ensures
        adds_all::<A, C>(query, order, first + second, d) == adds_all::<A, C>(
            query,
            order,
            first,
            d,
        ) + adds_all::<A, C>(query, order, second, d),
    decreases second.len(),
{
    if second.len() == 0 {
        assert(first + second =~= first);
    } else {
        lemma_adds_up::<A, C>(query, order, first, second.drop_last(), d);
        assert((first + second).drop_last() =~= first + second.drop_last());
    }
}

proof fn lemma_some_on<A: SingleArithmetic, C: BlockCodec>(
    query: Query,
    order: Seq<(usize, Single)>,
    first: Seq<Slot>,
    second: Seq<Slot>,
    d: int,
)
    ensures
        some_on::<A, C>(query, order, first + second, d) <==> some_on::<A, C>(
            query,
            order,
            first,
            d,
        ) || some_on::<A, C>(query, order, second, d),
{
    let all = first + second;
    if some_on::<A, C>(query, order, first, d) {
        let i = choose|i: int|
            0 <= i < first.len() && is_on::<A, C>(query, order, #[trigger] first[i], d);
        assert(all[i] == first[i]);
    }
    if some_on::<A, C>(query, order, second, d) {
        let i = choose|i: int|
            0 <= i < second.len() && is_on::<A, C>(query, order, #[trigger] second[i], d);
        assert(all[first.len() + i] == second[i]);
    }
    if some_on::<A, C>(query, order, all, d) {
        let i = choose|i: int|
            0 <= i < all.len() && is_on::<A, C>(query, order, #[trigger] all[i], d);
        if i < first.len() {
            assert(all[i] == first[i]);
        } else {
            assert(all[i] == second[i - first.len()]);
        }
    }
}

/// The hits of the first places of a list add what their postings add.
proof fn lemma_term_sums<A: SingleArithmetic, C: BlockCodec>(
    query: Query,
    order: Seq<(usize, Single)>,
    acc: AccumulatorView,
    i: int,
    k: nat,
    d: int,
)
    requires
        0 <= i < order.len(),
        acc.scale == query.begin::<A>(order).acc.scale,
        k <= places::<C>(query.term(order, i).list),
    ensures
        ({
            let term = query.term(order, i);
            let hits = lut_hits::<A>(
                acc,
                query.lut,
                term.query_weight,
                query.docs.num_tokens,
                list_prefix::<A, C>(term.list, query.docs, k as int),
            );
            &&& total(hits, d) == adds_all::<A, C>(query, order, places_of(i, k), d)
            &&& is_hit(hits, d) <==> some_on::<A, C>(query, order, places_of(i, k), d)
        }),
    decreases k,
{
    let term = query.term(order, i);
    let prefix = list_prefix::<A, C>(term.list, query.docs, k as int);
    let hits = lut_hits::<A>(
        acc,
        query.lut,
        term.query_weight,
        query.docs.num_tokens,
        prefix,
    );
    let slots = places_of(i, k);
    if k == 0 {
        assert(prefix.len() == 0);
    } else {
        let j = (k - 1) as nat;
        lemma_term_sums::<A, C>(query, order, acc, i, j, d);
        let shorter = list_prefix::<A, C>(term.list, query.docs, j as int);
        let fewer = lut_hits::<A>(
            acc,
            query.lut,
            term.query_weight,
            query.docs.num_tokens,
            shorter,
        );
        let slot = Slot { term: i, place: j as int };
        assert(slots.drop_last() =~= places_of(i, j));
        assert(slots.last() == slot);
        assert(slots =~= places_of(i, j) + seq![slot]);
        lemma_some_on::<A, C>(query, order, places_of(i, j), seq![slot], d);
        assert(some_on::<A, C>(query, order, seq![slot], d) <==> is_on::<A, C>(
            query,
            order,
            slot,
            d,
        )) by {
            assert(seq![slot][0] == slot);
        }
        match posting_at::<A, C>(term.list, query.docs, j as int) {
            Some(posting) => {
                assert(prefix =~= shorter.push(posting));
                let hit = hits.last();
                assert(hits.drop_last() =~= fewer);
                assert(hit.doc_id == posting.doc_id);
                assert(hits =~= fewer.push(hit));
                if is_hit(fewer, d) {
                    let m = choose|m: int|
                        0 <= m < fewer.len() && (#[trigger] fewer[m]).doc_id == d;
                    assert(hits[m].doc_id == d);
                }
                if posting.doc_id == d {
                    assert(hits[hits.len() - 1].doc_id == d);
                } else if is_hit(hits, d) {
                    let m = choose|m: int| 0 <= m < hits.len() && (#[trigger] hits[m]).doc_id == d;
                    assert(fewer[m].doc_id == d);
                }
            },
            None => {
                assert(prefix =~= shorter);
                assert(hits =~= fewer);
            },
        }
    }
}

/// What answers a query comes from the postings: the candidates are the best documents by
/// the sums of what the processed postings add, and what is recorded is their number.
pub proof fn answers_come_from_the_postings<A: SingleArithmetic, C: BlockCodec>(
    query: Query,
    order: Seq<(usize, Single)>,
    mask: RowAddrMask,
    outcome: SearchOutcome,
) -> (n: int)
    requires
        query.limit > 0,
        query.postings.len() > 0,
        is_term_order(query.postings, order),
        query.is_answered_by::<A, C>(mask, outcome),
    ensures
        0 <= n <= order.len(),
        forall|m: int| 0 <= m < n ==> #[trigger] goes_on::<A, C>(query, order, m),
        n < order.len() ==> !goes_on::<A, C>(query, order, n),
        is_top_k::<A>(
            sums_after::<A, C>(query, order, n),
            query.docs,
            mask,
            query.limit,
            outcome.candidates@,
        ),
        outcome.comparisons == Some(reached_places::<C>(query, order, n).len() as usize),
        reached_places::<C>(query, order, n).len() <= usize::MAX,
{
    searches_sum_their_postings::<A, C>(query, order)
}

/// Nothing is searched, returned or recorded without results to ask for or terms, and only
/// then.
pub proof fn idle_queries_record_nothing<A: SingleArithmetic, C: BlockCodec>(
    query: Query,
    mask: RowAddrMask,
    outcome: SearchOutcome,
)
    requires
        query.is_answered_by::<A, C>(mask, outcome),
    ensures
        outcome.comparisons is None <==> query.limit == 0 || query.postings.len() == 0,
        outcome.comparisons is None ==> outcome.candidates@.len() == 0,
{
}

/// A query of any number of terms is searched exhaustively where the budget suffices for
/// all its postings and at no place from the fourth term on the rest can be skipped: each
/// document has the sum of what all postings of all terms add to it.
pub proof fn unhurried_queries_are_exhaustive<A: SingleArithmetic, C: BlockCodec>(
    query: Query,
    order: Seq<(usize, Single)>,
)
    requires
        is_term_order(query.postings, order),
        all_places::<C>(query, order, order.len() as int).len() <= query.budget(),
        forall|m: int|
            3 <= m < order.len() ==> !#[trigger] can_be_skipped::<A, C>(query, order, m),
    ensures
        query.finish::<A, C>(order).acc == sums_after::<A, C>(query, order, order.len() as int),
        query.budget() - query.finish::<A, C>(order).remaining == all_places::<C>(
            query,
            order,
            order.len() as int,
        ).len(),
{
    let n = searches_sum_their_postings::<A, C>(query, order);
    let len = order.len() as int;
    lemma_places_grow::<C>(query, order, n, len);
    if n < len {
        assert(!goes_on::<A, C>(query, order, n));
        assert(!can_be_skipped::<A, C>(query, order, n));
        let some = all_places::<C>(query, order, n);
        let all = all_places::<C>(query, order, len);
        assert(all =~= some);
        assert(reached_places::<C>(query, order, n) == reached_places::<C>(query, order, len));
    }
}

/// The places of the first terms come first among those of more terms.
proof fn lemma_places_grow<C: BlockCodec>(
    query: Query,
    order: Seq<(usize, Single)>,
    m: int,
    n: int,
)
    requires
        0 <= m <= n,
    ensures
        all_places::<C>(query, order, m).len() <= all_places::<C>(query, order, n).len(),
        all_places::<C>(query, order, n).take(all_places::<C>(query, order, m).len() as int)
            == all_places::<C>(query, order, m),
    decreases n - m,
{
    let few = all_places::<C>(query, order, m);
    let many = all_places::<C>(query, order, n);
    if m < n {
        lemma_places_grow::<C>(query, order, m, n - 1);
        let most = all_places::<C>(query, order, n - 1);
        assert(many.take(few.len() as int) =~= most.take(few.len() as int));
    } else {
        assert(many.take(few.len() as int) =~= few);
    }
}

/// Where the postings are within the budget and fewer documents than results asked for have
/// a score, no term is skipped: every document to which a posting of any term adds is found.
pub proof fn queries_with_few_results_are_exhaustive<A: SingleArithmetic, C: BlockCodec>(
    query: Query,
    order: Seq<(usize, Single)>,
)
    requires
        is_term_order(query.postings, order),
        all_places::<C>(query, order, order.len() as int).len() <= query.budget(),
        scored_docs(sums_after::<A, C>(query, order, order.len() as int)).len() < query.limit,
    ensures
        query.finish::<A, C>(order).acc == sums_after::<A, C>(query, order, order.len() as int),
        query.budget() - query.finish::<A, C>(order).remaining == all_places::<C>(
            query,
            order,
            order.len() as int,
        ).len(),
{
    let len = order.len() as int;
    assert forall|m: int| 3 <= m < len implies !#[trigger] can_be_skipped::<A, C>(
        query,
        order,
        m,
    ) by {
        let at = if m % 2 == 1 {
            m
        } else {
            m - 1
        };
        lemma_few_scored::<A, C>(query, order, at, len);
        lemma_no_threshold::<A>(sums_after::<A, C>(query, order, at), query.limit);
    }
    unhurried_queries_are_exhaustive::<A, C>(query, order);
}

proof fn lemma_few_scored<A: SingleArithmetic, C: BlockCodec>(
    query: Query,
    order: Seq<(usize, Single)>,
    m: int,
    n: int,
)
    requires
        0 <= m <= n,
        all_places::<C>(query, order, n).len() <= query.budget(),
    ensures
        scored_docs(sums_after::<A, C>(query, order, m)).len() <= scored_docs(
            sums_after::<A, C>(query, order, n),
        ).len(),
{
    lemma_places_grow::<C>(query, order, m, n);
    let few = all_places::<C>(query, order, m);
    let many = all_places::<C>(query, order, n);
    let rest = many.skip(few.len() as int);
    assert(many =~= few + rest);
    let small = scored_docs(sums_after::<A, C>(query, order, m));
    let large = scored_docs(sums_after::<A, C>(query, order, n));
    assert forall|d: int| small.contains(d) implies large.contains(d) by {
        lemma_adds_up::<A, C>(query, order, few, rest, d);
        lemma_some_on::<A, C>(query, order, few, rest, d);
    }
    let range = set_int_range(0, query.docs.row_ids.len() as int);
    lemma_int_range(0, query.docs.row_ids.len() as int);
    lemma_len_subset(large, range);
    lemma_len_subset(small, large);
}

/// While fewer than `k` documents have a score the threshold is 0.
pub proof fn lemma_no_threshold<A: SingleArithmetic>(acc: AccumulatorView, k: nat)
    requires
        scored_docs(acc).len() < k,
    ensures
        kth_score::<A>(acc, k) == ZERO,
{
    let scored = scored_docs(acc);
    let range = set_int_range(0, acc.scores.len() as int);
    lemma_int_range(0, acc.scores.len() as int);
    lemma_len_subset(scored, range);
    let ids = lemma_listed(scored);
    assert forall|i: int| 0 <= i < ids.len() implies rivals::<A>(
        acc,
        scored,
        #[trigger] ids[i],
    ).len() < k by {
        lemma_len_subset(rivals::<A>(acc, scored, ids[i]), scored);
    }
    assert forall|d: int| #[trigger] scored.contains(d) implies ids.contains(d) by {}
    assert(is_best::<A>(acc, scored, k, ids));
    assert(is_lowest::<A>(acc, ids, k, ZERO));
    assert(is_kth_score::<A>(acc, k, ZERO));
    lemma_one_kth_score::<A>(acc, k, ZERO, kth_score::<A>(acc, k));
}

/// A finite set can be listed without repetition.
proof fn lemma_listed(items: Set<int>) -> (list: Seq<int>)
    requires
        items.finite(),
    ensures
        list.no_duplicates(),
        list.len() == items.len(),
        forall|d: int| #[trigger] items.contains(d) <==> list.contains(d),
    decreases items.len(),
{
    if items.len() == 0 {
        assert(items =~= Set::empty());
        Seq::empty()
    } else {
        let d = items.choose();
        let rest = lemma_listed(items.remove(d));
        let list = rest.push(d);
        assert(!rest.contains(d)) by {
            assert(!items.remove(d).contains(d));
        }
        assert forall|e: int| #[trigger] items.contains(e) <==> list.contains(e) by {
            if items.contains(e) {
                if e == d {
                    assert(list[rest.len() as int] == e);
                } else {
                    assert(items.remove(d).contains(e));
                    assert(list[rest.index_of(e)] == e);
                }
            }
            if list.contains(e) {
                let i = list.index_of(e);
                assert(list[i] == e);
                if i < rest.len() {
                    assert(rest[i] == e);
                    assert(rest.contains(e));
                    assert(items.remove(d).contains(e));
                }
            }
        }
        list
    }
}

/// A document to which one of the processed postings adds has a score.
pub proof fn documents_that_are_hit_have_a_score<A: SingleArithmetic, C: BlockCodec>(
    query: Query,
    order: Seq<(usize, Single)>,
    n: int,
    i: int,
    d: int,
)
    requires
        0 <= i < reached_places::<C>(query, order, n).len(),
        0 <= d < query.docs.row_ids.len(),
        adds::<A, C>(query, order, reached_places::<C>(query, order, n)[i], d) > 0,
    ensures
        sums_after::<A, C>(query, order, n).is_scored(d),
{
    let slots = reached_places::<C>(query, order, n);
    lemma_one_adds::<A, C>(query, order, slots, i, d);
    assert(is_on::<A, C>(query, order, slots[i], d));
}

proof fn lemma_one_adds<A: SingleArithmetic, C: BlockCodec>(
    query: Query,
    order: Seq<(usize, Single)>,
    slots: Seq<Slot>,
    i: int,
    d: int,
)
    requires
        0 <= i < slots.len(),
    ensures
        adds_all::<A, C>(query, order, slots, d) >= adds::<A, C>(query, order, slots[i], d),
    decreases slots.len(),
{
    if i < slots.len() - 1 {
        lemma_one_adds::<A, C>(query, order, slots.drop_last(), i, d);
    }
}

/// What a posting adds rests on the length of its own document: other lengths do not matter.
pub proof fn other_lengths_do_not_matter<A: SingleArithmetic>(
    query: Query,
    acc: AccumulatorView,
    query_weight: Single,
    postings: Seq<Posting>,
    other_tokens: Seq<u32>,
    i: int,
)
    requires
        0 <= i < postings.len(),
        other_tokens[postings[i].doc_id as int]
            == query.docs.num_tokens[postings[i].doc_id as int],
    ensures
        lut_hits::<A>(acc, query.lut, query_weight, other_tokens, postings)[i] == lut_hits::<A>(
            acc,
            query.lut,
            query_weight,
            query.docs.num_tokens,
            postings,
        )[i],
        lut_hits::<A>(acc, query.lut, query_weight, other_tokens, postings)[i].doc_id
            == postings[i].doc_id,
{
}

/// Whether the posting at `slot` can be scored: it is on a document of the set or its row is
/// no document, and a row that is a document has a frequency.
pub open spec fn slot_fits<C: BlockCodec>(
    query: Query,
    order: Seq<(usize, Single)>,
    slot: Slot,
) -> bool {
    match query.term(order, slot.term).list {
        PostingList::Compressed(list) => list.postings::<C>()[slot.place].doc_id
            < query.docs.row_ids.len(),
        PostingList::Plain(list) => query.docs.doc_of_row(list.row_ids@[slot.place]) is Some
            ==> slot.place < list.frequencies@.len(),
    }
}

/// A query that asks for results can be searched just where its budget and the words of the
/// bit set can be counted and every posting that is processed can be scored. The postings
/// that are not reached do not matter.
pub proof fn only_processed_postings_have_to_fit<A: SingleArithmetic, C: BlockCodec>(
    query: Query,
    order: Seq<(usize, Single)>,
    n: int,
)
    requires
        query.limit > 0,
        query.postings.len() > 0,
        is_term_order(query.postings, order),
        0 <= n <= order.len(),
        forall|m: int| 0 <= m < n ==> #[trigger] goes_on::<A, C>(query, order, m),
        n < order.len() ==> !goes_on::<A, C>(query, order, n),
    ensures
        query.is_searchable::<A, C>() <==> {
            &&& query.docs.row_ids.len() + 63 <= usize::MAX
            &&& 10 * query.limit <= usize::MAX
            &&& 10 * query.limit * active_terms(query.postings) <= usize::MAX
            &&& forall|t: int|
                0 <= t < reached_places::<C>(query, order, n).len() ==> slot_fits::<C>(
                    query,
                    order,
                    #[trigger] reached_places::<C>(query, order, n)[t],
                )
        },
{
    let begin = query.begin::<A>(order);
    let fresh = sums_after::<A, C>(query, order, 0);
    let slots = reached_places::<C>(query, order, n);
    assert(reached_places::<C>(query, order, 0) =~= Seq::empty());
    assert(begin.acc.scores =~= fresh.scores);
    assert(begin.acc.touched =~= fresh.touched);
    lemma_run_fits::<A, C>(query, order, 0, begin, n);
    assert forall|t: int| 0 <= t < slots.len() implies (#[trigger] slots[t]).term >= 0 by {
        lemma_place_of_slot::<C>(query, order, n, t);
    }
    assert(query.fits_from::<A, C>(order, 0, begin) <==> forall|t: int|
        0 <= t < slots.len() ==> slot_fits::<C>(query, order, #[trigger] slots[t]));
    assert forall|o: Seq<(usize, Single)>| #[trigger]
        is_term_order(query.postings, o) implies o == order by {
        lemma_one_term_order(query.postings, o, order);
    }
}

/// Where the places of a term stand among those of the first `n` terms.
proof fn lemma_place_of_slot<C: BlockCodec>(
    query: Query,
    order: Seq<(usize, Single)>,
    n: int,
    t: int,
)
    requires
        0 <= n,
        0 <= t < all_places::<C>(query, order, n).len(),
    ensures
        ({
            let slot = all_places::<C>(query, order, n)[t];
            &&& 0 <= slot.term < n
            &&& 0 <= slot.place < places::<C>(query.term(order, slot.term).list)
            &&& t == all_places::<C>(query, order, slot.term).len() + slot.place
        }),
    decreases n,
{
    if n > 0 {
        let shorter = all_places::<C>(query, order, n - 1);
        if t < shorter.len() {
            lemma_place_of_slot::<C>(query, order, n - 1, t);
        }
    }
}

proof fn lemma_slot_at_place<C: BlockCodec>(
    query: Query,
    order: Seq<(usize, Single)>,
    n: int,
    i: int,
    j: int,
)
    requires
        0 <= i < n,
        0 <= j < places::<C>(query.term(order, i).list),
    ensures
        all_places::<C>(query, order, i).len() + j < all_places::<C>(query, order, n).len(),
        all_places::<C>(query, order, n)[all_places::<C>(query, order, i).len() + j] == (Slot {
            term: i,
            place: j,
        }),
    decreases n,
{
    if i < n - 1 {
        lemma_slot_at_place::<C>(query, order, n - 1, i, j);
    }
}

proof fn lemma_run_fits<A: SingleArithmetic, C: BlockCodec>(
    query: Query,
    order: Seq<(usize, Single)>,
    i: int,
    at: Progress,
    n: int,
)
    requires
        is_term_order(query.postings, order),
        0 <= i <= n <= order.len(),
        forall|m: int| 0 <= m < n ==> #[trigger] goes_on::<A, C>(query, order, m),
        n < order.len() ==> !goes_on::<A, C>(query, order, n),
        at.acc == sums_after::<A, C>(query, order, i),
        at.remaining == query.budget() - reached_places::<C>(query, order, i).len(),
        at.threshold == threshold_before::<A, C>(query, order, i),
    ensures
        query.fits_from::<A, C>(order, i, at) <==> forall|t: int|
            0 <= t < reached_places::<C>(query, order, n).len() && reached_places::<C>(
                query,
                order,
                n,
            )[t].term >= i ==> slot_fits::<C>(
                query,
                order,
                #[trigger] reached_places::<C>(query, order, n)[t],
            ),
    decreases n - i,
{
    let slots = reached_places::<C>(query, order, n);
    let all = all_places::<C>(query, order, n);
    if i == n {
        assert forall|t: int| 0 <= t < slots.len() implies (#[trigger] slots[t]).term < n by {
            lemma_place_of_slot::<C>(query, order, n, t);
        }
        if i < order.len() {
            assert(!goes_on::<A, C>(query, order, n));
        }
    } else {
        assert(goes_on::<A, C>(query, order, i));
        let term = query.term(order, i);
        let next = query.step::<A, C>(term, i, at);
        lemma_step_sums::<A, C>(query, order, i, at);
        lemma_run_fits::<A, C>(query, order, i + 1, next, n);
        let start = all_places::<C>(query, order, i).len();
        let k = query.taken::<C>(term, at);
        assert(reached_places::<C>(query, order, i) == all_places::<C>(query, order, i));
        assert(k <= places::<C>(term.list));
        // The places of this term that are reached are its first ones.
        assert forall|t: int| 0 <= t < slots.len() && (#[trigger] slots[t]).term == i implies 0
            <= slots[t].place < k by {
            lemma_place_of_slot::<C>(query, order, n, t);
        }
        assert forall|j: int| 0 <= j < k implies start + j < slots.len() && slots[start + j] == (
        #[trigger] places_of(i, k)[j]) by {
            lemma_slot_at_place::<C>(query, order, n, i, j);
        }
        if list_fits::<C>(term.list, query.docs, at.remaining) {
            assert forall|t: int|
                0 <= t < slots.len() && (#[trigger] slots[t]).term == i implies slot_fits::<C>(
                query,
                order,
                slots[t],
            ) by {
                let j = slots[t].place;
                match term.list {
                    PostingList::Compressed(list) => {
                        assert(list.postings::<C>().take(k as int)[j] == list.postings::<C>()[j]);
                    },
                    PostingList::Plain(list) => {
                        assert(0 <= j < list.row_ids@.len());
                    },
                }
            }
        }
        if forall|t: int|
            0 <= t < slots.len() && slots[t].term >= i ==> slot_fits::<C>(
                query,
                order,
                #[trigger] slots[t],
            ) {
            assert forall|j: int| 0 <= j < k implies slot_fits::<C>(
                query,
                order,
                #[trigger] places_of(i, k)[j],
            ) by {
                assert(slots[start + j] == places_of(i, k)[j]);
            }
            match term.list {
                PostingList::Compressed(list) => {
                    assert forall|j: int| 0 <= j < k implies (#[trigger] list.postings::<
                        C,
                    >().take(k as int)[j]).doc_id < query.docs.row_ids.len() by {
                        assert(slot_fits::<C>(query, order, places_of(i, k)[j]));
                    }
                },
                PostingList::Plain(list) => {
                    assert forall|j: int|
                        0 <= j < k && query.docs.doc_of_row(
                            #[trigger] list.row_ids@[j],
                        ) is Some implies j < list.frequencies@.len() by {
                        assert(slot_fits::<C>(query, order, places_of(i, k)[j]));
                    }
                },
            }
            assert(list_fits::<C>(term.list, query.docs, at.remaining));
        }
    }
}

} // verus!
