//! What holds of whole queries.
use vstd::prelude::*;

use crate::accumulator::{is_hit, lemma_hits_add_up, lemma_no_hits, total};
use crate::accumulator::{AccumulatorView, Hit};
use crate::docs::{DocSetView, RowAddrMask, MAX_DOCS};
use crate::laws::{best_have_the_greatest_sums, keeps_order, lemma_total_of_no_hit};
use crate::laws::{only_touched_documents_score, results_fill_limit, scores_are_touched};
use crate::laws::sums_that_fit_are_exact;
use crate::posting::{BlockCodec, CompressedPostingList, DocCandidate, PlainPostingList};
use crate::posting::{Posting, PostingIterator, PostingList};
use crate::ranking::{are_candidates, is_best, selected_docs};
use crate::scoring::{lut_hits, plain_postings};
use crate::search::{active_terms, is_term_order, list_len, list_prefix, precedes, remaining_max};
use crate::search::{lemma_one_term_order, lemma_term_order_exists};
use crate::search::{Progress, Query, SearchOutcome};
use crate::single::{less, Single, SingleArithmetic, ZERO};

verus! {

/// Whether two queries differ in their terms only, and both have something to search.
pub open spec fn differ_in_terms(query: Query, other: Query) -> bool {
    &&& other == (Query { postings: other.postings, ..query })
    &&& !query.is_idle()
    &&& !other.is_idle()
    &&& query.postings.len() <= usize::MAX
    &&& other.postings.len() <= usize::MAX
}

/// Whether two orders of processing give the same terms in the same order.
spec fn same_sequence(
    query: Query,
    order: Seq<(usize, Single)>,
    other: Query,
    other_order: Seq<(usize, Single)>,
) -> bool {
    &&& is_term_order(query.postings, order)
    &&& is_term_order(other.postings, other_order)
    &&& order.len() == other_order.len()
    &&& forall|i: int|
        0 <= i < order.len() ==> #[trigger] query.term(order, i) == other.term(other_order, i)
}

/// Queries whose terms are processed in the same sequence have the same answers.
proof fn lemma_same_answers<A: SingleArithmetic, C: BlockCodec>(
    query: Query,
    order: Seq<(usize, Single)>,
    other: Query,
    other_order: Seq<(usize, Single)>,
    mask: RowAddrMask,
    outcome: SearchOutcome,
)
    requires
        differ_in_terms(query, other),
        same_sequence(query, order, other, other_order),
    ensures
        query.is_searchable::<A, C>() <==> other.is_searchable::<A, C>(),
        query.is_answered_by::<A, C>(mask, outcome) <==> other.is_answered_by::<A, C>(
            mask,
            outcome,
        ),
{
    lemma_order_len(query.postings, order);
    lemma_order_len(other.postings, other_order);
    assert forall|o: Seq<(usize, Single)>| #[trigger]
        is_term_order(query.postings, o) implies o == order by {
        lemma_one_term_order(query.postings, o, order);
    }
    assert forall|o: Seq<(usize, Single)>| #[trigger]
        is_term_order(other.postings, o) implies o == other_order by {
        lemma_one_term_order(other.postings, o, other_order);
    }
    lemma_same_max::<A>(query, order, other, other_order, 0);
    lemma_sequence_run::<A, C>(query, order, other, other_order, 0, query.begin::<A>(order));
}

proof fn lemma_order_len(postings: Seq<PostingIterator>, order: Seq<(usize, Single)>)
    requires
        postings.len() <= usize::MAX,
        is_term_order(postings, order),
    ensures
        order.len() == active_terms(postings),
{
    let one = lemma_term_order_exists(postings);
    lemma_one_term_order(postings, one, order);
}

proof fn lemma_same_max<A: SingleArithmetic>(
    query: Query,
    order: Seq<(usize, Single)>,
    other: Query,
    other_order: Seq<(usize, Single)>,
    i: int,
)
    requires
        0 <= i <= order.len(),
        same_sequence(query, order, other, other_order),
    ensures
        remaining_max::<A>(order, i) == remaining_max::<A>(other_order, i),
    decreases order.len() - i,
{
    if i < order.len() {
        lemma_same_max::<A>(query, order, other, other_order, i + 1);
        assert(query.term(order, i) == other.term(other_order, i));
        assert(order[i].1 == other_order[i].1);
    }
}

proof fn lemma_sequence_run<A: SingleArithmetic, C: BlockCodec>(
    query: Query,
    order: Seq<(usize, Single)>,
    other: Query,
    other_order: Seq<(usize, Single)>,
    i: int,
    at: Progress,
)
    requires
        0 <= i <= order.len(),
        differ_in_terms(query, other),
        same_sequence(query, order, other, other_order),
    ensures
        query.run::<A, C>(order, i, at) == other.run::<A, C>(other_order, i, at),
        query.fits_from::<A, C>(order, i, at) == other.fits_from::<A, C>(other_order, i, at),
    decreases order.len() - i,
{
    if i < order.len() {
        let term = query.term(order, i);
        assert(term == other.term(other_order, i));
        lemma_same_max::<A>(query, order, other, other_order, i);
        lemma_sequence_run::<A, C>(
            query,
            order,
            other,
            other_order,
            i + 1,
            query.step::<A, C>(term, i, at),
        );
    }
}

/// A term without a positive weight changes nothing, at whichever place it stands.
pub proof fn weightless_terms_change_nothing<A: SingleArithmetic, C: BlockCodec>(
    query: Query,
    other: Query,
    place: int,
    term: PostingIterator,
    mask: RowAddrMask,
    outcome: SearchOutcome,
)
    requires
        differ_in_terms(query, other),
        0 <= place <= query.postings.len(),
        other.postings == query.postings.insert(place, term),
        !less(ZERO, term.query_weight),
    ensures
        query.is_searchable::<A, C>() <==> other.is_searchable::<A, C>(),
        query.is_answered_by::<A, C>(mask, outcome) <==> other.is_answered_by::<A, C>(
            mask,
            outcome,
        ),
{
    let order = lemma_term_order_exists(query.postings);
    let moved = moved_up(order, place);
    let longer = other.postings;
    assert forall|i: int| 0 <= i < moved.len() implies (#[trigger] moved[i]).0 < longer.len()
        && longer[moved[i].0 as int] == query.postings[order[i].0 as int] && moved[i].1
        == order[i].1 by {
        assert(order[i].0 < query.postings.len());
    }
    assert forall|p: int| 0 <= p < longer.len() && less(
        ZERO,
        (#[trigger] longer[p]).query_weight,
    ) implies moved.contains((p as usize, longer[p].query_weight)) by {
        let q = if p < place {
            p
        } else {
            p - 1
        };
        assert(query.postings[q] == longer[p]);
        let k = order.index_of((q as usize, query.postings[q].query_weight));
        assert(order[k] == (q as usize, query.postings[q].query_weight));
        assert(moved[k] == (p as usize, longer[p].query_weight));
    }
    assert forall|i: int, j: int| 0 <= i < j < moved.len() implies precedes(
        moved[i],
        moved[j],
    ) by {
        assert(precedes(order[i], order[j]));
        assert(order[i].0 < query.postings.len() && order[j].0 < query.postings.len());
    }
    assert(is_term_order(longer, moved));
    lemma_same_answers::<A, C>(query, order, other, moved, mask, outcome);
}

/// `order` where the terms from `place` on have moved up by one place.
spec fn moved_up(order: Seq<(usize, Single)>, place: int) -> Seq<(usize, Single)> {
    Seq::new(
        order.len(),
        |i: int|
            if order[i].0 < place {
                order[i]
            } else {
                ((order[i].0 + 1) as usize, order[i].1)
            },
    )
}

/// Whether no two terms with a positive weight have the same weight.
pub open spec fn has_distinct_weights(postings: Seq<PostingIterator>) -> bool {
    forall|p: int, q: int|
        #![trigger postings[p], postings[q]]
        0 <= p < q < postings.len() && less(ZERO, postings[p].query_weight) ==> postings[p].query_weight
            != postings[q].query_weight
}

/// Whether two queries have the same terms with a positive weight.
pub open spec fn same_active_terms(
    postings: Seq<PostingIterator>,
    others: Seq<PostingIterator>,
) -> bool {
    forall|term: PostingIterator|
        less(ZERO, term.query_weight) ==> (#[trigger] postings.contains(term) <==> others.contains(
            term,
        ))
}

/// The order in which a query gives its terms does not matter where their weights differ,
/// nor do the terms without a positive weight.
pub proof fn terms_come_in_any_order<A: SingleArithmetic, C: BlockCodec>(
    query: Query,
    other: Query,
    mask: RowAddrMask,
    outcome: SearchOutcome,
)
    requires
        differ_in_terms(query, other),
        same_active_terms(query.postings, other.postings),
        has_distinct_weights(query.postings),
        has_distinct_weights(other.postings),
    ensures
        query.is_searchable::<A, C>() <==> other.is_searchable::<A, C>(),
        query.is_answered_by::<A, C>(mask, outcome) <==> other.is_answered_by::<A, C>(
            mask,
            outcome,
        ),
{
    let order = lemma_term_order_exists(query.postings);
    let other_order = lemma_term_order_exists(other.postings);
    assert(same_active_terms(other.postings, query.postings)) by {
        assert forall|term: PostingIterator| less(ZERO, term.query_weight) implies (
        #[trigger] other.postings.contains(term) <==> query.postings.contains(term)) by {
            assert(query.postings.contains(term) <==> other.postings.contains(term));
        }
    }
    lemma_sequences_agree(query, order, other, other_order, order.len() as int);
    lemma_sequences_agree(other, other_order, query, order, other_order.len() as int);
    lemma_same_answers::<A, C>(query, order, other, other_order, mask, outcome);
}

/// A term with a positive weight has a place in the order of processing.
proof fn lemma_place_of(query: Query, order: Seq<(usize, Single)>, term: PostingIterator) -> (k: int)
    requires
        is_term_order(query.postings, order),
        query.postings.len() <= usize::MAX,
        query.postings.contains(term),
        less(ZERO, term.query_weight),
    ensures
        0 <= k < order.len(),
        query.term(order, k) == term,
{
    let p = query.postings.index_of(term);
    assert(query.postings[p] == term);
    let k = order.index_of((p as usize, term.query_weight));
    assert(order.contains((p as usize, term.query_weight)));
    assert(order[k] == (p as usize, term.query_weight));
    k
}

/// Terms at different places of the order of processing have different weights.
proof fn lemma_weights_differ(query: Query, order: Seq<(usize, Single)>, i: int, j: int)
    requires
        is_term_order(query.postings, order),
        has_distinct_weights(query.postings),
        0 <= i < j < order.len(),
    ensures
        query.term(order, i).query_weight != query.term(order, j).query_weight,
{
    assert(precedes(order[i], order[j]));
    let p = order[i].0 as int;
    let q = order[j].0 as int;
    assert(less(ZERO, order[i].1) && less(ZERO, order[j].1));
    if p < q {
        assert(query.postings[p].query_weight != query.postings[q].query_weight);
    } else if q < p {
        assert(query.postings[q].query_weight != query.postings[p].query_weight);
    }
}

proof fn lemma_sequences_agree(
    query: Query,
    order: Seq<(usize, Single)>,
    other: Query,
    other_order: Seq<(usize, Single)>,
    n: int,
)
    requires
        differ_in_terms(query, other),
        is_term_order(query.postings, order),
        is_term_order(other.postings, other_order),
        same_active_terms(query.postings, other.postings),
        has_distinct_weights(query.postings),
        has_distinct_weights(other.postings),
        0 <= n <= order.len(),
    ensures
        n <= other_order.len(),
        forall|i: int|
            0 <= i < n ==> #[trigger] query.term(order, i) == other.term(other_order, i),
    decreases n,
{
    if n > 0 {
        lemma_sequences_agree(query, order, other, other_order, n - 1);
        let term = query.term(order, n - 1);
        assert(less(ZERO, order[n - 1].1));
        assert(query.postings.contains(term));
        let k = lemma_place_of(other, other_order, term);
        if k < n - 1 {
            assert(query.term(order, k) == other.term(other_order, k));
            lemma_weights_differ(query, order, k, n - 1);
        }
        if k > n - 1 {
            let first = other.term(other_order, n - 1);
            assert(less(ZERO, other_order[n - 1].1));
            assert(other.postings.contains(first));
            assert(query.postings.contains(first));
            let m = lemma_place_of(query, order, first);
            lemma_weights_differ(other, other_order, n - 1, k);
            assert(precedes(other_order[n - 1], other_order[k]));
            if m < n - 1 {
                assert(query.term(order, m) == other.term(other_order, m));
                lemma_weights_differ(other, other_order, m, n - 1);
            }
            if m > n - 1 {
                assert(precedes(order[n - 1], order[m]));
            }
        }
    }
}

/// The first `n` rows of a plain list that are documents, with their frequencies.
pub open spec fn known_rows(list: PlainPostingList, docs: DocSetView, n: int) -> Seq<(u64, Single)>
    decreases n,
{
    if n <= 0 {
        Seq::empty()
    } else if docs.doc_of_row(list.row_ids@[n - 1]) is Some {
        known_rows(list, docs, n - 1).push((list.row_ids@[n - 1], list.frequencies@[n - 1]))
    } else {
        known_rows(list, docs, n - 1)
    }
}

/// Whether two terms are the same but for rows in plain lists that are no document.
pub open spec fn same_known_rows(
    docs: DocSetView,
    a: PostingIterator,
    b: PostingIterator,
) -> bool {
    &&& a.query_weight == b.query_weight
    &&& match (a.list, b.list) {
        (PostingList::Plain(plain), PostingList::Plain(other)) => known_rows(
            plain,
            docs,
            plain.row_ids@.len() as int,
        ) == known_rows(other, docs, other.row_ids@.len() as int),
        _ => a.list == b.list,
    }
}

/// Rows that are no document, added to plain lists or taken out of them, leave the scores
/// and what is returned as they are, while the budget is not reached.
pub proof fn unknown_rows_change_nothing<A: SingleArithmetic, C: BlockCodec>(
    query: Query,
    other: Query,
    order: Seq<(usize, Single)>,
    mask: RowAddrMask,
    candidates: Seq<DocCandidate>,
)
    requires
        is_term_order(query.postings, order),
        other == (Query { postings: other.postings, ..query }),
        query.postings.len() == other.postings.len(),
        forall|p: int|
            0 <= p < query.postings.len() ==> same_known_rows(
                query.docs,
                #[trigger] query.postings[p],
                other.postings[p],
            ),
        postings_before::<C>(query, order, order.len() as int) < query.budget(),
        postings_before::<C>(other, order, order.len() as int) < other.budget(),
    ensures
        query.finish::<A, C>(order).acc == other.finish::<A, C>(order).acc,
        query.returns_candidates::<A, C>(mask, candidates) <==> other.returns_candidates::<A, C>(
            mask,
            candidates,
        ),
{
    assert forall|p: int| 0 <= p < query.postings.len() implies query.postings[p].query_weight
        == (#[trigger] other.postings[p]).query_weight by {
        assert(same_known_rows(query.docs, query.postings[p], other.postings[p]));
    }
    lemma_same_active(query.postings, other.postings);
    lemma_same_order(query.postings, other.postings, order);
    lemma_known_run::<A, C>(
        query,
        other,
        order,
        0,
        query.begin::<A>(order),
        other.begin::<A>(order),
    );
    assert forall|o: Seq<(usize, Single)>| #[trigger]
        is_term_order(query.postings, o) implies o == order by {
        lemma_one_term_order(query.postings, o, order);
    }
    assert forall|o: Seq<(usize, Single)>| #[trigger]
        is_term_order(other.postings, o) implies o == order by {
        lemma_one_term_order(other.postings, o, order);
    }
}

proof fn lemma_known_run<A: SingleArithmetic, C: BlockCodec>(
    query: Query,
    other: Query,
    order: Seq<(usize, Single)>,
    i: int,
    at: Progress,
    other_at: Progress,
)
    requires
        0 <= i <= order.len(),
        is_term_order(query.postings, order),
        other == (Query { postings: other.postings, ..query }),
        query.postings.len() == other.postings.len(),
        forall|p: int|
            0 <= p < query.postings.len() ==> same_known_rows(
                query.docs,
                #[trigger] query.postings[p],
                other.postings[p],
            ),
        postings_before::<C>(query, order, order.len() as int) < query.budget(),
        postings_before::<C>(other, order, order.len() as int) < other.budget(),
        at.acc == other_at.acc,
        at.threshold == other_at.threshold,
        at.remaining == query.budget() - postings_before::<C>(query, order, i),
        other_at.remaining == other.budget() - postings_before::<C>(other, order, i),
    ensures
        query.run::<A, C>(order, i, at).acc == other.run::<A, C>(order, i, other_at).acc,
    decreases order.len() - i,
{
    let n = order.len() as int;
    lemma_postings_grow::<C>(query, order, i, n);
    lemma_postings_grow::<C>(other, order, i, n);
    if i < n {
        lemma_postings_grow::<C>(query, order, i + 1, n);
        lemma_postings_grow::<C>(other, order, i + 1, n);
        let term = query.term(order, i);
        let twin = other.term(order, i);
        assert(order[i].0 < query.postings.len());
        assert(same_known_rows(query.docs, term, twin));
        match (term.list, twin.list) {
            (PostingList::Plain(plain), PostingList::Plain(rows)) => {
                let len = plain.row_ids@.len() as int;
                let other_len = rows.row_ids@.len() as int;
                lemma_plain_of_known::<A>(plain, query.docs, len);
                lemma_plain_of_known::<A>(rows, query.docs, other_len);
                assert(plain_postings::<A>(plain, query.docs, len) =~= plain_postings::<A>(
                    rows,
                    query.docs,
                    other_len,
                ));
            },
            _ => {},
        }
        lemma_known_run::<A, C>(
            query,
            other,
            order,
            i + 1,
            query.step::<A, C>(term, i, at),
            other.step::<A, C>(twin, i, other_at),
        );
    }
}

/// The postings of a plain list are those of its rows that are documents.
proof fn lemma_plain_of_known<A: SingleArithmetic>(list: PlainPostingList, docs: DocSetView, n: int)
    ensures
        plain_postings::<A>(list, docs, n).len() == known_rows(list, docs, n).len(),
        forall|i: int|
            0 <= i < known_rows(list, docs, n).len() ==> #[trigger] plain_postings::<A>(
                list,
                docs,
                n,
            )[i] == (Posting {
                doc_id: docs.doc_of_row(known_rows(list, docs, n)[i].0)->0,
                freq: A::to_u32_spec(known_rows(list, docs, n)[i].1),
            }),
    decreases n,
{
    if n > 0 {
        lemma_plain_of_known::<A>(list, docs, n - 1);
    }
}

/// Whether a plain and a compressed list hold the same postings: the same documents, the
/// one by row and the other by id, with the same frequencies.
pub open spec fn same_postings<A: SingleArithmetic, C: BlockCodec>(
    docs: DocSetView,
    plain: PlainPostingList,
    compressed: CompressedPostingList,
) -> bool {
    &&& plain.row_ids@.len() == compressed.postings::<C>().len()
    &&& forall|i: int|
        0 <= i < plain.row_ids@.len() ==> {
            &&& docs.doc_of_row(#[trigger] plain.row_ids@[i]) == Some(
                compressed.postings::<C>()[i].doc_id,
            )
            &&& A::to_u32_spec(plain.frequencies@[i]) == compressed.postings::<C>()[i].freq
        }
}

/// Whether two terms have the same weight and the same postings, in whichever form.
pub open spec fn same_term<A: SingleArithmetic, C: BlockCodec>(
    docs: DocSetView,
    a: PostingIterator,
    b: PostingIterator,
) -> bool {
    &&& a.query_weight == b.query_weight
    &&& match (a.list, b.list) {
        (PostingList::Plain(plain), PostingList::Compressed(compressed)) => same_postings::<A, C>(
            docs,
            plain,
            compressed,
        ),
        (PostingList::Compressed(compressed), PostingList::Plain(plain)) => same_postings::<A, C>(
            docs,
            plain,
            compressed,
        ),
        _ => a.list == b.list,
    }
}

/// Plain and compressed posting lists give the same scores: what answers a query answers
/// it whichever form each of its lists has.
pub proof fn plain_matches_compressed<A: SingleArithmetic, C: BlockCodec>(
    query: Query,
    other: Query,
    mask: RowAddrMask,
    outcome: SearchOutcome,
)
    requires
        other == (Query { postings: other.postings, ..query }),
        query.postings.len() == other.postings.len(),
        forall|p: int|
            0 <= p < query.postings.len() ==> same_term::<A, C>(
                query.docs,
                #[trigger] query.postings[p],
                other.postings[p],
            ),
    ensures
        query.is_answered_by::<A, C>(mask, outcome) <==> other.is_answered_by::<A, C>(
            mask,
            outcome,
        ),
{
    assert forall|p: int| 0 <= p < query.postings.len() implies query.postings[p].query_weight
        == (#[trigger] other.postings[p]).query_weight by {
        assert(same_term::<A, C>(query.docs, query.postings[p], other.postings[p]));
    }
    lemma_same_active(query.postings, other.postings);
    assert forall|order: Seq<(usize, Single)>|
        #![trigger is_term_order(query.postings, order)]
        #![trigger is_term_order(other.postings, order)]
        is_term_order(query.postings, order) == is_term_order(other.postings, order) by {
        if is_term_order(query.postings, order) {
            lemma_same_order(query.postings, other.postings, order);
        }
        if is_term_order(other.postings, order) {
            lemma_same_order(other.postings, query.postings, order);
        }
    }
    assert forall|order: Seq<(usize, Single)>| #[trigger]
        is_term_order(query.postings, order) implies query.finish::<A, C>(order)
        == other.finish::<A, C>(order) by {
        lemma_same_run::<A, C>(query, other, order, 0, query.begin::<A>(order));
    }
}

proof fn lemma_same_order(
    postings: Seq<PostingIterator>,
    others: Seq<PostingIterator>,
    order: Seq<(usize, Single)>,
)
    requires
        postings.len() == others.len(),
        forall|p: int|
            0 <= p < postings.len() ==> (#[trigger] postings[p]).query_weight
                == others[p].query_weight,
        is_term_order(postings, order),
    ensures
        is_term_order(others, order),
{
    assert forall|p: int| 0 <= p < others.len() && less(
        ZERO,
        (#[trigger] others[p]).query_weight,
    ) implies order.contains((p as usize, others[p].query_weight)) by {
        assert(postings[p].query_weight == others[p].query_weight);
    }
}

proof fn lemma_same_active(postings: Seq<PostingIterator>, others: Seq<PostingIterator>)
    requires
        postings.len() == others.len(),
        forall|p: int|
            0 <= p < postings.len() ==> postings[p].query_weight == (
            #[trigger] others[p]).query_weight,
    ensures
        active_terms(postings) == active_terms(others),
    decreases postings.len(),
{
    if postings.len() > 0 {
        lemma_same_active(postings.drop_last(), others.drop_last());
    }
}

proof fn lemma_same_run<A: SingleArithmetic, C: BlockCodec>(
    query: Query,
    other: Query,
    order: Seq<(usize, Single)>,
    i: int,
    at: Progress,
)
    requires
        0 <= i,
        is_term_order(query.postings, order),
        other == (Query { postings: other.postings, ..query }),
        query.postings.len() == other.postings.len(),
        forall|p: int|
            0 <= p < query.postings.len() ==> same_term::<A, C>(
                query.docs,
                #[trigger] query.postings[p],
                other.postings[p],
            ),
    ensures
        query.run::<A, C>(order, i, at) == other.run::<A, C>(order, i, at),
    decreases order.len() - i,
{
    if i < order.len() {
        let p = order[i].0 as int;
        assert(same_term::<A, C>(query.docs, query.postings[p], other.postings[p]));
        let n = query.taken::<C>(query.postings[p], at) as int;
        match (query.postings[p].list, other.postings[p].list) {
            (PostingList::Plain(plain), PostingList::Compressed(compressed)) => {
                lemma_same_prefix::<A, C>(query.docs, plain, compressed, n);
            },
            (PostingList::Compressed(compressed), PostingList::Plain(plain)) => {
                lemma_same_prefix::<A, C>(query.docs, plain, compressed, n);
            },
            _ => {},
        }
        lemma_same_run::<A, C>(
            query,
            other,
            order,
            i + 1,
            query.step::<A, C>(query.postings[p], i, at),
        );
    }
}

proof fn lemma_same_prefix<A: SingleArithmetic, C: BlockCodec>(
    docs: DocSetView,
    plain: PlainPostingList,
    compressed: CompressedPostingList,
    n: int,
)
    requires
        same_postings::<A, C>(docs, plain, compressed),
        0 <= n <= plain.row_ids@.len(),
    ensures
        plain_postings::<A>(plain, docs, n) == compressed.postings::<C>().take(n),
    decreases n,
{
    let all = compressed.postings::<C>();
    if n > 0 {
        lemma_same_prefix::<A, C>(docs, plain, compressed, n - 1);
        assert(docs.doc_of_row(plain.row_ids@[n - 1]) == Some(all[n - 1].doc_id));
        assert(all.take(n) =~= all.take(n - 1).push(all[n - 1]));
    } else {
        assert(all.take(n) =~= plain_postings::<A>(plain, docs, n));
    }
}

/// The postings of the first `n` terms of `order`, counted.
pub open spec fn postings_before<C: BlockCodec>(
    query: Query,
    order: Seq<(usize, Single)>,
    n: int,
) -> nat
    decreases n,
{
    if n <= 0 {
        0
    } else {
        postings_before::<C>(query, order, n - 1) + list_len::<C>(
            query.postings[order[n - 1].0 as int].list,
        )
    }
}

/// The hits of all postings of the first `n` terms of `order`, quantized for `acc`.
pub open spec fn all_hits<A: SingleArithmetic, C: BlockCodec>(
    query: Query,
    acc: AccumulatorView,
    order: Seq<(usize, Single)>,
    n: int,
) -> Seq<Hit>
    decreases n,
{
    if n <= 0 {
        Seq::empty()
    } else {
        let list = query.postings[order[n - 1].0 as int].list;
        all_hits::<A, C>(query, acc, order, n - 1) + lut_hits::<A>(
            acc,
            query.lut,
            order[n - 1].1,
            query.docs.num_tokens,
            list_prefix::<A, C>(list, query.docs, list_len::<C>(list) as int),
        )
    }
}

/// Up to three terms whose postings are within the budget are searched exhaustively:
/// every posting is processed, and the scores are those of all postings.
pub proof fn small_queries_are_exhaustive<A: SingleArithmetic, C: BlockCodec>(
    query: Query,
    order: Seq<(usize, Single)>,
)
    requires
        is_term_order(query.postings, order),
        order.len() <= 3,
        query.docs.row_ids.len() <= MAX_DOCS,
        postings_before::<C>(query, order, order.len() as int) <= query.budget(),
    ensures
        ({
            let begin = query.begin::<A>(order);
            let end = query.finish::<A, C>(order);
            &&& end.acc == begin.acc.after(
                all_hits::<A, C>(query, begin.acc, order, order.len() as int),
            )
            &&& query.budget() - end.remaining == postings_before::<C>(
                query,
                order,
                order.len() as int,
            )
        }),
{
    let begin = query.begin::<A>(order);
    lemma_no_hits(begin.acc);
    lemma_exhaustive_from::<A, C>(query, order, 0, begin);
}

/// Whether `ids` are different documents of `eligible`, and none that is left out has a
/// greater quantized sum than one of them.
pub open spec fn have_greatest_sums(
    acc: AccumulatorView,
    eligible: Set<int>,
    ids: Seq<int>,
) -> bool {
    &&& ids.no_duplicates()
    &&& forall|i: int| 0 <= i < ids.len() ==> eligible.contains(#[trigger] ids[i])
    &&& forall|e: int, i: int|
        #![trigger eligible.contains(e), ids[i]]
        eligible.contains(e) && !ids.contains(e) && 0 <= i < ids.len() ==> acc.scores[e]
            <= acc.scores[ids[i]]
}

/// Up to three terms whose postings are within the budget return as many documents as were
/// asked for, or as there are, and those of the greatest quantized sums over all postings.
/// Scaling back has to keep the order of the sums.
pub proof fn small_queries_return_the_best<A: SingleArithmetic, C: BlockCodec>(
    query: Query,
    order: Seq<(usize, Single)>,
    mask: RowAddrMask,
    candidates: Seq<DocCandidate>,
)
    requires
        !query.is_idle(),
        is_term_order(query.postings, order),
        order.len() <= 3,
        query.docs.row_ids.len() <= MAX_DOCS,
        postings_before::<C>(query, order, order.len() as int) <= query.budget(),
        keeps_order::<A>(query.begin::<A>(order).acc.inv_scale),
        query.returns_candidates::<A, C>(mask, candidates),
    ensures
        ({
            let fresh = query.begin::<A>(order).acc;
            let acc = fresh.after(all_hits::<A, C>(query, fresh, order, order.len() as int));
            let eligible = selected_docs(acc, query.docs, mask);
            &&& eligible.finite()
            &&& candidates.len() == if eligible.len() < query.limit {
                eligible.len()
            } else {
                query.limit
            }
            &&& exists|ids: Seq<int>|
                #[trigger] have_greatest_sums(acc, eligible, ids) && are_candidates::<A>(
                    acc,
                    query.docs,
                    ids,
                    candidates,
                )
        }),
{
    small_queries_are_exhaustive::<A, C>(query, order);
    let fresh = query.begin::<A>(order).acc;
    let acc = fresh.after(all_hits::<A, C>(query, fresh, order, order.len() as int));
    let eligible = selected_docs(acc, query.docs, mask);
    results_fill_limit::<A>(acc, query.docs, mask, query.limit, candidates);
    let ids = choose|ids: Seq<int>|
        #[trigger] is_best::<A>(acc, eligible, query.limit, ids) && are_candidates::<A>(
            acc,
            query.docs,
            ids,
            candidates,
        );
    assert forall|e: int, i: int|
        #![trigger eligible.contains(e), ids[i]]
        eligible.contains(e) && !ids.contains(e) && 0 <= i < ids.len() implies acc.scores[e]
        <= acc.scores[ids[i]] by {
        best_have_the_greatest_sums::<A>(acc, eligible, query.limit, ids, e, i);
    }
    assert(have_greatest_sums(acc, eligible, ids));
}

proof fn lemma_exhaustive_from<A: SingleArithmetic, C: BlockCodec>(
    query: Query,
    order: Seq<(usize, Single)>,
    i: int,
    at: Progress,
)
    requires
        is_term_order(query.postings, order),
        order.len() <= 3,
        query.docs.row_ids.len() <= MAX_DOCS,
        0 <= i <= order.len(),
        postings_before::<C>(query, order, order.len() as int) <= query.budget(),
        at.remaining == query.budget() - postings_before::<C>(query, order, i),
        at.acc == query.begin::<A>(order).acc.after(
            all_hits::<A, C>(query, query.begin::<A>(order).acc, order, i),
        ),
    ensures
        ({
            let begin = query.begin::<A>(order);
            let end = query.run::<A, C>(order, i, at);
            &&& end.acc == begin.acc.after(
                all_hits::<A, C>(query, begin.acc, order, order.len() as int),
            )
            &&& end.remaining == query.budget() - postings_before::<C>(
                query,
                order,
                order.len() as int,
            )
        }),
    decreases order.len() - i,
{
    let n = order.len() as int;
    let begin = query.begin::<A>(order);
    if i < n {
        lemma_postings_grow::<C>(query, order, i + 1, n);
        let list = query.postings[order[i].0 as int].list;
        if at.remaining == 0 {
            lemma_nothing_left::<A, C>(query, begin.acc, order, i, n);
        } else {
            let hits = query.hits::<A, C>(query.term(order, i), at);
            lemma_hits_add_up(
                begin.acc,
                all_hits::<A, C>(query, begin.acc, order, i),
                hits,
            );
            assert(all_hits::<A, C>(query, begin.acc, order, i) + hits =~= all_hits::<A, C>(
                query,
                begin.acc,
                order,
                i + 1,
            ));
            lemma_exhaustive_from::<A, C>(
                query,
                order,
                i + 1,
                query.step::<A, C>(query.term(order, i), i, at),
            );
        }
    }
}

proof fn lemma_postings_grow<C: BlockCodec>(
    query: Query,
    order: Seq<(usize, Single)>,
    i: int,
    n: int,
)
    requires
        i <= n,
    ensures
        postings_before::<C>(query, order, i) <= postings_before::<C>(query, order, n),
    decreases n - i,
{
    if i < n {
        lemma_postings_grow::<C>(query, order, i, n - 1);
    }
}

/// Terms without postings add no hits.
proof fn lemma_nothing_left<A: SingleArithmetic, C: BlockCodec>(
    query: Query,
    acc: AccumulatorView,
    order: Seq<(usize, Single)>,
    i: int,
    n: int,
)
    requires
        0 <= i <= n,
        postings_before::<C>(query, order, i) == postings_before::<C>(query, order, n),
    ensures
        all_hits::<A, C>(query, acc, order, n) == all_hits::<A, C>(query, acc, order, i),
    decreases n - i,
{
    if i < n {
        lemma_postings_grow::<C>(query, order, i, n - 1);
        lemma_nothing_left::<A, C>(query, acc, order, i, n - 1);
        assert(all_hits::<A, C>(query, acc, order, n) =~= all_hits::<A, C>(
            query,
            acc,
            order,
            n - 1,
        ));
    }
}

/// Whether a posting of one of the terms of `order` adds to document `d`, where `acc` says
/// how scores are quantized.
pub open spec fn adds_to<A: SingleArithmetic, C: BlockCodec>(
    query: Query,
    acc: AccumulatorView,
    order: Seq<(usize, Single)>,
    d: int,
) -> bool {
    exists|i: int, j: int|
        0 <= i < order.len() && 0 <= j < term_hits::<A, C>(query, acc, query.term(order, i)).len()
            && (#[trigger] term_hits::<A, C>(query, acc, query.term(order, i))[j]).doc_id == d
            && term_hits::<A, C>(query, acc, query.term(order, i))[j].quantized > 0
}

/// The hits of all postings of `term`, quantized for `acc`.
pub open spec fn term_hits<A: SingleArithmetic, C: BlockCodec>(
    query: Query,
    acc: AccumulatorView,
    term: PostingIterator,
) -> Seq<Hit> {
    lut_hits::<A>(
        acc,
        query.lut,
        term.query_weight,
        query.docs.num_tokens,
        list_prefix::<A, C>(term.list, query.docs, list_len::<C>(term.list) as int),
    )
}

/// Every document that has a score in the end is in the list of a term with a positive
/// weight, by a posting that adds something.
pub proof fn scored_documents_are_posted<A: SingleArithmetic, C: BlockCodec>(
    query: Query,
    order: Seq<(usize, Single)>,
    d: int,
)
    requires
        is_term_order(query.postings, order),
        query.finish::<A, C>(order).acc.is_scored(d),
    ensures
        adds_to::<A, C>(query, query.begin::<A>(order).acc, order, d),
{
    lemma_scored_from::<A, C>(query, order, 0, query.begin::<A>(order), d);
}

proof fn lemma_scored_from<A: SingleArithmetic, C: BlockCodec>(
    query: Query,
    order: Seq<(usize, Single)>,
    i: int,
    at: Progress,
    d: int,
)
    requires
        0 <= i,
        at.acc.scale == query.begin::<A>(order).acc.scale,
        0 <= d < at.acc.scores.len() && at.acc.scores[d] > 0 ==> adds_to::<A, C>(
            query,
            query.begin::<A>(order).acc,
            order,
            d,
        ),
        query.run::<A, C>(order, i, at).acc.is_scored(d),
    ensures
        adds_to::<A, C>(query, query.begin::<A>(order).acc, order, d),
    decreases order.len() - i,
{
    if i < order.len() && !query.ends_before::<A>(order, i, at) {
        let begin = query.begin::<A>(order).acc;
        let term = query.term(order, i);
        let hits = query.hits::<A, C>(term, at);
        let all = term_hits::<A, C>(query, begin, term);
        let next = query.step::<A, C>(term, i, at);
        if 0 <= d < next.acc.scores.len() && next.acc.scores[d] > 0 && at.acc.scores[d] == 0 {
            let j = lemma_adding_hit(hits, d);
            lemma_prefix::<A, C>(
                term.list,
                query.docs,
                query.taken::<C>(term, at) as int,
                j,
            );
            assert(all[j] == hits[j]);
            assert(term_hits::<A, C>(query, begin, query.term(order, i))[j].doc_id == d);
        }
        lemma_scored_from::<A, C>(query, order, i + 1, next, d);
    }
}

/// Where hits add to a document, one of them does.
proof fn lemma_adding_hit(hits: Seq<Hit>, d: int) -> (j: int)
    requires
        total(hits, d) > 0,
    ensures
        0 <= j < hits.len(),
        hits[j].doc_id == d,
        hits[j].quantized > 0,
    decreases hits.len(),
{
    if hits.last().doc_id == d && hits.last().quantized > 0 {
        hits.len() - 1
    } else {
        lemma_adding_hit(hits.drop_last(), d)
    }
}

/// The postings of the beginning of a list are at their places in the whole of it.
proof fn lemma_prefix<A: SingleArithmetic, C: BlockCodec>(
    list: PostingList,
    docs: DocSetView,
    n: int,
    j: int,
)
    requires
        0 <= n <= list_len::<C>(list),
        0 <= j < list_prefix::<A, C>(list, docs, n).len(),
    ensures
        j < list_prefix::<A, C>(list, docs, list_len::<C>(list) as int).len(),
        list_prefix::<A, C>(list, docs, n)[j] == list_prefix::<A, C>(
            list,
            docs,
            list_len::<C>(list) as int,
        )[j],
{
    match list {
        PostingList::Plain(plain) => {
            lemma_plain_prefix::<A>(plain, docs, n, plain.row_ids@.len() as int, j);
        },
        _ => {},
    }
}

proof fn lemma_plain_prefix<A: SingleArithmetic>(
    list: PlainPostingList,
    docs: DocSetView,
    n: int,
    len: int,
    j: int,
)
    requires
        0 <= n <= len,
        0 <= j < plain_postings::<A>(list, docs, n).len(),
    ensures
        j < plain_postings::<A>(list, docs, len).len(),
        plain_postings::<A>(list, docs, n)[j] == plain_postings::<A>(list, docs, len)[j],
    decreases len - n,
{
    if n < len {
        lemma_plain_prefix::<A>(list, docs, n, len - 1, j);
    }
}

/// What the search adds to document `d` in all, from the term at place `i` of `order` on,
/// once it has come as far as `at` before that term: the sum of its hits, without regard to
/// 16 bits.
pub open spec fn processed_sum<A: SingleArithmetic, C: BlockCodec>(
    query: Query,
    order: Seq<(usize, Single)>,
    i: int,
    at: Progress,
    d: int,
) -> nat
    decreases order.len() - i,
{
    if i >= order.len() || query.ends_before::<A>(order, i, at) {
        0
    } else {
        let term = query.term(order, i);
        total(query.hits::<A, C>(term, at), d) + processed_sum::<A, C>(
            query,
            order,
            i + 1,
            query.step::<A, C>(term, i, at),
            d,
        )
    }
}

/// The sum of `caps` from place `i` on.
pub open spec fn sum_from(caps: Seq<nat>, i: int) -> nat
    decreases caps.len() - i,
{
    if i >= caps.len() {
        0
    } else {
        caps[i] + sum_from(caps, i + 1)
    }
}

/// Whether `hits` names document `d` at most once, and adds at most `cap` to it.
pub open spec fn is_capped(hits: Seq<Hit>, d: int, cap: nat) -> bool {
    &&& forall|i: int|
        0 <= i < hits.len() && (#[trigger] hits[i]).doc_id == d ==> hits[i].quantized <= cap
    &&& forall|i: int, j: int|
        #![trigger hits[i], hits[j]]
        0 <= i < j < hits.len() && hits[i].doc_id == d ==> hits[j].doc_id != d
}

/// Accumulated scores do not overflow: where each list names a document at most once, no
/// posting of a term adds more than the cap of that term, and the caps add up to what 16
/// bits hold, the score is the exact sum of the hits that were processed.
pub proof fn capped_scores_do_not_overflow<A: SingleArithmetic, C: BlockCodec>(
    query: Query,
    order: Seq<(usize, Single)>,
    caps: Seq<nat>,
    d: int,
)
    requires
        0 <= d < query.docs.row_ids.len(),
        caps.len() == order.len(),
        forall|i: int|
            0 <= i < order.len() ==> is_capped(
                term_hits::<A, C>(
                    query,
                    query.begin::<A>(order).acc,
                    #[trigger] query.term(order, i),
                ),
                d,
                caps[i],
            ),
        sum_from(caps, 0) <= u16::MAX,
    ensures
        ({
            let begin = query.begin::<A>(order);
            let sum = processed_sum::<A, C>(query, order, 0, begin, d);
            &&& query.finish::<A, C>(order).acc.scores[d] == sum
            &&& sum <= sum_from(caps, 0)
        }),
{
    lemma_capped_from::<A, C>(query, order, caps, 0, query.begin::<A>(order), d);
}

proof fn lemma_capped_from<A: SingleArithmetic, C: BlockCodec>(
    query: Query,
    order: Seq<(usize, Single)>,
    caps: Seq<nat>,
    i: int,
    at: Progress,
    d: int,
)
    requires
        0 <= i <= order.len(),
        0 <= d < at.acc.scores.len(),
        at.acc.scale == query.begin::<A>(order).acc.scale,
        caps.len() == order.len(),
        forall|j: int|
            0 <= j < order.len() ==> is_capped(
                term_hits::<A, C>(
                    query,
                    query.begin::<A>(order).acc,
                    #[trigger] query.term(order, j),
                ),
                d,
                caps[j],
            ),
        at.acc.scores[d] + sum_from(caps, i) <= u16::MAX,
    ensures
        query.run::<A, C>(order, i, at).acc.scores[d] == at.acc.scores[d] + processed_sum::<A, C>(
            query,
            order,
            i,
            at,
            d,
        ),
        processed_sum::<A, C>(query, order, i, at, d) <= sum_from(caps, i),
    decreases order.len() - i,
{
    if i < order.len() && !query.ends_before::<A>(order, i, at) {
        let term = query.term(order, i);
        let hits = query.hits::<A, C>(term, at);
        let all = term_hits::<A, C>(query, query.begin::<A>(order).acc, term);
        assert forall|j: int| 0 <= j < hits.len() implies j < all.len() && #[trigger] hits[j]
            == all[j] by {
            lemma_prefix::<A, C>(term.list, query.docs, query.taken::<C>(term, at) as int, j);
        }
        assert(is_capped(all, d, caps[i]));
        assert forall|j: int, k: int|
            #![trigger hits[j], hits[k]]
            0 <= j < k < hits.len() && hits[j].doc_id == d implies hits[k].doc_id != d by {
            assert(hits[j] == all[j] && hits[k] == all[k]);
        }
        lemma_capped_total(hits, d, caps[i]);
        sums_that_fit_are_exact(at.acc, hits, d);
        lemma_capped_from::<A, C>(
            query,
            order,
            caps,
            i + 1,
            query.step::<A, C>(term, i, at),
            d,
        );
    }
}

/// Hits that name a document at most once add at most the cap to it.
proof fn lemma_capped_total(hits: Seq<Hit>, d: int, cap: nat)
    requires
        is_capped(hits, d, cap),
    ensures
        total(hits, d) <= cap,
    decreases hits.len(),
{
    if hits.len() > 0 {
        let rest = hits.drop_last();
        let n = hits.len() - 1;
        if hits[n].doc_id == d {
            assert(!is_hit(rest, d)) by {
                if is_hit(rest, d) {
                    let i = choose|i: int| 0 <= i < rest.len() && (#[trigger] rest[i]).doc_id == d;
                    assert(hits[i].doc_id == d && hits[n].doc_id == d);
                }
            }
            lemma_total_of_no_hit(rest, d);
        } else {
            assert forall|i: int|
                0 <= i < rest.len() && (#[trigger] rest[i]).doc_id == d implies rest[i].quantized
                <= cap by {
                assert(rest[i] == hits[i]);
            }
            assert forall|i: int, j: int|
                #![trigger rest[i], rest[j]]
                0 <= i < j < rest.len() && rest[i].doc_id == d implies rest[j].doc_id != d by {
                assert(rest[i] == hits[i] && rest[j] == hits[j]);
            }
            lemma_capped_total(rest, d, cap);
        }
    }
}

/// Only touched documents have a score in the end.
pub proof fn searches_touch_what_they_score<A: SingleArithmetic, C: BlockCodec>(
    query: Query,
    order: Seq<(usize, Single)>,
)
    requires
        query.docs.row_ids.len() <= MAX_DOCS,
    ensures
        scores_are_touched(query.finish::<A, C>(order).acc),
{
    lemma_touched_from::<A, C>(query, order, 0, query.begin::<A>(order));
}

proof fn lemma_touched_from<A: SingleArithmetic, C: BlockCodec>(
    query: Query,
    order: Seq<(usize, Single)>,
    i: int,
    at: Progress,
)
    requires
        at.acc.wf(),
        scores_are_touched(at.acc),
    ensures
        scores_are_touched(query.run::<A, C>(order, i, at).acc),
    decreases order.len() - i,
{
    if i < order.len() && !query.ends_before::<A>(order, i, at) {
        let term = query.term(order, i);
        only_touched_documents_score::<A>(0, ZERO, at.acc, query.hits::<A, C>(term, at));
        lemma_touched_from::<A, C>(query, order, i + 1, query.step::<A, C>(term, i, at));
    }
}

} // verus!
