//! What holds of the data that a search reads: patterns, words, documents, lists and terms.
use vstd::prelude::*;

use crate::accumulator::{block_hits, total, AccumulatorView, Hit};
use crate::bits::bit_at;
use crate::docs::{token_sum, DocSetView, RowAddrMask};
use crate::formula::{longest, LookupView};
use crate::posting::{block_bytes, paired, BlockCodec, CompressedPostingList, FtsSearchParams};
use crate::posting::{DocCandidate, PostingIterator, PostingList};
use crate::ranking::is_top_k;
use crate::scoring::{all_below, doc_ids_of, freqs_of, lemma_between_splits};
use crate::search::{active_terms, is_term_order, precedes, query_of, Progress, Query};
use crate::single::{greater_of, is_nan, less, magnitude, total_order, Single, SingleArithmetic};
use crate::single::{INFINITY, ONE, SIGN_BIT, ZERO};
use crate::values::{lemma_value_order, lemma_value_sign, value};

verus! {

/// Finite patterns are ordered as the numbers that they stand for.
pub proof fn less_is_the_order_of_values(a: Single, b: Single)
    requires
        magnitude(a) < INFINITY,
        magnitude(b) < INFINITY,
    ensures
        less(a, b) <==> value(a) < value(b),
{
    let x = magnitude(a) as u32;
    let y = magnitude(b) as u32;
    lemma_value_order(x, y);
    lemma_value_order(y, x);
    lemma_value_sign(x);
    lemma_value_sign(y);
    assert(value(a) == if a < SIGN_BIT { value(x) } else { 0 as real - value(x) });
    assert(value(b) == if b < SIGN_BIT { value(y) } else { 0 as real - value(y) });
}

/// Infinity is beyond every finite pattern, and what is not a number is beside the order.
pub proof fn infinity_is_greatest(a: Single, b: Single)
    ensures
        magnitude(a) < INFINITY ==> less(a, INFINITY),
        magnitude(a) > INFINITY ==> !less(a, b) && !less(b, a),
{
}

/// The order of all patterns tells any two of them apart, and agrees with the order of
/// numbers.
pub proof fn total_order_is_total(a: Single, b: Single)
    ensures
        a != b ==> total_order(a) != total_order(b),
        less(a, b) ==> total_order(a) < total_order(b),
        a < SIGN_BIT && b >= SIGN_BIT ==> total_order(b) < total_order(a),
        a < b && b < SIGN_BIT ==> total_order(a) < total_order(b),
        a < b && a >= SIGN_BIT ==> total_order(b) < total_order(a),
{
}

/// The greater of two patterns is one of them, and none of the two is greater.
pub proof fn greater_is_an_upper_bound(a: Single, b: Single)
    ensures
        greater_of(a, b) == a || greater_of(a, b) == b,
        !less(greater_of(a, b), a),
        !less(greater_of(a, b), b),
        !(is_nan(a) && is_nan(b)) ==> !is_nan(greater_of(a, b)),
{
}

/// A word is determined by its bits.
pub proof fn bits_determine_the_word(a: u64, b: u64)
    requires
        forall|i: int| 0 <= i < 64 ==> #[trigger] bit_at(a, i) == bit_at(b, i),
    ensures
        a == b,
{
    if a != b {
        assert(a ^ b != 0) by (bit_vector)
            requires
                a != b,
        ;
        let k = lemma_differing_bit(a ^ b, 0);
        let j = k as u64;
        assert((a >> j) & 1 != (b >> j) & 1) by (bit_vector)
            requires
                ((a ^ b) >> j) & 1 == 1,
                j < 64,
        ;
        assert((a >> j) & 1 <= 1 && (b >> j) & 1 <= 1) by (bit_vector);
        assert(bit_at(a, k) == bit_at(b, k));
    }
}

/// A word that is not 0 from bit `i` on has a set bit there.
proof fn lemma_differing_bit(w: u64, i: u64) -> (k: int)
    requires
        i <= 64,
    ensures
        i < 64 && w >> i != 0 ==> 0 <= k < 64 && (w >> (k as u64)) & 1 == 1,
        i == 0 && w != 0 ==> 0 <= k < 64 && (w >> (k as u64)) & 1 == 1,
    decreases 64 - i,
{
    assert(w >> 0u64 == w) by (bit_vector);
    if i >= 64 {
        0
    } else if (w >> i) & 1 == 1 {
        i as int
    } else {
        let j = (i + 1) as u64;
        assert(w >> i != 0 ==> j < 64 && w >> j != 0) by (bit_vector)
            requires
                i < 64,
                j == i + 1,
                (w >> i) & 1 != 1,
        ;
        lemma_differing_bit(w, j)
    }
}

/// Lengths add up, however the documents are divided.
pub proof fn token_sums_add_up(first: Seq<u32>, second: Seq<u32>, one: u32)
    ensures
        token_sum(first + second) == token_sum(first) + token_sum(second),
        token_sum(seq![one]) == one,
        token_sum(Seq::empty()) == 0,
    decreases second.len(),
{
    reveal_with_fuel(token_sum, 3);
    assert(seq![one].drop_last() =~= Seq::<u32>::empty());
    if second.len() == 0 {
        assert(first + second =~= first);
    } else {
        token_sums_add_up(first, second.drop_last(), one);
        assert((first + second).drop_last() =~= first + second.drop_last());
    }
}

/// No document is longer than the longest length, and one has that length.
pub proof fn longest_is_the_greatest_length(num_tokens: Seq<u32>)
    ensures
        forall|i: int| 0 <= i < num_tokens.len() ==> #[trigger] num_tokens[i] <= longest(num_tokens),
        num_tokens.len() > 0 ==> num_tokens.contains(longest(num_tokens)),
    decreases num_tokens.len(),
{
    if num_tokens.len() > 0 {
        let rest = num_tokens.drop_last();
        longest_is_the_greatest_length(rest);
        assert forall|i: int| 0 <= i < num_tokens.len() implies #[trigger] num_tokens[i]
            <= longest(num_tokens) by {
            if i < rest.len() {
                assert(rest[i] == num_tokens[i]);
            }
        }
        if longest(rest) < num_tokens.last() || rest.len() == 0 {
            assert(num_tokens[num_tokens.len() - 1] == longest(num_tokens));
        } else {
            let k = rest.index_of(longest(rest));
            assert(num_tokens[k] == longest(num_tokens));
        }
    }
}

/// The document of a row has that row, and no earlier document has it. A row without a
/// document is the row of none.
pub proof fn rows_lead_to_their_documents(docs: DocSetView, row_id: u64, d: int)
    requires
        docs.row_ids.len() <= 0x1_0000_0000,
        0 <= d < docs.row_ids.len(),
    ensures
        docs.row_ids[d] == row_id ==> docs.doc_of_row(row_id) is Some,
        docs.doc_of_row(row_id) matches Some(e) ==> {
            &&& e < docs.row_ids.len()
            &&& docs.row_ids[e as int] == row_id
            &&& d < e ==> docs.row_ids[d] != row_id
        },
{
    docs.row_ids.index_of_first_ensures(row_id);
}

/// An allowed row is selected and no other; a blocked row is not selected and all others are.
pub proof fn masks_select_by_their_rows(mask: RowAddrMask, row_id: u64)
    ensures
        mask matches RowAddrMask::AllowList(rows) ==> (mask.selects(row_id) <==> rows@.contains(
            row_id,
        )),
        mask matches RowAddrMask::BlockList(rows) ==> (mask.selects(row_id) <==> !rows@.contains(
            row_id,
        )),
{
}

/// Document ids and frequencies that are paired come apart again.
pub proof fn pairs_come_apart(doc_ids: Seq<u32>, freqs: Seq<u32>)
    requires
        doc_ids.len() == freqs.len(),
    ensures
        doc_ids_of(paired(doc_ids, freqs)) == doc_ids,
        freqs_of(paired(doc_ids, freqs)) == freqs,
{
    assert(doc_ids_of(paired(doc_ids, freqs)) =~= doc_ids);
    assert(freqs_of(paired(doc_ids, freqs)) =~= freqs);
}

/// The postings of a list are those of its blocks, one block after the other. The last
/// block is decoded as a remainder where the number of postings is no multiple of 128, and
/// every other block as a full one.
pub proof fn blocks_follow_each_other<C: BlockCodec>(
    list: CompressedPostingList,
    start: int,
    mid: int,
    end: int,
)
    requires
        0 <= start <= mid <= end <= block_bytes(list.blocks).len(),
    ensures
        list.postings_between::<C>(start, end) == list.postings_between::<C>(start, mid)
            + list.postings_between::<C>(mid, end),
        list.postings_between::<C>(mid, mid).len() == 0,
        mid < block_bytes(list.blocks).len() ==> list.postings_between::<C>(mid, mid + 1) == (
        if mid == block_bytes(list.blocks).len() - 1 && list.length % 128 != 0 {
            C::remainder_spec(
                block_bytes(list.blocks)[mid],
                (list.length % 128) as usize,
                list.posting_tail_codec,
            )
        } else {
            C::block_spec(block_bytes(list.blocks)[mid])
        }),
        list.postings::<C>() == list.postings_between::<C>(
            0,
            block_bytes(list.blocks).len() as int,
        ),
{
    lemma_between_splits::<C>(list, start, mid, end);
    reveal_with_fuel(CompressedPostingList::postings_between, 3);
    if mid < block_bytes(list.blocks).len() {
        assert(list.postings_between::<C>(mid, mid + 1) =~= list.block_postings::<C>(mid));
    }
}

/// One hit adds to its document, up to the greatest 16-bit number, marks it, and changes
/// nothing else.
pub proof fn one_hit_adds_to_its_document(acc: AccumulatorView, hit: Hit, d: int)
    requires
        acc.wf(),
        0 <= d < acc.scores.len(),
    ensures
        ({
            let after = acc.after(seq![hit]);
            &&& after.scores.len() == acc.scores.len()
            &&& after.scores[d] == if d != hit.doc_id {
                acc.scores[d] as int
            } else if acc.scores[d] + hit.quantized > 65535 {
                65535
            } else {
                acc.scores[d] + hit.quantized
            }
            &&& after.touched[d] == (acc.touched[d] || d == hit.doc_id)
            &&& after.scale == acc.scale
            &&& after.inv_scale == acc.inv_scale
        }),
{
    reveal_with_fuel(total, 3);
    let hits = seq![hit];
    assert(hits.drop_last() =~= Seq::<Hit>::empty());
    assert(hits[0] == hit);
}

/// An accumulator starts without scores or marks, and without a scale where there is nothing
/// to score.
pub proof fn accumulators_start_empty<A: SingleArithmetic>(
    num_docs: nat,
    max_possible_score: Single,
    d: int,
)
    requires
        0 <= d < num_docs,
    ensures
        ({
            let acc = AccumulatorView::fresh::<A>(num_docs, max_possible_score);
            &&& acc.scores.len() == num_docs
            &&& acc.touched.len() == num_docs
            &&& acc.scores[d] == 0
            &&& !acc.touched[d]
            &&& !less(ZERO, max_possible_score) ==> acc.scale == ONE
        }),
{
}

/// What a posting of a block adds rests on its own document, frequency and length.
pub proof fn block_hits_are_of_their_postings<A: SingleArithmetic>(
    acc: AccumulatorView,
    doc_ids: Seq<u32>,
    freqs: Seq<u32>,
    qw_k1p1: Single,
    num_tokens: Seq<u32>,
    b_over_avgdl: Single,
    others: Seq<u32>,
    i: int,
)
    requires
        0 <= i < doc_ids.len(),
        others[doc_ids[i] as int] == num_tokens[doc_ids[i] as int],
    ensures
        ({
            let hits = block_hits::<A>(acc, doc_ids, freqs, qw_k1p1, num_tokens, b_over_avgdl);
            let alone = block_hits::<A>(
                acc,
                seq![doc_ids[i]],
                seq![freqs[i]],
                qw_k1p1,
                others,
                b_over_avgdl,
            );
            &&& hits.len() == doc_ids.len()
            &&& hits[i].doc_id == doc_ids[i]
            &&& hits[i] == alone[0]
        }),
{
}

/// Heavier terms come first, terms of the same weight in the order of the query, and no
/// term without a positive weight comes at all.
pub proof fn heavier_terms_come_first(
    postings: Seq<PostingIterator>,
    order: Seq<(usize, Single)>,
    i: int,
    j: int,
)
    requires
        is_term_order(postings, order),
        0 <= i < j < order.len(),
    ensures
        !less(order[i].1, order[j].1),
        order[i].1 == order[j].1 ==> order[i].0 < order[j].0,
        order[i].0 != order[j].0,
        less(ZERO, order[i].1) && less(ZERO, order[j].1),
{
    assert(precedes(order[i], order[j]));
}

/// Every term with a positive weight has its place in the order of processing, with its own
/// weight, and every place is that of a term.
pub proof fn every_term_has_its_place(
    postings: Seq<PostingIterator>,
    order: Seq<(usize, Single)>,
    p: int,
    i: int,
)
    requires
        is_term_order(postings, order),
        postings.len() <= usize::MAX,
        0 <= p < postings.len(),
        0 <= i < order.len(),
    ensures
        less(ZERO, postings[p].query_weight) ==> exists|j: int|
            0 <= j < order.len() && (#[trigger] order[j]).0 == p && order[j].1
                == postings[p].query_weight,
        order[i].0 < postings.len(),
        order[i].1 == postings[order[i].0 as int].query_weight,
{
    if less(ZERO, postings[p].query_weight) {
        assert(order.contains((p as usize, postings[p].query_weight)));
        let j = order.index_of((p as usize, postings[p].query_weight));
        assert(order[j] == (p as usize, postings[p].query_weight));
    }
}

/// The places of the terms with a positive weight.
pub open spec fn active_places(postings: Seq<PostingIterator>) -> Set<int> {
    Set::new(|p: int| 0 <= p < postings.len() && less(ZERO, postings[p].query_weight))
}

/// The terms that are counted are those with a positive weight.
pub proof fn active_terms_are_counted(postings: Seq<PostingIterator>)
    ensures
        active_places(postings).finite(),
        active_terms(postings) == active_places(postings).len(),
    decreases postings.len(),
{
    if postings.len() == 0 {
        assert(active_places(postings) =~= Set::empty());
    } else {
        let rest = postings.drop_last();
        let n = postings.len() - 1;
        active_terms_are_counted(rest);
        if less(ZERO, postings[n].query_weight) {
            assert(active_places(postings) =~= active_places(rest).insert(n));
        } else {
            assert(active_places(postings) =~= active_places(rest));
        }
    }
}

/// The budget is ten postings for each result and each term with a positive weight, and at
/// least 50000.
pub proof fn budgets_grow_with_the_query(query: Query)
    ensures
        query.budget() >= 50000,
        query.budget() >= 10 * query.limit * active_terms(query.postings),
        query.budget() > 50000 ==> query.budget() == 10 * query.limit * active_terms(
            query.postings,
        ),
{
}

/// A query asks for as many results as its parameters say, over its own terms, documents and
/// table.
pub proof fn queries_are_as_asked(
    postings: Seq<PostingIterator>,
    docs: DocSetView,
    params: FtsSearchParams,
    lut: LookupView,
)
    ensures
        ({
            let query = query_of(postings, docs, params, lut);
            &&& params.limit matches Some(k) ==> query.limit == k
            &&& params.limit is None ==> query.limit == usize::MAX
            &&& query.postings == postings
            &&& query.docs == docs
            &&& query.lut == lut
        }),
{
}

/// Results carry neither frequencies nor lengths.
pub proof fn results_are_bare<A: SingleArithmetic>(
    acc: AccumulatorView,
    docs: DocSetView,
    mask: RowAddrMask,
    k: nat,
    candidates: Seq<DocCandidate>,
    i: int,
)
    requires
        is_top_k::<A>(acc, docs, mask, k, candidates),
        0 <= i < candidates.len(),
    ensures
        candidates[i].freqs@.len() == 0,
        candidates[i].doc_length == 0,
{
}

/// Whether all postings of a list are on documents, and all rows have a frequency.
pub open spec fn is_sound<C: BlockCodec>(list: PostingList, num_docs: nat) -> bool {
    match list {
        PostingList::Compressed(list) => all_below(list.postings::<C>(), num_docs),
        PostingList::Plain(list) => list.row_ids@.len() == list.frequencies@.len(),
    }
}

/// A query over sound lists can be searched, where its budget and the words of the bit set
/// can be counted. So can a query without results to ask for.
pub proof fn sound_queries_can_be_searched<A: SingleArithmetic, C: BlockCodec>(query: Query)
    requires
        query.limit == 0 || {
            &&& query.docs.row_ids.len() + 63 <= usize::MAX
            &&& 10 * query.limit <= usize::MAX
            &&& 10 * query.limit * active_terms(query.postings) <= usize::MAX
            &&& forall|p: int|
                0 <= p < query.postings.len() ==> is_sound::<C>(
                    (#[trigger] query.postings[p]).list,
                    query.docs.row_ids.len(),
                )
        },
    ensures
        query.is_searchable::<A, C>(),
{
    if query.limit > 0 {
        assert forall|order: Seq<(usize, Single)>| #[trigger]
            is_term_order(query.postings, order) implies query.fits_from::<A, C>(
            order,
            0,
            query.begin::<A>(order),
        ) by {
            lemma_sound_from::<A, C>(query, order, 0, query.begin::<A>(order));
        }
    }
}

proof fn lemma_sound_from<A: SingleArithmetic, C: BlockCodec>(
    query: Query,
    order: Seq<(usize, Single)>,
    i: int,
    at: Progress,
)
    requires
        0 <= i,
        is_term_order(query.postings, order),
        forall|p: int|
            0 <= p < query.postings.len() ==> is_sound::<C>(
                (#[trigger] query.postings[p]).list,
                query.docs.row_ids.len(),
            ),
    ensures
        query.fits_from::<A, C>(order, i, at),
    decreases order.len() - i,
{
    if i < order.len() && !query.ends_before::<A>(order, i, at) {
        let term = query.term(order, i);
        assert(order[i].0 < query.postings.len());
        assert(is_sound::<C>(term.list, query.docs.row_ids.len()));
        lemma_sound_from::<A, C>(query, order, i + 1, query.step::<A, C>(term, i, at));
    }
}

} // verus!
