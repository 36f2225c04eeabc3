use std::collections::{HashMap, HashSet};

use saat_bm25::accumulator::ScoreAccumulator;
use saat_bm25::bits::BitIter;
use saat_bm25::docs::{DocSet, RowAddrMask};
use saat_bm25::formula::{PrecomputedDocNorms, ScoreLookupTable};
use saat_bm25::posting::{
    BlockCodec, CompressedPostingList, DecodedBlock, FtsSearchParams, PlainPostingList,
    PostingBlocks, PostingIterator, PostingList, PostingTailCodec, BLOCK_SIZE,
};
use saat_bm25::ranking::compute_threshold_fast;
use saat_bm25::scoring::{
    process_compressed_list, process_compressed_list_with_lut, process_plain_list, DecodeBuffer,
};
use saat_bm25::search::{
    checked_saat_bm25_search, fits, saat_bm25_search, suffix_sums, term_order, SearchOutcome,
};
use saat_bm25::single::{Single, SingleArithmetic};

const K1: f32 = 1.2;
const B: f32 = 0.75;

/// The arithmetic of the machine.
struct Machine;

fn bits(x: f32) -> Single {
    if x.is_nan() {
        f32::NAN.to_bits()
    } else {
        x.to_bits()
    }
}

fn value(x: Single) -> f32 {
    f32::from_bits(x)
}

impl SingleArithmetic for Machine {
    fn plus(a: Single, b: Single) -> Single {
        bits(value(a) + value(b))
    }

    fn minus(a: Single, b: Single) -> Single {
        bits(value(a) - value(b))
    }

    fn times(a: Single, b: Single) -> Single {
        bits(value(a) * value(b))
    }

    fn over(a: Single, b: Single) -> Single {
        bits(value(a) / value(b))
    }

    fn of_int(n: u64) -> Single {
        bits(n as f32)
    }

    fn to_u16(a: Single) -> u16 {
        value(a) as u16
    }

    fn to_u32(a: Single) -> u32 {
        value(a) as u32
    }

    fn to_usize(a: Single) -> usize {
        value(a) as usize
    }
}

/// Blocks of document ids, then of frequencies. A remainder has its frequencies first
/// where its tail codec says so.
struct RawCodec;

const IDS_FIRST: PostingTailCodec = PostingTailCodec { id: 0 };
const FREQS_FIRST: PostingTailCodec = PostingTailCodec { id: 1 };

fn encode(numbers: &[u32]) -> Vec<u8> {
    numbers.iter().flat_map(|n| n.to_le_bytes()).collect()
}

fn decode(bytes: &[u8]) -> Vec<u32> {
    bytes
        .chunks(4)
        .map(|c| u32::from_le_bytes([c[0], c[1], c[2], c[3]]))
        .collect()
}

impl BlockCodec for RawCodec {
    fn decompress_posting_block(block: &[u8]) -> DecodedBlock {
        let numbers = decode(block);
        assert_eq!(numbers.len(), 2 * BLOCK_SIZE);
        DecodedBlock {
            doc_ids: numbers[..BLOCK_SIZE].to_vec(),
            freqs: numbers[BLOCK_SIZE..].to_vec(),
        }
    }

    fn decompress_posting_remainder(
        block: &[u8],
        remainder: usize,
        codec: PostingTailCodec,
    ) -> DecodedBlock {
        let numbers = decode(block);
        assert_eq!(numbers.len(), 2 * remainder);
        let first = numbers[..remainder].to_vec();
        let second = numbers[remainder..].to_vec();
        if codec == IDS_FIRST {
            DecodedBlock { doc_ids: first, freqs: second }
        } else {
            DecodedBlock { doc_ids: second, freqs: first }
        }
    }
}

fn compress(doc_ids: &[u32], freqs: &[u32], codec: PostingTailCodec) -> CompressedPostingList {
    let mut blocks: Vec<Vec<u8>> = Vec::new();
    for (ids, fs) in doc_ids.chunks(BLOCK_SIZE).zip(freqs.chunks(BLOCK_SIZE)) {
        let mut block = Vec::new();
        if ids.len() < BLOCK_SIZE && codec == FREQS_FIRST {
            block.extend(encode(fs));
            block.extend(encode(ids));
        } else {
            block.extend(encode(ids));
            block.extend(encode(fs));
        }
        blocks.push(block);
    }
    CompressedPostingList {
        blocks: PostingBlocks::new(&blocks),
        length: doc_ids.len() as u32,
        posting_tail_codec: codec,
    }
}

fn make_test_docs(n: usize) -> DocSet {
    let mut docs = DocSet::new();
    for i in 0..n {
        docs.append(i as u64, 10);
    }
    docs
}

fn make_sparse_row_id_docs() -> DocSet {
    let mut docs = DocSet::new();
    docs.append(100, 10);
    docs.append(200, 10);
    docs.append(500, 10);
    docs
}

fn make_compressed_posting(doc_ids: Vec<u32>, freqs: Vec<u32>) -> PostingList {
    PostingList::Compressed(compress(&doc_ids, &freqs, IDS_FIRST))
}

fn make_plain_posting(row_ids: Vec<u64>, freqs: Vec<f32>) -> PostingList {
    PostingList::Plain(PlainPostingList {
        row_ids,
        frequencies: freqs.into_iter().map(bits).collect(),
    })
}

fn term(query_weight: f32, list: PostingList) -> PostingIterator {
    PostingIterator { list, query_weight: bits(query_weight) }
}

fn search(
    postings: &[PostingIterator],
    docs: &DocSet,
    limit: usize,
    mask: &RowAddrMask,
) -> SearchOutcome {
    let params = FtsSearchParams { limit: Some(limit) };
    let lut = ScoreLookupTable::new::<Machine>(docs);
    saat_bm25_search::<Machine, RawCodec>(postings, docs, &params, mask, &lut)
}

fn rows(outcome: &SearchOutcome) -> Vec<u64> {
    let mut rows: Vec<u64> = outcome.candidates.iter().map(|c| c.row_id).collect();
    rows.sort();
    rows
}

#[test]
fn test_saat_basic() {
    let docs = make_test_docs(1000);
    let posting = make_compressed_posting((0..100u32).collect(), vec![1u32; 100]);
    let iter = term(1.0, posting);

    let results = search(&[iter], &docs, 10, &RowAddrMask::default());
    assert_eq!(results.candidates.len(), 10);
    for r in &results.candidates {
        assert!(value(r.score) > 0.0);
    }
    // All scores are equal, so the first ten documents are kept.
    assert_eq!(rows(&results), (0..10u64).collect::<Vec<u64>>());
    assert_eq!(results.comparisons, Some(100));
}

#[test]
fn test_saat_multi_term() {
    let docs = make_test_docs(1000);

    let posting1 = make_compressed_posting((0..100u32).collect(), vec![2u32; 100]);
    let iter1 = term(1.0, posting1);

    let posting2 = make_compressed_posting((50..150u32).collect(), vec![3u32; 100]);
    let iter2 = term(1.0, posting2);

    let results = search(&[iter1, iter2], &docs, 10, &RowAddrMask::default());
    assert_eq!(results.candidates.len(), 10);

    // Documents 50 to 99 match both terms and score highest.
    for r in &results.candidates {
        let doc_id = docs.doc_index_by_row_id(r.row_id).unwrap();
        assert!(
            doc_id >= 50 && doc_id < 100,
            "expected doc in overlap range, got {} (row_id={}, score={:.4})",
            doc_id,
            r.row_id,
            value(r.score),
        );
    }
}

#[test]
fn test_saat_plain_postings_match_compressed_scores() {
    let docs = make_sparse_row_id_docs();

    let compressed = term(1.0, make_compressed_posting(vec![0, 2], vec![2, 1]));
    let plain = term(1.0, make_plain_posting(vec![100, 500], vec![2.0, 1.0]));

    let compressed_results = search(&[compressed], &docs, 10, &RowAddrMask::default());
    let plain_results = search(&[plain], &docs, 10, &RowAddrMask::default());

    let compressed_scores = compressed_results
        .candidates
        .into_iter()
        .map(|doc| (doc.row_id, value(doc.score)))
        .collect::<HashMap<_, _>>();
    let plain_scores = plain_results
        .candidates
        .into_iter()
        .map(|doc| (doc.row_id, value(doc.score)))
        .collect::<HashMap<_, _>>();

    assert_eq!(plain_scores.len(), compressed_scores.len());
    assert_eq!(plain_scores.len(), 2);
    for (row_id, expected_score) in compressed_scores {
        let actual_score = plain_scores
            .get(&row_id)
            .copied()
            .unwrap_or_else(|| panic!("missing row_id {row_id} in plain posting results"));
        assert!(
            (actual_score - expected_score).abs() < 1e-6,
            "row_id={row_id}, actual_score={actual_score}, expected_score={expected_score}",
        );
    }
}

#[test]
fn test_bit_iter() {
    let word = 0b1010_0101u64;
    let positions: Vec<u32> = BitIter { word, base: 0 }.collect();
    assert_eq!(positions, vec![0, 2, 5, 7]);

    let positions: Vec<u32> = BitIter { word: 0, base: 0 }.collect();
    assert!(positions.is_empty());

    let positions: Vec<u32> = BitIter {
        word: 1u64 << 63,
        base: 64,
    }
    .collect();
    assert_eq!(positions, vec![64 + 63]);
}

#[test]
fn test_precomputed_doc_norms() {
    let docs = make_test_docs(100);
    let norms = PrecomputedDocNorms::new::<Machine>(&docs);
    // All docs have length 10, avg=10, so doc_norm = K1*(1-B+B*10/10) = K1 = 1.2
    for i in 0..100 {
        let norm = value(norms.get(i));
        assert!((norm - K1).abs() < 1e-6, "expected K1={}, got {}", K1, norm);
    }
}

#[test]
fn bit_iter_steps_from_the_lowest_bit() {
    let mut iter = BitIter { word: 0b1100, base: 128 };
    assert_eq!(iter.next(), Some(130));
    assert_eq!(iter.word, 0b1000);
    assert_eq!(iter.next(), Some(131));
    assert_eq!(iter.next(), None);
    assert_eq!(iter.next(), None);
    let all: Vec<u32> = BitIter { word: u64::MAX, base: u32::MAX - 63 }.collect();
    assert_eq!(all.len(), 64);
    assert_eq!(all[63], u32::MAX);
}

#[test]
fn doc_norms_follow_the_length() {
    let mut docs = DocSet::new();
    docs.append(7, 5);
    docs.append(8, 15);
    let norms = PrecomputedDocNorms::new::<Machine>(&docs);
    let avgdl = 10.0f32;
    for (doc, dl) in [(0u32, 5.0f32), (1, 15.0)] {
        let expected = K1 * (1.0 - B) + K1 * (B / avgdl) * dl;
        assert_eq!(value(norms.get(doc)), expected);
    }
}

#[test]
fn lookup_table_scores() {
    let mut docs = DocSet::new();
    docs.append(1, 20);
    docs.append(2, 100);
    docs.append(3, 60);
    let lut = ScoreLookupTable::new::<Machine>(&docs);
    let avgdl = 60.0f32;
    let dl_scale = 255.0f32 / 100.0;

    // From the table: the length is rounded down to its bucket.
    let bucket = (60.0f32 * dl_scale) as usize;
    let dl = bucket as f32 / dl_scale;
    let norm = K1 * (1.0 - B) + K1 * (B / avgdl) * dl;
    let tf = (K1 + 1.0) * 3.0 / (3.0 + norm);
    assert_eq!(value(lut.score::<Machine>(3, 60, bits(2.5))), 2.5 * tf);

    // A document longer than all others is in the last bucket.
    let longest = lut.score::<Machine>(3, 100, bits(2.5));
    assert_eq!(lut.score::<Machine>(3, 5000, bits(2.5)), longest);

    // No occurrence, no score.
    assert_eq!(value(lut.score::<Machine>(0, 60, bits(2.5))), 0.0);

    // By the formula from frequency 64 on.
    let f = 64.0f32;
    let norm = K1 * (1.0 - B + B * 60.0 / avgdl);
    let expected = 2.5 * (K1 + 1.0) * f / (f + norm);
    assert_eq!(value(lut.score::<Machine>(64, 60, bits(2.5))), expected);
}

#[test]
fn lookup_table_of_no_documents() {
    let docs = DocSet::new();
    let lut = ScoreLookupTable::new::<Machine>(&docs);
    // The mean length of no documents is not a number, and so is every entry.
    assert!(value(lut.score::<Machine>(1, 1, bits(1.0))).is_nan());
}

#[test]
fn accumulator_scale() {
    let acc = ScoreAccumulator::new::<Machine>(3, bits(2.0));
    assert_eq!(acc.quantize::<Machine>(bits(2.0)), 65000);
    assert_eq!(acc.quantize::<Machine>(bits(1.0)), 32500);
    let mut flat = ScoreAccumulator::new::<Machine>(3, bits(0.0));
    assert_eq!(flat.quantize::<Machine>(bits(7.9)), 7);
    flat.add_hit(1, 7);
    assert_eq!(value(flat.score::<Machine>(1)), 7.0);
}

#[test]
fn accumulator_adds_up_and_saturates() {
    let mut acc = ScoreAccumulator::new::<Machine>(200, bits(1.0));
    assert!(acc.iter_touched().is_empty());
    acc.add_hit(130, 40000);
    acc.add_hit(3, 5);
    acc.add_hit(64, 0);
    acc.add_hit(3, 6);
    assert_eq!(acc.quantized(3), 11);
    acc.add_hit(130, 40000);
    assert_eq!(acc.quantized(130), 65535);
    assert_eq!(acc.quantized(199), 0);
    // A hit of 0 touches its document.
    assert_eq!(acc.iter_touched(), vec![3, 64, 130]);
}

#[test]
fn hits_commute_and_add_up() {
    let hits = [(1u32, 30000u16), (2, 1), (1, 30000), (0, 9), (1, 30000)];
    let mut forward = ScoreAccumulator::new::<Machine>(4, bits(1.0));
    let mut backward = ScoreAccumulator::new::<Machine>(4, bits(1.0));
    for (d, q) in hits.iter() {
        forward.add_hit(*d, *q);
    }
    for (d, q) in hits.iter().rev() {
        let before = backward.quantized(*d);
        backward.add_hit(*d, *q);
        assert!(backward.quantized(*d) >= before);
    }
    for d in 0..4u32 {
        assert_eq!(forward.quantized(d), backward.quantized(d));
    }
    assert_eq!(forward.quantized(1), 65535);
    assert_eq!(forward.iter_touched(), backward.iter_touched());
    assert_eq!(forward.quantized(3), 0);
}

#[test]
fn block_of_postings() {
    let num_tokens = [4u32, 8, 16];
    let mut acc = ScoreAccumulator::new::<Machine>(3, bits(10.0));
    let b_over_avgdl = 0.1f32;
    acc.accumulate_block::<Machine>(
        &[2, 0, 2, 1, 1, 1, 1, 1, 1, 0],
        &[3, 1, 1, 2, 2, 2, 2, 2, 2, 5],
        bits(2.2),
        &num_tokens,
        bits(b_over_avgdl),
    );
    let quantized = |freq: f32, dl: f32| -> u16 {
        let norm = K1 * (1.0 - B + b_over_avgdl * dl);
        ((2.2 * freq / (freq + norm)) * (65000.0 / 10.0)) as u16
    };
    assert_eq!(acc.quantized(0), quantized(1.0, 4.0) + quantized(5.0, 4.0));
    assert_eq!(acc.quantized(1), 6 * quantized(2.0, 8.0));
    assert_eq!(acc.quantized(2), quantized(3.0, 16.0) + quantized(1.0, 16.0));
}

#[test]
fn top_k_keeps_the_best() {
    let docs = make_test_docs(10);
    let mut acc = ScoreAccumulator::new::<Machine>(10, bits(65000.0));
    for (d, q) in [(0u32, 5u16), (1, 9), (2, 7), (3, 0), (4, 9), (5, 1), (6, 8)] {
        acc.add_hit(d, q);
    }
    let all = RowAddrMask::default();
    let best = |k: usize, mask: &RowAddrMask| -> Vec<(u64, f32)> {
        let mut best: Vec<(u64, f32)> = acc
            .top_k::<Machine>(k, &docs, mask)
            .iter()
            .map(|c| (c.row_id, value(c.score)))
            .collect();
        best.sort_by(|a, b| a.0.cmp(&b.0));
        best
    };
    assert!(best(0, &all).is_empty());
    assert_eq!(best(3, &all), vec![(1, 9.0), (4, 9.0), (6, 8.0)]);
    // Of two equal scores the first comes first.
    assert_eq!(best(1, &all), vec![(1, 9.0)]);
    // A touched document without a score is no result.
    assert_eq!(best(100, &all).len(), 6);

    let blocked = RowAddrMask::BlockList(HashSet::from([1u64, 6]));
    assert_eq!(best(2, &blocked), vec![(2, 7.0), (4, 9.0)]);
    let allowed = RowAddrMask::AllowList(HashSet::from([5u64, 3, 9]));
    assert_eq!(best(2, &allowed), vec![(5, 1.0)]);
    for c in acc.top_k::<Machine>(2, &docs, &all) {
        assert!(c.freqs.is_empty());
        assert_eq!(c.doc_length, 0);
    }
}

#[test]
fn threshold_is_the_kth_score() {
    let mut acc = ScoreAccumulator::new::<Machine>(100, bits(65000.0));
    for d in 0..50u32 {
        acc.add_hit(99 - d, ((d * 7) % 50) as u16);
    }
    // The scores are 0 to 49, each once.
    for k in 1..50usize {
        let threshold = compute_threshold_fast::<Machine>(&acc, k);
        assert_eq!(value(threshold), (50 - k) as f32);
    }
    assert_eq!(value(compute_threshold_fast::<Machine>(&acc, 50)), 0.0);
    let empty = ScoreAccumulator::new::<Machine>(100, bits(65000.0));
    assert_eq!(value(compute_threshold_fast::<Machine>(&empty, 0)), 0.0);
    assert_eq!(value(compute_threshold_fast::<Machine>(&empty, 3)), 0.0);
}

#[test]
fn compressed_list_within_budget() {
    let n = 128 * 5 + 40;
    let docs = make_test_docs(1000);
    let lut = ScoreLookupTable::new::<Machine>(&docs);
    let ids: Vec<u32> = (0..n as u32).map(|i| i + 7).collect();
    let freqs: Vec<u32> = (0..n as u32).map(|i| i % 70).collect();
    for codec in [IDS_FIRST, FREQS_FIRST] {
        let list = compress(&ids, &freqs, codec);
        for budget in [0usize, 1, 127, 512, 513, 679, 680, 681, 5000] {
            let mut acc = ScoreAccumulator::new::<Machine>(1000, bits(5.0));
            let mut buffer = DecodeBuffer::new();
            let processed = process_compressed_list_with_lut::<Machine, RawCodec>(
                &list,
                bits(2.0),
                docs.num_tokens_slice(),
                &lut,
                &mut acc,
                &mut buffer,
                budget,
            );
            assert_eq!(processed, budget.min(n));
            // The buffer keeps the last batch that was decoded.
            let kept = match budget {
                0 => 0,
                1..=512 => 512,
                _ => n - 512,
            };
            assert_eq!(buffer.len(), kept);
            let touched = acc.iter_touched();
            assert_eq!(touched, ids[..processed].to_vec());
            for i in 0..processed {
                let score = lut.score::<Machine>(freqs[i], 10, bits(2.0));
                assert_eq!(acc.quantized(ids[i]), acc.quantize::<Machine>(score));
            }
        }
    }
}

#[test]
fn compressed_list_of_full_blocks() {
    let docs = make_test_docs(600);
    let ids: Vec<u32> = (0..512u32).collect();
    let freqs = vec![1u32; 512];
    let list = compress(&ids, &freqs, FREQS_FIRST);
    let mut acc = ScoreAccumulator::new::<Machine>(600, bits(2.2));
    let mut buffer = DecodeBuffer::new();
    let mut comparisons = 3usize;
    process_compressed_list::<Machine, RawCodec>(
        &list,
        bits(2.2),
        docs.num_tokens_slice(),
        &mut acc,
        &mut buffer,
        &mut comparisons,
    );
    assert_eq!(comparisons, 515);
    assert_eq!(buffer.len(), 512);
    assert_eq!(acc.iter_touched(), ids);
    let norm = K1 * (1.0 - B + 0.0 * 10.0);
    let expected = ((2.2f32 * 1.0 / (1.0 + norm)) * (65000.0 / 2.2)) as u16;
    assert_eq!(acc.quantized(511), expected);
    buffer.clear();
    assert_eq!(buffer.len(), 0);
}

#[test]
fn plain_list_passes_over_unknown_rows() {
    let docs = make_sparse_row_id_docs();
    let lut = ScoreLookupTable::new::<Machine>(&docs);
    let list = PlainPostingList {
        row_ids: vec![500, 300, 100, 200],
        frequencies: vec![bits(2.9), bits(1.0), bits(-4.0), bits(1.0)],
    };
    let mut acc = ScoreAccumulator::new::<Machine>(3, bits(3.0));
    let processed =
        process_plain_list::<Machine>(&list, bits(1.0), &docs, &lut, &mut acc, 3);
    assert_eq!(processed, 3);
    assert_eq!(acc.iter_touched(), vec![0, 2]);
    // Frequencies lose their fraction, and negative ones are 0.
    assert_eq!(acc.quantized(0), 0);
    let score = lut.score::<Machine>(2, 10, bits(1.0));
    assert_eq!(acc.quantized(2), acc.quantize::<Machine>(score));
}

#[test]
fn documents_by_row() {
    let mut docs = make_sparse_row_id_docs();
    assert_eq!(docs.len(), 3);
    assert_eq!(docs.row_id(1), 200);
    assert_eq!(docs.doc_index_by_row_id(500), Some(2));
    assert_eq!(docs.doc_index_by_row_id(501), None);
    docs.append(100, 30);
    assert_eq!(docs.doc_index_by_row_id(100), Some(0));
    assert_eq!(docs.num_tokens_slice(), &[10, 10, 10, 30]);
    assert_eq!(value(docs.average_length::<Machine>()), 15.0);
}

#[test]
fn masks() {
    let all = RowAddrMask::default();
    assert!(all.selected(0) && all.selected(u64::MAX));
    let allow = RowAddrMask::AllowList(HashSet::from([4u64]));
    assert!(allow.selected(4) && !allow.selected(5));
    let block = RowAddrMask::BlockList(HashSet::from([4u64]));
    assert!(!block.selected(4) && block.selected(5));
}

#[test]
fn terms_by_weight() {
    let list = || make_plain_posting(vec![], vec![]);
    let postings = [
        term(1.0, list()),
        term(0.0, list()),
        term(3.0, list()),
        term(f32::NAN, list()),
        term(1.0, list()),
        term(-2.0, list()),
        term(f32::INFINITY, list()),
        term(3.0, list()),
    ];
    let order = term_order(&postings);
    let places: Vec<usize> = order.iter().map(|t| t.0).collect();
    assert_eq!(places, vec![6, 2, 7, 0, 4]);
    assert_eq!(value(order[1].1), 3.0);

    let order = vec![(0usize, bits(3.0)), (1, bits(1.5)), (2, bits(0.5))];
    let sums: Vec<f32> = suffix_sums::<Machine>(&order).iter().map(|s| value(*s)).collect();
    let last = 0.0 + 0.5 * (K1 + 1.0);
    let middle = last + 1.5 * (K1 + 1.0);
    assert_eq!(sums, vec![middle + 3.0 * (K1 + 1.0), middle, last, 0.0]);
}

#[test]
fn nothing_to_search() {
    let docs = make_test_docs(10);
    let posting = || term(1.0, make_compressed_posting(vec![1], vec![1]));
    let none = search(&[posting()], &docs, 0, &RowAddrMask::default());
    assert!(none.candidates.is_empty());
    assert_eq!(none.comparisons, None);
    let lut = ScoreLookupTable::new::<Machine>(&docs);
    let unlimited = FtsSearchParams { limit: None };
    let none = saat_bm25_search::<Machine, RawCodec>(
        &[],
        &docs,
        &unlimited,
        &RowAddrMask::default(),
        &lut,
    );
    assert!(none.candidates.is_empty());
    assert_eq!(none.comparisons, None);
    // A search without a posting is a search.
    let weightless = term(0.0, make_compressed_posting(vec![1], vec![1]));
    let none = search(&[weightless], &docs, 5, &RowAddrMask::default());
    assert!(none.candidates.is_empty());
    assert_eq!(none.comparisons, Some(0));
}

#[test]
fn scores_are_quantized_sums() {
    let docs = make_test_docs(300);
    let lut = ScoreLookupTable::new::<Machine>(&docs);
    let outcome = search(
        &[
            term(0.5, make_compressed_posting(vec![4, 200], vec![1, 3])),
            term(2.0, make_compressed_posting(vec![4, 130], vec![2, 70])),
        ],
        &docs,
        10,
        &RowAddrMask::default(),
    );
    assert_eq!(outcome.comparisons, Some(4));
    let max = (0.0f32 + 0.5 * (K1 + 1.0)) + 2.0 * (K1 + 1.0);
    let scale = 65000.0f32 / max;
    let quantized = |freq: u32, weight: f32| -> u16 {
        (value(lut.score::<Machine>(freq, 10, bits(weight))) * scale) as u16
    };
    let expected = HashMap::from([
        (4u64, quantized(1, 0.5) + quantized(2, 2.0)),
        (200, quantized(3, 0.5)),
        (130, quantized(70, 2.0)),
    ]);
    assert_eq!(outcome.candidates.len(), 3);
    for c in &outcome.candidates {
        assert_eq!(value(c.score), expected[&c.row_id] as f32 * (1.0 / scale));
    }
}

#[test]
fn budget_ends_the_search() {
    let docs = make_test_docs(40_000);
    let list = || make_compressed_posting((0..40_000u32).collect(), vec![1u32; 40_000]);
    let outcome = search(
        &[term(1.0, list()), term(2.0, list()), term(0.5, list())],
        &docs,
        5,
        &RowAddrMask::default(),
    );
    // 10 postings for each of 5 results and 3 terms are below the least budget.
    assert_eq!(outcome.comparisons, Some(50_000));
    // The second term adds to the first 10000 documents only.
    assert_eq!(rows(&outcome), vec![0, 1, 2, 3, 4]);
    let other = search(
        &[term(1.0, list()), term(2.0, list())],
        &docs,
        3_000,
        &RowAddrMask::default(),
    );
    assert_eq!(other.comparisons, Some(60_000));
}

#[test]
fn light_terms_are_skipped() {
    let docs = make_test_docs(100);
    let one = |weight: f32, doc: u32| term(weight, make_compressed_posting(vec![doc], vec![4]));
    // Four terms; what the fourth can add is compared with the threshold after the third.
    let run = |last: f32| -> Option<usize> {
        search(
            &[one(10.0, 1), one(10.0, 2), one(10.0, 3), one(last, 4)],
            &docs,
            1,
            &RowAddrMask::default(),
        )
        .comparisons
    };
    let lut = ScoreLookupTable::new::<Machine>(&docs);
    let best = value(lut.score::<Machine>(4, 10, bits(10.0)));
    let limit = best * 0.05 / (K1 + 1.0);
    assert_eq!(run(limit * 1.01), Some(4));
    assert_eq!(run(limit * 0.99), Some(3));
    // With more results asked for than documents found there is no threshold.
    let outcome = search(
        &[one(10.0, 1), one(10.0, 2), one(10.0, 3), one(0.001, 4)],
        &docs,
        9,
        &RowAddrMask::default(),
    );
    assert_eq!(outcome.comparisons, Some(4));
}

#[test]
fn rows_that_are_not_selected_stay_out() {
    let docs = make_test_docs(100);
    let mask = RowAddrMask::AllowList(HashSet::from([50u64, 60, 70]));
    let outcome = search(
        &[term(1.0, make_compressed_posting((0..65u32).collect(), vec![1u32; 65]))],
        &docs,
        10,
        &mask,
    );
    assert_eq!(rows(&outcome), vec![50, 60]);
}

#[test]
fn answers_repeat() {
    let docs = make_test_docs(500);
    let run = || -> Vec<(u64, Single)> {
        let mut found: Vec<(u64, Single)> = search(
            &[
                term(1.5, make_compressed_posting((0..300u32).collect(), (0..300u32).map(|i| i % 9).collect())),
                term(0.7, make_compressed_posting((100..400u32).collect(), vec![2u32; 300])),
            ],
            &docs,
            20,
            &RowAddrMask::default(),
        )
        .candidates
        .iter()
        .map(|c| (c.row_id, c.score))
        .collect();
        found.sort();
        found
    };
    let first = run();
    assert_eq!(first.len(), 20);
    assert_eq!(first, run());
    let mut distinct = first.clone();
    distinct.dedup_by(|a, b| a.0 == b.0);
    assert_eq!(distinct.len(), 20);
}

/// The rows and scores of the results, by row.
fn results(outcome: &SearchOutcome) -> Vec<(u64, Single)> {
    let mut found: Vec<(u64, Single)> =
        outcome.candidates.iter().map(|c| (c.row_id, c.score)).collect();
    found.sort();
    found
}

#[test]
fn weightless_terms_change_nothing() {
    let docs = make_test_docs(200);
    let heavy = || term(1.5, make_compressed_posting((0..150u32).collect(), vec![3u32; 150]));
    let light = |weight: f32| {
        term(weight, make_compressed_posting((0..200u32).collect(), vec![9u32; 200]))
    };
    let without = search(&[heavy()], &docs, 7, &RowAddrMask::default());
    for weight in [0.0f32, -0.0, -1.0, f32::NAN] {
        for postings in [[heavy(), light(weight)], [light(weight), heavy()]] {
            let with = search(&postings, &docs, 7, &RowAddrMask::default());
            assert_eq!(with.comparisons, without.comparisons);
            assert_eq!(results(&with), results(&without));
        }
    }
}

#[test]
fn terms_come_in_any_order() {
    let docs = make_test_docs(300);
    let terms = |places: &[usize]| -> Vec<PostingIterator> {
        places
            .iter()
            .map(|p| {
                let p = *p as u32;
                let ids: Vec<u32> = (p * 20..p * 20 + 100).collect();
                let freqs: Vec<u32> = ids.iter().map(|i| i % 5).collect();
                term(0.3 + p as f32, make_compressed_posting(ids, freqs))
            })
            .collect()
    };
    let first = search(&terms(&[0, 1, 2, 3, 4]), &docs, 1000, &RowAddrMask::default());
    for places in [[4usize, 3, 2, 1, 0], [2, 0, 4, 1, 3], [1, 0, 3, 2, 4]] {
        let other = search(&terms(&places), &docs, 1000, &RowAddrMask::default());
        assert_eq!(other.comparisons, first.comparisons);
        assert_eq!(results(&other), results(&first));
    }
    assert!(!first.candidates.is_empty());
}

#[test]
fn unknown_rows_change_nothing() {
    let docs = make_sparse_row_id_docs();
    let known = make_plain_posting(vec![100, 500], vec![2.0, 1.0]);
    let mixed = make_plain_posting(vec![7, 100, 8, 9, 500, 10], vec![5.0, 2.0, 5.0, 5.0, 1.0, 5.0]);
    let first = search(&[term(1.0, known)], &docs, 10, &RowAddrMask::default());
    let other = search(&[term(1.0, mixed)], &docs, 10, &RowAddrMask::default());
    assert_eq!(results(&other), results(&first));
    assert_eq!(first.comparisons, Some(2));
    assert_eq!(other.comparisons, Some(6));
}

#[test]
fn mask_comes_before_the_limit() {
    let docs = make_test_docs(6);
    let scores = [(0u32, 50u16), (1, 40), (2, 30), (3, 20), (4, 10)];
    let mask = RowAddrMask::BlockList(HashSet::from([0u64, 1]));
    let mut acc = ScoreAccumulator::new::<Machine>(6, bits(65000.0));
    let mut masked = ScoreAccumulator::new::<Machine>(6, bits(65000.0));
    for (d, q) in scores {
        acc.add_hit(d, q);
        masked.add_hit(d, if mask.selected(d as u64) { q } else { 0 });
    }
    let found = |acc: &ScoreAccumulator, mask: &RowAddrMask| -> Vec<(u64, Single)> {
        let mut found: Vec<(u64, Single)> = acc
            .top_k::<Machine>(2, &docs, mask)
            .iter()
            .map(|c| (c.row_id, c.score))
            .collect();
        found.sort();
        found
    };
    assert_eq!(found(&acc, &mask), vec![(2, bits(30.0)), (3, bits(20.0))]);
    assert_eq!(found(&masked, &RowAddrMask::default()), found(&acc, &mask));
}

#[test]
fn scaling_back_keeps_order_and_sign() {
    for max in [0.001f32, 1.0, 2.2, 17.3, 65000.0, 1.0e9] {
        let mut acc = ScoreAccumulator::new::<Machine>(65536, bits(max));
        for q in 1..=65535u32 {
            acc.add_hit(q, q as u16);
        }
        for q in 0..65535u32 {
            let (low, high) = (value(acc.score::<Machine>(q)), value(acc.score::<Machine>(q + 1)));
            assert!(0.0 <= low && low < high);
        }
    }
}

#[test]
fn threshold_never_falls() {
    let mut acc = ScoreAccumulator::new::<Machine>(40, bits(65000.0));
    let mut last = vec![0.0f32; 10];
    for step in 0..200u32 {
        acc.add_hit((step * 17) % 40, (step % 23) as u16);
        for k in 1..10usize {
            let threshold = value(compute_threshold_fast::<Machine>(&acc, k));
            assert!(threshold >= last[k]);
            if k > 1 {
                assert!(threshold <= value(compute_threshold_fast::<Machine>(&acc, k - 1)));
            }
            last[k] = threshold;
        }
    }
}

#[test]
fn longer_documents_score_no_higher() {
    let mut docs = DocSet::new();
    for i in 0..50u32 {
        docs.append(i as u64, 3 + i * 13 % 200);
    }
    let lut = ScoreLookupTable::new::<Machine>(&docs);
    for freq in [0u32, 1, 2, 17, 63, 64, 65, 5000] {
        for dl in 0..300u32 {
            let short = value(lut.score::<Machine>(freq, dl, bits(1.7)));
            let long = value(lut.score::<Machine>(freq, dl + 1, bits(1.7)));
            assert!(short >= long && long >= 0.0);
            if freq == 0 {
                assert_eq!(short, 0.0);
            }
        }
    }
    let norms = PrecomputedDocNorms::new::<Machine>(&docs);
    for a in 0..50u32 {
        assert!(value(norms.get(a)) >= K1 * (1.0 - B));
        for b in 0..50u32 {
            if docs.num_tokens_slice()[a as usize] <= docs.num_tokens_slice()[b as usize] {
                assert!(value(norms.get(a)) <= value(norms.get(b)));
            }
        }
    }
}

#[test]
fn lengths_do_not_matter_in_blocks() {
    let list = compress(&[0, 3, 5], &[1, 4, 2], IDS_FIRST);
    let run = |num_tokens: &[u32]| -> Vec<u16> {
        let mut acc = ScoreAccumulator::new::<Machine>(6, bits(9.0));
        let mut comparisons = 0usize;
        process_compressed_list::<Machine, RawCodec>(
            &list,
            bits(2.2),
            num_tokens,
            &mut acc,
            &mut DecodeBuffer::new(),
            &mut comparisons,
        );
        assert_eq!(comparisons, 3);
        (0..6u32).map(|d| acc.quantized(d)).collect()
    };
    assert_eq!(run(&[1, 2, 3, 4, 5, 6]), run(&[600, 0, 9, 77, 1, u32::MAX]));
    assert!(run(&[1; 6])[3] > 0);
}

fn checked(
    postings: &[PostingIterator],
    docs: &DocSet,
    limit: Option<usize>,
) -> Option<SearchOutcome> {
    let lut = ScoreLookupTable::new::<Machine>(docs);
    checked_saat_bm25_search::<Machine, RawCodec>(
        postings,
        docs,
        &FtsSearchParams { limit },
        &RowAddrMask::default(),
        &lut,
    )
}

#[test]
fn checked_search_answers_what_can_be_searched() {
    let docs = make_test_docs(300);
    let list = || make_compressed_posting((0..300u32).collect(), vec![1u32; 300]);
    let outcome = checked(&[term(1.0, list())], &docs, Some(4)).unwrap();
    assert_eq!(rows(&outcome), vec![0, 1, 2, 3]);
    assert_eq!(outcome.comparisons, Some(300));
    assert!(checked(&[], &docs, None).unwrap().candidates.is_empty());
    assert!(checked(&[term(1.0, list())], &docs, Some(0)).unwrap().candidates.is_empty());
}

#[test]
fn checked_search_refuses_what_cannot_be_searched() {
    let docs = make_test_docs(300);
    let list = |n: u32| make_compressed_posting((0..n).collect(), vec![1u32; n as usize]);
    assert!(fits::<RawCodec>(&list(300), &docs, 1000));
    assert!(!fits::<RawCodec>(&list(301), &docs, 1000));
    assert!(fits::<RawCodec>(&list(301), &docs, 300));
    assert!(!fits::<RawCodec>(&list(301), &docs, 301));
    let short = make_plain_posting(vec![1, 999, 2], vec![1.0]);
    assert!(fits::<RawCodec>(&short, &docs, 2));
    assert!(!fits::<RawCodec>(&short, &docs, 3));
    // A posting on a document that is not there, in the last of three blocks.
    assert!(checked(&[term(1.0, list(20)), term(1.0, list(301))], &docs, Some(4)).is_none());
    // A row without a frequency.
    assert!(checked(&[term(1.0, make_plain_posting(vec![1, 2], vec![1.0]))], &docs, Some(4)).is_none());
    // A budget beyond what can be counted.
    assert!(checked(&[term(1.0, list(20))], &docs, None).is_none());
    assert!(checked(&[term(1.0, list(20))], &docs, Some(usize::MAX / 10 + 1)).is_none());
    let three = [term(1.0, list(20)), term(1.0, list(20)), term(1.0, list(20))];
    assert!(checked(&three, &docs, Some(usize::MAX / 20)).is_none());
}

#[test]
fn postings_that_are_not_reached_do_not_matter() {
    let docs = make_test_docs(300);
    let list = |n: u32| make_compressed_posting((0..n).collect(), vec![1u32; n as usize]);
    let bad = || make_plain_posting(vec![1], vec![]);
    // No results are asked for.
    let none = checked(&[term(1.0, bad())], &docs, Some(0)).unwrap();
    assert!(none.candidates.is_empty());
    assert_eq!(none.comparisons, None);
    // The term has no weight.
    let none = checked(&[term(0.0, bad())], &docs, Some(5)).unwrap();
    assert!(none.candidates.is_empty());
    assert_eq!(none.comparisons, Some(0));
    let with = checked(&[term(f32::NAN, bad()), term(1.0, list(20))], &docs, Some(5)).unwrap();
    assert_eq!(with.comparisons, Some(20));
    // The posting is beyond the budget.
    let mut ids: Vec<u32> = (0..50_000u32).map(|i| i % 300).collect();
    ids.push(300);
    let freqs = vec![1u32; ids.len()];
    let outcome = checked(&[term(1.0, make_compressed_posting(ids, freqs))], &docs, Some(5));
    assert_eq!(outcome.unwrap().comparisons, Some(50_000));
    // The term is skipped.
    let one = |weight: f32, doc: u32| term(weight, make_compressed_posting(vec![doc], vec![4]));
    let light = || make_compressed_posting(vec![300], vec![4]);
    let outcome = checked(
        &[one(10.0, 1), one(10.0, 2), one(10.0, 3), term(0.001, light())],
        &docs,
        Some(1),
    );
    assert_eq!(outcome.unwrap().comparisons, Some(3));
    let refused = checked(
        &[one(10.0, 1), one(10.0, 2), one(10.0, 3), term(9.0, light())],
        &docs,
        Some(1),
    );
    assert!(refused.is_none());
}

#[test]
fn accumulator_may_have_more_places_than_documents() {
    let docs = make_sparse_row_id_docs();
    let mut acc = ScoreAccumulator::new::<Machine>(100, bits(65000.0));
    acc.add_hit(2, 9);
    acc.add_hit(0, 5);
    acc.add_hit(70, 0);
    let best = acc.top_k::<Machine>(3, &docs, &RowAddrMask::default());
    let mut found: Vec<(u64, f32)> = best.iter().map(|c| (c.row_id, value(c.score))).collect();
    found.sort_by(|a, b| a.0.cmp(&b.0));
    assert_eq!(found, vec![(100, 5.0), (500, 9.0)]);
}

#[test]
fn scores_of_a_search_do_not_overflow() {
    // A document in which all terms occur as often as they can.
    let mut docs = DocSet::new();
    docs.append(1, 0);
    docs.append(2, 400_000);
    let lut = ScoreLookupTable::new::<Machine>(&docs);
    let weights = [7.0f32, 5.0, 3.0];
    let terms: Vec<PostingIterator> = weights
        .iter()
        .map(|w| term(*w, make_compressed_posting(vec![0, 1], vec![100_000, 1])))
        .collect();
    let outcome = search(&terms, &docs, 1, &RowAddrMask::default());
    let max = weights.iter().rev().fold(0.0f32, |sum, w| sum + w * (K1 + 1.0));
    let scale = 65000.0f32 / max;
    let sum: u32 = weights
        .iter()
        .map(|w| (value(lut.score::<Machine>(100_000, 0, bits(*w))) * scale) as u16 as u32)
        .sum();
    assert!(64_000 < sum && sum <= 65_535);
    assert_eq!(outcome.candidates[0].row_id, 1);
    assert_eq!(value(outcome.candidates[0].score), sum as f32 * (1.0 / scale));
}
