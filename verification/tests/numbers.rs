use saat_bm25::heap::{ScoredDoc, ScoredHeap};
use saat_bm25::single::{
    comes_before, less_than, maximum, not_a_number, B, EXIT_SHARE, INFINITY, K1, ONE,
    QUANTIZED_TOP, ZERO,
};

#[test]
fn constants_are_the_numbers_they_name() {
    assert_eq!(f32::from_bits(ZERO), 0.0);
    assert_eq!(f32::from_bits(ONE), 1.0);
    assert_eq!(f32::from_bits(K1), 1.2);
    assert_eq!(f32::from_bits(B), 0.75);
    assert_eq!(f32::from_bits(QUANTIZED_TOP), 65000.0);
    assert_eq!(f32::from_bits(EXIT_SHARE), 0.05);
    assert_eq!(f32::from_bits(INFINITY), f32::INFINITY);
}

#[test]
fn order_of_patterns_is_the_order_of_numbers() {
    let values = [
        f32::NEG_INFINITY,
        -1.5,
        -1.0e-42,
        -0.0,
        0.0,
        1.0e-42,
        1.0,
        1.0000001,
        65000.0,
        f32::MAX,
        f32::INFINITY,
        f32::NAN,
        -f32::NAN,
    ];
    for a in values {
        for b in values {
            let (x, y) = (a.to_bits(), b.to_bits());
            assert_eq!(less_than(x, y), a < b, "{a} < {b}");
            assert_eq!(comes_before(x, y), a.total_cmp(&b).is_lt(), "{a} before {b}");
            let greater = f32::from_bits(maximum(x, y));
            if a.is_nan() && b.is_nan() {
                assert!(greater.is_nan());
            } else {
                assert_eq!(greater, a.max(b));
            }
        }
        assert_eq!(not_a_number(a.to_bits()), a.is_nan());
    }
}

#[test]
fn heap_gives_the_lowest() {
    let mut heap = ScoredHeap::new();
    assert_eq!(heap.peek(), None);
    let scores = [5.0f32, 2.0, 9.0, 2.5, 7.0, 1.0, 8.0];
    for (i, s) in scores.iter().enumerate() {
        heap.push(ScoredDoc { doc_id: i as u32, score: s.to_bits() });
    }
    assert_eq!(heap.len(), 7);
    assert_eq!(heap.peek(), Some(ScoredDoc { doc_id: 5, score: 1.0f32.to_bits() }));
    let out = heap.replace_min(ScoredDoc { doc_id: 9, score: 6.0f32.to_bits() });
    assert_eq!(out.doc_id, 5);
    let out = heap.replace_min(ScoredDoc { doc_id: 10, score: 2.2f32.to_bits() });
    assert_eq!(out.doc_id, 1);
    let out = heap.replace_min(ScoredDoc { doc_id: 11, score: 3.0f32.to_bits() });
    assert_eq!(out.doc_id, 10);
    assert_eq!(heap.peek().unwrap().doc_id, 3);
    let mut ids: Vec<u32> = heap.into_items().iter().map(|x| x.doc_id).collect();
    ids.sort();
    assert_eq!(ids, vec![0, 2, 3, 4, 6, 9, 11]);
}
