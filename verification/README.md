# saat_bm25

Score-at-a-time BM25 search for full-text indexes, verified with Verus.

The terms of a query are taken one after the other, those of the greatest weight first.
Each posting adds a 16-bit quantized score to its document in a dense accumulator. A
budget bounds the number of postings, and once the terms that are left cannot add a
twentieth of the lowest score among the best documents, they are skipped. The best
documents whose rows a mask selects are returned.

## Layout

- `src/single.rs`: single-precision numbers as bit patterns, and their order. Rounding
  operations come from an implementation of `SingleArithmetic`.
- `src/bits.rs`: walking the set bits of a word.
- `src/docs.rs`: the indexed documents, and the mask of rows.
- `src/posting.rs`: posting lists, compressed (in an Arrow binary array) and plain.
  Blocks are decoded by an implementation of `BlockCodec`.
- `src/formula.rs`: BM25 scores, from a lookup table or by the formula.
- `src/heap.rs`: a binary heap of scored documents.
- `src/accumulator.rs`: the accumulator of quantized scores.
- `src/ranking.rs`: the best documents, and the score that a document has to beat.
- `src/scoring.rs`: adding the postings of a term.
- `src/search.rs`: the search.
- `src/laws.rs`: what holds of scores and of the best documents.
- `src/query_laws.rs`: what holds of whole queries.
- `src/length_laws.rs`: how scores follow the lengths of documents, where rounding keeps
  the order of numbers.
- `app/`: the search over machine floats and Arrow arrays.
- `tests/`: the library on concrete values.

## What is trusted

The three calls into `arrow-array` in `src/posting.rs`. The contracts of the search speak
of whatever numbers `SingleArithmetic` computes and whatever postings `BlockCodec`
decodes; they ask only that each is a function of its arguments.
