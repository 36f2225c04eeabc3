//! Walking the set bits of a 64-bit word.
use vstd::prelude::*;
use vstd::std_specs::bits::{axiom_u64_trailing_zeros, u64_trailing_zeros};

verus! {

/// Whether bit `i` of `word` is set, counted from the lowest.
pub open spec fn bit_at(word: u64, i: int) -> bool {
    0 <= i < 64 && (word >> (i as u64)) & 1 == 1
}

/// Bit iterator: yields the positions of the set bits of a word, lowest first,
/// each offset by `base`.
pub struct BitIter {
    pub word: u64,
    pub base: u32,
}

impl BitIter {
    /// The lowest set bit, offset by `base`, which is then cleared. `None` once no
    /// bit is left.
    pub fn next(&mut self) -> (r: Option<u32>)
        requires
            old(self).word != 0 ==> old(self).base + u64_trailing_zeros(old(self).word)
                <= u32::MAX,
        ensures
            final(self).base == old(self).base,
            match r {
                None => old(self).word == 0 && final(self).word == 0,
                Some(p) => {
                    let i = p - old(self).base;
                    &&& bit_at(old(self).word, i)
                    &&& forall|j: int| bit_at(old(self).word, j) ==> i <= j
                    &&& forall|j: int|
                        #[trigger] bit_at(final(self).word, j) <==> bit_at(old(self).word, j) && j
                            != i
                    &&& final(self).word < old(self).word
                },
            },
    {
        if self.word == 0 {
            return None;
        }
        let word: u64 = self.word;
        let tz: u32 = word.trailing_zeros();
        proof {
            axiom_u64_trailing_zeros(word);
            lemma_clear_lowest(word, tz as u64);
        }
        self.word = word & (word - 1);
        Some(self.base + tz)
    }

    /// All positions that [`BitIter::next`] yields, in ascending order.
    pub fn collect(self) -> (positions: Vec<u32>)
        requires
            forall|i: int| #[trigger] bit_at(self.word, i) ==> self.base + i <= u32::MAX,
        ensures
            forall|i: int, j: int|
                0 <= i < j < positions.len() ==> positions[i] < positions[j],
            forall|p: u32|
                #[trigger] positions@.contains(p) <==> bit_at(self.word, p - self.base),
    {
        let mut rest: BitIter = self;
        let mut positions: Vec<u32> = Vec::new();
        while rest.word != 0
            invariant
                rest.base == self.base,
                forall|i: int| #[trigger] bit_at(self.word, i) ==> self.base + i <= u32::MAX,
                forall|i: int| #[trigger] bit_at(rest.word, i) ==> bit_at(self.word, i),
                forall|i: int, j: int|
                    0 <= i < j < positions.len() ==> positions[i] < positions[j],
                forall|i: int, j: int|
                    0 <= i < positions.len() && #[trigger] bit_at(rest.word, j)
                        ==> #[trigger] positions[i] < self.base + j,
                forall|p: u32|
                    #[trigger] positions@.contains(p) <==> bit_at(self.word, p - self.base)
                        && !bit_at(rest.word, p - self.base),
            decreases rest.word,
        {
            proof {
                axiom_u64_trailing_zeros(rest.word);
                assert(bit_at(rest.word, u64_trailing_zeros(rest.word) as int));
            }
            let ghost word = rest.word;
            let ghost before = positions@;
            match rest.next() {
                Some(p) => {
                    positions.push(p);
                    assert forall|q: u32| #[trigger] positions@.contains(q) <==> bit_at(
                        self.word,
                        q - self.base,
                    ) && !bit_at(rest.word, q - self.base) by {
                        if before.contains(q) {
                            let k = before.index_of(q);
                            assert(positions@[k] == q);
                        }
                        if q == p {
                            assert(positions@[positions@.len() - 1] == q);
                        }
                    }
                },
                None => {},
            }
        }
        proof {
            lemma_zero_word();
        }
        positions
    }
}

/// Clearing the lowest set bit changes that bit and no other.
proof fn lemma_clear_lowest(word: u64, i: u64)
    requires
        word != 0,
        i == u64_trailing_zeros(word),
    ensures
        i < 64,
        bit_at(word, i as int),
        forall|j: int| bit_at(word, j) ==> i <= j,
        word & ((word - 1) as u64) < word,
        forall|j: int|
            #[trigger] bit_at(word & ((word - 1) as u64), j) <==> bit_at(word, j) && j != i,
{
    axiom_u64_trailing_zeros(word);
    let low = ((word - 1) as u64);
    assert(word & low < word) by (bit_vector)
        requires
            word != 0,
            low == (word - 1) as u64,
    ;
    let shift = (64 - i) as u64;
    assert(word << shift == 0);
    assert forall|j: int| #[trigger] bit_at(word & low, j) <==> bit_at(word, j) && j != i by {
        if 0 <= j < 64 {
            let k = j as u64;
            assert(((word & low) >> k) & 1 == (if k == i { 0 } else { (word >> k) & 1 }))
                by (bit_vector)
                requires
                    low == (word - 1) as u64,
                    word != 0,
                    i < 64,
                    k < 64,
                    shift == (64 - i) as u64,
                    word << shift == 0,
                    (word >> i) & 1 == 1,
            ;
        }
    }
    assert forall|j: int| bit_at(word, j) implies i <= j by {
        if j < i {
            assert((word >> (j as u64)) & 1 == 0);
        }
    }
}

/// Setting bit `i` of a word changes that bit and no other.
pub(crate) proof fn lemma_set_bit(word: u64, i: u64)
    requires
        i < 64,
    ensures
        forall|j: int| #[trigger] bit_at(word | (1u64 << i), j) <==> bit_at(word, j) || j == i,
{
    assert forall|j: int| #[trigger] bit_at(word | (1u64 << i), j) <==> bit_at(word, j) || j
        == i by {
        if 0 <= j < 64 {
            let k = j as u64;
            assert(((word | (1u64 << i)) >> k) & 1 == (if k == i { 1 } else { (word >> k) & 1 }))
                by (bit_vector)
                requires
                    i < 64,
                    k < 64,
            ;
        }
    }
}

/// The word 0 has no set bit.
pub(crate) proof fn lemma_zero_word()
    ensures
        forall|j: int| !#[trigger] bit_at(0u64, j),
{
    assert forall|j: int| !#[trigger] bit_at(0u64, j) by {
        let k = j as u64;
        assert((0u64 >> k) & 1 == 0) by (bit_vector);
    }
}

} // verus!
