//! Posting lists: the documents that hold a term, with how often they do.
use arrow_array::{Array, LargeBinaryArray};
use vstd::prelude::*;

use crate::single::Single;

verus! {

/// The number of postings in a full block.
pub const BLOCK_SIZE: usize = 128;

/// One document of a posting list and how often the term occurs in it.
pub struct Posting {
    pub doc_id: u32,
    pub freq: u32,
}

/// The compressed blocks of a posting list, one value of an Arrow binary array each.
///
/// The array is out of sight of proofs: its type parameter is bounded by a trait of the
/// Arrow crate that cannot be named in a declaration of the type. All that is known of
/// it is what the methods below say of [`block_bytes`].
#[verifier::external_body]
pub struct PostingBlocks {
    array: LargeBinaryArray,
}

/// The bytes of each block.
pub uninterp spec fn block_bytes(blocks: PostingBlocks) -> Seq<Seq<u8>>;

/// What an Arrow binary array takes to hold `values`: their bytes, and an offset for
/// each of them.
pub open spec fn storage_size(values: Seq<Vec<u8>>) -> nat
    decreases values.len(),
{
    if values.len() == 0 {
        8
    } else {
        storage_size(values.drop_last()) + values.last()@.len() + 8
    }
}

impl PostingBlocks {
    /// The blocks whose bytes are `values`, in that order.
    pub fn new(values: &Vec<Vec<u8>>) -> (blocks: PostingBlocks)
        requires
            storage_size(values@) <= isize::MAX / 4,
        ensures
            block_bytes(blocks) == Seq::new(values@.len(), |i: int| values@[i]@),
    {
        PostingBlocks::from_values(values)
    }

    /// Calls `LargeBinaryArray::from_iter_values`, which copies the values it is given,
    /// in their order, into an array without nulls. It panics where an offset or the
    /// layout of a buffer does not fit, which the bound on the size keeps away: a
    /// buffer grows to at most twice what it has to hold, rounded up to 64 bytes.
    #[verifier::external_body]
    fn from_values(values: &Vec<Vec<u8>>) -> (blocks: PostingBlocks)
        requires
            storage_size(values@) <= isize::MAX / 4,
        ensures
            block_bytes(blocks) == Seq::new(values@.len(), |i: int| values@[i]@),
    {
        PostingBlocks { array: LargeBinaryArray::from_iter_values(values) }
    }

    /// Calls `Array::len` on the array: the number of its values.
    #[verifier::external_body]
    pub(crate) fn len(&self) -> (n: usize)
        ensures
            n == block_bytes(*self).len(),
    {
        self.array.len()
    }

    /// Calls `LargeBinaryArray::value`: the bytes of the value at index `i`. It panics
    /// on an index that is not below the length.
    #[verifier::external_body]
    pub(crate) fn value(&self, i: usize) -> (bytes: &[u8])
        requires
            i < block_bytes(*self).len(),
        ensures
            bytes@ == block_bytes(*self)[i as int],
    {
        self.array.value(i)
    }
}

/// How the last, partial block of a posting list is encoded: an identifier that is
/// handed to the decoder.
#[derive(Clone, Copy, Debug, PartialEq, Eq, Structural)]
pub struct PostingTailCodec {
    pub id: u8,
}

/// A posting list in compressed blocks of [`BLOCK_SIZE`] postings; the last block may
/// hold fewer.
pub struct CompressedPostingList {
    pub blocks: PostingBlocks,
    /// The number of postings.
    pub length: u32,
    pub posting_tail_codec: PostingTailCodec,
}

/// What decoding a block gives: for each posting a document id and a frequency.
pub struct DecodedBlock {
    pub doc_ids: Vec<u32>,
    pub freqs: Vec<u32>,
}

/// The postings whose ids and frequencies are `doc_ids` and `freqs`.
pub open spec fn paired(doc_ids: Seq<u32>, freqs: Seq<u32>) -> Seq<Posting> {
    Seq::new(doc_ids.len(), |i: int| Posting { doc_id: doc_ids[i], freq: freqs[i] })
}

/// The decoding of posting blocks.
///
/// The trait promises nothing. Each method has a specification function, by default
/// whatever the method returns; [`faithful`] says that the two agree.
pub trait BlockCodec {
    open spec fn block_spec(block: Seq<u8>) -> Seq<Posting> {
        let (_, r) = choose|bytes: &[u8], r: DecodedBlock|
            bytes@ == block && #[trigger] call_ensures(
                Self::decompress_posting_block,
                (bytes,),
                r,
            );
        paired(r.doc_ids@, r.freqs@)
    }

    open spec fn remainder_spec(
        block: Seq<u8>,
        remainder: usize,
        codec: PostingTailCodec,
    ) -> Seq<Posting> {
        let (_, r) = choose|bytes: &[u8], r: DecodedBlock|
            bytes@ == block && #[trigger] call_ensures(
                Self::decompress_posting_remainder,
                (bytes, remainder, codec),
                r,
            );
        paired(r.doc_ids@, r.freqs@)
    }

    /// Decodes a full block.
    fn decompress_posting_block(block: &[u8]) -> DecodedBlock;

    /// Decodes a last block of `remainder` postings.
    fn decompress_posting_remainder(
        block: &[u8],
        remainder: usize,
        codec: PostingTailCodec,
    ) -> DecodedBlock;
}

/// Each method of `C` returns what its specification function says, with as many
/// frequencies as document ids.
pub open spec fn faithful<C: BlockCodec>() -> bool {
    &&& forall|bytes: &[u8], r: DecodedBlock|
        #[trigger] call_ensures(C::decompress_posting_block, (bytes,), r) ==> r.doc_ids@.len()
            == r.freqs@.len() && paired(r.doc_ids@, r.freqs@) == C::block_spec(bytes@)
    &&& forall|bytes: &[u8], remainder: usize, codec: PostingTailCodec, r: DecodedBlock|
        #[trigger] call_ensures(C::decompress_posting_remainder, (bytes, remainder, codec), r)
            ==> r.doc_ids@.len() == r.freqs@.len() && paired(r.doc_ids@, r.freqs@)
            == C::remainder_spec(bytes@, remainder, codec)
}

impl CompressedPostingList {
    /// The postings of block `i`. A last block that is not full is decoded as a
    /// remainder.
    pub open spec fn block_postings<C: BlockCodec>(self, i: int) -> Seq<Posting> {
        let bytes = block_bytes(self.blocks)[i];
        let remainder = (self.length as usize) % BLOCK_SIZE;
        if i + 1 == block_bytes(self.blocks).len() && remainder != 0 {
            C::remainder_spec(bytes, remainder, self.posting_tail_codec)
        } else {
            C::block_spec(bytes)
        }
    }

    /// The postings of the blocks from `start` up to `end`.
    pub open spec fn postings_between<C: BlockCodec>(self, start: int, end: int) -> Seq<Posting>
        decreases end - start,
    {
        if end <= start {
            Seq::empty()
        } else {
            self.postings_between::<C>(start, end - 1) + self.block_postings::<C>(end - 1)
        }
    }

    /// All postings of the list, block after block.
    pub open spec fn postings<C: BlockCodec>(self) -> Seq<Posting> {
        self.postings_between::<C>(0, block_bytes(self.blocks).len() as int)
    }
}

/// A posting list by row: row ids and frequencies, side by side.
pub struct PlainPostingList {
    pub row_ids: Vec<u64>,
    pub frequencies: Vec<Single>,
}

/// The posting list of a term.
pub enum PostingList {
    Compressed(CompressedPostingList),
    Plain(PlainPostingList),
}

/// A term of a query: its posting list and how much the term weighs.
pub struct PostingIterator {
    pub list: PostingList,
    pub query_weight: Single,
}

/// What a search is asked for.
pub struct FtsSearchParams {
    /// The most results to return; no bound if `None`.
    pub limit: Option<usize>,
}

/// A document that a search returns.
pub struct DocCandidate {
    pub row_id: u64,
    pub score: Single,
    /// How often each term occurs: not recorded by this search.
    pub freqs: Vec<(u32, u32)>,
    /// The length of the document: not recorded by this search.
    pub doc_length: u32,
}

} // verus!
