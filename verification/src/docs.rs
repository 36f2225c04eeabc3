//! The indexed documents, and which of their rows a query may return.
use std::collections::{HashMap, HashSet};

use vstd::prelude::*;

use crate::single::{lawful, Single, SingleArithmetic};

verus! {

broadcast use vstd::std_specs::hash::group_hash_axioms;

/// The most documents that 32-bit document ids can tell apart.
pub const MAX_DOCS: u64 = 0x1_0000_0000;

/// What a [`DocSet`] holds: for each document id, its row and its length.
pub struct DocSetView {
    pub row_ids: Seq<u64>,
    pub num_tokens: Seq<u32>,
}

impl DocSetView {
    /// The first document of row `row_id`, if there is one.
    pub open spec fn doc_of_row(self, row_id: u64) -> Option<u32> {
        if self.row_ids.contains(row_id) {
            Some(self.row_ids.index_of_first(row_id)->0 as u32)
        } else {
            None
        }
    }

    /// The mean number of tokens in a document, as `A` computes it.
    pub open spec fn average_length<A: SingleArithmetic>(self) -> Single {
        A::over_spec(
            A::of_int_spec(token_sum(self.num_tokens) as u64),
            A::of_int_spec(self.num_tokens.len() as u64),
        )
    }
}

/// The sum of the document lengths in `num_tokens`.
pub open spec fn token_sum(num_tokens: Seq<u32>) -> nat
    decreases num_tokens.len(),
{
    if num_tokens.len() == 0 {
        0
    } else {
        token_sum(num_tokens.drop_last()) + num_tokens.last() as nat
    }
}

/// The documents of an index. Document ids are given out in the order in which
/// documents are appended, from 0.
pub struct DocSet {
    row_ids: Vec<u64>,
    num_tokens: Vec<u32>,
    /// The first document of each row.
    inv: HashMap<u64, u32>,
    total_tokens: u64,
}

impl View for DocSet {
    type V = DocSetView;

    closed spec fn view(&self) -> DocSetView {
        DocSetView { row_ids: self.row_ids@, num_tokens: self.num_tokens@ }
    }
}

impl DocSet {
    /// Every document has a row and a length, and the derived fields agree with them.
    pub closed spec fn wf(self) -> bool {
        &&& self.row_ids@.len() == self.num_tokens@.len()
        &&& self.row_ids@.len() <= MAX_DOCS
        &&& self.total_tokens == token_sum(self.num_tokens@)
        &&& forall|row_id: u64|
            #[trigger] self.inv@.contains_key(row_id) <==> self.row_ids@.contains(row_id)
        &&& forall|row_id: u64| #[trigger]
            self.inv@.contains_key(row_id) ==> is_first(
                self.row_ids@,
                row_id,
                self.inv@[row_id] as int,
            )
    }

    /// What [`DocSet::wf`] says of the contents.
    pub proof fn lemma_wf(self)
        requires
            self.wf(),
        ensures
            self@.row_ids.len() == self@.num_tokens.len(),
            self@.row_ids.len() <= MAX_DOCS,
    {
    }

    /// An empty set of documents.
    pub fn new() -> (docs: DocSet)
        ensures
            docs.wf(),
            docs@.row_ids == Seq::<u64>::empty(),
            docs@.num_tokens == Seq::<u32>::empty(),
    {
        DocSet {
            row_ids: Vec::new(),
            num_tokens: Vec::new(),
            inv: HashMap::new(),
            total_tokens: 0,
        }
    }

    /// Adds a document of row `row_id` with `num_tokens` tokens under the next id.
    pub fn append(&mut self, row_id: u64, num_tokens: u32)
        requires
            old(self).wf(),
            old(self)@.row_ids.len() < MAX_DOCS,
        ensures
            final(self).wf(),
            final(self)@.row_ids == old(self)@.row_ids.push(row_id),
            final(self)@.num_tokens == old(self)@.num_tokens.push(num_tokens),
    {
        let ghost before = *self;
        proof {
            lemma_token_sum_bound(self.num_tokens@);
            assert(self.num_tokens@.push(num_tokens).drop_last() =~= self.num_tokens@);
            assert(token_sum(self.num_tokens@) <= 0xffff_ffff * 0xffff_ffff) by (nonlinear_arith)
                requires
                    token_sum(self.num_tokens@) <= self.num_tokens@.len() * 0xffff_ffff,
                    self.num_tokens@.len() <= 0xffff_ffff,
            ;
        }
        let doc_id: u32 = self.row_ids.len() as u32;
        if !self.inv.contains_key(&row_id) {
            self.inv.insert(row_id, doc_id);
        }
        self.row_ids.push(row_id);
        self.num_tokens.push(num_tokens);
        self.total_tokens = self.total_tokens + num_tokens as u64;
        proof {
            let rows = before.row_ids@;
            assert(rows.push(row_id)[rows.len() as int] == row_id);
            assert forall|r: u64| #[trigger] self.inv@.contains_key(r) <==> rows.push(
                row_id,
            ).contains(r) by {
                if rows.contains(r) {
                    let k = rows.index_of(r);
                    assert(rows.push(row_id)[k] == r);
                }
            }
            assert forall|r: u64| #[trigger] self.inv@.contains_key(r) implies is_first(
                rows.push(row_id),
                r,
                self.inv@[r] as int,
            ) by {
                if before.inv@.contains_key(r) {
                    assert(is_first(rows, r, before.inv@[r] as int));
                } else {
                    assert(!rows.contains(r));
                }
            }
        }
    }

    /// The number of documents.
    pub fn len(&self) -> (n: usize)
        requires
            self.wf(),
        ensures
            n == self@.row_ids.len(),
            n == self@.num_tokens.len(),
    {
        self.row_ids.len()
    }

    /// The length of each document, by document id.
    pub fn num_tokens_slice(&self) -> (s: &[u32])
        ensures
            s@ == self@.num_tokens,
    {
        self.num_tokens.as_slice()
    }

    /// The row of document `doc_id`.
    pub fn row_id(&self, doc_id: u32) -> (row_id: u64)
        requires
            self.wf(),
            doc_id < self@.row_ids.len(),
        ensures
            row_id == self@.row_ids[doc_id as int],
    {
        self.row_ids[doc_id as usize]
    }

    /// The document of row `row_id`, if there is one.
    pub fn doc_index_by_row_id(&self, row_id: u64) -> (doc: Option<u32>)
        requires
            self.wf(),
        ensures
            doc == self@.doc_of_row(row_id),
            doc matches Some(d) ==> d < self@.row_ids.len() && self@.row_ids[d as int] == row_id,
    {
        match self.inv.get(&row_id) {
            Some(doc) => {
                proof {
                    let d = self.inv@[row_id] as int;
                    assert(is_first(self.row_ids@, row_id, d));
                    lemma_first_index(self.row_ids@, row_id, d);
                }
                Some(*doc)
            },
            None => None,
        }
    }

    /// The mean number of tokens in a document.
    pub fn average_length<A: SingleArithmetic>(&self) -> (avgdl: Single)
        requires
            self.wf(),
            lawful::<A>(),
        ensures
            avgdl == self@.average_length::<A>(),
    {
        A::over(A::of_int(self.total_tokens), A::of_int(self.num_tokens.len() as u64))
    }
}

/// Whether `d` is the first place of `row_id` in `rows`.
spec fn is_first(rows: Seq<u64>, row_id: u64, d: int) -> bool {
    &&& 0 <= d < rows.len()
    &&& rows[d] == row_id
    &&& forall|i: int| 0 <= i < d ==> rows[i] != row_id
}

proof fn lemma_first_index(rows: Seq<u64>, row_id: u64, d: int)
    requires
        is_first(rows, row_id, d),
    ensures
        rows.contains(row_id),
        rows.index_of_first(row_id) == Some(d),
{
    rows.index_of_first_ensures(row_id);
}

proof fn lemma_token_sum_bound(num_tokens: Seq<u32>)
    ensures
        token_sum(num_tokens) <= num_tokens.len() * 0xffff_ffff,
    decreases num_tokens.len(),
{
    if num_tokens.len() > 0 {
        lemma_token_sum_bound(num_tokens.drop_last());
    }
}

/// Which rows a query may return.
pub enum RowAddrMask {
    /// Only these rows.
    AllowList(HashSet<u64>),
    /// All rows but these.
    BlockList(HashSet<u64>),
}

impl RowAddrMask {
    /// Whether row `row_id` may be returned.
    pub open spec fn selects(self, row_id: u64) -> bool {
        match self {
            RowAddrMask::AllowList(rows) => rows@.contains(row_id),
            RowAddrMask::BlockList(rows) => !rows@.contains(row_id),
        }
    }

    /// Decides [`RowAddrMask::selects`].
    pub fn selected(&self, row_id: u64) -> (r: bool)
        ensures
            r == self.selects(row_id),
    {
        match self {
            RowAddrMask::AllowList(rows) => rows.contains(&row_id),
            RowAddrMask::BlockList(rows) => !rows.contains(&row_id),
        }
    }
}

impl Default for RowAddrMask {
    /// The mask that blocks no row.
    fn default() -> (mask: RowAddrMask)
        ensures
            forall|row_id: u64| mask.selects(row_id),
    {
        RowAddrMask::BlockList(HashSet::new())
    }
}

} // verus!
