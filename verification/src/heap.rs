//! A binary heap of scored documents with the lowest score on top.
use vstd::multiset::Multiset;
use vstd::prelude::*;
use vstd::seq_lib::{group_to_multiset_ensures, to_multiset_insert, to_multiset_remove};

use crate::single::{comes_before, total_order, Single};

verus! {

/// A document and its score.
#[derive(Clone, Copy, Debug, PartialEq, Eq, Structural)]
pub struct ScoredDoc {
    pub doc_id: u32,
    pub score: Single,
}

impl ScoredDoc {
    /// The integer by which scored documents are ordered.
    pub open spec fn rank(self) -> int {
        total_order(self.score)
    }
}

/// Whether position `child` of a heap stands under position `parent`.
spec fn is_child(parent: int, child: int) -> bool {
    child == 2 * parent + 1 || child == 2 * parent + 2
}

/// Whether no item ranks below the one it stands under, except at position `hole`.
spec fn ordered_but(items: Seq<ScoredDoc>, hole: int) -> bool {
    forall|i: int, j: int|
        #![trigger items[i], items[j]]
        0 <= i < j < items.len() && is_child(i, j) && i != hole && j != hole ==> items[i].rank()
            <= items[j].rank()
}

/// Whether what stands over `hole` ranks at most as what stands under it.
spec fn bridged(items: Seq<ScoredDoc>, hole: int) -> bool {
    forall|i: int, j: int|
        #![trigger items[i], items[j]]
        0 <= i < j < items.len() && is_child(i, hole) && is_child(hole, j) ==> items[i].rank()
            <= items[j].rank()
}

/// A binary heap of scored documents with the lowest score on top.
pub struct ScoredHeap {
    items: Vec<ScoredDoc>,
}

impl View for ScoredHeap {
    type V = Multiset<ScoredDoc>;

    closed spec fn view(&self) -> Multiset<ScoredDoc> {
        self.items@.to_multiset()
    }
}

impl ScoredHeap {
    /// No item ranks below the one it stands under.
    pub closed spec fn wf(self) -> bool {
        ordered_but(self.items@, -1)
    }

    /// An empty heap.
    pub fn new() -> (heap: ScoredHeap)
        ensures
            heap.wf(),
            heap@ == Multiset::<ScoredDoc>::empty(),
    {
        let heap = ScoredHeap { items: Vec::new() };
        proof {
            broadcast use group_to_multiset_ensures;

            assert(heap@.len() == 0);
            assert(heap@ =~= Multiset::<ScoredDoc>::empty());
        }
        heap
    }

    /// The number of items.
    pub fn len(&self) -> (n: usize)
        ensures
            n == self@.len(),
    {
        proof {
            broadcast use group_to_multiset_ensures;

        }
        self.items.len()
    }

    /// An item that no other ranks below.
    pub fn peek(&self) -> (min: Option<ScoredDoc>)
        requires
            self.wf(),
        ensures
            match min {
                None => self@.len() == 0,
                Some(m) => self@.count(m) > 0 && forall|x: ScoredDoc|
                    #[trigger] self@.count(x) > 0 ==> m.rank() <= x.rank(),
            },
    {
        proof {
            broadcast use group_to_multiset_ensures;

        }
        if self.items.len() == 0 {
            None
        } else {
            proof {
                assert(self.items@.contains(self.items@[0]));
                assert forall|x: ScoredDoc| #[trigger] self@.count(x) > 0 implies self.items@[0].rank()
                    <= x.rank() by {
                    let k = self.items@.index_of(x);
                    lemma_top_is_least(self.items@, k);
                }
            }
            Some(self.items[0])
        }
    }

    /// Adds an item.
    pub fn push(&mut self, item: ScoredDoc)
        requires
            old(self).wf(),
        ensures
            final(self).wf(),
            final(self)@ == old(self)@.insert(item),
    {
        let ghost before = self.items@;
        self.items.push(item);
        let mut pos: usize = self.items.len() - 1;
        proof {
            broadcast use group_to_multiset_ensures;

            assert(self.items@.to_multiset() =~= before.to_multiset().insert(item));
            assert(forall|i: int| 0 <= i < before.len() ==> self.items@[i] == before[i]);
        }
        while pos > 0
            invariant_except_break
                pos < self.items.len(),
                ordered_but(self.items@, pos as int),
                bridged(self.items@, pos as int),
                forall|j: int|
                    0 <= j < self.items@.len() && is_child(pos as int, j)
                        ==> self.items@[pos as int].rank() <= (#[trigger] self.items@[j]).rank(),
            invariant
                self.items@.to_multiset() == before.to_multiset().insert(item),
            ensures
                ordered_but(self.items@, -1),
            decreases pos,
        {
            let parent: usize = (pos - 1) / 2;
            if !comes_before(self.items[pos].score, self.items[parent].score) {
                break;
            }
            let ghost items = self.items@;
            let lower: ScoredDoc = self.items[pos];
            let upper: ScoredDoc = self.items[parent];
            self.items[parent] = lower;
            self.items[pos] = upper;
            proof {
                assert(self.items@ =~= items.update(parent as int, items[pos as int]).update(
                    pos as int,
                    items[parent as int],
                ));
                lemma_swap_keeps_items(items, parent as int, pos as int);
            }
            pos = parent;
        }
    }

    /// Puts `item` in the place of an item that no other ranks below.
    pub fn replace_min(&mut self, item: ScoredDoc) -> (min: ScoredDoc)
        requires
            old(self).wf(),
            old(self)@.len() > 0,
        ensures
            final(self).wf(),
            old(self)@.count(min) > 0,
            forall|x: ScoredDoc|
                #[trigger] old(self)@.count(x) > 0 ==> min.rank() <= x.rank(),
            final(self)@ == old(self)@.remove(min).insert(item),
    {
        let ghost before = self.items@;
        proof {
            broadcast use group_to_multiset_ensures;

            assert(before.contains(before[0]));
            assert forall|x: ScoredDoc| #[trigger] before.to_multiset().count(x) > 0 implies before[0].rank()
                <= x.rank() by {
                let k = before.index_of(x);
                lemma_top_is_least(before, k);
            }
            lemma_update_changes_items(before, 0, item);
        }
        let min: ScoredDoc = self.items[0];
        self.items[0] = item;
        let mut pos: usize = 0;
        let ghost goal = before.to_multiset().remove(min).insert(item);
        loop
            invariant_except_break
                pos < self.items.len(),
                ordered_but(self.items@, pos as int),
                bridged(self.items@, pos as int),
                forall|i: int|
                    0 <= i < self.items@.len() && is_child(i, pos as int) ==> (
                    #[trigger] self.items@[i]).rank() <= self.items@[pos as int].rank(),
            invariant
                self.items@.to_multiset() == goal,
            ensures
                ordered_but(self.items@, -1),
            decreases self.items.len() - pos,
        {
            let len: usize = self.items.len();
            if pos >= len / 2 {
                break;
            }
            let left: usize = 2 * pos + 1;
            let right: usize = left + 1;
            let child: usize = if right < len && comes_before(
                self.items[right].score,
                self.items[left].score,
            ) {
                right
            } else {
                left
            };
            if !comes_before(self.items[child].score, self.items[pos].score) {
                break;
            }
            let ghost items = self.items@;
            let lower: ScoredDoc = self.items[child];
            let upper: ScoredDoc = self.items[pos];
            self.items[pos] = lower;
            self.items[child] = upper;
            proof {
                assert(self.items@ =~= items.update(pos as int, items[child as int]).update(
                    child as int,
                    items[pos as int],
                ));
                lemma_swap_keeps_items(items, pos as int, child as int);
            }
            pos = child;
        }
        min
    }

    /// The items can be listed.
    pub(crate) proof fn lemma_items(self) -> (items: Seq<ScoredDoc>)
        ensures
            items.to_multiset() == self@,
    {
        self.items@
    }

    /// The items, in no particular order.
    pub fn into_items(self) -> (items: Vec<ScoredDoc>)
        ensures
            items@.to_multiset() == self@,
    {
        self.items
    }
}

/// The item on top of a heap ranks below no other.
proof fn lemma_top_is_least(items: Seq<ScoredDoc>, j: int)
    requires
        ordered_but(items, -1),
        0 <= j < items.len(),
    ensures
        items[0].rank() <= items[j].rank(),
    decreases j,
{
    if j > 0 {
        let parent = (j - 1) / 2;
        assert(is_child(parent, j));
        lemma_top_is_least(items, parent);
        assert(items[parent].rank() <= items[j].rank());
    }
}

/// Overwriting a place takes the old item out and puts the new one in.
proof fn lemma_update_changes_items(items: Seq<ScoredDoc>, i: int, item: ScoredDoc)
    requires
        0 <= i < items.len(),
    ensures
        items.update(i, item).to_multiset() == items.to_multiset().remove(items[i]).insert(item),
{
    to_multiset_remove(items, i);
    to_multiset_insert(items.remove(i), i, item);
    assert(items.remove(i).insert(i, item) =~= items.update(i, item));
}

/// Exchanging two places leaves the items the same.
proof fn lemma_swap_keeps_items(items: Seq<ScoredDoc>, i: int, j: int)
    requires
        0 <= i < items.len(),
        0 <= j < items.len(),
        i != j,
    ensures
        items.update(i, items[j]).update(j, items[i]).to_multiset() == items.to_multiset(),
{
    broadcast use group_to_multiset_ensures;

    let once = items.update(i, items[j]);
    lemma_update_changes_items(items, i, items[j]);
    lemma_update_changes_items(once, j, items[i]);
    assert(items.contains(items[i]) && items.contains(items[j]));
    assert(once.contains(once[j]));
    assert(once.update(j, items[i]).to_multiset() =~= items.to_multiset());
}

} // verus!
