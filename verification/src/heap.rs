//! A binary heap that hands out the smallest word first.

use vstd::prelude::*;
use vstd::multiset::Multiset;
use vstd::seq_lib::group_to_multiset_ensures;

verus! {

/// A min-heap of words.
pub struct MinHeap {
    items: Vec<u64>,
}

/// Where the parent of slot `i` sits.
spec fn parent(i: int) -> int {
    (i - 1) / 2
}

/// Every slot but the root and those below `hole` holds no less than its parent.
spec fn ordered_but(items: Seq<u64>, hole: int) -> bool {
    forall|i: int| #![trigger items[i]] 0 < i < items.len() && i != hole ==> items[parent(i)] <= items[i]
}

/// The children of `hole` hold no less than the parent of `hole`.
spec fn bridged(items: Seq<u64>, hole: int) -> bool {
    forall|i: int|
        #![trigger items[i]]
        0 < i < items.len() && parent(i) == hole && hole > 0 ==> items[parent(hole)] <= items[i]
}

/// Every slot holds no less than its parent, save the children of `hole`.
spec fn ordered_above(items: Seq<u64>, hole: int) -> bool {
    forall|i: int| #![trigger items[i]] 0 < i < items.len() && parent(i) != hole ==> items[parent(i)] <= items[i]
}

spec fn ordered(items: Seq<u64>) -> bool {
    forall|i: int| #![trigger items[i]] 0 < i < items.len() ==> items[parent(i)] <= items[i]
}

proof fn lemma_root_is_least(items: Seq<u64>, i: int)
    requires
        ordered(items),
        0 <= i < items.len(),
    ensures
        items[0] <= items[i],
    decreases i,
{
    if i > 0 {
        lemma_root_is_least(items, parent(i));
        assert(items[parent(i)] <= items[i]);
    }
}

spec fn swapped(items: Seq<u64>, i: int, j: int) -> Seq<u64> {
    items.update(i, items[j]).update(j, items[i])
}

proof fn lemma_swap_keeps_contents(items: Seq<u64>, i: int, j: int)
    requires
        0 <= i < items.len(),
        0 <= j < items.len(),
    ensures
        swapped(items, i, j).to_multiset() == items.to_multiset(),
{
    broadcast use group_to_multiset_ensures;
    vstd::seq_lib::to_multiset_update(items, i, items[j]);
    vstd::seq_lib::to_multiset_update(items.update(i, items[j]), j, items[i]);
    assert(swapped(items, i, j).to_multiset() =~= items.to_multiset());
}

impl View for MinHeap {
    type V = Multiset<u64>;

    closed spec fn view(&self) -> Multiset<u64> {
        self.items@.to_multiset()
    }
}

impl MinHeap {
    /// The smallest word sits at the root of every subtree.
    pub closed spec fn wf(&self) -> bool {
        ordered(self.items@)
    }

    /// An empty heap.
    pub fn new() -> (heap: MinHeap)
        ensures
            heap.wf(),
            heap@ == Multiset::<u64>::empty(),
    {
        proof {
            broadcast use group_to_multiset_ensures;
        }
        let heap = MinHeap { items: Vec::new() };
        assert(heap.items@.to_multiset().len() == 0);
        heap
    }

    /// Forgets everything.
    pub fn clear(&mut self)
        ensures
            final(self).wf(),
            final(self)@ == Multiset::<u64>::empty(),
    {
        proof {
            broadcast use group_to_multiset_ensures;
        }
        self.items.clear();
        assert(self.items@.to_multiset().len() == 0);
    }

    /// How many words wait.
    pub fn len(&self) -> (count: usize)
        ensures
            count == self@.len(),
    {
        proof {
            broadcast use group_to_multiset_ensures;
        }
        self.items.len()
    }

    fn swap(&mut self, i: usize, j: usize)
        requires
            i < old(self).items@.len(),
            j < old(self).items@.len(),
        ensures
            final(self).items@ == swapped(old(self).items@, i as int, j as int),
            final(self)@ == old(self)@,
    {
        let held: u64 = self.items[i];
        let other: u64 = self.items[j];
        self.items[i] = other;
        self.items[j] = held;
        proof {
            lemma_swap_keeps_contents(old(self).items@, i as int, j as int);
        }
    }

    /// Adds a word.
    pub fn push(&mut self, word: u64)
        requires
            old(self).wf(),
        ensures
            final(self).wf(),
            final(self)@ == old(self)@.insert(word),
    {
        proof {
            broadcast use group_to_multiset_ensures;
        }
        let mut hole: usize = self.items.len();
        self.items.push(word);
        while hole > 0
            invariant
                hole < self.items@.len(),
                ordered_but(self.items@, hole as int),
                bridged(self.items@, hole as int),
                self@ == old(self)@.insert(word),
            decreases hole,
        {
            let up: usize = (hole - 1) / 2;
            if self.items[up] <= self.items[hole] {
                return;
            }
            let ghost before = self.items@;
            self.swap(up, hole);
            assert forall|i: int| #![trigger self.items@[i]] 0 < i < self.items@.len() && i != up
                implies self.items@[parent(i)] <= self.items@[i] by {
                assert(before[i] == before[i]);
                assert(before[parent(i)] == before[parent(i)]);
                if up > 0 {
                    assert(before[parent(up as int)] <= before[up as int]);
                }
            }
            assert forall|i: int| #![trigger self.items@[i]] 0 < i < self.items@.len() && parent(i) == up && up > 0
                implies self.items@[parent(up as int)] <= self.items@[i] by {
                assert(before[parent(up as int)] <= before[up as int]);
                assert(before[i] == before[i]);
            }
            hole = up;
        }
    }

    /// Takes the smallest word out.
    pub fn pop(&mut self) -> (least: Option<u64>)
        requires
            old(self).wf(),
        ensures
            final(self).wf(),
            match least {
                Some(word) => {
                    &&& old(self)@.contains(word)
                    &&& forall|other: u64| old(self)@.contains(other) ==> word <= other
                    &&& final(self)@ == old(self)@.remove(word)
                },
                None => old(self)@.len() == 0 && final(self)@ == old(self)@,
            },
    {
        proof {
            broadcast use group_to_multiset_ensures;
        }
        let count: usize = self.items.len();
        if count == 0 {
            return None;
        }
        let ghost first = self.items@;
        let least: u64 = self.items.swap_remove(0);
        proof {
            vstd::seq_lib::to_multiset_update(first, 0, first.last());
            let moved = first.update(0, first.last());
            assert(moved.drop_last() =~= moved.remove(moved.len() - 1));
            assert(self@ =~= old(self)@.remove(least));
            assert forall|other: u64| old(self)@.contains(other) implies least <= other by {
                assert(first.contains(other));
                let i = choose|i: int| 0 <= i < first.len() && first[i] == other;
                lemma_root_is_least(first, i);
            }
            assert(first.contains(first[0]));
        }
        let mut hole: usize = 0;
        let left: usize = self.items.len();
        proof {
            assert forall|i: int| #![trigger self.items@[i]] 0 < i < self.items@.len() && parent(i) != 0
                implies self.items@[parent(i)] <= self.items@[i] by {
                assert(first[parent(i)] <= first[i]);
            }
        }
        loop
            invariant
                left == self.items@.len(),
                left > 0 ==> hole < left,
                left == 0 ==> hole == 0,
                ordered_above(self.items@, hole as int),
                bridged(self.items@, hole as int),
                self@ == old(self)@.remove(least),
                old(self)@.contains(least),
                forall|other: u64| old(self)@.contains(other) ==> least <= other,
            decreases left - hole,
        {
            if hole >= left / 2 {
                return Some(least);
            }
            let mut child: usize = 2 * hole + 1;
            if child + 1 < left && self.items[child + 1] < self.items[child] {
                child = child + 1;
            }
            assert(parent(child as int) == hole);
            if self.items[hole] <= self.items[child] {
                assert forall|i: int| #![trigger self.items@[i]] 0 < i < self.items@.len()
                    implies self.items@[parent(i)] <= self.items@[i] by {
                    if parent(i) == hole {
                        assert(i == 2 * hole + 1 || i == 2 * hole + 2);
                    }
                }
                return Some(least);
            }
            let ghost before = self.items@;
            self.swap(hole, child);
            assert forall|i: int| #![trigger self.items@[i]] 0 < i < self.items@.len() && parent(i) != child
                implies self.items@[parent(i)] <= self.items@[i] by {
                assert(before[i] == before[i]);
                if parent(i) == hole {
                    assert(i == 2 * hole + 1 || i == 2 * hole + 2);
                }
                if i == hole && hole > 0 {
                    assert(before[parent(hole as int)] <= before[child as int]);
                }
            }
            assert forall|i: int| #![trigger self.items@[i]] 0 < i < self.items@.len() && parent(i) == child
                implies self.items@[parent(child as int)] <= self.items@[i] by {
                assert(before[parent(i)] <= before[i]);
            }
            hole = child;
        }
    }
}

} // verus!
