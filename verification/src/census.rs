//! Counting what ground came out as.

use crate::order;
use crate::order::stable_order;
use std::collections::HashMap;
use vstd::prelude::*;

verus! {

/// How often an id stands in a list.
pub open spec fn occurrences(ids: Seq<u32>, id: u32) -> int
    decreases ids.len(),
{
    if ids.len() == 0 {
        0
    } else {
        occurrences(ids.drop_last(), id) + if ids.last() == id {
            1int
        } else {
            0int
        }
    }
}

/// How much of each material has been counted.
pub struct Census {
    slots: HashMap<u32, usize>,
    entries: Vec<(u32, u64)>,
    total: u64,
}

impl Census {
    /// Every material has one entry, found by its id.
    pub closed spec fn wf(&self) -> bool {
        &&& forall|id: u32|
            #[trigger] self.slots@.contains_key(id) ==> self.slots@[id] < self.entries@.len()
                && self.entries@[self.slots@[id] as int].0 == id
        &&& forall|i: int|
            #![trigger self.entries@[i]]
            0 <= i < self.entries@.len() ==> self.slots@.contains_key(self.entries@[i].0)
                && self.slots@[self.entries@[i].0] == i && 0 < self.entries@[i].1 <= self.total
    }

    /// How much of a material has been counted.
    pub closed spec fn counted(&self, id: u32) -> int {
        if self.slots@.contains_key(id) {
            self.entries@[self.slots@[id] as int].1 as int
        } else {
            0
        }
    }

    /// How much has been counted in all.
    pub closed spec fn total(&self) -> int {
        self.total as int
    }

    /// Nothing counted yet.
    pub fn new() -> (census: Census)
        ensures
            census.wf(),
            census.total() == 0,
            forall|id: u32| #[trigger] census.counted(id) == 0,
    {
        broadcast use vstd::std_specs::hash::group_hash_axioms;

        Census { slots: HashMap::new(), entries: Vec::new(), total: 0 }
    }

    /// Counts one texel.
    fn one(&mut self, id: u32)
        requires
            old(self).wf(),
            old(self).total() < u64::MAX,
        ensures
            final(self).wf(),
            final(self).total() == old(self).total() + 1,
            forall|other: u32|
                #[trigger] final(self).counted(other) == old(self).counted(other) + if other == id {
                    1int
                } else {
                    0int
                },
    {
        broadcast use vstd::std_specs::hash::group_hash_axioms;

        let found: Option<usize> = match self.slots.get(&id) {
            Some(slot) => Some(*slot),
            None => None,
        };
        match found {
            Some(slot) => {
                let count: u64 = self.entries[slot].1;
                self.total = self.total + 1;
                assert(self.entries@[slot as int].1 <= old(self).total);
                self.entries[slot] = (id, count + 1);
            },
            None => {
                self.total = self.total + 1;
                let slot: usize = self.entries.len();
                self.slots.insert(id, slot);
                self.entries.push((id, 1));
            },
        }
    }

    /// Counts the texels of a tile.
    pub fn count(&mut self, ids: &Vec<u32>)
        requires
            old(self).wf(),
            old(self).total() + ids@.len() <= u64::MAX,
        ensures
            final(self).wf(),
            final(self).total() == old(self).total() + ids@.len(),
            forall|id: u32|
                #[trigger] final(self).counted(id) == old(self).counted(id) + occurrences(ids@, id),
    {
        let mut i: usize = 0;
        assert(ids@.take(0) =~= seq![]);
        while i < ids.len()
            invariant
                i <= ids@.len(),
                self.wf(),
                old(self).total() + ids@.len() <= u64::MAX,
                self.total() == old(self).total() + i,
                forall|id: u32|
                    #[trigger] self.counted(id) == old(self).counted(id) + occurrences(ids@.take(i as int), id),
            decreases ids@.len() - i,
        {
            assert(ids@.take(i + 1).drop_last() =~= ids@.take(i as int));
            self.one(ids[i]);
            i = i + 1;
        }
        assert(ids@.take(ids@.len() as int) =~= ids@);
    }

    /// How much was counted that is anything at all.
    pub fn mapped(&self) -> (count: u64)
        requires
            self.wf(),
        ensures
            count == self.total() - self.counted(0),
    {
        broadcast use vstd::std_specs::hash::group_hash_axioms;

        match self.slots.get(&0) {
            Some(slot) => {
                assert(self.entries@[*slot as int].1 <= self.total);
                self.total - self.entries[*slot].1
            },
            None => self.total,
        }
    }

    /// Lists what was counted, commonest first and equals by id.
    pub fn ranked(&self) -> (ranks: Vec<(u32, u64)>)
        requires
            self.wf(),
        ensures
            ranking(ranks@),
            forall|i: int|
                #![trigger ranks@[i]]
                0 <= i < ranks@.len() ==> ranks@[i].1 == self.counted(ranks@[i].0) && ranks@[i].1 > 0,
            forall|id: u32| self.counted(id) > 0 ==> #[trigger] listed(ranks@, id),
    {
        let mut keys: Vec<u128> = Vec::new();
        let mut i: usize = 0;
        while i < self.entries.len()
            invariant
                i <= self.entries@.len(),
                keys@.len() == i,
                forall|k: int|
                    #![trigger keys@[k]]
                    0 <= k < i ==> keys@[k] == rank_key(self.entries@[k]),
            decreases self.entries@.len() - i,
        {
            let (id, count) = self.entries[i];
            keys.push((0xffff_ffff_ffff_ffffu64 - count) as u128 * 0x1_0000_0000u128 + id as u128);
            i = i + 1;
        }
        let sorted = stable_order(&keys);
        let mut ranks: Vec<(u32, u64)> = Vec::new();
        let mut k: usize = 0;
        while k < sorted.len()
            invariant
                k <= sorted@.len(),
                order::is_order(keys@, sorted@),
                keys@.len() == self.entries@.len(),
                ranks@.len() == k,
                forall|j: int| #![trigger ranks@[j]] 0 <= j < k ==> ranks@[j] == self.entries@[sorted@[j] as int],
            decreases sorted@.len() - k,
        {
            ranks.push(self.entries[sorted[k]]);
            k = k + 1;
        }
        proof {
            assert forall|a: int, b: int|
                #![trigger ranks@[a], ranks@[b]]
                0 <= a < b < ranks@.len() implies above(ranks@[a], ranks@[b]) by {
                let (x, y) = (sorted@[a] as int, sorted@[b] as int);
                assert(order::ahead(keys@, x, y));
                assert(keys@[x] == rank_key(self.entries@[x]) && keys@[y] == rank_key(self.entries@[y]));
                assert(self.slots@[self.entries@[x].0] == x);
                assert(self.slots@[self.entries@[y].0] == y);
            }
            assert forall|id: u32| self.counted(id) > 0 implies #[trigger] listed(ranks@, id) by {
                let slot = self.slots@[id];
                assert(self.slots@.contains_key(id));
                assert(sorted@.contains(slot as int as usize));
                let at = choose|at: int| 0 <= at < sorted@.len() && sorted@[at] == slot;
                assert(ranks@[at] == self.entries@[slot as int]);
            }
            assert forall|i: int| #![trigger ranks@[i]] 0 <= i < ranks@.len() implies ranks@[i].1 == self.counted(
                ranks@[i].0,
            ) && ranks@[i].1 > 0 by {
                let slot = sorted@[i] as int;
                assert(ranks@[i] == self.entries@[slot]);
            }
        }
        ranks
    }
}

/// The number a material is ranked by, least first.
pub open spec fn rank_key(entry: (u32, u64)) -> int {
    (u64::MAX - entry.1) * 0x1_0000_0000 + entry.0
}

/// Whether one material ranks above another: by how much there is of it, then by
/// its id.
pub open spec fn above(a: (u32, u64), b: (u32, u64)) -> bool {
    a.1 > b.1 || (a.1 == b.1 && a.0 < b.0)
}

/// Whether a list runs from the highest rank down.
pub open spec fn ranking(ranks: Seq<(u32, u64)>) -> bool {
    forall|i: int, j: int|
        #![trigger ranks[i], ranks[j]]
        0 <= i < j < ranks.len() ==> above(ranks[i], ranks[j])
}

/// Whether a material is in a list.
pub open spec fn listed(ranks: Seq<(u32, u64)>, id: u32) -> bool {
    exists|i: int| 0 <= i < ranks.len() && (#[trigger] ranks[i]).0 == id
}

/// The order in which tiles are counted does not matter.
pub proof fn counting_does_not_depend_on_the_order(a: Seq<u32>, b: Seq<u32>, id: u32)
    ensures
        occurrences(a + b, id) == occurrences(a, id) + occurrences(b, id),
        occurrences(a + b, id) == occurrences(b + a, id),
{
    lemma_occurrences_add(a, b, id);
    lemma_occurrences_add(b, a, id);
}

proof fn lemma_occurrences_add(a: Seq<u32>, b: Seq<u32>, id: u32)
    ensures
        occurrences(a + b, id) == occurrences(a, id) + occurrences(b, id),
    decreases b.len(),
{
    if b.len() == 0 {
        assert(a + b =~= a);
    } else {
        lemma_occurrences_add(a, b.drop_last(), id);
        assert((a + b).drop_last() =~= a + b.drop_last());
    }
}

/// An id is counted once for every place it stands in, and no other id is
/// counted there.
pub proof fn each_place_counts_for_its_own_id(ids: Seq<u32>, place: u32, id: u32)
    ensures
        occurrences(ids.push(place), id) == occurrences(ids, id) + if place == id {
            1int
        } else {
            0
        },
        occurrences(Seq::empty(), id) == 0,
        0 <= occurrences(ids, id) <= ids.len(),
        occurrences(ids, id) > 0 <==> exists|k: int| 0 <= k < ids.len() && #[trigger] ids[k] == id,
    decreases ids.len(),
{
    assert(ids.push(place).drop_last() =~= ids);
    if ids.len() > 0 {
        let fewer = ids.drop_last();
        each_place_counts_for_its_own_id(fewer, ids.last(), id);
        assert(fewer.push(ids.last()) =~= ids);
        if occurrences(fewer, id) > 0 {
            let k = choose|k: int| 0 <= k < fewer.len() && #[trigger] fewer[k] == id;
            assert(ids[k] == id);
        }
        if exists|k: int| 0 <= k < ids.len() && #[trigger] ids[k] == id {
            let k = choose|k: int| 0 <= k < ids.len() && #[trigger] ids[k] == id;
            if k < fewer.len() {
                assert(fewer[k] == id);
            }
        }
    }
}

/// A ranking never rises, equals come with the lower id first, and no id comes
/// twice with one count.
pub proof fn a_ranking_never_rises(ranks: Seq<(u32, u64)>, i: int, j: int)
    requires
        ranking(ranks),
        0 <= i < j < ranks.len(),
    ensures
        ranks[i].1 >= ranks[j].1,
        ranks[i].1 == ranks[j].1 ==> ranks[i].0 < ranks[j].0,
{
}

/// A material is in a list exactly where some entry of the list is of it.
pub proof fn a_material_is_listed_by_its_entry(ranks: Seq<(u32, u64)>, id: u32, i: int)
    ensures
        0 <= i < ranks.len() ==> listed(ranks, ranks[i].0),
        listed(ranks, id) ==> exists|k: int| 0 <= k < ranks.len() && (#[trigger] ranks[k]).0 == id,
{
    if 0 <= i < ranks.len() {
        assert(ranks[i].0 == ranks[i].0);
    }
}

} // verus!
