//! Columns of ids: sorted, without repeats, looked up by halving.

use vstd::prelude::*;
use crate::order;
use crate::order::stable_order;

verus! {

/// Whether ids rise strictly, so that each occurs once.
pub open spec fn rising(ids: Seq<i64>) -> bool {
    forall|i: int, j: int| #![trigger ids[i], ids[j]] 0 <= i < j < ids.len() ==> ids[i] < ids[j]
}

/// Where an id stands in a rising column, if it does.
pub fn find(ids: &Vec<i64>, id: i64) -> (at: Option<usize>)
    requires
        rising(ids@),
    ensures
        match at {
            Some(index) => index < ids@.len() && ids@[index as int] == id,
            None => !ids@.contains(id),
        },
{
    let mut low: usize = 0;
    let mut high: usize = ids.len();
    while low < high
        invariant
            low <= high <= ids@.len(),
            rising(ids@),
            forall|i: int| 0 <= i < low ==> #[trigger] ids@[i] < id,
            forall|i: int| high <= i < ids@.len() ==> #[trigger] ids@[i] > id,
        decreases high - low,
    {
        let middle: usize = low + (high - low) / 2;
        if ids[middle] == id {
            return Some(middle);
        }
        if ids[middle] < id {
            low = middle + 1;
        } else {
            high = middle;
        }
    }
    None
}

/// The sorting key of an id.
spec fn key_of(id: i64) -> int {
    id + 0x8000_0000_0000_0000
}

fn key(id: i64) -> (key: u128)
    ensures
        key == key_of(id),
{
    (id as i128 + 0x8000_0000_0000_0000) as u128
}

/// The ids of a list, sorted and each once.
pub fn sorted_unique(list: &Vec<i64>) -> (ids: Vec<i64>)
    ensures
        rising(ids@),
        forall|id: i64| #[trigger] ids@.contains(id) <==> list@.contains(id),
{
    let mut keys: Vec<u128> = Vec::new();
    let mut i: usize = 0;
    while i < list.len()
        invariant
            i <= list@.len(),
            keys@.len() == i,
            forall|k: int| 0 <= k < i ==> #[trigger] keys@[k] == key_of(list@[k]),
        decreases list@.len() - i,
    {
        keys.push(key(list[i]));
        i = i + 1;
    }
    let order = stable_order(&keys);
    let mut ids: Vec<i64> = Vec::new();
    let mut k: usize = 0;
    while k < order.len()
        invariant
            k <= order@.len(),
            keys@.len() == list@.len(),
            forall|j: int| 0 <= j < keys@.len() ==> #[trigger] keys@[j] == key_of(list@[j]),
            order::is_order(keys@, order@),
            rising(ids@),
            forall|j: int| 0 <= j < ids@.len() ==> list@.contains(#[trigger] ids@[j]),
            forall|j: int|
                #![trigger order@[j]]
                0 <= j < k ==> ids@.len() > 0 && list@[order@[j] as int] <= ids@.last() && ids@.contains(
                    list@[order@[j] as int],
                ),
            k > 0 ==> ids@.len() > 0 && ids@.last() == list@[order@[k - 1] as int],
            k == 0 ==> ids@.len() == 0,
        decreases order@.len() - k,
    {
        let item: usize = order[k];
        let id: i64 = list[item];
        assert(list@.contains(list@[item as int]));
        if k > 0 {
            assert(order::ahead(keys@, order@[k - 1] as int, order@[k as int] as int));
            assert(keys@[order@[k - 1] as int] == key_of(list@[order@[k - 1] as int]));
            assert(keys@[item as int] == key_of(id));
        }
        if ids.len() == 0 || ids[ids.len() - 1] != id {
            let ghost before = ids@;
            ids.push(id);
            proof {
                assert forall|j: int|
                    #![trigger order@[j]]
                    0 <= j < k + 1 implies list@[order@[j] as int] <= ids@.last() && ids@.contains(
                    list@[order@[j] as int],
                ) by {
                    if j < k {
                        let m = choose|m: int| 0 <= m < before.len() && before[m] == list@[order@[j] as int];
                        assert(ids@[m] == list@[order@[j] as int]);
                    } else {
                        assert(ids@[before.len() as int] == id);
                    }
                }
                assert forall|m: int| 0 <= m < before.len() implies #[trigger] ids@[m] < id by {
                    assert(before[m] <= before.last());
                }
            }
        } else {
            assert(ids@.contains(ids@.last()));
        }
        k = k + 1;
    }
    proof {
        assert forall|id: i64| #[trigger] ids@.contains(id) <==> list@.contains(id) by {
            if list@.contains(id) {
                let i = choose|i: int| 0 <= i < list@.len() && list@[i] == id;
                assert(order@.contains(i as usize));
                let j = choose|j: int| 0 <= j < order@.len() && order@[j] == i as usize;
                assert(list@[order@[j] as int] == id);
            }
            if ids@.contains(id) {
                let j = choose|j: int| 0 <= j < ids@.len() && ids@[j] == id;
                assert(list@.contains(ids@[j]));
            }
        }
    }
    ids
}

/// A rising column is settled by the ids it holds: two with the same ids agree.
pub proof fn a_rising_column_is_settled(a: Seq<i64>, b: Seq<i64>)
    requires
        rising(a),
        rising(b),
        forall|id: i64|
            #![trigger a.contains(id)]
            #![trigger b.contains(id)]
            a.contains(id) <==> b.contains(id),
    ensures
        a == b,
    decreases a.len(),
{
    if a.len() == 0 {
        if b.len() > 0 {
            assert(b.contains(b[0]));
        }
        assert(a =~= b);
    } else {
        assert(a.contains(a.last()));
        let m = choose|m: int| 0 <= m < b.len() && b[m] == a.last();
        assert(b.contains(b.last()));
        let n = choose|n: int| 0 <= n < a.len() && a[n] == b.last();
        assert(a.last() == b.last());
        let (x, y) = (a.drop_last(), b.drop_last());
        assert forall|id: i64|
            #![trigger x.contains(id)]
            #![trigger y.contains(id)]
            x.contains(id) <==> y.contains(id) by {
            if x.contains(id) {
                let i = choose|i: int| 0 <= i < x.len() && x[i] == id;
                assert(a[i] == id && a.contains(id));
                let j = choose|j: int| 0 <= j < b.len() && b[j] == id;
                assert(j < b.len() - 1);
                assert(y[j] == id);
            }
            if y.contains(id) {
                let i = choose|i: int| 0 <= i < y.len() && y[i] == id;
                assert(b[i] == id && b.contains(id));
                let j = choose|j: int| 0 <= j < a.len() && a[j] == id;
                assert(j < a.len() - 1);
                assert(x[j] == id);
            }
        }
        a_rising_column_is_settled(x, y);
        assert(a =~= x.push(a.last()));
        assert(b =~= y.push(b.last()));
    }
}

} // verus!
