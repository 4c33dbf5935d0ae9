//! Sorting by key, equals in the order they came.

use vstd::prelude::*;

verus! {

/// Whether one item sorts ahead of another: by key, then by where it stood.
pub open spec fn ahead(keys: Seq<u128>, a: int, b: int) -> bool {
    keys[a] < keys[b] || (keys[a] == keys[b] && a < b)
}

/// Whether a list runs in sorted order.
pub open spec fn runs_sorted(keys: Seq<u128>, list: Seq<usize>) -> bool {
    forall|i: int, j: int|
        #![trigger list[i], list[j]]
        0 <= i < j < list.len() ==> ahead(keys, list[i] as int, list[j] as int)
}

/// Whether a list holds exactly the items from `low` up to `high`.
pub open spec fn holds_range(list: Seq<usize>, low: int, high: int) -> bool {
    &&& list.len() == high - low
    &&& forall|i: int| 0 <= i < list.len() ==> low <= #[trigger] list[i] < high
    &&& forall|item: int| low <= item < high ==> #[trigger] list.contains(item as usize)
}

/// The items in sorted order: every one of them, each once.
pub open spec fn is_order(keys: Seq<u128>, list: Seq<usize>) -> bool {
    &&& runs_sorted(keys, list)
    &&& holds_range(list, 0, keys.len() as int)
}

/// The order that sorts some keys, equal keys as they came.
pub fn stable_order(keys: &Vec<u128>) -> (order: Vec<usize>)
    ensures
        is_order(keys@, order@),
{
    sort_range(keys, 0, keys.len())
}

fn sort_range(keys: &Vec<u128>, low: usize, high: usize) -> (order: Vec<usize>)
    requires
        low <= high <= keys@.len(),
    ensures
        runs_sorted(keys@, order@),
        holds_range(order@, low as int, high as int),
    decreases high - low,
{
    if high - low <= 1 {
        let mut order: Vec<usize> = Vec::new();
        if low < high {
            order.push(low);
            assert(order@[0] == low);
        }
        return order;
    }
    let middle: usize = low + (high - low) / 2;
    let left = sort_range(keys, low, middle);
    let right = sort_range(keys, middle, high);
    merge(keys, left, right, Ghost(low as int), Ghost(middle as int), Ghost(high as int))
}

/// The items a merge has taken so far.
spec fn taken(left: Seq<usize>, right: Seq<usize>, i: int, j: int, merged: Seq<usize>) -> bool {
    &&& merged.len() == i + j
    &&& forall|k: int| 0 <= k < i ==> #[trigger] merged.contains(left[k])
    &&& forall|k: int| 0 <= k < j ==> #[trigger] merged.contains(right[k])
}

proof fn lemma_contains_pushed(list: Seq<usize>, item: usize, other: usize)
    ensures
        list.contains(other) || other == item ==> list.push(item).contains(other),
{
    if list.contains(other) {
        let k = choose|k: int| 0 <= k < list.len() && list[k] == other;
        assert(list.push(item)[k] == other);
    } else if other == item {
        assert(list.push(item)[list.len() as int] == other);
    }
}

fn merge(
    keys: &Vec<u128>,
    left: Vec<usize>,
    right: Vec<usize>,
    Ghost(low): Ghost<int>,
    Ghost(middle): Ghost<int>,
    Ghost(high): Ghost<int>,
) -> (merged: Vec<usize>)
    requires
        0 <= low <= middle <= high <= keys@.len(),
        runs_sorted(keys@, left@),
        runs_sorted(keys@, right@),
        holds_range(left@, low, middle),
        holds_range(right@, middle, high),
    ensures
        runs_sorted(keys@, merged@),
        holds_range(merged@, low, high),
{
    let mut merged: Vec<usize> = Vec::new();
    let mut i: usize = 0;
    let mut j: usize = 0;
    assert(keys.len() <= usize::MAX);
    while i < left.len() || j < right.len()
        invariant
            0 <= low <= middle <= high <= keys@.len(),
            i <= left@.len(),
            j <= right@.len(),
            runs_sorted(keys@, left@),
            runs_sorted(keys@, right@),
            holds_range(left@, low, middle),
            holds_range(right@, middle, high),
            runs_sorted(keys@, merged@),
            taken(left@, right@, i as int, j as int, merged@),
            forall|k: int| 0 <= k < merged@.len() ==> low <= #[trigger] merged@[k] < high,
            forall|k: int, m: int|
                #![trigger merged@[k], left@[m]]
                0 <= k < merged@.len() && i <= m < left@.len() ==> ahead(keys@, merged@[k] as int, left@[m] as int),
            forall|k: int, m: int|
                #![trigger merged@[k], right@[m]]
                0 <= k < merged@.len() && j <= m < right@.len() ==> ahead(
                    keys@,
                    merged@[k] as int,
                    right@[m] as int,
                ),
        decreases left@.len() - i + right@.len() - j,
    {
        let from_left: bool = if i == left.len() {
            false
        } else if j == right.len() {
            true
        } else {
            keys[left[i]] <= keys[right[j]]
        };
        let ghost before = merged@;
        let item: usize = if from_left {
            left[i]
        } else {
            right[j]
        };
        merged.push(item);
        proof {
            assert forall|k: int| 0 <= k < i implies #[trigger] merged@.contains(left@[k]) by {
                lemma_contains_pushed(before, item, left@[k]);
            }
            assert forall|k: int| 0 <= k < j implies #[trigger] merged@.contains(right@[k]) by {
                lemma_contains_pushed(before, item, right@[k]);
            }
            lemma_contains_pushed(before, item, item);
        }
        if from_left {
            i = i + 1;
        } else {
            j = j + 1;
        }
    }
    proof {
        assert forall|item: int| low <= item < high implies #[trigger] merged@.contains(item as usize) by {
            if item < middle {
                assert(left@.contains(item as usize));
                let k = choose|k: int| 0 <= k < left@.len() && left@[k] == item as usize;
                assert(merged@.contains(left@[k]));
            } else {
                assert(right@.contains(item as usize));
                let k = choose|k: int| 0 <= k < right@.len() && right@[k] == item as usize;
                assert(merged@.contains(right@[k]));
            }
        }
    }
    merged
}

/// Some keys have one order: two lists in sorted order of the same items agree.
pub proof fn the_order_of_keys_is_settled(keys: Seq<u128>, a: Seq<usize>, b: Seq<usize>)
    requires
        is_order(keys, a),
        is_order(keys, b),
        keys.len() <= usize::MAX,
    ensures
        a == b,
{
    lemma_orders_agree(keys, a, b, keys.len() as int);
    assert(a =~= b);
}

proof fn lemma_orders_agree(keys: Seq<u128>, a: Seq<usize>, b: Seq<usize>, upto: int)
    requires
        is_order(keys, a),
        is_order(keys, b),
        keys.len() <= usize::MAX,
        0 <= upto <= keys.len(),
    ensures
        forall|k: int| 0 <= k < upto ==> #[trigger] a[k] == b[k],
    decreases upto,
{
    if upto > 0 {
        lemma_orders_agree(keys, a, b, upto - 1);
        let k = upto - 1;
        let (x, y) = (a[k], b[k]);
        assert(a.contains(y as int as usize));
        assert(b.contains(x as int as usize));
        let m = choose|m: int| 0 <= m < a.len() && a[m] == y;
        let n = choose|n: int| 0 <= n < b.len() && b[n] == x;
        if m < k {
            assert(b[m] == y);
            assert(ahead(keys, b[m] as int, b[k] as int));
        }
        if n < k {
            assert(a[n] == x);
            assert(ahead(keys, a[n] as int, a[k] as int));
        }
        if x != y {
            assert(ahead(keys, a[k] as int, a[m] as int));
            assert(ahead(keys, b[k] as int, b[n] as int));
        }
    }
}

/// How many of the first few items are chosen.
pub open spec fn chosen(flags: Seq<bool>, upto: int) -> int
    decreases upto,
{
    if upto <= 0 {
        0
    } else {
        chosen(flags, upto - 1) + if flags[upto - 1] {
            1int
        } else {
            0int
        }
    }
}

/// Whether a list holds the chosen items and no others, in the order they came:
/// each stands behind as many as were chosen before it.
pub open spec fn picks<T>(list: Seq<T>, items: Seq<T>, flags: Seq<bool>) -> bool {
    &&& items.len() == flags.len()
    &&& list.len() == chosen(flags, flags.len() as int)
    &&& forall|k: int| 0 <= k < flags.len() && #[trigger] flags[k] ==> list[chosen(flags, k)] == items[k]
}

/// A count never passes how many there were to choose from, and passes every
/// earlier count.
pub proof fn lemma_chosen_grows(flags: Seq<bool>, a: int, b: int)
    requires
        0 <= a <= b <= flags.len(),
    ensures
        0 <= chosen(flags, a) <= chosen(flags, b) <= b,
        a < b && flags[a] ==> chosen(flags, a) < chosen(flags, b),
    decreases b,
{
    if b > 0 {
        if a < b {
            lemma_chosen_grows(flags, a, b - 1);
        } else {
            lemma_chosen_grows(flags, b - 1, b - 1);
        }
    }
}

/// A count looks only at the items it counts.
pub proof fn lemma_chosen_looks_back(a: Seq<bool>, b: Seq<bool>, upto: int)
    requires
        0 <= upto <= a.len(),
        upto <= b.len(),
        forall|k: int| 0 <= k < upto ==> #[trigger] a[k] == b[k],
    ensures
        chosen(a, upto) == chosen(b, upto),
    decreases upto,
{
    if upto > 0 {
        assert(a[upto - 1] == b[upto - 1]);
        lemma_chosen_looks_back(a, b, upto - 1);
    }
}

/// Choosing goes on item by item: a list that holds the chosen ones still does
/// after one more, with it at the end if it is chosen and without it if not.
pub proof fn lemma_picks_one_more<T>(list: Seq<T>, items: Seq<T>, flags: Seq<bool>)
    requires
        items.len() == flags.len(),
        flags.len() > 0,
        flags.last() ==> list.len() > 0 && list.last() == items.last() && picks(
            list.drop_last(),
            items.drop_last(),
            flags.drop_last(),
        ),
        !flags.last() ==> picks(list, items.drop_last(), flags.drop_last()),
    ensures
        picks(list, items, flags),
{
    let shorter = flags.drop_last();
    let n = shorter.len() as int;
    lemma_chosen_looks_back(shorter, flags, n);
    assert forall|k: int| 0 <= k < flags.len() && #[trigger] flags[k] implies list[chosen(flags, k)] == items[k] by {
        if k < n {
            assert(shorter[k]);
            lemma_chosen_looks_back(shorter, flags, k);
            lemma_chosen_grows(shorter, k, n);
            assert(items.drop_last()[k] == items[k]);
            if flags.last() {
                assert(list.drop_last()[chosen(shorter, k)] == items[k]);
            }
        }
    }
}

/// The chosen items make one list.
pub proof fn lemma_picks_settled<T>(a: Seq<T>, b: Seq<T>, items: Seq<T>, flags: Seq<bool>)
    requires
        picks(a, items, flags),
        picks(b, items, flags),
    ensures
        a == b,
{
    assert forall|at: int| 0 <= at < a.len() implies a[at] == b[at] by {
        let k = lemma_which_was_chosen(flags, at, flags.len() as int);
        assert(flags[k]);
    }
    assert(a =~= b);
}

/// The item that is chosen behind a given number of others.
proof fn lemma_which_was_chosen(flags: Seq<bool>, at: int, upto: int) -> (k: int)
    requires
        0 <= upto <= flags.len(),
        0 <= at < chosen(flags, upto),
    ensures
        0 <= k < upto,
        flags[k],
        chosen(flags, k) == at,
    decreases upto,
{
    if at < chosen(flags, upto - 1) {
        lemma_which_was_chosen(flags, at, upto - 1)
    } else {
        upto - 1
    }
}

/// Sorted keys never fall, and where two are equal the earlier item comes first.
pub proof fn a_sorted_order_never_falls(keys: Seq<u128>, list: Seq<usize>, i: int, j: int)
    requires
        is_order(keys, list),
        0 <= i < j < list.len(),
    ensures
        list.len() == keys.len(),
        keys[list[i] as int] <= keys[list[j] as int],
        keys[list[i] as int] == keys[list[j] as int] ==> list[i] < list[j],
        list[i] != list[j],
{
    assert(ahead(keys, list[i] as int, list[j] as int));
}

/// A sorted order leaves nothing out: every item is in it, at one place.
pub proof fn a_sorted_order_leaves_nothing_out(keys: Seq<u128>, list: Seq<usize>, item: usize)
    requires
        is_order(keys, list),
        item < keys.len(),
    ensures
        exists|k: int| 0 <= k < list.len() && #[trigger] list[k] == item,
        forall|i: int, j: int|
            #![trigger list[i], list[j]]
            0 <= i < list.len() && 0 <= j < list.len() && list[i] == list[j] ==> i == j,
{
    assert(list.contains(item as int as usize));
    assert forall|i: int, j: int|
        #![trigger list[i], list[j]]
        0 <= i < list.len() && 0 <= j < list.len() && list[i] == list[j] implies i == j by {
        if i < j {
            assert(ahead(keys, list[i] as int, list[j] as int));
        } else if j < i {
            assert(ahead(keys, list[j] as int, list[i] as int));
        }
    }
}

} // verus!
