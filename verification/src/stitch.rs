//! Chaining way fragments end to end into rings.
//!
//! A boundary arrives as arbitrary fragments: a lake shore drawn in five
//! pieces, an island in one. They only become rings when chained by shared node
//! ids. Ids, not coordinates: two ways that meet do so at the same node.

use vstd::prelude::*;
use vstd::multiset::Multiset;
use std::collections::HashMap;

verus! {

/// What the stitcher made of a pile of way fragments.
pub struct Stitched {
    /// Chains whose ends met: first and last id equal.
    pub closed: Vec<Vec<i64>>,
    /// Chains that ran out of continuations with their ends apart.
    pub open: Vec<Vec<i64>>,
}

/// The ids of some chains.
pub open spec fn ids(chains: Seq<Vec<i64>>) -> Seq<Seq<i64>> {
    chains.map_values(|chain: Vec<i64>| chain@)
}

/// A chain whose ends meet.
pub open spec fn ends_meet(chain: Seq<i64>) -> bool {
    chain.first() == chain.last()
}

/// A chain whose ends meet, long enough to bound ground.
pub open spec fn is_ring(chain: Seq<i64>) -> bool {
    chain.len() >= 4 && ends_meet(chain)
}

/// Whether the ends of a chain meet, and it is long enough to bound ground.
pub fn bounds_ground(chain: &Vec<i64>) -> (yes: bool)
    ensures
        yes == is_ring(chain@),
{
    let count: usize = chain.len();
    count >= 4 && chain[0] == chain[count - 1]
}

/// Whether a fragment starts or ends at a node.
pub open spec fn ends_at(way: Seq<i64>, id: i64) -> bool {
    way.len() >= 2 && (way.first() == id || way.last() == id)
}

/// The first unused fragment from an index on that starts or ends at a node.
pub open spec fn continuation(ways: Seq<Seq<i64>>, used: Seq<bool>, id: i64, from: int) -> Option<int>
    decreases ways.len() - from,
{
    if from >= ways.len() {
        None
    } else if !used[from] && ends_at(ways[from], id) {
        Some(from)
    } else {
        continuation(ways, used, id, from + 1)
    }
}

/// A chain with a fragment appended that starts or ends at its tail.
pub open spec fn joined(chain: Seq<i64>, way: Seq<i64>) -> Seq<i64> {
    if way.first() == chain.last() {
        chain + way.skip(1)
    } else {
        chain + way.reverse().skip(1)
    }
}

/// How many fragments are left.
pub open spec fn unused(used: Seq<bool>) -> nat
    decreases used.len(),
{
    if used.len() == 0 {
        0
    } else {
        unused(used.drop_last()) + if used.last() {
            0nat
        } else {
            1nat
        }
    }
}

/// Where a walk ended: the chain it made, the fragments used by then, and
/// whether the ends met.
pub ghost struct Walk {
    pub chain: Seq<i64>,
    pub used: Seq<bool>,
    pub closed: bool,
}

/// A walk from a chain: extend the tail with the first fragment that continues
/// it; when the tail is stuck, turn the chain round once to try the other end;
/// when both are stuck, hand it back the way round it was drawn. The walk is over
/// at once where the chain has become a ring; one too short for that walks on.
pub open spec fn walk(ways: Seq<Seq<i64>>, used: Seq<bool>, chain: Seq<i64>, flipped: bool) -> Walk
    decreases unused(used), if flipped { 0int } else { 1int },
    when used.len() == ways.len()
    via walk_decreases
{
    if is_ring(chain) {
        Walk { chain, used, closed: true }
    } else {
        match continuation(ways, used, chain.last(), 0) {
            Some(next) => walk(ways, used.update(next, true), joined(chain, ways[next]), flipped),
            None => if flipped {
                Walk { chain: chain.reverse(), used, closed: ends_meet(chain) }
            } else {
                walk(ways, used, chain.reverse(), true)
            },
        }
    }
}

#[via_fn]
proof fn walk_decreases(ways: Seq<Seq<i64>>, used: Seq<bool>, chain: Seq<i64>, flipped: bool) {
    if !is_ring(chain) {
        match continuation(ways, used, chain.last(), 0) {
            Some(next) => {
                lemma_continuation(ways, used, chain.last(), 0);
                lemma_using_one(used, next);
            },
            None => {},
        }
    }
}

/// The chains so far: those whose ends met, the open ones, and the fragments used.
pub ghost struct Pile {
    pub closed: Seq<Seq<i64>>,
    pub open: Seq<Seq<i64>>,
    pub used: Seq<bool>,
}

/// The pile once every fragment before `upto` has been used.
pub open spec fn stitched_upto(ways: Seq<Seq<i64>>, upto: int) -> Pile
    decreases upto,
{
    if upto <= 0 {
        Pile {
            closed: Seq::empty(),
            open: Seq::empty(),
            used: Seq::new(ways.len(), |i: int| ways[i].len() < 2),
        }
    } else {
        let before = stitched_upto(ways, upto - 1);
        if before.used[upto - 1] {
            before
        } else {
            let end = walk(ways, before.used.update(upto - 1, true), ways[upto - 1], false);
            if end.closed {
                Pile { closed: before.closed.push(end.chain), used: end.used, ..before }
            } else {
                Pile { open: before.open.push(end.chain), used: end.used, ..before }
            }
        }
    }
}

/// What a fragment found by looking is.
proof fn lemma_continuation(ways: Seq<Seq<i64>>, used: Seq<bool>, id: i64, from: int)
    requires
        0 <= from,
    ensures
        match continuation(ways, used, id, from) {
            Some(next) => {
                &&& from <= next < ways.len()
                &&& !used[next]
                &&& ends_at(ways[next], id)
                &&& forall|i: int| from <= i < next ==> used[i] || !ends_at(#[trigger] ways[i], id)
            },
            None => forall|i: int| from <= i < ways.len() ==> used[i] || !ends_at(#[trigger] ways[i], id),
        },
    decreases ways.len() - from,
{
    if from < ways.len() && (used[from] || !ends_at(ways[from], id)) {
        lemma_continuation(ways, used, id, from + 1);
    }
}

/// The fragment with those properties is the one looking finds.
proof fn lemma_continuation_is(ways: Seq<Seq<i64>>, used: Seq<bool>, id: i64, next: Option<int>)
    requires
        match next {
            Some(next) => {
                &&& 0 <= next < ways.len()
                &&& !used[next]
                &&& ends_at(ways[next], id)
                &&& forall|i: int| 0 <= i < next ==> used[i] || !ends_at(#[trigger] ways[i], id)
            },
            None => forall|i: int| 0 <= i < ways.len() ==> used[i] || !ends_at(#[trigger] ways[i], id),
        },
    ensures
        continuation(ways, used, id, 0) == next,
{
    lemma_continuation(ways, used, id, 0);
    let found = continuation(ways, used, id, 0);
    if let Some(a) = found {
        assert(!used[a] && ends_at(ways[a], id));
    }
    if let Some(b) = next {
        assert(!used[b] && ends_at(ways[b], id));
    }
}

proof fn lemma_using_one(used: Seq<bool>, next: int)
    requires
        0 <= next < used.len(),
        !used[next],
    ensures
        unused(used.update(next, true)) == unused(used) - 1,
    decreases used.len(),
{
    let after = used.update(next, true);
    if next == used.len() - 1 {
        assert(after.drop_last() =~= used.drop_last());
    } else {
        assert(after.drop_last() =~= used.drop_last().update(next, true));
        lemma_using_one(used.drop_last(), next);
    }
}

/// Every fragment by the nodes it ends at, in the order of the fragments.
spec fn indexed(ways: Seq<Seq<i64>>, by_end: Map<i64, Vec<usize>>, upto: int) -> bool {
    forall|id: i64|
        #![trigger by_end.contains_key(id)]
        if by_end.contains_key(id) {
            &&& forall|k: int|
                #![trigger by_end[id]@[k]]
                0 <= k < by_end[id]@.len() ==> by_end[id]@[k] < upto && ends_at(ways[by_end[id]@[k] as int], id)
            &&& forall|k: int, m: int|
                #![trigger by_end[id]@[k], by_end[id]@[m]]
                0 <= k <= m < by_end[id]@.len() ==> by_end[id]@[k] <= by_end[id]@[m]
            &&& forall|i: int|
                #![trigger ways[i]]
                0 <= i < upto && ends_at(ways[i], id) ==> by_end[id]@.contains(i as usize)
        } else {
            forall|i: int| 0 <= i < upto ==> !ends_at(#[trigger] ways[i], id)
        }
}

/// The nodes fragments end at, filed so far; while a fragment is being filed
/// its ends may be in already.
fn file_end(by_end: &mut HashMap<i64, Vec<usize>>, id: i64, index: usize)
    ensures
        final(by_end)@.contains_key(id),
        final(by_end)@[id]@ == (if old(by_end)@.contains_key(id) {
            old(by_end)@[id]@
        } else {
            Seq::empty()
        }).push(index),
        forall|other: i64|
            #![trigger final(by_end)@.contains_key(other)]
            other != id ==> final(by_end)@.contains_key(other) == old(by_end)@.contains_key(other),
        forall|other: i64|
            #![trigger final(by_end)@[other]]
            other != id && old(by_end)@.contains_key(other) ==> final(by_end)@[other] == old(by_end)@[other],
{
    broadcast use vstd::std_specs::hash::group_hash_axioms;

    let mut list: Vec<usize> = match by_end.remove(&id) {
        Some(list) => list,
        None => Vec::new(),
    };
    list.push(index);
    by_end.insert(id, list);
}

/// Files both ends of every fragment worth walking, and marks the others used.
fn index_ends(ways: &[Vec<i64>]) -> (filed: (HashMap<i64, Vec<usize>>, Vec<bool>))
    ensures
        indexed(ids(ways@), filed.0@, ways@.len() as int),
        filed.1@ == Seq::new(ways@.len(), |i: int| ids(ways@)[i].len() < 2),
{
    broadcast use vstd::std_specs::hash::group_hash_axioms;

    let ghost all = ids(ways@);
    let mut by_end: HashMap<i64, Vec<usize>> = HashMap::new();
    let mut used: Vec<bool> = Vec::new();
    let mut index: usize = 0;
    while index < ways.len()
        invariant
            index <= ways@.len(),
            all == ids(ways@),
            indexed(all, by_end@, index as int),
            used@ =~= Seq::new(index as nat, |i: int| all[i].len() < 2),
        decreases ways@.len() - index,
    {
        let way: &Vec<i64> = &ways[index];
        assert(way@ == all[index as int]);
        let count: usize = way.len();
        let ghost before = by_end@;
        if count < 2 {
            used.push(true);
            proof {
                lemma_short_way_needs_no_filing(all, before, index as int);
            }
        } else {
            used.push(false);
            file_end(&mut by_end, way[0], index);
            let ghost middle = by_end@;
            file_end(&mut by_end, way[count - 1], index);
            proof {
                lemma_way_filed(all, before, middle, by_end@, index as int);
            }
        }
        index = index + 1;
    }
    (by_end, used)
}

proof fn lemma_short_way_needs_no_filing(ways: Seq<Seq<i64>>, by_end: Map<i64, Vec<usize>>, index: int)
    requires
        0 <= index < ways.len(),
        indexed(ways, by_end, index),
        ways[index].len() < 2,
    ensures
        indexed(ways, by_end, index + 1),
{
    assert forall|id: i64| #![trigger by_end.contains_key(id)] by_end.contains_key(id) implies forall|i: int|
        #![trigger ways[i]]
        0 <= i < index + 1 && ends_at(ways[i], id) ==> by_end[id]@.contains(i as usize) by {
    }
}

/// Whether a list of fragments is another with one index at its end once or
/// twice more.
spec fn filed_in(before: Map<i64, Vec<usize>>, after: Map<i64, Vec<usize>>, id: i64, index: int) -> bool {
    let base = if before.contains_key(id) {
        before[id]@
    } else {
        Seq::empty()
    };
    &&& after.contains_key(id)
    &&& after[id]@ == base.push(index as usize) || after[id]@ == base.push(index as usize).push(index as usize)
}

proof fn lemma_way_filed(
    ways: Seq<Seq<i64>>,
    before: Map<i64, Vec<usize>>,
    middle: Map<i64, Vec<usize>>,
    after: Map<i64, Vec<usize>>,
    index: int,
)
    requires
        0 <= index < ways.len(),
        index <= usize::MAX,
        indexed(ways, before, index),
        ways[index].len() >= 2,
        ({
            let (a, b) = (ways[index].first(), ways[index].last());
            &&& middle.contains_key(a)
            &&& middle[a]@ == (if before.contains_key(a) {
                before[a]@
            } else {
                Seq::empty()
            }).push(index as usize)
            &&& forall|id: i64|
                #![trigger middle.contains_key(id)]
                id != a ==> middle.contains_key(id) == before.contains_key(id)
            &&& forall|id: i64| #![trigger middle[id]] id != a && before.contains_key(id) ==> middle[id] == before[id]
            &&& after.contains_key(b)
            &&& after[b]@ == (if middle.contains_key(b) {
                middle[b]@
            } else {
                Seq::empty()
            }).push(index as usize)
            &&& forall|id: i64|
                #![trigger after.contains_key(id)]
                id != b ==> after.contains_key(id) == middle.contains_key(id)
            &&& forall|id: i64| #![trigger after[id]] id != b && middle.contains_key(id) ==> after[id] == middle[id]
        }),
    ensures
        indexed(ways, after, index + 1),
{
    let (a, b) = (ways[index].first(), ways[index].last());
    assert forall|id: i64| #![trigger after.contains_key(id)] if after.contains_key(id) {
        &&& forall|k: int|
            #![trigger after[id]@[k]]
            0 <= k < after[id]@.len() ==> after[id]@[k] < index + 1 && ends_at(ways[after[id]@[k] as int], id)
        &&& forall|k: int, m: int|
            #![trigger after[id]@[k], after[id]@[m]]
            0 <= k <= m < after[id]@.len() ==> after[id]@[k] <= after[id]@[m]
        &&& forall|i: int|
            #![trigger ways[i]]
            0 <= i < index + 1 && ends_at(ways[i], id) ==> after[id]@.contains(i as usize)
    } else {
        forall|i: int| 0 <= i < index + 1 ==> !ends_at(#[trigger] ways[i], id)
    } by {
        assert(middle.contains_key(id) || !middle.contains_key(id));
        assert(before.contains_key(id) || !before.contains_key(id));
        if id == a || id == b {
            assert(filed_in(before, after, id, index)) by {
                if id != b {
                    assert(after[id] == middle[id]);
                } else if id != a && before.contains_key(id) {
                    assert(middle[id] == before[id]);
                }
            }
            let base = if before.contains_key(id) {
                before[id]@
            } else {
                Seq::empty()
            };
            lemma_list_filed(ways, base, after[id]@, id, index);
        } else if after.contains_key(id) {
            assert(after[id] == middle[id]);
            assert(middle[id] == before[id]);
        }
    }
}

proof fn lemma_list_filed(ways: Seq<Seq<i64>>, base: Seq<usize>, list: Seq<usize>, id: i64, index: int)
    requires
        0 <= index < ways.len(),
        index <= usize::MAX,
        ends_at(ways[index], id),
        list == base.push(index as usize) || list == base.push(index as usize).push(index as usize),
        forall|k: int| #![trigger base[k]] 0 <= k < base.len() ==> base[k] < index && ends_at(ways[base[k] as int], id),
        forall|k: int, m: int| #![trigger base[k], base[m]] 0 <= k <= m < base.len() ==> base[k] <= base[m],
        forall|i: int| #![trigger ways[i]] 0 <= i < index && ends_at(ways[i], id) ==> base.contains(i as usize),
    ensures
        forall|k: int|
            #![trigger list[k]]
            0 <= k < list.len() ==> list[k] < index + 1 && ends_at(ways[list[k] as int], id),
        forall|k: int, m: int| #![trigger list[k], list[m]] 0 <= k <= m < list.len() ==> list[k] <= list[m],
        forall|i: int| #![trigger ways[i]] 0 <= i < index + 1 && ends_at(ways[i], id) ==> list.contains(i as usize),
{
    assert forall|k: int| 0 <= k < base.len() implies #[trigger] base[k] == list[k] by {}
    assert forall|i: int| #![trigger ways[i]] 0 <= i < index + 1 && ends_at(ways[i], id) implies list.contains(
        i as usize,
    ) by {
        if i < index {
            let k = choose|k: int| 0 <= k < base.len() && base[k] == i as usize;
            assert(list[k] == i as usize);
        } else {
            assert(list[base.len() as int] == i as usize);
        }
    }
}

/// The first unused fragment that starts or ends at a node.
fn next_way(ways: &[Vec<i64>], by_end: &HashMap<i64, Vec<usize>>, used: &Vec<bool>, id: i64) -> (next: Option<usize>)
    requires
        indexed(ids(ways@), by_end@, ways@.len() as int),
        used@.len() == ways@.len(),
    ensures
        match next {
            Some(index) => continuation(ids(ways@), used@, id, 0) == Some(index as int) && index < ways@.len(),
            None => continuation(ids(ways@), used@, id, 0) is None,
        },
{
    broadcast use vstd::std_specs::hash::group_hash_axioms;

    let ghost all = ids(ways@);
    proof {
        assert(ways.len() <= usize::MAX);
        assert(by_end@.contains_key(id) || !by_end@.contains_key(id));
    }
    match by_end.get(&id) {
        Some(list) => {
            let mut k: usize = 0;
            while k < list.len()
                invariant
                    k <= list@.len(),
                    all == ids(ways@),
                    indexed(all, by_end@, ways@.len() as int),
                    used@.len() == ways@.len(),
                    by_end@.contains_key(id),
                    list@ == by_end@[id]@,
                    forall|m: int| 0 <= m < k ==> used@[(#[trigger] list@[m]) as int],
                decreases list@.len() - k,
            {
                let index: usize = list[k];
                assert(list@[k as int] == by_end@[id]@[k as int]);
                assert(index < ways@.len() && ends_at(all[index as int], id));
                if !used[index] {
                    proof {
                        assert forall|i: int| 0 <= i < index implies used@[i] || !ends_at(#[trigger] all[i], id) by {
                            if ends_at(all[i], id) {
                                let m = choose|m: int| 0 <= m < list@.len() && list@[m] == i as usize;
                                if m >= k {
                                    assert(by_end@[id]@[k as int] <= by_end@[id]@[m]);
                                }
                            }
                        }
                        lemma_continuation_is(all, used@, id, Some(index as int));
                    }
                    return Some(index);
                }
                k = k + 1;
            }
            proof {
                assert forall|i: int| 0 <= i < all.len() implies used@[i] || !ends_at(#[trigger] all[i], id) by {
                    if ends_at(all[i], id) {
                        let m = choose|m: int| 0 <= m < list@.len() && list@[m] == i as usize;
                        assert(used@[list@[m] as int]);
                    }
                }
                lemma_continuation_is(all, used@, id, None);
            }
            None
        },
        None => {
            proof {
                lemma_continuation_is(all, used@, id, None);
            }
            None
        },
    }
}

/// A chain the other way round.
fn reversed(chain: &Vec<i64>) -> (turned: Vec<i64>)
    ensures
        turned@ == chain@.reverse(),
{
    let mut turned: Vec<i64> = Vec::new();
    let mut left: usize = chain.len();
    while left > 0
        invariant
            left <= chain@.len(),
            turned@ =~= chain@.subrange(left as int, chain@.len() as int).reverse(),
        decreases left,
    {
        left = left - 1;
        turned.push(chain[left]);
    }
    assert(chain@.subrange(0, chain@.len() as int) =~= chain@);
    turned
}

/// Appends a fragment to the tail it starts or ends at.
fn append(chain: &mut Vec<i64>, way: &Vec<i64>)
    requires
        old(chain)@.len() > 0,
        ends_at(way@, old(chain)@.last()),
    ensures
        final(chain)@ == joined(old(chain)@, way@),
{
    let tail: i64 = chain[chain.len() - 1];
    if way[0] == tail {
        let mut k: usize = 1;
        while k < way.len()
            invariant
                1 <= k <= way@.len(),
                chain@ =~= old(chain)@ + way@.subrange(1, k as int),
            decreases way@.len() - k,
        {
            chain.push(way[k]);
            k = k + 1;
        }
        assert(way@.subrange(1, k as int) =~= way@.skip(1));
    } else {
        let count: usize = way.len();
        let ghost turned = way@.reverse();
        let mut k: usize = 1;
        while k < count
            invariant
                1 <= k <= count,
                count == way@.len(),
                turned == way@.reverse(),
                chain@ =~= old(chain)@ + turned.subrange(1, k as int),
            decreases count - k,
        {
            chain.push(way[count - 1 - k]);
            k = k + 1;
        }
        assert(turned.subrange(1, k as int) =~= turned.skip(1));
    }
}

/// Walks from a fragment until the chain is a ring or both its ends are stuck.
/// Returns also whether the ends met.
fn walk_from(
    ways: &[Vec<i64>],
    by_end: &HashMap<i64, Vec<usize>>,
    used: &mut Vec<bool>,
    start: usize,
) -> (end: (Vec<i64>, bool))
    requires
        indexed(ids(ways@), by_end@, ways@.len() as int),
        old(used)@.len() == ways@.len(),
        start < ways@.len(),
        !old(used)@[start as int],
        ways@[start as int]@.len() >= 2,
    ensures
        (Walk { chain: end.0@, used: final(used)@, closed: end.1 }) == walk(
            ids(ways@),
            old(used)@.update(start as int, true),
            ids(ways@)[start as int],
            false,
        ),
        final(used)@.len() == ways@.len(),
{
    let ghost all = ids(ways@);
    used[start] = true;
    let mut chain: Vec<i64> = ways[start].clone();
    assert(chain@ =~= all[start as int]);
    let mut flipped: bool = false;
    let ghost target = walk(all, used@, chain@, false);
    loop
        invariant
            all == ids(ways@),
            indexed(all, by_end@, ways@.len() as int),
            used@.len() == ways@.len(),
            chain@.len() >= 2,
            walk(all, used@, chain@, flipped) == target,
            target == walk(all, old(used)@.update(start as int, true), all[start as int], false),
        decreases unused(used@), if flipped { 0int } else { 1int },
    {
        if bounds_ground(&chain) {
            return (chain, true);
        }
        let count: usize = chain.len();
        let tail: i64 = chain[count - 1];
        match next_way(ways, by_end, used, tail) {
            Some(index) => {
                proof {
                    lemma_continuation(all, used@, tail, 0);
                    lemma_using_one(used@, index as int);
                    assert(ways@[index as int]@ == all[index as int]);
                }
                used[index] = true;
                append(&mut chain, &ways[index]);
            },
            None => {
                let met: bool = chain[0] == tail;
                chain = reversed(&chain);
                if flipped {
                    return (chain, met);
                }
                flipped = true;
            },
        }
    }
}

/// Chains way fragments end to end by shared endpoint ids.
///
/// Greedy: take an unused fragment, extend its tail with whichever unused
/// fragment starts or ends there, reversing as needed, and when the tail is
/// stuck, flip the chain once to try the other end. A junction where three
/// fragments meet takes whichever continuation comes first.
pub fn stitch(ways: &[Vec<i64>]) -> (stitched: Stitched)
    ensures
        ids(stitched.closed@) == stitched_upto(ids(ways@), ways@.len() as int).closed,
        ids(stitched.open@) == stitched_upto(ids(ways@), ways@.len() as int).open,
{
    let ghost all = ids(ways@);
    let (by_end, mut used) = index_ends(ways);
    let mut closed: Vec<Vec<i64>> = Vec::new();
    let mut open: Vec<Vec<i64>> = Vec::new();
    let mut start: usize = 0;
    while start < ways.len()
        invariant
            start <= ways@.len(),
            all == ids(ways@),
            indexed(all, by_end@, ways@.len() as int),
            used@.len() == ways@.len(),
            stitched_upto(all, start as int).used == used@,
            stitched_upto(all, start as int).closed =~= ids(closed@),
            stitched_upto(all, start as int).open =~= ids(open@),
            forall|i: int| 0 <= i < all.len() && (#[trigger] all[i]).len() < 2 ==> used@[i],
        decreases ways@.len() - start,
    {
        if !used[start] {
            let ghost before = used@;
            assert(all[start as int] == ways@[start as int]@);
            let (chain, met) = walk_from(ways, &by_end, &mut used, start);
            proof {
                let marked = before.update(start as int, true);
                lemma_walk_only_uses(all, marked, all[start as int], false);
                assert forall|i: int| 0 <= i < all.len() && (#[trigger] all[i]).len() < 2 implies used@[i] by {
                    assert(before[i] && marked[i]);
                }
            }
            if met {
                closed.push(chain);
            } else {
                open.push(chain);
            }
        }
        start = start + 1;
    }
    Stitched { closed, open }
}

/// A walk never puts a fragment back.
proof fn lemma_walk_only_uses(ways: Seq<Seq<i64>>, used: Seq<bool>, chain: Seq<i64>, flipped: bool)
    requires
        used.len() == ways.len(),
    ensures
        walk(ways, used, chain, flipped).used.len() == used.len(),
        forall|i: int| 0 <= i < used.len() && #[trigger] used[i] ==> walk(ways, used, chain, flipped).used[i],
    decreases unused(used), if flipped { 0int } else { 1int },
{
    if !is_ring(chain) {
        match continuation(ways, used, chain.last(), 0) {
            Some(next) => {
                lemma_continuation(ways, used, chain.last(), 0);
                lemma_using_one(used, next);
                let after = used.update(next, true);
                lemma_walk_only_uses(ways, after, joined(chain, ways[next]), flipped);
                assert forall|i: int| 0 <= i < used.len() && #[trigger] used[i] implies walk(
                    ways,
                    used,
                    chain,
                    flipped,
                ).used[i] by {
                    assert(after[i]);
                }
            },
            None => {
                if !flipped {
                    lemma_walk_only_uses(ways, used, chain.reverse(), true);
                }
            },
        }
    }
}

/// Two nodes a chain steps between, whichever way it goes.
pub open spec fn link(a: i64, b: i64) -> (i64, i64) {
    if a <= b {
        (a, b)
    } else {
        (b, a)
    }
}

/// Every step a chain takes.
pub open spec fn links(chain: Seq<i64>) -> Multiset<(i64, i64)>
    decreases chain.len(),
{
    if chain.len() < 2 {
        Multiset::empty()
    } else {
        links(chain.drop_last()).insert(link(chain[chain.len() - 2], chain[chain.len() - 1]))
    }
}

/// Every step some chains take between them.
pub open spec fn all_links(chains: Seq<Seq<i64>>) -> Multiset<(i64, i64)>
    decreases chains.len(),
{
    if chains.len() == 0 {
        Multiset::empty()
    } else {
        all_links(chains.drop_last()).add(links(chains.last()))
    }
}

/// Every step the unused fragments take.
spec fn links_left(ways: Seq<Seq<i64>>, used: Seq<bool>) -> Multiset<(i64, i64)>
    decreases ways.len(),
{
    if ways.len() == 0 {
        Multiset::empty()
    } else {
        links_left(ways.drop_last(), used.drop_last()).add(
            if used.last() {
                Multiset::empty()
            } else {
                links(ways.last())
            },
        )
    }
}

proof fn lemma_links_of_joined(a: Seq<i64>, b: Seq<i64>)
    requires
        a.len() > 0,
        b.len() > 0,
        a.last() == b.first(),
    ensures
        links(a + b.skip(1)) == links(a).add(links(b)),
    decreases b.len(),
{
    let whole = a + b.skip(1);
    if b.len() == 1 {
        assert(whole =~= a);
        assert(links(a).add(links(b)) =~= links(a));
    } else {
        let shorter = b.drop_last();
        lemma_links_of_joined(a, shorter);
        assert(whole.drop_last() =~= a + shorter.skip(1));
        assert(whole.last() == b.last());
        assert(whole[whole.len() - 2] == b[b.len() - 2]);
        assert(links(whole) =~= links(a).add(links(b)));
    }
}

proof fn lemma_links_of_reversed(chain: Seq<i64>)
    ensures
        links(chain.reverse()) == links(chain),
    decreases chain.len(),
{
    if chain.len() >= 2 {
        let shorter = chain.drop_last();
        lemma_links_of_reversed(shorter);
        let step = seq![chain.last(), shorter.last()];
        assert(chain.reverse() =~= step + shorter.reverse().skip(1));
        lemma_links_of_joined(step, shorter.reverse());
        assert(step.drop_last() =~= seq![chain.last()]);
        assert(links(step.drop_last()) =~= Multiset::empty());
        assert(links(step) =~= Multiset::empty().insert(link(chain.last(), shorter.last())));
        assert(links(chain.reverse()) =~= links(chain));
    }
}

proof fn lemma_links_left_after(ways: Seq<Seq<i64>>, used: Seq<bool>, next: int)
    requires
        used.len() == ways.len(),
        0 <= next < ways.len(),
        !used[next],
    ensures
        links_left(ways, used) == links_left(ways, used.update(next, true)).add(links(ways[next])),
    decreases ways.len(),
{
    let after = used.update(next, true);
    if next == ways.len() - 1 {
        assert(after.drop_last() =~= used.drop_last());
    } else {
        assert(after.drop_last() =~= used.drop_last().update(next, true));
        lemma_links_left_after(ways.drop_last(), used.drop_last(), next);
    }
    assert(links_left(ways, used) =~= links_left(ways, after).add(links(ways[next])));
}

proof fn lemma_links_left_of_none(ways: Seq<Seq<i64>>, used: Seq<bool>)
    requires
        used.len() == ways.len(),
        forall|i: int| 0 <= i < used.len() ==> #[trigger] used[i],
    ensures
        links_left(ways, used) == Multiset::<(i64, i64)>::empty(),
    decreases ways.len(),
{
    if ways.len() > 0 {
        lemma_links_left_of_none(ways.drop_last(), used.drop_last());
        assert(links_left(ways, used) =~= Multiset::empty());
    }
}

proof fn lemma_links_left_at_first(ways: Seq<Seq<i64>>)
    ensures
        links_left(ways, Seq::new(ways.len(), |i: int| ways[i].len() < 2)) == all_links(ways),
    decreases ways.len(),
{
    if ways.len() > 0 {
        let used = Seq::new(ways.len(), |i: int| ways[i].len() < 2);
        let shorter = ways.drop_last();
        assert(used.drop_last() =~= Seq::new(shorter.len(), |i: int| shorter[i].len() < 2));
        lemma_links_left_at_first(shorter);
        assert(links_left(ways, used) =~= all_links(ways));
    }
}

/// A walk moves steps from the fragments to the chain and changes none.
proof fn lemma_walk_keeps_links(ways: Seq<Seq<i64>>, used: Seq<bool>, chain: Seq<i64>, flipped: bool)
    requires
        used.len() == ways.len(),
        chain.len() > 0,
    ensures
        links(walk(ways, used, chain, flipped).chain).add(
            links_left(ways, walk(ways, used, chain, flipped).used),
        ) == links(chain).add(links_left(ways, used)),
    decreases unused(used), if flipped { 0int } else { 1int },
{
    if !is_ring(chain) {
        match continuation(ways, used, chain.last(), 0) {
            Some(next) => {
                lemma_continuation(ways, used, chain.last(), 0);
                lemma_using_one(used, next);
                let way = ways[next];
                lemma_links_left_after(ways, used, next);
                if way.first() == chain.last() {
                    lemma_links_of_joined(chain, way);
                } else {
                    lemma_links_of_joined(chain, way.reverse());
                    lemma_links_of_reversed(way);
                }
                let after = used.update(next, true);
                lemma_walk_keeps_links(ways, after, joined(chain, way), flipped);
                assert(links(chain).add(links(way)).add(links_left(ways, after)) =~= links(chain).add(
                    links_left(ways, after).add(links(way)),
                ));
            },
            None => {
                lemma_links_of_reversed(chain);
                if !flipped {
                    lemma_walk_keeps_links(ways, used, chain.reverse(), true);
                }
            },
        }
    }
}

/// Everything before `upto` is used, and nothing shorter than a step is left.
proof fn lemma_used_upto(ways: Seq<Seq<i64>>, upto: int)
    requires
        0 <= upto <= ways.len(),
    ensures
        stitched_upto(ways, upto).used.len() == ways.len(),
        forall|i: int|
            #![trigger stitched_upto(ways, upto).used[i]]
            0 <= i < ways.len() && (i < upto || ways[i].len() < 2) ==> stitched_upto(ways, upto).used[i],
    decreases upto,
{
    if upto > 0 {
        lemma_used_upto(ways, upto - 1);
        let before = stitched_upto(ways, upto - 1);
        if !before.used[upto - 1] {
            let marked = before.used.update(upto - 1, true);
            lemma_walk_only_uses(ways, marked, ways[upto - 1], false);
            assert forall|i: int|
                #![trigger stitched_upto(ways, upto).used[i]]
                0 <= i < ways.len() && (i < upto || ways[i].len() < 2) implies stitched_upto(ways, upto).used[i] by {
                assert(i == upto - 1 || before.used[i]);
                assert(marked[i]);
            }
        }
    }
}

proof fn lemma_links_upto(ways: Seq<Seq<i64>>, upto: int)
    requires
        0 <= upto <= ways.len(),
    ensures
        ({
            let pile = stitched_upto(ways, upto);
            all_links(pile.closed).add(all_links(pile.open)).add(links_left(ways, pile.used)) == all_links(ways)
        }),
    decreases upto,
{
    if upto == 0 {
        lemma_links_left_at_first(ways);
        let none = Multiset::<(i64, i64)>::empty();
        assert(none.add(none).add(all_links(ways)) =~= all_links(ways));
    } else {
        lemma_links_upto(ways, upto - 1);
        lemma_used_upto(ways, upto - 1);
        let before = stitched_upto(ways, upto - 1);
        let after = stitched_upto(ways, upto);
        if !before.used[upto - 1] {
            let way = ways[upto - 1];
            let marked = before.used.update(upto - 1, true);
            assert(way.len() >= 2);
            lemma_links_left_after(ways, before.used, upto - 1);
            lemma_walk_keeps_links(ways, marked, way, false);
            let end = walk(ways, marked, way, false);
            if end.closed {
                assert(after.closed.drop_last() =~= before.closed);
            } else {
                assert(after.open.drop_last() =~= before.open);
            }
            assert(all_links(after.closed).add(all_links(after.open)).add(links_left(ways, after.used)) =~= all_links(
                before.closed,
            ).add(all_links(before.open)).add(links(end.chain).add(links_left(ways, end.used))));
            assert(all_links(before.closed).add(all_links(before.open)).add(
                links(way).add(links_left(ways, marked)),
            ) =~= all_links(before.closed).add(all_links(before.open)).add(links_left(ways, before.used)));
        }
    }
}

/// Nothing is lost and nothing invented: the chains take exactly the steps the
/// fragments took, each as often.
pub proof fn stitching_keeps_every_step(ways: Seq<Seq<i64>>)
    ensures
        all_links(stitched_upto(ways, ways.len() as int).closed).add(
            all_links(stitched_upto(ways, ways.len() as int).open),
        ) == all_links(ways),
{
    let count = ways.len() as int;
    lemma_used_upto(ways, count);
    lemma_links_upto(ways, count);
    let pile = stitched_upto(ways, count);
    assert forall|i: int| 0 <= i < pile.used.len() implies #[trigger] pile.used[i] by {}
    lemma_links_left_of_none(ways, pile.used);
    assert(all_links(pile.closed).add(all_links(pile.open)).add(Multiset::empty()) =~= all_links(pile.closed).add(
        all_links(pile.open),
    ));
}

/// No unused fragment continues from a node.
pub open spec fn stuck(ways: Seq<Seq<i64>>, used: Seq<bool>, id: i64) -> bool {
    forall|i: int| 0 <= i < ways.len() && !used[i] ==> !ends_at(#[trigger] ways[i], id)
}

/// Whether a fragment lies along a chain the way round it is drawn.
pub open spec fn runs_along(way: Seq<i64>, chain: Seq<i64>) -> bool {
    exists|at: int| 0 <= at && at + way.len() <= chain.len() && #[trigger] chain.subrange(at, at + way.len()) == way
}

proof fn lemma_runs_along_longer(way: Seq<i64>, chain: Seq<i64>, before: Seq<i64>, after: Seq<i64>)
    requires
        runs_along(way, chain),
    ensures
        runs_along(way, before + chain + after),
{
    let at = choose|at: int|
        0 <= at && at + way.len() <= chain.len() && #[trigger] chain.subrange(at, at + way.len()) == way;
    let whole = before + chain + after;
    let from = before.len() + at;
    assert(whole.subrange(from, from + way.len()) =~= chain.subrange(at, at + way.len()));
}

/// What holds of a walk's end, given what holds of its chain.
proof fn lemma_walk_end(ways: Seq<Seq<i64>>, used: Seq<bool>, chain: Seq<i64>, flipped: bool, first: Seq<i64>)
    requires
        used.len() == ways.len(),
        chain.len() >= 2,
        flipped ==> stuck(ways, used, chain.first()) && runs_along(first, chain.reverse()),
        !flipped ==> runs_along(first, chain),
    ensures
        ({
            let end = walk(ways, used, chain, flipped);
            &&& end.chain.len() >= 2
            &&& end.closed == ends_meet(end.chain)
            &&& !end.closed ==> {
                &&& stuck(ways, end.used, end.chain.first())
                &&& stuck(ways, end.used, end.chain.last())
                &&& runs_along(first, end.chain)
            }
        }),
    decreases unused(used), if flipped { 0int } else { 1int },
{
    if !is_ring(chain) {
        match continuation(ways, used, chain.last(), 0) {
            Some(next) => {
                lemma_continuation(ways, used, chain.last(), 0);
                lemma_using_one(used, next);
                let way = ways[next];
                let longer = joined(chain, way);
                let added = if way.first() == chain.last() {
                    way.skip(1)
                } else {
                    way.reverse().skip(1)
                };
                assert(longer == chain + added);
                if flipped {
                    assert(longer.reverse() =~= added.reverse() + chain.reverse() + Seq::<i64>::empty());
                    lemma_runs_along_longer(first, chain.reverse(), added.reverse(), Seq::empty());
                    assert(longer.first() == chain.first());
                } else {
                    assert(longer =~= Seq::<i64>::empty() + chain + added);
                    lemma_runs_along_longer(first, chain, Seq::empty(), added);
                }
                let after = used.update(next, true);
                assert forall|i: int| 0 <= i < ways.len() && !after[i] implies !used[i] by {}
                lemma_walk_end(ways, after, longer, flipped, first);
            },
            None => {
                lemma_continuation(ways, used, chain.last(), 0);
                let turned = chain.reverse();
                assert(turned.reverse() =~= chain);
                assert(turned.first() == chain.last() && turned.last() == chain.first());
                if !flipped {
                    lemma_walk_end(ways, used, turned, true, first);
                }
            },
        }
    }
}

/// What holds of a node holds of the ends of a walk's chain, if it holds of the
/// ends of the chain it starts from and of those of every unused fragment.
proof fn lemma_walk_ends_are(
    ways: Seq<Seq<i64>>,
    used: Seq<bool>,
    chain: Seq<i64>,
    flipped: bool,
    holds: spec_fn(i64) -> bool,
)
    requires
        used.len() == ways.len(),
        chain.len() >= 2,
        holds(chain.first()),
        holds(chain.last()),
        forall|i: int|
            #![trigger ways[i]]
            0 <= i < ways.len() && !used[i] && ways[i].len() >= 2 ==> holds(ways[i].first()) && holds(ways[i].last()),
    ensures
        holds(walk(ways, used, chain, flipped).chain.first()),
        holds(walk(ways, used, chain, flipped).chain.last()),
    decreases unused(used), if flipped { 0int } else { 1int },
{
    if !is_ring(chain) {
        match continuation(ways, used, chain.last(), 0) {
            Some(next) => {
                lemma_continuation(ways, used, chain.last(), 0);
                lemma_using_one(used, next);
                let way = ways[next];
                let longer = joined(chain, way);
                assert(longer.first() == chain.first());
                assert(longer.last() == way.last() || longer.last() == way.first());
                lemma_walk_ends_are(ways, used.update(next, true), longer, flipped, holds);
            },
            None => {
                if !flipped {
                    lemma_walk_ends_are(ways, used, chain.reverse(), true, holds);
                }
            },
        }
    }
}

/// What holds of an open chain: its ends are apart and stuck, and it runs the way
/// some fragment is drawn.
#[verifier::opaque]
spec fn left_open(ways: Seq<Seq<i64>>, used: Seq<bool>, chain: Seq<i64>) -> bool {
    &&& chain.len() >= 2
    &&& !ends_meet(chain)
    &&& stuck(ways, used, chain.first())
    &&& stuck(ways, used, chain.last())
    &&& exists|i: int| 0 <= i < ways.len() && #[trigger] ways[i].len() >= 2 && runs_along(ways[i], chain)
}

/// What holds of the chains made before `upto`.
spec fn settled(ways: Seq<Seq<i64>>, pile: Pile) -> bool {
    &&& forall|k: int| 0 <= k < pile.closed.len() ==> ends_meet(#[trigger] pile.closed[k])
    &&& forall|k: int| 0 <= k < pile.open.len() ==> left_open(ways, pile.used, #[trigger] pile.open[k])
    &&& forall|k: int, m: int|
        #![trigger pile.open[k], pile.open[m]]
        0 <= k < m < pile.open.len() ==> apart(pile.open[k], pile.open[m])
}

/// Whether two chains have no end in common.
pub open spec fn apart(a: Seq<i64>, b: Seq<i64>) -> bool {
    &&& a.first() != b.first()
    &&& a.first() != b.last()
    &&& a.last() != b.first()
    &&& a.last() != b.last()
}

/// A way runs along itself.
proof fn lemma_runs_along_itself(way: Seq<i64>)
    ensures
        runs_along(way, way),
{
    let at: int = 0;
    assert(way.subrange(at, at + way.len()) =~= way);
}

/// A walk from an unused fragment ends apart from every chain that was stuck
/// before it.
proof fn lemma_walk_ends_apart(ways: Seq<Seq<i64>>, used: Seq<bool>, start: int, chain: Seq<i64>)
    requires
        used.len() == ways.len(),
        0 <= start < ways.len(),
        !used[start],
        ways[start].len() >= 2,
        stuck(ways, used, chain.first()),
        stuck(ways, used, chain.last()),
    ensures
        apart(chain, walk(ways, used.update(start, true), ways[start], false).chain),
{
    let way = ways[start];
    let marked = used.update(start, true);
    let holds = |id: i64| id != chain.first() && id != chain.last();
    assert forall|i: int|
        #![trigger ways[i]]
        0 <= i < ways.len() && !used[i] && ways[i].len() >= 2 implies holds(ways[i].first())
        && holds(ways[i].last()) by {
        assert(!ends_at(ways[i], chain.first()));
        assert(!ends_at(ways[i], chain.last()));
    }
    assert(holds(way.first()) && holds(way.last()));
    lemma_walk_ends_are(ways, marked, way, false, holds);
    let end = walk(ways, marked, way, false);
    assert(holds(end.chain.first()) && holds(end.chain.last()));
}

/// A node nothing continues from stays one as more fragments are used.
proof fn lemma_stuck_stays(ways: Seq<Seq<i64>>, before: Seq<bool>, after: Seq<bool>, id: i64)
    requires
        before.len() == ways.len(),
        after.len() == ways.len(),
        forall|i: int| 0 <= i < ways.len() && before[i] ==> #[trigger] after[i],
        stuck(ways, before, id),
    ensures
        stuck(ways, after, id),
{
    assert forall|i: int| 0 <= i < ways.len() && !after[i] implies !ends_at(#[trigger] ways[i], id) by {
        assert(!before[i]);
    }
}

proof fn lemma_settled_upto(ways: Seq<Seq<i64>>, upto: int)
    requires
        0 <= upto <= ways.len(),
    ensures
        settled(ways, stitched_upto(ways, upto)),
    decreases upto,
{
    if upto > 0 {
        lemma_settled_upto(ways, upto - 1);
        lemma_used_upto(ways, upto - 1);
        let before = stitched_upto(ways, upto - 1);
        if !before.used[upto - 1] {
            lemma_settled_step(ways, before, upto - 1);
        }
    }
}

proof fn lemma_settled_step(ways: Seq<Seq<i64>>, before: Pile, start: int)
    requires
        settled(ways, before),
        before.used.len() == ways.len(),
        0 <= start < ways.len(),
        !before.used[start],
        ways[start].len() >= 2,
    ensures
        ({
            let end = walk(ways, before.used.update(start, true), ways[start], false);
            settled(
                ways,
                if end.closed {
                    Pile { closed: before.closed.push(end.chain), used: end.used, ..before }
                } else {
                    Pile { open: before.open.push(end.chain), used: end.used, ..before }
                },
            )
        }),
{
    let end = walk(ways, before.used.update(start, true), ways[start], false);
    lemma_walk_leaves(ways, before.used, start);
    assert forall|k: int| 0 <= k < before.open.len() implies left_open(
        ways,
        end.used,
        #[trigger] before.open[k],
    ) && apart(before.open[k], end.chain) by {
        let chain = before.open[k];
        lemma_stays_left_open(ways, before.used, end.used, chain);
        lemma_left_open_ends(ways, before.used, chain);
        lemma_walk_ends_apart(ways, before.used, start, chain);
    }
    lemma_settled_with(ways, before, end.used, end.chain, end.closed);
}

/// What a walk from an unused fragment leaves.
proof fn lemma_walk_leaves(ways: Seq<Seq<i64>>, used: Seq<bool>, start: int)
    requires
        used.len() == ways.len(),
        0 <= start < ways.len(),
        !used[start],
        ways[start].len() >= 2,
    ensures
        ({
            let end = walk(ways, used.update(start, true), ways[start], false);
            &&& end.used.len() == ways.len()
            &&& forall|i: int| 0 <= i < ways.len() && used[i] ==> #[trigger] end.used[i]
            &&& if end.closed {
                ends_meet(end.chain)
            } else {
                left_open(ways, end.used, end.chain)
            }
        }),
{
    let way = ways[start];
    let marked = used.update(start, true);
    let end = walk(ways, marked, way, false);
    lemma_runs_along_itself(way);
    lemma_walk_end(ways, marked, way, false, way);
    lemma_walk_only_uses(ways, marked, way, false);
    assert forall|i: int| 0 <= i < ways.len() && used[i] implies #[trigger] end.used[i] by {
        assert(marked[i]);
    }
    if !end.closed {
        reveal(left_open);
        assert(ways[start].len() >= 2 && runs_along(ways[start], end.chain));
    }
}

/// An open chain stays one as more fragments are used.
proof fn lemma_stays_left_open(ways: Seq<Seq<i64>>, before: Seq<bool>, after: Seq<bool>, chain: Seq<i64>)
    requires
        before.len() == ways.len(),
        after.len() == ways.len(),
        forall|i: int| 0 <= i < ways.len() && before[i] ==> #[trigger] after[i],
        left_open(ways, before, chain),
    ensures
        left_open(ways, after, chain),
{
    reveal(left_open);
    lemma_stuck_stays(ways, before, after, chain.first());
    lemma_stuck_stays(ways, before, after, chain.last());
}

proof fn lemma_left_open_ends(ways: Seq<Seq<i64>>, used: Seq<bool>, chain: Seq<i64>)
    requires
        left_open(ways, used, chain),
    ensures
        !ends_meet(chain),
        stuck(ways, used, chain.first()),
        stuck(ways, used, chain.last()),
{
    reveal(left_open);
}

proof fn lemma_settled_with(ways: Seq<Seq<i64>>, before: Pile, used: Seq<bool>, chain: Seq<i64>, closed: bool)
    requires
        settled(ways, before),
        forall|k: int|
            0 <= k < before.open.len() ==> left_open(ways, used, #[trigger] before.open[k]) && apart(
                before.open[k],
                chain,
            ),
        if closed {
            ends_meet(chain)
        } else {
            left_open(ways, used, chain)
        },
    ensures
        settled(
            ways,
            if closed {
                Pile { closed: before.closed.push(chain), used, ..before }
            } else {
                Pile { open: before.open.push(chain), used, ..before }
            },
        ),
{
    let after = if closed {
        Pile { closed: before.closed.push(chain), used, ..before }
    } else {
        Pile { open: before.open.push(chain), used, ..before }
    };
    assert forall|k: int| 0 <= k < after.closed.len() implies ends_meet(#[trigger] after.closed[k]) by {
        if k < before.closed.len() {
            assert(after.closed[k] == before.closed[k]);
        }
    }
    assert forall|k: int| 0 <= k < after.open.len() implies left_open(ways, used, #[trigger] after.open[k]) by {
        if k < before.open.len() {
            assert(after.open[k] == before.open[k]);
        }
    }
    assert forall|k: int, m: int|
        #![trigger after.open[k], after.open[m]]
        0 <= k < m < after.open.len() implies apart(after.open[k], after.open[m]) by {
        assert(after.open[k] == before.open[k]);
        if m < before.open.len() {
            assert(after.open[m] == before.open[m]);
        }
    }
}

/// Every chain handed back closed has its ends together, and none handed back
/// open has.
pub proof fn closed_chains_have_equal_ends_and_open_ones_do_not(ways: Seq<Seq<i64>>, k: int)
    ensures
        0 <= k < stitched_upto(ways, ways.len() as int).closed.len() ==> ends_meet(
            stitched_upto(ways, ways.len() as int).closed[k],
        ),
        0 <= k < stitched_upto(ways, ways.len() as int).open.len() ==> !ends_meet(
            stitched_upto(ways, ways.len() as int).open[k],
        ),
{
    lemma_settled_upto(ways, ways.len() as int);
    let pile = stitched_upto(ways, ways.len() as int);
    if 0 <= k < pile.open.len() {
        lemma_left_open_ends(ways, pile.used, pile.open[k]);
    }
}

/// An open chain ran out of continuations with its ends apart.
pub proof fn open_chains_have_their_ends_apart(ways: Seq<Seq<i64>>, k: int)
    requires
        0 <= k < stitched_upto(ways, ways.len() as int).open.len(),
    ensures
        stitched_upto(ways, ways.len() as int).open[k].first() != stitched_upto(
            ways,
            ways.len() as int,
        ).open[k].last(),
{
    closed_chains_have_equal_ends_and_open_ones_do_not(ways, k);
}

/// No two open chains could have been joined: they have no end in common.
pub proof fn open_chains_end_apart(ways: Seq<Seq<i64>>, k: int, m: int)
    requires
        0 <= k < m < stitched_upto(ways, ways.len() as int).open.len(),
    ensures
        apart(stitched_upto(ways, ways.len() as int).open[k], stitched_upto(ways, ways.len() as int).open[m]),
{
    lemma_settled_upto(ways, ways.len() as int);
}

/// An open chain comes back in the direction of the fragment it started from,
/// not in the one the walk happened to build it in.
pub proof fn an_open_chain_keeps_a_fragments_direction(ways: Seq<Seq<i64>>, k: int) -> (fragment: int)
    requires
        0 <= k < stitched_upto(ways, ways.len() as int).open.len(),
    ensures
        0 <= fragment < ways.len(),
        ways[fragment].len() >= 2,
        runs_along(ways[fragment], stitched_upto(ways, ways.len() as int).open[k]),
{
    lemma_settled_upto(ways, ways.len() as int);
    let pile = stitched_upto(ways, ways.len() as int);
    let chain = pile.open[k];
    assert(left_open(ways, pile.used, chain));
    reveal(left_open);
    choose|i: int| 0 <= i < ways.len() && #[trigger] ways[i].len() >= 2 && runs_along(ways[i], chain)
}

/// A chain with three sides or more that is back where it started is a ring, and
/// its walk is over.
pub proof fn a_ring_is_handed_back_at_once(ways: Seq<Seq<i64>>, used: Seq<bool>, chain: Seq<i64>, flipped: bool)
    requires
        used.len() == ways.len(),
        chain.len() >= 4,
        chain[0] == chain[chain.len() - 1],
    ensures
        walk(ways, used, chain, flipped) == (Walk { chain, used, closed: true }),
{
}

/// The fragment that carries a chain on is the first one left that has the
/// chain's last node at either end. It is walked from that end: every node of it
/// but the shared one is added, and no other fragment is touched.
pub proof fn the_first_fragment_that_fits_is_joined(
    ways: Seq<Seq<i64>>,
    used: Seq<bool>,
    chain: Seq<i64>,
    flipped: bool,
    next: int,
    longer: Seq<i64>,
)
    requires
        used.len() == ways.len(),
        chain.len() > 0,
        chain.len() < 4 || chain[0] != chain[chain.len() - 1],
        0 <= next < ways.len(),
        !used[next],
        ways[next].len() >= 2,
        ways[next][0] == chain[chain.len() - 1] || ways[next][ways[next].len() - 1] == chain[chain.len() - 1],
        forall|i: int|
            #![trigger ways[i]]
            0 <= i < next && !used[i] && ways[i].len() >= 2 ==> ways[i][0] != chain[chain.len() - 1]
                && ways[i][ways[i].len() - 1] != chain[chain.len() - 1],
        longer.len() == chain.len() + ways[next].len() - 1,
        forall|k: int| 0 <= k < chain.len() ==> #[trigger] longer[k] == chain[k],
        forall|k: int|
            #![trigger ways[next][k]]
            0 <= k < ways[next].len() && ways[next][0] == chain[chain.len() - 1] ==> longer[chain.len() - 1 + k]
                == ways[next][k],
        forall|k: int|
            #![trigger ways[next][k]]
            0 <= k < ways[next].len() && ways[next][0] != chain[chain.len() - 1] ==> longer[longer.len() - 1 - k]
                == ways[next][k],
    ensures
        walk(ways, used, chain, flipped) == walk(ways, used.update(next, true), longer, flipped),
{
    let way = ways[next];
    lemma_continuation_is(ways, used, chain.last(), Some(next));
    let made = joined(chain, way);
    assert(made.len() == longer.len());
    assert forall|k: int| 0 <= k < made.len() implies made[k] == longer[k] by {
        if k < chain.len() {
            assert(longer[k] == chain[k]);
        } else if way[0] == chain[chain.len() - 1] {
            assert(longer[chain.len() - 1 + (k - chain.len() + 1)] == way[k - chain.len() + 1]);
        } else {
            let from = longer.len() - 1 - k;
            assert(longer[longer.len() - 1 - from] == way[from]);
            assert(way.reverse().skip(1)[k - chain.len()] == way[way.len() - 1 - (k - chain.len() + 1)]);
        }
    }
    assert(made =~= longer);
}

/// A chain no fragment carries on is turned round, once, to be carried on from
/// its other end. One that is stuck at both comes back the way round it was
/// drawn, and counts as closed only where its ends are the same node.
pub proof fn a_stuck_chain_is_turned_round_once(ways: Seq<Seq<i64>>, used: Seq<bool>, chain: Seq<i64>)
    requires
        used.len() == ways.len(),
        chain.len() > 0,
        chain.len() < 4 || chain[0] != chain[chain.len() - 1],
        forall|i: int|
            #![trigger ways[i]]
            0 <= i < ways.len() && !used[i] && ways[i].len() >= 2 ==> ways[i][0] != chain[chain.len() - 1]
                && ways[i][ways[i].len() - 1] != chain[chain.len() - 1],
    ensures
        walk(ways, used, chain, false) == walk(ways, used, chain.reverse(), true),
        ({
            let end = walk(ways, used, chain, true);
            &&& end.used == used
            &&& end.closed <==> chain[0] == chain[chain.len() - 1]
            &&& end.chain.len() == chain.len()
            &&& forall|k: int|
                #![trigger end.chain[k]]
                0 <= k < chain.len() ==> end.chain[k] == chain[chain.len() - 1 - k]
        }),
{
    lemma_continuation_is(ways, used, chain.last(), None);
}

/// The chains are started from the fragments in turn, each from the first that
/// no chain has used; a fragment of fewer than two nodes starts none. A chain
/// joins the closed or the open ones, behind those before it.
pub proof fn chains_start_from_the_fragments_in_turn(ways: Seq<Seq<i64>>, upto: int)
    requires
        0 <= upto < ways.len(),
    ensures
        ({
            let (before, after) = (stitched_upto(ways, upto), stitched_upto(ways, upto + 1));
            let marked = before.used.update(upto, true);
            let end = walk(ways, marked, ways[upto], false);
            &&& before.used.len() == ways.len()
            &&& ways[upto].len() < 2 ==> before.used[upto]
            &&& before.used[upto] ==> after == before
            &&& !before.used[upto] ==> after.used == end.used
            &&& !before.used[upto] && end.closed ==> after.closed == before.closed.push(end.chain) && after.open
                == before.open
            &&& !before.used[upto] && !end.closed ==> after.open == before.open.push(end.chain) && after.closed
                == before.closed
        }),
        stitched_upto(ways, 0).closed.len() == 0,
        stitched_upto(ways, 0).open.len() == 0,
        forall|i: int|
            #![trigger ways[i]]
            0 <= i < ways.len() ==> (stitched_upto(ways, 0).used[i] <==> ways[i].len() < 2),
{
    lemma_used_upto(ways, upto);
}

/// The ids of some chains are each chain's own, in order.
pub proof fn the_ids_of_chains_are_their_own(chains: Seq<Vec<i64>>, k: int)
    ensures
        ids(chains).len() == chains.len(),
        0 <= k < chains.len() ==> ids(chains)[k] == chains[k]@,
{
}

} // verus!
