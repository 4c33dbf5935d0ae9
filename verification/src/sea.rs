//! Closing the sea: coastline pieces joined into rings along the perimeter.
//!
//! Walking the perimeter clockwise, a piece that leaves must be followed by one
//! that enters. Two of a kind in a row means two pieces claim contradictory
//! water, and the shorter of them is dropped until every exit meets an entry.
//! Then each piece is followed by the one whose entry comes next after its
//! exit, and the cycles that makes are the rings of the sea.

use vstd::prelude::*;
use crate::assemble;
use crate::assemble::Polygon;
use crate::coastline::copied;
use crate::material;
use crate::material::Material;
use crate::order;
use crate::order::stable_order;

verus! {

/// One coastline piece inside the rectangle, both ends on its perimeter: the
/// keys of where it enters and leaves along the walk, and of how long it is.
#[derive(Clone, Copy, Debug)]
pub struct Crossing {
    pub entry: u64,
    pub exit: u64,
    pub metres: u64,
}

/// A piece entering or leaving the rectangle.
#[derive(Clone, Copy, Debug, PartialEq, Eq, Structural)]
pub struct Event {
    pub index: usize,
    pub entry: bool,
}

/// Where along the walk an event happens.
pub open spec fn key_at(crossings: Seq<Crossing>, event: Event) -> u128 {
    (if event.entry {
        crossings[event.index as int].entry
    } else {
        crossings[event.index as int].exit
    }) as u128
}

/// The events of the pieces before `upto` that are still in, each piece's entry
/// ahead of its exit.
pub open spec fn events_upto(alive: Seq<bool>, upto: int) -> Seq<Event>
    decreases upto,
{
    if upto <= 0 {
        Seq::empty()
    } else {
        let before = events_upto(alive, upto - 1);
        if alive[upto - 1] {
            before.push(Event { index: (upto - 1) as usize, entry: true }).push(
                Event { index: (upto - 1) as usize, entry: false },
            )
        } else {
            before
        }
    }
}

/// The keys of some events.
pub open spec fn event_keys(crossings: Seq<Crossing>, events: Seq<Event>) -> Seq<u128> {
    events.map_values(|event: Event| key_at(crossings, event))
}

/// Whether events are those of the pieces still in, in the order the walk meets
/// them.
pub open spec fn is_perimeter(crossings: Seq<Crossing>, alive: Seq<bool>, walk: Seq<Event>) -> bool {
    let events = events_upto(alive, alive.len() as int);
    exists|sorted: Seq<usize>| #[trigger]
        order::is_order(event_keys(crossings, events), sorted) && walk == sorted.map_values(
            |at: usize| events[at as int],
        )
}

/// The events of the pieces still in, in the order the walk meets them.
pub open spec fn perimeter(crossings: Seq<Crossing>, alive: Seq<bool>) -> Seq<Event> {
    choose|walk: Seq<Event>| is_perimeter(crossings, alive, walk)
}

/// The walk is settled by the pieces that are in.
proof fn lemma_perimeter_is(crossings: Seq<Crossing>, alive: Seq<bool>, walk: Seq<Event>)
    requires
        is_perimeter(crossings, alive, walk),
        events_upto(alive, alive.len() as int).len() <= usize::MAX,
    ensures
        perimeter(crossings, alive) == walk,
{
    let events = events_upto(alive, alive.len() as int);
    let keys = event_keys(crossings, events);
    let chosen = perimeter(crossings, alive);
    let a = choose|sorted: Seq<usize>| #[trigger]
        order::is_order(keys, sorted) && walk == sorted.map_values(|at: usize| events[at as int]);
    let b = choose|sorted: Seq<usize>| #[trigger]
        order::is_order(keys, sorted) && chosen == sorted.map_values(|at: usize| events[at as int]);
    order::the_order_of_keys_is_settled(keys, a, b);
}

/// Whether an event is of the same kind as the next one round.
pub open spec fn clashes(walk: Seq<Event>, at: int) -> bool {
    walk[at].entry == walk[(at + 1) % (walk.len() as int)].entry
}

/// The first event from a place on that clashes with the next.
pub open spec fn first_clash(walk: Seq<Event>, from: int) -> Option<int>
    decreases walk.len() - from,
{
    if from >= walk.len() {
        None
    } else if clashes(walk, from) {
        Some(from)
    } else {
        first_clash(walk, from + 1)
    }
}

/// The shorter of the two pieces a clash is between, the first if neither is.
pub open spec fn shorter_at(crossings: Seq<Crossing>, walk: Seq<Event>, at: int) -> int {
    let a = walk[at].index as int;
    let b = walk[(at + 1) % (walk.len() as int)].index as int;
    if crossings[a].metres <= crossings[b].metres {
        a
    } else {
        b
    }
}

/// How many pieces are still in.
pub open spec fn living(alive: Seq<bool>) -> nat
    decreases alive.len(),
{
    if alive.len() == 0 {
        0
    } else {
        living(alive.drop_last()) + if alive.last() {
            1nat
        } else {
            0nat
        }
    }
}

/// The pieces left once no two of a kind follow each other, or `None` if none
/// are.
pub open spec fn repaired(crossings: Seq<Crossing>, alive: Seq<bool>) -> Option<Seq<bool>>
    decreases living(alive),
    via repaired_decreases
{
    let walk = perimeter(crossings, alive);
    if walk.len() == 0 {
        None
    } else {
        match first_clash(walk, 0) {
            None => Some(alive),
            Some(at) => {
                let drop = shorter_at(crossings, walk, at);
                if 0 <= drop < alive.len() && alive[drop] {
                    repaired(crossings, alive.update(drop, false))
                } else {
                    None
                }
            },
        }
    }
}

#[via_fn]
proof fn repaired_decreases(crossings: Seq<Crossing>, alive: Seq<bool>) {
    let walk = perimeter(crossings, alive);
    if let Some(at) = first_clash(walk, 0) {
        let drop = shorter_at(crossings, walk, at);
        if 0 <= drop < alive.len() && alive[drop] {
            lemma_dropping_one(alive, drop);
        }
    }
}

proof fn lemma_dropping_one(alive: Seq<bool>, drop: int)
    requires
        0 <= drop < alive.len(),
        alive[drop],
    ensures
        living(alive.update(drop, false)) == living(alive) - 1,
    decreases alive.len(),
{
    let after = alive.update(drop, false);
    if drop == alive.len() - 1 {
        assert(after.drop_last() =~= alive.drop_last());
    } else {
        assert(after.drop_last() =~= alive.drop_last().update(drop, false));
        lemma_dropping_one(alive.drop_last(), drop);
    }
}

proof fn lemma_first_clash(walk: Seq<Event>, from: int)
    requires
        0 <= from,
    ensures
        match first_clash(walk, from) {
            Some(at) => {
                &&& from <= at < walk.len()
                &&& clashes(walk, at)
                &&& forall|k: int| from <= k < at ==> !#[trigger] clashes(walk, k)
            },
            None => forall|k: int| from <= k < walk.len() ==> !#[trigger] clashes(walk, k),
        },
    decreases walk.len() - from,
{
    if from < walk.len() && !clashes(walk, from) {
        lemma_first_clash(walk, from + 1);
    }
}

/// What holds of the events of the pieces that are in.
pub open spec fn complete(alive: Seq<bool>, walk: Seq<Event>) -> bool {
    &&& forall|k: int|
        #![trigger walk[k]]
        0 <= k < walk.len() ==> walk[k].index < alive.len() && alive[walk[k].index as int]
    &&& forall|i: int, entry: bool|
        0 <= i < alive.len() && alive[i] ==> #[trigger] walk.contains(Event { index: i as usize, entry })
    &&& walk.no_duplicates()
}

proof fn lemma_events_complete(alive: Seq<bool>, upto: int)
    requires
        0 <= upto <= alive.len() <= usize::MAX,
    ensures
        ({
            let events = events_upto(alive, upto);
            &&& forall|k: int|
                #![trigger events[k]]
                0 <= k < events.len() ==> events[k].index < upto && alive[events[k].index as int]
            &&& forall|i: int, entry: bool|
                0 <= i < upto && alive[i] ==> #[trigger] events.contains(Event { index: i as usize, entry })
            &&& events.no_duplicates()
            &&& events.len() <= 2 * upto
        }),
    decreases upto,
{
    if upto > 0 {
        lemma_events_complete(alive, upto - 1);
        let before = events_upto(alive, upto - 1);
        let events = events_upto(alive, upto);
        if alive[upto - 1] {
            let (a, b) = (
                Event { index: (upto - 1) as usize, entry: true },
                Event { index: (upto - 1) as usize, entry: false },
            );
            assert(events[before.len() as int] == a && events[before.len() as int + 1] == b);
            assert forall|i: int, entry: bool| 0 <= i < upto && alive[i] implies #[trigger] events.contains(
                Event { index: i as usize, entry },
            ) by {
                let event = Event { index: i as usize, entry };
                if i < upto - 1 {
                    assert(before.contains(event));
                    let k = choose|k: int| 0 <= k < before.len() && before[k] == event;
                    assert(events[k] == event);
                } else if entry {
                    assert(event == a);
                } else {
                    assert(event == b);
                }
            }
            assert forall|k: int| 0 <= k < before.len() implies #[trigger] events[k] == before[k] by {}
        }
    }
}

/// The walk meets each end of each piece that is in once, and nothing else.
proof fn lemma_perimeter_complete(crossings: Seq<Crossing>, alive: Seq<bool>, walk: Seq<Event>)
    requires
        is_perimeter(crossings, alive, walk),
        alive.len() <= usize::MAX,
        events_upto(alive, alive.len() as int).len() <= usize::MAX,
    ensures
        complete(alive, walk),
        walk.len() == events_upto(alive, alive.len() as int).len(),
{
    let count = alive.len() as int;
    lemma_events_complete(alive, count);
    let events = events_upto(alive, count);
    let keys = event_keys(crossings, events);
    let sorted = choose|sorted: Seq<usize>| #[trigger]
        order::is_order(keys, sorted) && walk == sorted.map_values(|at: usize| events[at as int]);
    assert forall|k: int|
        #![trigger walk[k]]
        0 <= k < walk.len() implies walk[k].index < alive.len() && alive[walk[k].index as int] by {
        assert(walk[k] == events[sorted[k] as int]);
    }
    assert forall|i: int, entry: bool| 0 <= i < alive.len() && alive[i] implies #[trigger] walk.contains(
        Event { index: i as usize, entry },
    ) by {
        let event = Event { index: i as usize, entry };
        assert(events.contains(event));
        let at = choose|at: int| 0 <= at < events.len() && events[at] == event;
        assert(sorted.contains(at as usize));
        let k = choose|k: int| 0 <= k < sorted.len() && sorted[k] == at as usize;
        assert(walk[k] == event);
    }
    assert forall|i: int, j: int| 0 <= i < walk.len() && 0 <= j < walk.len() && i != j implies walk[i] != walk[j] by {
        assert(walk[i] == events[sorted[i] as int] && walk[j] == events[sorted[j] as int]);
        if i < j {
            assert(order::ahead(keys, sorted[i] as int, sorted[j] as int));
        } else {
            assert(order::ahead(keys, sorted[j] as int, sorted[i] as int));
        }
        assert(sorted[i] != sorted[j]);
    }
}

/// The pieces left and the walk past them.
pub struct Repaired {
    pub alive: Vec<bool>,
    pub walk: Vec<Event>,
}

/// Whether every exit on the walk is followed by an entry and every entry by an
/// exit, all the way round.
pub open spec fn alternates(walk: Seq<Event>) -> bool {
    forall|k: int| 0 <= k < walk.len() ==> !#[trigger] clashes(walk, k)
}

/// The events of the pieces still in, in the order the walk meets them.
fn walk_past(crossings: &Vec<Crossing>, alive: &Vec<bool>) -> (walk: Vec<Event>)
    requires
        alive@.len() == crossings@.len(),
    ensures
        is_perimeter(crossings@, alive@, walk@),
        walk@ == perimeter(crossings@, alive@),
        complete(alive@, walk@),
{
    let mut events: Vec<Event> = Vec::new();
    let mut keys: Vec<u128> = Vec::new();
    let mut i: usize = 0;
    while i < crossings.len()
        invariant
            i <= crossings@.len(),
            alive@.len() == crossings@.len(),
            events@ == events_upto(alive@, i as int),
            keys@ =~= event_keys(crossings@, events@),
        decreases crossings@.len() - i,
    {
        if alive[i] {
            events.push(Event { index: i, entry: true });
            keys.push(crossings[i].entry as u128);
            events.push(Event { index: i, entry: false });
            keys.push(crossings[i].exit as u128);
        }
        i = i + 1;
    }
    let sorted = stable_order(&keys);
    let mut walk: Vec<Event> = Vec::new();
    let mut k: usize = 0;
    while k < sorted.len()
        invariant
            k <= sorted@.len(),
            keys@.len() == events@.len(),
            order::is_order(keys@, sorted@),
            walk@.len() == k,
            forall|j: int| 0 <= j < k ==> #[trigger] walk@[j] == events@[sorted@[j] as int],
        decreases sorted@.len() - k,
    {
        walk.push(events[sorted[k]]);
        k = k + 1;
    }
    proof {
        assert(walk@ =~= sorted@.map_values(|at: usize| events@[at as int]));
        assert(order::is_order(event_keys(crossings@, events@), sorted@));
        assert(events.len() <= usize::MAX);
        assert(alive.len() <= usize::MAX);
        lemma_perimeter_is(crossings@, alive@, walk@);
        lemma_perimeter_complete(crossings@, alive@, walk@);
    }
    walk
}

/// The first event that is followed by one of its kind.
fn find_clash(walk: &Vec<Event>) -> (clash: Option<usize>)
    ensures
        match clash {
            Some(at) => first_clash(walk@, 0) == Some(at as int) && at < walk@.len(),
            None => first_clash(walk@, 0) is None,
        },
{
    let count: usize = walk.len();
    let mut at: usize = 0;
    while at < count
        invariant
            at <= count,
            count == walk@.len(),
            first_clash(walk@, 0) == first_clash(walk@, at as int),
        decreases count - at,
    {
        let after: usize = if at + 1 < count {
            at + 1
        } else {
            0
        };
        proof {
            lemma_next_round(at as int, count as int);
        }
        if walk[at].entry == walk[after].entry {
            return Some(at);
        }
        at = at + 1;
    }
    None
}

/// Drops the shorter of two pieces wherever two of a kind follow each other on
/// the walk, until none do.
pub fn repair(crossings: &Vec<Crossing>) -> (left: Option<Repaired>)
    ensures
        match left {
            Some(left) => {
                &&& repaired(crossings@, Seq::new(crossings@.len(), |i: int| true)) == Some(left.alive@)
                &&& left.walk@ == perimeter(crossings@, left.alive@)
                &&& is_perimeter(crossings@, left.alive@, left.walk@)
                &&& left.alive@.len() == crossings@.len()
                &&& complete(left.alive@, left.walk@)
                &&& alternates(left.walk@)
                &&& left.walk@.len() > 0
            },
            None => repaired(crossings@, Seq::new(crossings@.len(), |i: int| true)) is None,
        },
{
    let ghost target = repaired(crossings@, Seq::new(crossings@.len(), |i: int| true));
    let mut alive: Vec<bool> = Vec::new();
    while alive.len() < crossings.len()
        invariant
            alive@.len() <= crossings@.len(),
            forall|i: int| 0 <= i < alive@.len() ==> #[trigger] alive@[i],
        decreases crossings@.len() - alive@.len(),
    {
        alive.push(true);
    }
    assert(alive@ =~= Seq::new(crossings@.len(), |i: int| true));
    loop
        invariant
            alive@.len() == crossings@.len(),
            repaired(crossings@, alive@) == target,
            target == repaired(crossings@, Seq::new(crossings@.len(), |i: int| true)),
        decreases living(alive@),
    {
        let walk = walk_past(crossings, &alive);
        if walk.len() == 0 {
            return None;
        }
        let count: usize = walk.len();
        let at: usize = match find_clash(&walk) {
            Some(at) => at,
            None => {
                proof {
                    lemma_first_clash(walk@, 0);
                }
                return Some(Repaired { alive, walk });
            },
        };
        let after: usize = if at + 1 < count {
            at + 1
        } else {
            0
        };
        proof {
            lemma_next_round(at as int, count as int);
        }
        let (a, b): (usize, usize) = (walk[at].index, walk[after].index);
        let drop: usize = if crossings[a].metres <= crossings[b].metres {
            a
        } else {
            b
        };
        proof {
            lemma_dropping_one(alive@, drop as int);
        }
        alive[drop] = false;
    }
}

proof fn lemma_next_round(at: int, count: int)
    requires
        0 <= at < count,
    ensures
        (at + 1) % count == if at + 1 < count {
            at + 1
        } else {
            0
        },
{
    if at + 1 < count {
        vstd::arithmetic::div_mod::lemma_small_mod((at + 1) as nat, count as nat);
    } else {
        vstd::arithmetic::div_mod::lemma_mod_self_0(count);
    }
}

/// Whether each piece that is in leads to one that is in, and no two to the
/// same.
pub open spec fn is_linking(alive: Seq<bool>, next: Seq<usize>) -> bool {
    &&& next.len() == alive.len()
    &&& forall|i: int|
        #![trigger next[i]]
        0 <= i < alive.len() && alive[i] ==> next[i] < alive.len() && alive[next[i] as int]
    &&& forall|i: int, j: int|
        #![trigger next[i], next[j]]
        0 <= i < alive.len() && 0 <= j < alive.len() && alive[i] && alive[j] && next[i] == next[j] ==> i == j
}

/// Which piece follows each: the one that enters next after it leaves.
pub fn link(left: &Repaired) -> (next: Vec<usize>)
    requires
        complete(left.alive@, left.walk@),
        alternates(left.walk@),
    ensures
        is_linking(left.alive@, next@),
        forall|k: int|
            #![trigger left.walk@[k]]
            0 <= k < left.walk@.len() && !left.walk@[k].entry ==> {
                let follower = left.walk@[(k + 1) % (left.walk@.len() as int)];
                follower.entry && next@[left.walk@[k].index as int] == follower.index
            },
{
    let ghost walk = left.walk@;
    let ghost alive = left.alive@;
    let count: usize = left.walk.len();
    let mut next: Vec<usize> = Vec::new();
    while next.len() < left.alive.len()
        invariant
            next@.len() <= left.alive@.len(),
        decreases left.alive@.len() - next@.len(),
    {
        next.push(0);
    }
    let mut k: usize = 0;
    while k < count
        invariant
            k <= count,
            walk == left.walk@,
            alive == left.alive@,
            count == walk.len(),
            next@.len() == alive.len(),
            complete(alive, walk),
            alternates(walk),
            forall|m: int|
                #![trigger walk[m]]
                0 <= m < k && !walk[m].entry ==> {
                    let follower = walk[(m + 1) % (count as int)];
                    follower.entry && next@[walk[m].index as int] == follower.index
                },
        decreases count - k,
    {
        let event: Event = left.walk[k];
        if !event.entry {
            let after: usize = if k + 1 < count {
                k + 1
            } else {
                0
            };
            let ghost before = next@;
            next[event.index] = left.walk[after].index;
            proof {
                lemma_next_round(k as int, count as int);
                assert(!clashes(walk, k as int));
                assert forall|m: int|
                    #![trigger walk[m]]
                    0 <= m < k + 1 && !walk[m].entry implies {
                    let follower = walk[(m + 1) % (count as int)];
                    follower.entry && next@[walk[m].index as int] == follower.index
                } by {
                    if m < k {
                        if walk[m].index == event.index {
                            assert(walk[m] == walk[k as int]);
                        }
                    }
                }
            }
        }
        k = k + 1;
    }
    proof {
        assert forall|i: int| 0 <= i < alive.len() && alive[i] implies exists|m: int|
            0 <= m < walk.len() && #[trigger] walk[m] == (Event { index: i as usize, entry: false }) by {
            assert(left.alive.len() <= usize::MAX);
            assert(walk.contains(Event { index: i as usize, entry: false }));
        }
        assert forall|i: int|
            #![trigger next@[i]]
            0 <= i < alive.len() && alive[i] implies next@[i] < alive.len() && alive[next@[i] as int] by {
            let m = choose|m: int|
                0 <= m < walk.len() && #[trigger] walk[m] == (Event { index: i as usize, entry: false });
            lemma_next_round(m, count as int);
            assert(next@[walk[m].index as int] == walk[(m + 1) % (count as int)].index);
        }
        assert forall|i: int, j: int|
            #![trigger next@[i], next@[j]]
            0 <= i < alive.len() && 0 <= j < alive.len() && alive[i] && alive[j] && next@[i] == next@[j] implies i
            == j by {
            let m = choose|m: int|
                0 <= m < walk.len() && #[trigger] walk[m] == (Event { index: i as usize, entry: false });
            let n = choose|n: int|
                0 <= n < walk.len() && #[trigger] walk[n] == (Event { index: j as usize, entry: false });
            lemma_next_round(m, count as int);
            lemma_next_round(n, count as int);
            let (x, y) = ((m + 1) % (count as int), (n + 1) % (count as int));
            assert(walk[x].entry && walk[y].entry && walk[x].index == walk[y].index);
            assert(walk[x] == walk[y]);
            assert(x == y);
        }
    }
    next
}

/// Whether a piece of a cycle leads to the one after it, the last to the first.
pub open spec fn leads_round(next: Seq<usize>, cycle: Seq<int>, k: int) -> bool {
    next[cycle[k]] == cycle[if k + 1 < cycle.len() {
        k + 1
    } else {
        0
    }]
}

/// Pieces that follow each other back to the first: a cycle of the linking,
/// told from its lowest piece.
pub open spec fn is_cycle(alive: Seq<bool>, next: Seq<usize>, cycle: Seq<int>) -> bool {
    &&& cycle.len() > 0
    &&& cycle.no_duplicates()
    &&& forall|k: int|
        #![trigger cycle[k]]
        0 <= k < cycle.len() ==> 0 <= cycle[k] < alive.len() && alive[cycle[k]] && cycle[0] <= cycle[k]
    &&& forall|k: int| 0 <= k < cycle.len() ==> #[trigger] leads_round(next, cycle, k)
}

/// Whether a piece is in one of some cycles.
pub open spec fn in_cycles(cycles: Seq<Seq<int>>, piece: int) -> bool {
    exists|c: int| 0 <= c < cycles.len() && #[trigger] cycles[c].contains(piece)
}

/// Whether no piece is in two of some cycles.
#[verifier::opaque]
pub open spec fn share_nothing(cycles: Seq<Seq<int>>) -> bool {
    forall|c: int, d: int, piece: int|
        #![trigger cycles[c].contains(piece), cycles[d].contains(piece)]
        0 <= c < cycles.len() && 0 <= d < cycles.len() && cycles[c].contains(piece) && cycles[d].contains(piece) ==> c
            == d
}

/// Cycles of the linking, in the order of their lowest pieces, that share no
/// piece and leave out none that is in.
pub open spec fn is_cover(alive: Seq<bool>, next: Seq<usize>, cycles: Seq<Seq<int>>) -> bool {
    &&& forall|c: int| 0 <= c < cycles.len() ==> is_cycle(alive, next, #[trigger] cycles[c])
    &&& forall|c: int, d: int|
        #![trigger cycles[c], cycles[d]]
        0 <= c < d < cycles.len() ==> cycles[c][0] < cycles[d][0]
    &&& share_nothing(cycles)
    &&& forall|piece: int| 0 <= piece < alive.len() && alive[piece] ==> #[trigger] in_cycles(cycles, piece)
}

/// The points of pieces that follow each other, each with the corners of the
/// perimeter passed on the way to the next.
pub open spec fn points_along<P>(cycle: Seq<int>, pieces: Seq<Seq<P>>, corners: Seq<Seq<P>>) -> Seq<P>
    decreases cycle.len(),
{
    if cycle.len() == 0 {
        Seq::empty()
    } else {
        points_along(cycle.drop_last(), pieces, corners) + pieces[cycle.last()] + corners[cycle.last()]
    }
}

/// The ring a cycle closes.
pub open spec fn ring_of<P>(cycle: Seq<int>, pieces: Seq<Seq<P>>, corners: Seq<Seq<P>>) -> Seq<P> {
    points_along(cycle, pieces, corners).push(pieces[cycle[0]].first())
}

/// Appends points to others.
fn extend_points<P: Copy>(points: &mut Vec<P>, more: &Vec<P>)
    ensures
        final(points)@ == old(points)@ + more@,
{
    let ghost before = points@;
    let mut i: usize = 0;
    while i < more.len()
        invariant
            i <= more@.len(),
            points@ =~= before + more@.take(i as int),
        decreases more@.len() - i,
    {
        points.push(more[i]);
        i = i + 1;
    }
    assert(more@.take(i as int) =~= more@);
}

/// What is known while cycles are being found: those found cover what is
/// visited, and everything before `start` is.
spec fn covers_visited(
    alive: Seq<bool>,
    next: Seq<usize>,
    cycles: Seq<Seq<int>>,
    visited: Seq<bool>,
    start: int,
) -> bool {
    &&& visited.len() == alive.len()
    &&& forall|c: int| 0 <= c < cycles.len() ==> is_cycle(alive, next, #[trigger] cycles[c]) && cycles[c][0] < start
    &&& forall|c: int, d: int|
        #![trigger cycles[c], cycles[d]]
        0 <= c < d < cycles.len() ==> cycles[c][0] < cycles[d][0]
    &&& share_nothing(cycles)
    &&& forall|i: int|
        #![trigger visited[i]]
        0 <= i < alive.len() ==> (visited[i] <==> !alive[i] || in_cycles(cycles, i))
    &&& forall|i: int| 0 <= i < start ==> #[trigger] visited[i]
}

/// A way along the linking from a piece nothing has visited.
spec fn is_path(alive: Seq<bool>, next: Seq<usize>, cycles: Seq<Seq<int>>, start: int, path: Seq<int>) -> bool {
    &&& 0 <= start
    &&& path.len() > 0
    &&& path[0] == start
    &&& path.no_duplicates()
    &&& forall|k: int|
        #![trigger path[k]]
        0 <= k < path.len() ==> start <= path[k] < alive.len() && alive[path[k]] && !in_cycles(cycles, path[k])
    &&& forall|k: int| 0 < k < path.len() ==> #[trigger] leads_round(next, path, k - 1)
}

/// A piece that leads into a cycle is in it.
proof fn lemma_cycles_are_closed(alive: Seq<bool>, next: Seq<usize>, cycles: Seq<Seq<int>>, piece: int)
    requires
        is_linking(alive, next),
        forall|c: int| 0 <= c < cycles.len() ==> is_cycle(alive, next, #[trigger] cycles[c]),
        0 <= piece < alive.len(),
        alive[piece],
        in_cycles(cycles, next[piece] as int),
    ensures
        in_cycles(cycles, piece),
{
    let target = next[piece] as int;
    let c = choose|c: int| 0 <= c < cycles.len() && #[trigger] cycles[c].contains(target);
    let cycle = cycles[c];
    assert(is_cycle(alive, next, cycle));
    let k = choose|k: int| 0 <= k < cycle.len() && cycle[k] == target;
    let before = if k > 0 {
        k - 1
    } else {
        cycle.len() - 1
    };
    assert(leads_round(next, cycle, before));
    assert(next[cycle[before]] == next[piece]);
    assert(cycle[before] == piece);
    assert(cycles[c].contains(piece));
}

/// Following the last piece of a path leads on to a new one, or back to the
/// first.
proof fn lemma_path_leads_on(
    alive: Seq<bool>,
    next: Seq<usize>,
    cycles: Seq<Seq<int>>,
    visited: Seq<bool>,
    start: int,
    path: Seq<int>,
)
    requires
        is_linking(alive, next),
        covers_visited(alive, next, cycles, visited, start),
        is_path(alive, next, cycles, start, path),
    ensures
        0 <= next[path.last()] < alive.len(),
        next[path.last()] != start ==> is_path(alive, next, cycles, start, path.push(next[path.last()] as int)),
        next[path.last()] == start ==> is_cycle(alive, next, path),
{
    let last = path.len() - 1;
    let piece = path[last];
    let follower = next[piece] as int;
    assert(0 <= follower < alive.len() && alive[follower]);
    if in_cycles(cycles, follower) {
        lemma_cycles_are_closed(alive, next, cycles, piece);
    }
    if follower < start {
        assert(visited[follower]);
    }
    if follower != start {
        let longer = path.push(follower);
        assert forall|j: int| 0 <= j < path.len() implies #[trigger] path[j] != follower by {
            if path[j] == follower {
                assert(j > 0);
                assert(leads_round(next, path, j - 1));
                assert(next[path[j - 1]] == next[piece]);
                assert(path[j - 1] == path[last]);
            }
        }
        assert forall|k: int| 0 < k < longer.len() implies #[trigger] leads_round(next, longer, k - 1) by {
            if k < path.len() {
                assert(leads_round(next, path, k - 1));
                assert(longer[k] == path[k] && longer[k - 1] == path[k - 1]);
            }
        }
        assert forall|k: int|
            #![trigger longer[k]]
            0 <= k < longer.len() implies start <= longer[k] < alive.len() && alive[longer[k]] && !in_cycles(
            cycles,
            longer[k],
        ) by {
            if k < path.len() {
                assert(longer[k] == path[k]);
            }
        }
    } else {
        assert forall|k: int| 0 <= k < path.len() implies #[trigger] leads_round(next, path, k) by {
            if k + 1 < path.len() {
                let after = k + 1;
                assert(leads_round(next, path, after - 1));
            }
        }
    }
}

/// Follows the pieces from one back to it, marking them visited.
fn close_ring<P: Copy>(
    pieces: &Vec<Vec<P>>,
    alive: &Vec<bool>,
    next: &Vec<usize>,
    corners: &Vec<Vec<P>>,
    visited: &mut Vec<bool>,
    start: usize,
    Ghost(cycles): Ghost<Seq<Seq<int>>>,
) -> (made: (Vec<P>, Ghost<Seq<int>>))
    requires
        pieces@.len() == alive@.len(),
        corners@.len() == alive@.len(),
        is_linking(alive@, next@),
        covers_visited(alive@, next@, cycles, old(visited)@, start as int),
        start < alive@.len(),
        !old(visited)@[start as int],
        forall|i: int| 0 <= i < alive@.len() && alive@[i] ==> (#[trigger] pieces@[i])@.len() > 0,
    ensures
        is_cycle(alive@, next@, made.1@),
        made.1@[0] == start,
        forall|k: int| 0 <= k < made.1@.len() ==> !in_cycles(cycles, #[trigger] made.1@[k]),
        made.0@ == ring_of(made.1@, assemble::points_of(pieces@), assemble::points_of(corners@)),
        final(visited)@.len() == alive@.len(),
        forall|i: int|
            #![trigger final(visited)@[i]]
            0 <= i < alive@.len() ==> (final(visited)@[i] <==> old(visited)@[i] || made.1@.contains(i)),
{
    let ghost before = visited@;
    let ghost lines = assemble::points_of(pieces@);
    let ghost turns = assemble::points_of(corners@);
    let ghost mut path: Seq<int> = seq![start as int];
    let ghost mut done: Seq<int> = Seq::empty();
    let mut ring: Vec<P> = Vec::new();
    let mut current: usize = start;
    proof {
        assert(!in_cycles(cycles, start as int));
        assert(alive@[start as int]);
        assert(path.drop_last() =~= done);
    }
    loop
        invariant_except_break
            current < alive@.len(),
            path.last() == current,
            done == path.drop_last(),
            is_path(alive@, next@, cycles, start as int, path),
        invariant
            pieces@.len() == alive@.len(),
            corners@.len() == alive@.len(),
            next@.len() == alive@.len(),
            is_linking(alive@, next@),
            covers_visited(alive@, next@, cycles, before, start as int),
            start < alive@.len(),
            forall|i: int| 0 <= i < alive@.len() && alive@[i] ==> (#[trigger] pieces@[i])@.len() > 0,
            lines == assemble::points_of(pieces@),
            turns == assemble::points_of(corners@),
            visited@.len() == alive@.len(),
            ring@ == points_along(done, lines, turns),
            forall|i: int|
                #![trigger visited@[i]]
                0 <= i < alive@.len() ==> (visited@[i] <==> before[i] || done.contains(i)),
            done.len() > 0 ==> ring@.len() > 0 && ring@[0] == lines[start as int][0],
            done.len() == 0 ==> path.len() == 1,
        ensures
            is_cycle(alive@, next@, done),
            done.len() > 0,
            done[0] == start,
            forall|k: int| 0 <= k < done.len() ==> !in_cycles(cycles, #[trigger] done[k]),
        decreases alive@.len() - done.len(),
    {
        let ghost marked = visited@;
        visited[current] = true;
        extend_points(&mut ring, &pieces[current]);
        extend_points(&mut ring, &corners[current]);
        proof {
            assert(path.drop_last() =~= done);
            assert(lines[current as int] == pieces@[current as int]@);
            assert(turns[current as int] == corners@[current as int]@);
            assert forall|i: int|
                #![trigger visited@[i]]
                0 <= i < alive@.len() implies (visited@[i] <==> before[i] || path.contains(i)) by {
                lemma_in_longer(done, current as int, i);
                assert(done.push(current as int) =~= path);
                assert(marked[i] <==> before[i] || done.contains(i));
            }
            lemma_path_fits(path, alive@.len() as int);
            lemma_path_leads_on(alive@, next@, cycles, before, start as int, path);
            done = path;
        }
        let following: usize = next[current];
        if following == start {
            break;
        }
        proof {
            path = path.push(following as int);
            assert(path.drop_last() =~= done);
        }
        current = following;
    }
    let first: P = ring[0];
    ring.push(first);
    (ring, Ghost(done))
}

proof fn lemma_in_longer(path: Seq<int>, piece: int, other: int)
    ensures
        path.push(piece).contains(other) <==> path.contains(other) || other == piece,
{
    let longer = path.push(piece);
    if path.contains(other) {
        let k = choose|k: int| 0 <= k < path.len() && path[k] == other;
        assert(longer[k] == other);
    }
    assert(longer[path.len() as int] == piece);
    if longer.contains(other) && other != piece {
        let k = choose|k: int| 0 <= k < longer.len() && longer[k] == other;
        assert(path[k] == other);
    }
}

proof fn lemma_path_fits(path: Seq<int>, count: int)
    requires
        path.no_duplicates(),
        forall|k: int| 0 <= k < path.len() ==> 0 <= #[trigger] path[k] < count,
        0 <= count,
    ensures
        path.len() <= count,
{
    path.unique_seq_to_set();
    let all = vstd::set_lib::set_int_range(0, count);
    vstd::set_lib::lemma_int_range(0, count);
    assert(path.to_set().subset_of(all)) by {
        assert forall|c: int| path.to_set().contains(c) implies all.contains(c) by {
            let k = choose|k: int| 0 <= k < path.len() && path[k] == c;
            assert(0 <= path[k] < count);
        }
    }
    vstd::set_lib::lemma_len_subset(path.to_set(), all);
}

/// Closes the pieces into rings: follow a piece in, walk the perimeter past the
/// corners from its exit to the next entry, follow that piece, until the cycle
/// closes.
///
/// `corners` holds for each piece the corners between its exit and the entry of
/// the one that follows it.
pub fn sea_rings<P: Copy>(
    pieces: &Vec<Vec<P>>,
    alive: &Vec<bool>,
    next: &Vec<usize>,
    corners: &Vec<Vec<P>>,
) -> (rings: Vec<Vec<P>>)
    requires
        pieces@.len() == alive@.len(),
        corners@.len() == alive@.len(),
        is_linking(alive@, next@),
        forall|i: int| 0 <= i < alive@.len() && alive@[i] ==> (#[trigger] pieces@[i])@.len() > 0,
    ensures
        exists|cycles: Seq<Seq<int>>| #[trigger]
            is_cover(alive@, next@, cycles) && assemble::points_of(rings@) == cycles.map_values(
                |cycle: Seq<int>|
                    ring_of(cycle, assemble::points_of(pieces@), assemble::points_of(corners@)),
            ),
{
    let ghost lines = assemble::points_of(pieces@);
    let ghost turns = assemble::points_of(corners@);
    let ghost view = |cycle: Seq<int>| ring_of(cycle, lines, turns);
    let ghost mut cycles: Seq<Seq<int>> = Seq::empty();
    let mut rings: Vec<Vec<P>> = Vec::new();
    let mut visited: Vec<bool> = Vec::new();
    let count: usize = alive.len();
    while visited.len() < count
        invariant
            count == alive@.len(),
            visited@.len() <= count,
            forall|i: int| 0 <= i < visited@.len() ==> #[trigger] visited@[i] == !alive@[i],
        decreases count - visited@.len(),
    {
        visited.push(!alive[visited.len()]);
    }
    let mut start: usize = 0;
    proof {
        reveal(share_nothing);
    }
    while start < count
        invariant
            start <= count,
            count == alive@.len(),
            pieces@.len() == alive@.len(),
            corners@.len() == alive@.len(),
            is_linking(alive@, next@),
            forall|i: int| 0 <= i < alive@.len() && alive@[i] ==> (#[trigger] pieces@[i])@.len() > 0,
            lines == assemble::points_of(pieces@),
            turns == assemble::points_of(corners@),
            view == (|cycle: Seq<int>| ring_of(cycle, lines, turns)),
            covers_visited(alive@, next@, cycles, visited@, start as int),
            assemble::points_of(rings@) =~= cycles.map_values(view),
        decreases count - start,
    {
        if !visited[start] {
            let ghost before = visited@;
            let (ring, cycle) = close_ring(
                pieces,
                alive,
                next,
                corners,
                &mut visited,
                start,
                Ghost(cycles),
            );
            let ghost points = ring@;
            let ghost earlier = assemble::points_of(rings@);
            rings.push(ring);
            proof {
                lemma_one_cycle_more(alive@, next@, cycles, before, visited@, start as int, cycle@);
                assert(assemble::points_of(rings@) =~= earlier.push(points));
                assert(cycles.push(cycle@).map_values(view) =~= cycles.map_values(view).push(view(cycle@)));
                cycles = cycles.push(cycle@);
            }
        }
        start = start + 1;
    }
    proof {
        assert forall|piece: int| 0 <= piece < alive@.len() && alive@[piece] implies #[trigger] in_cycles(
            cycles,
            piece,
        ) by {
            assert(visited@[piece]);
        }
        assert(is_cover(alive@, next@, cycles));
    }
    rings
}

proof fn lemma_in_one_cycle_more(cycles: Seq<Seq<int>>, cycle: Seq<int>, piece: int)
    ensures
        in_cycles(cycles.push(cycle), piece) <==> in_cycles(cycles, piece) || cycle.contains(piece),
{
    let more = cycles.push(cycle);
    if in_cycles(cycles, piece) {
        let c = choose|c: int| 0 <= c < cycles.len() && #[trigger] cycles[c].contains(piece);
        assert(more[c].contains(piece));
    }
    if cycle.contains(piece) {
        assert(more[cycles.len() as int].contains(piece));
    }
    if in_cycles(more, piece) {
        let c = choose|c: int| 0 <= c < more.len() && #[trigger] more[c].contains(piece);
        if c < cycles.len() {
            assert(cycles[c].contains(piece));
        }
    }
}

proof fn lemma_still_share_nothing(cycles: Seq<Seq<int>>, cycle: Seq<int>)
    requires
        share_nothing(cycles),
        forall|k: int| 0 <= k < cycle.len() ==> !in_cycles(cycles, #[trigger] cycle[k]),
    ensures
        share_nothing(cycles.push(cycle)),
{
    reveal(share_nothing);
    let more = cycles.push(cycle);
    assert forall|c: int, d: int, piece: int|
        #![trigger more[c].contains(piece), more[d].contains(piece)]
        0 <= c < more.len() && 0 <= d < more.len() && more[c].contains(piece) && more[d].contains(piece) implies c
        == d by {
        if c < cycles.len() {
            assert(cycles[c].contains(piece));
        }
        if d < cycles.len() {
            assert(cycles[d].contains(piece));
        }
        if (c < cycles.len()) != (d < cycles.len()) {
            let k = choose|k: int| 0 <= k < cycle.len() && cycle[k] == piece;
            assert(!in_cycles(cycles, cycle[k]));
        }
    }
}

proof fn lemma_one_cycle_more(
    alive: Seq<bool>,
    next: Seq<usize>,
    cycles: Seq<Seq<int>>,
    before: Seq<bool>,
    visited: Seq<bool>,
    start: int,
    cycle: Seq<int>,
)
    requires
        covers_visited(alive, next, cycles, before, start),
        0 <= start < alive.len(),
        !before[start],
        is_cycle(alive, next, cycle),
        cycle[0] == start,
        forall|k: int| 0 <= k < cycle.len() ==> !in_cycles(cycles, #[trigger] cycle[k]),
        visited.len() == alive.len(),
        forall|i: int|
            #![trigger visited[i]]
            0 <= i < alive.len() ==> (visited[i] <==> before[i] || cycle.contains(i)),
    ensures
        covers_visited(alive, next, cycles.push(cycle), visited, start + 1),
{
    let more = cycles.push(cycle);
    lemma_still_share_nothing(cycles, cycle);
    assert forall|i: int| 0 <= i < start + 1 implies #[trigger] visited[i] by {
        if i < start {
            assert(before[i]);
        } else {
            assert(cycle.contains(cycle[0]));
        }
    }
    assert forall|i: int|
        #![trigger visited[i]]
        0 <= i < alive.len() implies (visited[i] <==> !alive[i] || in_cycles(more, i)) by {
        assert(before[i] <==> !alive[i] || in_cycles(cycles, i));
        lemma_in_one_cycle_more(cycles, cycle, i);
    }
    assert forall|c: int| 0 <= c < more.len() implies is_cycle(alive, next, #[trigger] more[c]) && more[c][0] < start + 1 by {
        if c < cycles.len() {
            assert(more[c] == cycles[c]);
        }
    }
}

/// The corners passed on the way along the perimeter, given how far ahead each
/// is and how far the way goes: those short of its end, nearest first.
pub fn corners_between(ahead: &Vec<u64>, span: u64) -> (passed: Vec<usize>)
    ensures
        forall|i: int, j: int|
            #![trigger passed@[i], passed@[j]]
            0 <= i < j < passed@.len() ==> {
                let (a, b) = (passed@[i] as int, passed@[j] as int);
                ahead@[a] < ahead@[b] || (ahead@[a] == ahead@[b] && a < b)
            },
        forall|k: int| 0 <= k < passed@.len() ==> (#[trigger] passed@[k]) < ahead@.len(),
        forall|corner: int|
            0 <= corner < ahead@.len() ==> (#[trigger] passed@.contains(corner as usize) <==> ahead@[corner] < span),
{
    let mut keys: Vec<u128> = Vec::new();
    let mut i: usize = 0;
    while i < ahead.len()
        invariant
            i <= ahead@.len(),
            keys@.len() == i,
            forall|k: int| 0 <= k < i ==> #[trigger] keys@[k] == ahead@[k],
        decreases ahead@.len() - i,
    {
        keys.push(ahead[i] as u128);
        i = i + 1;
    }
    let sorted = stable_order(&keys);
    let mut passed: Vec<usize> = Vec::new();
    let mut k: usize = 0;
    while k < sorted.len() && ahead[sorted[k]] < span
        invariant
            k <= sorted@.len(),
            keys@.len() == ahead@.len(),
            forall|j: int| 0 <= j < keys@.len() ==> #[trigger] keys@[j] == ahead@[j],
            order::is_order(keys@, sorted@),
            passed@ =~= sorted@.take(k as int),
            forall|j: int| 0 <= j < k ==> ahead@[(#[trigger] sorted@[j]) as int] < span,
        decreases sorted@.len() - k,
    {
        passed.push(sorted[k]);
        k = k + 1;
    }
    proof {
        assert(ahead.len() <= usize::MAX);
        assert forall|i: int, j: int|
            #![trigger passed@[i], passed@[j]]
            0 <= i < j < passed@.len() implies {
            let (a, b) = (passed@[i] as int, passed@[j] as int);
            ahead@[a] < ahead@[b] || (ahead@[a] == ahead@[b] && a < b)
        } by {
            assert(order::ahead(keys@, sorted@[i] as int, sorted@[j] as int));
            assert(keys@[sorted@[i] as int] == ahead@[sorted@[i] as int]);
            assert(keys@[sorted@[j] as int] == ahead@[sorted@[j] as int]);
        }
        assert forall|corner: int| 0 <= corner < ahead@.len() implies (#[trigger] passed@.contains(corner as usize)
            <==> ahead@[corner] < span) by {
            assert(sorted@.contains(corner as usize));
            let at = choose|at: int| 0 <= at < sorted@.len() && sorted@[at] == corner as usize;
            if at < k {
                assert(passed@[at] == corner as usize);
            } else {
                if at > k {
                    assert(order::ahead(keys@, sorted@[k as int] as int, sorted@[at] as int));
                    assert(keys@[sorted@[k as int] as int] == ahead@[sorted@[k as int] as int]);
                    assert(keys@[corner] == ahead@[corner]);
                }
                assert(ahead@[corner] >= span);
                if passed@.contains(corner as usize) {
                    let m = choose|m: int| 0 <= m < passed@.len() && passed@[m] == corner as usize;
                    assert(ahead@[sorted@[m] as int] < span);
                }
            }
        }
    }
    passed
}

/// The islands among some rings: those that sea surrounds.
pub open spec fn surrounded_only<P>(rings: Seq<Seq<P>>, surrounded: Seq<bool>) -> Seq<Seq<P>>
    decreases rings.len(),
{
    if rings.len() == 0 {
        Seq::empty()
    } else {
        let before = surrounded_only(rings.drop_last(), surrounded.drop_last());
        if surrounded.last() {
            before.push(rings.last())
        } else {
            before
        }
    }
}

/// Keeps the islands that sea surrounds; one whose sea was dropped would invert
/// and fill as water. Returns also how many were dropped.
pub fn keep_islands<P: Copy>(rings: &Vec<Vec<P>>, surrounded: &Vec<bool>) -> (kept: (Vec<Vec<P>>, usize))
    requires
        surrounded@.len() == rings@.len(),
    ensures
        assemble::points_of(kept.0@) == surrounded_only(assemble::points_of(rings@), surrounded@),
        kept.1 == rings@.len() - kept.0@.len(),
{
    let ghost all = assemble::points_of(rings@);
    let mut kept: Vec<Vec<P>> = Vec::new();
    let mut dropped: usize = 0;
    let mut i: usize = 0;
    while i < rings.len()
        invariant
            i <= rings@.len(),
            surrounded@.len() == rings@.len(),
            all == assemble::points_of(rings@),
            assemble::points_of(kept@) =~= surrounded_only(all.take(i as int), surrounded@.take(i as int)),
            dropped == i - kept@.len(),
        decreases rings@.len() - i,
    {
        assert(all.take(i + 1).drop_last() =~= all.take(i as int));
        assert(surrounded@.take(i + 1).drop_last() =~= surrounded@.take(i as int));
        if surrounded[i] {
            kept.push(copied(&rings[i]));
        } else {
            dropped = dropped + 1;
        }
        i = i + 1;
    }
    assert(all.take(i as int) =~= all);
    assert(surrounded@.take(i as int) =~= surrounded@);
    (kept, dropped)
}

/// The ocean as one polygon, filled even-odd: the rings closed along the edge, and
/// the islands that sea surrounds. `None` where no ring closed, whatever islands
/// there are: one without sea around it would fill as sea. Returns also how many
/// islands were dropped.
pub fn ocean<P: Copy>(rings: Vec<Vec<P>>, islands: &Vec<Vec<P>>, surrounded: &Vec<bool>) -> (sea: (
    Option<Polygon<P>>,
    usize,
))
    requires
        surrounded@.len() == islands@.len(),
    ensures
        ({
            let kept = if rings@.len() == 0 {
                Seq::empty()
            } else {
                surrounded_only(assemble::points_of(islands@), surrounded@)
            };
            &&& match sea.0 {
                Some(polygon) => {
                    &&& rings@.len() > 0
                    &&& polygon.material == Material::Ocean
                    &&& polygon.layer == material::layer_of(Material::Ocean)
                    &&& assemble::points_of(polygon.rings@) == assemble::points_of(rings@) + kept
                },
                None => rings@.len() == 0,
            }
            &&& sea.1 == islands@.len() - kept.len()
        }),
{
    if rings.len() == 0 {
        return (None, islands.len());
    }
    let ghost closed = assemble::points_of(rings@);
    let (kept, dropped) = keep_islands(islands, surrounded);
    let ghost more = assemble::points_of(kept@);
    let mut all = rings;
    let mut kept = kept;
    all.append(&mut kept);
    assert(assemble::points_of(all@) =~= closed + more);
    assert(assemble::points_of(all@).len() == all@.len());
    (Polygon::new(Material::Ocean, all), dropped)
}

/// Every ring of the sea ends where it started.
pub proof fn a_ring_of_the_sea_closes<P>(
    alive: Seq<bool>,
    next: Seq<usize>,
    cycle: Seq<int>,
    pieces: Seq<Seq<P>>,
    corners: Seq<Seq<P>>,
)
    requires
        is_cycle(alive, next, cycle),
        forall|i: int| 0 <= i < alive.len() && alive[i] ==> (#[trigger] pieces[i]).len() > 0,
    ensures
        ring_of(cycle, pieces, corners).first() == ring_of(cycle, pieces, corners).last(),
{
    lemma_starts_with_its_first_piece(cycle, pieces, corners);
    assert(pieces[cycle[0]].len() > 0);
}

proof fn lemma_starts_with_its_first_piece<P>(cycle: Seq<int>, pieces: Seq<Seq<P>>, corners: Seq<Seq<P>>)
    requires
        cycle.len() > 0,
    ensures
        points_along(cycle, pieces, corners).len() >= pieces[cycle[0]].len(),
        pieces[cycle[0]].len() > 0 ==> points_along(cycle, pieces, corners)[0] == pieces[cycle[0]][0],
    decreases cycle.len(),
{
    if cycle.len() == 1 {
        assert(points_along(cycle.drop_last(), pieces, corners) =~= Seq::<P>::empty());
    } else {
        lemma_starts_with_its_first_piece(cycle.drop_last(), pieces, corners);
    }
}

/// The rings of the sea are settled: a linking falls into one list of cycles and
/// no other.
pub proof fn the_rings_of_the_sea_are_settled(
    alive: Seq<bool>,
    next: Seq<usize>,
    cycles: Seq<Seq<int>>,
    others: Seq<Seq<int>>,
)
    requires
        is_cover(alive, next, cycles),
        is_cover(alive, next, others),
    ensures
        cycles == others,
{
    lemma_settled_upto(alive, next, cycles, others, cycles.len() as int);
    lemma_settled_upto(alive, next, others, cycles, others.len() as int);
    assert(cycles =~= others);
}

proof fn lemma_settled_upto(
    alive: Seq<bool>,
    next: Seq<usize>,
    cycles: Seq<Seq<int>>,
    others: Seq<Seq<int>>,
    upto: int,
)
    requires
        is_cover(alive, next, cycles),
        is_cover(alive, next, others),
        0 <= upto <= cycles.len(),
    ensures
        upto <= others.len(),
        forall|c: int| 0 <= c < upto ==> #[trigger] cycles[c] == others[c],
    decreases upto,
{
    if upto > 0 {
        let c = upto - 1;
        lemma_settled_upto(alive, next, cycles, others, c);
        lemma_starts_no_earlier(alive, next, cycles, others, c);
        lemma_starts_no_earlier(alive, next, others, cycles, c);
        lemma_one_cycle_from_a_piece(alive, next, cycles[c], others[c]);
    }
}

proof fn lemma_starts_no_earlier(
    alive: Seq<bool>,
    next: Seq<usize>,
    cycles: Seq<Seq<int>>,
    others: Seq<Seq<int>>,
    c: int,
)
    requires
        is_cover(alive, next, cycles),
        is_cover(alive, next, others),
        0 <= c < cycles.len(),
        c <= others.len(),
        forall|d: int| 0 <= d < c ==> #[trigger] cycles[d] == others[d],
    ensures
        c < others.len(),
        others[c][0] <= cycles[c][0],
{
    reveal(share_nothing);
    let piece = cycles[c][0];
    assert(is_cycle(alive, next, cycles[c]));
    assert(cycles[c].contains(piece));
    assert(in_cycles(others, piece));
    let d = choose|d: int| 0 <= d < others.len() && #[trigger] others[d].contains(piece);
    if d < c {
        assert(cycles[d] == others[d]);
        assert(cycles[d].contains(piece));
    }
    assert(is_cycle(alive, next, others[d]));
    let k = choose|k: int| 0 <= k < others[d].len() && others[d][k] == piece;
    assert(others[d][0] <= others[d][k]);
}

proof fn lemma_one_cycle_from_a_piece(alive: Seq<bool>, next: Seq<usize>, cycle: Seq<int>, other: Seq<int>)
    requires
        is_cycle(alive, next, cycle),
        is_cycle(alive, next, other),
        cycle[0] == other[0],
    ensures
        cycle == other,
{
    let shorter = if cycle.len() <= other.len() {
        cycle.len() as int
    } else {
        other.len() as int
    };
    lemma_cycles_keep_step(alive, next, cycle, other, shorter - 1);
    assert(leads_round(next, cycle, shorter - 1) && leads_round(next, other, shorter - 1));
    assert(cycle[shorter - 1] == other[shorter - 1]);
    assert(cycle.len() == other.len());
    assert(cycle =~= other);
}

proof fn lemma_cycles_keep_step(alive: Seq<bool>, next: Seq<usize>, cycle: Seq<int>, other: Seq<int>, upto: int)
    requires
        is_cycle(alive, next, cycle),
        is_cycle(alive, next, other),
        cycle[0] == other[0],
        0 <= upto < cycle.len(),
        upto < other.len(),
    ensures
        forall|k: int| 0 <= k <= upto ==> #[trigger] cycle[k] == other[k],
    decreases upto,
{
    if upto > 0 {
        lemma_cycles_keep_step(alive, next, cycle, other, upto - 1);
        assert(leads_round(next, cycle, upto - 1) && leads_round(next, other, upto - 1));
        assert(cycle[upto - 1] == other[upto - 1]);
    }
}

/// A coast that is sound is left alone: where every exit already meets an entry
/// no piece is dropped.
pub proof fn a_sound_coast_is_left_alone(crossings: Seq<Crossing>, alive: Seq<bool>)
    requires
        perimeter(crossings, alive).len() > 0,
        alternates(perimeter(crossings, alive)),
    ensures
        repaired(crossings, alive) == Some(alive),
{
    let walk = perimeter(crossings, alive);
    lemma_first_clash(walk, 0);
    if let Some(at) = first_clash(walk, 0) {
        assert(clashes(walk, at));
    }
}

/// A piece that is dropped stays dropped.
pub proof fn dropped_pieces_stay_dropped(crossings: Seq<Crossing>, alive: Seq<bool>, piece: int)
    requires
        0 <= piece < alive.len(),
        !alive[piece],
        repaired(crossings, alive) is Some,
    ensures
        repaired(crossings, alive)->0.len() == alive.len(),
        !repaired(crossings, alive)->0[piece],
    decreases living(alive),
{
    let walk = perimeter(crossings, alive);
    if let Some(at) = first_clash(walk, 0) {
        let drop = shorter_at(crossings, walk, at);
        if 0 <= drop < alive.len() && alive[drop] {
            lemma_dropping_one(alive, drop);
            dropped_pieces_stay_dropped(crossings, alive.update(drop, false), piece);
        }
    }
}

/// How many points of a ring come before a piece of its cycle: those of every
/// earlier piece and of the corners behind it.
pub open spec fn points_before<P>(cycle: Seq<int>, pieces: Seq<Seq<P>>, corners: Seq<Seq<P>>, k: int) -> int
    decreases k,
{
    if k <= 0 {
        0
    } else {
        points_before(cycle, pieces, corners, k - 1) + pieces[cycle[k - 1]].len() + corners[cycle[k - 1]].len()
    }
}

proof fn lemma_points_before_grow<P>(cycle: Seq<int>, pieces: Seq<Seq<P>>, corners: Seq<Seq<P>>, a: int, b: int)
    requires
        0 <= a <= b,
    ensures
        0 <= points_before(cycle, pieces, corners, a) <= points_before(cycle, pieces, corners, b),
    decreases b,
{
    if b > 0 {
        if a < b {
            lemma_points_before_grow(cycle, pieces, corners, a, b - 1);
        } else {
            lemma_points_before_grow(cycle, pieces, corners, b - 1, b - 1);
        }
    }
}

proof fn lemma_points_before_look_back<P>(
    longer: Seq<int>,
    shorter: Seq<int>,
    pieces: Seq<Seq<P>>,
    corners: Seq<Seq<P>>,
    k: int,
)
    requires
        longer.len() > 0,
        shorter == longer.drop_last(),
        k <= shorter.len(),
    ensures
        points_before(longer, pieces, corners, k) == points_before(shorter, pieces, corners, k),
    decreases k,
{
    if k > 0 {
        lemma_points_before_look_back(longer, shorter, pieces, corners, k - 1);
    }
}

proof fn lemma_where_a_piece_lies<P>(cycle: Seq<int>, pieces: Seq<Seq<P>>, corners: Seq<Seq<P>>, k: int)
    requires
        0 <= k < cycle.len(),
    ensures
        points_along(cycle, pieces, corners).len() == points_before(cycle, pieces, corners, cycle.len() as int),
        ({
            let along = points_along(cycle, pieces, corners);
            let at = points_before(cycle, pieces, corners, k);
            let turn = at + pieces[cycle[k]].len();
            &&& 0 <= at
            &&& turn + corners[cycle[k]].len() <= along.len()
            &&& forall|i: int| 0 <= i < pieces[cycle[k]].len() ==> #[trigger] along[at + i] == pieces[cycle[k]][i]
            &&& forall|i: int|
                0 <= i < corners[cycle[k]].len() ==> #[trigger] along[turn + i] == corners[cycle[k]][i]
        }),
    decreases cycle.len(),
{
    let shorter = cycle.drop_last();
    let n = shorter.len() as int;
    let before = points_along(shorter, pieces, corners);
    let along = points_along(cycle, pieces, corners);
    lemma_points_before_look_back(cycle, shorter, pieces, corners, n);
    lemma_points_before_look_back(cycle, shorter, pieces, corners, k);
    lemma_points_before_grow(cycle, pieces, corners, 0, k);
    lemma_points_before_grow(cycle, pieces, corners, k + 1, cycle.len() as int);
    if n == 0 {
        assert(before.len() == 0);
    } else if k < n {
        lemma_where_a_piece_lies(shorter, pieces, corners, k);
        let at = points_before(cycle, pieces, corners, k);
        let turn = at + pieces[cycle[k]].len();
        assert forall|i: int| 0 <= i < pieces[cycle[k]].len() implies #[trigger] along[at + i] == pieces[cycle[k]][i] by {
            assert(before[at + i] == pieces[cycle[k]][i]);
        }
        assert forall|i: int| 0 <= i < corners[cycle[k]].len() implies #[trigger] along[turn + i]
            == corners[cycle[k]][i] by {
            assert(before[turn + i] == corners[cycle[k]][i]);
        }
    } else {
        lemma_where_a_piece_lies(shorter, pieces, corners, n - 1);
    }
}

/// A ring of the sea runs through every piece of its cycle, and round every
/// corner behind each. The pieces come one after another in the cycle's order,
/// each with all its points and right behind them all the corners between its
/// exit and the next entry; then the ring ends, on its first point. So it is as
/// long as all its pieces and corners together, and one more.
pub proof fn a_ring_runs_through_every_piece_and_corner<P>(
    cycle: Seq<int>,
    pieces: Seq<Seq<P>>,
    corners: Seq<Seq<P>>,
    k: int,
)
    requires
        0 <= k < cycle.len(),
    ensures
        ({
            let ring = ring_of(cycle, pieces, corners);
            let at = points_before(cycle, pieces, corners, k);
            let turn = at + pieces[cycle[k]].len();
            let end = turn + corners[cycle[k]].len();
            &&& 0 <= at <= turn <= end < ring.len()
            &&& ring.subrange(at, turn) == pieces[cycle[k]]
            &&& ring.subrange(turn, end) == corners[cycle[k]]
            &&& forall|i: int| 0 <= i < pieces[cycle[k]].len() ==> ring.contains(#[trigger] pieces[cycle[k]][i])
            &&& forall|i: int| 0 <= i < corners[cycle[k]].len() ==> ring.contains(#[trigger] corners[cycle[k]][i])
            &&& ring.len() == points_before(cycle, pieces, corners, cycle.len() as int) + 1
            &&& ring[ring.len() - 1] == pieces[cycle[0]][0]
        }),
{
    let ring = ring_of(cycle, pieces, corners);
    let at = points_before(cycle, pieces, corners, k);
    let turn = at + pieces[cycle[k]].len();
    let end = turn + corners[cycle[k]].len();
    let along = points_along(cycle, pieces, corners);
    lemma_where_a_piece_lies(cycle, pieces, corners, k);
    assert forall|i: int| 0 <= i < pieces[cycle[k]].len() implies ring.contains(#[trigger] pieces[cycle[k]][i]) by {
        assert(along[at + i] == pieces[cycle[k]][i]);
        assert(ring[at + i] == along[at + i]);
    }
    assert forall|i: int| 0 <= i < corners[cycle[k]].len() implies ring.contains(#[trigger] corners[cycle[k]][i]) by {
        assert(along[turn + i] == corners[cycle[k]][i]);
        assert(ring[turn + i] == along[turn + i]);
    }
    assert forall|i: int| 0 <= i < pieces[cycle[k]].len() implies ring.subrange(at, turn)[i] == pieces[cycle[k]][i] by {
        assert(along[at + i] == pieces[cycle[k]][i]);
    }
    assert(ring.subrange(at, turn) =~= pieces[cycle[k]]);
    assert forall|i: int| 0 <= i < corners[cycle[k]].len() implies ring.subrange(turn, end)[i]
        == corners[cycle[k]][i] by {
        assert(along[turn + i] == corners[cycle[k]][i]);
    }
    assert(ring.subrange(turn, end) =~= corners[cycle[k]]);
}

/// Every piece that is in is in one ring of the sea, at one place, and what
/// comes after it there is the piece it leads to; no ring holds anything else,
/// and the rings come in the order of their lowest pieces, each told from that.
pub proof fn every_piece_is_in_one_ring(alive: Seq<bool>, next: Seq<usize>, cycles: Seq<Seq<int>>, piece: int)
    requires
        is_cover(alive, next, cycles),
        0 <= piece < alive.len(),
        alive[piece],
    ensures
        exists|c: int, k: int|
            0 <= c < cycles.len() && 0 <= k < cycles[c].len() && #[trigger] cycles[c][k] == piece,
        forall|c: int, k: int, d: int, m: int|
            #![trigger cycles[c][k], cycles[d][m]]
            0 <= c < cycles.len() && 0 <= k < cycles[c].len() && 0 <= d < cycles.len() && 0 <= m < cycles[d].len()
                && cycles[c][k] == cycles[d][m] ==> c == d && k == m,
        forall|c: int, k: int|
            #![trigger cycles[c][k]]
            0 <= c < cycles.len() && 0 <= k < cycles[c].len() ==> {
                &&& 0 <= cycles[c][k] < alive.len()
                &&& alive[cycles[c][k]]
                &&& cycles[c][0] <= cycles[c][k]
                &&& k < cycles[c].len() - 1 ==> next[cycles[c][k]] == cycles[c][k + 1]
                &&& k == cycles[c].len() - 1 ==> next[cycles[c][k]] == cycles[c][0]
            },
        forall|c: int, d: int|
            #![trigger cycles[c], cycles[d]]
            0 <= c < d < cycles.len() ==> cycles[c][0] < cycles[d][0],
{
    reveal(share_nothing);
    assert(in_cycles(cycles, piece));
    let c = choose|c: int| 0 <= c < cycles.len() && #[trigger] cycles[c].contains(piece);
    let k = choose|k: int| 0 <= k < cycles[c].len() && cycles[c][k] == piece;
    assert(cycles[c][k] == piece);
    assert forall|c: int, k: int, d: int, m: int|
        #![trigger cycles[c][k], cycles[d][m]]
        0 <= c < cycles.len() && 0 <= k < cycles[c].len() && 0 <= d < cycles.len() && 0 <= m < cycles[d].len()
            && cycles[c][k] == cycles[d][m] implies c == d && k == m by {
        assert(cycles[c].contains(cycles[c][k]) && cycles[d].contains(cycles[d][m]));
        assert(is_cycle(alive, next, cycles[c]));
    }
    assert forall|c: int, k: int|
        #![trigger cycles[c][k]]
        0 <= c < cycles.len() && 0 <= k < cycles[c].len() implies {
        &&& 0 <= cycles[c][k] < alive.len()
        &&& alive[cycles[c][k]]
        &&& cycles[c][0] <= cycles[c][k]
        &&& k < cycles[c].len() - 1 ==> next[cycles[c][k]] == cycles[c][k + 1]
        &&& k == cycles[c].len() - 1 ==> next[cycles[c][k]] == cycles[c][0]
    } by {
        assert(is_cycle(alive, next, cycles[c]));
        assert(leads_round(next, cycles[c], k));
    }
}

/// How far along the walk an end of a piece lies.
pub open spec fn distance_of(crossings: Seq<Crossing>, event: Event) -> int {
    if event.entry {
        crossings[event.index as int].entry as int
    } else {
        crossings[event.index as int].exit as int
    }
}

proof fn lemma_events_run_by_piece(alive: Seq<bool>, upto: int)
    requires
        0 <= upto <= alive.len() <= usize::MAX,
    ensures
        ({
            let events = events_upto(alive, upto);
            &&& events.len() == 2 * order::chosen(alive, upto)
            &&& forall|i: int| 0 <= i < events.len() ==> (#[trigger] events[i]).index < upto
            &&& forall|i: int, j: int|
                #![trigger events[i], events[j]]
                0 <= i < j < events.len() ==> events[i].index < events[j].index || (events[i].index
                    == events[j].index && events[i].entry && !events[j].entry)
        }),
    decreases upto,
{
    if upto > 0 {
        lemma_events_run_by_piece(alive, upto - 1);
        let before = events_upto(alive, upto - 1);
        let events = events_upto(alive, upto);
        assert forall|i: int| 0 <= i < before.len() implies #[trigger] events[i] == before[i] by {}
    }
}

/// The walk goes by distance. It meets both ends of every piece that is in and
/// of no other, each once, and never goes back; at one distance it meets the
/// pieces in their order, and a piece's entry ahead of its exit.
pub proof fn the_walk_goes_by_distance(crossings: Seq<Crossing>, alive: Seq<bool>, walk: Seq<Event>)
    requires
        is_perimeter(crossings, alive, walk),
        2 * alive.len() <= usize::MAX,
    ensures
        walk.len() == 2 * order::chosen(alive, alive.len() as int),
        forall|k: int|
            #![trigger walk[k]]
            0 <= k < walk.len() ==> walk[k].index < alive.len() && alive[walk[k].index as int],
        forall|i: int, entry: bool|
            0 <= i < alive.len() && alive[i] ==> #[trigger] walk.contains(Event { index: i as usize, entry }),
        forall|i: int, j: int|
            #![trigger walk[i], walk[j]]
            0 <= i < j < walk.len() ==> {
                let (a, b) = (distance_of(crossings, walk[i]), distance_of(crossings, walk[j]));
                &&& a <= b
                &&& a == b ==> walk[i].index < walk[j].index || (walk[i].index == walk[j].index && walk[i].entry
                    && !walk[j].entry)
            },
{
    let count = alive.len() as int;
    let events = events_upto(alive, count);
    lemma_events_run_by_piece(alive, count);
    order::lemma_chosen_grows(alive, 0, count);
    lemma_perimeter_complete(crossings, alive, walk);
    let keys = event_keys(crossings, events);
    let sorted = choose|sorted: Seq<usize>| #[trigger]
        order::is_order(keys, sorted) && walk == sorted.map_values(|at: usize| events[at as int]);
    assert forall|i: int, j: int|
        #![trigger walk[i], walk[j]]
        0 <= i < j < walk.len() implies {
        let (a, b) = (distance_of(crossings, walk[i]), distance_of(crossings, walk[j]));
        &&& a <= b
        &&& a == b ==> walk[i].index < walk[j].index || (walk[i].index == walk[j].index && walk[i].entry
            && !walk[j].entry)
    } by {
        assert(order::ahead(keys, sorted[i] as int, sorted[j] as int));
        assert(walk[i] == events[sorted[i] as int] && walk[j] == events[sorted[j] as int]);
        assert(keys[sorted[i] as int] == key_at(crossings, walk[i]));
        assert(keys[sorted[j] as int] == key_at(crossings, walk[j]));
    }
}

/// Where the first two of a kind follow each other on the walk, the shorter of
/// the two pieces is dropped and the repair goes on without it; of two as long
/// as each other, the one met first.
pub proof fn the_shorter_of_two_of_a_kind_is_dropped(
    crossings: Seq<Crossing>,
    alive: Seq<bool>,
    walk: Seq<Event>,
    at: int,
    after: int,
)
    requires
        is_perimeter(crossings, alive, walk),
        2 * alive.len() <= usize::MAX,
        0 <= at < walk.len(),
        after == at + 1 || (at == walk.len() - 1 && after == 0),
        0 <= after < walk.len(),
        walk[at].entry == walk[after].entry,
        forall|k: int| 0 <= k < at ==> (#[trigger] walk[k]).entry != walk[k + 1].entry,
    ensures
        ({
            let (a, b) = (walk[at].index as int, walk[after].index as int);
            &&& crossings[a].metres <= crossings[b].metres ==> repaired(crossings, alive) == repaired(
                crossings,
                alive.update(a, false),
            )
            &&& crossings[a].metres > crossings[b].metres ==> repaired(crossings, alive) == repaired(
                crossings,
                alive.update(b, false),
            )
        }),
{
    the_walk_goes_by_distance(crossings, alive, walk);
    order::lemma_chosen_grows(alive, 0, alive.len() as int);
    lemma_events_run_by_piece(alive, alive.len() as int);
    lemma_perimeter_is(crossings, alive, walk);
    let n = walk.len() as int;
    lemma_next_round(at, n);
    lemma_first_clash(walk, 0);
    assert forall|k: int| 0 <= k < at implies !#[trigger] clashes(walk, k) by {
        lemma_next_round(k, n);
        assert(walk[k].entry != walk[k + 1].entry);
    }
    assert(clashes(walk, at));
    assert(first_clash(walk, 0) == Some(at));
    assert(alive[walk[at].index as int] && alive[walk[after].index as int]);
}

/// What a repair leaves is sound: round the walk past it, exits and entries take
/// turns, the last event and the first as well. Where nothing is left to walk
/// past, there is no sea.
pub proof fn a_repaired_coast_is_sound(crossings: Seq<Crossing>, alive: Seq<bool>, walk: Seq<Event>)
    requires
        is_perimeter(crossings, alive, walk),
        2 * alive.len() <= usize::MAX,
    ensures
        walk.len() == 0 ==> repaired(crossings, alive) is None,
        walk.len() > 0 && walk[walk.len() - 1].entry != walk[0].entry && (forall|k: int|
            0 <= k < walk.len() - 1 ==> (#[trigger] walk[k]).entry != walk[k + 1].entry) ==> repaired(
            crossings,
            alive,
        ) == Some(alive),
        repaired(crossings, alive) == Some(alive) ==> {
            &&& walk.len() > 0
            &&& walk[walk.len() - 1].entry != walk[0].entry
            &&& forall|k: int| 0 <= k < walk.len() - 1 ==> (#[trigger] walk[k]).entry != walk[k + 1].entry
        },
{
    the_walk_goes_by_distance(crossings, alive, walk);
    order::lemma_chosen_grows(alive, 0, alive.len() as int);
    lemma_events_run_by_piece(alive, alive.len() as int);
    lemma_perimeter_is(crossings, alive, walk);
    let n = walk.len() as int;
    lemma_first_clash(walk, 0);
    if n > 0 {
        lemma_next_round(n - 1, n);
    }
    if walk.len() > 0 && walk[n - 1].entry != walk[0].entry && (forall|k: int|
        0 <= k < n - 1 ==> (#[trigger] walk[k]).entry != walk[k + 1].entry) {
        if let Some(at) = first_clash(walk, 0) {
            lemma_next_round(at, n);
            assert(clashes(walk, at));
            assert(walk[at].entry == walk[(at + 1) % n].entry);
        }
    }
    if repaired(crossings, alive) == Some(alive) {
        if let Some(at) = first_clash(walk, 0) {
            let drop = shorter_at(crossings, walk, at);
            dropped_pieces_stay_dropped(crossings, alive.update(drop, false), drop);
        }
        assert(!clashes(walk, n - 1));
        assert forall|k: int| 0 <= k < n - 1 implies (#[trigger] walk[k]).entry != walk[k + 1].entry by {
            assert(!clashes(walk, k));
            lemma_next_round(k, n);
        }
    }
}

/// The islands kept are those sea surrounds, every one of them, in order.
pub proof fn every_surrounded_island_is_kept<P>(rings: Seq<Seq<P>>, surrounded: Seq<bool>)
    requires
        rings.len() == surrounded.len(),
    ensures
        order::picks(surrounded_only(rings, surrounded), rings, surrounded),
    decreases rings.len(),
{
    if rings.len() > 0 {
        every_surrounded_island_is_kept(rings.drop_last(), surrounded.drop_last());
        let list = surrounded_only(rings, surrounded);
        if surrounded.last() {
            assert(list.drop_last() =~= surrounded_only(rings.drop_last(), surrounded.drop_last()));
        }
        order::lemma_picks_one_more(list, rings, surrounded);
    }
}

} // verus!
