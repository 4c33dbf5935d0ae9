//! Where the water goes: filling the hollows and the order they fill in.
//!
//! The flood starts from the edge of the map, which is where water leaves. It
//! repeatedly takes the lowest cell reached so far and steps to the neighbours
//! nothing has reached yet, raising each to at least the level of the cell that
//! reached it. A cell in a hollow is therefore reached over the hollow's rim
//! and raised to it, and a cell on open ground is left alone.
//!
//! Heights are the integer keys of [`crate::keys`], which sort as the heights
//! themselves do.

use vstd::prelude::*;
use crate::lattice;
use crate::queue;
use crate::queue::Queue;

verus! {

/// The key of a height nothing has reached: one that is not a finite number.
pub const UNREACHED: u32 = 0xff80_0000;

/// What the edge of the map was reached from.
pub const NOWHERE: u32 = 0xffff_ffff;

/// The larger of two keys.
pub open spec fn higher(a: u32, b: u32) -> u32 {
    if a >= b {
        a
    } else {
        b
    }
}

/// When the flood stepped onto a cell: the place in the order of the cell it
/// came from, or before everything for the edge.
pub open spec fn reached_at(order: Seq<u32>, reached_by: Seq<u32>, cell: int) -> int {
    if reached_by[cell] == NOWHERE {
        -1
    } else {
        order.index_of(reached_by[cell])
    }
}

/// What a flood of `heights` leaves behind.
///
/// These clauses settle every value: see [`a_flood_has_one_outcome`].
pub open spec fn flooded(
    width: int,
    rows: int,
    heights: Seq<u32>,
    filled: Seq<u32>,
    reached_by: Seq<u32>,
    order: Seq<u32>,
) -> bool {
    let count = width * rows;
    &&& filled.len() == count
    &&& reached_by.len() == count
    // Every cell comes out once.
    &&& order.len() == count
    &&& order.no_duplicates()
    &&& forall|k: int| 0 <= k < count ==> (#[trigger] order[k]) < count
    // The edge is reached from nowhere and keeps its height.
    &&& forall|cell: int|
        #![trigger reached_by[cell]]
        0 <= cell < count && lattice::on_edge(width, rows, cell) ==> reached_by[cell] == NOWHERE
            && filled[cell] == heights[cell]
    // Any other cell is reached by the first of its neighbours to come out, and
    // raised to that neighbour's level where it lies below it.
    &&& forall|cell: int|
        #![trigger reached_by[cell]]
        0 <= cell < count && !lattice::on_edge(width, rows, cell) ==> {
            let by = reached_by[cell] as int;
            &&& by < count
            &&& lattice::adjacent(width, by, cell)
            &&& filled[cell] == higher(heights[cell], filled[by])
            &&& order.contains(reached_by[cell])
        }
    &&& forall|k: int, cell: int|
        #![trigger order[k], reached_by[cell]]
        0 <= k < count && 0 <= cell < count && !lattice::on_edge(width, rows, cell) && lattice::adjacent(
            width,
            order[k] as int,
            cell,
        ) ==> reached_at(order, reached_by, cell) <= k
    // A cell comes out after it is reached.
    &&& forall|k: int| #![trigger order[k]] 0 <= k < count ==> reached_at(order, reached_by, order[k] as int) < k
    // What comes out is the lowest cell reached so far, the lowest index first.
    &&& forall|k: int, m: int|
        #![trigger order[k], order[m]]
        0 <= k < m < count && reached_at(order, reached_by, order[m] as int) < k ==> queue::packed(
            filled[order[k] as int],
            order[k] as int,
        ) < queue::packed(filled[order[m] as int], order[m] as int)
}

/// The flood part of a drainage: where the water stands, what reached each cell
/// and the order the cells came out in.
pub struct Drainage {
    /// The surface standing water settles to.
    pub filled: Vec<u32>,
    /// Which cell each one was reached from, or [`NOWHERE`] on the edge.
    pub reached_by: Vec<u32>,
    /// The order the flood took the cells in.
    pub order: Vec<u32>,
}

impl Drainage {
    /// A drainage of no cells.
    pub open spec fn is_empty(&self) -> bool {
        &&& self.filled@.len() == 0
        &&& self.reached_by@.len() == 0
        &&& self.order@.len() == 0
    }
}

/// The buffers a flood needs, kept between calls.
pub struct Scratch {
    queue: Queue,
    drainage: Drainage,
}

/// Whether the flood has stepped onto a cell.
spec fn seen(filled: Seq<u32>, cell: int) -> bool {
    filled[cell] != UNREACHED
}

/// The state of a flood between two pops.
///
/// `when` says at which place of the order each seen cell was reached.
struct Progress {
    width: int,
    rows: int,
    count: int,
    heights: Seq<u32>,
    filled: Seq<u32>,
    reached_by: Seq<u32>,
    order: Seq<u32>,
    when: Seq<int>,
}

impl Progress {
    spec fn sized(self) -> bool {
        &&& 0 < self.width
        &&& 0 < self.rows
        &&& self.count == self.width * self.rows
        &&& self.count <= u32::MAX
        &&& self.heights.len() == self.count
        &&& self.filled.len() == self.count
        &&& self.reached_by.len() == self.count
        &&& self.when.len() == self.count
        &&& forall|c: int| 0 <= c < self.count ==> (#[trigger] self.heights[c]) < UNREACHED
    }

    /// What is known of the cells that have come out.
    spec fn ordered(self) -> bool {
        &&& self.order.no_duplicates()
        &&& forall|k: int| 0 <= k < self.order.len() ==> (#[trigger] self.order[k]) < self.count
        &&& forall|k: int|
            #![trigger self.order[k]]
            0 <= k < self.order.len() ==> seen(self.filled, self.order[k] as int) && self.when[self.order[k] as int]
                < k
    }

    /// What is known of the cells the flood has stepped onto.
    spec fn reached(self) -> bool {
        forall|c: int|
            #![trigger seen(self.filled, c)]
            0 <= c < self.count && seen(self.filled, c) ==> if lattice::on_edge(self.width, self.rows, c) {
                &&& self.when[c] == -1
                &&& self.reached_by[c] == NOWHERE
                &&& self.filled[c] == self.heights[c]
            } else {
                &&& 0 <= self.when[c] < self.order.len()
                &&& self.reached_by[c] == self.order[self.when[c]]
                &&& lattice::adjacent(self.width, self.reached_by[c] as int, c)
                &&& self.filled[c] == higher(self.heights[c], self.filled[self.reached_by[c] as int])
            }
    }

    /// Every edge cell and every neighbour of what has come out is seen, by the
    /// first of them; `pending` neighbours of the last one may be left.
    spec fn spread(self, pending: Set<int>) -> bool {
        &&& forall|c: int|
            #![trigger seen(self.filled, c)]
            0 <= c < self.count && lattice::on_edge(self.width, self.rows, c) ==> seen(self.filled, c)
        &&& forall|k: int, c: int|
            #![trigger self.order[k], seen(self.filled, c)]
            0 <= k < self.order.len() && 0 <= c < self.count && !lattice::on_edge(self.width, self.rows, c) && lattice::adjacent(
                self.width,
                self.order[k] as int,
                c,
            ) && !(k == self.order.len() - 1 && pending.contains(c)) ==> seen(self.filled, c) && self.when[c] <= k
    }

    /// Each cell that came out was the lowest of those seen and not yet out.
    spec fn lowest_first(self) -> bool {
        forall|k: int, c: int|
            #![trigger self.order[k], seen(self.filled, c)]
            0 <= k < self.order.len() && 0 <= c < self.count && seen(self.filled, c) && self.when[c] < k
                && !self.order.take(k).contains(c as u32) ==> queue::packed(
                self.filled[self.order[k] as int],
                self.order[k] as int,
            ) <= queue::packed(self.filled[c], c)
    }

    /// Nothing seen lies below the last cell that came out, unless it came out.
    spec fn level(self) -> bool {
        forall|c: int|
            #![trigger seen(self.filled, c)]
            0 <= c < self.count && seen(self.filled, c) && !self.order.contains(c as u32) && self.order.len() > 0
                ==> self.filled[self.order.last() as int] <= self.filled[c]
    }

    spec fn sound(self, pending: Set<int>) -> bool {
        &&& self.sized()
        &&& self.ordered()
        &&& self.reached()
        &&& self.spread(pending)
        &&& self.lowest_first()
        &&& self.level()
    }

    /// What waits in the queue is what has been seen and is not yet out.
    spec fn queued(self, queue: Queue) -> bool {
        &&& queue.wf(self.filled)
        &&& forall|c: int|
            #![trigger queue.holds(self.filled, c)]
            0 <= c < self.count ==> (queue.holds(self.filled, c) <==> seen(self.filled, c) && !self.order.contains(
                c as u32,
            ))
    }
}

/// Distinct cells of a grid are no more than the grid has.
proof fn lemma_distinct_cells_fit(order: Seq<u32>, count: int)
    requires
        order.no_duplicates(),
        count >= 0,
        forall|k: int| 0 <= k < order.len() ==> (#[trigger] order[k]) < count,
    ensures
        order.len() <= count,
{
    let wide = order.map_values(|c: u32| c as int);
    wide.unique_seq_to_set();
    let all = vstd::set_lib::set_int_range(0, count);
    vstd::set_lib::lemma_int_range(0, count);
    assert(wide.to_set().subset_of(all)) by {
        assert forall|c: int| wide.to_set().contains(c) implies all.contains(c) by {
            let k = choose|k: int| 0 <= k < wide.len() && wide[k] == c;
            assert(order[k] < count);
        }
    }
    vstd::set_lib::lemma_len_subset(wide.to_set(), all);
}

/// Distinct cells that are all there are as many as the grid has.
proof fn lemma_all_cells_counted(order: Seq<u32>, count: int)
    requires
        order.no_duplicates(),
        0 <= count <= u32::MAX,
        forall|k: int| 0 <= k < order.len() ==> (#[trigger] order[k]) < count,
        forall|c: int| 0 <= c < count ==> #[trigger] order.contains(c as u32),
    ensures
        order.len() == count,
{
    let wide = order.map_values(|c: u32| c as int);
    wide.unique_seq_to_set();
    let all = vstd::set_lib::set_int_range(0, count);
    vstd::set_lib::lemma_int_range(0, count);
    assert(wide.to_set() =~= all) by {
        assert forall|c: int| wide.to_set().contains(c) == all.contains(c) by {
            if wide.to_set().contains(c) {
                let k = choose|k: int| 0 <= k < wide.len() && wide[k] == c;
                assert(order[k] < count);
            }
            if all.contains(c) {
                assert(order.contains(c as u32));
                let k = choose|k: int| 0 <= k < order.len() && order[k] == c as u32;
                assert(wide[k] == c);
            }
        }
    }
}

/// Once nothing seen is left waiting, everything has come out: the flood
/// started from a whole row, and each row reaches the next.
proof fn lemma_every_row_is_reached(state: Progress, cell: int)
    requires
        state.sound(Set::empty()),
        forall|c: int|
            0 <= c < state.count && seen(state.filled, c) ==> #[trigger] state.order.contains(c as u32),
        0 <= cell < state.count,
    ensures
        state.order.contains(cell as u32),
    decreases lattice::row_of(state.width, cell),
{
    lattice::lemma_cell_inside(state.width, state.rows, cell);
    let (x, y) = (lattice::column_of(state.width, cell), lattice::row_of(state.width, cell));
    if !lattice::on_edge(state.width, state.rows, cell) {
        lattice::lemma_cell_coordinates(state.width, state.rows, x, y - 1);
        let above = (y - 1) * state.width + x;
        lemma_every_row_is_reached(state, above);
        let k = choose|k: int| 0 <= k < state.order.len() && state.order[k] == above as u32;
        assert(state.order[k] == above);
        assert(lattice::adjacent(state.width, above, cell));
        assert(seen(state.filled, cell));
    }
}

/// In a finished flood every cell is out, and was reached when it says.
proof fn lemma_all_out(state: Progress)
    requires
        state.sound(Set::empty()),
        forall|c: int|
            0 <= c < state.count && seen(state.filled, c) ==> #[trigger] state.order.contains(c as u32),
    ensures
        state.order.len() == state.count,
        forall|c: int|
            #![trigger seen(state.filled, c)]
            #![trigger reached_at(state.order, state.reached_by, c)]
            0 <= c < state.count ==> {
                &&& seen(state.filled, c)
                &&& state.order.contains(c as u32)
                &&& reached_at(state.order, state.reached_by, c) == state.when[c]
            },
{
    let count = state.count;
    let order = state.order;
    assert forall|c: int| 0 <= c < count implies #[trigger] order.contains(c as u32) by {
        lemma_every_row_is_reached(state, c);
    }
    lemma_all_cells_counted(order, count);
    assert forall|c: int|
        #![trigger seen(state.filled, c)]
        #![trigger reached_at(order, state.reached_by, c)]
        0 <= c < count implies {
        &&& seen(state.filled, c)
        &&& order.contains(c as u32)
        &&& reached_at(order, state.reached_by, c) == state.when[c]
    } by {
        assert(order.contains(c as u32));
        let k = choose|k: int| 0 <= k < order.len() && order[k] == c as u32;
        assert(order[k] == c);
        assert(state.when[c] < k);
        if !lattice::on_edge(state.width, state.rows, c) {
            let by = state.reached_by[c];
            assert(order[state.when[c]] == by);
            assert(order.contains(by));
            assert(order[order.index_of(by)] == by);
        }
    }
}

/// In a finished flood each cell came out ahead of everything higher that was
/// waiting with it.
proof fn lemma_lowest_out_first(state: Progress, k: int, m: int)
    requires
        state.ordered(),
        state.lowest_first(),
        0 <= k < m < state.order.len(),
        state.when[state.order[m] as int] < k,
    ensures
        queue::packed(state.filled[state.order[k] as int], state.order[k] as int) < queue::packed(
            state.filled[state.order[m] as int],
            state.order[m] as int,
        ),
{
    let order = state.order;
    let c = order[m] as int;
    if order.take(k).contains(c as u32) {
        let j = choose|j: int| 0 <= j < k && order.take(k)[j] == c as u32;
        assert(order[j] == order[m]);
    }
    assert(order[k] != order[m]);
    assert(order[k] < state.count);
    assert(order[m] < state.count);
}

/// A finished flood is a flood.
proof fn lemma_finished(state: Progress)
    requires
        state.sound(Set::empty()),
        forall|c: int|
            0 <= c < state.count && seen(state.filled, c) ==> #[trigger] state.order.contains(c as u32),
    ensures
        flooded(state.width, state.rows, state.heights, state.filled, state.reached_by, state.order),
{
    lemma_all_out(state);
    let count = state.count;
    let order = state.order;
    assert forall|c: int|
        #![trigger state.reached_by[c]]
        0 <= c < count && !lattice::on_edge(state.width, state.rows, c) implies {
        let by = state.reached_by[c] as int;
        &&& by < count
        &&& lattice::adjacent(state.width, by, c)
        &&& state.filled[c] == higher(state.heights[c], state.filled[by])
        &&& order.contains(state.reached_by[c])
    } by {
        assert(seen(state.filled, c));
        assert(order[state.when[c]] < count);
    }
    assert forall|k: int, c: int|
        #![trigger order[k], state.reached_by[c]]
        0 <= k < count && 0 <= c < count && !lattice::on_edge(state.width, state.rows, c) && lattice::adjacent(
            state.width,
            order[k] as int,
            c,
        ) implies reached_at(order, state.reached_by, c) <= k by {
        assert(seen(state.filled, c));
        assert(state.when[c] <= k);
    }
    assert forall|c: int|
        #![trigger state.reached_by[c]]
        0 <= c < count && lattice::on_edge(state.width, state.rows, c) implies state.reached_by[c] == NOWHERE
        && state.filled[c] == state.heights[c] by {
        assert(seen(state.filled, c));
    }
    assert forall|k: int| #![trigger order[k]] 0 <= k < count implies reached_at(
        order,
        state.reached_by,
        order[k] as int,
    ) < k by {
        assert(reached_at(order, state.reached_by, order[k] as int) == state.when[order[k] as int]);
    }
    assert forall|k: int, m: int|
        #![trigger order[k], order[m]]
        0 <= k < m < count && reached_at(order, state.reached_by, order[m] as int) < k implies queue::packed(
        state.filled[order[k] as int],
        order[k] as int,
    ) < queue::packed(state.filled[order[m] as int], order[m] as int) by {
        assert(reached_at(order, state.reached_by, order[m] as int) == state.when[order[m] as int]);
        lemma_lowest_out_first(state, k, m);
    }
}

/// The cells the slots from `slot` on lead to.
spec fn pending(width: int, rows: int, cell: int, slot: int) -> Set<int> {
    Set::new(
        |c: int|
            exists|later: int|
                slot <= later < lattice::NEIGHBOUR_COUNT && #[trigger] lattice::neighbour_of(width, rows, cell, later)
                    == Some(c),
    )
}

/// A flood with one more cell out.
spec fn one_more_out(state: Progress, cell: u32) -> Progress {
    Progress { order: state.order.push(cell), ..state }
}

proof fn lemma_out_ordered(state: Progress, cell: u32)
    requires
        state.sized(),
        state.ordered(),
        state.reached(),
        cell < state.count,
        seen(state.filled, cell as int),
        !state.order.contains(cell),
    ensures
        one_more_out(state, cell).ordered(),
        state.order.len() + 1 <= state.count,
{
    let after = one_more_out(state, cell);
    assert(state.when[cell as int] < state.order.len());
    assert(after.ordered());
    lemma_distinct_cells_fit(after.order, state.count);
}

proof fn lemma_out_reached(state: Progress, cell: u32)
    requires
        state.sized(),
        state.reached(),
    ensures
        one_more_out(state, cell).reached(),
{
    let after = one_more_out(state, cell);
    assert forall|c: int|
        #![trigger seen(after.filled, c)]
        0 <= c < after.count && seen(after.filled, c) && !lattice::on_edge(after.width, after.rows, c)
        implies after.reached_by[c] == after.order[after.when[c]] by {
        assert(after.order[after.when[c]] == state.order[state.when[c]]);
    }
}

proof fn lemma_out_spread(state: Progress, cell: u32)
    requires
        state.sized(),
        state.spread(Set::empty()),
        cell < state.count,
    ensures
        one_more_out(state, cell).spread(pending(state.width, state.rows, cell as int, 0)),
{
    let after = one_more_out(state, cell);
    let len = state.order.len() as int;
    lattice::lemma_slots_reach_the_adjacent(state.width, state.rows, cell as int);
    let left = pending(state.width, state.rows, cell as int, 0);
    assert forall|k: int, c: int|
        #![trigger after.order[k], seen(after.filled, c)]
        0 <= k < after.order.len() && 0 <= c < after.count && !lattice::on_edge(after.width, after.rows, c)
            && lattice::adjacent(after.width, after.order[k] as int, c) && !(k == after.order.len() - 1
            && left.contains(c)) implies seen(after.filled, c) && after.when[c] <= k by {
        if k < len {
            assert(state.order[k] == after.order[k]);
        }
    }
}

proof fn lemma_out_lowest_first(state: Progress, cell: u32)
    requires
        state.lowest_first(),
        forall|c: int|
            #![trigger seen(state.filled, c)]
            0 <= c < state.count && seen(state.filled, c) && !state.order.contains(c as u32) ==> queue::packed(
                state.filled[cell as int],
                cell as int,
            ) <= queue::packed(state.filled[c], c),
    ensures
        one_more_out(state, cell).lowest_first(),
{
    let after = one_more_out(state, cell);
    let len = state.order.len() as int;
    assert forall|k: int, c: int|
        #![trigger after.order[k], seen(after.filled, c)]
        0 <= k < after.order.len() && 0 <= c < after.count && seen(after.filled, c) && after.when[c] < k
            && !after.order.take(k).contains(c as u32) implies queue::packed(
        after.filled[after.order[k] as int],
        after.order[k] as int,
    ) <= queue::packed(after.filled[c], c) by {
        if k < len {
            assert(after.order.take(k) =~= state.order.take(k));
            assert(state.order[k] == after.order[k]);
        } else {
            assert(after.order.take(k) =~= state.order);
        }
    }
}

proof fn lemma_out_level(state: Progress, cell: u32)
    requires
        cell < state.count <= u32::MAX,
        forall|c: int|
            #![trigger seen(state.filled, c)]
            0 <= c < state.count && seen(state.filled, c) && !state.order.contains(c as u32) ==> queue::packed(
                state.filled[cell as int],
                cell as int,
            ) <= queue::packed(state.filled[c], c),
    ensures
        one_more_out(state, cell).level(),
{
    let after = one_more_out(state, cell);
    let len = state.order.len() as int;
    assert forall|c: int|
        #![trigger seen(after.filled, c)]
        0 <= c < after.count && seen(after.filled, c) && !after.order.contains(c as u32) implies after.filled[cell as int]
        <= after.filled[c] by {
        if state.order.contains(c as u32) {
            let k = choose|k: int| 0 <= k < len && state.order[k] == c as u32;
            assert(after.order[k] == c as u32);
        }
        assert(!state.order.contains(c as u32));
        assert(seen(state.filled, c));
    }
}

/// The lowest waiting cell may come out.
proof fn lemma_take_out(state: Progress, cell: u32) -> (after: Progress)
    requires
        state.sound(Set::empty()),
        cell < state.count,
        seen(state.filled, cell as int),
        !state.order.contains(cell),
        forall|c: int|
            #![trigger seen(state.filled, c)]
            0 <= c < state.count && seen(state.filled, c) && !state.order.contains(c as u32) ==> queue::packed(
                state.filled[cell as int],
                cell as int,
            ) <= queue::packed(state.filled[c], c),
    ensures
        after == (Progress { order: state.order.push(cell), ..state }),
        after.sound(pending(state.width, state.rows, cell as int, 0)),
        after.order.len() <= state.count,
{
    lemma_out_ordered(state, cell);
    lemma_out_reached(state, cell);
    lemma_out_spread(state, cell);
    lemma_out_lowest_first(state, cell);
    lemma_out_level(state, cell);
    one_more_out(state, cell)
}

/// A neighbour nothing had reached is raised to the level of the last cell out.
proof fn lemma_step_onto(state: Progress, slot: int, onto: int) -> (after: Progress)
    requires
        state.order.len() > 0,
        state.sound(pending(state.width, state.rows, state.order.last() as int, slot)),
        0 <= slot < lattice::NEIGHBOUR_COUNT,
        lattice::neighbour_of(state.width, state.rows, state.order.last() as int, slot) == Some(onto),
        0 <= onto < state.count,
        !seen(state.filled, onto),
    ensures
        after == (Progress {
            filled: state.filled.update(
                onto,
                higher(state.heights[onto], state.filled[state.order.last() as int]),
            ),
            reached_by: state.reached_by.update(onto, state.order.last()),
            when: state.when.update(onto, state.order.len() - 1),
            ..state
        }),
        after.sound(pending(state.width, state.rows, state.order.last() as int, slot + 1)),
        seen(after.filled, onto),
        !state.order.contains(onto as u32),
        after.filled[onto] >= state.filled[state.order.last() as int],
{
    let last = state.order.last();
    let len = state.order.len() as int;
    assert(last == state.order[len - 1]);
    let after = Progress {
        filled: state.filled.update(onto, higher(state.heights[onto], state.filled[last as int])),
        reached_by: state.reached_by.update(onto, last),
        when: state.when.update(onto, len - 1),
        ..state
    };
    assert(last < state.count);
    lattice::lemma_slots_reach_the_adjacent(state.width, state.rows, last as int);
    assert(lattice::adjacent(state.width, last as int, onto));
    assert(seen(state.filled, last as int));
    assert(last as int != onto);
    assert(state.filled[last as int] < UNREACHED) by {
        lemma_levels_are_heights(state, last as int);
    }
    assert forall|k: int| 0 <= k < len implies #[trigger] state.order[k] != onto by {
        assert(seen(state.filled, state.order[k] as int));
    }
    assert(!state.order.contains(onto as u32));
    assert(after.ordered());
    assert(after.reached()) by {
        assert forall|c: int|
            #![trigger seen(after.filled, c)]
            0 <= c < after.count && seen(after.filled, c) implies if lattice::on_edge(after.width, after.rows, c) {
            &&& after.when[c] == -1
            &&& after.reached_by[c] == NOWHERE
            &&& after.filled[c] == after.heights[c]
        } else {
            &&& 0 <= after.when[c] < after.order.len()
            &&& after.reached_by[c] == after.order[after.when[c]]
            &&& lattice::adjacent(after.width, after.reached_by[c] as int, c)
            &&& after.filled[c] == higher(after.heights[c], after.filled[after.reached_by[c] as int])
        } by {
            if c != onto {
                assert(seen(state.filled, c) == seen(after.filled, c));
                if !lattice::on_edge(state.width, state.rows, c) {
                    assert(state.order[state.when[c]] != onto);
                }
            }
        }
    }
    let before_left = pending(state.width, state.rows, last as int, slot);
    let left = pending(state.width, state.rows, last as int, slot + 1);
    lemma_next_slot(state, slot, Some(onto));
    assert(after.spread(left)) by {
        assert forall|c: int|
            #![trigger seen(after.filled, c)]
            0 <= c < after.count && lattice::on_edge(after.width, after.rows, c) implies seen(after.filled, c) by {
            assert(seen(state.filled, c));
        }
        assert forall|k: int, c: int|
            #![trigger after.order[k], seen(after.filled, c)]
            0 <= k < after.order.len() && 0 <= c < after.count && !lattice::on_edge(after.width, after.rows, c)
                && lattice::adjacent(after.width, after.order[k] as int, c) && !(k == after.order.len() - 1
                && left.contains(c)) implies seen(after.filled, c) && after.when[c] <= k by {
            assert(state.order[k] == after.order[k]);
            if c != onto {
                assert(seen(state.filled, c) == seen(after.filled, c));
            } else {
                if k < len - 1 {
                    assert(seen(state.filled, c) && state.when[c] <= k);
                }
            }
        }
    }
    assert(after.lowest_first()) by {
        assert forall|k: int, c: int|
            #![trigger after.order[k], seen(after.filled, c)]
            0 <= k < after.order.len() && 0 <= c < after.count && seen(after.filled, c) && after.when[c] < k
                && !after.order.take(k).contains(c as u32) implies queue::packed(
            after.filled[after.order[k] as int],
            after.order[k] as int,
        ) <= queue::packed(after.filled[c], c) by {
            assert(state.order[k] != onto);
            assert(seen(state.filled, c) == seen(after.filled, c));
        }
    }
    assert(after.level()) by {
        assert forall|c: int|
            #![trigger seen(after.filled, c)]
            0 <= c < after.count && seen(after.filled, c) && !after.order.contains(c as u32)
            implies after.filled[after.order.last() as int] <= after.filled[c] by {
            if c != onto {
                assert(seen(state.filled, c) == seen(after.filled, c));
            }
        }
    }
    after
}

/// What is left to step onto once a slot is done with.
proof fn lemma_next_slot(state: Progress, slot: int, onto: Option<int>)
    requires
        state.order.len() > 0,
        0 <= slot < lattice::NEIGHBOUR_COUNT,
        lattice::neighbour_of(state.width, state.rows, state.order.last() as int, slot) == onto,
    ensures
        forall|c: int|
            #![trigger pending(state.width, state.rows, state.order.last() as int, slot).contains(c)]
            #![trigger pending(state.width, state.rows, state.order.last() as int, slot + 1).contains(c)]
            pending(state.width, state.rows, state.order.last() as int, slot).contains(c) ==> pending(
                state.width,
                state.rows,
                state.order.last() as int,
                slot + 1,
            ).contains(c) || onto == Some(c),
{
    let cell = state.order.last() as int;
    assert forall|c: int|
        #![trigger pending(state.width, state.rows, cell, slot).contains(c)]
        #![trigger pending(state.width, state.rows, cell, slot + 1).contains(c)]
        pending(state.width, state.rows, cell, slot).contains(c) implies pending(
        state.width,
        state.rows,
        cell,
        slot + 1,
    ).contains(c) || onto == Some(c) by {
        let later = choose|later: int|
            slot <= later < lattice::NEIGHBOUR_COUNT && #[trigger] lattice::neighbour_of(
                state.width,
                state.rows,
                cell,
                later,
            ) == Some(c);
        assert(lattice::neighbour_of(state.width, state.rows, cell, later) == Some(c));
    }
}

/// A slot with nothing new in it changes nothing.
proof fn lemma_step_past(state: Progress, slot: int)
    requires
        state.order.len() > 0,
        state.sound(pending(state.width, state.rows, state.order.last() as int, slot)),
        0 <= slot < lattice::NEIGHBOUR_COUNT,
        match lattice::neighbour_of(state.width, state.rows, state.order.last() as int, slot) {
            Some(onto) => seen(state.filled, onto),
            None => true,
        },
    ensures
        state.sound(pending(state.width, state.rows, state.order.last() as int, slot + 1)),
{
    let cell = state.order.last() as int;
    let onto = lattice::neighbour_of(state.width, state.rows, cell, slot);
    lemma_next_slot(state, slot, onto);
    let left = pending(state.width, state.rows, cell, slot + 1);
    assert forall|k: int, c: int|
        #![trigger state.order[k], seen(state.filled, c)]
        0 <= k < state.order.len() && 0 <= c < state.count && !lattice::on_edge(state.width, state.rows, c)
            && lattice::adjacent(state.width, state.order[k] as int, c) && !(k == state.order.len() - 1
            && left.contains(c)) implies seen(state.filled, c) && state.when[c] <= k by {
        if k == state.order.len() - 1 && pending(state.width, state.rows, cell, slot).contains(c) {
            assert(onto == Some(c));
            assert(seen(state.filled, c));
            assert(state.when[c] < state.order.len());
        } else {
            assert(state.spread(pending(state.width, state.rows, cell, slot)));
            assert(state.order[k] == state.order[k]);
            assert(seen(state.filled, c));
        }
    }
}

/// Water settles to the height of some ground.
proof fn lemma_levels_are_heights(state: Progress, cell: int)
    requires
        state.sized(),
        state.ordered(),
        state.reached(),
        0 <= cell < state.count,
        seen(state.filled, cell),
        state.order.contains(cell as u32),
    ensures
        state.filled[cell] < UNREACHED,
    decreases state.order.index_of(cell as u32),
{
    let k = state.order.index_of(cell as u32);
    assert(state.order[k] == cell as u32);
    assert(state.when[cell] < k);
    if !lattice::on_edge(state.width, state.rows, cell) {
        let by = state.reached_by[cell];
        assert(state.order[state.when[cell]] == by);
        assert(state.order.contains(by));
        assert(state.order[state.order.index_of(by)] == by);
        assert(by < state.count);
        lemma_levels_are_heights(state, by as int);
    }
}

impl Scratch {
    /// The queue between floods is empty.
    pub closed spec fn wf(&self) -> bool {
        self.queue.idle()
    }

    /// What the last flood left behind.
    pub closed spec fn last(&self) -> Drainage {
        self.drainage
    }

    /// A scratch that has seen no landscape, and holds no flood.
    pub fn new() -> (scratch: Scratch)
        ensures
            scratch.wf(),
            scratch.last().is_empty(),
    {
        Scratch {
            queue: Queue::new(),
            drainage: Drainage { filled: Vec::new(), reached_by: Vec::new(), order: Vec::new() },
        }
    }

    /// Hands the last flood out, leaving the scratch empty.
    pub fn take(&mut self) -> (drainage: Drainage)
        requires
            old(self).wf(),
        ensures
            final(self).wf(),
            final(self).last().is_empty(),
            drainage == old(self).last(),
    {
        let mut taken = Drainage { filled: Vec::new(), reached_by: Vec::new(), order: Vec::new() };
        std::mem::swap(&mut taken, &mut self.drainage);
        taken
    }

    /// Fills the hollows, into the buffers this scratch is already holding.
    pub fn drainage(&mut self, width: usize, rows: usize, heights: &Vec<u32>)
        requires
            old(self).wf(),
            width * rows <= u32::MAX,
            heights@.len() == width * rows,
            forall|cell: int| 0 <= cell < heights@.len() ==> (#[trigger] heights@[cell]) < UNREACHED,
        ensures
            final(self).wf(),
            flooded(
                width as int,
                rows as int,
                heights@,
                final(self).last().filled@,
                final(self).last().reached_by@,
                final(self).last().order@,
            ),
    {
        let count: usize = heights.len();
        self.drainage.order.clear();
        refill(&mut self.drainage.filled, count, UNREACHED);
        refill(&mut self.drainage.reached_by, count, NOWHERE);
        if count == 0 {
            return;
        }
        let ghost (w, r) = (width as int, rows as int);
        proof {
            assert(width > 0 && rows > 0) by (nonlinear_arith)
                requires
                    width * rows > 0,
                    width >= 0,
                    rows >= 0,
            ;
        }
        let (low, high) = range(heights);
        self.queue.reset(low, high);
        let mut next: usize = 0;
        while next < count
            invariant
                width > 0,
                rows > 0,
                w == width,
                r == rows,
                count == w * r,
                count <= u32::MAX,
                heights@.len() == count,
                next <= count,
                forall|c: int| 0 <= c < count ==> (#[trigger] heights@[c]) < UNREACHED,
                self.drainage.order@.len() == 0,
                self.drainage.reached_by@ == Seq::new(count as nat, |i: int| NOWHERE),
                self.drainage.filled@.len() == count,
                forall|c: int|
                    #![trigger self.drainage.filled@[c]]
                    0 <= c < count ==> self.drainage.filled@[c] == if c < next && lattice::on_edge(w, r, c) {
                        heights@[c]
                    } else {
                        UNREACHED
                    },
                self.queue.wf(self.drainage.filled@),
                self.queue.cursor() == 0,
                forall|c: int|
                    #![trigger self.queue.holds(self.drainage.filled@, c)]
                    0 <= c < count ==> (self.queue.holds(self.drainage.filled@, c) <==> c < next
                        && lattice::on_edge(w, r, c)),
            decreases count - next,
        {
            let (row, column): (usize, usize) = (next / width, next % width);
            if row == 0 || column == 0 || row == rows - 1 || column == width - 1 {
                let ghost before = self.drainage.filled@;
                proof {
                    self.queue.lemma_unheld_height_is_free(before, next as int, heights@[next as int]);
                    self.queue.lemma_bucket_order(before, heights@[next as int], heights@[next as int]);
                }
                self.drainage.filled[next] = heights[next];
                assert(self.drainage.filled@ =~= before.update(next as int, heights@[next as int]));
                assert(!self.queue.holds(before, next as int));
                self.queue.push(next as u32, &self.drainage.filled);
                assert forall|c: int|
                    #![trigger self.queue.holds(self.drainage.filled@, c)]
                    0 <= c < count implies (self.queue.holds(self.drainage.filled@, c) <==> c < next + 1
                    && lattice::on_edge(w, r, c)) by {
                }
            }
            next = next + 1;
        }
        let ghost mut state = Progress {
            width: w,
            rows: r,
            count: count as int,
            heights: heights@,
            filled: self.drainage.filled@,
            reached_by: self.drainage.reached_by@,
            order: self.drainage.order@,
            when: Seq::new(count as nat, |i: int| -1),
        };
        loop
            invariant_except_break
                state.sound(Set::empty()),
                state.queued(self.queue),
            invariant
                self.describes(state, width, rows, heights@),
            ensures
                state.sound(Set::empty()),
                self.queue.idle(),
                forall|c: int|
                    0 <= c < state.count && seen(state.filled, c) ==> #[trigger] state.order.contains(c as u32),
            decreases state.count - state.order.len(),
        {
            let ghost waiting = self.queue;
            let popped = self.queue.pop(&self.drainage.filled);
            if popped.is_none() {
                proof {
                    assert forall|c: int|
                        0 <= c < state.count && seen(state.filled, c) implies #[trigger] state.order.contains(
                        c as u32,
                    ) by {
                        assert(!waiting.holds(state.filled, c));
                    }
                }
                break;
            }
            let cell: u32 = popped.unwrap();
            let ghost before = state;
            proof {
                assert(waiting.holds(state.filled, cell as int));
                assert forall|c: int|
                    #![trigger seen(state.filled, c)]
                    0 <= c < state.count && seen(state.filled, c) && !state.order.contains(c as u32)
                    implies queue::packed(state.filled[cell as int], cell as int) <= queue::packed(
                    state.filled[c],
                    c,
                ) by {
                    assert(waiting.holds(state.filled, c));
                }
                let after = lemma_take_out(state, cell);
                state = after;
            }
            self.drainage.order.push(cell);
            proof {
                assert forall|c: int|
                    #![trigger self.queue.holds(state.filled, c)]
                    0 <= c < state.count implies (self.queue.holds(state.filled, c) <==> seen(state.filled, c)
                    && !state.order.contains(c as u32)) by {
                    assert(waiting.holds(state.filled, c) <==> seen(state.filled, c) && !before.order.contains(
                        c as u32,
                    ));
                    lemma_contains_after_push(before.order, cell, c as u32);
                }
            }
            let mut slot: usize = 0;
            while slot < lattice::NEIGHBOUR_COUNT
                invariant
                    slot <= lattice::NEIGHBOUR_COUNT,
                    self.describes(state, width, rows, heights@),
                    state.order == before.order.push(cell),
                    state.count == before.count,
                    state.sound(pending(width as int, rows as int, cell as int, slot as int)),
                    state.queued(self.queue),
                    self.queue.cursor() == self.queue.bucket_of(state.filled[cell as int]),
                decreases lattice::NEIGHBOUR_COUNT - slot,
            {
                let after = self.reach(width, rows, heights, cell, slot, Ghost(state));
                proof {
                    state = after@;
                }
                slot = slot + 1;
            }
            proof {
                assert(pending(width as int, rows as int, cell as int, slot as int) =~= Set::<int>::empty());
            }
        }
        proof {
            lemma_finished(state);
        }
    }

    /// The state stands for what the buffers hold.
    spec fn describes(&self, state: Progress, width: usize, rows: usize, heights: Seq<u32>) -> bool {
        &&& state.width == width
        &&& state.rows == rows
        &&& state.heights == heights
        &&& state.filled == self.drainage.filled@
        &&& state.reached_by == self.drainage.reached_by@
        &&& state.order == self.drainage.order@
    }

    /// Steps from the last cell out onto the neighbour in a slot, if there is
    /// one that nothing has reached.
    fn reach(
        &mut self,
        width: usize,
        rows: usize,
        heights: &Vec<u32>,
        cell: u32,
        slot: usize,
        Ghost(state): Ghost<Progress>,
    ) -> (after: Ghost<Progress>)
        requires
            slot < lattice::NEIGHBOUR_COUNT,
            old(self).describes(state, width, rows, heights@),
            state.order.len() > 0,
            state.order.last() == cell,
            state.sound(pending(width as int, rows as int, cell as int, slot as int)),
            state.queued(old(self).queue),
            old(self).queue.cursor() == old(self).queue.bucket_of(state.filled[cell as int]),
        ensures
            final(self).describes(after@, width, rows, heights@),
            after@.order == state.order,
            after@.count == state.count,
            after@.sound(pending(width as int, rows as int, cell as int, slot + 1)),
            after@.queued(final(self).queue),
            final(self).queue.cursor() == final(self).queue.bucket_of(after@.filled[cell as int]),
    {
        proof {
            assert(state.order[state.order.len() - 1] == cell);
        }
        let found = lattice::neighbour(width, rows, cell as usize, slot);
        if let Some(onto) = found {
            if self.drainage.filled[onto] == UNREACHED {
                let here: u32 = self.drainage.filled[cell as usize];
                let ground: u32 = heights[onto];
                let level: u32 = if ground >= here {
                    ground
                } else {
                    here
                };
                let ghost after = lemma_step_onto(state, slot as int, onto as int);
                proof {
                    assert(!self.queue.holds(state.filled, onto as int));
                    self.queue.lemma_unheld_height_is_free(state.filled, onto as int, level);
                    self.queue.lemma_bucket_order(state.filled, here, level);
                }
                self.drainage.filled[onto] = level;
                self.drainage.reached_by[onto] = cell;
                assert(self.drainage.filled@ =~= after.filled);
                assert(self.drainage.reached_by@ =~= after.reached_by);
                self.queue.push(onto as u32, &self.drainage.filled);
                proof {
                    assert(state.filled[cell as int] == after.filled[cell as int]);
                    assert forall|c: int|
                        #![trigger self.queue.holds(after.filled, c)]
                        0 <= c < after.count implies (self.queue.holds(after.filled, c) <==> seen(after.filled, c)
                        && !after.order.contains(c as u32)) by {
                        assert(old(self).queue.holds(state.filled, c) <==> seen(state.filled, c)
                            && !state.order.contains(c as u32));
                        assert(old(self).queue.holds(after.filled, c) <==> old(self).queue.holds(state.filled, c));
                    }
                }
                return Ghost(after);
            }
        }
        proof {
            lemma_step_past(state, slot as int);
        }
        Ghost(state)
    }
}

proof fn lemma_contains_after_push(order: Seq<u32>, cell: u32, other: u32)
    ensures
        order.push(cell).contains(other) <==> order.contains(other) || other == cell,
{
    if order.contains(other) {
        let k = choose|k: int| 0 <= k < order.len() && order[k] == other;
        assert(order.push(cell)[k] == other);
    }
    if other == cell {
        assert(order.push(cell)[order.len() as int] == other);
    }
    if order.push(cell).contains(other) && other != cell {
        let k = choose|k: int| 0 <= k < order.push(cell).len() && order.push(cell)[k] == other;
        assert(order[k] == other);
    }
}

/// Makes a buffer hold `count` copies of a value, whatever it held before.
fn refill(buffer: &mut Vec<u32>, count: usize, value: u32)
    ensures
        final(buffer)@ == Seq::new(count as nat, |i: int| value),
{
    buffer.clear();
    buffer.resize(count, value);
    assert(buffer@ =~= Seq::new(count as nat, |i: int| value));
}

/// The lowest and the highest of some keys.
pub fn range(keys: &Vec<u32>) -> (ends: (u32, u32))
    requires
        keys@.len() > 0,
    ensures
        keys@.contains(ends.0),
        keys@.contains(ends.1),
        forall|i: int| 0 <= i < keys@.len() ==> ends.0 <= #[trigger] keys@[i] <= ends.1,
{
    let mut low: u32 = keys[0];
    let mut high: u32 = keys[0];
    for i in 1..keys.len()
        invariant
            keys@.len() > 0,
            keys@.contains(low),
            keys@.contains(high),
            forall|j: int| 0 <= j < i ==> low <= #[trigger] keys@[j] <= high,
    {
        let key: u32 = keys[i];
        if key < low {
            low = key;
        }
        if key > high {
            high = key;
        }
    }
    (low, high)
}

/// Fills the hollows of a landscape and works out the order they fill in.
pub fn drainage(width: usize, rows: usize, heights: &Vec<u32>) -> (drainage: Drainage)
    requires
        width * rows <= u32::MAX,
        heights@.len() == width * rows,
        forall|cell: int| 0 <= cell < heights@.len() ==> (#[trigger] heights@[cell]) < UNREACHED,
    ensures
        flooded(
            width as int,
            rows as int,
            heights@,
            drainage.filled@,
            drainage.reached_by@,
            drainage.order@,
        ),
{
    let mut scratch = Scratch::new();
    scratch.drainage(width, rows, heights);
    scratch.take()
}

/// The key of a fall that goes nowhere: that of zero.
pub const LEVEL: u32 = 0x8000_0000;

/// Whether the neighbour in a slot is there and lies downhill.
pub open spec fn falls_to(width: int, rows: int, cell: int, falls: Seq<u32>, slot: int) -> bool {
    lattice::neighbour_of(width, rows, cell, slot) is Some && falls[slot] > LEVEL
}

/// Whether a slot holds the steepest way down, the first among equals.
pub open spec fn steepest(width: int, rows: int, cell: int, falls: Seq<u32>, slot: int) -> bool {
    &&& 0 <= slot < lattice::NEIGHBOUR_COUNT
    &&& falls_to(width, rows, cell, falls, slot)
    &&& forall|other: int|
        #![trigger falls[other]]
        0 <= other < lattice::NEIGHBOUR_COUNT && falls_to(width, rows, cell, falls, other) ==> falls[other]
            <= falls[slot] && (falls[other] == falls[slot] ==> slot <= other)
}

/// Whether a cell is where another drains to: the steepest neighbour strictly
/// below it, or where there is none, whichever cell the flood reached it from.
///
/// This settles the cell: see [`a_cell_drains_one_way`].
pub open spec fn is_receiver(
    width: int,
    rows: int,
    cell: int,
    falls: Seq<u32>,
    reached_by: u32,
    into: u32,
) -> bool {
    &&& forall|slot: int|
        #![trigger falls[slot]]
        steepest(width, rows, cell, falls, slot) ==> Some(into as int) == lattice::neighbour_of(
            width,
            rows,
            cell,
            slot,
        )
    &&& (forall|slot: int|
        #![trigger falls[slot]]
        0 <= slot < lattice::NEIGHBOUR_COUNT ==> !falls_to(width, rows, cell, falls, slot)) ==> into == reached_by
}

/// Where a cell drains to: the steepest neighbour strictly below it, or on the
/// flat of a lake, where there is none, whichever cell the flood reached it
/// from.
///
/// `falls` holds for each slot the key of how steeply the ground falls that
/// way; a slot that leads off the grid is not looked at.
pub fn receiver(width: usize, rows: usize, cell: usize, falls: &[u32; 8], reached_by: u32) -> (into: u32)
    requires
        width * rows <= u32::MAX,
        cell < width * rows,
    ensures
        is_receiver(width as int, rows as int, cell as int, falls@, reached_by, into),
{
    let ghost (w, r, c) = (width as int, rows as int, cell as int);
    let mut best: Option<u32> = None;
    let mut most: u32 = LEVEL;
    let ghost mut chosen: int = -1;
    let mut slot: usize = 0;
    while slot < lattice::NEIGHBOUR_COUNT
        invariant
            width * rows <= u32::MAX,
            cell < width * rows,
            w == width,
            r == rows,
            c == cell,
            slot <= lattice::NEIGHBOUR_COUNT,
            best is None <==> chosen == -1,
            best is None ==> most == LEVEL,
            best matches Some(other) ==> 0 <= chosen < slot && falls_to(w, r, c, falls@, chosen)
                && lattice::neighbour_of(w, r, c, chosen) == Some(other as int) && most == falls@[chosen],
            forall|other: int|
                #![trigger falls@[other]]
                0 <= other < slot && falls_to(w, r, c, falls@, other) ==> falls@[other] <= most && (falls@[other]
                    == most ==> chosen <= other) && best is Some,
        decreases lattice::NEIGHBOUR_COUNT - slot,
    {
        let found = lattice::neighbour(width, rows, cell, slot);
        if let Some(other) = found {
            if falls[slot] > most {
                most = falls[slot];
                best = Some(other as u32);
                proof {
                    chosen = slot as int;
                }
            }
        }
        slot = slot + 1;
    }
    proof {
        assert forall|slot: int| #![trigger falls@[slot]] steepest(w, r, c, falls@, slot) implies slot == chosen
            && best is Some by {
            assert(falls@[chosen] == falls@[chosen]);
        }
    }
    match best {
        Some(other) => other,
        None => reached_by,
    }
}

/// Where the water a cell has gathered goes.
#[derive(Clone, Copy, Debug, PartialEq, Eq, Structural)]
pub enum Outlet {
    /// Shared among the neighbours downhill of it.
    Shared,
    /// All of it to one cell, along the way the flood came.
    Along(u32),
    /// Off the map.
    Off,
}

/// Whether any neighbour lies downhill.
pub open spec fn drains(width: int, rows: int, cell: int, falls: Seq<u32>) -> bool {
    exists|slot: int|
        #![trigger falls[slot]]
        0 <= slot < lattice::NEIGHBOUR_COUNT && falls_to(width, rows, cell, falls, slot)
}

/// Whether a cell hands water to another when it is swept.
pub open spec fn hands_to(width: int, rows: int, cell: int, falls: Seq<u32>, drains_to: u32, other: int) -> bool {
    if drains(width, rows, cell, falls) {
        exists|slot: int|
            #![trigger falls[slot]]
            0 <= slot < lattice::NEIGHBOUR_COUNT && falls_to(width, rows, cell, falls, slot)
                && lattice::neighbour_of(width, rows, cell, slot) == Some(other)
    } else {
        drains_to != NOWHERE && drains_to == other
    }
}

/// Decides where a cell's water goes: to everything downhill of it where there
/// is anything, and otherwise wherever it drains to.
pub fn outlet(width: usize, rows: usize, cell: usize, falls: &[u32; 8], drains_to: u32) -> (outlet: Outlet)
    requires
        width * rows <= u32::MAX,
        cell < width * rows,
    ensures
        outlet == if drains(width as int, rows as int, cell as int, falls@) {
            Outlet::Shared
        } else if drains_to == NOWHERE {
            Outlet::Off
        } else {
            Outlet::Along(drains_to)
        },
{
    let ghost (w, r, c) = (width as int, rows as int, cell as int);
    let mut slot: usize = 0;
    while slot < lattice::NEIGHBOUR_COUNT
        invariant
            width * rows <= u32::MAX,
            cell < width * rows,
            w == width,
            r == rows,
            c == cell,
            slot <= lattice::NEIGHBOUR_COUNT,
            forall|other: int| #![trigger falls@[other]] 0 <= other < slot ==> !falls_to(w, r, c, falls@, other),
        decreases lattice::NEIGHBOUR_COUNT - slot,
    {
        if falls[slot] > LEVEL && lattice::neighbour(width, rows, cell, slot).is_some() {
            assert(falls_to(w, r, c, falls@, slot as int));
            return Outlet::Shared;
        }
        slot = slot + 1;
    }
    if drains_to == NOWHERE {
        Outlet::Off
    } else {
        Outlet::Along(drains_to)
    }
}

/// Where in the order a cell comes out.
pub open spec fn place(order: Seq<u32>, cell: int) -> int {
    order.index_of(cell as u32)
}

/// Every cell has a place in a flood's order, and nothing else has it.
pub proof fn lemma_place(
    width: int,
    rows: int,
    heights: Seq<u32>,
    filled: Seq<u32>,
    reached_by: Seq<u32>,
    order: Seq<u32>,
    cell: int,
)
    requires
        flooded(width, rows, heights, filled, reached_by, order),
        width * rows <= u32::MAX,
        0 <= cell < width * rows,
    ensures
        0 <= place(order, cell) < order.len(),
        order[place(order, cell)] == cell,
        forall|k: int| 0 <= k < order.len() && #[trigger] order[k] == cell ==> k == place(order, cell),
{
    let count = width * rows;
    let wide = order.map_values(|c: u32| c as int);
    wide.unique_seq_to_set();
    let all = vstd::set_lib::set_int_range(0, count);
    vstd::set_lib::lemma_int_range(0, count);
    assert(wide.to_set().subset_of(all)) by {
        assert forall|c: int| wide.to_set().contains(c) implies all.contains(c) by {
            let k = choose|k: int| 0 <= k < wide.len() && wide[k] == c;
            assert(order[k] < count);
        }
    }
    vstd::set_lib::lemma_subset_equality(wide.to_set(), all);
    assert(wide.to_set().contains(cell));
    let k = choose|k: int| 0 <= k < wide.len() && wide[k] == cell;
    assert(order[k] == cell as u32);
    assert(order.contains(cell as u32));
    assert(order[order.index_of(cell as u32)] == cell as u32);
}

/// The order is never decreasing in the filled height.
pub proof fn the_order_never_goes_down(
    width: int,
    rows: int,
    heights: Seq<u32>,
    filled: Seq<u32>,
    reached_by: Seq<u32>,
    order: Seq<u32>,
    k: int,
    m: int,
)
    requires
        flooded(width, rows, heights, filled, reached_by, order),
        0 <= k <= m < order.len(),
    ensures
        filled[order[k] as int] <= filled[order[m] as int],
    decreases m - k,
{
    if k < m {
        the_order_never_goes_down(width, rows, heights, filled, reached_by, order, k, m - 1);
        let cell = order[m] as int;
        assert(order[m - 1] < width * rows);
        assert(order[m] < width * rows);
        if reached_at(order, reached_by, cell) < m - 1 {
            assert(queue::packed(filled[order[m - 1] as int], order[m - 1] as int) < queue::packed(
                filled[cell],
                cell,
            ));
        } else {
            let by = reached_by[cell];
            assert(!lattice::on_edge(width, rows, cell));
            assert(order.contains(by));
            assert(order[order.index_of(by)] == by);
            assert(reached_at(order, reached_by, cell) == m - 1);
        }
    }
}

/// No hollow is left and no ground is lowered: every cell off the edge was
/// reached from one that is no higher and came out before it.
pub proof fn no_hollow_is_left(
    width: int,
    rows: int,
    heights: Seq<u32>,
    filled: Seq<u32>,
    reached_by: Seq<u32>,
    order: Seq<u32>,
    cell: int,
)
    requires
        flooded(width, rows, heights, filled, reached_by, order),
        width * rows <= u32::MAX,
        0 <= cell < width * rows,
    ensures
        heights[cell] <= filled[cell],
        !lattice::on_edge(width, rows, cell) ==> {
            let by = reached_by[cell] as int;
            &&& 0 <= by < width * rows
            &&& lattice::adjacent(width, by, cell)
            &&& filled[by] <= filled[cell]
            &&& place(order, by) < place(order, cell)
        },
{
    assert(reached_by[cell] == reached_by[cell]);
    if lattice::on_edge(width, rows, cell) {
        assert(reached_by[cell] == NOWHERE);
    } else {
        let by = reached_by[cell] as int;
        assert(by < width * rows);
        lemma_place(width, rows, heights, filled, reached_by, order, cell);
        lemma_place(width, rows, heights, filled, reached_by, order, by);
        assert(reached_at(order, reached_by, order[place(order, cell)] as int) < place(order, cell));
    }
}

/// A way over the ground from a cell to the edge of the map.
pub open spec fn leads_out(width: int, rows: int, path: Seq<int>) -> bool {
    &&& path.len() > 0
    &&& forall|i: int| 0 <= i < path.len() ==> 0 <= #[trigger] path[i] < width * rows
    &&& forall|i: int|
        #![trigger path[i]]
        0 < i < path.len() ==> lattice::adjacent(width, path[i - 1], path[i])
    &&& lattice::on_edge(width, rows, path.last())
}

/// The highest ground a way goes over.
pub open spec fn crest(heights: Seq<u32>, path: Seq<int>) -> u32
    decreases path.len(),
{
    if path.len() == 0 {
        0
    } else {
        higher(heights[path.first()], crest(heights, path.drop_first()))
    }
}

/// Water stands no higher in a cell than it needs to flow over a neighbour.
pub proof fn lemma_no_higher_than_a_neighbour(
    width: int,
    rows: int,
    heights: Seq<u32>,
    filled: Seq<u32>,
    reached_by: Seq<u32>,
    order: Seq<u32>,
    cell: int,
    beside: int,
)
    requires
        flooded(width, rows, heights, filled, reached_by, order),
        width * rows <= u32::MAX,
        0 <= cell < width * rows,
        0 <= beside < width * rows,
        lattice::adjacent(width, cell, beside),
    ensures
        filled[cell] <= higher(heights[cell], filled[beside]),
{
    if lattice::on_edge(width, rows, cell) {
        assert(reached_by[cell] == NOWHERE);
    } else {
        let by = reached_by[cell] as int;
        assert(by < width * rows);
        lemma_place(width, rows, heights, filled, reached_by, order, by);
        lemma_place(width, rows, heights, filled, reached_by, order, beside);
        let k = place(order, beside);
        assert(order[k] == beside);
        assert(lattice::adjacent(width, order[k] as int, cell));
        assert(reached_at(order, reached_by, cell) <= k);
        the_order_never_goes_down(width, rows, heights, filled, reached_by, order, place(order, by), k);
    }
}

/// No way out of a cell stays below the level the water settles at there.
pub proof fn every_way_out_climbs_to_the_water(
    width: int,
    rows: int,
    heights: Seq<u32>,
    filled: Seq<u32>,
    reached_by: Seq<u32>,
    order: Seq<u32>,
    path: Seq<int>,
)
    requires
        flooded(width, rows, heights, filled, reached_by, order),
        width * rows <= u32::MAX,
        leads_out(width, rows, path),
    ensures
        filled[path.first()] <= crest(heights, path),
    decreases path.len(),
{
    let cell = path[0];
    assert(reached_by[cell] == reached_by[cell]);
    if path.len() == 1 {
        assert(path.last() == cell);
        assert(lattice::on_edge(width, rows, cell));
        assert(reached_by[cell] == NOWHERE);
    } else {
        let rest = path.drop_first();
        assert(leads_out(width, rows, rest)) by {
            assert forall|i: int| 0 <= i < rest.len() implies 0 <= #[trigger] rest[i] < width * rows by {
                assert(rest[i] == path[i + 1]);
            }
            assert forall|i: int|
                #![trigger rest[i]]
                0 < i < rest.len() implies lattice::adjacent(width, rest[i - 1], rest[i]) by {
                assert(rest[i] == path[i + 1]);
                assert(rest[i - 1] == path[i]);
            }
            assert(rest.last() == path.last());
        }
        every_way_out_climbs_to_the_water(width, rows, heights, filled, reached_by, order, rest);
        assert(path[1] == rest[0]);
        assert(lattice::adjacent(width, path[0], path[1]));
        lemma_no_higher_than_a_neighbour(width, rows, heights, filled, reached_by, order, cell, path[1]);
    }
}

proof fn lemma_one_step_more(width: int, rows: int, heights: Seq<u32>, cell: int, rest: Seq<int>)
    requires
        leads_out(width, rows, rest),
        0 <= cell < width * rows,
        lattice::adjacent(width, cell, rest.first()),
    ensures
        leads_out(width, rows, seq![cell] + rest),
        crest(heights, seq![cell] + rest) == higher(heights[cell], crest(heights, rest)),
{
    let path = seq![cell] + rest;
    assert(path.drop_first() =~= rest);
    assert(path.last() == rest.last());
    assert forall|i: int| 0 <= i < path.len() implies 0 <= #[trigger] path[i] < width * rows by {
        if i > 0 {
            assert(path[i] == rest[i - 1]);
        }
    }
    assert forall|i: int|
        #![trigger path[i]]
        0 < i < path.len() implies lattice::adjacent(width, path[i - 1], path[i]) by {
        assert(path[i] == rest[i - 1]);
        if i > 1 {
            assert(path[i - 1] == rest[i - 2]);
        } else {
            assert(path[0] == cell);
        }
    }
}

/// Some way out of every cell climbs just to the level the water settles at:
/// with [`every_way_out_climbs_to_the_water`], that level is where it spills.
pub proof fn some_way_out_spills_the_water(
    width: int,
    rows: int,
    heights: Seq<u32>,
    filled: Seq<u32>,
    reached_by: Seq<u32>,
    order: Seq<u32>,
    cell: int,
) -> (path: Seq<int>)
    requires
        flooded(width, rows, heights, filled, reached_by, order),
        width * rows <= u32::MAX,
        0 <= cell < width * rows,
    ensures
        leads_out(width, rows, path),
        path.first() == cell,
        filled[cell] == crest(heights, path),
    decreases place(order, cell),
{
    lemma_place(width, rows, heights, filled, reached_by, order, cell);
    assert(reached_by[cell] == reached_by[cell]);
    if lattice::on_edge(width, rows, cell) {
        let path = seq![cell];
        assert(reached_by[cell] == NOWHERE);
        assert(path.drop_first() =~= Seq::<int>::empty());
        assert(crest(heights, path.drop_first()) == 0);
        path
    } else {
        let by = reached_by[cell] as int;
        no_hollow_is_left(width, rows, heights, filled, reached_by, order, cell);
        lemma_place(width, rows, heights, filled, reached_by, order, by);
        let rest = some_way_out_spills_the_water(width, rows, heights, filled, reached_by, order, by);
        lemma_one_step_more(width, rows, heights, cell, rest);
        seq![cell] + rest
    }
}

/// A cell comes after the one it drains into.
///
/// The one thing asked of the falls is that only a neighbour below is downhill.
pub proof fn a_cell_comes_after_what_it_drains_into(
    width: int,
    rows: int,
    heights: Seq<u32>,
    filled: Seq<u32>,
    reached_by: Seq<u32>,
    order: Seq<u32>,
    cell: int,
    falls: Seq<u32>,
    into: int,
)
    requires
        flooded(width, rows, heights, filled, reached_by, order),
        width * rows <= u32::MAX,
        0 <= cell < width * rows,
        falls.len() == lattice::NEIGHBOUR_COUNT,
        forall|slot: int|
            #![trigger falls[slot]]
            0 <= slot < lattice::NEIGHBOUR_COUNT && falls_to(width, rows, cell, falls, slot) ==> filled[
                lattice::neighbour_of(width, rows, cell, slot)->0
            ] < filled[cell],
        (exists|slot: int|
            #![trigger falls[slot]]
            steepest(width, rows, cell, falls, slot) && Some(into) == lattice::neighbour_of(
                width,
                rows,
                cell,
                slot,
            )) || (into == reached_by[cell] && into != NOWHERE),
    ensures
        0 <= into < width * rows,
        lattice::adjacent(width, cell, into),
        filled[into] <= filled[cell],
        place(order, into) < place(order, cell),
{
    let steep = exists|slot: int|
        #![trigger falls[slot]]
        steepest(width, rows, cell, falls, slot) && Some(into) == lattice::neighbour_of(width, rows, cell, slot);
    if steep {
        assert(0 < width) by (nonlinear_arith)
            requires
                0 <= cell < width * rows,
                exists|slot: int| Some(into) == #[trigger] lattice::neighbour_of(width, rows, cell, slot),
        {
            let slot = choose|slot: int| Some(into) == #[trigger] lattice::neighbour_of(width, rows, cell, slot);
            assert(0 <= lattice::column_of(width, cell) + lattice::step_x(slot) < width);
        }
        lattice::lemma_slots_reach_the_adjacent(width, rows, cell);
        lemma_place(width, rows, heights, filled, reached_by, order, cell);
        lemma_place(width, rows, heights, filled, reached_by, order, into);
        if place(order, into) >= place(order, cell) {
            the_order_never_goes_down(
                width,
                rows,
                heights,
                filled,
                reached_by,
                order,
                place(order, cell),
                place(order, into),
            );
        }
    } else {
        assert(reached_by[cell] == into);
        no_hollow_is_left(width, rows, heights, filled, reached_by, order, cell);
    }
}

/// Two floods of one landscape agree on everything that comes out before `upto`.
proof fn lemma_floods_agree(
    width: int,
    rows: int,
    heights: Seq<u32>,
    a: Drainage,
    b: Drainage,
    upto: int,
)
    requires
        flooded(width, rows, heights, a.filled@, a.reached_by@, a.order@),
        flooded(width, rows, heights, b.filled@, b.reached_by@, b.order@),
        width * rows <= u32::MAX,
        0 <= upto <= width * rows,
    ensures
        forall|k: int|
            #![trigger a.order@[k]]
            #![trigger b.order@[k]]
            0 <= k < upto ==> a.order@[k] == b.order@[k] && a.filled@[a.order@[k] as int]
                == b.filled@[a.order@[k] as int],
    decreases upto,
{
    if upto > 0 {
        lemma_floods_agree(width, rows, heights, a, b, upto - 1);
        let k = upto - 1;
        let (x, y) = (a.order@[k] as int, b.order@[k] as int);
        assert(reached_at(a.order@, a.reached_by@, x) < k);
        assert(reached_at(b.order@, b.reached_by@, y) < k);
        lemma_reach_agrees(width, rows, heights, a, b, k, x);
        lemma_reach_agrees(width, rows, heights, b, a, k, y);
        lemma_place(width, rows, heights, a.filled@, a.reached_by@, a.order@, y);
        lemma_place(width, rows, heights, b.filled@, b.reached_by@, b.order@, x);
        let (m, n) = (place(a.order@, y), place(b.order@, x));
        assert(m >= k) by {
            if m < k {
                assert(b.order@[m] == y);
            }
        }
        assert(n >= k) by {
            if n < k {
                assert(a.order@[n] == x);
            }
        }
        if x != y {
            assert(m > k && n > k);
            assert(a.order@[m] == y && b.order@[n] == x);
            assert(queue::packed(a.filled@[x], x) < queue::packed(a.filled@[y], y));
            assert(queue::packed(b.filled@[y], y) < queue::packed(b.filled@[x], x));
        }
    }
}

/// Where two floods agree so far, they step onto the same cells from the same
/// cells.
proof fn lemma_reach_agrees(
    width: int,
    rows: int,
    heights: Seq<u32>,
    a: Drainage,
    b: Drainage,
    upto: int,
    cell: int,
)
    requires
        flooded(width, rows, heights, a.filled@, a.reached_by@, a.order@),
        flooded(width, rows, heights, b.filled@, b.reached_by@, b.order@),
        width * rows <= u32::MAX,
        0 <= upto <= width * rows,
        0 <= cell < width * rows,
        reached_at(a.order@, a.reached_by@, cell) < upto,
        forall|k: int|
            #![trigger a.order@[k]]
            #![trigger b.order@[k]]
            0 <= k < upto ==> a.order@[k] == b.order@[k] && a.filled@[a.order@[k] as int]
                == b.filled@[a.order@[k] as int],
    ensures
        reached_at(b.order@, b.reached_by@, cell) == reached_at(a.order@, a.reached_by@, cell),
        a.reached_by@[cell] == b.reached_by@[cell],
        a.filled@[cell] == b.filled@[cell],
{
    let (pa, pb) = (a.reached_by@[cell], b.reached_by@[cell]);
    if lattice::on_edge(width, rows, cell) {
        assert(pa == NOWHERE && pb == NOWHERE);
    } else {
        assert(a.order@.contains(pa) && b.order@.contains(pb));
        let (i, j) = (a.order@.index_of(pa), b.order@.index_of(pb));
        assert(a.order@[i] == pa && b.order@[j] == pb);
        assert(b.order@[i] == pa);
        assert(lattice::adjacent(width, b.order@[i] as int, cell));
        assert(j <= i);
        assert(a.order@[j] == pb);
        assert(lattice::adjacent(width, a.order@[j] as int, cell));
        assert(i <= j);
    }
}

/// The flood of a landscape depends on nothing but the landscape: any two agree
/// on every value.
pub proof fn a_flood_has_one_outcome(width: int, rows: int, heights: Seq<u32>, a: Drainage, b: Drainage)
    requires
        flooded(width, rows, heights, a.filled@, a.reached_by@, a.order@),
        flooded(width, rows, heights, b.filled@, b.reached_by@, b.order@),
        width * rows <= u32::MAX,
    ensures
        a.filled@ == b.filled@,
        a.reached_by@ == b.reached_by@,
        a.order@ == b.order@,
{
    let count = width * rows;
    lemma_floods_agree(width, rows, heights, a, b, count);
    assert(a.order@ =~= b.order@);
    assert forall|cell: int| 0 <= cell < count implies a.reached_by@[cell] == b.reached_by@[cell] && a.filled@[cell]
        == b.filled@[cell] by {
        lemma_place(width, rows, heights, a.filled@, a.reached_by@, a.order@, cell);
        let k = place(a.order@, cell);
        assert(reached_at(a.order@, a.reached_by@, a.order@[k] as int) < k);
        lemma_reach_agrees(width, rows, heights, a, b, count, cell);
    }
    assert(a.filled@ =~= b.filled@);
    assert(a.reached_by@ =~= b.reached_by@);
}

/// Ground that already drains is not raised: where some way out of a cell never
/// climbs above it, no water stands there.
pub proof fn ground_that_already_drains_is_not_raised(
    width: int,
    rows: int,
    heights: Seq<u32>,
    filled: Seq<u32>,
    reached_by: Seq<u32>,
    order: Seq<u32>,
    path: Seq<int>,
)
    requires
        flooded(width, rows, heights, filled, reached_by, order),
        width * rows <= u32::MAX,
        leads_out(width, rows, path),
        crest(heights, path) <= heights[path.first()],
    ensures
        filled[path.first()] == heights[path.first()],
{
    every_way_out_climbs_to_the_water(width, rows, heights, filled, reached_by, order, path);
    assert(0 <= path[0] < width * rows);
    no_hollow_is_left(width, rows, heights, filled, reached_by, order, path.first());
}

/// A lake is level: where water stands in two neighbouring cells, it stands at
/// one height.
pub proof fn a_lake_is_level(
    width: int,
    rows: int,
    heights: Seq<u32>,
    filled: Seq<u32>,
    reached_by: Seq<u32>,
    order: Seq<u32>,
    cell: int,
    beside: int,
)
    requires
        flooded(width, rows, heights, filled, reached_by, order),
        width * rows <= u32::MAX,
        0 <= cell < width * rows,
        0 <= beside < width * rows,
        lattice::adjacent(width, cell, beside),
        filled[cell] > heights[cell],
        filled[beside] > heights[beside],
    ensures
        filled[cell] == filled[beside],
{
    lemma_no_higher_than_a_neighbour(width, rows, heights, filled, reached_by, order, cell, beside);
    lemma_no_higher_than_a_neighbour(width, rows, heights, filled, reached_by, order, beside, cell);
}

/// One backwards sweep of the order is exact: by the time a cell is swept, every
/// cell that hands it water has been.
pub proof fn the_sweep_meets_every_giver_first(
    width: int,
    rows: int,
    heights: Seq<u32>,
    filled: Seq<u32>,
    reached_by: Seq<u32>,
    order: Seq<u32>,
    cell: int,
    falls: Seq<u32>,
    drains_to: u32,
    other: int,
)
    requires
        flooded(width, rows, heights, filled, reached_by, order),
        width * rows <= u32::MAX,
        0 <= cell < width * rows,
        falls.len() == lattice::NEIGHBOUR_COUNT,
        forall|slot: int|
            #![trigger falls[slot]]
            0 <= slot < lattice::NEIGHBOUR_COUNT && falls_to(width, rows, cell, falls, slot) ==> filled[
                lattice::neighbour_of(width, rows, cell, slot)->0
            ] < filled[cell],
        drains_to != NOWHERE ==> 0 <= drains_to < width * rows && place(order, drains_to as int) < place(order, cell),
        hands_to(width, rows, cell, falls, drains_to, other),
    ensures
        0 <= other < width * rows,
        place(order, other) < place(order, cell),
{
    if drains(width, rows, cell, falls) {
        let slot = choose|slot: int|
            #![trigger falls[slot]]
            0 <= slot < lattice::NEIGHBOUR_COUNT && falls_to(width, rows, cell, falls, slot)
                && lattice::neighbour_of(width, rows, cell, slot) == Some(other);
        let column = lattice::column_of(width, cell) + lattice::step_x(slot);
        assert(0 <= column < width);
        lattice::lemma_slots_reach_the_adjacent(width, rows, cell);
        lemma_place(width, rows, heights, filled, reached_by, order, cell);
        lemma_place(width, rows, heights, filled, reached_by, order, other);
        if place(order, other) >= place(order, cell) {
            the_order_never_goes_down(
                width,
                rows,
                heights,
                filled,
                reached_by,
                order,
                place(order, cell),
                place(order, other),
            );
        }
    }
}

/// Of the slots before one, the first of the steepest that lead downhill.
proof fn lemma_first_of_the_steepest(width: int, rows: int, cell: int, falls: Seq<u32>, upto: int) -> (best: int)
    requires
        0 <= upto <= lattice::NEIGHBOUR_COUNT,
    ensures
        -1 <= best < upto,
        best >= 0 ==> falls_to(width, rows, cell, falls, best),
        forall|other: int|
            #![trigger falls[other]]
            0 <= other < upto && falls_to(width, rows, cell, falls, other) ==> best >= 0 && falls[other]
                <= falls[best] && (falls[other] == falls[best] ==> best <= other),
    decreases upto,
{
    if upto == 0 {
        -1
    } else {
        let before = lemma_first_of_the_steepest(width, rows, cell, falls, upto - 1);
        if falls_to(width, rows, cell, falls, upto - 1) && (before < 0 || falls[upto - 1] > falls[before]) {
            upto - 1
        } else {
            before
        }
    }
}

/// A cell drains one way: the falls around it and the cell it was reached from
/// settle where its water goes.
pub proof fn a_cell_drains_one_way(
    width: int,
    rows: int,
    cell: int,
    falls: Seq<u32>,
    reached_by: u32,
    a: u32,
    b: u32,
)
    requires
        is_receiver(width, rows, cell, falls, reached_by, a),
        is_receiver(width, rows, cell, falls, reached_by, b),
    ensures
        a == b,
{
    let best = lemma_first_of_the_steepest(width, rows, cell, falls, lattice::NEIGHBOUR_COUNT as int);
    if best >= 0 {
        assert(falls[best] == falls[best]);
        assert(steepest(width, rows, cell, falls, best));
    }
}

/// A scratch remembers nothing: whatever it flooded before, it comes to the same
/// water, the same order and the same ways down as a fresh one. The falls may be
/// read off the water in any way.
pub proof fn a_reused_scratch_remembers_nothing(
    width: int,
    rows: int,
    heights: Seq<u32>,
    reused: Drainage,
    fresh: Drainage,
    falls: spec_fn(Seq<u32>, int) -> Seq<u32>,
    ways: Seq<u32>,
    fresh_ways: Seq<u32>,
)
    requires
        flooded(width, rows, heights, reused.filled@, reused.reached_by@, reused.order@),
        flooded(width, rows, heights, fresh.filled@, fresh.reached_by@, fresh.order@),
        width * rows <= u32::MAX,
        ways.len() == width * rows,
        fresh_ways.len() == width * rows,
        forall|cell: int|
            #![trigger ways[cell]]
            0 <= cell < width * rows ==> is_receiver(
                width,
                rows,
                cell,
                falls(reused.filled@, cell),
                reused.reached_by@[cell],
                ways[cell],
            ),
        forall|cell: int|
            #![trigger fresh_ways[cell]]
            0 <= cell < width * rows ==> is_receiver(
                width,
                rows,
                cell,
                falls(fresh.filled@, cell),
                fresh.reached_by@[cell],
                fresh_ways[cell],
            ),
    ensures
        reused.filled@ == fresh.filled@,
        reused.reached_by@ == fresh.reached_by@,
        reused.order@ == fresh.order@,
        ways == fresh_ways,
{
    a_flood_has_one_outcome(width, rows, heights, reused, fresh);
    assert forall|cell: int| 0 <= cell < ways.len() implies #[trigger] ways[cell] == fresh_ways[cell] by {
        a_cell_drains_one_way(
            width,
            rows,
            cell,
            falls(fresh.filled@, cell),
            fresh.reached_by@[cell],
            ways[cell],
            fresh_ways[cell],
        );
    }
    assert(ways =~= fresh_ways);
}

/// The edge of the map is where a flood starts: it is reached from nowhere and
/// water stands no higher there than the ground.
pub proof fn the_edge_keeps_its_height(
    width: int,
    rows: int,
    heights: Seq<u32>,
    filled: Seq<u32>,
    reached_by: Seq<u32>,
    order: Seq<u32>,
    x: int,
    y: int,
)
    requires
        flooded(width, rows, heights, filled, reached_by, order),
        0 <= x < width,
        0 <= y < rows,
        x == 0 || y == 0 || x == width - 1 || y == rows - 1,
    ensures
        filled[y * width + x] == heights[y * width + x],
        reached_by[y * width + x] == 0xffff_ffff,
{
    lattice::lemma_cell_coordinates(width, rows, x, y);
    lattice::the_edge_is_where_a_slot_leads_off(width, rows, x, y);
    assert(reached_by[y * width + x] == NOWHERE);
}

/// A cell off the edge is reached from the first of its neighbours to come out,
/// and water stands in it as high as in that neighbour or as the ground,
/// whichever is higher.
pub proof fn a_cell_is_reached_from_its_first_neighbour(
    width: int,
    rows: int,
    heights: Seq<u32>,
    filled: Seq<u32>,
    reached_by: Seq<u32>,
    order: Seq<u32>,
    cell: int,
    beside: int,
)
    requires
        flooded(width, rows, heights, filled, reached_by, order),
        width * rows <= u32::MAX,
        0 <= cell < width * rows,
        !lattice::on_edge(width, rows, cell),
        0 <= beside < width * rows,
        lattice::adjacent(width, beside, cell),
    ensures
        ({
            let by = reached_by[cell] as int;
            &&& 0 <= by < width * rows
            &&& lattice::adjacent(width, by, cell)
            &&& order.index_of(by as u32) <= order.index_of(beside as u32)
            &&& filled[cell] >= filled[by]
            &&& filled[cell] >= heights[cell]
            &&& filled[cell] == filled[by] || filled[cell] == heights[cell]
        }),
{
    let by = reached_by[cell] as int;
    assert(by < width * rows);
    lemma_place(width, rows, heights, filled, reached_by, order, beside);
    let k = place(order, beside);
    assert(order[k] == beside);
    assert(lattice::adjacent(width, order[k] as int, cell));
    assert(reached_at(order, reached_by, cell) <= k);
}

/// What comes out is the lowest cell waiting: whatever was reached before it and
/// comes out later stands higher, or as high with a larger index.
pub proof fn the_lowest_cell_waiting_comes_out(
    width: int,
    rows: int,
    heights: Seq<u32>,
    filled: Seq<u32>,
    reached_by: Seq<u32>,
    order: Seq<u32>,
    k: int,
    m: int,
)
    requires
        flooded(width, rows, heights, filled, reached_by, order),
        width * rows <= u32::MAX,
        0 <= k < m < width * rows,
        reached_by[order[m] as int] == 0xffff_ffff || order.index_of(reached_by[order[m] as int]) < k,
    ensures
        order[k] != order[m],
        filled[order[k] as int] <= filled[order[m] as int],
        filled[order[k] as int] == filled[order[m] as int] ==> order[k] < order[m],
{
    assert(order[k] < width * rows && order[m] < width * rows);
    assert(reached_at(order, reached_by, order[m] as int) < k);
    queue::cells_wait_by_height_and_then_by_index(
        filled[order[k] as int],
        order[k] as int,
        filled[order[m] as int],
        order[m] as int,
    );
}

/// The crest of a way is the highest ground on it: nothing on the way is higher,
/// and somewhere on it is as high.
pub proof fn a_crest_is_the_highest_ground(heights: Seq<u32>, path: Seq<int>)
    requires
        path.len() > 0,
    ensures
        forall|i: int| 0 <= i < path.len() ==> heights[#[trigger] path[i]] <= crest(heights, path),
        exists|i: int| 0 <= i < path.len() && heights[#[trigger] path[i]] == crest(heights, path),
    decreases path.len(),
{
    let rest = path.drop_first();
    if path.len() == 1 {
        assert(rest.len() == 0);
        assert(crest(heights, rest) == 0);
        assert(heights[path[0]] == crest(heights, path));
    } else {
        a_crest_is_the_highest_ground(heights, rest);
        assert forall|i: int| 0 <= i < path.len() implies heights[#[trigger] path[i]] <= crest(heights, path) by {
            if i > 0 {
                assert(rest[i - 1] == path[i]);
            }
        }
        if heights[path[0]] < crest(heights, rest) {
            let i = choose|i: int| 0 <= i < rest.len() && heights[#[trigger] rest[i]] == crest(heights, rest);
            assert(path[i + 1] == rest[i]);
            assert(heights[path[i + 1]] == crest(heights, path));
        } else {
            assert(heights[path[0]] == crest(heights, path));
        }
    }
}

/// Water takes the steepest way down there is, the first slot of those as steep;
/// where no neighbour lies lower it goes the way the flood came.
pub proof fn water_takes_the_steepest_way_down(
    width: int,
    rows: int,
    cell: int,
    falls: Seq<u32>,
    reached_by: u32,
    into: u32,
)
    requires
        is_receiver(width, rows, cell, falls, reached_by, into),
    ensures
        (exists|slot: int|
            0 <= slot < 8 && #[trigger] lattice::neighbour_of(width, rows, cell, slot) is Some && falls[slot]
                > 0x8000_0000) ==> exists|slot: int| {
            &&& 0 <= slot < 8
            &&& #[trigger] lattice::neighbour_of(width, rows, cell, slot) == Some(into as int)
            &&& falls[slot] > 0x8000_0000
            &&& forall|other: int|
                0 <= other < 8 && #[trigger] lattice::neighbour_of(width, rows, cell, other) is Some ==> falls[other]
                    <= falls[slot] && (falls[other] == falls[slot] ==> slot <= other)
        },
        (forall|slot: int|
            0 <= slot < 8 && #[trigger] lattice::neighbour_of(width, rows, cell, slot) is Some ==> falls[slot]
                <= 0x8000_0000) ==> into == reached_by,
{
    let best = lemma_first_of_the_steepest(width, rows, cell, falls, lattice::NEIGHBOUR_COUNT as int);
    if best >= 0 {
        assert(falls[best] == falls[best]);
        assert(steepest(width, rows, cell, falls, best));
        assert(lattice::neighbour_of(width, rows, cell, best) == Some(into as int));
        assert forall|other: int|
            0 <= other < 8 && #[trigger] lattice::neighbour_of(width, rows, cell, other) is Some implies falls[other]
            <= falls[best] && (falls[other] == falls[best] ==> best <= other) by {
            if falls[other] > LEVEL {
                assert(falls_to(width, rows, cell, falls, other));
            }
        }
    } else {
        assert forall|slot: int| 0 <= slot < 8 && #[trigger] lattice::neighbour_of(width, rows, cell, slot) is Some implies falls[slot]
            <= 0x8000_0000 by {
            assert(falls[slot] == falls[slot]);
        }
        assert forall|slot: int| #![trigger falls[slot]] 0 <= slot < lattice::NEIGHBOUR_COUNT implies !falls_to(
            width,
            rows,
            cell,
            falls,
            slot,
        ) by {
            assert(lattice::neighbour_of(width, rows, cell, slot) is Some ==> falls[slot] <= 0x8000_0000);
        }
    }
}

/// A cell shares its water out exactly where a neighbour it has lies lower.
pub proof fn water_is_shared_where_a_neighbour_lies_lower(width: int, rows: int, cell: int, falls: Seq<u32>)
    ensures
        drains(width, rows, cell, falls) <==> exists|slot: int|
            0 <= slot < 8 && #[trigger] lattice::neighbour_of(width, rows, cell, slot) is Some && falls[slot]
                > 0x8000_0000,
{
    if exists|slot: int|
        0 <= slot < 8 && #[trigger] lattice::neighbour_of(width, rows, cell, slot) is Some && falls[slot]
            > 0x8000_0000 {
        let slot = choose|slot: int|
            0 <= slot < 8 && #[trigger] lattice::neighbour_of(width, rows, cell, slot) is Some && falls[slot]
                > 0x8000_0000;
        assert(falls[slot] > LEVEL);
    }
    if drains(width, rows, cell, falls) {
        let slot = choose|slot: int|
            #![trigger falls[slot]]
            0 <= slot < lattice::NEIGHBOUR_COUNT && falls_to(width, rows, cell, falls, slot);
        assert(lattice::neighbour_of(width, rows, cell, slot) is Some);
    }
}

/// A drainage is empty where it holds nothing of any kind.
pub proof fn an_empty_drainage_holds_nothing(drainage: Drainage)
    ensures
        drainage.is_empty() <==> drainage.filled@.len() == 0 && drainage.reached_by@.len() == 0
            && drainage.order@.len() == 0,
{
}

} // verus!
