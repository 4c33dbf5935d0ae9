//! One channel of the coarse grid.

use crate::lattice;
use vstd::prelude::*;

verus! {

/// A value for every node of a grid, stored row by row.
#[derive(Debug)]
pub struct Grid<T> {
    pub width: usize,
    pub height: usize,
    pub values: Vec<T>,
}

/// A position along an axis, moved onto it where it lies off either end.
pub open spec fn onto(at: int, count: int) -> int {
    if at < 0 {
        0
    } else if at >= count {
        count - 1
    } else {
        at
    }
}

/// Moves a position along an axis of `count` nodes onto it.
pub fn clamped(at: i64, count: usize) -> (on: usize)
    requires
        0 < count,
    ensures
        on == onto(at as int, count as int),
        on < count,
{
    if at < 0 {
        0
    } else if at as u64 >= count as u64 {
        count - 1
    } else {
        at as usize
    }
}

impl<T: Copy> Grid<T> {
    /// Whether the grid holds a value for every node.
    pub open spec fn well_formed(self) -> bool {
        self.values@.len() == self.width * self.height
    }

    /// The value at a node.
    pub open spec fn node(self, column: int, row: int) -> T {
        self.values@[row * self.width + column]
    }

    /// A grid with one value everywhere.
    pub fn filled(width: usize, height: usize, value: T) -> (grid: Grid<T>)
        requires
            width * height <= usize::MAX,
        ensures
            grid.well_formed(),
            grid.width == width,
            grid.height == height,
            forall|i: int| 0 <= i < width * height ==> #[trigger] grid.values@[i] == value,
    {
        let count: usize = width * height;
        let mut values: Vec<T> = Vec::with_capacity(count);
        let mut i: usize = 0;
        while i < count
            invariant
                i <= count,
                values@.len() == i,
                forall|k: int| 0 <= k < i ==> #[trigger] values@[k] == value,
            decreases count - i,
        {
            values.push(value);
            i = i + 1;
        }
        Grid { width, height, values }
    }

    /// Where a node's value is stored.
    pub fn index(&self, column: usize, row: usize) -> (index: usize)
        requires
            self.well_formed(),
            column < self.width,
            row < self.height,
        ensures
            index == row * self.width + column,
            index < self.values@.len(),
    {
        proof {
            assert(self.values.len() <= usize::MAX);
            lattice::lemma_cell_coordinates(self.width as int, self.height as int, column as int, row as int);
            assert(row * self.width <= row * self.width + column);
        }
        row * self.width + column
    }

    /// The value at a position, with anything outside taken from the edge.
    pub fn at(&self, column: i64, row: i64) -> (value: T)
        requires
            self.well_formed(),
            0 < self.width,
            0 < self.height,
        ensures
            value == self.node(onto(column as int, self.width as int), onto(row as int, self.height as int)),
    {
        let index: usize = self.index(clamped(column, self.width), clamped(row, self.height));
        self.values[index]
    }
}

/// What stands in for a neighbour.
#[derive(Clone, Copy, Debug, PartialEq, Eq, Structural)]
pub enum Beside {
    /// The neighbour itself.
    There(usize),
    /// The cell on the other side, for a neighbour off the grid: the ground is
    /// continued straight on from it.
    Continued(usize),
    /// Nothing: both sides lie off the grid.
    Nothing,
}

/// The slot across the cell from a slot.
pub open spec fn opposite(slot: int) -> int {
    if slot < 4 {
        if slot % 2 == 0 {
            slot + 1
        } else {
            slot - 1
        }
    } else {
        11 - slot
    }
}

/// What stands in for the neighbour in a slot.
pub open spec fn stand_in(width: int, rows: int, cell: int, slot: int) -> Beside {
    match lattice::neighbour_of(width, rows, cell, slot) {
        Some(other) => Beside::There(other as usize),
        None => match lattice::neighbour_of(width, rows, cell, opposite(slot)) {
            Some(other) => Beside::Continued(other as usize),
            None => Beside::Nothing,
        },
    }
}

/// Finds what stands in for the neighbour in a slot.
pub fn beside(width: usize, rows: usize, cell: usize, slot: usize) -> (found: Beside)
    requires
        width * rows <= usize::MAX,
        cell < width * rows,
        slot < lattice::NEIGHBOUR_COUNT,
    ensures
        found == stand_in(width as int, rows as int, cell as int, slot as int),
{
    if let Some(other) = lattice::neighbour(width, rows, cell, slot) {
        return Beside::There(other);
    }
    let across: usize = if slot < 4 {
        if slot % 2 == 0 {
            slot + 1
        } else {
            slot - 1
        }
    } else {
        11 - slot
    };
    match lattice::neighbour(width, rows, cell, across) {
        Some(other) => Beside::Continued(other),
        None => Beside::Nothing,
    }
}

/// The slot across from a slot lies the same way the other way round, and the
/// slot across from that is the slot itself.
pub proof fn opposite_slots_face_each_other(slot: int)
    requires
        0 <= slot < lattice::NEIGHBOUR_COUNT,
    ensures
        0 <= opposite(slot) < lattice::NEIGHBOUR_COUNT,
        lattice::step_x(opposite(slot)) == -lattice::step_x(slot),
        lattice::step_y(opposite(slot)) == -lattice::step_y(slot),
        opposite(opposite(slot)) == slot,
{
}

/// A position on the grid is left where it is, and one off it is moved to the
/// nearest position on it.
pub proof fn clamping_takes_the_nearest(at: int, count: int, other: int)
    requires
        0 < count,
        0 <= other < count,
    ensures
        0 <= onto(at, count) < count,
        0 <= at < count ==> onto(at, count) == at,
        at <= onto(at, count) <= other || other <= onto(at, count) <= at,
{
}

/// What stands in for a neighbour is the neighbour, where there is one. Off the
/// grid it is the cell as far the other way, and where that is off too, nothing.
pub proof fn a_missing_neighbour_is_mirrored(width: int, rows: int, x: int, y: int, slot: int)
    requires
        0 <= x < width,
        0 <= y < rows,
        0 <= slot < 8,
    ensures
        ({
            let (dx, dy) = lattice::compass(slot);
            let there = 0 <= x + dx < width && 0 <= y + dy < rows;
            let across = 0 <= x - dx < width && 0 <= y - dy < rows;
            &&& there ==> stand_in(width, rows, y * width + x, slot) == Beside::There(
                ((y + dy) * width + x + dx) as usize,
            )
            &&& !there && across ==> stand_in(width, rows, y * width + x, slot) == Beside::Continued(
                ((y - dy) * width + x - dx) as usize,
            )
            &&& !there && !across ==> stand_in(width, rows, y * width + x, slot) == Beside::Nothing
        }),
{
    lattice::a_slot_leads_its_way(width, rows, x, y, slot);
    lattice::a_slot_leads_its_way(width, rows, x, y, opposite(slot));
}

/// A grid is stored row by row, from the west end of its first row.
pub proof fn a_grid_is_stored_row_by_row<T: Copy>(grid: Grid<T>, column: int, row: int)
    requires
        0 <= column < grid.width,
        0 <= row < grid.height,
    ensures
        grid.node(column, row) == grid.values@[row * grid.width + column],
        grid.well_formed() <==> grid.values@.len() == grid.height * grid.width,
{
    assert(grid.width * grid.height == grid.height * grid.width) by (nonlinear_arith);
}

} // verus!
