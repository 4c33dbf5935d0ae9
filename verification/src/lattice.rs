//! Cells of a rectangular grid: their coordinates, their edge and their eight
//! neighbours.

use vstd::prelude::*;
use vstd::arithmetic::div_mod::*;
use vstd::arithmetic::mul::*;

verus! {

/// How many neighbours a cell inside the grid has.
pub const NEIGHBOUR_COUNT: usize = 8;

/// How far the neighbour in a slot lies to the east: sides first, corners after.
pub open spec fn step_x(slot: int) -> int {
    if slot == 0 || slot == 4 || slot == 6 {
        -1
    } else if slot == 1 || slot == 5 || slot == 7 {
        1
    } else {
        0
    }
}

/// How far the neighbour in a slot lies to the south.
pub open spec fn step_y(slot: int) -> int {
    if slot == 2 || slot == 4 || slot == 5 {
        -1
    } else if slot == 3 || slot == 6 || slot == 7 {
        1
    } else {
        0
    }
}

/// The column of a cell in a grid stored row by row.
pub open spec fn column_of(width: int, cell: int) -> int {
    cell % width
}

/// The row of a cell in a grid stored row by row.
pub open spec fn row_of(width: int, cell: int) -> int {
    cell / width
}

/// Whether a cell lies on the outline of the grid.
pub open spec fn on_edge(width: int, rows: int, cell: int) -> bool {
    ||| row_of(width, cell) == 0
    ||| column_of(width, cell) == 0
    ||| row_of(width, cell) == rows - 1
    ||| column_of(width, cell) == width - 1
}

/// Whether two cells touch along a side or at a corner.
pub open spec fn adjacent(width: int, a: int, b: int) -> bool {
    &&& -1 <= column_of(width, a) - column_of(width, b) <= 1
    &&& -1 <= row_of(width, a) - row_of(width, b) <= 1
    &&& a != b
}

/// The neighbour of a cell in a slot, where the grid has one there.
pub open spec fn neighbour_of(width: int, rows: int, cell: int, slot: int) -> Option<int> {
    let x = column_of(width, cell) + step_x(slot);
    let y = row_of(width, cell) + step_y(slot);
    if 0 <= x < width && 0 <= y < rows {
        Some(y * width + x)
    } else {
        None
    }
}

/// A cell is its row times the width plus its column, and nothing else is.
pub proof fn lemma_cell_coordinates(width: int, rows: int, x: int, y: int)
    requires
        0 <= x < width,
        0 <= y < rows,
    ensures
        0 <= y * width + x < width * rows,
        column_of(width, y * width + x) == x,
        row_of(width, y * width + x) == y,
{
    lemma_fundamental_div_mod_converse(y * width + x, width, y, x);
    assert(y * width + x < width * rows) by (nonlinear_arith)
        requires
            0 <= x < width,
            0 <= y < rows,
    ;
    assert(0 <= y * width) by (nonlinear_arith)
        requires
            0 <= y,
            0 < width,
    ;
}

/// The coordinates of a cell of the grid lie inside it.
pub proof fn lemma_cell_inside(width: int, rows: int, cell: int)
    requires
        0 < width,
        0 <= cell < width * rows,
    ensures
        0 <= column_of(width, cell) < width,
        0 <= row_of(width, cell) < rows,
        cell == row_of(width, cell) * width + column_of(width, cell),
{
    lemma_fundamental_div_mod(cell, width);
    lemma_mul_is_commutative(width, cell / width);
    let y = cell / width;
    assert(0 <= y) by {
        lemma_div_pos_is_pos(cell, width);
    }
    assert(y < rows) by (nonlinear_arith)
        requires
            cell == y * width + cell % width,
            0 <= cell % width,
            cell < width * rows,
            0 < width,
    ;
}

/// The slots of a cell lead exactly to the cells that touch it.
pub proof fn lemma_slots_reach_the_adjacent(width: int, rows: int, cell: int)
    requires
        0 < width,
        0 <= cell < width * rows,
    ensures
        forall|slot: int|
            #![trigger neighbour_of(width, rows, cell, slot)]
            0 <= slot < NEIGHBOUR_COUNT ==> match neighbour_of(width, rows, cell, slot) {
                Some(other) => 0 <= other < width * rows && adjacent(width, cell, other),
                None => true,
            },
        forall|other: int|
            0 <= other < width * rows && #[trigger] adjacent(width, cell, other) ==> exists|slot: int|
                0 <= slot < NEIGHBOUR_COUNT && #[trigger] neighbour_of(width, rows, cell, slot) == Some(other),
{
    lemma_cell_inside(width, rows, cell);
    let (cx, cy) = (column_of(width, cell), row_of(width, cell));
    assert forall|slot: int|
        #![trigger neighbour_of(width, rows, cell, slot)]
        0 <= slot < NEIGHBOUR_COUNT implies match neighbour_of(width, rows, cell, slot) {
        Some(other) => 0 <= other < width * rows && adjacent(width, cell, other),
        None => true,
    } by {
        let (x, y) = (cx + step_x(slot), cy + step_y(slot));
        if 0 <= x < width && 0 <= y < rows {
            lemma_cell_coordinates(width, rows, x, y);
        }
    }
    assert forall|other: int| 0 <= other < width * rows && #[trigger] adjacent(width, cell, other) implies exists|
        slot: int,
    |
        0 <= slot < NEIGHBOUR_COUNT && #[trigger] neighbour_of(width, rows, cell, slot) == Some(other) by {
        lemma_cell_inside(width, rows, other);
        let dx = column_of(width, other) - cx;
        let dy = row_of(width, other) - cy;
        let slot: int = if dy == 0 {
            if dx < 0 { 0 } else { 1 }
        } else if dx == 0 {
            if dy < 0 { 2 } else { 3 }
        } else if dy < 0 {
            if dx < 0 { 4 } else { 5 }
        } else {
            if dx < 0 { 6 } else { 7 }
        };
        assert(neighbour_of(width, rows, cell, slot) == Some(other));
    }
}

/// The neighbour of a cell in a slot, where the grid has one there.
pub fn neighbour(width: usize, rows: usize, cell: usize, slot: usize) -> (other: Option<usize>)
    requires
        width * rows <= usize::MAX,
        cell < width * rows,
        slot < NEIGHBOUR_COUNT,
    ensures
        match other {
            Some(other) => neighbour_of(width as int, rows as int, cell as int, slot as int) == Some(
                other as int,
            ) && other < width * rows,
            None => neighbour_of(width as int, rows as int, cell as int, slot as int) is None,
        },
{
    proof {
        assert(width > 0) by (nonlinear_arith)
            requires
                cell < width * rows,
                cell >= 0,
                width >= 0,
        ;
        lemma_cell_inside(width as int, rows as int, cell as int);
        lemma_slots_reach_the_adjacent(width as int, rows as int, cell as int);
    }
    let x: usize = cell % width;
    let y: usize = cell / width;
    let nx: usize = if slot == 0 || slot == 4 || slot == 6 {
        if x == 0 {
            return None;
        }
        x - 1
    } else if slot == 1 || slot == 5 || slot == 7 {
        if x == width - 1 {
            return None;
        }
        x + 1
    } else {
        x
    };
    let ny: usize = if slot == 2 || slot == 4 || slot == 5 {
        if y == 0 {
            return None;
        }
        y - 1
    } else if slot == 3 || slot == 6 || slot == 7 {
        if y == rows - 1 {
            return None;
        }
        y + 1
    } else {
        y
    };
    proof {
        lemma_cell_coordinates(width as int, rows as int, nx as int, ny as int);
        assert(ny * width <= ny * width + nx);
    }
    Some(ny * width + nx)
}

/// Where the neighbour in a slot lies from a cell, east and south: west, east,
/// north and south of it, then north-west, north-east, south-west and
/// south-east.
pub open spec fn compass(slot: int) -> (int, int) {
    if slot == 0 {
        (-1, 0)
    } else if slot == 1 {
        (1, 0)
    } else if slot == 2 {
        (0, -1)
    } else if slot == 3 {
        (0, 1)
    } else if slot == 4 {
        (-1, -1)
    } else if slot == 5 {
        (1, -1)
    } else if slot == 6 {
        (-1, 1)
    } else {
        (1, 1)
    }
}

/// A slot leads to the cell that lies its way, and nowhere where that is off the
/// grid.
pub proof fn a_slot_leads_its_way(width: int, rows: int, x: int, y: int, slot: int)
    requires
        0 <= x < width,
        0 <= y < rows,
        0 <= slot < 8,
    ensures
        ({
            let (u, v) = (x + compass(slot).0, y + compass(slot).1);
            neighbour_of(width, rows, y * width + x, slot) == if 0 <= u < width && 0 <= v < rows {
                Some(v * width + u)
            } else {
                None
            }
        }),
{
    lemma_cell_coordinates(width, rows, x, y);
}

/// A cell is on the edge where a slot of it leads off the grid, which is in the
/// first or last column or row.
pub proof fn the_edge_is_where_a_slot_leads_off(width: int, rows: int, x: int, y: int)
    requires
        0 <= x < width,
        0 <= y < rows,
    ensures
        on_edge(width, rows, y * width + x) <==> x == 0 || x == width - 1 || y == 0 || y == rows - 1,
        on_edge(width, rows, y * width + x) <==> exists|slot: int|
            0 <= slot < 8 && #[trigger] neighbour_of(width, rows, y * width + x, slot) is None,
{
    lemma_cell_coordinates(width, rows, x, y);
    let cell = y * width + x;
    if x == 0 {
        assert(neighbour_of(width, rows, cell, 0) is None);
    } else if x == width - 1 {
        assert(neighbour_of(width, rows, cell, 1) is None);
    } else if y == 0 {
        assert(neighbour_of(width, rows, cell, 2) is None);
    } else if y == rows - 1 {
        assert(neighbour_of(width, rows, cell, 3) is None);
    }
}

/// Cells touch where neither their columns nor their rows are more than one
/// apart and they are not one cell; then each has a slot that leads to the
/// other.
pub proof fn cells_touch_where_a_slot_leads(width: int, rows: int, x: int, y: int, u: int, v: int)
    requires
        0 <= x < width,
        0 <= y < rows,
        0 <= u < width,
        0 <= v < rows,
    ensures
        adjacent(width, y * width + x, v * width + u) <==> -1 <= x - u <= 1 && -1 <= y - v <= 1 && !(x == u && y
            == v),
        adjacent(width, y * width + x, v * width + u) <==> exists|slot: int|
            0 <= slot < 8 && #[trigger] neighbour_of(width, rows, y * width + x, slot) == Some(v * width + u),
        adjacent(width, y * width + x, v * width + u) <==> adjacent(width, v * width + u, y * width + x),
{
    lemma_cell_coordinates(width, rows, x, y);
    lemma_cell_coordinates(width, rows, u, v);
    lemma_slots_reach_the_adjacent(width, rows, y * width + x);
    let (a, b) = (y * width + x, v * width + u);
    if x == u && y == v {
        assert(a == b);
    }
}

} // verus!
