//! Sharing the ground out among droplets that run at the same time.
//!
//! A droplet only ever touches ground near where it landed, so droplets far
//! enough apart cannot meet however they are ordered. The map is cut into tiles,
//! the tiles are coloured so that those of one colour lie far enough apart, and
//! the tiles of a colour run at once.

use crate::extent;
use crate::noise;
use crate::noise::{hash, hash_fraction};
use vstd::prelude::*;

verus! {

/// How many steps of a cell a droplet takes at most.
pub const MAX_STEPS: u32 = 64;

/// How far, in cells, a droplet's cutting is spread.
pub const BRUSH_RADIUS: i64 = 2;

/// Cells across the square of ground whose droplets run one after another.
pub const TILE: usize = 256;

/// How far outside its tile a droplet's writing can reach.
pub const HALO: usize = 80;

/// How far apart, in tiles, two tiles running at once have to be.
pub const SPACING: usize = 2;

/// How many passes the tiles are run in.
pub const COLOURS: usize = 4;

/// Whether an offset lies on the disc a droplet's cutting is spread over.
pub open spec fn on_brush(offset: (i64, i64)) -> bool {
    &&& -BRUSH_RADIUS <= offset.0 <= BRUSH_RADIUS
    &&& -BRUSH_RADIUS <= offset.1 <= BRUSH_RADIUS
    &&& offset.0 * offset.0 + offset.1 * offset.1 <= BRUSH_RADIUS * BRUSH_RADIUS
}

/// Where an offset comes when the square around the disc is read row by row.
pub open spec fn reading(offset: (i64, i64)) -> int {
    (offset.1 + 2) * 5 + offset.0 + 2
}

/// Lists the offsets of the disc a droplet's cutting is spread over, row by row.
pub fn brush() -> (cells: Vec<(i64, i64)>)
    ensures
        forall|i: int| 0 <= i < cells@.len() ==> on_brush(#[trigger] cells@[i]),
        forall|i: int, j: int|
            #![trigger cells@[i], cells@[j]]
            0 <= i < j < cells@.len() ==> reading(cells@[i]) < reading(cells@[j]),
        forall|offset: (i64, i64)| on_brush(offset) ==> #[trigger] cells@.contains(offset),
{
    let mut cells: Vec<(i64, i64)> = Vec::new();
    let mut at: i64 = 0;
    while at < 25
        invariant
            0 <= at <= 25,
            forall|i: int| 0 <= i < cells@.len() ==> on_brush(#[trigger] cells@[i]) && reading(cells@[i]) < at,
            forall|i: int, j: int|
                #![trigger cells@[i], cells@[j]]
                0 <= i < j < cells@.len() ==> reading(cells@[i]) < reading(cells@[j]),
            forall|offset: (i64, i64)|
                on_brush(offset) && reading(offset) < at ==> #[trigger] cells@.contains(offset),
        decreases 25 - at,
    {
        let (dx, dy): (i64, i64) = (at % 5 - BRUSH_RADIUS, at / 5 - BRUSH_RADIUS);
        let ghost before = cells@;
        assert(0 <= dx * dx <= 4 && 0 <= dy * dy <= 4) by (nonlinear_arith)
            requires
                -2 <= dx <= 2,
                -2 <= dy <= 2,
        ;
        if dx * dx + dy * dy <= BRUSH_RADIUS * BRUSH_RADIUS {
            cells.push((dx, dy));
        }
        proof {
            assert forall|offset: (i64, i64)|
                on_brush(offset) && reading(offset) < at + 1 implies #[trigger] cells@.contains(offset) by {
                if reading(offset) < at {
                    assert(before.contains(offset));
                    let i = choose|i: int| 0 <= i < before.len() && before[i] == offset;
                    assert(cells@[i] == offset);
                } else {
                    assert(offset == (dx, dy));
                    assert(cells@.last() == offset);
                }
            }
        }
        at = at + 1;
    }
    cells
}

/// How many tiles a stretch of cells is cut into.
pub open spec fn tiles_along(cells: int) -> int {
    extent::groups_covering(cells, TILE as int)
}

/// Which pass a tile runs in.
pub open spec fn colour_of(tx: int, ty: int) -> int {
    tx % (SPACING as int) + SPACING * (ty % (SPACING as int))
}

/// Whether the map has such a tile, and it runs in a pass.
pub open spec fn runs_in(width: int, rows: int, colour: int, tile: (usize, usize)) -> bool {
    &&& tile.0 < tiles_along(width)
    &&& tile.1 < tiles_along(rows)
    &&& colour_of(tile.0 as int, tile.1 as int) == colour
}

/// Where a tile comes when they are read row by row.
pub open spec fn tile_reading(width: int, tile: (usize, usize)) -> int {
    tile.1 * tiles_along(width) + tile.0
}

/// How many tiles a stretch of cells is cut into.
fn count_tiles(cells: usize) -> (count: usize)
    ensures
        count == tiles_along(cells as int),
{
    proof {
        extent::lemma_groups(cells as int, TILE as int);
    }
    if cells % TILE == 0 {
        cells / TILE
    } else {
        cells / TILE + 1
    }
}

/// Lists the tiles that run in one pass, row by row.
pub fn tiles_of_colour(width: usize, rows: usize, colour: usize) -> (tiles: Vec<(usize, usize)>)
    ensures
        forall|i: int|
            0 <= i < tiles@.len() ==> runs_in(width as int, rows as int, colour as int, #[trigger] tiles@[i]),
        forall|i: int, j: int|
            #![trigger tiles@[i], tiles@[j]]
            0 <= i < j < tiles@.len() ==> tile_reading(width as int, tiles@[i]) < tile_reading(
                width as int,
                tiles@[j],
            ),
        forall|tile: (usize, usize)|
            runs_in(width as int, rows as int, colour as int, tile) ==> #[trigger] tiles@.contains(tile),
{
    let across: usize = count_tiles(width);
    let down: usize = count_tiles(rows);
    let ghost (w, r, c) = (width as int, rows as int, colour as int);
    let mut tiles: Vec<(usize, usize)> = Vec::new();
    let mut ty: usize = 0;
    while ty < down
        invariant
            ty <= down,
            w == width,
            r == rows,
            c == colour,
            across == tiles_along(w),
            down == tiles_along(r),
            forall|i: int|
                0 <= i < tiles@.len() ==> runs_in(w, r, c, #[trigger] tiles@[i]) && tiles@[i].1 < ty,
            forall|i: int, j: int|
                #![trigger tiles@[i], tiles@[j]]
                0 <= i < j < tiles@.len() ==> tile_reading(w, tiles@[i]) < tile_reading(w, tiles@[j]),
            forall|tile: (usize, usize)|
                runs_in(w, r, c, tile) && tile.1 < ty ==> #[trigger] tiles@.contains(tile),
        decreases down - ty,
    {
        let mut tx: usize = 0;
        while tx < across
            invariant
                tx <= across,
                ty < down,
                w == width,
                r == rows,
                c == colour,
                across == tiles_along(w),
                down == tiles_along(r),
                forall|i: int|
                    0 <= i < tiles@.len() ==> runs_in(w, r, c, #[trigger] tiles@[i]) && (tiles@[i].1 < ty || (
                    tiles@[i].1 == ty && tiles@[i].0 < tx)),
                forall|i: int, j: int|
                    #![trigger tiles@[i], tiles@[j]]
                    0 <= i < j < tiles@.len() ==> tile_reading(w, tiles@[i]) < tile_reading(w, tiles@[j]),
                forall|tile: (usize, usize)|
                    runs_in(w, r, c, tile) && (tile.1 < ty || (tile.1 == ty && tile.0 < tx))
                        ==> #[trigger] tiles@.contains(tile),
            decreases across - tx,
        {
            let ghost before = tiles@;
            if (tx % SPACING) + SPACING * (ty % SPACING) == colour {
                tiles.push((tx, ty));
            }
            proof {
                assert forall|i: int, j: int|
                    #![trigger tiles@[i], tiles@[j]]
                    0 <= i < j < tiles@.len() implies tile_reading(w, tiles@[i]) < tile_reading(w, tiles@[j]) by {
                    if j == before.len() {
                        assert(tiles@[i] == before[i]);
                        lemma_reading_rises(w, before[i], (tx, ty));
                    } else {
                        assert(tiles@[i] == before[i] && tiles@[j] == before[j]);
                    }
                }
                assert forall|tile: (usize, usize)|
                    runs_in(w, r, c, tile) && (tile.1 < ty || (tile.1 == ty && tile.0 < tx + 1)) implies #[trigger] tiles@.contains(
                    tile,
                ) by {
                    if tile.1 < ty || tile.0 < tx {
                        assert(before.contains(tile));
                        let i = choose|i: int| 0 <= i < before.len() && before[i] == tile;
                        assert(tiles@[i] == tile);
                    } else {
                        assert(tile == (tx, ty));
                        assert(tiles@.last() == tile);
                    }
                }
            }
            tx = tx + 1;
        }
        ty = ty + 1;
    }
    tiles
}

/// A tile further down, or further along the same row, is read later.
proof fn lemma_reading_rises(width: int, a: (usize, usize), b: (usize, usize))
    requires
        a.0 < tiles_along(width),
        a.1 < b.1 || (a.1 == b.1 && a.0 < b.0),
    ensures
        tile_reading(width, a) < tile_reading(width, b),
{
    let across = tiles_along(width);
    assert(a.1 * across + a.0 < b.1 * across + b.0) by (nonlinear_arith)
        requires
            0 <= a.0 < across,
            0 <= b.0,
            0 <= a.1,
            a.1 < b.1 || (a.1 == b.1 && a.0 < b.0),
    ;
}

/// The ground one tile's droplets land on.
#[derive(Clone, Copy, Debug, PartialEq, Eq, Structural)]
pub struct Patch {
    /// The first column.
    pub x: usize,
    /// The first row.
    pub y: usize,
    /// How many columns.
    pub width: usize,
    /// How many rows.
    pub rows: usize,
}

/// How many cells of a stretch fall to a tile.
pub open spec fn share(cells: int, tile: int) -> int {
    if cells - tile * TILE < TILE {
        cells - tile * TILE
    } else {
        TILE as int
    }
}

impl Patch {
    /// Whether a cell lies on the patch.
    pub open spec fn holds(self, column: int, row: int) -> bool {
        &&& self.x <= column < self.x + self.width
        &&& self.y <= row < self.y + self.rows
    }

    /// Whether a droplet that landed on the patch may write to a cell.
    pub open spec fn reaches(self, column: int, row: int) -> bool {
        &&& self.x - HALO <= column < self.x + self.width + HALO
        &&& self.y - HALO <= row < self.y + self.rows + HALO
    }

    /// The ground of a tile: a whole one, or what the map has left of it.
    pub fn of_tile(width: usize, rows: usize, tx: usize, ty: usize) -> (patch: Patch)
        requires
            tx < tiles_along(width as int),
            ty < tiles_along(rows as int),
        ensures
            patch.x == tx * TILE,
            patch.y == ty * TILE,
            patch.width == share(width as int, tx as int),
            patch.rows == share(rows as int, ty as int),
            0 < patch.width <= TILE,
            0 < patch.rows <= TILE,
    {
        proof {
            extent::lemma_groups(width as int, TILE as int);
            extent::lemma_groups(rows as int, TILE as int);
        }
        let (x, y): (usize, usize) = (tx * TILE, ty * TILE);
        let across: usize = if width - x < TILE {
            width - x
        } else {
            TILE
        };
        let down: usize = if rows - y < TILE {
            rows - y
        } else {
            TILE
        };
        Patch { x, y, width: across, rows: down }
    }

    /// How many droplets the patch's own ground earns.
    pub fn droplets(self, per_cell: usize) -> (count: usize)
        requires
            per_cell * self.width * self.rows <= usize::MAX,
        ensures
            count == per_cell * self.width * self.rows,
    {
        if self.rows == 0 {
            assert(per_cell * self.width * self.rows == 0) by (nonlinear_arith)
                requires
                    self.rows == 0,
            ;
            return 0;
        }
        assert(per_cell * self.width <= per_cell * self.width * self.rows) by (nonlinear_arith)
            requires
                self.rows >= 1,
        ;
        per_cell * self.width * self.rows
    }
}

/// The stream of words a tile's droplets are drawn from, keyed by where the
/// tile is rather than by a running count.
pub fn tile_seed(tx: usize, ty: usize, seed: u32) -> (word: u32)
    ensures
        word == noise::lattice_word(tx as i32, ty as i32, seed),
{
    hash(#[verifier::truncate] (tx as i32), #[verifier::truncate] (ty as i32), seed)
}

/// How far across and down its patch a droplet lands, as fractions of
/// sixteen million.
pub fn landing(droplet: usize, seed: u32) -> (fractions: (u32, u32))
    ensures
        fractions.0 == noise::lattice_word(droplet as i32, 0, seed) as int / 256,
        fractions.1 == noise::lattice_word(droplet as i32, 1, seed) as int / 256,
        fractions.0 < 0x0100_0000,
        fractions.1 < 0x0100_0000,
{
    let key: i32 = #[verifier::truncate] (droplet as i32);
    (hash_fraction(key, 0, seed), hash_fraction(key, 1, seed))
}

/// Tiles that run at once share no cell: however far their droplets wander,
/// none writes where a droplet of the other can.
pub proof fn tiles_that_run_at_once_never_meet(
    a: (usize, usize),
    b: (usize, usize),
    first: Patch,
    second: Patch,
    column: int,
    row: int,
)
    requires
        a != b,
        colour_of(a.0 as int, a.1 as int) == colour_of(b.0 as int, b.1 as int),
        first.x == a.0 * TILE,
        first.y == a.1 * TILE,
        second.x == b.0 * TILE,
        second.y == b.1 * TILE,
        first.width <= TILE,
        first.rows <= TILE,
        second.width <= TILE,
        second.rows <= TILE,
        first.reaches(column, row),
    ensures
        !second.reaches(column, row),
{
    if a.0 != b.0 {
        assert(a.0 as int - b.0 as int >= 2 || b.0 as int - a.0 as int >= 2);
    } else {
        assert(a.1 as int - b.1 as int >= 2 || b.1 as int - a.1 as int >= 2);
    }
}

/// Every cell of the map is some one tile's ground, and the tile that holds it
/// is on the map.
pub proof fn every_cell_belongs_to_one_tile(width: int, rows: int, column: int, row: int, tx: int, ty: int)
    requires
        0 <= column < width,
        0 <= row < rows,
        0 <= tx,
        0 <= ty,
    ensures
        column / (TILE as int) < tiles_along(width),
        row / (TILE as int) < tiles_along(rows),
        tx * TILE <= column < tx * TILE + share(width, tx) <==> tx == column / (TILE as int),
        ty * TILE <= row < ty * TILE + share(rows, ty) <==> ty == row / (TILE as int),
{
}

/// How many droplets the first `tiles` of a row of them land.
pub open spec fn landed(width: int, tiles: int, per_column: int) -> int
    decreases tiles,
{
    if tiles <= 0 {
        0
    } else {
        landed(width, tiles - 1, per_column) + per_column * share(width, tiles - 1)
    }
}

/// How many droplets the first `down` rows of tiles land.
pub open spec fn landed_rows(width: int, rows: int, down: int, per_cell: int) -> int
    decreases down,
{
    if down <= 0 {
        0
    } else {
        landed_rows(width, rows, down - 1, per_cell) + landed(
            width,
            tiles_along(width),
            per_cell * share(rows, down - 1),
        )
    }
}

proof fn lemma_landed(width: int, tiles: int, per_column: int)
    requires
        0 <= tiles <= tiles_along(width),
        0 <= width,
    ensures
        tiles < tiles_along(width) ==> landed(width, tiles, per_column) == per_column * (tiles * TILE),
        tiles == tiles_along(width) ==> landed(width, tiles, per_column) == per_column * width,
    decreases tiles,
{
    if tiles > 0 {
        lemma_landed(width, tiles - 1, per_column);
        let part = share(width, tiles - 1);
        assert(per_column * ((tiles - 1) * TILE) + per_column * part == per_column * ((tiles - 1) * TILE + part))
            by (nonlinear_arith);
    } else {
        assert(per_column * 0 == 0);
        assert(width == 0 ==> per_column * width == 0);
    }
}

proof fn lemma_landed_rows(width: int, rows: int, down: int, per_cell: int)
    requires
        0 <= down <= tiles_along(rows),
        0 <= width,
        0 <= rows,
    ensures
        down < tiles_along(rows) ==> landed_rows(width, rows, down, per_cell) == per_cell * width * (down * TILE),
        down == tiles_along(rows) ==> landed_rows(width, rows, down, per_cell) == per_cell * width * rows,
    decreases down,
{
    if down > 0 {
        lemma_landed_rows(width, rows, down - 1, per_cell);
        let part = share(rows, down - 1);
        lemma_landed(width, tiles_along(width), per_cell * part);
        assert(per_cell * width * ((down - 1) * TILE) + per_cell * part * width == per_cell * width * ((down - 1)
            * TILE + part)) by (nonlinear_arith);
    } else {
        assert(per_cell * width * 0 == 0);
        assert(rows == 0 ==> per_cell * width * rows == 0);
    }
}

/// However the tiles fall, between them they land as many droplets as the whole
/// map earns.
pub proof fn the_tiles_land_every_droplet(width: int, rows: int, per_cell: int)
    requires
        0 <= width,
        0 <= rows,
    ensures
        landed_rows(width, rows, tiles_along(rows), per_cell) == per_cell * width * rows,
{
    lemma_landed_rows(width, rows, tiles_along(rows), per_cell);
}

/// Whether a droplet could have taken these steps, one axis at a time: each is
/// at most a cell long.
pub open spec fn walked(path: Seq<int>) -> bool {
    forall|i: int| #![trigger path[i]] 0 < i < path.len() ==> -1 <= path[i] - path[i - 1] <= 1
}

proof fn lemma_walk_stays_near(path: Seq<int>, at: int)
    requires
        walked(path),
        0 <= at < path.len(),
    ensures
        -at <= path[at] - path[0] <= at,
    decreases at,
{
    if at > 0 {
        lemma_walk_stays_near(path, at - 1);
        assert(-1 <= path[at] - path[at - 1] <= 1);
    }
}

/// A droplet never writes outside its halo: wherever on a patch's axis it
/// landed, no step it takes brings its brush further out than that.
pub proof fn a_droplet_stays_within_its_halo(path: Seq<int>, at: int, first: int, count: int, spread: int)
    requires
        walked(path),
        path.len() <= MAX_STEPS + 1,
        0 <= at < path.len(),
        first <= path[0] < first + count,
        -BRUSH_RADIUS <= spread <= BRUSH_RADIUS,
    ensures
        first - HALO <= path[at] + spread < first + count + HALO,
{
    lemma_walk_stays_near(path, at);
}

/// The brush is the disc of two cells around a droplet, and is read row by row.
pub proof fn the_brush_is_a_disc_read_row_by_row(a: (i64, i64), b: (i64, i64))
    requires
        -2 <= a.0 <= 2,
        -2 <= a.1 <= 2,
        -2 <= b.0 <= 2,
        -2 <= b.1 <= 2,
    ensures
        on_brush(a) <==> a.0 * a.0 + a.1 * a.1 <= 4,
        reading(a) < reading(b) <==> a.1 < b.1 || (a.1 == b.1 && a.0 < b.0),
{
}

/// Nothing lies on the brush that is more than two cells away along either axis.
pub proof fn the_brush_reaches_two_cells(offset: (i64, i64))
    requires
        on_brush(offset),
    ensures
        -2 <= offset.0 <= 2,
        -2 <= offset.1 <= 2,
{
}

/// Tiles run in one pass where both their columns and their rows are even
/// together or odd together: first those even both ways, then those with an odd
/// column alone, then those with an odd row alone, then those odd both ways.
pub proof fn a_pass_runs_every_second_tile(tx: int, ty: int, ux: int, uy: int)
    requires
        0 <= tx,
        0 <= ty,
        0 <= ux,
        0 <= uy,
    ensures
        colour_of(tx, ty) == colour_of(ux, uy) <==> tx % 2 == ux % 2 && ty % 2 == uy % 2,
        0 <= colour_of(tx, ty) < 4,
        tx % 2 == 0 && ty % 2 == 0 ==> colour_of(tx, ty) == 0,
        tx % 2 == 1 && ty % 2 == 0 ==> colour_of(tx, ty) == 1,
        tx % 2 == 0 && ty % 2 == 1 ==> colour_of(tx, ty) == 2,
        tx % 2 == 1 && ty % 2 == 1 ==> colour_of(tx, ty) == 3,
{
}

/// The tiles of a pass come row by row.
pub proof fn tiles_are_read_row_by_row(width: int, a: (usize, usize), b: (usize, usize))
    requires
        a.0 < tiles_along(width),
        b.0 < tiles_along(width),
    ensures
        tile_reading(width, a) < tile_reading(width, b) <==> a.1 < b.1 || (a.1 == b.1 && a.0 < b.0),
{
    let across = tiles_along(width);
    if a.1 < b.1 {
        assert(a.1 * across + across <= b.1 * across) by (nonlinear_arith)
            requires
                a.1 + 1 <= b.1,
                0 <= across,
        ;
    } else if a.1 > b.1 {
        assert(b.1 * across + across <= a.1 * across) by (nonlinear_arith)
            requires
                b.1 + 1 <= a.1,
                0 <= across,
        ;
    }
}

/// Tiles are 256 cells each way, but for what the map has left at its far edges,
/// and follow each other without a gap.
pub proof fn tiles_follow_each_other(cells: int, tile: int)
    requires
        0 <= tile,
        256 * tile < cells,
    ensures
        1 <= share(cells, tile) <= 256,
        256 * tile + share(cells, tile) <= cells,
        256 * tile + 256 <= cells ==> share(cells, tile) == 256,
        256 * tile + 256 > cells ==> 256 * tile + share(cells, tile) == cells,
        tile < tiles_along(cells),
        256 * tiles_along(cells) >= cells,
        256 * (tiles_along(cells) - 1) < cells,
{
    extent::lemma_groups(cells, TILE as int);
}

/// A droplet may write on its patch and eighty cells beyond it every way.
pub proof fn a_patch_reaches_eighty_cells_beyond(patch: Patch, column: int, row: int)
    ensures
        patch.reaches(column, row) <==> {
            &&& patch.x - 80 <= column < patch.x + patch.width + 80
            &&& patch.y - 80 <= row < patch.y + patch.rows + 80
        },
        patch.holds(column, row) ==> patch.reaches(column, row),
        patch.holds(column, row) <==> 0 <= column - patch.x < patch.width && 0 <= row - patch.y < patch.rows,
{
}

/// A tile runs in a pass where it has ground on the map and lies in its own
/// column and row parity: every such tile runs in one pass of the four.
pub proof fn every_tile_runs_in_one_pass(width: int, rows: int, colour: int, tile: (usize, usize))
    requires
        0 <= width,
        0 <= rows,
        0 <= colour < 4,
    ensures
        runs_in(width, rows, colour, tile) <==> {
            &&& 256 * tile.0 < width
            &&& 256 * tile.1 < rows
            &&& tile.0 as int % 2 == colour % 2
            &&& tile.1 as int % 2 == colour / 2
        },
{
    extent::lemma_groups(width, TILE as int);
    extent::lemma_groups(rows, TILE as int);
}

} // verus!
