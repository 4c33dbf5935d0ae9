//! Tiles and the texels they hold.
//!
//! Tiles lie on one lattice for every product, so a tile may hang off the edge
//! of a raster. Coordinates of a raster are its own texels at a level, counted
//! from its north-west corner.

use vstd::prelude::*;
use crate::lattice;

verus! {

/// How many texels a tile is across.
pub const TILE_SIZE: u32 = 512;

/// How many texels a tile is across, to count with.
pub const SIDE: usize = 512;

/// How many texels a tile holds.
pub const TILE_TEXELS: usize = 262144;

/// The furthest from the lattice's origin a raster's may lie.
pub const FURTHEST: i64 = 0x1000_0000_0000_0000;

/// A tile, by its place on the lattice.
#[derive(Clone, Copy, Debug, PartialEq, Eq, Structural)]
pub struct Tile {
    pub x: i32,
    pub y: i32,
}

/// The tiles between two corners: the north-west one, and how many there are on
/// each axis.
pub fn tile_range(first: Tile, last: Tile) -> (range: (Tile, u32, u32))
    requires
        0 <= last.x - first.x < i32::MAX,
        0 <= last.y - first.y < i32::MAX,
    ensures
        range.0 == first,
        range.1 == last.x - first.x + 1,
        range.2 == last.y - first.y + 1,
{
    (first, (last.x as i64 - first.x as i64 + 1) as u32, (last.y as i64 - first.y as i64 + 1) as u32)
}

/// The tile at a place in a block listed row by row.
pub open spec fn tile_at(first: Tile, across: int, k: int) -> (int, int) {
    (first.x + k % across, first.y + k / across)
}

/// Lists a block of tiles row by row.
pub fn tiles_of(first: Tile, across: u32, down: u32) -> (tiles: Vec<Tile>)
    requires
        first.x + across <= i32::MAX + 1,
        first.y + down <= i32::MAX + 1,
        across * down <= usize::MAX,
    ensures
        tiles@.len() == across * down,
        forall|k: int|
            #![trigger tiles@[k]]
            0 <= k < tiles@.len() ==> (tiles@[k].x as int, tiles@[k].y as int) == tile_at(first, across as int, k),
{
    let mut tiles: Vec<Tile> = Vec::new();
    let mut row: u32 = 0;
    proof {
        assert(0 * across == 0);
    }
    while row < down
        invariant
            row <= down,
            first.x + across <= i32::MAX + 1,
            first.y + down <= i32::MAX + 1,
            tiles@.len() == row * across,
            forall|k: int|
                #![trigger tiles@[k]]
                0 <= k < tiles@.len() ==> (tiles@[k].x as int, tiles@[k].y as int) == tile_at(
                    first,
                    across as int,
                    k,
                ),
        decreases down - row,
    {
        let mut column: u32 = 0;
        while column < across
            invariant
                row < down,
                column <= across,
                first.x + across <= i32::MAX + 1,
                first.y + down <= i32::MAX + 1,
                tiles@.len() == row * across + column,
                forall|k: int|
                    #![trigger tiles@[k]]
                    0 <= k < tiles@.len() ==> (tiles@[k].x as int, tiles@[k].y as int) == tile_at(
                        first,
                        across as int,
                        k,
                    ),
            decreases across - column,
        {
            proof {
                lattice::lemma_cell_coordinates(across as int, down as int, column as int, row as int);
            }
            let x: i32 = (first.x as i64 + column as i64) as i32;
            let y: i32 = (first.y as i64 + row as i64) as i32;
            tiles.push(Tile { x, y });
            column = column + 1;
        }
        proof {
            assert((row + 1) * across == row * across + across) by (nonlinear_arith);
        }
        row = row + 1;
    }
    proof {
        assert(down * across == across * down) by (nonlinear_arith);
    }
    tiles
}

/// The tiles of a block are listed once each.
pub proof fn every_tile_is_listed_once(first: Tile, across: int, down: int, x: int, y: int)
    requires
        first.x <= x < first.x + across,
        first.y <= y < first.y + down,
    ensures
        exists|k: int| 0 <= k < across * down && #[trigger] tile_at(first, across, k) == (x, y),
        forall|k: int, m: int|
            #![trigger tile_at(first, across, k), tile_at(first, across, m)]
            0 <= k < across * down && 0 <= m < across * down && tile_at(first, across, k) == tile_at(
                first,
                across,
                m,
            ) ==> k == m,
{
    let (c, r) = (x - first.x, y - first.y);
    lattice::lemma_cell_coordinates(across, down, c, r);
    assert(tile_at(first, across, r * across + c) == (x, y));
    assert forall|k: int, m: int|
        #![trigger tile_at(first, across, k), tile_at(first, across, m)]
        0 <= k < across * down && 0 <= m < across * down && tile_at(first, across, k) == tile_at(
            first,
            across,
            m,
        ) implies k == m by {
        lattice::lemma_cell_inside(across, down, k);
        lattice::lemma_cell_inside(across, down, m);
    }
}

/// Where a raster lies on the lattice at a level.
#[derive(Clone, Copy, Debug)]
pub struct Frame {
    /// The lattice texel of its first column.
    pub column: i64,
    /// The lattice texel of its first row.
    pub row: i64,
    pub width: u32,
    pub height: u32,
}

impl Frame {
    /// The raster is not absurdly far from the lattice's origin.
    pub open spec fn near(&self) -> bool {
        &&& -FURTHEST <= self.column <= FURTHEST
        &&& -FURTHEST <= self.row <= FURTHEST
    }
}

/// Where a tile's first texel lies along an axis of a raster.
pub open spec fn offset_of(index: int, origin: int) -> int {
    index * TILE_SIZE - origin
}

/// Where a tile's first texel lies along an axis of a raster, which is negative
/// for a tile that hangs off its western or northern edge.
pub fn tile_offset(index: i32, origin: i64) -> (offset: i64)
    requires
        -FURTHEST <= origin <= FURTHEST,
    ensures
        offset == offset_of(index as int, origin as int),
{
    index as i64 * 512 - origin
}

/// Whether a place along an axis of a tile lies within a raster.
pub open spec fn within(offset: int, extent: int, at: int) -> bool {
    0 <= offset + at < extent
}

/// Whether a texel of a tile has raster behind it.
pub open spec fn behind(frame: Frame, tile: Tile, column: int, row: int) -> bool {
    &&& within(offset_of(tile.x as int, frame.column as int), frame.width as int, column)
    &&& within(offset_of(tile.y as int, frame.row as int), frame.height as int, row)
}

/// A stretch of columns or rows: from the first to just past the last.
#[derive(Clone, Copy, Debug, PartialEq, Eq, Structural)]
pub struct Stretch {
    pub from: usize,
    pub to: usize,
}

/// The stretch of a tile's axis that a raster covers.
fn covered(offset: i64, extent: u32) -> (stretch: Stretch)
    requires
        -0x4000_0000_0000_0000 <= offset <= 0x4000_0000_0000_0000,
    ensures
        stretch.from <= stretch.to <= SIDE,
        forall|at: int|
            0 <= at < SIDE ==> (#[trigger] within(offset as int, extent as int, at) <==> stretch.from <= at
                < stretch.to),
{
    let low: i64 = if -offset <= 0 {
        0
    } else if -offset >= 512 {
        512
    } else {
        -offset
    };
    let end: i64 = extent as i64 - offset;
    let high: i64 = if end <= low {
        low
    } else if end >= 512 {
        512
    } else {
        end
    };
    Stretch { from: low as usize, to: high as usize }
}

/// Which columns and rows of a tile have raster behind them, or `None` if none
/// of it does.
pub fn inside(frame: Frame, tile: Tile) -> (part: Option<(Stretch, Stretch)>)
    requires
        frame.near(),
    ensures
        match part {
            Some((columns, rows)) => {
                &&& columns.from < columns.to <= SIDE
                &&& rows.from < rows.to <= SIDE
                &&& forall|column: int, row: int|
                    #![trigger behind(frame, tile, column, row)]
                    0 <= column < SIDE && 0 <= row < SIDE ==> (behind(frame, tile, column, row) <==> columns.from
                        <= column < columns.to && rows.from <= row < rows.to)
            },
            None => forall|column: int, row: int|
                0 <= column < SIDE && 0 <= row < SIDE ==> !#[trigger] behind(frame, tile, column, row),
        },
{
    let columns: Stretch = covered(tile_offset(tile.x, frame.column), frame.width);
    let rows: Stretch = covered(tile_offset(tile.y, frame.row), frame.height);
    if columns.from == columns.to || rows.from == rows.to {
        return None;
    }
    Some((columns, rows))
}

/// Replaces every texel of a finished tile that has no raster behind it.
pub fn punch_out<T: Copy>(frame: Frame, tile: Tile, samples: &mut Vec<T>, hole: T)
    requires
        frame.near(),
        old(samples)@.len() == TILE_TEXELS,
    ensures
        final(samples)@.len() == TILE_TEXELS,
        forall|i: int|
            #![trigger final(samples)@[i]]
            0 <= i < TILE_TEXELS ==> final(samples)@[i] == if behind(frame, tile, i % 512, i / 512) {
                old(samples)@[i]
            } else {
                hole
            },
{
    let ghost before = samples@;
    let part = inside(frame, tile);
    let (columns, rows): (Stretch, Stretch) = match part {
        Some(part) => part,
        None => (Stretch { from: 0, to: 0 }, Stretch { from: 0, to: 0 }),
    };
    proof {
        assert forall|i: int| 0 <= i < TILE_TEXELS implies (#[trigger] behind(frame, tile, i % 512, i / 512)
            <==> columns.from <= i % 512 < columns.to && rows.from <= i / 512 < rows.to) by {
            assert(0 <= i / 512 < 512);
        }
    }
    if columns.to - columns.from == 512 && rows.to - rows.from == 512 {
        assert forall|i: int|
            #![trigger samples@[i]]
            0 <= i < TILE_TEXELS implies behind(frame, tile, i % 512, i / 512) by {
            assert(0 <= i / 512 < 512);
        }
        return;
    }
    let mut i: usize = 0;
    while i < TILE_TEXELS
        invariant
            i <= TILE_TEXELS,
            samples@.len() == TILE_TEXELS,
            before.len() == TILE_TEXELS,
            forall|k: int|
                0 <= k < TILE_TEXELS ==> (#[trigger] behind(frame, tile, k % 512, k / 512) <==> columns.from <= k
                    % 512 < columns.to && rows.from <= k / 512 < rows.to),
            forall|k: int|
                #![trigger samples@[k]]
                0 <= k < TILE_TEXELS ==> samples@[k] == if k >= i || behind(frame, tile, k % 512, k / 512) {
                    before[k]
                } else {
                    hole
                },
        decreases TILE_TEXELS - i,
    {
        let (column, row): (usize, usize) = (i % 512, i / 512);
        assert(behind(frame, tile, i as int % 512, i as int / 512) <==> columns.from <= column < columns.to
            && rows.from <= row < rows.to);
        if !(columns.from <= column && column < columns.to && rows.from <= row && row < rows.to) {
            samples[i] = hole;
        }
        i = i + 1;
    }
}

/// Whether a place along an axis of a rectangle lies in a tile, both in raster
/// texels.
pub open spec fn in_tile(origin: int, corner: int, at: int) -> bool {
    corner <= origin + at < corner + SIDE
}

/// Whether a cell of a rectangle lies in a tile.
pub open spec fn shared(origin: (i64, i64), corner: (i64, i64), column: int, row: int) -> bool {
    &&& in_tile(origin.0 as int, corner.0 as int, column)
    &&& in_tile(origin.1 as int, corner.1 as int, row)
}

/// Which texel of a tile a cell of a rectangle is.
pub open spec fn source_of(origin: (i64, i64), corner: (i64, i64), column: int, row: int) -> int {
    (origin.1 + row - corner.1) * SIDE + (origin.0 + column - corner.0)
}

/// The stretch of a rectangle's axis that lies in a tile.
fn overlap(origin: i64, size: usize, corner: i64) -> (stretch: Stretch)
    requires
        size <= u32::MAX,
        -FURTHEST <= origin <= FURTHEST,
        -FURTHEST <= corner <= FURTHEST,
    ensures
        stretch.from <= stretch.to <= size,
        forall|at: int|
            0 <= at < size ==> (#[trigger] in_tile(origin as int, corner as int, at) <==> stretch.from <= at
                < stretch.to),
{
    let begin: i64 = corner - origin;
    let end: i64 = begin + 512;
    let extent: i64 = size as i64;
    let from: i64 = if begin <= 0 {
        0
    } else if begin >= extent {
        extent
    } else {
        begin
    };
    let to: i64 = if end <= from {
        from
    } else if end >= extent {
        extent
    } else {
        end
    };
    Stretch { from: from as usize, to: to as usize }
}

/// Copies the part of a tile that overlaps a rectangle into it.
///
/// `origin` and `size` are the rectangle's, `corner` the tile's first texel.
pub fn paste<T: Copy>(
    out: &mut Vec<T>,
    origin: (i64, i64),
    size: (usize, usize),
    corner: (i64, i64),
    values: &Vec<T>,
)
    requires
        old(out)@.len() == size.0 * size.1,
        values@.len() == TILE_TEXELS,
        size.0 <= u32::MAX,
        size.1 <= u32::MAX,
        -FURTHEST <= origin.0 <= FURTHEST,
        -FURTHEST <= origin.1 <= FURTHEST,
        -FURTHEST <= corner.0 <= FURTHEST,
        -FURTHEST <= corner.1 <= FURTHEST,
    ensures
        final(out)@.len() == old(out)@.len(),
        forall|i: int|
            #![trigger final(out)@[i]]
            0 <= i < old(out)@.len() ==> final(out)@[i] == ({
                let (column, row) = (lattice::column_of(size.0 as int, i), lattice::row_of(size.0 as int, i));
                if shared(origin, corner, column, row) {
                    values@[source_of(origin, corner, column, row)]
                } else {
                    old(out)@[i]
                }
            }),
{
    let ghost before = out@;
    let ghost width = size.0 as int;
    assert(out.len() <= usize::MAX);
    let columns: Stretch = overlap(origin.0, size.0, corner.0);
    let rows: Stretch = overlap(origin.1, size.1, corner.1);
    let mut row: usize = rows.from;
    while row < rows.to
        invariant
            rows.from <= row <= rows.to <= size.1,
            columns.from <= columns.to <= size.0,
            width == size.0,
            before.len() == size.0 * size.1,
            before.len() <= usize::MAX,
            out@.len() == before.len(),
            values@.len() == TILE_TEXELS,
            -FURTHEST <= origin.0 <= FURTHEST,
            -FURTHEST <= origin.1 <= FURTHEST,
            -FURTHEST <= corner.0 <= FURTHEST,
            -FURTHEST <= corner.1 <= FURTHEST,
            size.0 <= u32::MAX,
            size.1 <= u32::MAX,
            forall|at: int|
                0 <= at < size.0 ==> (#[trigger] in_tile(origin.0 as int, corner.0 as int, at) <==> columns.from
                    <= at < columns.to),
            forall|at: int|
                0 <= at < size.1 ==> (#[trigger] in_tile(origin.1 as int, corner.1 as int, at) <==> rows.from <= at
                    < rows.to),
            forall|i: int|
                #![trigger out@[i]]
                0 <= i < before.len() ==> out@[i] == ({
                    let (c, r) = (lattice::column_of(width, i), lattice::row_of(width, i));
                    if r < row && shared(origin, corner, c, r) {
                        values@[source_of(origin, corner, c, r)]
                    } else {
                        before[i]
                    }
                }),
        decreases rows.to - row,
    {
        let ghost at_row = out@;
        assert(in_tile(origin.1 as int, corner.1 as int, row as int));
        let y: i64 = origin.1 + row as i64 - corner.1;
        let mut column: usize = columns.from;
        while column < columns.to
            invariant
                row < rows.to <= size.1,
                columns.from <= column <= columns.to <= size.0,
                width == size.0,
                before.len() == size.0 * size.1,
                before.len() <= usize::MAX,
                out@.len() == before.len(),
                at_row.len() == before.len(),
                values@.len() == TILE_TEXELS,
                -FURTHEST <= origin.0 <= FURTHEST,
                -FURTHEST <= origin.1 <= FURTHEST,
                -FURTHEST <= corner.0 <= FURTHEST,
                -FURTHEST <= corner.1 <= FURTHEST,
                size.0 <= u32::MAX,
                size.1 <= u32::MAX,
                y == origin.1 + row - corner.1,
                0 <= y < 512,
                forall|at: int|
                    0 <= at < size.0 ==> (#[trigger] in_tile(origin.0 as int, corner.0 as int, at) <==> columns.from
                        <= at < columns.to),
                forall|i: int|
                    #![trigger out@[i]]
                    0 <= i < before.len() ==> out@[i] == ({
                        let (c, r) = (lattice::column_of(width, i), lattice::row_of(width, i));
                        if r == row && columns.from <= c < column {
                            values@[source_of(origin, corner, c, r)]
                        } else {
                            at_row[i]
                        }
                    }),
            decreases columns.to - column,
        {
            assert(in_tile(origin.0 as int, corner.0 as int, column as int));
            let x: i64 = origin.0 + column as i64 - corner.0;
            proof {
                lattice::lemma_cell_coordinates(width, size.1 as int, column as int, row as int);
                assert(row * width <= row * width + column);
            }
            let target: usize = row * size.0 + column;
            let source: usize = (y * 512 + x) as usize;
            let ghost earlier = out@;
            out[target] = values[source];
            proof {
                assert forall|i: int|
                    #![trigger out@[i]]
                    0 <= i < before.len() implies out@[i] == ({
                    let (c, r) = (lattice::column_of(width, i), lattice::row_of(width, i));
                    if r == row && columns.from <= c < column + 1 {
                        values@[source_of(origin, corner, c, r)]
                    } else {
                        at_row[i]
                    }
                }) by {
                    lattice::lemma_cell_inside(width, size.1 as int, i);
                    assert(i != target ==> out@[i] == earlier[i]);
                }
            }
            column = column + 1;
        }
        proof {
            assert forall|i: int|
                #![trigger out@[i]]
                0 <= i < before.len() implies out@[i] == ({
                let (c, r) = (lattice::column_of(width, i), lattice::row_of(width, i));
                if r < row + 1 && shared(origin, corner, c, r) {
                    values@[source_of(origin, corner, c, r)]
                } else {
                    before[i]
                }
            }) by {
                lemma_cell_of(width, size.1 as int, i);
                let (c, r) = (lattice::column_of(width, i), lattice::row_of(width, i));
                assert(at_row[i] == if r < row && shared(origin, corner, c, r) {
                    values@[source_of(origin, corner, c, r)]
                } else {
                    before[i]
                });
                assert(in_tile(origin.0 as int, corner.0 as int, c) <==> columns.from <= c < columns.to);
            }
        }
        row = row + 1;
    }
    proof {
        assert forall|i: int|
            #![trigger out@[i]]
            0 <= i < before.len() && shared(
                origin,
                corner,
                lattice::column_of(width, i),
                lattice::row_of(width, i),
            ) implies lattice::row_of(width, i) < row by {
            lemma_cell_of(width, size.1 as int, i);
            let r = lattice::row_of(width, i);
            assert(in_tile(origin.1 as int, corner.1 as int, r) <==> rows.from <= r < rows.to);
        }
    }
}

/// A cell of a grid has coordinates inside it.
proof fn lemma_cell_of(width: int, rows: int, i: int)
    requires
        0 <= width,
        0 <= i < width * rows,
    ensures
        0 < width,
        0 <= lattice::column_of(width, i) < width,
        0 <= lattice::row_of(width, i) < rows,
        i == lattice::row_of(width, i) * width + lattice::column_of(width, i),
{
    assert(0 < width) by (nonlinear_arith)
        requires
            0 <= i < width * rows,
            0 <= width,
    ;
    lattice::lemma_cell_inside(width, rows, i);
}

/// How many texels of a stretch fall to a tile's column.
pub open spec fn columns_in(width: int, column: int) -> int {
    if width - column * SIDE < SIDE {
        width - column * SIDE
    } else {
        SIDE as int
    }
}

/// What a texel of a tile cut out of a band holds: the band's texel there, or
/// nothing where the band does not reach.
pub open spec fn cut_texel<T>(cells: Seq<T>, width: int, rows: int, column: int, nothing: T, i: int) -> T {
    let (x, y) = (i % 512, i / 512);
    if x < columns_in(width, column) && y < rows {
        cells[y * width + column * SIDE + x]
    } else {
        nothing
    }
}

/// Cuts one tile out of a row of them: a band of texels the raster's full width
/// across and at most a tile down.
pub fn cut_tile<T: Copy>(cells: &Vec<T>, width: usize, rows: usize, column: usize, nothing: T) -> (tile: Vec<T>)
    requires
        cells@.len() == rows * width,
        rows <= SIDE,
        column * SIDE < width,
    ensures
        tile@.len() == TILE_TEXELS,
        forall|i: int|
            #![trigger tile@[i]]
            0 <= i < TILE_TEXELS ==> tile@[i] == cut_texel(
                cells@,
                width as int,
                rows as int,
                column as int,
                nothing,
                i,
            ),
{
    assert(cells.len() <= usize::MAX);
    let from: usize = column * 512;
    let columns: usize = if width - from < 512 {
        width - from
    } else {
        512
    };
    let mut tile: Vec<T> = Vec::new();
    let mut i: usize = 0;
    while i < TILE_TEXELS
        invariant
            i <= TILE_TEXELS,
            cells@.len() == rows * width,
            cells@.len() <= usize::MAX,
            rows <= SIDE,
            from == column * SIDE,
            from < width,
            columns == columns_in(width as int, column as int),
            tile@.len() == i,
            forall|k: int|
                #![trigger tile@[k]]
                0 <= k < i ==> tile@[k] == cut_texel(
                    cells@,
                    width as int,
                    rows as int,
                    column as int,
                    nothing,
                    k,
                ),
        decreases TILE_TEXELS - i,
    {
        let (x, y): (usize, usize) = (i % 512, i / 512);
        if x < columns && y < rows {
            proof {
                lattice::lemma_cell_coordinates(width as int, rows as int, from + x, y as int);
                assert(width * rows == rows * width) by (nonlinear_arith);
                assert(y * width <= y * width + (from + x));
            }
            tile.push(cells[y * width + from + x]);
        } else {
            tile.push(nothing);
        }
        i = i + 1;
    }
    tile
}

/// Cuts one tile of material ids out of a band, or `None` where it holds
/// nothing: such a tile is not stored at all.
pub fn cut_painted(cells: &Vec<u32>, width: usize, rows: usize, column: usize) -> (tile: Option<Vec<u32>>)
    requires
        cells@.len() == rows * width,
        rows <= SIDE,
        column * SIDE < width,
    ensures
        match tile {
            Some(tile) => {
                &&& tile@.len() == TILE_TEXELS
                &&& forall|i: int|
                    #![trigger tile@[i]]
                    0 <= i < TILE_TEXELS ==> tile@[i] == cut_texel(
                        cells@,
                        width as int,
                        rows as int,
                        column as int,
                        0,
                        i,
                    )
                &&& exists|i: int| 0 <= i < TILE_TEXELS && #[trigger] tile@[i] != 0
            },
            None => forall|i: int|
                0 <= i < TILE_TEXELS ==> #[trigger] cut_texel(
                    cells@,
                    width as int,
                    rows as int,
                    column as int,
                    0u32,
                    i,
                ) == 0,
        },
{
    let tile = cut_tile(cells, width, rows, column, 0);
    let mut i: usize = 0;
    while i < TILE_TEXELS
        invariant
            i <= TILE_TEXELS,
            tile@.len() == TILE_TEXELS,
            forall|k: int|
                #![trigger tile@[k]]
                0 <= k < TILE_TEXELS ==> tile@[k] == cut_texel(
                    cells@,
                    width as int,
                    rows as int,
                    column as int,
                    0,
                    k,
                ),
            forall|k: int| 0 <= k < i ==> #[trigger] tile@[k] == 0,
        decreases TILE_TEXELS - i,
    {
        if tile[i] != 0 {
            return Some(tile);
        }
        i = i + 1;
    }
    proof {
        assert forall|i: int| 0 <= i < TILE_TEXELS implies #[trigger] cut_texel(
            cells@,
            width as int,
            rows as int,
            column as int,
            0u32,
            i,
        ) == 0 by {
            assert(tile@[i] == 0);
        }
    }
    None
}

/// Whether a texel of a band falls to a tile's column.
pub open spec fn falls_to(width: int, column: int, i: int) -> bool {
    column * SIDE <= lattice::column_of(width, i) < column * SIDE + columns_in(width, column)
}

/// Puts one stored tile back into a band.
pub fn place_tile<T: Copy>(cells: &mut Vec<T>, width: usize, rows: usize, column: usize, values: &Vec<T>)
    requires
        old(cells)@.len() == rows * width,
        rows <= SIDE,
        column * SIDE < width,
        values@.len() == TILE_TEXELS,
    ensures
        final(cells)@.len() == old(cells)@.len(),
        forall|i: int|
            #![trigger final(cells)@[i]]
            0 <= i < old(cells)@.len() ==> final(cells)@[i] == if falls_to(width as int, column as int, i) {
                values@[lattice::row_of(width as int, i) * SIDE + lattice::column_of(width as int, i) - column * SIDE]
            } else {
                old(cells)@[i]
            },
{
    let ghost before = cells@;
    let ghost w = width as int;
    assert(cells.len() <= usize::MAX);
    let from: usize = column * 512;
    let columns: usize = if width - from < 512 {
        width - from
    } else {
        512
    };
    let mut row: usize = 0;
    while row < rows
        invariant
            row <= rows,
            w == width,
            before.len() == rows * width,
            before.len() <= usize::MAX,
            cells@.len() == before.len(),
            rows <= SIDE,
            from == column * SIDE,
            from < width,
            columns == columns_in(w, column as int),
            values@.len() == TILE_TEXELS,
            forall|i: int|
                #![trigger cells@[i]]
                0 <= i < before.len() ==> cells@[i] == if lattice::row_of(w, i) < row && falls_to(
                    w,
                    column as int,
                    i,
                ) {
                    values@[lattice::row_of(w, i) * SIDE + lattice::column_of(w, i) - from]
                } else {
                    before[i]
                },
        decreases rows - row,
    {
        let ghost at_row = cells@;
        let mut x: usize = 0;
        while x < columns
            invariant
                row < rows,
                x <= columns,
                w == width,
                before.len() == rows * width,
                before.len() <= usize::MAX,
                cells@.len() == before.len(),
                at_row.len() == before.len(),
                rows <= SIDE,
                from == column * SIDE,
                from < width,
                columns == columns_in(w, column as int),
                values@.len() == TILE_TEXELS,
                forall|i: int|
                    #![trigger cells@[i]]
                    0 <= i < before.len() ==> cells@[i] == if lattice::row_of(w, i) == row && from
                        <= lattice::column_of(w, i) < from + x {
                        values@[row * SIDE + lattice::column_of(w, i) - from]
                    } else {
                        at_row[i]
                    },
            decreases columns - x,
        {
            proof {
                lattice::lemma_cell_coordinates(w, rows as int, from + x, row as int);
                assert(w * rows == rows * w) by (nonlinear_arith);
                assert(row * w <= row * w + (from + x));
            }
            let target: usize = row * width + from + x;
            let ghost earlier = cells@;
            cells[target] = values[row * 512 + x];
            proof {
                assert forall|i: int|
                    #![trigger cells@[i]]
                    0 <= i < before.len() implies cells@[i] == if lattice::row_of(w, i) == row && from
                    <= lattice::column_of(w, i) < from + (x + 1) {
                    values@[row * SIDE + lattice::column_of(w, i) - from]
                } else {
                    at_row[i]
                } by {
                    lattice::lemma_cell_inside(w, rows as int, i);
                    assert(i != target ==> cells@[i] == earlier[i]);
                }
            }
            x = x + 1;
        }
        proof {
            assert forall|i: int|
                #![trigger cells@[i]]
                0 <= i < before.len() implies cells@[i] == if lattice::row_of(w, i) < row + 1 && falls_to(
                w,
                column as int,
                i,
            ) {
                values@[lattice::row_of(w, i) * SIDE + lattice::column_of(w, i) - from]
            } else {
                before[i]
            } by {
                assert(at_row[i] == if lattice::row_of(w, i) < row && falls_to(w, column as int, i) {
                    values@[lattice::row_of(w, i) * SIDE + lattice::column_of(w, i) - from]
                } else {
                    before[i]
                });
            }
        }
        row = row + 1;
    }
    proof {
        assert forall|i: int| #![trigger cells@[i]] 0 <= i < before.len() implies lattice::row_of(w, i) < rows by {
            assert(rows * w == w * rows) by (nonlinear_arith);
            lemma_cell_of(w, rows as int, i);
        }
    }
}

/// A band cut into tiles and put back is the band: what a tile's column holds
/// comes back from the tile.
pub proof fn a_cut_tile_goes_back_where_it_came_from<T>(
    cells: Seq<T>,
    width: int,
    rows: int,
    column: int,
    nothing: T,
    i: int,
)
    requires
        cells.len() == rows * width,
        0 <= rows <= SIDE,
        0 <= column,
        0 <= column * SIDE < width,
        0 <= i < cells.len(),
        falls_to(width, column, i),
    ensures
        cut_texel(
            cells,
            width,
            rows,
            column,
            nothing,
            lattice::row_of(width, i) * SIDE + lattice::column_of(width, i) - column * SIDE,
        ) == cells[i],
{
    assert(rows * width == width * rows) by (nonlinear_arith);
    lemma_cell_of(width, rows, i);
    let (x, y) = (lattice::column_of(width, i) - column * SIDE, lattice::row_of(width, i));
    assert((y * SIDE + x) % 512 == x && (y * SIDE + x) / 512 == y);
}

/// Tiles are listed row by row from the north-west corner.
pub proof fn tiles_are_listed_row_by_row(first: Tile, across: int, down: int, column: int, row: int)
    requires
        0 <= column < across,
        0 <= row < down,
    ensures
        tile_at(first, across, row * across + column) == (first.x + column, first.y + row),
{
    lattice::lemma_cell_coordinates(across, down, column, row);
}

/// A texel of a tile has raster behind it where its own place on the lattice is
/// one of the raster's.
pub proof fn a_texel_has_raster_behind_it_by_its_place(frame: Frame, tile: Tile, column: int, row: int)
    ensures
        behind(frame, tile, column, row) <==> {
            &&& frame.column <= tile.x * 512 + column < frame.column + frame.width
            &&& frame.row <= tile.y * 512 + row < frame.row + frame.height
        },
        offset_of(tile.x as int, frame.column as int) + frame.column == tile.x * 512,
{
}

/// A cell of a rectangle is the texel of a tile at its own place, where the tile
/// has one there.
pub proof fn a_cell_is_the_texel_at_its_place(
    origin: (i64, i64),
    corner: (i64, i64),
    column: int,
    row: int,
    x: int,
    y: int,
)
    requires
        corner.0 + x == origin.0 + column,
        corner.1 + y == origin.1 + row,
    ensures
        shared(origin, corner, column, row) <==> 0 <= x < 512 && 0 <= y < 512,
        source_of(origin, corner, column, row) == y * 512 + x,
{
}

/// A tile cut out of a band holds the band's texels from its own column of tiles
/// on, row by row, and nothing past the band's end or below it.
pub proof fn a_cut_tile_holds_the_band_beneath_it<T>(
    cells: Seq<T>,
    width: int,
    rows: int,
    column: int,
    nothing: T,
    x: int,
    y: int,
)
    requires
        0 <= x < 512,
        0 <= y < 512,
        0 <= column,
    ensures
        cut_texel(cells, width, rows, column, nothing, y * 512 + x) == if column * 512 + x < width && y < rows {
            cells[y * width + (column * 512 + x)]
        } else {
            nothing
        },
{
    assert((y * 512 + x) % 512 == x && (y * 512 + x) / 512 == y);
}

/// A texel of a band falls to the tile whose 512 columns it is in.
pub proof fn a_texel_falls_to_the_tile_above_its_column(width: int, rows: int, column: int, x: int, y: int)
    requires
        0 <= x < width,
        0 <= y < rows,
        0 <= column,
    ensures
        falls_to(width, column, y * width + x) <==> column * 512 <= x < column * 512 + 512,
{
    lattice::lemma_cell_coordinates(width, rows, x, y);
}

} // verus!
