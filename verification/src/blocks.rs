//! Blocks of tiles that are built together, and the levels they are read from.

use crate::extent;
use crate::extent::groups_of;
use crate::lattice;
use crate::tiles;
use crate::tiles::Tile;
use vstd::prelude::*;

verus! {

/// How many tiles a block is across.
pub const BLOCK_TILES: u32 = 4;

/// A block of tiles.
#[derive(Clone, Copy, Debug, PartialEq, Eq, Structural)]
pub struct Block {
    /// Its north-west tile.
    pub corner: Tile,
    /// How many tiles it is across.
    pub across: u32,
    /// How many tiles it is down.
    pub down: u32,
}

impl Block {
    /// Whether a tile is one of the block's.
    pub open spec fn holds(self, x: int, y: int) -> bool {
        &&& self.corner.x <= x < self.corner.x + self.across
        &&& self.corner.y <= y < self.corner.y + self.down
    }
}

/// How many blocks a stretch of tiles is cut into.
pub open spec fn blocks_along(count: int) -> int {
    extent::groups_covering(count, BLOCK_TILES as int)
}

/// How many tiles of a stretch fall to a block.
pub open spec fn block_share(count: int, at: int) -> int {
    if count - at * BLOCK_TILES < BLOCK_TILES {
        count - at * BLOCK_TILES
    } else {
        BLOCK_TILES as int
    }
}

/// Whether a block is the one at a column and row of them.
pub open spec fn is_block(block: Block, first: Tile, across: int, down: int, column: int, row: int) -> bool {
    &&& block.corner.x == first.x + column * BLOCK_TILES
    &&& block.corner.y == first.y + row * BLOCK_TILES
    &&& block.across == block_share(across, column)
    &&& block.down == block_share(down, row)
}

/// Cuts a range of tiles into blocks, row by row.
pub fn blocks(first: Tile, across: u32, down: u32) -> (blocks: Vec<Block>)
    requires
        first.x + across <= i32::MAX + 1,
        first.y + down <= i32::MAX + 1,
        across * down <= usize::MAX,
    ensures
        blocks@.len() == blocks_along(across as int) * blocks_along(down as int),
        forall|k: int|
            #![trigger blocks@[k]]
            0 <= k < blocks@.len() ==> is_block(
                blocks@[k],
                first,
                across as int,
                down as int,
                lattice::column_of(blocks_along(across as int), k),
                lattice::row_of(blocks_along(across as int), k),
            ),
{
    let wide: u32 = groups_of(across, BLOCK_TILES);
    let tall: u32 = groups_of(down, BLOCK_TILES);
    let mut blocks: Vec<Block> = Vec::new();
    let mut row: u32 = 0;
    proof {
        assert(0 * wide == 0);
    }
    while row < tall
        invariant
            row <= tall,
            wide == blocks_along(across as int),
            tall == blocks_along(down as int),
            first.x + across <= i32::MAX + 1,
            first.y + down <= i32::MAX + 1,
            blocks@.len() == row * wide,
            forall|k: int|
                #![trigger blocks@[k]]
                0 <= k < blocks@.len() ==> is_block(
                    blocks@[k],
                    first,
                    across as int,
                    down as int,
                    lattice::column_of(wide as int, k),
                    lattice::row_of(wide as int, k),
                ),
        decreases tall - row,
    {
        let mut column: u32 = 0;
        while column < wide
            invariant
                row < tall,
                column <= wide,
                wide == blocks_along(across as int),
                tall == blocks_along(down as int),
                first.x + across <= i32::MAX + 1,
                first.y + down <= i32::MAX + 1,
                blocks@.len() == row * wide + column,
                forall|k: int|
                    #![trigger blocks@[k]]
                    0 <= k < blocks@.len() ==> is_block(
                        blocks@[k],
                        first,
                        across as int,
                        down as int,
                        lattice::column_of(wide as int, k),
                        lattice::row_of(wide as int, k),
                    ),
            decreases wide - column,
        {
            proof {
                lattice::lemma_cell_coordinates(wide as int, tall as int, column as int, row as int);
            }
            let (left, up): (u32, u32) = (column * BLOCK_TILES, row * BLOCK_TILES);
            let corner = Tile { x: (first.x as i64 + left as i64) as i32, y: (first.y as i64 + up as i64) as i32 };
            let block = Block {
                corner,
                across: if across - left < BLOCK_TILES {
                    across - left
                } else {
                    BLOCK_TILES
                },
                down: if down - up < BLOCK_TILES {
                    down - up
                } else {
                    BLOCK_TILES
                },
            };
            blocks.push(block);
            column = column + 1;
        }
        proof {
            assert((row + 1) * wide == row * wide + wide) by (nonlinear_arith);
        }
        row = row + 1;
    }
    proof {
        assert(tall * wide == wide * tall) by (nonlinear_arith);
    }
    blocks
}

/// Every tile of a range is in the block at its own place, and in no other.
pub proof fn every_tile_is_in_one_block(
    first: Tile,
    across: int,
    down: int,
    block: Block,
    column: int,
    row: int,
    x: int,
    y: int,
)
    requires
        first.x <= x < first.x + across,
        first.y <= y < first.y + down,
        0 <= column,
        0 <= row,
        is_block(block, first, across, down, column, row),
    ensures
        (x - first.x) / (BLOCK_TILES as int) < blocks_along(across),
        (y - first.y) / (BLOCK_TILES as int) < blocks_along(down),
        block.holds(x, y) <==> column == (x - first.x) / (BLOCK_TILES as int) && row == (y - first.y) / (
        BLOCK_TILES as int),
{
}

/// Where a texel of a tile of a block lies among the block's cells.
pub open spec fn block_cell(across: int, column: int, row: int, i: int) -> int {
    (row * tiles::SIDE + i / 512) * (across * tiles::SIDE) + column * tiles::SIDE + i % 512
}

/// Cuts one tile out of a block of whole ones.
pub fn cut_block<T: Copy>(cells: &Vec<T>, across: usize, down: usize, column: usize, row: usize) -> (tile: Vec<T>)
    requires
        cells@.len() == (across * tiles::SIDE) * (down * tiles::SIDE),
        column < across,
        row < down,
    ensures
        tile@.len() == tiles::TILE_TEXELS,
        forall|i: int|
            #![trigger tile@[i]]
            0 <= i < tiles::TILE_TEXELS ==> tile@[i] == cells@[block_cell(
                across as int,
                column as int,
                row as int,
                i,
            )],
{
    assert(cells.len() <= usize::MAX);
    proof {
        let tall = down * tiles::SIDE;
        assert(across * tiles::SIDE <= (across * tiles::SIDE) * tall) by (nonlinear_arith)
            requires
                tall >= 1,
                across >= 0,
        ;
        let wide = across * tiles::SIDE;
        assert(tall <= wide * tall) by (nonlinear_arith)
            requires
                wide >= 1,
                tall >= 0,
        ;
    }
    let width: usize = across * 512;
    let mut tile: Vec<T> = Vec::new();
    let mut i: usize = 0;
    while i < tiles::TILE_TEXELS
        invariant
            i <= tiles::TILE_TEXELS,
            width == across * tiles::SIDE,
            down * tiles::SIDE <= usize::MAX,
            cells@.len() == width * (down * tiles::SIDE),
            cells@.len() <= usize::MAX,
            column < across,
            row < down,
            tile@.len() == i,
            forall|k: int|
                #![trigger tile@[k]]
                0 <= k < i ==> tile@[k] == cells@[block_cell(across as int, column as int, row as int, k)],
        decreases tiles::TILE_TEXELS - i,
    {
        let (x, y): (usize, usize) = (column * 512 + i % 512, row * 512 + i / 512);
        proof {
            lattice::lemma_cell_coordinates(width as int, down * tiles::SIDE, x as int, y as int);
            assert(y * width <= y * width + x);
        }
        tile.push(cells[y * width + x]);
        i = i + 1;
    }
    tile
}

/// Whether the finer of two levels starts exactly where the coarser one does:
/// at `scale` times its texel indices.
pub fn lines_up(fine: (i64, i64), coarse: (i64, i64), scale: i64) -> (yes: bool)
    ensures
        yes <==> fine.0 == coarse.0 * scale && fine.1 == coarse.1 * scale,
{
    assert(-0x8000_0000_0000_0000 * 0x8000_0000_0000_0000 <= coarse.0 * scale <= 0x8000_0000_0000_0000
        * 0x8000_0000_0000_0000 && -0x8000_0000_0000_0000 * 0x8000_0000_0000_0000 <= coarse.1 * scale
        <= 0x8000_0000_0000_0000 * 0x8000_0000_0000_0000) by (nonlinear_arith)
        requires
            -0x8000_0000_0000_0000 <= coarse.0 < 0x8000_0000_0000_0000,
            -0x8000_0000_0000_0000 <= coarse.1 < 0x8000_0000_0000_0000,
            -0x8000_0000_0000_0000 <= scale < 0x8000_0000_0000_0000,
    ;
    fine.0 as i128 == coarse.0 as i128 * scale as i128 && fine.1 as i128 == coarse.1 as i128 * scale as i128
}

/// The tile of a finer level at a place under a coarser one.
pub fn tile_under(tile: Tile, scale: u32, x: u32, y: u32) -> (under: Option<Tile>)
    requires
        x < scale,
        y < scale,
    ensures
        match under {
            Some(under) => under.x == tile.x * scale + x && under.y == tile.y * scale + y,
            None => !(i32::MIN <= tile.x * scale + x <= i32::MAX && i32::MIN <= tile.y * scale + y <= i32::MAX),
        },
{
    assert(-0x8000_0000 * 0x1_0000_0000 <= tile.x * scale <= 0x8000_0000 * 0x1_0000_0000 && -0x8000_0000
        * 0x1_0000_0000 <= tile.y * scale <= 0x8000_0000 * 0x1_0000_0000) by (nonlinear_arith)
        requires
            -0x8000_0000 <= tile.x < 0x8000_0000,
            -0x8000_0000 <= tile.y < 0x8000_0000,
            0 <= scale < 0x1_0000_0000,
    ;
    let column: i128 = tile.x as i128 * scale as i128 + x as i128;
    let row: i128 = tile.y as i128 * scale as i128 + y as i128;
    if -0x8000_0000 <= column && column < 0x8000_0000 && -0x8000_0000 <= row && row < 0x8000_0000 {
        Some(Tile { x: column as i32, y: row as i32 })
    } else {
        None
    }
}

/// Blocks are four tiles each way, but for what is left over at the end of a
/// range, and follow each other without a gap.
pub proof fn blocks_follow_each_other(count: int, at: int)
    requires
        0 <= at,
        4 * at < count,
    ensures
        1 <= block_share(count, at) <= 4,
        4 * at + block_share(count, at) <= count,
        4 * at + 4 <= count ==> block_share(count, at) == 4,
        4 * at + 4 > count ==> 4 * at + block_share(count, at) == count,
        at < blocks_along(count),
        4 * blocks_along(count) >= count,
        4 * (blocks_along(count) - 1) < count,
{
    extent::lemma_groups(count, BLOCK_TILES as int);
}

/// A block starts so many blocks of four tiles from the corner of the range.
pub proof fn a_block_starts_where_its_place_says(
    block: Block,
    first: Tile,
    across: int,
    down: int,
    column: int,
    row: int,
)
    requires
        is_block(block, first, across, down, column, row),
        0 <= column,
        0 <= row,
        4 * column < across,
        4 * row < down,
    ensures
        block.corner.x == first.x + 4 * column,
        block.corner.y == first.y + 4 * row,
        block.corner.x + block.across <= first.x + across,
        block.corner.y + block.down <= first.y + down,
        4 * column + 4 <= across ==> block.across == 4,
        4 * row + 4 <= down ==> block.down == 4,
{
}

/// A texel of a tile of a block is the block's cell as far east and south as the
/// tiles before it and the texel itself come to.
pub proof fn a_texel_is_the_cell_at_its_place(across: int, column: int, row: int, x: int, y: int)
    requires
        0 <= x < 512,
        0 <= y < 512,
    ensures
        block_cell(across, column, row, y * 512 + x) == (512 * row + y) * (512 * across) + (512 * column + x),
{
    assert((y * 512 + x) % 512 == x && (y * 512 + x) / 512 == y);
    assert(across * tiles::SIDE == 512 * across);
}

} // verus!
