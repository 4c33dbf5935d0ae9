//! Which samples a stored normal is made of.
//!
//! Heights come as sort keys of 32-bit floats (see [`crate::keys`]); a height
//! below the bound handed in is a hole.

use crate::lattice;
use crate::order;
use crate::tiles;
use vstd::prelude::*;

verus! {

/// Half a tile: the side of the quadrant one child fills in its parent.
pub const HALF: usize = 256;

/// How a slope along an axis is taken.
#[derive(Clone, Copy, Debug, PartialEq, Eq, Structural)]
pub enum Difference {
    /// From the neighbour before to the one after, two texels apart.
    Central,
    /// From the neighbour before to the texel itself.
    Backward,
    /// From the texel itself to the neighbour after.
    Forward,
    /// Level: the texel stands alone.
    Level,
}

/// How a slope is taken between neighbours that may be holes.
pub open spec fn taken(before_hole: bool, after_hole: bool) -> Difference {
    match (before_hole, after_hole) {
        (false, false) => Difference::Central,
        (false, true) => Difference::Backward,
        (true, false) => Difference::Forward,
        (true, true) => Difference::Level,
    }
}

/// Chooses how a slope is taken: a central difference where both neighbours are
/// ground, one-sided where only one is, and level where neither is.
pub fn difference(before_hole: bool, after_hole: bool) -> (kind: Difference)
    ensures
        kind == taken(before_hole, after_hole),
{
    if before_hole {
        if after_hole {
            Difference::Level
        } else {
            Difference::Forward
        }
    } else {
        if after_hole {
            Difference::Backward
        } else {
            Difference::Central
        }
    }
}

/// How both slopes of a texel are taken.
#[derive(Clone, Copy, Debug, PartialEq, Eq, Structural)]
pub struct Slopes {
    pub east: Difference,
    pub south: Difference,
}

/// The height at an offset from a texel of a square read one texel wider on every
/// side than what is asked about.
pub open spec fn height_at(heights: Seq<u32>, span: int, x: int, y: int, dx: int, dy: int) -> u32 {
    heights[(y + 1 + dy) * span + (x + 1 + dx)]
}

/// Chooses how the slopes of a texel are taken, or `None` where it is a hole.
pub fn slopes_at(heights: &Vec<u32>, span: usize, x: usize, y: usize, hole_below: u32) -> (slopes: Option<Slopes>)
    requires
        heights@.len() == span * span,
        x + 2 < span,
        y + 2 < span,
    ensures
        slopes == if height_at(heights@, span as int, x as int, y as int, 0, 0) < hole_below {
            None::<Slopes>
        } else {
            Some(
                Slopes {
                    east: taken(
                        height_at(heights@, span as int, x as int, y as int, -1, 0) < hole_below,
                        height_at(heights@, span as int, x as int, y as int, 1, 0) < hole_below,
                    ),
                    south: taken(
                        height_at(heights@, span as int, x as int, y as int, 0, -1) < hole_below,
                        height_at(heights@, span as int, x as int, y as int, 0, 1) < hole_below,
                    ),
                },
            )
        },
{
    assert(heights.len() <= usize::MAX);
    proof {
        let side = span as int;
        lattice::lemma_cell_coordinates(side, side, x + 1, y as int);
        lattice::lemma_cell_coordinates(side, side, x as int, y + 1);
        lattice::lemma_cell_coordinates(side, side, x + 1, y + 1);
        lattice::lemma_cell_coordinates(side, side, x + 2, y + 1);
        lattice::lemma_cell_coordinates(side, side, x + 1, y + 2);
        assert(y * side <= y * side + (x + 1));
        assert((y + 1) * side <= (y + 1) * side + x);
        assert((y + 2) * side <= (y + 2) * side + (x + 1));
    }
    let above: usize = y * span;
    let row: usize = (y + 1) * span;
    let below: usize = (y + 2) * span;
    if heights[row + (x + 1)] < hole_below {
        return None;
    }
    Some(
        Slopes {
            east: difference(heights[row + x] < hole_below, heights[row + (x + 2)] < hole_below),
            south: difference(heights[above + (x + 1)] < hole_below, heights[below + (x + 1)] < hole_below),
        },
    )
}

/// Which texel of a stored tile a fine texel counts towards.
pub open spec fn bucket_of(scale: int, x: int, y: int) -> int {
    (y / scale) * tiles::SIDE + x / scale
}

/// Finds the texel of a stored tile a fine texel counts towards.
pub fn bucket(scale: usize, x: usize, y: usize) -> (index: usize)
    requires
        0 < scale,
        x < scale * tiles::SIDE,
        y < scale * tiles::SIDE,
    ensures
        index == bucket_of(scale as int, x as int, y as int),
        index < tiles::TILE_TEXELS,
{
    proof {
        lemma_below_side(scale as int, x as int);
        lemma_below_side(scale as int, y as int);
    }
    (y / scale) * 512 + x / scale
}

proof fn lemma_below_side(scale: int, at: int)
    requires
        0 < scale,
        0 <= at < scale * tiles::SIDE,
    ensures
        0 <= at / scale < tiles::SIDE,
{
    vstd::arithmetic::div_mod::lemma_fundamental_div_mod(at, scale);
    let whole = at / scale;
    assert(0 <= whole < 512) by (nonlinear_arith)
        requires
            at == scale * whole + at % scale,
            0 <= at % scale < scale,
            0 <= at < scale * 512,
            0 < scale,
    ;
}

/// A fine texel counts towards one stored texel: the one whose square of ground
/// it lies in.
pub proof fn every_fine_texel_counts_once(scale: int, x: int, y: int, column: int, row: int)
    requires
        0 < scale,
        0 <= x < scale * tiles::SIDE,
        0 <= y < scale * tiles::SIDE,
        0 <= column < tiles::SIDE,
        0 <= row < tiles::SIDE,
    ensures
        bucket_of(scale, x, y) == row * tiles::SIDE + column <==> column * scale <= x < (column + 1) * scale && row
            * scale <= y < (row + 1) * scale,
{
    lemma_below_side(scale, x);
    lemma_below_side(scale, y);
    lemma_quotient(scale, x, column);
    lemma_quotient(scale, y, row);
}

proof fn lemma_quotient(scale: int, at: int, whole: int)
    requires
        0 < scale,
    ensures
        at / scale == whole <==> whole * scale <= at < (whole + 1) * scale,
{
    vstd::arithmetic::div_mod::lemma_fundamental_div_mod(at, scale);
    let q = at / scale;
    assert(q == whole <==> whole * scale <= at < (whole + 1) * scale) by (nonlinear_arith)
        requires
            at == scale * q + at % scale,
            0 <= at % scale < scale,
            0 < scale,
    ;
}

/// Where a texel of the quadrant a child fills lies in its parent.
pub open spec fn place_of(quadrant: int, x: int, y: int) -> int {
    ((quadrant / 2) * HALF + y) * tiles::SIDE + (quadrant % 2) * HALF + x
}

/// Where the mean of four texels of a child goes in its parent.
pub fn place(quadrant: usize, x: usize, y: usize) -> (index: usize)
    requires
        quadrant < 4,
        x < HALF,
        y < HALF,
    ensures
        index == place_of(quadrant as int, x as int, y as int),
        index < tiles::TILE_TEXELS,
{
    ((quadrant / 2) * HALF + y) * 512 + (quadrant % 2) * HALF + x
}

/// The four children fill their parent, and no two of them the same texel of it.
pub proof fn four_children_fill_their_parent(index: int)
    requires
        0 <= index < tiles::TILE_TEXELS,
    ensures
        exists|quadrant: int, x: int, y: int|
            0 <= quadrant < 4 && 0 <= x < HALF && 0 <= y < HALF && #[trigger] place_of(quadrant, x, y) == index,
        forall|q: int, x: int, y: int, r: int, u: int, v: int|
            #![trigger place_of(q, x, y), place_of(r, u, v)]
            0 <= q < 4 && 0 <= x < HALF && 0 <= y < HALF && 0 <= r < 4 && 0 <= u < HALF && 0 <= v < HALF && place_of(
                q,
                x,
                y,
            ) == place_of(r, u, v) ==> q == r && x == u && y == v,
{
    let (column, row) = (index % 512, index / 512);
    let (quadrant, x, y) = (2 * (row / 256) + column / 256, column % 256, row % 256);
    assert(place_of(quadrant, x, y) == index);
}

/// The texels of a child under one of its parent, holes left out, row by row.
pub open spec fn under<T>(values: Seq<T>, holes: Seq<bool>, x: int, y: int) -> Seq<T> {
    let first = y * 2 * tiles::SIDE + x * 2;
    kept(values, holes, first) + kept(values, holes, first + 1) + kept(values, holes, first + tiles::SIDE) + kept(
        values,
        holes,
        first + tiles::SIDE + 1,
    )
}

/// One texel, unless it is a hole.
pub open spec fn kept<T>(values: Seq<T>, holes: Seq<bool>, at: int) -> Seq<T> {
    if holes[at] {
        seq![]
    } else {
        seq![values[at]]
    }
}

/// Gathers the texels of a child that one texel of its parent is the mean of: a
/// hole is left out, and four holes leave nothing.
pub fn gather<T: Copy>(values: &Vec<T>, holes: &Vec<bool>, x: usize, y: usize) -> (samples: Vec<T>)
    requires
        values@.len() == tiles::TILE_TEXELS,
        holes@.len() == tiles::TILE_TEXELS,
        x < HALF,
        y < HALF,
    ensures
        samples@ =~= under(values@, holes@, x as int, y as int),
{
    let first: usize = y * 2 * 512 + x * 2;
    let mut samples: Vec<T> = Vec::new();
    if !holes[first] {
        samples.push(values[first]);
    }
    if !holes[first + 1] {
        samples.push(values[first + 1]);
    }
    if !holes[first + 512] {
        samples.push(values[first + 512]);
    }
    if !holes[first + 512 + 1] {
        samples.push(values[first + 512 + 1]);
    }
    samples
}

/// Where the square a tile's slopes are read from starts, one texel out from the
/// tile's own first texel. `offset` is how far that lies from the raster's corner
/// in stored texels, `scale` the fine texels along one.
pub fn halo_corner(offset: i64, scale: i64) -> (corner: i64)
    requires
        -tiles::FURTHEST <= offset * scale <= tiles::FURTHEST,
    ensures
        corner == offset * scale - 1,
{
    offset * scale - 1
}

/// A slope is taken over every neighbour that is ground: both where both are, one
/// side where one is, and none where neither is.
pub proof fn a_slope_is_taken_over_the_ground_there_is(before_hole: bool, after_hole: bool)
    ensures
        taken(before_hole, after_hole) == Difference::Central <==> !before_hole && !after_hole,
        taken(before_hole, after_hole) == Difference::Backward <==> !before_hole && after_hole,
        taken(before_hole, after_hole) == Difference::Forward <==> before_hole && !after_hole,
        taken(before_hole, after_hole) == Difference::Level <==> before_hole && after_hole,
{
}

/// A square read one texel wider on every side holds a texel one row and one
/// column in, and its neighbours beside it.
pub proof fn a_texel_lies_one_in_from_the_halo(heights: Seq<u32>, span: int, x: int, y: int)
    ensures
        height_at(heights, span, x, y, 0, 0) == heights[(y + 1) * span + (x + 1)],
        height_at(heights, span, x, y, -1, 0) == heights[(y + 1) * span + x],
        height_at(heights, span, x, y, 1, 0) == heights[(y + 1) * span + (x + 2)],
        height_at(heights, span, x, y, 0, -1) == heights[y * span + (x + 1)],
        height_at(heights, span, x, y, 0, 1) == heights[(y + 2) * span + (x + 1)],
{
}

/// The children fill their parent in reading order: the first its north-west
/// quarter, the second its north-east, the third its south-west and the fourth
/// its south-east, each texel as far into the quarter as it is into the child.
pub proof fn children_fill_the_quarters_in_reading_order(quadrant: int, x: int, y: int)
    requires
        0 <= quadrant < 4,
        0 <= x < 256,
        0 <= y < 256,
    ensures
        ({
            let east: int = if quadrant == 1 || quadrant == 3 {
                256
            } else {
                0
            };
            let south: int = if quadrant == 2 || quadrant == 3 {
                256
            } else {
                0
            };
            place_of(quadrant, x, y) == (south + y) * 512 + (east + x)
        }),
{
}

/// A texel of a parent is made of the four of its child at twice its place, row
/// by row, those that are holes left out and no others.
pub proof fn a_parent_texel_is_made_of_the_four_beneath<T>(values: Seq<T>, holes: Seq<bool>, x: int, y: int)
    ensures
        ({
            let at = |dx: int, dy: int| (2 * y + dy) * 512 + (2 * x + dx);
            order::picks(
                under(values, holes, x, y),
                seq![values[at(0, 0)], values[at(1, 0)], values[at(0, 1)], values[at(1, 1)]],
                seq![!holes[at(0, 0)], !holes[at(1, 0)], !holes[at(0, 1)], !holes[at(1, 1)]],
            )
        }),
{
    let first = y * 2 * tiles::SIDE + x * 2;
    let items = seq![values[first], values[first + 1], values[first + 512], values[first + 513]];
    let flags = seq![!holes[first], !holes[first + 1], !holes[first + 512], !holes[first + 513]];
    reveal_with_fuel(order::chosen, 5);
    let list = under(values, holes, x, y);
    assert(order::chosen(flags, 0) == 0);
    assert(list.len() == order::chosen(flags, 4));
    assert forall|k: int| 0 <= k < flags.len() && #[trigger] flags[k] implies list[order::chosen(flags, k)]
        == items[k] by {
        assert(k == 0 || k == 1 || k == 2 || k == 3);
    }
    assert(order::picks(list, items, flags));
    let at = |dx: int, dy: int| (2 * y + dy) * 512 + (2 * x + dx);
    assert(at(0, 0) == first && at(1, 0) == first + 1 && at(0, 1) == first + 512 && at(1, 1) == first + 513);
}

} // verus!
