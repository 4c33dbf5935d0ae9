//! Filling unmapped ground from the cover mapped around it.
//!
//! Every null texel in reach of mapped cover takes the id of the nearest mapped
//! texel, and only ground further than that from every mapped thing stays null.
//! Water does not spread: a shoreline is surveyed, and land beyond it is not
//! more lake. Distance still measures straight across it.
//!
//! Nearness is a chamfer distance, swept over the raster twice: down, each
//! texel taking the best of the row above and the texel to its left, and back
//! up, against the row below and the texel to its right. The rows between the
//! two sweeps are spilled as bytes.

use vstd::prelude::*;
use crate::lattice;

verus! {

/// The weight of a step along a side.
pub const ORTHOGONAL: u16 = 3;

/// The weight of a step across a corner.
pub const DIAGONAL: u16 = 4;

/// The distance of a texel nothing reaches.
pub const FAR: u16 = 0xffff;

/// How many bytes a spilled texel takes: its distance and its id.
pub const SPILL_BYTES: usize = 6;

/// Whether a stored id is cover the fill may spread: something, and not of the
/// water block.
pub open spec fn is_cover(id: u32) -> bool {
    id != 0 && id as int / 256 != 0x01
}

/// Whether a stored id is cover the fill may spread. Null is nothing, and the
/// water block, ocean included, is bounded by surveyed shoreline.
pub fn spreads(id: u32) -> (yes: bool)
    ensures
        yes == is_cover(id),
{
    assert(id >> 8 == id / 256) by (bit_vector);
    id != 0 && (id >> 8) != 0x01
}

/// How far a row of texels is from cover, and which cover that is.
pub struct Row {
    pub distance: Vec<u16>,
    pub nearest: Vec<u32>,
}

/// What a row holds.
pub ghost struct Reach {
    pub distance: Seq<u16>,
    pub nearest: Seq<u32>,
}

impl View for Row {
    type V = Reach;

    open spec fn view(&self) -> Reach {
        Reach { distance: self.distance@, nearest: self.nearest@ }
    }
}

/// The better of what a texel has and a step from a neighbour: only a strictly
/// shorter way displaces what is there.
pub open spec fn nearer(best: (u16, u32), distance: u16, step: u16, id: u32) -> (u16, u32) {
    let reached = if distance + step <= FAR {
        (distance + step) as u16
    } else {
        FAR
    };
    if reached < best.0 {
        (reached, id)
    } else {
        best
    }
}

/// The better of what a texel has and the three texels beside it in a row that
/// is already settled: straight across first, then the corners.
pub open spec fn nearer_across(best: (u16, u32), across: Option<Reach>, x: int) -> (u16, u32) {
    match across {
        Some(row) => {
            let straight = nearer(best, row.distance[x], ORTHOGONAL, row.nearest[x]);
            let west = if x > 0 {
                nearer(straight, row.distance[x - 1], DIAGONAL, row.nearest[x - 1])
            } else {
                straight
            };
            if x + 1 < row.distance.len() {
                nearer(west, row.distance[x + 1], DIAGONAL, row.nearest[x + 1])
            } else {
                west
            }
        },
        None => best,
    }
}

/// What the downward sweep gives a texel.
pub open spec fn settled_down(line: Seq<u32>, above: Option<Reach>, row: Reach, x: int) -> (u16, u32) {
    if is_cover(line[x]) {
        (0, line[x])
    } else {
        let best = nearer_across((FAR, 0), above, x);
        if x > 0 {
            nearer(best, row.distance[x - 1], ORTHOGONAL, row.nearest[x - 1])
        } else {
            best
        }
    }
}

/// A row the downward sweep has settled.
pub open spec fn swept_down(line: Seq<u32>, above: Option<Reach>, row: Reach) -> bool {
    &&& row.distance.len() == line.len()
    &&& row.nearest.len() == line.len()
    &&& forall|x: int|
        #![trigger row.distance[x]]
        0 <= x < line.len() ==> (row.distance[x], row.nearest[x]) == settled_down(line, above, row, x)
}

/// What the upward sweep makes of what the downward one left a texel.
pub open spec fn settled_up(before: Reach, below: Option<Reach>, row: Reach, x: int) -> (u16, u32) {
    let best = (before.distance[x], before.nearest[x]);
    if best.0 == 0 {
        best
    } else {
        let best = nearer_across(best, below, x);
        if x + 1 < row.distance.len() {
            nearer(best, row.distance[x + 1], ORTHOGONAL, row.nearest[x + 1])
        } else {
            best
        }
    }
}

/// A row the upward sweep has settled.
pub open spec fn swept_up(before: Reach, below: Option<Reach>, row: Reach) -> bool {
    &&& row.distance.len() == before.distance.len()
    &&& row.nearest.len() == before.distance.len()
    &&& forall|x: int|
        #![trigger row.distance[x]]
        0 <= x < row.distance.len() ==> (row.distance[x], row.nearest[x]) == settled_up(before, below, row, x)
}

/// What a texel becomes once its distance is settled.
pub open spec fn repainted(id: u32, distance: u16, nearest: u32, cap: u16) -> u32 {
    if id == 0 && distance <= cap && nearest != 0 {
        nearest
    } else {
        id
    }
}

/// How many texels of a line hold nothing.
pub open spec fn nulls(line: Seq<u32>) -> nat
    decreases line.len(),
{
    if line.len() == 0 {
        0
    } else {
        nulls(line.drop_last()) + if line.last() == 0 {
            1nat
        } else {
            0nat
        }
    }
}

/// A row beside another, where there is one.
pub open spec fn beside(row: Option<&Row>) -> Option<Reach> {
    match row {
        Some(row) => Some(row@),
        None => None,
    }
}

/// Keeps the better of what is there and a step from a neighbour.
fn consider(best: (u16, u32), distance: u16, step: u16, id: u32) -> (better: (u16, u32))
    ensures
        better == nearer(best, distance, step, id),
{
    let reached: u16 = distance.saturating_add(step);
    if reached < best.0 {
        (reached, id)
    } else {
        best
    }
}

fn consider_across(best: (u16, u32), across: Option<&Row>, x: usize, width: usize) -> (better: (u16, u32))
    requires
        x < width,
        across matches Some(row) ==> row.distance@.len() == width && row.nearest@.len() == width,
    ensures
        better == nearer_across(best, beside(across), x as int),
{
    let mut best = best;
    if let Some(row) = across {
        best = consider(best, row.distance[x], ORTHOGONAL, row.nearest[x]);
        if x > 0 {
            best = consider(best, row.distance[x - 1], DIAGONAL, row.nearest[x - 1]);
        }
        if x + 1 < width {
            best = consider(best, row.distance[x + 1], DIAGONAL, row.nearest[x + 1]);
        }
    }
    best
}

/// Settles a row of the downward sweep, west to east, against the row above.
pub fn sweep_down(cells: &Vec<u32>, start: usize, width: usize, above: Option<&Row>) -> (row: Row)
    requires
        start + width <= cells@.len(),
        above matches Some(row) ==> row.distance@.len() == width && row.nearest@.len() == width,
    ensures
        swept_down(cells@.subrange(start as int, start + width), beside(above), row@),
{
    let ghost line = cells@.subrange(start as int, start + width);
    assert(cells.len() <= usize::MAX);
    let mut row = Row { distance: Vec::new(), nearest: Vec::new() };
    let mut x: usize = 0;
    while x < width
        invariant
            x <= width,
            start + width <= cells@.len() <= usize::MAX,
            line == cells@.subrange(start as int, start + width),
            above matches Some(row) ==> row.distance@.len() == width && row.nearest@.len() == width,
            row.distance@.len() == x,
            row.nearest@.len() == x,
            forall|i: int|
                #![trigger row.distance@[i]]
                0 <= i < x ==> (row.distance@[i], row.nearest@[i]) == settled_down(line, beside(above), row@, i),
        decreases width - x,
    {
        let id: u32 = cells[start + x];
        assert(id == line[x as int]);
        let ghost before = row@;
        let settled: (u16, u32) = if spreads(id) {
            (0, id)
        } else {
            let best = consider_across((FAR, 0), above, x, width);
            if x > 0 {
                consider(best, row.distance[x - 1], ORTHOGONAL, row.nearest[x - 1])
            } else {
                best
            }
        };
        row.distance.push(settled.0);
        row.nearest.push(settled.1);
        assert forall|i: int|
            #![trigger row.distance@[i]]
            0 <= i < x + 1 implies (row.distance@[i], row.nearest@[i]) == settled_down(
            line,
            beside(above),
            row@,
            i,
        ) by {
            if i < x {
                assert(row.distance@[i] == before.distance[i]);
            }
        }
        x = x + 1;
    }
    row
}

/// Finishes a row on the way back up, east to west, against the row below, and
/// fills the texels of it that are in reach.
///
/// Returns how many texels it filled and how many stayed null.
pub fn sweep_up(
    cells: &mut Vec<u32>,
    start: usize,
    row: &mut Row,
    below: Option<&Row>,
    cap: u16,
) -> (counts: (u64, u64))
    requires
        old(row).distance@.len() == old(row).nearest@.len(),
        start + old(row).distance@.len() <= old(cells)@.len(),
        below matches Some(under) ==> under.distance@.len() == old(row).distance@.len() && under.nearest@.len()
            == old(row).distance@.len(),
    ensures
        swept_up(old(row)@, beside(below), final(row)@),
        final(cells)@.len() == old(cells)@.len(),
        forall|i: int|
            #![trigger final(cells)@[i]]
            0 <= i < old(cells)@.len() ==> final(cells)@[i] == if start <= i < start + old(row).distance@.len() {
                repainted(
                    old(cells)@[i],
                    final(row)@.distance[i - start],
                    final(row)@.nearest[i - start],
                    cap,
                )
            } else {
                old(cells)@[i]
            },
        counts.0 + counts.1 == nulls(
            old(cells)@.subrange(start as int, start + old(row).distance@.len()),
        ),
        counts.1 == nulls(final(cells)@.subrange(start as int, start + old(row).distance@.len())),
{
    settle_up(row, below);
    repaint(cells, start, row, cap)
}

/// Finishes the distances of a row on the way back up.
fn settle_up(row: &mut Row, below: Option<&Row>)
    requires
        old(row).distance@.len() == old(row).nearest@.len(),
        below matches Some(under) ==> under.distance@.len() == old(row).distance@.len() && under.nearest@.len()
            == old(row).distance@.len(),
    ensures
        swept_up(old(row)@, beside(below), final(row)@),
{
    let width: usize = row.distance.len();
    let ghost before = row@;
    let mut x: usize = width;
    while x > 0
        invariant
            x <= width,
            width == before.distance.len(),
            before.nearest.len() == width,
            row.distance@.len() == width,
            row.nearest@.len() == width,
            below matches Some(under) ==> under.distance@.len() == width && under.nearest@.len() == width,
            forall|i: int|
                #![trigger row.distance@[i]]
                0 <= i < x ==> row.distance@[i] == before.distance[i] && row.nearest@[i] == before.nearest[i],
            forall|i: int|
                #![trigger row.distance@[i]]
                x <= i < width ==> (row.distance@[i], row.nearest@[i]) == settled_up(
                    before,
                    beside(below),
                    row@,
                    i,
                ),
        decreases x,
    {
        x = x - 1;
        let ghost row_before = row@;
        if row.distance[x] > 0 {
            let mut best: (u16, u32) = (row.distance[x], row.nearest[x]);
            best = consider_across(best, below, x, width);
            if x + 1 < width {
                best = consider(best, row.distance[x + 1], ORTHOGONAL, row.nearest[x + 1]);
            }
            row.distance[x] = best.0;
            row.nearest[x] = best.1;
        }
        proof {
            assert forall|i: int|
                #![trigger row.distance@[i]]
                x <= i < width implies (row.distance@[i], row.nearest@[i]) == settled_up(
                before,
                beside(below),
                row@,
                i,
            ) by {
                if i > x {
                    assert(row.distance@[i] == row_before.distance[i]);
                    if i + 1 < width {
                        assert(row.distance@[i + 1] == row_before.distance[i + 1]);
                    }
                }
            }
            assert forall|i: int|
                #![trigger row.distance@[i]]
                0 <= i < x implies row.distance@[i] == before.distance[i] && row.nearest@[i] == before.nearest[i] by {
                assert(row.distance@[i] == row_before.distance[i]);
            }
        }
    }
}

/// Fills the null texels of a settled row that are in reach, and counts both
/// kinds.
fn repaint(cells: &mut Vec<u32>, start: usize, row: &Row, cap: u16) -> (counts: (u64, u64))
    requires
        row.distance@.len() == row.nearest@.len(),
        start + row.distance@.len() <= old(cells)@.len(),
    ensures
        final(cells)@.len() == old(cells)@.len(),
        forall|i: int|
            #![trigger final(cells)@[i]]
            0 <= i < old(cells)@.len() ==> final(cells)@[i] == if start <= i < start + row.distance@.len() {
                repainted(old(cells)@[i], row@.distance[i - start], row@.nearest[i - start], cap)
            } else {
                old(cells)@[i]
            },
        counts.0 + counts.1 == nulls(old(cells)@.subrange(start as int, start + row.distance@.len())),
        counts.1 == nulls(final(cells)@.subrange(start as int, start + row.distance@.len())),
{
    let width: usize = row.distance.len();
    let ghost first = cells@;
    assert(cells.len() <= usize::MAX);
    let mut filled: u64 = 0;
    let mut unfilled: u64 = 0;
    let mut x: usize = width;
    proof {
        assert(first.subrange(start + width, start + width) =~= Seq::<u32>::empty());
    }
    while x > 0
        invariant
            x <= width,
            width == row.distance@.len(),
            width == row.nearest@.len(),
            first.len() == cells@.len(),
            start + width <= first.len() <= usize::MAX,
            forall|i: int|
                #![trigger cells@[i]]
                0 <= i < first.len() ==> cells@[i] == if start + x <= i < start + width {
                    repainted(first[i], row@.distance[i - start], row@.nearest[i - start], cap)
                } else {
                    first[i]
                },
            filled + unfilled == nulls(first.subrange(start + x, start + width)),
            unfilled == nulls(cells@.subrange(start + x, start + width)),
            filled + unfilled <= width - x,
        decreases x,
    {
        x = x - 1;
        let ghost cells_before = cells@;
        let at: usize = start + x;
        assert(cells@[at as int] == first[at as int]);
        if cells[at] == 0 {
            if row.distance[x] <= cap && row.nearest[x] != 0 {
                cells[at] = row.nearest[x];
                filled = filled + 1;
            } else {
                unfilled = unfilled + 1;
            }
        }
        proof {
            let old_line = first.subrange(start + x, start + width);
            let new_line = cells@.subrange(start + x, start + width);
            assert(old_line.drop_first() =~= first.subrange(start + x + 1, start + width));
            assert(new_line.drop_first() =~= cells_before.subrange(start + x + 1, start + width));
            lemma_nulls_from_the_front(old_line);
            lemma_nulls_from_the_front(new_line);
        }
    }
    (filled, unfilled)
}

proof fn lemma_nulls_from_the_front(line: Seq<u32>)
    requires
        line.len() > 0,
    ensures
        nulls(line) == nulls(line.drop_first()) + if line.first() == 0 {
            1nat
        } else {
            0nat
        },
    decreases line.len(),
{
    if line.len() > 1 {
        lemma_nulls_from_the_front(line.drop_last());
        assert(line.drop_last().drop_first() =~= line.drop_first().drop_last());
        assert(line.drop_first().last() == line.last());
    } else {
        assert(line.drop_first() =~= Seq::<u32>::empty());
        assert(line.drop_last() =~= Seq::<u32>::empty());
    }
}

/// The chamfer distance over an offset: three for each side stepped along, and
/// one more for each step taken across a corner.
pub open spec fn chamfer(dx: int, dy: int) -> int {
    let a = if dx >= 0 {
        dx
    } else {
        -dx
    };
    let b = if dy >= 0 {
        dy
    } else {
        -dy
    };
    if a >= b {
        ORTHOGONAL * a + b
    } else {
        ORTHOGONAL * b + a
    }
}

/// The row before another, where there is one.
pub open spec fn above_of(rows: Seq<Reach>, y: int) -> Option<Reach> {
    if y > 0 {
        Some(rows[y - 1])
    } else {
        None
    }
}

/// The row after another, where there is one.
pub open spec fn below_of(rows: Seq<Reach>, y: int) -> Option<Reach> {
    if y + 1 < rows.len() {
        Some(rows[y + 1])
    } else {
        None
    }
}

/// A raster with the rows both sweeps settled for it.
pub open spec fn swept(lines: Seq<Seq<u32>>, width: int, down: Seq<Reach>, up: Seq<Reach>) -> bool {
    &&& down.len() == lines.len()
    &&& up.len() == lines.len()
    &&& forall|y: int| 0 <= y < lines.len() ==> (#[trigger] lines[y]).len() == width
    &&& forall|y: int|
        #![trigger down[y]]
        0 <= y < lines.len() ==> swept_down(lines[y], above_of(down, y), down[y])
    &&& forall|y: int|
        #![trigger up[y]]
        0 <= y < lines.len() ==> swept_up(down[y], below_of(up, y), up[y])
}

/// Whether a texel of the raster holds cover that spreads.
pub open spec fn covered(lines: Seq<Seq<u32>>, width: int, x: int, y: int) -> bool {
    &&& 0 <= x < width
    &&& 0 <= y < lines.len()
    &&& is_cover(lines[y][x])
}

/// What both sweeps settled for a texel, and the size of the rows they did it in.
proof fn lemma_at(lines: Seq<Seq<u32>>, width: int, down: Seq<Reach>, up: Seq<Reach>, x: int, y: int)
    requires
        swept(lines, width, down, up),
        0 <= x < width,
        0 <= y < lines.len(),
    ensures
        lines[y].len() == width,
        down[y].distance.len() == width,
        down[y].nearest.len() == width,
        up[y].distance.len() == width,
        up[y].nearest.len() == width,
        y > 0 ==> down[y - 1].distance.len() == width,
        y + 1 < lines.len() ==> up[y + 1].distance.len() == width,
        (down[y].distance[x], down[y].nearest[x]) == settled_down(lines[y], above_of(down, y), down[y], x),
        (up[y].distance[x], up[y].nearest[x]) == settled_up(down[y], below_of(up, y), up[y], x),
{
    assert(swept_down(lines[y], above_of(down, y), down[y]));
    assert(swept_up(down[y], below_of(up, y), up[y]));
    assert(lines[y].len() == width);
    assert(down[y].distance[x] == down[y].distance[x]);
    if y > 0 {
        assert(swept_down(lines[y - 1], above_of(down, y - 1), down[y - 1]));
        assert(lines[y - 1].len() == width);
    }
    if y + 1 < lines.len() {
        assert(swept_up(down[y + 1], below_of(up, y + 1), up[y + 1]));
        assert(swept_down(lines[y + 1], above_of(down, y + 1), down[y + 1]));
        assert(lines[y + 1].len() == width);
    }
}

/// The downward sweep finds every way that goes right, down or slantwise down.
proof fn lemma_down_reaches(
    lines: Seq<Seq<u32>>,
    width: int,
    down: Seq<Reach>,
    up: Seq<Reach>,
    x: int,
    y: int,
    sx: int,
    sy: int,
)
    requires
        swept(lines, width, down, up),
        0 <= x < width,
        0 <= y < lines.len(),
        covered(lines, width, sx, sy),
        sy <= y,
        sx - x <= y - sy,
    ensures
        down[y].distance[x] <= chamfer(x - sx, y - sy),
    decreases y, x,
{
    lemma_at(lines, width, down, up, x, y);
    if y > sy {
        let near = if x > sx {
            x - 1
        } else if x == sx {
            x
        } else {
            x + 1
        };
        lemma_down_reaches(lines, width, down, up, near, y - 1, sx, sy);
    } else if x > sx {
        lemma_down_reaches(lines, width, down, up, x - 1, y, sx, sy);
    }
}

/// Whether a texel took what it has from a neighbour.
spec fn came_from(row: Reach, x: int, step: u16, settled: (u16, u32)) -> bool {
    &&& row.distance[x] + step < FAR
    &&& settled.0 == row.distance[x] + step
    &&& settled.1 == row.nearest[x]
}

/// Whatever the downward sweep settles on is cover at no greater a distance.
proof fn lemma_down_is_from_cover(
    lines: Seq<Seq<u32>>,
    width: int,
    down: Seq<Reach>,
    up: Seq<Reach>,
    x: int,
    y: int,
) -> (source: (int, int))
    requires
        swept(lines, width, down, up),
        0 <= x < width,
        0 <= y < lines.len(),
        down[y].distance[x] < FAR,
    ensures
        covered(lines, width, source.0, source.1),
        lines[source.1][source.0] == down[y].nearest[x],
        chamfer(x - source.0, y - source.1) <= down[y].distance[x],
    decreases y, x,
{
    lemma_at(lines, width, down, up, x, y);
    let settled = (down[y].distance[x], down[y].nearest[x]);
    if is_cover(lines[y][x]) {
        (x, y)
    } else if y > 0 && came_from(down[y - 1], x, ORTHOGONAL, settled) {
        lemma_down_is_from_cover(lines, width, down, up, x, y - 1)
    } else if y > 0 && x > 0 && came_from(down[y - 1], x - 1, DIAGONAL, settled) {
        lemma_down_is_from_cover(lines, width, down, up, x - 1, y - 1)
    } else if y > 0 && x + 1 < width && came_from(down[y - 1], x + 1, DIAGONAL, settled) {
        lemma_down_is_from_cover(lines, width, down, up, x + 1, y - 1)
    } else {
        assert(x > 0 && came_from(down[y], x - 1, ORTHOGONAL, settled));
        lemma_down_is_from_cover(lines, width, down, up, x - 1, y)
    }
}

/// The two sweeps together find every way there is.
proof fn lemma_up_reaches(
    lines: Seq<Seq<u32>>,
    width: int,
    down: Seq<Reach>,
    up: Seq<Reach>,
    x: int,
    y: int,
    sx: int,
    sy: int,
)
    requires
        swept(lines, width, down, up),
        0 <= x < width,
        0 <= y < lines.len(),
        covered(lines, width, sx, sy),
    ensures
        up[y].distance[x] <= chamfer(x - sx, y - sy),
    decreases lines.len() - y, width - x,
{
    lemma_at(lines, width, down, up, x, y);
    if sy <= y && sx - x <= y - sy {
        lemma_down_reaches(lines, width, down, up, x, y, sx, sy);
    } else if y < sy {
        let near = if x > sx {
            x - 1
        } else if x == sx {
            x
        } else {
            x + 1
        };
        lemma_up_reaches(lines, width, down, up, near, y + 1, sx, sy);
    } else {
        lemma_up_reaches(lines, width, down, up, x + 1, y, sx, sy);
    }
}

/// Whatever the upward sweep settles on is cover at no greater a distance.
proof fn lemma_up_is_from_cover(
    lines: Seq<Seq<u32>>,
    width: int,
    down: Seq<Reach>,
    up: Seq<Reach>,
    x: int,
    y: int,
) -> (source: (int, int))
    requires
        swept(lines, width, down, up),
        0 <= x < width,
        0 <= y < lines.len(),
        up[y].distance[x] < FAR,
    ensures
        covered(lines, width, source.0, source.1),
        lines[source.1][source.0] == up[y].nearest[x],
        chamfer(x - source.0, y - source.1) <= up[y].distance[x],
    decreases lines.len() - y, width - x,
{
    lemma_at(lines, width, down, up, x, y);
    let settled = (up[y].distance[x], up[y].nearest[x]);
    if settled == (down[y].distance[x], down[y].nearest[x]) {
        lemma_down_is_from_cover(lines, width, down, up, x, y)
    } else if y + 1 < lines.len() && came_from(up[y + 1], x, ORTHOGONAL, settled) {
        lemma_up_is_from_cover(lines, width, down, up, x, y + 1)
    } else if y + 1 < lines.len() && x > 0 && came_from(up[y + 1], x - 1, DIAGONAL, settled) {
        lemma_up_is_from_cover(lines, width, down, up, x - 1, y + 1)
    } else if y + 1 < lines.len() && x + 1 < width && came_from(up[y + 1], x + 1, DIAGONAL, settled) {
        lemma_up_is_from_cover(lines, width, down, up, x + 1, y + 1)
    } else {
        assert(x + 1 < width && came_from(up[y], x + 1, ORTHOGONAL, settled));
        lemma_up_is_from_cover(lines, width, down, up, x + 1, y)
    }
}

/// Whether the nearest cover of a texel is at a distance, and one that near has
/// an id.
pub open spec fn nearest_cover(lines: Seq<Seq<u32>>, width: int, x: int, y: int, distance: int, id: u32) -> bool {
    &&& exists|sx: int, sy: int| #[trigger]
        covered(lines, width, sx, sy) && chamfer(x - sx, y - sy) == distance && lines[sy][sx] == id
    &&& forall|sx: int, sy: int| #[trigger]
        covered(lines, width, sx, sy) ==> distance <= chamfer(x - sx, y - sy)
}

/// Two sweeps measure the raster exactly: what they settle on for a texel is
/// its nearest cover and how far that is, and a texel they leave far has no
/// cover nearer than a distance can say.
pub proof fn two_sweeps_find_the_nearest_cover(
    lines: Seq<Seq<u32>>,
    width: int,
    down: Seq<Reach>,
    up: Seq<Reach>,
    x: int,
    y: int,
)
    requires
        swept(lines, width, down, up),
        0 <= x < width,
        0 <= y < lines.len(),
    ensures
        up[y].distance[x] < FAR ==> nearest_cover(
            lines,
            width,
            x,
            y,
            up[y].distance[x] as int,
            up[y].nearest[x],
        ) && up[y].nearest[x] != 0,
        up[y].distance[x] == FAR ==> forall|sx: int, sy: int| #[trigger]
            covered(lines, width, sx, sy) ==> FAR <= chamfer(x - sx, y - sy),
{
    assert forall|sx: int, sy: int| #[trigger] covered(lines, width, sx, sy) implies up[y].distance[x] <= chamfer(
        x - sx,
        y - sy,
    ) by {
        lemma_up_reaches(lines, width, down, up, x, y, sx, sy);
    }
    if up[y].distance[x] < FAR {
        let (sx, sy) = lemma_up_is_from_cover(lines, width, down, up, x, y);
        assert(covered(lines, width, sx, sy) && chamfer(x - sx, y - sy) == up[y].distance[x]);
    }
}

/// One line of a raster stored row by row.
pub open spec fn line_of(cells: Seq<u32>, width: int, y: int) -> Seq<u32> {
    cells.subrange(y * width, (y + 1) * width)
}

/// The lines of a raster stored row by row.
pub open spec fn lines_of(cells: Seq<u32>, width: int, height: int) -> Seq<Seq<u32>> {
    Seq::new(height as nat, |y: int| line_of(cells, width, y))
}

/// Whether an id is what the fill leaves in a texel: what was there, or else
/// the id of the nearest cover where that is within the cap, or else nothing.
pub open spec fn fills(lines: Seq<Seq<u32>>, width: int, x: int, y: int, cap: u16, id: u32) -> bool {
    if lines[y][x] != 0 {
        id == lines[y][x]
    } else {
        ||| exists|distance: int|
            distance <= cap && distance < FAR && #[trigger] nearest_cover(lines, width, x, y, distance, id)
        ||| id == 0 && forall|sx: int, sy: int| #[trigger]
            covered(lines, width, sx, sy) ==> chamfer(x - sx, y - sy) > cap || chamfer(x - sx, y - sy) >= FAR
    }
}

/// Water neither spreads nor is overwritten: what is mapped stays, and what a fill
/// adds is never of the water block.
pub proof fn water_keeps_to_its_shore(lines: Seq<Seq<u32>>, width: int, x: int, y: int, cap: u16, id: u32)
    requires
        fills(lines, width, x, y, cap, id),
    ensures
        lines[y][x] != 0 ==> id == lines[y][x],
        lines[y][x] == 0 && id != 0 ==> id as int / 256 != 0x01,
{
}

/// Whether the sweeps of a raster leave an id in a texel.
pub open spec fn sweeps_leave(
    cells: Seq<u32>,
    width: int,
    height: int,
    cap: u16,
    down: Seq<Reach>,
    up: Seq<Reach>,
    after: Seq<u32>,
) -> bool {
    &&& swept(lines_of(cells, width, height), width, down, up)
    &&& forall|x: int, y: int|
        #![trigger up[y].distance[x]]
        0 <= x < width && 0 <= y < height ==> after[y * width + x] == repainted(
            cells[y * width + x],
            up[y].distance[x],
            up[y].nearest[x],
            cap,
        )
}

/// What the sweeps leave in a texel is what the fill promises.
pub proof fn the_fill_takes_the_nearest_cover(
    lines: Seq<Seq<u32>>,
    width: int,
    down: Seq<Reach>,
    up: Seq<Reach>,
    cap: u16,
    x: int,
    y: int,
)
    requires
        swept(lines, width, down, up),
        0 <= x < width,
        0 <= y < lines.len(),
    ensures
        fills(lines, width, x, y, cap, repainted(lines[y][x], up[y].distance[x], up[y].nearest[x], cap)),
{
    two_sweeps_find_the_nearest_cover(lines, width, down, up, x, y);
    let distance = up[y].distance[x];
    if lines[y][x] == 0 && distance < FAR && distance <= cap {
        assert(nearest_cover(lines, width, x, y, distance as int, up[y].nearest[x]));
    } else if lines[y][x] == 0 {
        lemma_at(lines, width, down, up, x, y);
        if distance == FAR {
            lemma_far_has_no_cover(lines, width, down, up, x, y);
        }
        assert forall|sx: int, sy: int| #[trigger] covered(lines, width, sx, sy) implies chamfer(x - sx, y - sy)
            > cap || chamfer(x - sx, y - sy) >= FAR by {
            lemma_up_reaches(lines, width, down, up, x, y, sx, sy);
        }
    }
}

/// A texel nothing reaches has no id either.
proof fn lemma_far_has_no_cover(
    lines: Seq<Seq<u32>>,
    width: int,
    down: Seq<Reach>,
    up: Seq<Reach>,
    x: int,
    y: int,
)
    requires
        swept(lines, width, down, up),
        0 <= x < width,
        0 <= y < lines.len(),
        up[y].distance[x] == FAR,
    ensures
        up[y].nearest[x] == 0,
{
    lemma_at(lines, width, down, up, x, y);
}

proof fn lemma_nulls_of_two(a: Seq<u32>, b: Seq<u32>)
    ensures
        nulls(a + b) == nulls(a) + nulls(b),
    decreases b.len(),
{
    if b.len() == 0 {
        assert(a + b =~= a);
    } else {
        lemma_nulls_of_two(a, b.drop_last());
        assert((a + b).drop_last() =~= a + b.drop_last());
    }
}

proof fn lemma_line_bounds(width: int, height: int, y: int)
    requires
        0 <= width,
        0 <= y < height,
    ensures
        0 <= y * width <= (y + 1) * width <= height * width,
        (y + 1) * width == y * width + width,
{
    assert((y + 1) * width == y * width + width) by (nonlinear_arith);
    assert(0 <= y * width) by (nonlinear_arith)
        requires
            0 <= y,
            0 <= width,
    ;
    assert((y + 1) * width <= height * width) by (nonlinear_arith)
        requires
            y + 1 <= height,
            0 <= width,
    ;
}

/// Fills every null texel within the cap of mapped land cover with the nearest
/// such cover's id. Returns how many texels were filled and how many stayed
/// null.
#[verifier::rlimit(40)]
pub fn fill(cells: &mut Vec<u32>, width: usize, height: usize, cap: u16) -> (counts: (u64, u64))
    requires
        old(cells)@.len() == height * width,
    ensures
        final(cells)@.len() == old(cells)@.len(),
        exists|down: Seq<Reach>, up: Seq<Reach>|
            sweeps_leave(old(cells)@, width as int, height as int, cap, down, up, final(cells)@),
        forall|i: int|
            #![trigger final(cells)@[i]]
            0 <= i < old(cells)@.len() ==> fills(
                lines_of(old(cells)@, width as int, height as int),
                width as int,
                lattice::column_of(width as int, i),
                lattice::row_of(width as int, i),
                cap,
                final(cells)@[i],
            ),
        counts.0 + counts.1 == nulls(old(cells)@),
        counts.1 == nulls(final(cells)@),
{
    let ghost first = cells@;
    let ghost (w, h) = (width as int, height as int);
    let ghost lines = lines_of(first, w, h);
    assert(cells.len() <= usize::MAX);
    let mut down: Vec<Row> = Vec::new();
    let mut y: usize = 0;
    let mut start: usize = 0;
    while y < height
        invariant
            y <= height,
            w == width,
            h == height,
            start == y * w,
            cells@ == first,
            first.len() == h * w,
            first.len() <= usize::MAX,
            lines == lines_of(first, w, h),
            down@.len() == y,
            forall|i: int|
                #![trigger down@[i]]
                0 <= i < y ==> swept_down(
                    lines[i],
                    if i > 0 {
                        Some(down@[i - 1]@)
                    } else {
                        None
                    },
                    down@[i]@,
                ),
        decreases height - y,
    {
        proof {
            lemma_line_bounds(w, h, y as int);
            assert(lines[y as int] == line_of(first, w, y as int));
        }
        let row = if y == 0 {
            sweep_down(cells, start, width, None)
        } else {
            proof {
                assert(swept_down(lines[y - 1], if y - 1 > 0 { Some(down@[y - 2]@) } else { None }, down@[y - 1]@));
                assert(lines[y - 1] == line_of(first, w, y - 1));
                lemma_line_bounds(w, h, y - 1);
            }
            sweep_down(cells, start, width, Some(&down[y - 1]))
        };
        down.push(row);
        start = start + width;
        y = y + 1;
    }
    let ghost settled = Seq::new(height as nat, |i: int| down@[i]@);
    let ghost mut up: Seq<Reach> = settled;
    let ghost painted = cells@;
    let mut filled: u64 = 0;
    let mut unfilled: u64 = 0;
    let mut below: Option<Row> = None;
    proof {
        assert(first.subrange(h * w, h * w) =~= Seq::<u32>::empty());
    }
    while y > 0
        invariant
            y <= height,
            w == width,
            h == height,
            start == y * w,
            first.len() == h * w,
            first.len() <= usize::MAX,
            cells@.len() == first.len(),
            lines == lines_of(first, w, h),
            settled.len() == h,
            down@.len() == y,
            forall|i: int| 0 <= i < y ==> (#[trigger] down@[i])@ == settled[i],
            forall|i: int|
                #![trigger settled[i]]
                0 <= i < h ==> swept_down(lines[i], above_of(settled, i), settled[i]),
            up.len() == h,
            forall|i: int| #![trigger up[i]] y <= i < h ==> swept_up(settled[i], below_of(up, i), up[i]),
            y < h ==> (below matches Some(under) && under@ == up[y as int]),
            y == h ==> below is None,
            forall|i: int| 0 <= i < y * w ==> #[trigger] cells@[i] == first[i],
            forall|i: int, j: int|
                #![trigger up[j].distance[i]]
                0 <= i < w && y <= j < h ==> cells@[j * w + i] == repainted(
                    first[j * w + i],
                    up[j].distance[i],
                    up[j].nearest[i],
                    cap,
                ),
            filled + unfilled == nulls(first.subrange(y * w, h * w)),
            unfilled == nulls(cells@.subrange(y * w, h * w)),
            filled + unfilled <= h * w - y * w,
        decreases y,
    {
        y = y - 1;
        proof {
            lemma_line_bounds(w, h, y as int);
            assert(lines[y as int] == line_of(first, w, y as int));
            assert(swept_down(lines[y as int], above_of(settled, y as int), settled[y as int]));
            assert(down@[y as int]@ == settled[y as int]);
            if y + 1 < h {
                assert(swept_up(settled[y + 1], below_of(up, y + 1), up[y + 1]));
                assert(swept_down(lines[y + 1], above_of(settled, y + 1), settled[y + 1]));
                assert(lines[y + 1] == line_of(first, w, y + 1));
                lemma_line_bounds(w, h, y + 1);
            }
        }
        start = start - width;
        let popped = down.pop();
        let mut row = popped.unwrap();
        let ghost before = cells@;
        let counts = sweep_up(
            cells,
            start,
            &mut row,
            match &below {
                Some(under) => Some(under),
                None => None,
            },
            cap,
        );
        proof {
            lemma_nulls_of_line(first, before, cells@, w, h, y as int, cap, row@);
        }
        filled = filled + counts.0;
        unfilled = unfilled + counts.1;
        proof {
            lemma_line_repainted(first, before, cells@, w, h, y as int, cap, settled, up, row@);
            up = up.update(y as int, row@);
        }
        below = Some(row);
    }
    proof {
        lemma_raster_filled(first, cells@, w, h, cap, settled, up);
        assert(first.subrange(0, h * w) =~= first);
        assert(cells@.subrange(0, h * w) =~= cells@);
    }
    (filled, unfilled)
}

/// Once every line is repainted the raster is filled.
proof fn lemma_raster_filled(
    first: Seq<u32>,
    after: Seq<u32>,
    w: int,
    h: int,
    cap: u16,
    down: Seq<Reach>,
    up: Seq<Reach>,
)
    requires
        0 <= w,
        0 <= h,
        first.len() == h * w,
        down.len() == h,
        up.len() == h,
        forall|i: int|
            #![trigger down[i]]
            0 <= i < h ==> swept_down(lines_of(first, w, h)[i], above_of(down, i), down[i]),
        forall|i: int| #![trigger up[i]] 0 <= i < h ==> swept_up(down[i], below_of(up, i), up[i]),
        forall|i: int, j: int|
            #![trigger up[j].distance[i]]
            0 <= i < w && 0 <= j < h ==> after[j * w + i] == repainted(
                first[j * w + i],
                up[j].distance[i],
                up[j].nearest[i],
                cap,
            ),
    ensures
        sweeps_leave(first, w, h, cap, down, up, after),
        forall|i: int|
            #![trigger after[i]]
            0 <= i < first.len() ==> fills(
                lines_of(first, w, h),
                w,
                lattice::column_of(w, i),
                lattice::row_of(w, i),
                cap,
                after[i],
            ),
{
    let lines = lines_of(first, w, h);
    assert forall|j: int| 0 <= j < lines.len() implies (#[trigger] lines[j]).len() == w by {
        lemma_line_bounds(w, h, j);
    }
    assert(swept(lines, w, down, up));
    assert(sweeps_leave(first, w, h, cap, down, up, after));
    assert forall|i: int| #![trigger after[i]] 0 <= i < first.len() implies fills(
        lines,
        w,
        lattice::column_of(w, i),
        lattice::row_of(w, i),
        cap,
        after[i],
    ) by {
        lemma_texel_filled(first, after, w, h, cap, down, up, i);
    }
}

proof fn lemma_texel_filled(
    first: Seq<u32>,
    after: Seq<u32>,
    w: int,
    h: int,
    cap: u16,
    down: Seq<Reach>,
    up: Seq<Reach>,
    i: int,
)
    requires
        0 <= w,
        0 <= h,
        0 <= i < first.len(),
        first.len() == h * w,
        sweeps_leave(first, w, h, cap, down, up, after),
    ensures
        fills(lines_of(first, w, h), w, lattice::column_of(w, i), lattice::row_of(w, i), cap, after[i]),
{
    assert(0 < w && h * w == w * h) by (nonlinear_arith)
        requires
            0 <= i < h * w,
            0 <= w,
            0 <= h,
    ;
    lattice::lemma_cell_inside(w, h, i);
    let (x, y) = (lattice::column_of(w, i), lattice::row_of(w, i));
    let lines = lines_of(first, w, h);
    the_fill_takes_the_nearest_cover(lines, w, down, up, cap, x, y);
    lemma_line_bounds(w, h, y);
    assert(lines[y][x] == first[y * w + x]);
    assert(after[y * w + x] == repainted(first[y * w + x], up[y].distance[x], up[y].nearest[x], cap));
}

/// Whether a line has just been repainted and the rest left alone.
spec fn line_repainted(before: Seq<u32>, after: Seq<u32>, width: int, y: int, cap: u16, row: Reach) -> bool {
    &&& after.len() == before.len()
    &&& row.distance.len() == width
    &&& forall|i: int|
        #![trigger after[i]]
        0 <= i < before.len() ==> after[i] == if y * width <= i < y * width + width {
            repainted(before[i], row.distance[i - y * width], row.nearest[i - y * width], cap)
        } else {
            before[i]
        }
}

/// The nulls of a raster from one line on are those of the line and those after.
proof fn lemma_nulls_of_line(
    first: Seq<u32>,
    before: Seq<u32>,
    after: Seq<u32>,
    w: int,
    h: int,
    y: int,
    cap: u16,
    row: Reach,
)
    requires
        0 <= w,
        0 <= y < h,
        first.len() == h * w,
        before.len() == h * w,
        line_repainted(before, after, w, y, cap, row),
        forall|i: int| 0 <= i < (y + 1) * w ==> #[trigger] before[i] == first[i],
    ensures
        nulls(first.subrange(y * w, h * w)) == nulls(before.subrange(y * w, y * w + w)) + nulls(
            first.subrange((y + 1) * w, h * w),
        ),
        nulls(after.subrange(y * w, h * w)) == nulls(after.subrange(y * w, y * w + w)) + nulls(
            before.subrange((y + 1) * w, h * w),
        ),
        nulls(before.subrange(y * w, y * w + w)) <= w,
{
    lemma_line_bounds(w, h, y);
    let here = before.subrange(y * w, y * w + w);
    let there = after.subrange(y * w, y * w + w);
    assert(first.subrange(y * w, h * w) =~= here + first.subrange((y + 1) * w, h * w));
    assert(after.subrange(y * w, h * w) =~= there + before.subrange((y + 1) * w, h * w));
    lemma_nulls_of_two(here, first.subrange((y + 1) * w, h * w));
    lemma_nulls_of_two(there, before.subrange((y + 1) * w, h * w));
    lemma_nulls_fit(here);
}

/// With one more line repainted, the lines from it on are what the sweeps leave.
proof fn lemma_line_repainted(
    first: Seq<u32>,
    before: Seq<u32>,
    after: Seq<u32>,
    w: int,
    h: int,
    y: int,
    cap: u16,
    down: Seq<Reach>,
    up: Seq<Reach>,
    row: Reach,
)
    requires
        0 <= w,
        0 <= y < h,
        first.len() == h * w,
        before.len() == h * w,
        up.len() == h,
        line_repainted(before, after, w, y, cap, row),
        swept_up(down[y], below_of(up, y), row),
        forall|i: int| #![trigger up[i]] y < i < h ==> swept_up(down[i], below_of(up, i), up[i]),
        forall|i: int| 0 <= i < (y + 1) * w ==> #[trigger] before[i] == first[i],
        forall|i: int, j: int|
            #![trigger up[j].distance[i]]
            0 <= i < w && y < j < h ==> before[j * w + i] == repainted(
                first[j * w + i],
                up[j].distance[i],
                up[j].nearest[i],
                cap,
            ),
    ensures
        forall|i: int| 0 <= i < y * w ==> #[trigger] after[i] == first[i],
        forall|i: int|
            #![trigger up.update(y, row)[i]]
            y <= i < h ==> swept_up(down[i], below_of(up.update(y, row), i), up.update(y, row)[i]),
        forall|i: int, j: int|
            #![trigger up.update(y, row)[j].distance[i]]
            0 <= i < w && y <= j < h ==> after[j * w + i] == repainted(
                first[j * w + i],
                up.update(y, row)[j].distance[i],
                up.update(y, row)[j].nearest[i],
                cap,
            ),
{
    lemma_line_bounds(w, h, y);
    let new_up = up.update(y, row);
    assert forall|i: int|
        #![trigger new_up[i]]
        y <= i < h implies swept_up(down[i], below_of(new_up, i), new_up[i]) by {
        assert(below_of(new_up, i) == below_of(up, i));
        if i > y {
            assert(up[i] == new_up[i]);
        }
    }
    assert forall|i: int, j: int|
        #![trigger new_up[j].distance[i]]
        0 <= i < w && y <= j < h implies after[j * w + i] == repainted(
        first[j * w + i],
        new_up[j].distance[i],
        new_up[j].nearest[i],
        cap,
    ) by {
        lemma_line_bounds(w, h, j);
        if j > y {
            assert(up[j].distance[i] == new_up[j].distance[i]);
            lemma_later_line(w, y, j);
        }
    }
}

proof fn lemma_nulls_fit(line: Seq<u32>)
    ensures
        nulls(line) <= line.len(),
    decreases line.len(),
{
    if line.len() > 0 {
        lemma_nulls_fit(line.drop_last());
    }
}

proof fn lemma_later_line(width: int, y: int, j: int)
    requires
        0 <= width,
        y < j,
    ensures
        (y + 1) * width <= j * width,
{
    assert((y + 1) * width <= j * width) by (nonlinear_arith)
        requires
            y + 1 <= j,
            0 <= width,
    ;
}

/// One byte of a value, the lowest first.
pub open spec fn byte_of(value: int, place: int) -> int {
    if place == 0 {
        value % 256
    } else if place == 1 {
        (value / 0x100) % 256
    } else if place == 2 {
        (value / 0x1_0000) % 256
    } else {
        (value / 0x100_0000) % 256
    }
}

/// How many ids there is room for behind the distances of a spilled row.
pub open spec fn ids_stored(bytes: int, distances: int, ids: int) -> int {
    let room = (bytes - 2 * distances) / 4;
    if ids <= room {
        ids
    } else {
        room
    }
}

/// Whether bytes hold a row: the distances, then the ids, little-endian.
pub open spec fn spells(bytes: Seq<u8>, distance: Seq<u16>, nearest: Seq<u32>) -> bool {
    let split = 2 * distance.len() as int;
    &&& forall|i: int|
        #![trigger distance[i]]
        0 <= i < distance.len() ==> bytes[2 * i] == byte_of(distance[i] as int, 0) && bytes[2 * i + 1] == byte_of(
            distance[i] as int,
            1,
        )
    &&& forall|i: int|
        #![trigger nearest[i]]
        0 <= i < ids_stored(bytes.len() as int, distance.len() as int, nearest.len() as int) ==> {
            &&& bytes[split + 4 * i] == byte_of(nearest[i] as int, 0)
            &&& bytes[split + 4 * i + 1] == byte_of(nearest[i] as int, 1)
            &&& bytes[split + 4 * i + 2] == byte_of(nearest[i] as int, 2)
            &&& bytes[split + 4 * i + 3] == byte_of(nearest[i] as int, 3)
        }
}

/// One spill row: the distances, then the ids, little-endian.
pub fn encode_row(distance: &[u16], nearest: &[u32], bytes: &mut Vec<u8>)
    requires
        2 * distance@.len() <= old(bytes)@.len(),
    ensures
        final(bytes)@.len() == old(bytes)@.len(),
        spells(final(bytes)@, distance@, nearest@),
        forall|i: int|
            #![trigger final(bytes)@[i]]
            2 * distance@.len() + 4 * ids_stored(
                old(bytes)@.len() as int,
                distance@.len() as int,
                nearest@.len() as int,
            ) <= i < old(bytes)@.len() ==> final(bytes)@[i] == old(bytes)@[i],
{
    let ghost count = bytes@.len() as int;
    let size: usize = bytes.len();
    let mut i: usize = 0;
    while i < distance.len()
        invariant
            i <= distance@.len(),
            2 * distance@.len() <= count,
            size == count,
            bytes@.len() == count,
            forall|k: int|
                #![trigger distance@[k]]
                0 <= k < i ==> bytes@[2 * k] == byte_of(distance@[k] as int, 0) && bytes@[2 * k + 1] == byte_of(
                    distance@[k] as int,
                    1,
                ),
            forall|k: int| 2 * i <= k < count ==> #[trigger] bytes@[k] == old(bytes)@[k],
        decreases distance@.len() - i,
    {
        let value: u16 = distance[i];
        bytes[2 * i] = (value % 256) as u8;
        bytes[2 * i + 1] = (value / 256) as u8;
        i = i + 1;
    }
    let split: usize = 2 * distance.len();
    let room: usize = (size - split) / 4;
    let stored: usize = if nearest.len() <= room {
        nearest.len()
    } else {
        room
    };
    let mut i: usize = 0;
    while i < stored
        invariant
            i <= stored,
            stored <= nearest@.len(),
            split == 2 * distance@.len(),
            split + 4 * stored <= count,
            stored == ids_stored(count, distance@.len() as int, nearest@.len() as int),
            size == count,
            bytes@.len() == count,
            forall|k: int|
                #![trigger distance@[k]]
                0 <= k < distance@.len() ==> bytes@[2 * k] == byte_of(distance@[k] as int, 0) && bytes@[2 * k + 1]
                    == byte_of(distance@[k] as int, 1),
            forall|k: int|
                #![trigger nearest@[k]]
                0 <= k < i ==> {
                    &&& bytes@[split + 4 * k] == byte_of(nearest@[k] as int, 0)
                    &&& bytes@[split + 4 * k + 1] == byte_of(nearest@[k] as int, 1)
                    &&& bytes@[split + 4 * k + 2] == byte_of(nearest@[k] as int, 2)
                    &&& bytes@[split + 4 * k + 3] == byte_of(nearest@[k] as int, 3)
                },
            forall|k: int| split + 4 * i <= k < count ==> #[trigger] bytes@[k] == old(bytes)@[k],
        decreases stored - i,
    {
        let value: u32 = nearest[i];
        let at: usize = split + 4 * i;
        bytes[at] = (value % 256) as u8;
        bytes[at + 1] = (value / 0x100 % 256) as u8;
        bytes[at + 2] = (value / 0x1_0000 % 256) as u8;
        bytes[at + 3] = (value / 0x100_0000) as u8;
        i = i + 1;
    }
}

fn half_word(a: u8, b: u8) -> (value: u16)
    ensures
        byte_of(value as int, 0) == a,
        byte_of(value as int, 1) == b,
{
    a as u16 + 0x100 * (b as u16)
}

fn whole_word(a: u8, b: u8, c: u8, d: u8) -> (value: u32)
    ensures
        byte_of(value as int, 0) == a,
        byte_of(value as int, 1) == b,
        byte_of(value as int, 2) == c,
        byte_of(value as int, 3) == d,
{
    a as u32 + 0x100 * (b as u32) + 0x1_0000 * (c as u32) + 0x100_0000 * (d as u32)
}

/// Reads a spilled row back.
pub fn decode_row(bytes: &[u8], distance: &mut Vec<u16>, nearest: &mut Vec<u32>)
    requires
        2 * old(distance)@.len() <= bytes@.len(),
    ensures
        final(distance)@.len() == old(distance)@.len(),
        final(nearest)@.len() == old(nearest)@.len(),
        spells(bytes@, final(distance)@, final(nearest)@),
        forall|i: int|
            #![trigger final(nearest)@[i]]
            ids_stored(bytes@.len() as int, old(distance)@.len() as int, old(nearest)@.len() as int) <= i < old(
                nearest,
            )@.len() ==> final(nearest)@[i] == old(nearest)@[i],
{
    let count: usize = distance.len();
    let size: usize = bytes.len();
    let mut i: usize = 0;
    while i < count
        invariant
            i <= count,
            2 * count <= size,
            size == bytes@.len(),
            distance@.len() == count,
            nearest@ == old(nearest)@,
            forall|k: int|
                #![trigger distance@[k]]
                0 <= k < i ==> bytes@[2 * k] == byte_of(distance@[k] as int, 0) && bytes@[2 * k + 1] == byte_of(
                    distance@[k] as int,
                    1,
                ),
        decreases count - i,
    {
        let (low, high): (u8, u8) = (bytes[2 * i], bytes[2 * i + 1]);
        distance[i] = half_word(low, high);
        i = i + 1;
    }
    let split: usize = 2 * count;
    let room: usize = (size - split) / 4;
    let stored: usize = if nearest.len() <= room {
        nearest.len()
    } else {
        room
    };
    let mut i: usize = 0;
    while i < stored
        invariant
            i <= stored,
            distance@.len() == count,
            split == 2 * count,
            split + 4 * stored <= size,
            size == bytes@.len(),
            stored <= nearest@.len(),
            nearest@.len() == old(nearest)@.len(),
            stored == ids_stored(bytes@.len() as int, count as int, nearest@.len() as int),
            forall|k: int|
                #![trigger distance@[k]]
                0 <= k < count ==> bytes@[2 * k] == byte_of(distance@[k] as int, 0) && bytes@[2 * k + 1] == byte_of(
                    distance@[k] as int,
                    1,
                ),
            forall|k: int|
                #![trigger nearest@[k]]
                0 <= k < i ==> {
                    &&& bytes@[split + 4 * k] == byte_of(nearest@[k] as int, 0)
                    &&& bytes@[split + 4 * k + 1] == byte_of(nearest@[k] as int, 1)
                    &&& bytes@[split + 4 * k + 2] == byte_of(nearest@[k] as int, 2)
                    &&& bytes@[split + 4 * k + 3] == byte_of(nearest@[k] as int, 3)
                },
            forall|k: int| i <= k < nearest@.len() ==> #[trigger] nearest@[k] == old(nearest)@[k],
        decreases stored - i,
    {
        let at: usize = split + 4 * i;
        let (a, b, c, d): (u8, u8, u8, u8) = (bytes[at], bytes[at + 1], bytes[at + 2], bytes[at + 3]);
        nearest[i] = whole_word(a, b, c, d);
        i = i + 1;
    }
}

/// A value is settled by its bytes.
proof fn lemma_bytes_settle_a_value(a: int, b: int)
    requires
        0 <= a <= u32::MAX,
        0 <= b <= u32::MAX,
        byte_of(a, 0) == byte_of(b, 0),
        byte_of(a, 1) == byte_of(b, 1),
        byte_of(a, 2) == byte_of(b, 2),
        byte_of(a, 3) == byte_of(b, 3),
    ensures
        a == b,
{
    lemma_value_of_bytes(a);
    lemma_value_of_bytes(b);
}

proof fn lemma_value_of_bytes(value: int)
    requires
        0 <= value <= u32::MAX,
    ensures
        value == byte_of(value, 0) + 0x100 * byte_of(value, 1) + 0x1_0000 * byte_of(value, 2) + 0x100_0000 * byte_of(
            value,
            3,
        ),
{
    assert(value / 0x1_0000 == value / 0x100 / 0x100);
    assert(value / 0x100_0000 == value / 0x1_0000 / 0x100);
}

/// A spilled row comes back as it went: bytes with room for a whole row spell
/// no other.
pub proof fn a_spilled_row_comes_back(
    bytes: Seq<u8>,
    distance: Seq<u16>,
    nearest: Seq<u32>,
    read_distance: Seq<u16>,
    read_nearest: Seq<u32>,
)
    requires
        distance.len() == read_distance.len(),
        nearest.len() == distance.len(),
        read_nearest.len() == distance.len(),
        bytes.len() == SPILL_BYTES * distance.len(),
        spells(bytes, distance, nearest),
        spells(bytes, read_distance, read_nearest),
    ensures
        read_distance == distance,
        read_nearest == nearest,
{
    assert forall|i: int| 0 <= i < distance.len() implies read_distance[i] == distance[i] by {
        let (a, b) = (distance[i] as int, read_distance[i] as int);
        assert(byte_of(a, 0) == byte_of(b, 0) && byte_of(a, 1) == byte_of(b, 1));
        lemma_bytes_settle_a_value(a, b);
    }
    assert forall|i: int| 0 <= i < nearest.len() implies read_nearest[i] == nearest[i] by {
        let (a, b) = (nearest[i] as int, read_nearest[i] as int);
        assert(byte_of(a, 0) == byte_of(b, 0) && byte_of(a, 1) == byte_of(b, 1) && byte_of(a, 2) == byte_of(b, 2)
            && byte_of(a, 3) == byte_of(b, 3));
        lemma_bytes_settle_a_value(a, b);
    }
    assert(read_distance =~= distance);
    assert(read_nearest =~= nearest);
}

/// The cover that spreads is every id but null and those of the water block.
pub proof fn everything_but_water_spreads(id: u32)
    ensures
        is_cover(id) <==> id != 0 && !(256 <= id <= 511),
{
}

/// How long a way is that takes so many steps along a side and so many across a
/// corner.
pub open spec fn way_of(sides: int, corners: int) -> int {
    3 * sides + 4 * corners
}

/// The distance over an offset is the shortest way over it: across corners as
/// far as both axes have ground to cover, and along the longer one from there.
/// It is the same the other way round and with the axes exchanged, and a step
/// changes it by no more than the step is long.
pub proof fn a_distance_is_the_shortest_way(dx: int, dy: int)
    ensures
        0 <= dy <= dx ==> chamfer(dx, dy) == way_of(dx - dy, dy),
        chamfer(dx, dy) == chamfer(-dx, dy),
        chamfer(dx, dy) == chamfer(dx, -dy),
        chamfer(dx, dy) == chamfer(dy, dx),
        chamfer(dx + 1, dy) <= chamfer(dx, dy) + 3,
        chamfer(dx + 1, dy + 1) <= chamfer(dx, dy) + 4,
        chamfer(dx, dy) >= 0,
        chamfer(dx, dy) == 0 <==> dx == 0 && dy == 0,
{
}

/// A null texel is filled with the nearest cover in reach, and with nothing where
/// there is none: what it takes lies within the cap, no cover lies nearer, and it
/// stays empty only where no cover lies within the cap.
pub proof fn a_null_texel_takes_what_lies_nearest(
    lines: Seq<Seq<u32>>,
    width: int,
    x: int,
    y: int,
    cap: u16,
    id: u32,
    tx: int,
    ty: int,
)
    requires
        fills(lines, width, x, y, cap, id),
        lines[y][x] == 0,
        0 <= tx < width,
        0 <= ty < lines.len(),
        lines[ty][tx] != 0,
        !(256 <= lines[ty][tx] <= 511),
        chamfer(x - tx, y - ty) <= cap,
        chamfer(x - tx, y - ty) < 0xffff,
    ensures
        exists|sx: int, sy: int| {
            &&& 0 <= sx < width
            &&& 0 <= sy < lines.len()
            &&& #[trigger] lines[sy][sx] == id
            &&& chamfer(x - sx, y - sy) <= chamfer(x - tx, y - ty)
        },
        id != 0,
        !(256 <= id <= 511),
{
    assert(covered(lines, width, tx, ty));
    let distance = choose|distance: int|
        distance <= cap && distance < FAR && #[trigger] nearest_cover(lines, width, x, y, distance, id);
    assert(nearest_cover(lines, width, x, y, distance, id));
    let (sx, sy) = choose|sx: int, sy: int| #[trigger]
        covered(lines, width, sx, sy) && chamfer(x - sx, y - sy) == distance && lines[sy][sx] == id;
    assert(lines[sy][sx] == id);
}

/// What the fill adds comes from cover within the cap; nothing mapped is touched.
pub proof fn a_fill_adds_nothing_from_beyond_the_cap(
    lines: Seq<Seq<u32>>,
    width: int,
    x: int,
    y: int,
    cap: u16,
    id: u32,
)
    requires
        fills(lines, width, x, y, cap, id),
    ensures
        lines[y][x] != 0 ==> id == lines[y][x],
        lines[y][x] == 0 && id != 0 ==> exists|sx: int, sy: int| {
            &&& 0 <= sx < width
            &&& 0 <= sy < lines.len()
            &&& #[trigger] lines[sy][sx] == id
            &&& chamfer(x - sx, y - sy) <= cap
        },
{
    if lines[y][x] == 0 && id != 0 {
        let distance = choose|distance: int|
            distance <= cap && distance < FAR && #[trigger] nearest_cover(lines, width, x, y, distance, id);
        assert(nearest_cover(lines, width, x, y, distance, id));
        let (sx, sy) = choose|sx: int, sy: int| #[trigger]
            covered(lines, width, sx, sy) && chamfer(x - sx, y - sy) == distance && lines[sy][sx] == id;
        assert(lines[sy][sx] == id);
    }
}

/// How far cover is by way of a texel of a row and a step from there, up to the
/// furthest a distance can say; as far as that where the row has no such texel.
pub open spec fn by_way_of(row: Option<Reach>, x: int, step: int) -> int {
    match row {
        Some(row) => if 0 <= x < row.distance.len() && row.distance[x] + step < 0xffff {
            row.distance[x] + step
        } else {
            0xffff
        },
        None => 0xffff,
    }
}

/// Going down, a texel that is no cover is as far from it as the shortest of the
/// ways by the texel above, the two beside that, and the one to its west; and of
/// ways as short as each other the first of these settles whose cover it is.
pub proof fn the_downward_sweep_takes_the_shortest_way(line: Seq<u32>, above: Option<Reach>, row: Reach, x: int)
    requires
        swept_down(line, above, row),
        0 <= x < line.len(),
        above matches Some(over) ==> over.distance.len() == line.len() && over.nearest.len() == line.len(),
        !is_cover(line[x]),
    ensures
        ({
            let straight = by_way_of(above, x, 3);
            let west = by_way_of(above, x - 1, 4);
            let east = by_way_of(above, x + 1, 4);
            let before = by_way_of(Some(row), x - 1, 3);
            &&& row.distance[x] <= straight && row.distance[x] <= west && row.distance[x] <= east && row.distance[x]
                <= before
            &&& row.distance[x] == straight || row.distance[x] == west || row.distance[x] == east || row.distance[x]
                == before
            &&& row.distance[x] < 0xffff ==> row.nearest[x] == if row.distance[x] == straight {
                above->0.nearest[x]
            } else if row.distance[x] == west {
                above->0.nearest[x - 1]
            } else if row.distance[x] == east {
                above->0.nearest[x + 1]
            } else {
                row.nearest[x - 1]
            }
            &&& row.distance[x] == 0xffff ==> row.nearest[x] == 0
        }),
{
    assert((row.distance[x], row.nearest[x]) == settled_down(line, above, row, x));
    if x > 0 {
        assert(row.distance[x - 1] >= 0);
    }
}

/// Cover is no distance from itself.
pub proof fn cover_is_no_distance_from_itself(line: Seq<u32>, above: Option<Reach>, row: Reach, x: int)
    requires
        swept_down(line, above, row),
        0 <= x < line.len(),
        is_cover(line[x]),
    ensures
        row.distance[x] == 0,
        row.nearest[x] == line[x],
{
    assert((row.distance[x], row.nearest[x]) == settled_down(line, above, row, x));
}

/// Going up, a texel keeps what it has unless one of the ways by the texel below,
/// the two beside that, and the one to its east is shorter; and of ways as short
/// as each other the first of these settles whose cover it is.
pub proof fn the_upward_sweep_takes_only_a_shorter_way(before: Reach, below: Option<Reach>, row: Reach, x: int)
    requires
        swept_up(before, below, row),
        0 <= x < row.distance.len(),
        below matches Some(under) ==> under.distance.len() == row.distance.len() && under.nearest.len()
            == row.distance.len(),
    ensures
        ({
            let straight = by_way_of(below, x, 3);
            let west = by_way_of(below, x - 1, 4);
            let east = by_way_of(below, x + 1, 4);
            let after = by_way_of(Some(row), x + 1, 3);
            let had = before.distance[x];
            &&& row.distance[x] <= had
            &&& row.distance[x] <= straight && row.distance[x] <= west && row.distance[x] <= east && row.distance[x]
                <= after
            &&& row.distance[x] == had || row.distance[x] == straight || row.distance[x] == west || row.distance[x]
                == east || row.distance[x] == after
            &&& row.nearest[x] == if row.distance[x] == had {
                before.nearest[x]
            } else if row.distance[x] == straight {
                below->0.nearest[x]
            } else if row.distance[x] == west {
                below->0.nearest[x - 1]
            } else if row.distance[x] == east {
                below->0.nearest[x + 1]
            } else {
                row.nearest[x + 1]
            }
        }),
{
    assert((row.distance[x], row.nearest[x]) == settled_up(before, below, row, x));
    if x + 1 < row.distance.len() {
        assert(row.distance[x + 1] >= 0);
    }
}

/// Only an empty texel is repainted, and only with cover that lies in reach.
pub proof fn only_an_empty_texel_is_repainted(id: u32, distance: u16, nearest: u32, cap: u16)
    ensures
        id != 0 ==> repainted(id, distance, nearest, cap) == id,
        id == 0 && distance <= cap ==> repainted(id, distance, nearest, cap) == nearest,
        id == 0 && distance > cap ==> repainted(id, distance, nearest, cap) == 0,
{
}

/// Nulls are counted texel by texel.
pub proof fn nulls_add_up(a: Seq<u32>, b: Seq<u32>, id: u32)
    ensures
        nulls(a + b) == nulls(a) + nulls(b),
        nulls(seq![id]) == if id == 0 {
            1int
        } else {
            0
        },
        nulls(Seq::empty()) == 0,
    decreases b.len(),
{
    if b.len() == 0 {
        assert(a + b =~= a);
    } else {
        nulls_add_up(a, b.drop_last(), id);
        assert((a + b).drop_last() =~= a + b.drop_last());
        assert((a + b).last() == b.last());
    }
    let one = seq![id];
    assert(one.drop_last() =~= Seq::<u32>::empty());
    assert(one.last() == id);
    assert(nulls(one.drop_last()) == 0);
}

/// The lines of a raster are its rows from the north, each from the west.
pub proof fn a_raster_is_stored_row_by_row(cells: Seq<u32>, width: int, height: int, x: int, y: int)
    requires
        0 <= x < width,
        0 <= y < height,
        cells.len() == height * width,
    ensures
        lines_of(cells, width, height).len() == height,
        lines_of(cells, width, height)[y].len() == width,
        lines_of(cells, width, height)[y][x] == cells[y * width + x],
{
    lemma_line_bounds(width, height, y);
}

/// A value is its bytes, the lowest first, each worth 256 times the one before.
pub proof fn a_value_is_its_bytes_lowest_first(value: int)
    requires
        0 <= value <= u32::MAX,
    ensures
        value == byte_of(value, 0) + 256 * byte_of(value, 1) + 65536 * byte_of(value, 2) + 16777216 * byte_of(value, 3),
        forall|place: int| 0 <= #[trigger] byte_of(value, place) < 256,
{
    lemma_value_of_bytes(value);
}

/// A spilled row is two bytes for each distance and then four for each id, the
/// lowest first; as many ids as there is room for.
pub proof fn a_spilled_row_is_distances_and_then_ids(bytes: Seq<u8>, distance: Seq<u16>, nearest: Seq<u32>, i: int)
    requires
        2 * distance.len() <= bytes.len(),
        spells(bytes, distance, nearest),
        0 <= i,
    ensures
        i < distance.len() ==> distance[i] == bytes[2 * i] + 256 * bytes[2 * i + 1],
        i < nearest.len() && 2 * distance.len() + 4 * i + 4 <= bytes.len() ==> {
            let at = 2 * distance.len() + 4 * i;
            nearest[i] == bytes[at] + 256 * bytes[at + 1] + 65536 * bytes[at + 2] + 16777216 * bytes[at + 3]
        },
{
    if i < distance.len() {
        lemma_value_of_bytes(distance[i] as int);
        assert(distance[i] <= 0xffff);
    }
    if i < nearest.len() && 2 * distance.len() + 4 * i + 4 <= bytes.len() {
        lemma_value_of_bytes(nearest[i] as int);
        assert(i < ids_stored(bytes.len() as int, distance.len() as int, nearest.len() as int));
    }
}

/// The ids stored are as many as there is room for, and no more than there are.
pub proof fn as_many_ids_are_stored_as_fit(bytes: int, distances: int, ids: int)
    requires
        0 <= distances,
        2 * distances <= bytes,
        0 <= ids,
    ensures
        0 <= ids_stored(bytes, distances, ids) <= ids,
        2 * distances + 4 * ids_stored(bytes, distances, ids) <= bytes,
        ids_stored(bytes, distances, ids) < ids ==> 2 * distances + 4 * ids_stored(bytes, distances, ids) + 4 > bytes,
{
}

} // verus!
