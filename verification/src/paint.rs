//! Painting polygons into a band of texels.
//!
//! Polygons paint in one global order: layer, then area descending, then
//! discovery order. Later paints overwrite earlier ones. Area breaks ties
//! within a layer because a polygon that contains another always has the larger
//! boundary; painting the container first lets the contained one show.
//!
//! A polygon is filled even-odd across all its rings. Where its edges cross the
//! centre line of a texel row is told by the first texel whose centre lies at
//! or beyond the crossing.

use vstd::prelude::*;
use crate::lattice;
use crate::order;
use crate::order::stable_order;

verus! {

/// Whether one polygon paints before another.
pub open spec fn paints_before(layers: Seq<u8>, areas: Seq<u64>, a: int, b: int) -> bool {
    ||| layers[a] < layers[b]
    ||| layers[a] == layers[b] && areas[a] > areas[b]
    ||| layers[a] == layers[b] && areas[a] == areas[b] && a < b
}

/// The order polygons paint in, from their layers and the keys of their areas.
pub fn paint_order(layers: &Vec<u8>, areas: &Vec<u64>) -> (painted: Vec<usize>)
    requires
        areas@.len() == layers@.len(),
    ensures
        order::holds_range(painted@, 0, layers@.len() as int),
        forall|i: int, j: int|
            #![trigger painted@[i], painted@[j]]
            0 <= i < j < painted@.len() ==> paints_before(layers@, areas@, painted@[i] as int, painted@[j] as int),
{
    let mut keys: Vec<u128> = Vec::new();
    let mut i: usize = 0;
    while i < layers.len()
        invariant
            i <= layers@.len(),
            areas@.len() == layers@.len(),
            keys@.len() == i,
            forall|k: int|
                0 <= k < i ==> #[trigger] keys@[k] == layers@[k] * 0x1_0000_0000_0000_0000 + (u64::MAX - areas@[k]),
        decreases layers@.len() - i,
    {
        keys.push(layers[i] as u128 * 0x1_0000_0000_0000_0000 + (0xffff_ffff_ffff_ffff - areas[i]) as u128);
        i = i + 1;
    }
    let painted = stable_order(&keys);
    proof {
        assert forall|i: int, j: int|
            #![trigger painted@[i], painted@[j]]
            0 <= i < j < painted@.len() implies paints_before(
            layers@,
            areas@,
            painted@[i] as int,
            painted@[j] as int,
        ) by {
            let (a, b) = (painted@[i] as int, painted@[j] as int);
            assert(order::ahead(keys@, a, b));
            assert(keys@[a] == layers@[a] * 0x1_0000_0000_0000_0000 + (u64::MAX - areas@[a]));
            assert(keys@[b] == layers@[b] * 0x1_0000_0000_0000_0000 + (u64::MAX - areas@[b]));
        }
    }
    painted
}

/// Where an edge crosses a row: the first column at or beyond it.
#[derive(Clone, Copy, Debug)]
pub struct Cut {
    pub row: u32,
    pub column: i64,
}

/// The crossings of a row at or west of a column.
pub open spec fn cuts_upto(cuts: Seq<Cut>, row: int, column: int) -> Set<int> {
    Set::new(|k: int| 0 <= k < cuts.len() && cuts[k].row == row && cuts[k].column <= column)
}

/// The crossings of a row.
pub open spec fn cuts_of(cuts: Seq<Cut>, row: int) -> Set<int> {
    Set::new(|k: int| 0 <= k < cuts.len() && cuts[k].row == row)
}

/// Whether a texel lies inside: an odd number of crossings lie at or west of
/// it, and a crossing east of it ends the span. The unpaired one of an odd row
/// paints nothing.
pub open spec fn inside(cuts: Seq<Cut>, row: int, column: int) -> bool {
    &&& cuts_upto(cuts, row, column).len() % 2 == 1
    &&& cuts_upto(cuts, row, column).len() < cuts_of(cuts, row).len()
}

/// Whether crossings come row by row and west to east, and which stood where.
spec fn sorted_cuts(cuts: Seq<Cut>, sorted: Seq<usize>) -> bool {
    &&& order::holds_range(sorted, 0, cuts.len() as int)
    &&& sorted.no_duplicates()
    &&& forall|i: int, j: int|
        #![trigger sorted[i], sorted[j]]
        0 <= i < j < sorted.len() ==> {
            let (a, b) = (cuts[sorted[i] as int], cuts[sorted[j] as int]);
            a.row < b.row || (a.row == b.row && a.column <= b.column)
        }
}

/// Puts crossings row by row and west to east.
fn sort_cuts(cuts: &Vec<Cut>) -> (sorted: Vec<usize>)
    ensures
        sorted_cuts(cuts@, sorted@),
{
    let mut keys: Vec<u128> = Vec::new();
    let mut i: usize = 0;
    while i < cuts.len()
        invariant
            i <= cuts@.len(),
            keys@.len() == i,
            forall|k: int|
                0 <= k < i ==> #[trigger] keys@[k] == cuts@[k].row * 0x1_0000_0000_0000_0000 + (cuts@[k].column
                    + 0x8000_0000_0000_0000),
        decreases cuts@.len() - i,
    {
        let east: u128 = (cuts[i].column as i128 + 0x8000_0000_0000_0000) as u128;
        keys.push(cuts[i].row as u128 * 0x1_0000_0000_0000_0000 + east);
        i = i + 1;
    }
    let sorted = stable_order(&keys);
    proof {
        assert forall|i: int, j: int|
            #![trigger sorted@[i], sorted@[j]]
            0 <= i < j < sorted@.len() implies sorted@[i] != sorted@[j] && {
            let (a, b) = (cuts@[sorted@[i] as int], cuts@[sorted@[j] as int]);
            a.row < b.row || (a.row == b.row && a.column <= b.column)
        } by {
            let (a, b) = (sorted@[i] as int, sorted@[j] as int);
            assert(order::ahead(keys@, a, b));
            assert(keys@[a] == cuts@[a].row * 0x1_0000_0000_0000_0000 + (cuts@[a].column + 0x8000_0000_0000_0000));
            assert(keys@[b] == cuts@[b].row * 0x1_0000_0000_0000_0000 + (cuts@[b].column + 0x8000_0000_0000_0000));
        }
    }
    sorted
}

/// Whether places from `from` to `to` of the sorted crossings are a whole row.
spec fn is_row(cuts: Seq<Cut>, sorted: Seq<usize>, row: int, from: int, to: int) -> bool {
    &&& 0 <= from <= to <= sorted.len()
    &&& forall|k: int|
        #![trigger sorted[k]]
        0 <= k < sorted.len() ==> (cuts[sorted[k] as int].row == row <==> from <= k < to)
}

/// How many crossings of a row lie at or west of a column, counted along it.
spec fn reached(cuts: Seq<Cut>, sorted: Seq<usize>, column: int, from: int, to: int) -> int
    decreases to - from,
{
    if from < to && cuts[sorted[from] as int].column <= column {
        1 + reached(cuts, sorted, column, from + 1, to)
    } else {
        0
    }
}

proof fn lemma_reached(cuts: Seq<Cut>, sorted: Seq<usize>, column: int, from: int, to: int)
    requires
        0 <= from <= to <= sorted.len(),
    ensures
        0 <= reached(cuts, sorted, column, from, to) <= to - from,
        forall|k: int|
            #![trigger sorted[k]]
            from <= k < from + reached(cuts, sorted, column, from, to) ==> cuts[sorted[k] as int].column <= column,
        from + reached(cuts, sorted, column, from, to) < to ==> cuts[sorted[from + reached(
            cuts,
            sorted,
            column,
            from,
            to,
        )] as int].column > column,
    decreases to - from,
{
    if from < to && cuts[sorted[from] as int].column <= column {
        lemma_reached(cuts, sorted, column, from + 1, to);
    }
}

/// Counting along a row counts its crossings.
proof fn lemma_counted_along(cuts: Seq<Cut>, sorted: Seq<usize>, row: int, column: int, from: int, to: int)
    requires
        sorted_cuts(cuts, sorted),
        is_row(cuts, sorted, row, from, to),
        cuts.len() <= usize::MAX,
    ensures
        cuts_upto(cuts, row, column).len() == reached(cuts, sorted, column, from, to),
        cuts_of(cuts, row).len() == to - from,
{
    lemma_reached(cuts, sorted, column, from, to);
    let count = reached(cuts, sorted, column, from, to);
    lemma_places_counted(cuts, sorted, from, from + count, cuts_upto(cuts, row, column));
    lemma_places_counted(cuts, sorted, from, to, cuts_of(cuts, row));
    assert forall|k: int|
        #![trigger sorted[k]]
        0 <= k < sorted.len() implies (cuts_upto(cuts, row, column).contains(sorted[k] as int) <==> from <= k < from
        + count) by {
        if from + count <= k < to {
            if k > from + count {
                assert(sorted[from + count] != sorted[k]);
            }
            assert(cuts[sorted[from + count] as int].column > column);
        }
    }
}

/// The items that stand at some places are as many as the places.
proof fn lemma_places_counted(cuts: Seq<Cut>, sorted: Seq<usize>, from: int, to: int, items: Set<int>)
    requires
        sorted_cuts(cuts, sorted),
        cuts.len() <= usize::MAX,
        0 <= from <= to <= sorted.len(),
        forall|item: int| #[trigger] items.contains(item) ==> 0 <= item < cuts.len(),
    ensures
        (forall|k: int|
            #![trigger sorted[k]]
            0 <= k < sorted.len() ==> (items.contains(sorted[k] as int) <==> from <= k < to)) ==> items.len() == to
            - from,
{
    if forall|k: int|
        #![trigger sorted[k]]
        0 <= k < sorted.len() ==> (items.contains(sorted[k] as int) <==> from <= k < to) {
        let places = sorted.subrange(from, to).map_values(|at: usize| at as int);
        assert(places.no_duplicates()) by {
            assert forall|i: int, j: int| 0 <= i < places.len() && 0 <= j < places.len() && i != j implies places[i]
                != places[j] by {
                assert(sorted[from + i] != sorted[from + j]);
            }
        }
        places.unique_seq_to_set();
        assert(places.to_set() =~= items) by {
            assert forall|item: int| places.to_set().contains(item) <==> items.contains(item) by {
                if items.contains(item) {
                    assert(sorted.contains(item as usize));
                    let k = choose|k: int| 0 <= k < sorted.len() && sorted[k] == item as usize;
                    assert(items.contains(sorted[k] as int));
                    assert(places[k - from] == item);
                }
                if places.to_set().contains(item) {
                    let k = choose|k: int| 0 <= k < places.len() && places[k] == item;
                    assert(items.contains(sorted[from + k] as int));
                }
            }
        }
    }
}

/// Whether a column lies in a span between a pair of crossings of a row, among
/// the pairs before `upto`.
spec fn in_pair(cuts: Seq<Cut>, sorted: Seq<usize>, column: int, from: int, upto: int) -> bool {
    exists|k: int|
        #![trigger sorted[k]]
        from <= k && k + 1 < upto && (k - from) % 2 == 0 && cuts[sorted[k] as int].column <= column
            < cuts[sorted[k + 1] as int].column
}

/// The pairs of a row bound its inside.
proof fn lemma_pairs_bound_the_inside(
    cuts: Seq<Cut>,
    sorted: Seq<usize>,
    row: int,
    column: int,
    from: int,
    to: int,
)
    requires
        sorted_cuts(cuts, sorted),
        is_row(cuts, sorted, row, from, to),
        cuts.len() <= usize::MAX,
    ensures
        inside(cuts, row, column) <==> in_pair(cuts, sorted, column, from, to),
{
    lemma_counted_along(cuts, sorted, row, column, from, to);
    lemma_reached(cuts, sorted, column, from, to);
    let count = reached(cuts, sorted, column, from, to);
    if inside(cuts, row, column) {
        let k = from + count - 1;
        assert(cuts[sorted[k] as int].column <= column);
        assert(cuts[sorted[k + 1] as int].column > column);
    }
    if in_pair(cuts, sorted, column, from, to) {
        let k = choose|k: int|
            #![trigger sorted[k]]
            from <= k && k + 1 < to && (k - from) % 2 == 0 && cuts[sorted[k] as int].column <= column
                < cuts[sorted[k + 1] as int].column;
        if k >= from + count {
            if k > from + count {
                assert(cuts[sorted[from + count] as int].row == row && cuts[sorted[k] as int].row == row);
            }
        }
        if k + 1 < from + count {
            assert(cuts[sorted[k + 1] as int].column <= column);
        }
        assert(count == k + 1 - from);
    }
}

/// Fills a stretch of texels.
fn fill_stretch(cells: &mut Vec<u32>, from: usize, to: usize, id: u32)
    requires
        from <= to <= old(cells)@.len(),
    ensures
        final(cells)@.len() == old(cells)@.len(),
        forall|i: int|
            #![trigger final(cells)@[i]]
            0 <= i < old(cells)@.len() ==> final(cells)@[i] == if from <= i < to {
                id
            } else {
                old(cells)@[i]
            },
{
    let mut i: usize = from;
    while i < to
        invariant
            from <= i <= to <= cells@.len(),
            cells@.len() == old(cells)@.len(),
            forall|k: int|
                #![trigger cells@[k]]
                0 <= k < cells@.len() ==> cells@[k] == if from <= k < i {
                    id
                } else {
                    old(cells)@[k]
                },
        decreases to - i,
    {
        cells[i] = id;
        i = i + 1;
    }
}

/// A column, held to the raster.
fn clamped(column: i64, low: usize, width: usize) -> (held: usize)
    requires
        low <= width <= u32::MAX,
    ensures
        low <= held <= width,
        column <= low ==> held == low,
        low <= column <= width ==> held == column,
        column >= width ==> held == width,
{
    if column <= low as i64 {
        low
    } else if column >= width as i64 {
        width
    } else {
        column as usize
    }
}

/// Fills the spans of one row.
fn paint_row(
    cells: &mut Vec<u32>,
    width: usize,
    rows: usize,
    cuts: &Vec<Cut>,
    sorted: &Vec<usize>,
    from: usize,
    to: usize,
    row: usize,
    id: u32,
)
    requires
        sorted_cuts(cuts@, sorted@),
        is_row(cuts@, sorted@, row as int, from as int, to as int),
        row < rows,
        width <= u32::MAX,
        old(cells)@.len() == width * rows,
    ensures
        final(cells)@.len() == old(cells)@.len(),
        forall|i: int|
            #![trigger final(cells)@[i]]
            0 <= i < old(cells)@.len() ==> final(cells)@[i] == if row * width <= i < row * width + width && in_pair(
                cuts@,
                sorted@,
                i - row * width,
                from as int,
                to as int,
            ) {
                id
            } else {
                old(cells)@[i]
            },
{
    let ghost before = cells@;
    proof {
        assert(cells.len() <= usize::MAX);
        assert(sorted.len() <= usize::MAX);
        assert(row * width + width <= width * rows) by (nonlinear_arith)
            requires
                row + 1 <= rows,
                0 <= width,
                0 <= row,
        ;
    }
    let line: usize = row * width;
    let mut at: usize = from;
    while to - at >= 2
        invariant
            from <= at <= to <= sorted@.len(),
            sorted@.len() <= usize::MAX,
            (at - from) % 2 == 0,
            sorted_cuts(cuts@, sorted@),
            is_row(cuts@, sorted@, row as int, from as int, to as int),
            width <= u32::MAX,
            line == row * width,
            line + width <= cells@.len() <= usize::MAX,
            cells@.len() == before.len(),
            forall|i: int|
                #![trigger cells@[i]]
                0 <= i < before.len() ==> cells@[i] == if line <= i < line + width && in_pair(
                    cuts@,
                    sorted@,
                    i - line,
                    from as int,
                    at as int,
                ) {
                    id
                } else {
                    before[i]
                },
        decreases to - at,
    {
        let (a, b): (i64, i64) = (cuts[sorted[at]].column, cuts[sorted[at + 1]].column);
        let west: usize = clamped(a, 0, width);
        let east: usize = clamped(b, west, width);
        let ghost painted = cells@;
        fill_stretch(cells, line + west, line + east, id);
        proof {
            assert forall|i: int|
                #![trigger cells@[i]]
                0 <= i < before.len() implies cells@[i] == if line <= i < line + width && in_pair(
                cuts@,
                sorted@,
                i - line,
                from as int,
                at + 2,
            ) {
                id
            } else {
                before[i]
            } by {
                assert(painted[i] == if line <= i < line + width && in_pair(
                    cuts@,
                    sorted@,
                    i - line,
                    from as int,
                    at as int,
                ) {
                    id
                } else {
                    before[i]
                });
                lemma_one_pair_more(cuts@, sorted@, i - line, from as int, at as int);
            }
        }
        at = at + 2;
    }
    proof {
        assert forall|i: int|
            #![trigger cells@[i]]
            0 <= i < before.len() implies (in_pair(cuts@, sorted@, i - line, from as int, at as int) <==> in_pair(
            cuts@,
            sorted@,
            i - line,
            from as int,
            to as int,
        )) by {
            lemma_no_pair_left(cuts@, sorted@, i - line, from as int, at as int, to as int);
        }
    }
}

proof fn lemma_one_pair_more(cuts: Seq<Cut>, sorted: Seq<usize>, column: int, from: int, at: int)
    requires
        0 <= from <= at,
        (at - from) % 2 == 0,
        at + 1 < sorted.len(),
    ensures
        in_pair(cuts, sorted, column, from, at + 2) <==> in_pair(cuts, sorted, column, from, at)
            || cuts[sorted[at] as int].column <= column < cuts[sorted[at + 1] as int].column,
{
    if in_pair(cuts, sorted, column, from, at + 2) {
        let k = choose|k: int|
            #![trigger sorted[k]]
            from <= k && k + 1 < at + 2 && (k - from) % 2 == 0 && cuts[sorted[k] as int].column <= column
                < cuts[sorted[k + 1] as int].column;
        if k != at {
            assert(k + 1 < at);
            assert(sorted[k] == sorted[k]);
        }
    }
    if in_pair(cuts, sorted, column, from, at) {
        let k = choose|k: int|
            #![trigger sorted[k]]
            from <= k && k + 1 < at && (k - from) % 2 == 0 && cuts[sorted[k] as int].column <= column
                < cuts[sorted[k + 1] as int].column;
        assert(k + 1 < at + 2);
    }
}

proof fn lemma_no_pair_left(cuts: Seq<Cut>, sorted: Seq<usize>, column: int, from: int, at: int, to: int)
    requires
        from <= at <= to,
        at + 1 >= to,
        (at - from) % 2 == 0,
    ensures
        in_pair(cuts, sorted, column, from, at) <==> in_pair(cuts, sorted, column, from, to),
{
    if in_pair(cuts, sorted, column, from, to) {
        let k = choose|k: int|
            #![trigger sorted[k]]
            from <= k && k + 1 < to && (k - from) % 2 == 0 && cuts[sorted[k] as int].column <= column
                < cuts[sorted[k + 1] as int].column;
        assert(k + 1 < at);
    }
}

/// Paints a polygon into a band: every texel inside it takes its id, and no
/// other changes.
pub fn paint(cells: &mut Vec<u32>, width: usize, rows: usize, cuts: &Vec<Cut>, id: u32)
    requires
        width <= u32::MAX,
        old(cells)@.len() == width * rows,
        forall|k: int| 0 <= k < cuts@.len() ==> (#[trigger] cuts@[k]).row < rows,
    ensures
        final(cells)@.len() == old(cells)@.len(),
        forall|i: int|
            #![trigger final(cells)@[i]]
            0 <= i < old(cells)@.len() ==> final(cells)@[i] == if inside(
                cuts@,
                lattice::row_of(width as int, i),
                lattice::column_of(width as int, i),
            ) {
                id
            } else {
                old(cells)@[i]
            },
{
    let ghost before = cells@;
    let ghost w = width as int;
    let sorted = sort_cuts(cuts);
    let count: usize = sorted.len();
    let mut at: usize = 0;
    // Rows above `done` are painted.
    let ghost mut done: int = 0;
    while at < count
        invariant
            at <= count,
            count == sorted@.len(),
            count == cuts@.len(),
            w == width,
            width <= u32::MAX,
            before.len() == width * rows,
            cells@.len() == before.len(),
            sorted_cuts(cuts@, sorted@),
            forall|k: int| 0 <= k < cuts@.len() ==> (#[trigger] cuts@[k]).row < rows,
            forall|k: int| #![trigger sorted@[k]] 0 <= k < at ==> cuts@[sorted@[k] as int].row < done,
            forall|k: int| #![trigger sorted@[k]] at <= k < count ==> cuts@[sorted@[k] as int].row >= done,
            forall|i: int|
                #![trigger cells@[i]]
                0 <= i < before.len() ==> cells@[i] == if lattice::row_of(w, i) < done && inside(
                    cuts@,
                    lattice::row_of(w, i),
                    lattice::column_of(w, i),
                ) {
                    id
                } else {
                    before[i]
                },
        decreases count - at,
    {
        let row: u32 = cuts[sorted[at]].row;
        let mut end: usize = at + 1;
        while end < count && cuts[sorted[end]].row == row
            invariant
                at < end <= count,
                count == sorted@.len(),
                count == cuts@.len(),
                sorted_cuts(cuts@, sorted@),
                forall|k: int| #![trigger sorted@[k]] at <= k < end ==> cuts@[sorted@[k] as int].row == row,
            decreases count - end,
        {
            end = end + 1;
        }
        let ghost painted = cells@;
        proof {
            assert(is_row(cuts@, sorted@, row as int, at as int, end as int)) by {
                assert forall|k: int|
                    #![trigger sorted@[k]]
                    0 <= k < count implies (cuts@[sorted@[k] as int].row == row <==> at <= k < end) by {
                    if k < at {
                        assert(cuts@[sorted@[at as int] as int].row >= done);
                    } else if k >= end {
                        assert(cuts@[sorted@[end as int] as int].row != row);
                        assert(cuts@[sorted@[end - 1] as int].row == row);
                        if k > end {
                            assert(sorted@[end as int] != sorted@[k]);
                        }
                    }
                }
            }
        }
        paint_row(cells, width, rows, cuts, &sorted, at, end, row as usize, id);
        proof {
            assert forall|i: int|
                #![trigger cells@[i]]
                0 <= i < before.len() implies cells@[i] == if lattice::row_of(w, i) < row + 1 && inside(
                cuts@,
                lattice::row_of(w, i),
                lattice::column_of(w, i),
            ) {
                id
            } else {
                before[i]
            } by {
                assert(painted[i] == if lattice::row_of(w, i) < done && inside(
                    cuts@,
                    lattice::row_of(w, i),
                    lattice::column_of(w, i),
                ) {
                    id
                } else {
                    before[i]
                });
                lemma_row_painted(cuts@, sorted@, w, rows as int, done, row as int, at as int, end as int, i);
            }
            assert forall|k: int| #![trigger sorted@[k]] end <= k < count implies cuts@[sorted@[k] as int].row >= row
                + 1 by {
                assert(sorted@[at as int] != sorted@[k]);
            }
            assert forall|k: int| #![trigger sorted@[k]] 0 <= k < end implies cuts@[sorted@[k] as int].row < row
                + 1 by {
                if k < at {
                    assert(cuts@[sorted@[at as int] as int].row >= done);
                }
            }
            done = row + 1;
        }
        at = end;
    }
    proof {
        assert forall|i: int|
            #![trigger cells@[i]]
            0 <= i < before.len() implies cells@[i] == if inside(
            cuts@,
            lattice::row_of(w, i),
            lattice::column_of(w, i),
        ) {
            id
        } else {
            before[i]
        } by {
            let r = lattice::row_of(w, i);
            if r >= done {
                lemma_empty_row(cuts@, sorted@, r, lattice::column_of(w, i), done);
            }
        }
    }
}

/// A row no crossing is in has no inside.
proof fn lemma_empty_row(cuts: Seq<Cut>, sorted: Seq<usize>, row: int, column: int, done: int)
    requires
        sorted_cuts(cuts, sorted),
        cuts.len() <= usize::MAX,
        forall|k: int| #![trigger sorted[k]] 0 <= k < sorted.len() ==> cuts[sorted[k] as int].row != row,
    ensures
        !inside(cuts, row, column),
{
    assert(cuts_of(cuts, row) =~= Set::empty()) by {
        assert forall|k: int| !cuts_of(cuts, row).contains(k) by {
            if 0 <= k < cuts.len() {
                assert(sorted.contains(k as usize));
                let at = choose|at: int| 0 <= at < sorted.len() && sorted[at] == k as usize;
                assert(cuts[sorted[at] as int].row != row);
            }
        }
    }
}

/// Painting one row paints its inside and leaves the rows between alone.
proof fn lemma_row_painted(
    cuts: Seq<Cut>,
    sorted: Seq<usize>,
    width: int,
    rows: int,
    done: int,
    row: int,
    from: int,
    to: int,
    i: int,
)
    requires
        sorted_cuts(cuts, sorted),
        is_row(cuts, sorted, row, from, to),
        cuts.len() <= usize::MAX,
        0 <= width,
        0 <= i < width * rows,
        done <= row,
        forall|k: int| #![trigger sorted[k]] 0 <= k < from ==> cuts[sorted[k] as int].row < done,
        forall|k: int| #![trigger sorted[k]] from <= k < sorted.len() ==> cuts[sorted[k] as int].row >= row,
    ensures
        row * width <= i < row * width + width <==> lattice::row_of(width, i) == row,
        lattice::row_of(width, i) == row ==> (in_pair(cuts, sorted, i - row * width, from, to) <==> inside(
            cuts,
            row,
            lattice::column_of(width, i),
        )),
        done <= lattice::row_of(width, i) < row ==> !inside(
            cuts,
            lattice::row_of(width, i),
            lattice::column_of(width, i),
        ),
{
    assert(0 < width) by (nonlinear_arith)
        requires
            0 <= i < width * rows,
            0 <= width,
    ;
    lattice::lemma_cell_inside(width, rows, i);
    let (x, y) = (lattice::column_of(width, i), lattice::row_of(width, i));
    if y == row {
        lemma_pairs_bound_the_inside(cuts, sorted, row, x, from, to);
    } else {
        if y < row {
            assert(y * width + width <= row * width) by (nonlinear_arith)
                requires
                    y + 1 <= row,
                    0 < width,
            ;
        } else {
            assert(row * width + width <= y * width) by (nonlinear_arith)
                requires
                    row + 1 <= y,
                    0 < width,
            ;
        }
    }
    if done <= y < row {
        assert forall|k: int| #![trigger sorted[k]] 0 <= k < sorted.len() implies cuts[sorted[k] as int].row != y by {
            if k >= from {
                assert(cuts[sorted[k] as int].row >= row);
            }
        }
        lemma_empty_row(cuts, sorted, y, x, done);
    }
}

/// The last of the first `upto` polygons painted that a texel lies inside.
pub open spec fn shown(polygons: Seq<Vec<Cut>>, painted: Seq<usize>, upto: int, row: int, column: int) -> Option<int>
    decreases upto,
{
    if upto <= 0 {
        None
    } else if inside(polygons[painted[upto - 1] as int]@, row, column) {
        Some(painted[upto - 1] as int)
    } else {
        shown(polygons, painted, upto - 1, row, column)
    }
}

/// Paints polygons into a band in the order given: a texel takes the id of the
/// last one it lies inside, and keeps what it held where it lies inside none.
pub fn paint_all(
    cells: &mut Vec<u32>,
    width: usize,
    rows: usize,
    polygons: &Vec<Vec<Cut>>,
    ids: &Vec<u32>,
    painted: &Vec<usize>,
)
    requires
        width <= u32::MAX,
        old(cells)@.len() == width * rows,
        ids@.len() == polygons@.len(),
        forall|k: int| 0 <= k < painted@.len() ==> #[trigger] painted@[k] < polygons@.len(),
        forall|p: int, k: int|
            0 <= p < polygons@.len() && 0 <= k < polygons@[p]@.len() ==> (#[trigger] polygons@[p]@[k]).row < rows,
    ensures
        final(cells)@.len() == old(cells)@.len(),
        forall|i: int|
            #![trigger final(cells)@[i]]
            0 <= i < old(cells)@.len() ==> final(cells)@[i] == match shown(
                polygons@,
                painted@,
                painted@.len() as int,
                lattice::row_of(width as int, i),
                lattice::column_of(width as int, i),
            ) {
                Some(polygon) => ids@[polygon],
                None => old(cells)@[i],
            },
{
    let ghost before = cells@;
    let mut at: usize = 0;
    while at < painted.len()
        invariant
            at <= painted@.len(),
            width <= u32::MAX,
            before.len() == width * rows,
            cells@.len() == before.len(),
            ids@.len() == polygons@.len(),
            forall|k: int| 0 <= k < painted@.len() ==> #[trigger] painted@[k] < polygons@.len(),
            forall|p: int, k: int|
                0 <= p < polygons@.len() && 0 <= k < polygons@[p]@.len() ==> (#[trigger] polygons@[p]@[k]).row
                    < rows,
            forall|i: int|
                #![trigger cells@[i]]
                0 <= i < before.len() ==> cells@[i] == match shown(
                    polygons@,
                    painted@,
                    at as int,
                    lattice::row_of(width as int, i),
                    lattice::column_of(width as int, i),
                ) {
                    Some(polygon) => ids@[polygon],
                    None => before[i],
                },
        decreases painted@.len() - at,
    {
        let ghost earlier = cells@;
        let polygon: usize = painted[at];
        paint(cells, width, rows, &polygons[polygon], ids[polygon]);
        proof {
            assert forall|i: int| #![trigger cells@[i]] 0 <= i < before.len() implies cells@[i] == match shown(
                polygons@,
                painted@,
                at + 1,
                lattice::row_of(width as int, i),
                lattice::column_of(width as int, i),
            ) {
                Some(polygon) => ids@[polygon],
                None => before[i],
            } by {
                assert(earlier[i] == match shown(
                    polygons@,
                    painted@,
                    at as int,
                    lattice::row_of(width as int, i),
                    lattice::column_of(width as int, i),
                ) {
                    Some(polygon) => ids@[polygon],
                    None => before[i],
                });
            }
        }
        at = at + 1;
    }
}

/// Of all the polygons a texel lies inside, the one that paints last shows.
pub proof fn the_topmost_polygon_shows(
    polygons: Seq<Vec<Cut>>,
    layers: Seq<u8>,
    areas: Seq<u64>,
    painted: Seq<usize>,
    row: int,
    column: int,
    polygon: int,
)
    requires
        order::holds_range(painted, 0, polygons.len() as int),
        forall|i: int, j: int|
            #![trigger painted[i], painted[j]]
            0 <= i < j < painted.len() ==> paints_before(layers, areas, painted[i] as int, painted[j] as int),
        0 <= polygon < polygons.len(),
        polygons.len() <= usize::MAX,
        inside(polygons[polygon]@, row, column),
        forall|other: int|
            #![trigger polygons[other]]
            0 <= other < polygons.len() && other != polygon && inside(polygons[other]@, row, column)
                ==> paints_before(layers, areas, other, polygon),
    ensures
        shown(polygons, painted, painted.len() as int, row, column) == Some(polygon),
{
    assert(painted.contains(polygon as usize));
    let at = choose|at: int| 0 <= at < painted.len() && painted[at] == polygon as usize;
    assert(painted[at] == polygon);
    assert forall|k: int| at < k < painted.len() implies !inside(
        polygons[(#[trigger] painted[k]) as int]@,
        row,
        column,
    ) by {
        assert(paints_before(layers, areas, painted[at] as int, painted[k] as int));
        let other = painted[k] as int;
        assert(polygons[other] == polygons[other]);
    }
    lemma_shown_beyond(polygons, painted, row, column, at, painted.len() as int);
}

proof fn lemma_shown_beyond(
    polygons: Seq<Vec<Cut>>,
    painted: Seq<usize>,
    row: int,
    column: int,
    at: int,
    upto: int,
)
    requires
        0 <= at < upto <= painted.len(),
        inside(polygons[painted[at] as int]@, row, column),
        forall|k: int| at < k < upto ==> !inside(polygons[(#[trigger] painted[k]) as int]@, row, column),
    ensures
        shown(polygons, painted, upto, row, column) == Some(painted[at] as int),
    decreases upto,
{
    if upto - 1 > at {
        assert(!inside(polygons[painted[upto - 1] as int]@, row, column));
        lemma_shown_beyond(polygons, painted, row, column, at, upto - 1);
    }
}

/// How many crossings of a row there are at or west of a column.
spec fn count_upto(cuts: Seq<Cut>, row: int, column: int) -> int
    decreases cuts.len(),
{
    if cuts.len() == 0 {
        0
    } else {
        count_upto(cuts.drop_last(), row, column) + if cuts.last().row == row && cuts.last().column <= column {
            1int
        } else {
            0int
        }
    }
}

proof fn lemma_count_upto(cuts: Seq<Cut>, row: int, column: int)
    ensures
        cuts_upto(cuts, row, column).finite(),
        cuts_upto(cuts, row, column).len() == count_upto(cuts, row, column),
    decreases cuts.len(),
{
    let all = cuts_upto(cuts, row, column);
    if cuts.len() == 0 {
        assert(all =~= Set::empty());
    } else {
        let fewer = cuts.drop_last();
        lemma_count_upto(fewer, row, column);
        let last = cuts.len() - 1;
        if cuts.last().row == row && cuts.last().column <= column {
            assert(all =~= cuts_upto(fewer, row, column).insert(last));
        } else {
            assert(all =~= cuts_upto(fewer, row, column));
        }
    }
}

proof fn lemma_count_adds(a: Seq<Cut>, b: Seq<Cut>, row: int, column: int)
    ensures
        count_upto(a + b, row, column) == count_upto(a, row, column) + count_upto(b, row, column),
    decreases b.len(),
{
    if b.len() == 0 {
        assert(a + b =~= a);
    } else {
        lemma_count_adds(a, b.drop_last(), row, column);
        assert((a + b).drop_last() =~= a + b.drop_last());
    }
}

/// The crossings of a row are those at or west of its easternmost column.
proof fn lemma_all_cuts(cuts: Seq<Cut>, row: int)
    ensures
        cuts_of(cuts, row) =~= cuts_upto(cuts, row, i64::MAX as int),
{
}

/// A ring inside another cuts a hole: where every ring crosses a row an even
/// number of times, a texel lies inside two of them together exactly when it
/// lies inside one of them and not the other.
pub proof fn rings_fill_even_odd(a: Seq<Cut>, b: Seq<Cut>, row: int, column: int)
    requires
        cuts_of(a, row).len() % 2 == 0,
        cuts_of(b, row).len() % 2 == 0,
    ensures
        inside(a + b, row, column) <==> inside(a, row, column) != inside(b, row, column),
{
    let end = i64::MAX as int;
    lemma_count_upto(a, row, column);
    lemma_count_upto(b, row, column);
    lemma_count_upto(a + b, row, column);
    lemma_count_upto(a, row, end);
    lemma_count_upto(b, row, end);
    lemma_count_upto(a + b, row, end);
    lemma_count_adds(a, b, row, column);
    lemma_count_adds(a, b, row, end);
    lemma_all_cuts(a, row);
    lemma_all_cuts(b, row);
    lemma_all_cuts(a + b, row);
    vstd::set_lib::lemma_len_subset(cuts_upto(a, row, column), cuts_of(a, row));
    vstd::set_lib::lemma_len_subset(cuts_upto(b, row, column), cuts_of(b, row));
    vstd::set_lib::lemma_len_subset(cuts_upto(a + b, row, column), cuts_of(a + b, row));
}

proof fn lemma_count_of_a_sorted_row(cuts: Seq<Cut>, row: int, column: int)
    requires
        forall|k: int| 0 <= k < cuts.len() ==> (#[trigger] cuts[k]).row == row,
        forall|i: int, j: int|
            #![trigger cuts[i], cuts[j]]
            0 <= i < j < cuts.len() ==> cuts[i].column <= cuts[j].column,
    ensures
        0 <= count_upto(cuts, row, column) <= cuts.len(),
        forall|k: int|
            #![trigger cuts[k]]
            0 <= k < cuts.len() ==> (cuts[k].column <= column <==> k < count_upto(cuts, row, column)),
    decreases cuts.len(),
{
    if cuts.len() > 0 {
        let fewer = cuts.drop_last();
        let last = cuts.len() - 1;
        assert forall|k: int| 0 <= k < fewer.len() implies (#[trigger] fewer[k]).row == row by {
            assert(fewer[k] == cuts[k]);
        }
        lemma_count_of_a_sorted_row(fewer, row, column);
        assert(cuts[last].row == row);
        assert forall|k: int| #![trigger cuts[k]] 0 <= k < cuts.len() implies (cuts[k].column <= column <==> k
            < count_upto(cuts, row, column)) by {
            if k < last {
                assert(fewer[k] == cuts[k]);
                assert(cuts[k].column <= cuts[last].column);
            } else if cuts[last].column <= column && fewer.len() > 0 {
                assert(fewer[last - 1] == cuts[last - 1]);
            } else if fewer.len() > 0 {
                assert(count_upto(fewer, row, column) <= last);
            }
        }
        if cuts[last].column <= column && fewer.len() > 0 {
            assert(fewer[last - 1] == cuts[last - 1]);
            assert(cuts[last - 1].column <= cuts[last].column);
        }
    }
}

/// Along a row the crossings are taken in pairs from the west: a texel is inside
/// where it is at or east of the first of a pair and short of the second. One
/// left over bounds nothing.
pub proof fn crossings_are_taken_in_pairs(cuts: Seq<Cut>, row: int, column: int)
    requires
        forall|k: int| 0 <= k < cuts.len() ==> (#[trigger] cuts[k]).row == row,
        forall|i: int, j: int|
            #![trigger cuts[i], cuts[j]]
            0 <= i < j < cuts.len() ==> cuts[i].column <= cuts[j].column,
    ensures
        inside(cuts, row, column) <==> exists|pair: int|
            0 <= pair && 2 * pair + 1 < cuts.len() && #[trigger] cuts[2 * pair].column <= column < cuts[2 * pair
                + 1].column,
{
    lemma_count_of_a_sorted_row(cuts, row, column);
    lemma_count_of_a_sorted_row(cuts, row, i64::MAX as int);
    lemma_count_upto(cuts, row, column);
    lemma_count_upto(cuts, row, i64::MAX as int);
    lemma_all_cuts(cuts, row);
    let count = count_upto(cuts, row, column);
    let all = count_upto(cuts, row, i64::MAX as int);
    if cuts.len() > 0 {
        assert(cuts[cuts.len() - 1].column <= i64::MAX);
    }
    assert(all == cuts.len());
    if inside(cuts, row, column) {
        let pair = (count - 1) / 2;
        assert(2 * pair == count - 1);
        assert(cuts[2 * pair].column <= column < cuts[2 * pair + 1].column);
    }
    if exists|pair: int|
        0 <= pair && 2 * pair + 1 < cuts.len() && #[trigger] cuts[2 * pair].column <= column < cuts[2 * pair
            + 1].column {
        let pair = choose|pair: int|
            0 <= pair && 2 * pair + 1 < cuts.len() && #[trigger] cuts[2 * pair].column <= column < cuts[2 * pair
                + 1].column;
        assert(2 * pair < count <= 2 * pair + 1);
    }
}

/// A crossing of another row changes nothing, wherever it stands in the list,
/// and neither does the order the crossings come in.
pub proof fn a_row_is_painted_from_its_own_crossings(a: Seq<Cut>, other: Cut, b: Seq<Cut>, row: int, column: int)
    requires
        other.row != row,
    ensures
        inside(a.push(other) + b, row, column) <==> inside(a + b, row, column),
        inside(a + b, row, column) <==> inside(b + a, row, column),
{
    let end = i64::MAX as int;
    let with = a.push(other) + b;
    lemma_count_upto(with, row, column);
    lemma_count_upto(with, row, end);
    lemma_count_upto(a + b, row, column);
    lemma_count_upto(a + b, row, end);
    lemma_count_upto(b + a, row, column);
    lemma_count_upto(b + a, row, end);
    lemma_count_adds(a.push(other), b, row, column);
    lemma_count_adds(a.push(other), b, row, end);
    lemma_count_adds(a, b, row, column);
    lemma_count_adds(a, b, row, end);
    lemma_count_adds(b, a, row, column);
    lemma_count_adds(b, a, row, end);
    assert(a.push(other).drop_last() =~= a);
    lemma_all_cuts(with, row);
    lemma_all_cuts(a + b, row);
    lemma_all_cuts(b + a, row);
}

proof fn lemma_what_is_shown(polygons: Seq<Vec<Cut>>, painted: Seq<usize>, upto: int, row: int, column: int) -> (at: int)
    requires
        0 <= upto <= painted.len(),
    ensures
        match shown(polygons, painted, upto, row, column) {
            Some(polygon) => {
                &&& 0 <= at < upto
                &&& painted[at] == polygon
                &&& inside(polygons[polygon]@, row, column)
                &&& forall|k: int| at < k < upto ==> !inside(polygons[(#[trigger] painted[k]) as int]@, row, column)
            },
            None => forall|k: int| 0 <= k < upto ==> !inside(polygons[(#[trigger] painted[k]) as int]@, row, column),
        },
    decreases upto,
{
    if upto <= 0 || inside(polygons[painted[upto - 1] as int]@, row, column) {
        upto - 1
    } else {
        lemma_what_is_shown(polygons, painted, upto - 1, row, column)
    }
}

/// What shows is what lies on top: among the polygons a texel lies inside, one of
/// the highest layer, there one of the smallest area, and there the last that was
/// found. Nothing shows only where the texel lies inside none.
pub proof fn what_shows_lies_on_top(
    polygons: Seq<Vec<Cut>>,
    layers: Seq<u8>,
    areas: Seq<u64>,
    painted: Seq<usize>,
    row: int,
    column: int,
    other: int,
)
    requires
        order::holds_range(painted, 0, polygons.len() as int),
        forall|i: int, j: int|
            #![trigger painted[i], painted[j]]
            0 <= i < j < painted.len() ==> paints_before(layers, areas, painted[i] as int, painted[j] as int),
        0 <= other < polygons.len() <= usize::MAX,
        inside(polygons[other]@, row, column),
    ensures
        shown(polygons, painted, painted.len() as int, row, column) matches Some(top) && {
            &&& inside(polygons[top]@, row, column)
            &&& layers[other] <= layers[top]
            &&& layers[other] == layers[top] ==> areas[other] >= areas[top]
            &&& layers[other] == layers[top] && areas[other] == areas[top] ==> other <= top
        },
{
    let at = lemma_what_is_shown(polygons, painted, painted.len() as int, row, column);
    assert(painted.contains(other as usize));
    let k = choose|k: int| 0 <= k < painted.len() && painted[k] == other as usize;
    assert(painted[k] == other);
    if k < at {
        assert(paints_before(layers, areas, painted[k] as int, painted[at] as int));
    }
}

} // verus!
