//! Running a relaxation of the filled surface until nothing moves.
//!
//! The surface is relaxed downwards from above, and lives in two buffers: every
//! dispatch reads one and writes the other. Whether anything moved is only asked
//! once a batch, because asking drains the queue.

use crate::extent;
use crate::extent::{groups_of, Extent};
use crate::flow;
use crate::lattice;
use vstd::prelude::*;

verus! {

/// Iterations run between two questions whether anything moved.
pub const CHECK_EVERY: u32 = 16;

/// How far along each direction one iteration looks.
pub const REACH: u32 = 16;

/// Cells across the patch a tiled workgroup writes back.
pub const TILE: u32 = 48;

/// Iterations a tiled workgroup runs before it writes its patch back.
pub const PATCH_ITERATIONS: u32 = 8;

/// The most iterations a fill runs before it gives up.
pub const MOST_ITERATIONS: u32 = 8192;

/// What one batch dispatches.
#[derive(Clone, Copy, Debug, PartialEq, Eq)]
pub struct Plan {
    /// Workgroups along each axis.
    pub groups: (u32, u32),
    /// Iterations one dispatch runs.
    pub per_dispatch: u32,
    /// Dispatches in a batch.
    pub dispatches: u32,
}

/// Plans the batches of a fill. A tiled dispatch settles its patches several
/// times over before it writes anything back, so a batch needs fewer of them.
pub fn plan(extent: Extent, tiled: bool) -> (plan: Plan)
    ensures
        plan == planned(extent, tiled),
{
    if tiled {
        Plan {
            groups: (groups_of(extent.width, TILE), groups_of(extent.rows, TILE)),
            per_dispatch: PATCH_ITERATIONS,
            dispatches: 2,
        }
    } else {
        Plan { groups: extent.workgroups(), per_dispatch: 1, dispatches: CHECK_EVERY }
    }
}

/// Cells across what one workgroup covers.
pub open spec fn group_size(tiled: bool) -> int {
    if tiled {
        TILE as int
    } else {
        extent::GROUP as int
    }
}

/// The plan of a fill over a grid.
pub open spec fn planned(extent: Extent, tiled: bool) -> Plan {
    Plan {
        groups: (
            extent::groups_covering(extent.width as int, group_size(tiled)) as u32,
            extent::groups_covering(extent.rows as int, group_size(tiled)) as u32,
        ),
        per_dispatch: if tiled {
            PATCH_ITERATIONS
        } else {
            1
        },
        dispatches: if tiled {
            2
        } else {
            CHECK_EVERY
        },
    }
}

/// What to do once a batch has run.
#[derive(Clone, Copy, Debug, PartialEq, Eq, Structural)]
pub enum Next {
    /// Something moved: run another batch.
    Again,
    /// Nothing moved: the surface is filled.
    Settled,
    /// Still moving after all the iterations allowed: the surface it started
    /// from cannot have been above the answer.
    GaveUp,
}

/// What follows so many iterations.
pub open spec fn decided(iterations: int, changed: u32) -> Next {
    if changed == 0 {
        Next::Settled
    } else if iterations >= MOST_ITERATIONS {
        Next::GaveUp
    } else {
        Next::Again
    }
}

/// How far a fill has come.
#[derive(Clone, Copy, Debug, PartialEq, Eq, Structural)]
pub struct Fill {
    /// Which of the two buffers holds the surface as it stands.
    pub live: usize,
    /// Iterations run so far.
    pub iterations: u32,
}

/// The buffer the dispatch at `at` in a batch reads.
pub open spec fn read_by(live: int, at: int) -> int {
    (live + at) % 2
}

impl Fill {
    /// Whether another batch may run.
    pub open spec fn going(self) -> bool {
        self.live < 2 && self.iterations < MOST_ITERATIONS
    }

    /// Whether only whole batches have run.
    pub open spec fn whole(self) -> bool {
        self.iterations % CHECK_EVERY == 0
    }

    /// A fill whose first surface has just been written: seeding reads the
    /// buffer that was live and writes the other one.
    pub fn seeded(live: usize) -> (fill: Fill)
        requires
            live < 2,
        ensures
            fill.live == 1 - live,
            fill.iterations == 0,
            fill.going(),
            fill.whole(),
    {
        Fill { live: 1 - live, iterations: 0 }
    }

    /// Lists the buffer each dispatch of the next batch reads, and moves on.
    pub fn batch(&mut self, plan: Plan) -> (reads: Vec<usize>)
        requires
            old(self).going(),
            plan.dispatches * plan.per_dispatch == CHECK_EVERY,
        ensures
            reads@.len() == plan.dispatches,
            forall|at: int|
                #![trigger reads@[at]]
                0 <= at < reads@.len() ==> reads@[at] == read_by(old(self).live as int, at),
            final(self).live == read_by(old(self).live as int, plan.dispatches as int),
            final(self).iterations == old(self).iterations + CHECK_EVERY,
            old(self).whole() ==> final(self).whole(),
    {
        let mut reads: Vec<usize> = Vec::new();
        let ghost live = self.live;
        let mut at: u32 = 0;
        while at < plan.dispatches
            invariant
                at <= plan.dispatches,
                live < 2,
                self.live == read_by(live as int, at as int),
                self.iterations == old(self).iterations,
                reads@.len() == at,
                forall|k: int|
                    #![trigger reads@[k]]
                    0 <= k < at ==> reads@[k] == read_by(live as int, k),
            decreases plan.dispatches - at,
        {
            reads.push(self.live);
            self.live = 1 - self.live;
            at = at + 1;
        }
        self.iterations = self.iterations + CHECK_EVERY;
        reads
    }

    /// Decides what follows a batch after which `changed` cells' worth of
    /// movement was counted.
    pub fn next(self, changed: u32) -> (next: Next)
        ensures
            next == decided(self.iterations as int, changed),
    {
        if changed == 0 {
            Next::Settled
        } else if self.iterations >= MOST_ITERATIONS {
            Next::GaveUp
        } else {
            Next::Again
        }
    }
}

/// Either plan runs the same number of iterations between two questions, and
/// its groups reach every cell of the grid.
pub proof fn a_plan_covers_the_grid(extent: Extent, tiled: bool)
    ensures
        planned(extent, tiled).dispatches * planned(extent, tiled).per_dispatch == CHECK_EVERY,
        planned(extent, tiled).groups.0 * group_size(tiled) >= extent.width,
        planned(extent, tiled).groups.1 * group_size(tiled) >= extent.rows,
{
    if tiled {
        assert(planned(extent, true).dispatches == 2);
        assert(planned(extent, true).groups.0 * 48 >= extent.width);
        assert(planned(extent, true).groups.1 * 48 >= extent.rows);
    } else {
        assert(planned(extent, false).dispatches == 16);
        assert(planned(extent, false).groups.0 * 8 >= extent.width);
        assert(planned(extent, false).groups.1 * 8 >= extent.rows);
    }
}

/// Every dispatch of a batch reads what the one before it wrote.
pub proof fn a_dispatch_reads_what_the_last_one_wrote(live: int, at: int)
    requires
        0 <= live < 2,
        0 <= at,
    ensures
        read_by(live, at + 1) == 1 - read_by(live, at),
{
}

/// A fill ends: whatever moves, no batch follows the five hundred and twelfth.
pub proof fn a_fill_ends(batches: int, changed: u32)
    requires
        batches >= 512,
    ensures
        decided(batches * CHECK_EVERY, changed) != Next::Again,
{
}

/// Whether a surface has settled over the ground: the edge lies at its own
/// height, and no cell holds water it could lose over a neighbour.
pub open spec fn settled(width: int, rows: int, heights: Seq<u32>, surface: Seq<u32>) -> bool {
    &&& surface.len() == width * rows
    &&& forall|cell: int|
        #![trigger surface[cell]]
        0 <= cell < width * rows && lattice::on_edge(width, rows, cell) ==> surface[cell] == heights[cell]
    &&& forall|cell: int, beside: int|
        #![trigger surface[cell], surface[beside]]
        0 <= cell < width * rows && 0 <= beside < width * rows && lattice::adjacent(width, cell, beside)
            ==> surface[cell] <= flow::higher(heights[cell], surface[beside])
}

/// A settled surface stands no higher in a cell than the highest ground on any
/// way out of it.
proof fn lemma_settled_below_every_crest(
    width: int,
    rows: int,
    heights: Seq<u32>,
    surface: Seq<u32>,
    path: Seq<int>,
)
    requires
        settled(width, rows, heights, surface),
        flow::leads_out(width, rows, path),
    ensures
        surface[path.first()] <= flow::crest(heights, path),
    decreases path.len(),
{
    assert(0 <= path[0] < width * rows);
    if path.len() == 1 {
        assert(path.last() == path[0]);
        assert(surface[path[0]] == heights[path[0]]);
    } else {
        let rest = path.drop_first();
        assert forall|i: int| 0 <= i < rest.len() implies 0 <= #[trigger] rest[i] < width * rows by {
            assert(rest[i] == path[i + 1]);
        }
        assert forall|i: int|
            #![trigger rest[i]]
            0 < i < rest.len() implies lattice::adjacent(width, rest[i - 1], rest[i]) by {
            assert(rest[i] == path[i + 1]);
            assert(rest[i - 1] == path[i]);
        }
        assert(rest.last() == path.last());
        lemma_settled_below_every_crest(width, rows, heights, surface, rest);
        assert(rest[0] == path[1]);
        assert(lattice::adjacent(width, path[0], path[1]));
        assert(surface[path[0]] <= flow::higher(heights[path[0]], surface[path[1]]));
    }
}

/// A surface that settled from above is the flood's own, cell for cell.
pub proof fn a_surface_settled_from_above_is_the_flood(
    width: int,
    rows: int,
    heights: Seq<u32>,
    filled: Seq<u32>,
    reached_by: Seq<u32>,
    order: Seq<u32>,
    surface: Seq<u32>,
)
    requires
        flow::flooded(width, rows, heights, filled, reached_by, order),
        width * rows <= u32::MAX,
        settled(width, rows, heights, surface),
        forall|cell: int| #![trigger surface[cell]] 0 <= cell < width * rows ==> surface[cell] >= filled[cell],
    ensures
        surface =~= filled,
{
    assert forall|cell: int| 0 <= cell < surface.len() implies #[trigger] surface[cell] == filled[cell] by {
        let path = flow::some_way_out_spills_the_water(width, rows, heights, filled, reached_by, order, cell);
        lemma_settled_below_every_crest(width, rows, heights, surface, path);
    }
}

/// Relaxing a cell over a neighbour keeps the surface above the flood's, so one
/// that started above it never falls below it.
pub proof fn relaxing_stays_above_the_flood(
    width: int,
    rows: int,
    heights: Seq<u32>,
    filled: Seq<u32>,
    reached_by: Seq<u32>,
    order: Seq<u32>,
    surface: Seq<u32>,
    cell: int,
    beside: int,
)
    requires
        flow::flooded(width, rows, heights, filled, reached_by, order),
        width * rows <= u32::MAX,
        0 <= cell < width * rows,
        0 <= beside < width * rows,
        lattice::adjacent(width, cell, beside),
        surface[beside] >= filled[beside],
    ensures
        flow::higher(heights[cell], surface[beside]) >= filled[cell],
{
    flow::lemma_no_higher_than_a_neighbour(width, rows, heights, filled, reached_by, order, cell, beside);
}

/// Ground no part of which is higher than a level: neither is the highest of any
/// way over it.
proof fn lemma_crest_is_bounded(heights: Seq<u32>, path: Seq<int>, level: u32)
    requires
        forall|i: int| 0 <= i < path.len() ==> heights[#[trigger] path[i]] <= level,
    ensures
        flow::crest(heights, path) <= level,
    decreases path.len(),
{
    if path.len() > 0 {
        let rest = path.drop_first();
        assert forall|i: int| 0 <= i < rest.len() implies heights[#[trigger] rest[i]] <= level by {
            assert(rest[i] == path[i + 1]);
        }
        lemma_crest_is_bounded(heights, rest, level);
        assert(heights[path[0]] <= level);
    }
}

/// On the edge water stands no higher than the ground.
proof fn lemma_edge_is_dry(
    width: int,
    rows: int,
    heights: Seq<u32>,
    filled: Seq<u32>,
    reached_by: Seq<u32>,
    order: Seq<u32>,
    cell: int,
)
    requires
        flow::flooded(width, rows, heights, filled, reached_by, order),
        width * rows <= u32::MAX,
        0 <= cell < width * rows,
        lattice::on_edge(width, rows, cell),
    ensures
        filled[cell] <= heights[cell],
{
    let path = seq![cell];
    assert(flow::leads_out(width, rows, path));
    flow::every_way_out_climbs_to_the_water(width, rows, heights, filled, reached_by, order, path);
    lemma_crest_is_bounded(heights, path, heights[cell]);
}

/// A cold seed starts above the flood: a surface as high as any ground off the
/// edge, and as high as its own on it, is nowhere below the water.
pub proof fn a_cold_seed_starts_above_the_flood(
    width: int,
    rows: int,
    heights: Seq<u32>,
    filled: Seq<u32>,
    reached_by: Seq<u32>,
    order: Seq<u32>,
    surface: Seq<u32>,
)
    requires
        flow::flooded(width, rows, heights, filled, reached_by, order),
        width * rows <= u32::MAX,
        forall|cell: int, other: int|
            #![trigger surface[cell], heights[other]]
            0 <= cell < width * rows && !lattice::on_edge(width, rows, cell) && 0 <= other < width * rows
                ==> surface[cell] >= heights[other],
        forall|cell: int|
            #![trigger surface[cell]]
            0 <= cell < width * rows && lattice::on_edge(width, rows, cell) ==> surface[cell] >= heights[cell],
    ensures
        forall|cell: int| #![trigger surface[cell]] 0 <= cell < width * rows ==> surface[cell] >= filled[cell],
{
    assert forall|cell: int| #![trigger surface[cell]] 0 <= cell < width * rows implies surface[cell]
        >= filled[cell] by {
        if lattice::on_edge(width, rows, cell) {
            lemma_edge_is_dry(width, rows, heights, filled, reached_by, order, cell);
        } else {
            let path = flow::some_way_out_spills_the_water(width, rows, heights, filled, reached_by, order, cell);
            assert forall|i: int| 0 <= i < path.len() implies heights[#[trigger] path[i]] <= surface[cell] by {
                assert(0 <= path[i] < width * rows);
            }
            lemma_crest_is_bounded(heights, path, surface[cell]);
        }
    }
}

/// Where no ground rose by more than a lift, neither did the highest of any way
/// over it.
proof fn lemma_crest_rises_no_more(before: Seq<u32>, heights: Seq<u32>, path: Seq<int>, lift: spec_fn(u32) -> u32)
    requires
        path.len() > 0,
        forall|i: int| 0 <= i < path.len() ==> heights[#[trigger] path[i]] <= lift(before[path[i]]),
        forall|a: u32, b: u32| #![trigger lift(a), lift(b)] a <= b ==> lift(a) <= lift(b),
    ensures
        flow::crest(heights, path) <= lift(flow::crest(before, path)),
    decreases path.len(),
{
    let rest = path.drop_first();
    let (first, whole) = (before[path[0]], flow::crest(before, path));
    assert(whole == flow::higher(first, flow::crest(before, rest)));
    assert(flow::crest(heights, path) == flow::higher(heights[path[0]], flow::crest(heights, rest)));
    assert(heights[path[0]] <= lift(first));
    assert(lift(first) <= lift(whole));
    if path.len() == 1 {
        assert(flow::crest(heights, rest) == 0);
    } else {
        assert forall|i: int| 0 <= i < rest.len() implies heights[#[trigger] rest[i]] <= lift(before[rest[i]]) by {
            assert(rest[i] == path[i + 1]);
        }
        lemma_crest_rises_no_more(before, heights, rest, lift);
        assert(lift(flow::crest(before, rest)) <= lift(whole));
    }
}

/// A warm seed starts above the flood: where no ground rose by more than a lift
/// since the last flood, that flood's water lifted as much is nowhere below this
/// one's. All that is asked of the lift is that it keeps heights in order.
pub proof fn a_warm_seed_starts_above_the_flood(
    width: int,
    rows: int,
    before: Seq<u32>,
    heights: Seq<u32>,
    last: (Seq<u32>, Seq<u32>, Seq<u32>),
    flood: (Seq<u32>, Seq<u32>, Seq<u32>),
    surface: Seq<u32>,
    lift: spec_fn(u32) -> u32,
)
    requires
        flow::flooded(width, rows, before, last.0, last.1, last.2),
        flow::flooded(width, rows, heights, flood.0, flood.1, flood.2),
        width * rows <= u32::MAX,
        forall|a: u32, b: u32| #![trigger lift(a), lift(b)] a <= b ==> lift(a) <= lift(b),
        forall|cell: int| 0 <= cell < width * rows ==> #[trigger] heights[cell] <= lift(before[cell]),
        forall|cell: int|
            #![trigger surface[cell]]
            0 <= cell < width * rows ==> surface[cell] >= if lattice::on_edge(width, rows, cell) {
                heights[cell]
            } else {
                lift(last.0[cell])
            },
    ensures
        forall|cell: int| #![trigger surface[cell]] 0 <= cell < width * rows ==> surface[cell] >= flood.0[cell],
{
    assert forall|cell: int| #![trigger surface[cell]] 0 <= cell < width * rows implies surface[cell]
        >= flood.0[cell] by {
        if lattice::on_edge(width, rows, cell) {
            lemma_edge_is_dry(width, rows, heights, flood.0, flood.1, flood.2, cell);
        } else {
            let path = flow::some_way_out_spills_the_water(width, rows, before, last.0, last.1, last.2, cell);
            flow::every_way_out_climbs_to_the_water(width, rows, heights, flood.0, flood.1, flood.2, path);
            assert forall|i: int| 0 <= i < path.len() implies heights[#[trigger] path[i]] <= lift(
                before[path[i]],
            ) by {
                assert(0 <= path[i] < width * rows);
            }
            lemma_crest_rises_no_more(before, heights, path, lift);
        }
    }
}

/// A way over the ground from cell to neighbouring cell.
pub open spec fn leads_on(width: int, rows: int, path: Seq<int>) -> bool {
    &&& path.len() > 0
    &&& forall|i: int| 0 <= i < path.len() ==> 0 <= #[trigger] path[i] < width * rows
    &&& forall|i: int|
        #![trigger path[i]]
        0 < i < path.len() ==> lattice::adjacent(width, path[i - 1], path[i])
}

/// The level water in the first cell of a way drains to over it: the surface at
/// its end, or the highest ground before that.
pub open spec fn drained_over(heights: Seq<u32>, surface: Seq<u32>, path: Seq<int>) -> u32 {
    flow::higher(flow::crest(heights, path.drop_last()), surface[path.last()])
}

/// Whether a surface is what a relaxation makes of another: every cell keeps its
/// level or drains over some way, however far the relaxation looks.
pub open spec fn relaxes(width: int, rows: int, heights: Seq<u32>, before: Seq<u32>, after: Seq<u32>) -> bool {
    forall|cell: int|
        #![trigger after[cell]]
        0 <= cell < width * rows ==> after[cell] == before[cell] || exists|path: Seq<int>|
            {
                &&& leads_on(width, rows, path)
                &&& path.first() == cell
                &&& after[cell] == #[trigger] drained_over(heights, before, path)
            }
}

proof fn lemma_drains_to_above_the_flood(
    width: int,
    rows: int,
    heights: Seq<u32>,
    filled: Seq<u32>,
    reached_by: Seq<u32>,
    order: Seq<u32>,
    surface: Seq<u32>,
    path: Seq<int>,
)
    requires
        flow::flooded(width, rows, heights, filled, reached_by, order),
        width * rows <= u32::MAX,
        leads_on(width, rows, path),
        surface[path.last()] >= filled[path.last()],
    ensures
        drained_over(heights, surface, path) >= filled[path.first()],
    decreases path.len(),
{
    let ground = path.drop_last();
    if path.len() > 1 {
        let rest = path.drop_first();
        assert(rest[0] == path[1]);
        assert(rest.last() == path.last());
        assert forall|i: int| 0 <= i < rest.len() implies 0 <= #[trigger] rest[i] < width * rows by {
            assert(rest[i] == path[i + 1]);
        }
        assert forall|i: int|
            #![trigger rest[i]]
            0 < i < rest.len() implies lattice::adjacent(width, rest[i - 1], rest[i]) by {
            assert(rest[i] == path[i + 1]);
            assert(rest[i - 1] == path[i]);
        }
        lemma_drains_to_above_the_flood(width, rows, heights, filled, reached_by, order, surface, rest);
        assert(ground.drop_first() =~= rest.drop_last());
        assert(ground.first() == path[0]);
        assert(0 <= path[0] < width * rows);
        assert(lattice::adjacent(width, path[0], path[1]));
        flow::lemma_no_higher_than_a_neighbour(
            width,
            rows,
            heights,
            filled,
            reached_by,
            order,
            path[0],
            path[1],
        );
    }
}

/// A fill that starts above the flood lands on it: relax a surface as often as it
/// takes, and once it has settled it is the flood's own, cell for cell.
pub proof fn a_fill_from_above_lands_on_the_flood(
    width: int,
    rows: int,
    heights: Seq<u32>,
    filled: Seq<u32>,
    reached_by: Seq<u32>,
    order: Seq<u32>,
    surfaces: Seq<Seq<u32>>,
)
    requires
        flow::flooded(width, rows, heights, filled, reached_by, order),
        width * rows <= u32::MAX,
        surfaces.len() > 0,
        forall|cell: int|
            #![trigger surfaces[0][cell]]
            0 <= cell < width * rows ==> surfaces[0][cell] >= filled[cell],
        forall|i: int|
            #![trigger surfaces[i]]
            0 < i < surfaces.len() ==> relaxes(width, rows, heights, surfaces[i - 1], surfaces[i]),
        settled(width, rows, heights, surfaces.last()),
    ensures
        surfaces.last() =~= filled,
{
    lemma_run_stays_above(width, rows, heights, filled, reached_by, order, surfaces, surfaces.len() - 1);
    a_surface_settled_from_above_is_the_flood(
        width,
        rows,
        heights,
        filled,
        reached_by,
        order,
        surfaces.last(),
    );
}

proof fn lemma_run_stays_above(
    width: int,
    rows: int,
    heights: Seq<u32>,
    filled: Seq<u32>,
    reached_by: Seq<u32>,
    order: Seq<u32>,
    surfaces: Seq<Seq<u32>>,
    at: int,
)
    requires
        flow::flooded(width, rows, heights, filled, reached_by, order),
        width * rows <= u32::MAX,
        0 <= at < surfaces.len(),
        forall|cell: int|
            #![trigger surfaces[0][cell]]
            0 <= cell < width * rows ==> surfaces[0][cell] >= filled[cell],
        forall|i: int|
            #![trigger surfaces[i]]
            0 < i < surfaces.len() ==> relaxes(width, rows, heights, surfaces[i - 1], surfaces[i]),
    ensures
        forall|cell: int|
            #![trigger surfaces[at][cell]]
            0 <= cell < width * rows ==> surfaces[at][cell] >= filled[cell],
    decreases at,
{
    if at > 0 {
        lemma_run_stays_above(width, rows, heights, filled, reached_by, order, surfaces, at - 1);
        let (before, after) = (surfaces[at - 1], surfaces[at]);
        assert(relaxes(width, rows, heights, before, after));
        assert forall|cell: int| #![trigger surfaces[at][cell]] 0 <= cell < width * rows implies surfaces[at][cell]
            >= filled[cell] by {
            assert(surfaces[at - 1][cell] >= filled[cell]);
            if after[cell] != before[cell] {
                let path = choose|path: Seq<int>|
                    {
                        &&& leads_on(width, rows, path)
                        &&& path.first() == cell
                        &&& after[cell] == #[trigger] drained_over(heights, before, path)
                    };
                assert(0 <= path[path.len() - 1] < width * rows);
                assert(surfaces[at - 1][path.last()] >= filled[path.last()]);
                lemma_drains_to_above_the_flood(width, rows, heights, filled, reached_by, order, before, path);
            }
        }
    }
}

/// A fill goes on while anything moves, until it has run all the iterations
/// allowed; it has settled once nothing moves, however many it ran.
pub proof fn a_fill_goes_on_while_anything_moves(iterations: int, changed: u32)
    ensures
        changed == 0 <==> decided(iterations, changed) == Next::Settled,
        changed > 0 && iterations < 8192 <==> decided(iterations, changed) == Next::Again,
        changed > 0 && iterations >= 8192 <==> decided(iterations, changed) == Next::GaveUp,
{
}

/// A batch starts by reading the live buffer and takes turns from there.
pub proof fn a_batch_starts_at_the_live_buffer(live: int, at: int)
    requires
        0 <= live < 2,
        0 <= at,
    ensures
        read_by(live, 0) == live,
        read_by(live, 2 * at) == live,
        read_by(live, 2 * at + 1) == 1 - live,
{
}

/// No group of a plan is spare: one fewer along either axis would leave cells
/// out. A tiled group covers 48 cells each way and settles them eight times over
/// in a dispatch, any other eight cells and once.
pub proof fn a_plan_wastes_no_group(extent: Extent, tiled: bool)
    ensures
        ({
            let plan = planned(extent, tiled);
            let size: int = if tiled {
                48
            } else {
                8
            };
            &&& plan.groups.0 * size >= extent.width
            &&& plan.groups.1 * size >= extent.rows
            &&& plan.groups.0 > 0 ==> (plan.groups.0 - 1) * size < extent.width
            &&& plan.groups.1 > 0 ==> (plan.groups.1 - 1) * size < extent.rows
            &&& plan.per_dispatch == if tiled {
                8int
            } else {
                1
            }
            &&& plan.dispatches * plan.per_dispatch == 16
        }),
{
    let size: int = if tiled {
        48
    } else {
        8
    };
    extent::lemma_groups(extent.width as int, size);
    extent::lemma_groups(extent.rows as int, size);
    if tiled {
        assert(planned(extent, true).dispatches == 2);
    } else {
        assert(planned(extent, false).dispatches == 16);
    }
}

/// A settled surface holds no water that could be lost: at the edge it lies on
/// the ground, and nowhere does it stand above both the ground and a neighbour.
pub proof fn a_settled_surface_can_lose_nothing(
    width: int,
    rows: int,
    heights: Seq<u32>,
    surface: Seq<u32>,
    cell: int,
    beside: int,
)
    requires
        settled(width, rows, heights, surface),
        0 <= cell < width * rows,
        0 <= beside < width * rows,
        lattice::adjacent(width, cell, beside),
    ensures
        surface[cell] <= heights[cell] || surface[cell] <= surface[beside],
        lattice::on_edge(width, rows, cell) ==> surface[cell] == heights[cell],
{
    assert(surface[cell] <= flow::higher(heights[cell], surface[beside]));
}

/// A fill may run another batch until it has run all the iterations allowed, and
/// asks only between whole batches.
pub proof fn a_fill_runs_whole_batches(fill: Fill)
    ensures
        fill.going() <==> fill.live < 2 && fill.iterations < 8192,
        fill.whole() <==> fill.iterations as int % 16 == 0,
{
}

} // verus!
