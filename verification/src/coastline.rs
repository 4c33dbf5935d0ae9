//! The sea, which OpenStreetMap implies rather than maps.
//!
//! The sea is defined by `natural=coastline` ways, directed so that land is on
//! the left and water on the right. To paint it, the coastline is clipped to
//! the raster's rectangle and closed along the rectangle's edges, walking
//! clockwise so that water stays on the right and each closed cycle encloses
//! sea: a chain that exits the rectangle is continued along the perimeter to
//! the next chain that enters.
//!
//! Points are whatever the caller measures in, and where a piece meets the
//! perimeter is given by the sorting key of its distance along the walk.

use vstd::prelude::*;
use crate::assemble;
use crate::assemble::{resolve, resolve_ring};
use crate::order;
use crate::read::Nodes;
use crate::stitch;
use crate::stitch::stitch as stitch_ways;

verus! {

/// A run worth keeping, alone, or nothing.
pub open spec fn kept_run<P>(run: Seq<P>) -> Seq<Seq<P>> {
    if run.len() >= 2 {
        seq![run]
    } else {
        Seq::empty()
    }
}

/// The runs of a chain between the nodes that are missing, with some points of
/// the first already behind it.
pub open spec fn runs_of<P>(chain: Seq<i64>, nodes: Map<i64, P>, run: Seq<P>) -> Seq<Seq<P>>
    decreases chain.len(),
{
    if chain.len() == 0 {
        kept_run(run)
    } else if nodes.contains_key(chain.first()) {
        runs_of(chain.drop_first(), nodes, run.push(nodes[chain.first()]))
    } else {
        kept_run(run) + runs_of(chain.drop_first(), nodes, Seq::empty())
    }
}

/// Resolves a chain that has missing nodes into its resolvable runs.
pub fn resolve_runs<P: Copy>(chain: &Vec<i64>, nodes: &Nodes<P>) -> (runs: Vec<Vec<P>>)
    requires
        nodes.wf(),
    ensures
        assemble::points_of(runs@) == runs_of(chain@, nodes@, Seq::empty()),
{
    let ghost whole = runs_of(chain@, nodes@, Seq::empty());
    let mut runs: Vec<Vec<P>> = Vec::new();
    let mut run: Vec<P> = Vec::new();
    let mut i: usize = 0;
    assert(chain@.skip(0) =~= chain@);
    assert(assemble::points_of(runs@) + whole =~= whole);
    while i < chain.len()
        invariant
            i <= chain@.len(),
            nodes.wf(),
            assemble::points_of(runs@) + runs_of(chain@.skip(i as int), nodes@, run@) == whole,
        decreases chain@.len() - i,
    {
        let ghost rest = chain@.skip(i as int);
        let ghost before = assemble::points_of(runs@);
        assert(rest.drop_first() =~= chain@.skip(i + 1));
        match nodes.get(chain[i]) {
            Some(point) => run.push(point),
            None => {
                let ghost points = run@;
                let ghost later = runs_of(chain@.skip(i + 1), nodes@, Seq::<P>::empty());
                let mut taken: Vec<P> = Vec::new();
                std::mem::swap(&mut taken, &mut run);
                if taken.len() >= 2 {
                    runs.push(taken);
                    assert(assemble::points_of(runs@) =~= before.push(points));
                }
                assert(assemble::points_of(runs@) + later =~= before + (kept_run(points) + later));
                assert(run@ =~= Seq::<P>::empty());
            },
        }
        i = i + 1;
    }
    let ghost before = assemble::points_of(runs@);
    let ghost points = run@;
    assert(chain@.skip(i as int) =~= Seq::<i64>::empty());
    if run.len() >= 2 {
        runs.push(run);
    }
    assert(assemble::points_of(runs@) =~= before + kept_run(points));
    runs
}

/// What a chain leaves as a line: itself, or its runs.
pub open spec fn line_or_runs<P>(chain: Seq<i64>, nodes: Map<i64, P>) -> Seq<Seq<P>> {
    match assemble::resolved(chain, nodes) {
        Some(points) => seq![points],
        None => runs_of(chain, nodes, Seq::empty()),
    }
}

/// What the closed chains that are no rings leave: the runs of those that will not
/// resolve, and those too short to bound ground as lines.
pub open spec fn broken_rings<P>(chains: Seq<Seq<i64>>, nodes: Map<i64, P>) -> Seq<Seq<P>>
    decreases chains.len(),
{
    if chains.len() == 0 {
        Seq::empty()
    } else {
        broken_rings(chains.drop_last(), nodes) + if assemble::ring_resolved(chains.last(), nodes) is Some {
            Seq::empty()
        } else {
            line_or_runs(chains.last(), nodes)
        }
    }
}

/// What the open chains leave: themselves, or their runs.
pub open spec fn open_runs<P>(chains: Seq<Seq<i64>>, nodes: Map<i64, P>) -> Seq<Seq<P>>
    decreases chains.len(),
{
    if chains.len() == 0 {
        Seq::empty()
    } else {
        open_runs(chains.drop_last(), nodes) + line_or_runs(chains.last(), nodes)
    }
}

/// Moves one list of lines behind another.
fn take_all<P>(lines: &mut Vec<Vec<P>>, more: Vec<Vec<P>>)
    ensures
        assemble::points_of(final(lines)@) == assemble::points_of(old(lines)@) + assemble::points_of(more@),
{
    let ghost (a, b) = (lines@, more@);
    let mut more = more;
    lines.append(&mut more);
    assert(assemble::points_of(lines@) =~= assemble::points_of(a) + assemble::points_of(b));
}

/// Adds a chain to the lines: itself, or where a node of it is missing its runs.
fn add_line<P: Copy>(lines: &mut Vec<Vec<P>>, chain: &Vec<i64>, nodes: &Nodes<P>)
    requires
        nodes.wf(),
    ensures
        assemble::points_of(final(lines)@) == assemble::points_of(old(lines)@) + line_or_runs(chain@, nodes@),
{
    let ghost before = assemble::points_of(lines@);
    match resolve(chain, nodes) {
        Some(points) => {
            let ghost line = points@;
            lines.push(points);
            assert(assemble::points_of(lines@) =~= before + seq![line]);
        },
        None => {
            let runs = resolve_runs(chain, nodes);
            take_all(lines, runs);
        },
    }
}

/// The coastline as rings and as lines: stitched, and resolved to points. A
/// chain touching a node the extract lost is split at the gap rather than
/// dropped; each run stands alone.
pub fn coast<P: Copy>(coastlines: &[Vec<i64>], nodes: &Nodes<P>) -> (lines: (Vec<Vec<P>>, Vec<Vec<P>>))
    requires
        nodes.wf(),
    ensures
        ({
            let ways = stitch::ids(coastlines@);
            let pile = stitch::stitched_upto(ways, ways.len() as int);
            &&& assemble::points_of(lines.0@) == assemble::rings_resolved(pile.closed, nodes@)
            &&& assemble::points_of(lines.1@) == broken_rings(pile.closed, nodes@) + open_runs(pile.open, nodes@)
        }),
{
    let stitched = stitch_ways(coastlines);
    let ghost closed = stitch::ids(stitched.closed@);
    let ghost open = stitch::ids(stitched.open@);
    let mut rings: Vec<Vec<P>> = Vec::new();
    let mut chains: Vec<Vec<P>> = Vec::new();
    let mut i: usize = 0;
    while i < stitched.closed.len()
        invariant
            i <= stitched.closed@.len(),
            nodes.wf(),
            closed == stitch::ids(stitched.closed@),
            assemble::points_of(rings@) =~= assemble::rings_resolved(closed.take(i as int), nodes@),
            assemble::points_of(chains@) =~= broken_rings(closed.take(i as int), nodes@),
        decreases stitched.closed@.len() - i,
    {
        let ghost earlier = closed.take(i as int);
        let ghost later = closed.take(i + 1);
        assert(later.drop_last() =~= earlier);
        assert(later.last() == stitched.closed@[i as int]@);
        match resolve_ring(&stitched.closed[i], nodes) {
            Some(ring) => rings.push(ring),
            None => add_line(&mut chains, &stitched.closed[i], nodes),
        }
        i = i + 1;
    }
    assert(closed.take(i as int) =~= closed);
    let ghost broken = broken_rings(closed, nodes@);
    let mut i: usize = 0;
    while i < stitched.open.len()
        invariant
            i <= stitched.open@.len(),
            nodes.wf(),
            open == stitch::ids(stitched.open@),
            assemble::points_of(chains@) =~= broken + open_runs(open.take(i as int), nodes@),
        decreases stitched.open@.len() - i,
    {
        let ghost earlier = open.take(i as int);
        let ghost later = open.take(i + 1);
        assert(later.drop_last() =~= earlier);
        assert(later.last() == stitched.open@[i as int]@);
        add_line(&mut chains, &stitched.open[i], nodes);
        i = i + 1;
    }
    assert(open.take(i as int) =~= open);
    (rings, chains)
}

/// How a ring lies with the raster's ground.
#[derive(Clone, Copy, Debug, PartialEq, Eq, Structural)]
pub enum Lie {
    /// Entirely inside: an island.
    Inside,
    /// Across the boundary: opened and clipped like any chain.
    Across,
    /// Entirely outside: nothing to say about this ground.
    Outside,
}

/// How a ring lies, from which of its points are inside.
pub open spec fn lie_of(inside: Seq<bool>) -> Lie {
    if forall|k: int| 0 <= k < inside.len() ==> #[trigger] inside[k] {
        Lie::Inside
    } else if exists|k: int| 0 <= k < inside.len() && #[trigger] inside[k] {
        Lie::Across
    } else {
        Lie::Outside
    }
}

/// How a ring lies, from which of its points are inside.
pub fn lie(inside: &Vec<bool>) -> (lie: Lie)
    ensures
        lie == lie_of(inside@),
{
    let mut all: bool = true;
    let mut any: bool = false;
    let mut i: usize = 0;
    while i < inside.len()
        invariant
            i <= inside@.len(),
            all == (forall|k: int| 0 <= k < i ==> #[trigger] inside@[k]),
            any == (exists|k: int| 0 <= k < i && #[trigger] inside@[k]),
        decreases inside@.len() - i,
    {
        let here: bool = inside[i];
        assert(here == inside@[i as int]);
        all = all && here;
        any = any || here;
        i = i + 1;
    }
    if all {
        Lie::Inside
    } else if any {
        Lie::Across
    } else {
        Lie::Outside
    }
}

/// The points inside, ring by ring.
pub open spec fn insides(within: Seq<Vec<bool>>) -> Seq<Seq<bool>> {
    within.map_values(|inside: Vec<bool>| inside@)
}

/// The rings that lie a given way, in the order they come.
pub open spec fn lying<P>(rings: Seq<Seq<P>>, within: Seq<Seq<bool>>, lie: Lie) -> Seq<Seq<P>>
    decreases rings.len(),
{
    if rings.len() == 0 {
        Seq::empty()
    } else {
        let before = lying(rings.drop_last(), within.drop_last(), lie);
        if lie_of(within.last()) == lie {
            before.push(rings.last())
        } else {
            before
        }
    }
}

/// Sorts the rings of the coast: the islands are handed back, a ring across the
/// boundary joins the chains, and one outside is let go. `within` tells of each
/// ring which of its points are inside.
pub fn sort_rings<P: Copy>(rings: &Vec<Vec<P>>, within: &Vec<Vec<bool>>, chains: &mut Vec<Vec<P>>) -> (islands: Vec<
    Vec<P>,
>)
    requires
        within@.len() == rings@.len(),
    ensures
        assemble::points_of(islands@) == lying(assemble::points_of(rings@), insides(within@), Lie::Inside),
        assemble::points_of(final(chains)@) == assemble::points_of(old(chains)@) + lying(
            assemble::points_of(rings@),
            insides(within@),
            Lie::Across,
        ),
{
    let ghost points = assemble::points_of(rings@);
    let ghost flags = insides(within@);
    let ghost before = assemble::points_of(chains@);
    let mut islands: Vec<Vec<P>> = Vec::new();
    let mut i: usize = 0;
    assert(before + Seq::<Seq<P>>::empty() =~= before);
    while i < rings.len()
        invariant
            i <= rings@.len(),
            within@.len() == rings@.len(),
            points == assemble::points_of(rings@),
            flags == insides(within@),
            assemble::points_of(islands@) =~= lying(points.take(i as int), flags.take(i as int), Lie::Inside),
            assemble::points_of(chains@) =~= before + lying(points.take(i as int), flags.take(i as int), Lie::Across),
        decreases rings@.len() - i,
    {
        assert(points.take(i + 1).drop_last() =~= points.take(i as int));
        assert(flags.take(i + 1).drop_last() =~= flags.take(i as int));
        match lie(&within[i]) {
            Lie::Inside => islands.push(copied(&rings[i])),
            Lie::Across => {
                let ghost earlier = assemble::points_of(chains@);
                chains.push(copied(&rings[i]));
                assert(assemble::points_of(chains@) =~= earlier.push(points[i as int]));
            },
            Lie::Outside => {},
        }
        i = i + 1;
    }
    assert(points.take(i as int) =~= points);
    assert(flags.take(i as int) =~= flags);
    islands
}

/// A line with the points of another.
pub(crate) fn copied<P: Copy>(line: &Vec<P>) -> (copy: Vec<P>)
    ensures
        copy@ == line@,
{
    let mut copy: Vec<P> = Vec::new();
    let mut i: usize = 0;
    while i < line.len()
        invariant
            i <= line@.len(),
            copy@ =~= line@.take(i as int),
        decreases line@.len() - i,
    {
        copy.push(line[i]);
        i = i + 1;
    }
    assert(copy@ =~= line@);
    copy
}

/// The part of a segment that is inside: where it starts, where it ends, and
/// whether it ends by leaving.
#[derive(Debug)]
pub struct Clip<P> {
    pub from: P,
    pub to: P,
    pub leaves: bool,
}

/// The pieces a clipped line falls into, with some points of the first already
/// behind it.
pub open spec fn pieces_of<P>(clips: Seq<Option<Clip<P>>>, current: Seq<P>) -> Seq<Seq<P>>
    decreases clips.len(),
{
    if clips.len() == 0 {
        kept_run(current)
    } else {
        match clips.first() {
            None => pieces_of(clips.drop_first(), current),
            Some(clip) => {
                let grown = (if current.len() == 0 {
                    seq![clip.from]
                } else {
                    current
                }).push(clip.to);
                if clip.leaves {
                    seq![grown] + pieces_of(clips.drop_first(), Seq::empty())
                } else {
                    pieces_of(clips.drop_first(), grown)
                }
            },
        }
    }
}

/// Splits a line, clipped segment by segment, where it leaves and returns.
pub fn clip_chain<P: Copy>(clips: &Vec<Option<Clip<P>>>) -> (pieces: Vec<Vec<P>>)
    ensures
        assemble::points_of(pieces@) == pieces_of(clips@, Seq::empty()),
{
    let ghost whole = pieces_of(clips@, Seq::<P>::empty());
    let mut pieces: Vec<Vec<P>> = Vec::new();
    let mut current: Vec<P> = Vec::new();
    let mut i: usize = 0;
    assert(clips@.skip(0) =~= clips@);
    assert(assemble::points_of(pieces@) + whole =~= whole);
    while i < clips.len()
        invariant
            i <= clips@.len(),
            assemble::points_of(pieces@) + pieces_of(clips@.skip(i as int), current@) == whole,
        decreases clips@.len() - i,
    {
        let ghost rest = clips@.skip(i as int);
        let ghost before = assemble::points_of(pieces@);
        assert(rest.drop_first() =~= clips@.skip(i + 1));
        if let Some(clip) = &clips[i] {
            let ghost first = current@;
            if current.len() == 0 {
                current.push(clip.from);
                assert(current@ =~= seq![clip.from]);
            }
            current.push(clip.to);
            if clip.leaves {
                let ghost grown = current@;
                let ghost later = pieces_of(clips@.skip(i + 1), Seq::<P>::empty());
                let mut taken: Vec<P> = Vec::new();
                std::mem::swap(&mut taken, &mut current);
                pieces.push(taken);
                assert(assemble::points_of(pieces@) + later =~= before + (seq![grown] + later));
                assert(current@ =~= Seq::<P>::empty());
            }
        }
        i = i + 1;
    }
    let ghost before = assemble::points_of(pieces@);
    let ghost points = current@;
    assert(clips@.skip(i as int) =~= Seq::<Option<Clip<P>>>::empty());
    if current.len() >= 2 {
        pieces.push(current);
    }
    assert(assemble::points_of(pieces@) =~= before + kept_run(points));
    pieces
}

/// The clips of some lines.
pub open spec fn clips_of<P>(lines: Seq<Vec<Option<Clip<P>>>>) -> Seq<Seq<Option<Clip<P>>>> {
    lines.map_values(|clips: Vec<Option<Clip<P>>>| clips@)
}

/// The pieces some clipped lines fall into, line by line.
pub open spec fn all_pieces<P>(lines: Seq<Seq<Option<Clip<P>>>>) -> Seq<Seq<P>>
    decreases lines.len(),
{
    if lines.len() == 0 {
        Seq::empty()
    } else {
        all_pieces(lines.drop_last()) + pieces_of(lines.last(), Seq::empty())
    }
}

/// Splits every line of the coast, clipped segment by segment.
pub fn clip_all<P: Copy>(lines: &Vec<Vec<Option<Clip<P>>>>) -> (pieces: Vec<Vec<P>>)
    ensures
        assemble::points_of(pieces@) == all_pieces(clips_of(lines@)),
        forall|k: int| 0 <= k < pieces@.len() ==> (#[trigger] pieces@[k])@.len() >= 2,
{
    let ghost clips = clips_of(lines@);
    let mut pieces: Vec<Vec<P>> = Vec::new();
    let mut i: usize = 0;
    while i < lines.len()
        invariant
            i <= lines@.len(),
            clips == clips_of(lines@),
            assemble::points_of(pieces@) =~= all_pieces(clips.take(i as int)),
        decreases lines@.len() - i,
    {
        assert(clips.take(i + 1).drop_last() =~= clips.take(i as int));
        let more = clip_chain(&lines[i]);
        take_all(&mut pieces, more);
        i = i + 1;
    }
    assert(clips.take(i as int) =~= clips);
    assert forall|k: int| 0 <= k < pieces@.len() implies (#[trigger] pieces@[k])@.len() >= 2 by {
        a_clipped_piece_has_two_ends(clips, k);
        assert(assemble::points_of(pieces@)[k] == pieces@[k]@);
    }
    pieces
}

/// A clipped piece has two ends: none is less than two points.
pub proof fn a_clipped_piece_has_two_ends<P>(lines: Seq<Seq<Option<Clip<P>>>>, piece: int)
    requires
        0 <= piece < all_pieces(lines).len(),
    ensures
        all_pieces(lines)[piece].len() >= 2,
    decreases lines.len(),
{
    let earlier = all_pieces(lines.drop_last());
    if piece < earlier.len() {
        a_clipped_piece_has_two_ends(lines.drop_last(), piece);
    } else {
        lemma_pieces_have_two_ends(lines.last(), Seq::empty(), piece - earlier.len());
    }
}

proof fn lemma_pieces_have_two_ends<P>(clips: Seq<Option<Clip<P>>>, current: Seq<P>, piece: int)
    requires
        0 <= piece < pieces_of(clips, current).len(),
    ensures
        pieces_of(clips, current)[piece].len() >= 2,
    decreases clips.len(),
{
    if clips.len() > 0 {
        let rest = clips.drop_first();
        match clips.first() {
            None => lemma_pieces_have_two_ends(rest, current, piece),
            Some(clip) => {
                let grown = (if current.len() == 0 {
                    seq![clip.from]
                } else {
                    current
                }).push(clip.to);
                if !clip.leaves {
                    lemma_pieces_have_two_ends(rest, grown, piece);
                } else if piece > 0 {
                    lemma_pieces_have_two_ends(rest, Seq::empty(), piece - 1);
                }
            },
        }
    }
}

/// How an end of a piece stands to the perimeter.
#[derive(Clone, Copy, Debug)]
pub enum End<P> {
    /// It is on it.
    OnEdge,
    /// It dangles, with the perimeter in reach at a point.
    Reaches(P),
    /// It dangles out of reach.
    Lost,
}

/// The points an end adds to its piece.
pub open spec fn extension<P>(end: End<P>) -> Seq<P> {
    match end {
        End::Reaches(point) => seq![point],
        _ => Seq::empty(),
    }
}

/// A piece with both ends put on the perimeter, or `None` where one is out of
/// reach or nothing is left to draw.
pub open spec fn mended<P>(piece: Seq<P>, start: End<P>, end: End<P>) -> Option<Seq<P>> {
    let whole = extension(start) + piece + extension(end);
    if start is Lost || end is Lost || whole.len() < 2 {
        None
    } else {
        Some(whole)
    }
}

/// Extends the dangling ends of a piece to the perimeter, or drops it. Returns
/// also how many ends were extended.
pub fn mend<P: Copy>(piece: Vec<P>, start: End<P>, end: End<P>) -> (mended_piece: (Option<Vec<P>>, u64))
    ensures
        match mended_piece.0 {
            Some(points) => mended(piece@, start, end) == Some(points@),
            None => mended(piece@, start, end) is None,
        },
        mended_piece.1 == extension(start).len() + extension(end).len(),
{
    let ghost before = piece@;
    let mut piece = piece;
    let mut ok: bool = true;
    let mut extended: u64 = 0;
    match start {
        End::OnEdge => {},
        End::Reaches(point) => {
            extended = extended + 1;
            piece.insert(0, point);
        },
        End::Lost => {
            ok = false;
        },
    }
    assert(piece@ =~= extension(start) + before);
    match end {
        End::OnEdge => {},
        End::Reaches(point) => {
            extended = extended + 1;
            piece.push(point);
        },
        End::Lost => {
            ok = false;
        },
    }
    assert(piece@ =~= extension(start) + before + extension(end));
    if !ok || piece.len() < 2 {
        return (None, extended);
    }
    (Some(piece), extended)
}

/// The pieces that reach the perimeter at both ends, mended, in their order.
pub open spec fn mended_only<P>(pieces: Seq<Seq<P>>, ends: Seq<(End<P>, End<P>)>) -> Seq<Seq<P>>
    decreases pieces.len(),
{
    if pieces.len() == 0 {
        Seq::empty()
    } else {
        let before = mended_only(pieces.drop_last(), ends.drop_last());
        match mended(pieces.last(), ends.last().0, ends.last().1) {
            Some(points) => before.push(points),
            None => before,
        }
    }
}

/// How many ends are extended.
pub open spec fn extensions<P>(ends: Seq<(End<P>, End<P>)>) -> nat
    decreases ends.len(),
{
    if ends.len() == 0 {
        0
    } else {
        extensions(ends.drop_last()) + extension(ends.last().0).len() + extension(ends.last().1).len()
    }
}

/// The pieces of the coast, from perimeter to perimeter.
pub struct Mended<P> {
    pub pieces: Vec<Vec<P>>,
    /// How many dangling ends were extended.
    pub extended: u64,
    /// How many pieces could not reach the perimeter.
    pub dropped: u64,
}

/// Extends or drops every piece of the coast. `ends` tells of each how its two
/// ends stand to the perimeter.
pub fn mend_all<P: Copy>(pieces: &Vec<Vec<P>>, ends: &Vec<(End<P>, End<P>)>) -> (all: Mended<P>)
    requires
        ends@.len() == pieces@.len(),
        2 * pieces@.len() <= u64::MAX,
    ensures
        assemble::points_of(all.pieces@) == mended_only(assemble::points_of(pieces@), ends@),
        all.extended == extensions(ends@),
        all.dropped == pieces@.len() - all.pieces@.len(),
        forall|k: int| 0 <= k < all.pieces@.len() ==> (#[trigger] all.pieces@[k])@.len() >= 2,
{
    let ghost points = assemble::points_of(pieces@);
    let mut kept: Vec<Vec<P>> = Vec::new();
    let mut extended: u64 = 0;
    let mut dropped: u64 = 0;
    let mut i: usize = 0;
    while i < pieces.len()
        invariant
            i <= pieces@.len(),
            ends@.len() == pieces@.len(),
            2 * pieces@.len() <= u64::MAX,
            points == assemble::points_of(pieces@),
            assemble::points_of(kept@) =~= mended_only(points.take(i as int), ends@.take(i as int)),
            extended == extensions(ends@.take(i as int)),
            extended <= 2 * i,
            dropped == i - kept@.len(),
            forall|k: int| 0 <= k < kept@.len() ==> (#[trigger] kept@[k])@.len() >= 2,
        decreases pieces@.len() - i,
    {
        assert(points.take(i + 1).drop_last() =~= points.take(i as int));
        assert(ends@.take(i + 1).drop_last() =~= ends@.take(i as int));
        let (start, end) = ends[i];
        let (whole, moved) = mend(copied(&pieces[i]), start, end);
        extended = extended + moved;
        match whole {
            Some(line) => kept.push(line),
            None => {
                dropped = dropped + 1;
            },
        }
        i = i + 1;
    }
    assert(points.take(i as int) =~= points);
    assert(ends@.take(i as int) =~= ends@);
    Mended { pieces: kept, extended, dropped }
}

/// A ring is an island when every point of it is inside, lies across the
/// boundary when one is inside and another is not, and is outside when it has
/// points and none is inside.
pub proof fn a_ring_lies_as_its_points_do(inside: Seq<bool>)
    ensures
        lie_of(inside) == Lie::Inside <==> !exists|k: int| 0 <= k < inside.len() && !#[trigger] inside[k],
        lie_of(inside) == Lie::Across <==> exists|i: int, j: int|
            0 <= i < inside.len() && 0 <= j < inside.len() && #[trigger] inside[i] && !#[trigger] inside[j],
        lie_of(inside) == Lie::Outside <==> inside.len() > 0 && forall|k: int|
            0 <= k < inside.len() ==> !#[trigger] inside[k],
{
    if lie_of(inside) == Lie::Across {
        let i = choose|i: int| 0 <= i < inside.len() && #[trigger] inside[i];
        let j = choose|j: int| 0 <= j < inside.len() && !#[trigger] inside[j];
        assert(inside[i] && !inside[j]);
    }
    if inside.len() > 0 && forall|k: int| 0 <= k < inside.len() ==> !#[trigger] inside[k] {
        assert(!inside[0]);
    }
}

/// The rings sorted out to lie one way are all of them that do, in order.
pub proof fn every_ring_is_sorted_by_how_it_lies<P>(rings: Seq<Seq<P>>, within: Seq<Seq<bool>>, lie: Lie)
    requires
        rings.len() == within.len(),
    ensures
        order::picks(
            lying(rings, within, lie),
            rings,
            Seq::new(rings.len(), |k: int| lie_of(within[k]) == lie),
        ),
    decreases rings.len(),
{
    let flags = Seq::new(rings.len(), |k: int| lie_of(within[k]) == lie);
    if rings.len() > 0 {
        let (fewer, rest) = (rings.drop_last(), within.drop_last());
        every_ring_is_sorted_by_how_it_lies(fewer, rest, lie);
        assert(flags.drop_last() =~= Seq::new(fewer.len(), |k: int| lie_of(rest[k]) == lie));
        let list = lying(rings, within, lie);
        if flags.last() {
            assert(list.drop_last() =~= lying(fewer, rest, lie));
        }
        order::lemma_picks_one_more(list, rings, flags);
    }
}

proof fn lemma_runs_go_on<P>(a: Seq<i64>, gap: i64, b: Seq<i64>, nodes: Map<i64, P>, run: Seq<P>)
    requires
        !nodes.contains_key(gap),
    ensures
        runs_of(a.push(gap) + b, nodes, run) == runs_of(a, nodes, run) + runs_of(b, nodes, Seq::empty()),
    decreases a.len(),
{
    let whole = a.push(gap) + b;
    if a.len() == 0 {
        assert(whole.first() == gap);
        assert(whole.drop_first() =~= b);
    } else {
        assert(whole.first() == a.first());
        assert(whole.drop_first() =~= a.drop_first().push(gap) + b);
        if nodes.contains_key(a.first()) {
            lemma_runs_go_on(a.drop_first(), gap, b, nodes, run.push(nodes[a.first()]));
        } else {
            lemma_runs_go_on(a.drop_first(), gap, b, nodes, Seq::empty());
            let later = runs_of(b, nodes, Seq::<P>::empty());
            assert(runs_of(whole, nodes, run) =~= runs_of(a, nodes, run) + later);
        }
    }
}

/// A missing node splits a chain: what comes before it and what comes after it
/// fall into runs as if each stood alone.
pub proof fn a_missing_node_splits_a_chain<P>(a: Seq<i64>, gap: i64, b: Seq<i64>, nodes: Map<i64, P>)
    requires
        !nodes.contains_key(gap),
    ensures
        runs_of(a.push(gap) + b, nodes, Seq::empty()) == runs_of(a, nodes, Seq::empty()) + runs_of(
            b,
            nodes,
            Seq::empty(),
        ),
{
    lemma_runs_go_on(a, gap, b, nodes, Seq::empty());
}

proof fn lemma_run_with_no_gap<P>(chain: Seq<i64>, nodes: Map<i64, P>, run: Seq<P>)
    requires
        forall|k: int| 0 <= k < chain.len() ==> nodes.contains_key(#[trigger] chain[k]),
    ensures
        runs_of(chain, nodes, run) == kept_run(run + assemble::run_through(chain, nodes)),
    decreases chain.len(),
{
    let through = assemble::run_through(chain, nodes);
    if chain.len() == 0 {
        assert(run + through =~= run);
    } else {
        assert(nodes.contains_key(chain[0]));
        let rest = chain.drop_first();
        lemma_run_with_no_gap(rest, nodes, run.push(nodes[chain.first()]));
        assert(run + through =~= run.push(nodes[chain.first()]) + assemble::run_through(rest, nodes));
    }
}

/// A chain with no node missing is one run, the points of its nodes in turn; a
/// lone point is none.
pub proof fn a_chain_with_no_gap_is_one_run<P>(chain: Seq<i64>, nodes: Map<i64, P>)
    requires
        forall|k: int| 0 <= k < chain.len() ==> nodes.contains_key(#[trigger] chain[k]),
    ensures
        chain.len() < 2 ==> runs_of(chain, nodes, Seq::empty()).len() == 0,
        chain.len() >= 2 ==> {
            let runs = runs_of(chain, nodes, Seq::empty());
            &&& runs.len() == 1
            &&& runs[0].len() == chain.len()
            &&& forall|k: int|
                #![trigger chain[k]]
                #![trigger runs[0][k]]
                0 <= k < chain.len() ==> runs[0][k] == nodes[chain[k]]
        },
{
    lemma_run_with_no_gap(chain, nodes, Seq::empty());
    assert(Seq::<P>::empty() + assemble::run_through(chain, nodes) =~= assemble::run_through(chain, nodes));
}

/// What the chains of a coast leave is told chain by chain, in order: a whole
/// ring leaves no line, any other closed chain and every open one leaves itself
/// where no node is missing and its runs where one is.
pub proof fn a_coast_is_told_chain_by_chain<P>(a: Seq<Seq<i64>>, b: Seq<Seq<i64>>, chain: Seq<i64>, nodes: Map<i64, P>)
    ensures
        broken_rings(a + b, nodes) == broken_rings(a, nodes) + broken_rings(b, nodes),
        open_runs(a + b, nodes) == open_runs(a, nodes) + open_runs(b, nodes),
        ({
            let line = if forall|k: int| 0 <= k < chain.len() ==> nodes.contains_key(#[trigger] chain[k]) {
                seq![assemble::run_through(chain, nodes)]
            } else {
                runs_of(chain, nodes, Seq::empty())
            };
            &&& open_runs(seq![chain], nodes) == line
            &&& broken_rings(seq![chain], nodes) == if assemble::whole_ring(chain, nodes) {
                Seq::empty()
            } else {
                line
            }
        }),
    decreases b.len(),
{
    if b.len() == 0 {
        assert(a + b =~= a);
        assert(broken_rings(a, nodes) + broken_rings(b, nodes) =~= broken_rings(a, nodes));
        assert(open_runs(a, nodes) + open_runs(b, nodes) =~= open_runs(a, nodes));
    } else {
        a_coast_is_told_chain_by_chain(a, b.drop_last(), chain, nodes);
        assert((a + b).drop_last() =~= a + b.drop_last());
        assert((a + b).last() == b.last());
        assert(broken_rings(a + b, nodes) =~= broken_rings(a, nodes) + broken_rings(b, nodes));
        assert(open_runs(a + b, nodes) =~= open_runs(a, nodes) + open_runs(b, nodes));
    }
    let one = seq![chain];
    assert(one.drop_last() =~= Seq::<Seq<i64>>::empty());
    assert(one.last() == chain);
    assert(open_runs(one.drop_last(), nodes) =~= Seq::<Seq<P>>::empty());
    assert(broken_rings(one.drop_last(), nodes) =~= Seq::<Seq<P>>::empty());
    assert(open_runs(one, nodes) =~= line_or_runs(chain, nodes));
    assert(broken_rings(one, nodes) =~= if assemble::ring_resolved(chain, nodes) is Some {
        Seq::<Seq<P>>::empty()
    } else {
        line_or_runs(chain, nodes)
    });
    if forall|k: int| 0 <= k < chain.len() ==> nodes.contains_key(#[trigger] chain[k]) {
        assert(assemble::resolved(chain, nodes)->0 =~= assemble::run_through(chain, nodes));
    }
}

proof fn lemma_pieces_split<P>(a: Seq<Option<Clip<P>>>, b: Seq<Option<Clip<P>>>, current: Seq<P>)
    requires
        a.len() > 0,
        a.last() matches Some(clip) && clip.leaves,
    ensures
        pieces_of(a + b, current) == pieces_of(a, current) + pieces_of(b, Seq::empty()),
    decreases a.len(),
{
    let whole = a + b;
    let rest = a.drop_first();
    assert(whole.first() == a.first());
    assert(whole.drop_first() =~= rest + b);
    let later = pieces_of(b, Seq::<P>::empty());
    if a.len() == 1 {
        assert(rest =~= Seq::<Option<Clip<P>>>::empty());
        assert(rest + b =~= b);
        assert(pieces_of(whole, current) =~= pieces_of(a, current) + later);
    } else {
        assert(rest.last() == a.last());
        match a.first() {
            None => lemma_pieces_split(rest, b, current),
            Some(clip) => {
                let grown = (if current.len() == 0 {
                    seq![clip.from]
                } else {
                    current
                }).push(clip.to);
                if clip.leaves {
                    lemma_pieces_split(rest, b, Seq::empty());
                    assert(pieces_of(whole, current) =~= pieces_of(a, current) + later);
                } else {
                    lemma_pieces_split(rest, b, grown);
                }
            },
        }
    }
}

/// Where a line leaves, it is split: what it was up to there and what it is
/// after fall into pieces as if each stood alone.
pub proof fn a_line_is_split_where_it_leaves<P>(a: Seq<Option<Clip<P>>>, b: Seq<Option<Clip<P>>>)
    requires
        a.len() > 0,
        a.last() matches Some(clip) && clip.leaves,
    ensures
        pieces_of(a + b, Seq::empty()) == pieces_of(a, Seq::empty()) + pieces_of(b, Seq::empty()),
{
    lemma_pieces_split(a, b, Seq::empty());
}

proof fn lemma_outside_changes_nothing<P>(a: Seq<Option<Clip<P>>>, b: Seq<Option<Clip<P>>>, current: Seq<P>)
    ensures
        pieces_of(a.push(None) + b, current) == pieces_of(a + b, current),
    decreases a.len(),
{
    let (with, without) = (a.push(None) + b, a + b);
    if a.len() == 0 {
        assert(with.drop_first() =~= b);
        assert(without =~= b);
    } else {
        let rest = a.drop_first();
        assert(with.first() == a.first() && without.first() == a.first());
        assert(with.drop_first() =~= rest.push(None) + b);
        assert(without.drop_first() =~= rest + b);
        match a.first() {
            None => lemma_outside_changes_nothing(rest, b, current),
            Some(clip) => {
                let grown = (if current.len() == 0 {
                    seq![clip.from]
                } else {
                    current
                }).push(clip.to);
                lemma_outside_changes_nothing(rest, b, grown);
                lemma_outside_changes_nothing(rest, b, Seq::empty());
            },
        }
    }
}

/// A segment with no part inside adds nothing and splits nothing.
pub proof fn a_segment_outside_changes_nothing<P>(a: Seq<Option<Clip<P>>>, b: Seq<Option<Clip<P>>>)
    ensures
        pieces_of(a.push(None) + b, Seq::empty()) == pieces_of(a + b, Seq::empty()),
{
    lemma_outside_changes_nothing(a, b, Seq::empty());
}

/// Where some clipped segments end, in turn.
spec fn ends_of<P>(clips: Seq<Option<Clip<P>>>) -> Seq<P> {
    Seq::new(clips.len(), |k: int| clips[k]->0.to)
}

proof fn lemma_one_piece<P>(clips: Seq<Option<Clip<P>>>, current: Seq<P>)
    requires
        forall|k: int| 0 <= k < clips.len() ==> #[trigger] clips[k] is Some,
        forall|k: int| 0 <= k < clips.len() - 1 ==> !(#[trigger] clips[k])->0.leaves,
        current.len() > 0,
        clips.len() > 0 || current.len() >= 2,
    ensures
        pieces_of(clips, current) == seq![current + ends_of(clips)],
    decreases clips.len(),
{
    if clips.len() == 0 {
        assert(current + ends_of(clips) =~= current);
    } else {
        assert(clips[0] is Some);
        let rest = clips.drop_first();
        let grown = current.push(clips[0]->0.to);
        assert(grown + ends_of(rest) =~= current + ends_of(clips));
        assert forall|k: int| 0 <= k < rest.len() implies #[trigger] rest[k] is Some by {
            assert(clips[k + 1] is Some);
        }
        if clips[0]->0.leaves {
            assert(clips.len() == 1);
            assert(rest.len() == 0);
            assert(pieces_of(rest, Seq::<P>::empty()) =~= Seq::<Seq<P>>::empty());
            assert(grown =~= current + ends_of(clips));
            assert(pieces_of(clips, current) =~= seq![current + ends_of(clips)]);
        } else {
            assert forall|k: int| 0 <= k < rest.len() - 1 implies !(#[trigger] rest[k])->0.leaves by {
                assert(!clips[k + 1]->0.leaves);
            }
            lemma_one_piece(rest, grown);
        }
    }
}

/// A line inside throughout is one piece: where its first segment starts, and
/// then where each ends.
pub proof fn a_line_inside_is_one_piece<P>(clips: Seq<Option<Clip<P>>>)
    requires
        clips.len() > 0,
        forall|k: int| 0 <= k < clips.len() ==> #[trigger] clips[k] is Some,
        forall|k: int| 0 <= k < clips.len() - 1 ==> !(#[trigger] clips[k])->0.leaves,
    ensures
        ({
            let pieces = pieces_of(clips, Seq::empty());
            &&& pieces.len() == 1
            &&& pieces[0].len() == clips.len() + 1
            &&& pieces[0][0] == clips[0]->0.from
            &&& forall|k: int|
                #![trigger clips[k]]
                #![trigger pieces[0][k + 1]]
                0 <= k < clips.len() ==> pieces[0][k + 1] == clips[k]->0.to
        }),
        pieces_of(Seq::<Option<Clip<P>>>::empty(), Seq::empty()).len() == 0,
{
    let clip = clips[0]->0;
    assert(clips[0] is Some);
    let rest = clips.drop_first();
    let first = seq![clip.from];
    assert(clips.first() == Some(clip));
    lemma_one_piece(clips, first);
    assert(pieces_of(clips, Seq::empty()) == pieces_of(clips, first));
    assert(pieces_of(Seq::<Option<Clip<P>>>::empty(), Seq::<P>::empty()) =~= Seq::<Seq<P>>::empty());
}

/// The pieces of some lines are those of the first, then those of the others.
pub proof fn lines_are_clipped_one_by_one<P>(
    a: Seq<Seq<Option<Clip<P>>>>,
    b: Seq<Seq<Option<Clip<P>>>>,
    line: Seq<Option<Clip<P>>>,
)
    ensures
        all_pieces(a + b) == all_pieces(a) + all_pieces(b),
        all_pieces(seq![line]) == pieces_of(line, Seq::empty()),
    decreases b.len(),
{
    if b.len() == 0 {
        assert(a + b =~= a);
        assert(all_pieces(a) + all_pieces(b) =~= all_pieces(a));
    } else {
        lines_are_clipped_one_by_one(a, b.drop_last(), line);
        assert((a + b).drop_last() =~= a + b.drop_last());
        assert((a + b).last() == b.last());
        assert(all_pieces(a + b) =~= all_pieces(a) + all_pieces(b));
    }
    let one = seq![line];
    assert(one.drop_last() =~= Seq::<Seq<Option<Clip<P>>>>::empty());
    assert(one.last() == line);
    assert(all_pieces(one.drop_last()) =~= Seq::<Seq<P>>::empty());
    assert(all_pieces(one) =~= pieces_of(line, Seq::empty()));
}

/// A piece is mended where neither end is lost and two points are left, and is
/// then itself, with the point each dangling end reaches put before or behind.
pub proof fn a_mended_piece_reaches_the_edge<P>(piece: Seq<P>, start: End<P>, end: End<P>)
    ensures
        ({
            let ahead: int = if start is Reaches {
                1
            } else {
                0
            };
            let behind: int = if end is Reaches {
                1
            } else {
                0
            };
            &&& mended(piece, start, end) is Some <==> !(start is Lost) && !(end is Lost) && ahead + piece.len()
                + behind >= 2
            &&& mended(piece, start, end) matches Some(whole) ==> {
                &&& whole.len() == ahead + piece.len() + behind
                &&& whole.subrange(ahead, ahead + piece.len()) == piece
                &&& start matches End::Reaches(point) ==> whole[0] == point
                &&& end matches End::Reaches(point) ==> whole[whole.len() - 1] == point
            }
            &&& extension(start).len() == ahead
            &&& extension(end).len() == behind
        }),
{
    let whole = extension(start) + piece + extension(end);
    let ahead = extension(start).len() as int;
    assert(whole.subrange(ahead, ahead + piece.len()) =~= piece);
}

/// The pieces kept are all that can be mended, in order.
pub proof fn every_piece_that_mends_is_kept<P>(pieces: Seq<Seq<P>>, ends: Seq<(End<P>, End<P>)>)
    requires
        pieces.len() == ends.len(),
    ensures
        order::picks(
            mended_only(pieces, ends),
            Seq::new(pieces.len(), |k: int| mended(pieces[k], ends[k].0, ends[k].1)->0),
            Seq::new(pieces.len(), |k: int| mended(pieces[k], ends[k].0, ends[k].1) is Some),
        ),
    decreases pieces.len(),
{
    let items = Seq::new(pieces.len(), |k: int| mended(pieces[k], ends[k].0, ends[k].1)->0);
    let flags = Seq::new(pieces.len(), |k: int| mended(pieces[k], ends[k].0, ends[k].1) is Some);
    if pieces.len() > 0 {
        let (fewer, rest) = (pieces.drop_last(), ends.drop_last());
        every_piece_that_mends_is_kept(fewer, rest);
        assert(items.drop_last() =~= Seq::new(fewer.len(), |k: int| mended(fewer[k], rest[k].0, rest[k].1)->0));
        assert(flags.drop_last() =~= Seq::new(fewer.len(), |k: int| mended(fewer[k], rest[k].0, rest[k].1) is Some));
        let list = mended_only(pieces, ends);
        if flags.last() {
            assert(list.drop_last() =~= mended_only(fewer, rest));
        }
        order::lemma_picks_one_more(list, items, flags);
    }
}

/// The ends extended are counted piece by piece, one for each that dangles with
/// the perimeter in reach.
pub proof fn extensions_add_up<P>(a: Seq<(End<P>, End<P>)>, b: Seq<(End<P>, End<P>)>, ends: (End<P>, End<P>))
    ensures
        extensions(a + b) == extensions(a) + extensions(b),
        extensions(seq![ends]) == (if ends.0 is Reaches {
            1int
        } else {
            0
        }) + (if ends.1 is Reaches {
            1int
        } else {
            0
        }),
    decreases b.len(),
{
    if b.len() == 0 {
        assert(a + b =~= a);
    } else {
        extensions_add_up(a, b.drop_last(), ends);
        assert((a + b).drop_last() =~= a + b.drop_last());
        assert((a + b).last() == b.last());
    }
    let one = seq![ends];
    assert(one.drop_last() =~= Seq::<(End<P>, End<P>)>::empty());
    assert(one.last() == ends);
    assert(extensions(one.drop_last()) == 0);
}

/// What is told of rings and lines is told of each, in order.
pub proof fn rings_and_lines_are_told_of_each<P>(within: Seq<Vec<bool>>, lines: Seq<Vec<Option<Clip<P>>>>, k: int)
    ensures
        insides(within).len() == within.len(),
        0 <= k < within.len() ==> insides(within)[k] == within[k]@,
        clips_of(lines).len() == lines.len(),
        0 <= k < lines.len() ==> clips_of(lines)[k] == lines[k]@,
{
}

} // verus!
