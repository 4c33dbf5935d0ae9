//! Turning ids into rings, and rings into polygons ready to paint.
//!
//! A closed classified way is already a polygon. A multipolygon relation names
//! member ways that only become rings when stitched. Rings are filled even-odd,
//! so none is outer or inner here. What cannot be resolved is dropped ring by
//! ring with a count, keeping the rest of its polygon: a lake missing one shore
//! fragment still holds more truth as a partial lake than as nothing.

use vstd::prelude::*;
use crate::material;
use crate::material::{precedence, Material};
use crate::order;
use crate::read::{Area, Extract, Members, MultiPolygon, Nodes};
use crate::stitch;
use crate::stitch::{bounds_ground, stitch as stitch_ways};

verus! {

/// One paintable polygon: a material and the rings that bound it.
pub struct Polygon<P> {
    pub material: Material,
    /// The painter's layer, carried here so sorting never derives it again.
    pub layer: u8,
    /// Closed rings; first and last point of each are equal. Filled even-odd
    /// across all of them.
    pub rings: Vec<Vec<P>>,
}

/// The points of some rings.
pub open spec fn points_of<P>(rings: Seq<Vec<P>>) -> Seq<Seq<P>> {
    rings.map_values(|ring: Vec<P>| ring@)
}

impl<P> Polygon<P> {
    /// Builds a polygon from resolved rings, or `None` if none survived.
    pub fn new(material: Material, rings: Vec<Vec<P>>) -> (polygon: Option<Polygon<P>>)
        ensures
            match polygon {
                Some(polygon) => {
                    &&& rings@.len() > 0
                    &&& polygon.material == material
                    &&& polygon.layer == material::layer_of(material)
                    &&& polygon.rings == rings
                },
                None => rings@.len() == 0,
            },
    {
        if rings.len() == 0 {
            return None;
        }
        Some(Polygon { material, layer: precedence(material), rings })
    }
}

/// The points of a chain, where every node of it has one.
pub open spec fn resolved<P>(chain: Seq<i64>, nodes: Map<i64, P>) -> Option<Seq<P>> {
    if forall|k: int| 0 <= k < chain.len() ==> nodes.contains_key(#[trigger] chain[k]) {
        Some(Seq::new(chain.len(), |k: int| nodes[chain[k]]))
    } else {
        None
    }
}

/// Resolves a chain of node ids into points, or `None` if any node is not in
/// the extract.
pub fn resolve<P: Copy>(chain: &Vec<i64>, nodes: &Nodes<P>) -> (points: Option<Vec<P>>)
    requires
        nodes.wf(),
    ensures
        match points {
            Some(points) => resolved(chain@, nodes@) == Some(points@),
            None => resolved(chain@, nodes@) is None,
        },
{
    let mut points: Vec<P> = Vec::new();
    let mut i: usize = 0;
    while i < chain.len()
        invariant
            i <= chain@.len(),
            nodes.wf(),
            points@.len() == i,
            forall|k: int|
                #![trigger chain@[k]]
                0 <= k < i ==> nodes@.contains_key(chain@[k]) && points@[k] == nodes@[chain@[k]],
        decreases chain@.len() - i,
    {
        match nodes.get(chain[i]) {
            Some(point) => points.push(point),
            None => {
                assert(!nodes@.contains_key(chain@[i as int]));
                return None;
            },
        }
        i = i + 1;
    }
    assert(points@ =~= Seq::new(chain@.len(), |k: int| nodes@[chain@[k]]));
    Some(points)
}

/// The points of a chain that bounds ground, where every node of it has one.
pub open spec fn ring_resolved<P>(chain: Seq<i64>, nodes: Map<i64, P>) -> Option<Seq<P>> {
    if stitch::is_ring(chain) {
        resolved(chain, nodes)
    } else {
        None
    }
}

/// Resolves a chain that bounds ground, or `None` if it bounds none or any node
/// is not in the extract.
pub(crate) fn resolve_ring<P: Copy>(chain: &Vec<i64>, nodes: &Nodes<P>) -> (points: Option<Vec<P>>)
    requires
        nodes.wf(),
    ensures
        match points {
            Some(points) => ring_resolved(chain@, nodes@) == Some(points@),
            None => ring_resolved(chain@, nodes@) is None,
        },
{
    if bounds_ground(chain) {
        resolve(chain, nodes)
    } else {
        None
    }
}

/// The rings among some chains that bound ground and resolve, in order.
pub open spec fn rings_resolved<P>(chains: Seq<Seq<i64>>, nodes: Map<i64, P>) -> Seq<Seq<P>>
    decreases chains.len(),
{
    if chains.len() == 0 {
        Seq::empty()
    } else {
        let before = rings_resolved(chains.drop_last(), nodes);
        match ring_resolved(chains.last(), nodes) {
            Some(ring) => before.push(ring),
            None => before,
        }
    }
}

/// The fragments of a relation the extract carries, in the order it names them.
pub open spec fn fragments(ways: Seq<i64>, members: Map<i64, Vec<i64>>) -> Seq<Seq<i64>>
    decreases ways.len(),
{
    if ways.len() == 0 {
        Seq::empty()
    } else {
        let before = fragments(ways.drop_last(), members);
        if members.contains_key(ways.last()) {
            before.push(members[ways.last()]@)
        } else {
            before
        }
    }
}

/// The rings of a relation: its fragments stitched, and those that close, bound
/// ground and resolve kept.
pub open spec fn relation_rings<P>(ways: Seq<i64>, members: Map<i64, Vec<i64>>, nodes: Map<i64, P>) -> Seq<Seq<P>> {
    let parts = fragments(ways, members);
    rings_resolved(stitch::stitched_upto(parts, parts.len() as int).closed, nodes)
}

/// How much of a relation is lost: members not carried, chains that will not
/// close, and closed ones that bound no ground or will not resolve.
pub open spec fn relation_losses<P>(ways: Seq<i64>, members: Map<i64, Vec<i64>>, nodes: Map<i64, P>) -> int {
    let parts = fragments(ways, members);
    let pile = stitch::stitched_upto(parts, parts.len() as int);
    ways.len() - parts.len() + pile.open.len() + pile.closed.len() - rings_resolved(pile.closed, nodes).len()
}

/// A material with the rings that bound it.
pub open spec fn painted<P>(polygon: Polygon<P>) -> (Material, Seq<Seq<P>>) {
    (polygon.material, points_of(polygon.rings@))
}

/// The polygons of the closed ways, in order.
pub open spec fn area_polygons<P>(areas: Seq<Area>, nodes: Map<i64, P>) -> Seq<(Material, Seq<Seq<P>>)>
    decreases areas.len(),
{
    if areas.len() == 0 {
        Seq::empty()
    } else {
        let before = area_polygons(areas.drop_last(), nodes);
        match resolved(areas.last().refs@, nodes) {
            Some(ring) => before.push((areas.last().material, seq![ring])),
            None => before,
        }
    }
}

/// The polygons of the relations, in order.
pub open spec fn relation_polygons<P>(
    relations: Seq<MultiPolygon>,
    members: Map<i64, Vec<i64>>,
    nodes: Map<i64, P>,
) -> Seq<(Material, Seq<Seq<P>>)>
    decreases relations.len(),
{
    if relations.len() == 0 {
        Seq::empty()
    } else {
        let before = relation_polygons(relations.drop_last(), members, nodes);
        let rings = relation_rings(relations.last().members@, members, nodes);
        if rings.len() > 0 {
            before.push((relations.last().material, rings))
        } else {
            before
        }
    }
}

/// How much of the relations is lost between them.
pub open spec fn all_losses<P>(relations: Seq<MultiPolygon>, members: Map<i64, Vec<i64>>, nodes: Map<i64, P>) -> int
    decreases relations.len(),
{
    if relations.len() == 0 {
        0
    } else {
        all_losses(relations.drop_last(), members, nodes) + relation_losses(
            relations.last().members@,
            members,
            nodes,
        )
    }
}

/// A count, as far as a counter can say it.
pub open spec fn counted(count: int) -> int {
    if count <= u64::MAX {
        count
    } else {
        u64::MAX as int
    }
}

/// What became of an extract's areas.
pub struct Assembled<P> {
    pub polygons: Vec<Polygon<P>>,
    pub dropped_rings: u64,
    pub dropped_polygons: u64,
}

/// The fragments of a relation that the extract carries.
fn gather(ways: &Vec<i64>, members: &Members) -> (parts: Vec<Vec<i64>>)
    ensures
        stitch::ids(parts@) == fragments(ways@, members@),
        parts@.len() <= ways@.len(),
{
    let mut parts: Vec<Vec<i64>> = Vec::new();
    let mut i: usize = 0;
    while i < ways.len()
        invariant
            i <= ways@.len(),
            parts@.len() <= i,
            stitch::ids(parts@) =~= fragments(ways@.take(i as int), members@),
        decreases ways@.len() - i,
    {
        assert(ways@.take(i + 1).drop_last() =~= ways@.take(i as int));
        if let Some(refs) = members.get(ways[i]) {
            let part: Vec<i64> = refs.clone();
            assert(part@ =~= refs@);
            parts.push(part);
        }
        i = i + 1;
    }
    assert(ways@.take(i as int) =~= ways@);
    parts
}

/// The chains that bound ground and resolve.
fn resolve_all<P: Copy>(chains: &Vec<Vec<i64>>, nodes: &Nodes<P>) -> (rings: Vec<Vec<P>>)
    requires
        nodes.wf(),
    ensures
        points_of(rings@) == rings_resolved(stitch::ids(chains@), nodes@),
        rings@.len() <= chains@.len(),
{
    let ghost all = stitch::ids(chains@);
    let mut rings: Vec<Vec<P>> = Vec::new();
    let mut i: usize = 0;
    while i < chains.len()
        invariant
            i <= chains@.len(),
            nodes.wf(),
            all == stitch::ids(chains@),
            rings@.len() <= i,
            points_of(rings@) =~= rings_resolved(all.take(i as int), nodes@),
        decreases chains@.len() - i,
    {
        assert(all.take(i + 1).drop_last() =~= all.take(i as int));
        assert(all.take(i + 1).last() == chains@[i as int]@);
        if let Some(ring) = resolve_ring(&chains[i], nodes) {
            rings.push(ring);
        }
        i = i + 1;
    }
    assert(all.take(i as int) =~= all);
    rings
}

proof fn lemma_no_gain<P>(chains: Seq<Seq<i64>>, nodes: Map<i64, P>)
    ensures
        rings_resolved(chains, nodes).len() <= chains.len(),
    decreases chains.len(),
{
    if chains.len() > 0 {
        lemma_no_gain(chains.drop_last(), nodes);
    }
}

proof fn lemma_losses_are_not_gains<P>(
    relations: Seq<MultiPolygon>,
    members: Map<i64, Vec<i64>>,
    nodes: Map<i64, P>,
)
    ensures
        all_losses(relations, members, nodes) >= 0,
    decreases relations.len(),
{
    if relations.len() > 0 {
        lemma_losses_are_not_gains(relations.drop_last(), members, nodes);
        let ways = relations.last().members@;
        lemma_fragments_are_members(ways, members);
        let parts = fragments(ways, members);
        lemma_no_gain(stitch::stitched_upto(parts, parts.len() as int).closed, nodes);
    }
}

proof fn lemma_fragments_are_members(ways: Seq<i64>, members: Map<i64, Vec<i64>>)
    ensures
        fragments(ways, members).len() <= ways.len(),
    decreases ways.len(),
{
    if ways.len() > 0 {
        lemma_fragments_are_members(ways.drop_last(), members);
    }
}

/// The rings of a relation, and how much of it is lost.
fn assemble_relation<P: Copy>(ways: &Vec<i64>, members: &Members, nodes: &Nodes<P>) -> (made: (Vec<Vec<P>>, u64))
    requires
        nodes.wf(),
    ensures
        points_of(made.0@) == relation_rings(ways@, members@, nodes@),
        made.1 == counted(relation_losses(ways@, members@, nodes@)),
{
    let parts = gather(ways, members);
    let ghost before = stitch::ids(parts@);
    let lost: u64 = (ways.len() - parts.len()) as u64;
    let stitched = stitch_ways(&parts);
    let rings = resolve_all(&stitched.closed, nodes);
    let unresolved: u64 = (stitched.closed.len() - rings.len()) as u64;
    assert(before.len() == parts@.len());
    assert(stitch::ids(stitched.closed@).len() == stitched.closed@.len());
    assert(stitch::ids(stitched.open@).len() == stitched.open@.len());
    assert(points_of(rings@).len() == rings@.len());
    let losses: u64 = lost.saturating_add(stitched.open.len() as u64).saturating_add(unresolved);
    (rings, losses)
}

/// Every classified area in the extract, as paintable polygons.
pub fn polygons<P: Copy>(extract: &Extract<P>) -> (assembled: Assembled<P>)
    requires
        extract.nodes.wf(),
    ensures
        assembled.polygons@.map_values(|polygon: Polygon<P>| painted(polygon)) == area_polygons(
            extract.areas@,
            extract.nodes@,
        ) + relation_polygons(extract.relations@, extract.members@, extract.nodes@),
        forall|k: int|
            #![trigger assembled.polygons@[k]]
            0 <= k < assembled.polygons@.len() ==> assembled.polygons@[k].layer == material::layer_of(
                assembled.polygons@[k].material,
            ),
        assembled.dropped_rings == counted(
            all_losses(extract.relations@, extract.members@, extract.nodes@),
        ),
        assembled.dropped_polygons == counted(
            extract.areas@.len() + extract.relations@.len() - assembled.polygons@.len(),
        ),
{
    let ghost view = |polygon: Polygon<P>| painted(polygon);
    let mut made: Vec<Polygon<P>> = Vec::new();
    let mut dropped_polygons: u64 = 0;
    let mut i: usize = 0;
    while i < extract.areas.len()
        invariant
            i <= extract.areas@.len(),
            extract.nodes.wf(),
            view == (|polygon: Polygon<P>| painted(polygon)),
            made@.map_values(view) =~= area_polygons(extract.areas@.take(i as int), extract.nodes@),
            forall|k: int|
                #![trigger made@[k]]
                0 <= k < made@.len() ==> made@[k].layer == material::layer_of(made@[k].material),
            dropped_polygons == i - made@.len(),
        decreases extract.areas@.len() - i,
    {
        let area: &Area = &extract.areas[i];
        assert(extract.areas@.take(i + 1).drop_last() =~= extract.areas@.take(i as int));
        match resolve(&area.refs, &extract.nodes) {
            Some(ring) => {
                let ghost points = ring@;
                let mut rings: Vec<Vec<P>> = Vec::new();
                rings.push(ring);
                assert(points_of(rings@) =~= seq![points]);
                if let Some(polygon) = Polygon::new(area.material, rings) {
                    made.push(polygon);
                }
            },
            None => {
                dropped_polygons = dropped_polygons + 1;
            },
        }
        i = i + 1;
    }
    assert(extract.areas@.take(i as int) =~= extract.areas@);
    let ghost of_areas = made@;
    let ghost area_count = extract.areas@.len() as int;
    let mut dropped_rings: u64 = 0;
    let mut r: usize = 0;
    while r < extract.relations.len()
        invariant
            r <= extract.relations@.len(),
            extract.nodes.wf(),
            view == (|polygon: Polygon<P>| painted(polygon)),
            area_count == extract.areas@.len(),
            made@.map_values(view) =~= area_polygons(extract.areas@, extract.nodes@) + relation_polygons(
                extract.relations@.take(r as int),
                extract.members@,
                extract.nodes@,
            ),
            forall|k: int|
                #![trigger made@[k]]
                0 <= k < made@.len() ==> made@[k].layer == material::layer_of(made@[k].material),
            made@.len() <= area_count + r,
            dropped_polygons == counted(area_count + r - made@.len()),
            dropped_rings == counted(
                all_losses(extract.relations@.take(r as int), extract.members@, extract.nodes@),
            ),
        decreases extract.relations@.len() - r,
    {
        let relation: &MultiPolygon = &extract.relations[r];
        proof {
            let longer = extract.relations@.take(r + 1);
            assert(longer.drop_last() =~= extract.relations@.take(r as int));
            lemma_losses_are_not_gains(longer.drop_last(), extract.members@, extract.nodes@);
            lemma_losses_are_not_gains(longer, extract.members@, extract.nodes@);
            lemma_fragments_are_members(relation.members@, extract.members@);
            let parts = fragments(relation.members@, extract.members@);
            lemma_no_gain(stitch::stitched_upto(parts, parts.len() as int).closed, extract.nodes@);
        }
        let (rings, losses) = assemble_relation(&relation.members, &extract.members, &extract.nodes);
        dropped_rings = dropped_rings.saturating_add(losses);
        let ghost points = points_of(rings@);
        let ghost before = made@;
        let ghost earlier = relation_polygons(extract.relations@.take(r as int), extract.members@, extract.nodes@);
        let ghost later = relation_polygons(extract.relations@.take(r + 1), extract.members@, extract.nodes@);
        assert(points.len() == rings@.len());
        match Polygon::new(relation.material, rings) {
            Some(polygon) => {
                assert(later == earlier.push((relation.material, points)));
                assert(painted(polygon) == (relation.material, points));
                made.push(polygon);
                assert(made@.map_values(view) =~= before.map_values(view).push((relation.material, points)));
            },
            None => {
                assert(later == earlier);
                dropped_polygons = dropped_polygons.saturating_add(1);
            },
        }
        r = r + 1;
    }
    assert(extract.relations@.take(r as int) =~= extract.relations@);
    Assembled { polygons: made, dropped_rings, dropped_polygons }
}

/// Every ring kept is a chain that bounds ground and resolved.
proof fn lemma_ring_is_a_chain<P>(chains: Seq<Seq<i64>>, nodes: Map<i64, P>, k: int) -> (chain: int)
    requires
        0 <= k < rings_resolved(chains, nodes).len(),
    ensures
        0 <= chain < chains.len(),
        ring_resolved(chains[chain], nodes) == Some(rings_resolved(chains, nodes)[k]),
    decreases chains.len(),
{
    let before = rings_resolved(chains.drop_last(), nodes);
    if k < before.len() {
        lemma_ring_is_a_chain(chains.drop_last(), nodes, k)
    } else {
        chains.len() - 1
    }
}

/// The rings of a relation bound ground: each ends where it started, after at
/// least three sides.
pub proof fn rings_of_a_relation_close<P>(ways: Seq<i64>, members: Map<i64, Vec<i64>>, nodes: Map<i64, P>, k: int)
    requires
        0 <= k < relation_rings(ways, members, nodes).len(),
    ensures
        relation_rings(ways, members, nodes)[k].len() >= 4,
        relation_rings(ways, members, nodes)[k].first() == relation_rings(ways, members, nodes)[k].last(),
{
    let parts = fragments(ways, members);
    let closed = stitch::stitched_upto(parts, parts.len() as int).closed;
    let chain = lemma_ring_is_a_chain(closed, nodes, k);
    assert(stitch::is_ring(closed[chain]));
}

/// The points a chain runs through, one for each of its nodes.
pub open spec fn run_through<P>(chain: Seq<i64>, nodes: Map<i64, P>) -> Seq<P> {
    Seq::new(chain.len(), |k: int| nodes[chain[k]])
}

/// Whether a chain is a whole ring: at least three sides, back where it
/// started, and every node of it in the extract.
pub open spec fn whole_ring<P>(chain: Seq<i64>, nodes: Map<i64, P>) -> bool {
    &&& chain.len() >= 4
    &&& chain[0] == chain[chain.len() - 1]
    &&& forall|k: int| 0 <= k < chain.len() ==> nodes.contains_key(#[trigger] chain[k])
}

/// A chain resolves exactly when every node of it is in the extract, and then
/// to those nodes' points in turn.
pub proof fn a_chain_resolves_whole_or_not_at_all<P>(chain: Seq<i64>, nodes: Map<i64, P>)
    ensures
        match resolved(chain, nodes) {
            Some(points) => {
                &&& points.len() == chain.len()
                &&& forall|k: int|
                    #![trigger chain[k]]
                    #![trigger points[k]]
                    0 <= k < chain.len() ==> nodes.contains_key(chain[k]) && points[k] == nodes[chain[k]]
            },
            None => exists|k: int| 0 <= k < chain.len() && !nodes.contains_key(#[trigger] chain[k]),
        },
{
}

/// Of some chains, the whole rings are kept, every one of them and in order,
/// and nothing else is.
pub proof fn every_whole_ring_is_kept<P>(chains: Seq<Seq<i64>>, nodes: Map<i64, P>)
    ensures
        order::picks(
            rings_resolved(chains, nodes),
            Seq::new(chains.len(), |k: int| run_through(chains[k], nodes)),
            Seq::new(chains.len(), |k: int| whole_ring(chains[k], nodes)),
        ),
    decreases chains.len(),
{
    let items = Seq::new(chains.len(), |k: int| run_through(chains[k], nodes));
    let flags = Seq::new(chains.len(), |k: int| whole_ring(chains[k], nodes));
    if chains.len() > 0 {
        let fewer = chains.drop_last();
        every_whole_ring_is_kept(fewer, nodes);
        assert(items.drop_last() =~= Seq::new(fewer.len(), |k: int| run_through(fewer[k], nodes)));
        assert(flags.drop_last() =~= Seq::new(fewer.len(), |k: int| whole_ring(fewer[k], nodes)));
        let list = rings_resolved(chains, nodes);
        if flags.last() {
            assert(list.drop_last() =~= rings_resolved(fewer, nodes));
            assert(list.last() =~= items.last());
        }
        order::lemma_picks_one_more(list, items, flags);
    }
}

/// The fragments of a relation are its members that the extract carries, every
/// one of them, in the order the relation names them.
pub proof fn every_carried_member_is_a_fragment(ways: Seq<i64>, members: Map<i64, Vec<i64>>)
    ensures
        order::picks(
            fragments(ways, members),
            Seq::new(ways.len(), |k: int| members[ways[k]]@),
            Seq::new(ways.len(), |k: int| members.contains_key(ways[k])),
        ),
    decreases ways.len(),
{
    let items = Seq::new(ways.len(), |k: int| members[ways[k]]@);
    let flags = Seq::new(ways.len(), |k: int| members.contains_key(ways[k]));
    if ways.len() > 0 {
        let fewer = ways.drop_last();
        every_carried_member_is_a_fragment(fewer, members);
        assert(items.drop_last() =~= Seq::new(fewer.len(), |k: int| members[fewer[k]]@));
        assert(flags.drop_last() =~= Seq::new(fewer.len(), |k: int| members.contains_key(fewer[k])));
        let list = fragments(ways, members);
        if flags.last() {
            assert(list.drop_last() =~= fragments(fewer, members));
        }
        order::lemma_picks_one_more(list, items, flags);
    }
}

/// No ring of a relation is lost uncounted. Every closed chain of its stitched
/// fragments that is a whole ring is one of its rings, in order; and the rings
/// kept and the count of what was dropped together come to the members not
/// carried, the closed chains and the open ones.
pub proof fn no_ring_of_a_relation_is_lost_uncounted<P>(
    ways: Seq<i64>,
    members: Map<i64, Vec<i64>>,
    nodes: Map<i64, P>,
    parts: Seq<Seq<i64>>,
    pile: stitch::Pile,
)
    requires
        order::picks(
            parts,
            Seq::new(ways.len(), |k: int| members[ways[k]]@),
            Seq::new(ways.len(), |k: int| members.contains_key(ways[k])),
        ),
        pile == stitch::stitched_upto(parts, parts.len() as int),
    ensures
        order::picks(
            relation_rings(ways, members, nodes),
            Seq::new(pile.closed.len(), |k: int| run_through(pile.closed[k], nodes)),
            Seq::new(pile.closed.len(), |k: int| whole_ring(pile.closed[k], nodes)),
        ),
        forall|k: int|
            #![trigger pile.closed[k]]
            0 <= k < pile.closed.len() && whole_ring(pile.closed[k], nodes) ==> relation_rings(
                ways,
                members,
                nodes,
            ).contains(run_through(pile.closed[k], nodes)),
        relation_rings(ways, members, nodes).len() + relation_losses(ways, members, nodes) == (ways.len()
            - parts.len()) + pile.closed.len() + pile.open.len(),
{
    let items = Seq::new(ways.len(), |k: int| members[ways[k]]@);
    let carried = Seq::new(ways.len(), |k: int| members.contains_key(ways[k]));
    every_carried_member_is_a_fragment(ways, members);
    order::lemma_picks_settled(parts, fragments(ways, members), items, carried);
    every_whole_ring_is_kept(pile.closed, nodes);
    let rings = relation_rings(ways, members, nodes);
    let flags = Seq::new(pile.closed.len(), |k: int| whole_ring(pile.closed[k], nodes));
    assert forall|k: int|
        #![trigger pile.closed[k]]
        0 <= k < pile.closed.len() && whole_ring(pile.closed[k], nodes) implies rings.contains(
        run_through(pile.closed[k], nodes),
    ) by {
        assert(flags[k]);
        order::lemma_chosen_grows(flags, k, flags.len() as int);
        assert(rings[order::chosen(flags, k)] == run_through(pile.closed[k], nodes));
    }
}

/// Every closed way whose nodes are all in the extract becomes a polygon of its
/// material with the one ring, in order, and no other does.
pub proof fn every_whole_area_is_a_polygon<P>(areas: Seq<Area>, nodes: Map<i64, P>)
    ensures
        order::picks(
            area_polygons(areas, nodes),
            Seq::new(areas.len(), |k: int| (areas[k].material, seq![run_through(areas[k].refs@, nodes)])),
            Seq::new(
                areas.len(),
                |k: int|
                    forall|m: int| 0 <= m < areas[k].refs@.len() ==> nodes.contains_key(#[trigger] areas[k].refs@[m]),
            ),
        ),
    decreases areas.len(),
{
    let items = Seq::new(
        areas.len(),
        |k: int| (areas[k].material, seq![run_through(areas[k].refs@, nodes)]),
    );
    let flags = Seq::new(
        areas.len(),
        |k: int|
            forall|m: int| 0 <= m < areas[k].refs@.len() ==> nodes.contains_key(#[trigger] areas[k].refs@[m]),
    );
    if areas.len() > 0 {
        let fewer = areas.drop_last();
        every_whole_area_is_a_polygon(fewer, nodes);
        assert(items.drop_last() =~= Seq::new(
            fewer.len(),
            |k: int| (fewer[k].material, seq![run_through(fewer[k].refs@, nodes)]),
        ));
        assert(flags.drop_last() =~= Seq::new(
            fewer.len(),
            |k: int|
                forall|m: int| 0 <= m < fewer[k].refs@.len() ==> nodes.contains_key(#[trigger] fewer[k].refs@[m]),
        ));
        let list = area_polygons(areas, nodes);
        if flags.last() {
            assert(list.drop_last() =~= area_polygons(fewer, nodes));
            assert(list.last().1[0] =~= run_through(areas.last().refs@, nodes));
            assert(list.last().1 =~= items.last().1);
        }
        order::lemma_picks_one_more(list, items, flags);
    }
}

/// Every relation with a ring becomes a polygon of its material with all its
/// rings, in order, and no other does.
pub proof fn every_relation_with_a_ring_is_a_polygon<P>(
    relations: Seq<MultiPolygon>,
    members: Map<i64, Vec<i64>>,
    nodes: Map<i64, P>,
)
    ensures
        order::picks(
            relation_polygons(relations, members, nodes),
            Seq::new(
                relations.len(),
                |k: int| (relations[k].material, relation_rings(relations[k].members@, members, nodes)),
            ),
            Seq::new(
                relations.len(),
                |k: int| relation_rings(relations[k].members@, members, nodes).len() != 0,
            ),
        ),
    decreases relations.len(),
{
    let items = Seq::new(
        relations.len(),
        |k: int| (relations[k].material, relation_rings(relations[k].members@, members, nodes)),
    );
    let flags = Seq::new(
        relations.len(),
        |k: int| relation_rings(relations[k].members@, members, nodes).len() != 0,
    );
    if relations.len() > 0 {
        let fewer = relations.drop_last();
        every_relation_with_a_ring_is_a_polygon(fewer, members, nodes);
        assert(items.drop_last() =~= Seq::new(
            fewer.len(),
            |k: int| (fewer[k].material, relation_rings(fewer[k].members@, members, nodes)),
        ));
        assert(flags.drop_last() =~= Seq::new(
            fewer.len(),
            |k: int| relation_rings(fewer[k].members@, members, nodes).len() != 0,
        ));
        let list = relation_polygons(relations, members, nodes);
        if flags.last() {
            assert(list.drop_last() =~= relation_polygons(fewer, members, nodes));
        }
        order::lemma_picks_one_more(list, items, flags);
    }
}

/// A count is told as it is, up to the most a counter can say.
pub proof fn a_count_is_told_as_it_is(count: int)
    ensures
        count <= 0xffff_ffff_ffff_ffff ==> counted(count) == count,
        count > 0xffff_ffff_ffff_ffff ==> counted(count) == 0xffff_ffff_ffff_ffff,
{
}

/// What two batches of relations lose together is what each loses.
pub proof fn losses_add_up<P>(
    a: Seq<MultiPolygon>,
    b: Seq<MultiPolygon>,
    members: Map<i64, Vec<i64>>,
    nodes: Map<i64, P>,
)
    ensures
        all_losses(a + b, members, nodes) == all_losses(a, members, nodes) + all_losses(b, members, nodes),
        a.len() == 1 ==> all_losses(a, members, nodes) == relation_losses(a[0].members@, members, nodes),
        a.len() == 0 ==> all_losses(a, members, nodes) == 0,
    decreases b.len(),
{
    reveal_with_fuel(all_losses, 2);
    if b.len() == 0 {
        assert(a + b =~= a);
    } else {
        losses_add_up(a, b.drop_last(), members, nodes);
        assert((a + b).drop_last() =~= a + b.drop_last());
        assert((a + b).last() == b.last());
    }
}

/// The points of some rings are each ring's own, in order, and so is what a
/// polygon is painted from.
pub proof fn the_points_of_rings_are_their_own<P>(rings: Seq<Vec<P>>, polygon: Polygon<P>, k: int)
    ensures
        points_of(rings).len() == rings.len(),
        0 <= k < rings.len() ==> points_of(rings)[k] == rings[k]@,
        painted(polygon).0 == polygon.material,
        painted(polygon).1.len() == polygon.rings@.len(),
        0 <= k < polygon.rings@.len() ==> painted(polygon).1[k] == polygon.rings@[k]@,
{
}

} // verus!
