//! Pulling the areas that are painted out of an OpenStreetMap extract.
//!
//! The extract is a stream of nodes, then ways, then relations, and elements
//! refer to each other by id only. It is read in three passes: the ways and
//! relations that classify, then the ways the relations named, then the nodes
//! that all of those reference. This module decides what each pass keeps.

use vstd::prelude::*;
use std::collections::HashMap;
use crate::ids;
use crate::ids::{find, sorted_unique};
use crate::material::Material;
use crate::order;
use crate::stitch;
use crate::stitch::bounds_ground;
use crate::tags;
use crate::tags::{classify, has_tag};

verus! {

/// The record of where an extract came from.
#[derive(Debug)]
pub struct SourceRecord {
    /// The extract's file name inside its directory.
    pub file: String,
    /// The region it covers.
    pub region: String,
}

/// One classified closed way: a single ring of ground cover.
pub struct Area {
    pub material: Material,
    /// Node ids around the ring; first and last are the same node.
    pub refs: Vec<i64>,
}

/// One classified multipolygon relation, geometry still by reference.
///
/// Member roles are not kept: rings are filled even-odd, where a ring inside a
/// ring is a hole by construction.
pub struct MultiPolygon {
    pub material: Material,
    /// Ids of the member ways.
    pub members: Vec<i64>,
}

/// The positions of every node the kept ways reference.
///
/// A sorted id column beside a position column.
pub struct Nodes<P> {
    ids: Vec<i64>,
    positions: Vec<P>,
}

impl<P: Copy> View for Nodes<P> {
    type V = Map<i64, P>;

    closed spec fn view(&self) -> Map<i64, P> {
        column_map(self.ids@, self.positions@)
    }
}

/// Ids with a value each.
pub open spec fn column_map<P>(ids: Seq<i64>, values: Seq<P>) -> Map<i64, P> {
    Map::new(|id: i64| ids.contains(id), |id: i64| values[ids.index_of(id)])
}

/// Where a rising column holds an id, its value is the one beside it.
proof fn lemma_column_map<P>(ids: Seq<i64>, values: Seq<P>, at: int)
    requires
        ids::rising(ids),
        0 <= at < ids.len(),
    ensures
        column_map(ids, values).contains_key(ids[at]),
        column_map(ids, values)[ids[at]] == values[at],
{
    assert(ids.contains(ids[at]));
    let found = ids.index_of(ids[at]);
    assert(ids[found] == ids[at]);
}

impl<P: Copy> Nodes<P> {
    /// The ids rise and each has a position.
    pub closed spec fn wf(&self) -> bool {
        &&& ids::rising(self.ids@)
        &&& self.positions@.len() == self.ids@.len()
    }

    /// A node table from parallel columns.
    pub fn from_columns(ids: Vec<i64>, positions: Vec<P>) -> (nodes: Nodes<P>)
        requires
            ids::rising(ids@),
            positions@.len() == ids@.len(),
        ensures
            nodes.wf(),
            nodes@ == column_map(ids@, positions@),
    {
        Nodes { ids, positions }
    }

    /// The columns of the table.
    pub fn into_columns(self) -> (columns: (Vec<i64>, Vec<P>))
        requires
            self.wf(),
        ensures
            ids::rising(columns.0@),
            columns.1@.len() == columns.0@.len(),
            self@ == column_map(columns.0@, columns.1@),
    {
        (self.ids, self.positions)
    }

    /// The position of a node, or `None` for an id the extract never carried,
    /// which happens where the region clip cut a way's far end off.
    pub fn get(&self, id: i64) -> (position: Option<P>)
        requires
            self.wf(),
        ensures
            match position {
                Some(position) => self@.contains_key(id) && self@[id] == position,
                None => !self@.contains_key(id),
            },
    {
        match find(&self.ids, id) {
            Some(at) => {
                proof {
                    lemma_column_map(self.ids@, self.positions@, at as int);
                }
                Some(self.positions[at])
            },
            None => None,
        }
    }
}

/// What the first pass has kept.
pub struct Scan {
    pub areas: Vec<Area>,
    pub relations: Vec<MultiPolygon>,
    /// `natural=coastline` ways, directed with land on the left.
    pub coastlines: Vec<Vec<i64>>,
    /// Classified ways that do not close.
    pub unclosed: u64,
}

/// What becomes of a way.
pub enum Kept {
    Coastline,
    Area(Material),
    Unclosed,
    Nothing,
}

/// What becomes of a way with some tags and nodes.
pub open spec fn way_kept(tags: Seq<(&str, &str)>, refs: Seq<i64>) -> Kept {
    if tags::tagged(tags, "natural"@, "coastline"@) {
        Kept::Coastline
    } else {
        match tags::classified(tags) {
            Some(material) => if stitch::is_ring(refs) {
                Kept::Area(material)
            } else {
                Kept::Unclosed
            },
            None => Kept::Nothing,
        }
    }
}

/// The members of a relation that are ways.
pub open spec fn ways_among(members: Seq<(bool, i64)>) -> Seq<i64>
    decreases members.len(),
{
    if members.len() == 0 {
        Seq::empty()
    } else if members.last().0 {
        ways_among(members.drop_last()).push(members.last().1)
    } else {
        ways_among(members.drop_last())
    }
}

/// The material of a relation worth keeping.
pub open spec fn relation_kept(tags: Seq<(&str, &str)>, members: Seq<(bool, i64)>) -> Option<Material> {
    if tags::tagged(tags, "type"@, "multipolygon"@) && ways_among(members).len() > 0 {
        tags::classified(tags)
    } else {
        None
    }
}

impl Scan {
    /// A scan that has seen nothing.
    pub fn new() -> (scan: Scan)
        ensures
            scan.areas@.len() == 0,
            scan.relations@.len() == 0,
            scan.coastlines@.len() == 0,
            scan.unclosed == 0,
    {
        Scan { areas: Vec::new(), relations: Vec::new(), coastlines: Vec::new(), unclosed: 0 }
    }

    /// Takes in a way.
    ///
    /// Coastline is kept whole and in order. A lone way must close on itself to
    /// hold ground: open ones are either mapping errors or rings the region
    /// clip cut, and a guessed closure would paint ground that is not there.
    pub fn way(&mut self, tags: &[(&str, &str)], refs: Vec<i64>)
        requires
            old(self).unclosed < u64::MAX,
        ensures
            final(self).relations@ == old(self).relations@,
            match way_kept(tags@, refs@) {
                Kept::Coastline => {
                    &&& final(self).coastlines@ == old(self).coastlines@.push(refs)
                    &&& final(self).areas@ == old(self).areas@
                    &&& final(self).unclosed == old(self).unclosed
                },
                Kept::Area(material) => {
                    &&& final(self).coastlines@ == old(self).coastlines@
                    &&& final(self).areas@ == old(self).areas@.push((Area { material, refs }))
                    &&& final(self).unclosed == old(self).unclosed
                },
                Kept::Unclosed => {
                    &&& final(self).coastlines@ == old(self).coastlines@
                    &&& final(self).areas@ == old(self).areas@
                    &&& final(self).unclosed == old(self).unclosed + 1
                },
                Kept::Nothing => {
                    &&& final(self).coastlines@ == old(self).coastlines@
                    &&& final(self).areas@ == old(self).areas@
                    &&& final(self).unclosed == old(self).unclosed
                },
            },
    {
        if has_tag(tags, "natural", "coastline") {
            self.coastlines.push(refs);
            return;
        }
        if let Some(material) = classify(tags) {
            if bounds_ground(&refs) {
                self.areas.push(Area { material, refs });
            } else {
                self.unclosed = self.unclosed + 1;
            }
        }
    }

    /// Takes in a relation, each member told by whether it is a way and its id.
    pub fn relation(&mut self, tags: &[(&str, &str)], members: &[(bool, i64)])
        ensures
            final(self).areas@ == old(self).areas@,
            final(self).coastlines@ == old(self).coastlines@,
            final(self).unclosed == old(self).unclosed,
            match relation_kept(tags@, members@) {
                Some(material) => {
                    &&& final(self).relations@.len() == old(self).relations@.len() + 1
                    &&& final(self).relations@.drop_last() == old(self).relations@
                    &&& final(self).relations@.last().material == material
                    &&& final(self).relations@.last().members@ == ways_among(members@)
                },
                None => final(self).relations@ == old(self).relations@,
            },
    {
        if !has_tag(tags, "type", "multipolygon") {
            return;
        }
        if let Some(material) = classify(tags) {
            let mut kept: Vec<i64> = Vec::new();
            let mut i: usize = 0;
            while i < members.len()
                invariant
                    i <= members@.len(),
                    kept@ == ways_among(members@.take(i as int)),
                decreases members@.len() - i,
            {
                assert(members@.take(i + 1).drop_last() =~= members@.take(i as int));
                if members[i].0 {
                    kept.push(members[i].1);
                }
                i = i + 1;
            }
            assert(members@.take(i as int) =~= members@);
            if kept.len() > 0 {
                self.relations.push(MultiPolygon { material, members: kept });
                assert(self.relations@.drop_last() =~= old(self).relations@);
            }
        }
    }

    /// The ways the relations name, sorted and each once.
    pub fn wanted_ways(&self) -> (wanted: Vec<i64>)
        ensures
            ids::rising(wanted@),
            forall|id: i64| #[trigger] wanted@.contains(id) <==> named(self.relations@, id),
    {
        let mut all: Vec<i64> = Vec::new();
        let mut r: usize = 0;
        while r < self.relations.len()
            invariant
                r <= self.relations@.len(),
                forall|id: i64| #[trigger] all@.contains(id) <==> named(self.relations@.take(r as int), id),
            decreases self.relations@.len() - r,
        {
            let ghost before = all@;
            let members: &Vec<i64> = &self.relations[r].members;
            extend(&mut all, members);
            proof {
                let (shorter, longer) = (self.relations@.take(r as int), self.relations@.take(r + 1));
                assert forall|id: i64| #[trigger] all@.contains(id) <==> named(longer, id) by {
                    assert(before.contains(id) <==> named(shorter, id));
                    if named(shorter, id) {
                        let k = choose|k: int| 0 <= k < shorter.len() && (#[trigger] shorter[k]).members@.contains(id);
                        assert(longer[k].members@.contains(id));
                    }
                    if members@.contains(id) {
                        assert(longer[r as int].members@.contains(id));
                    }
                    if named(longer, id) {
                        let k = choose|k: int| 0 <= k < longer.len() && (#[trigger] longer[k]).members@.contains(id);
                        if k < r {
                            assert(shorter[k].members@.contains(id));
                        }
                    }
                }
            }
            r = r + 1;
        }
        assert(self.relations@.take(r as int) =~= self.relations@);
        sorted_unique(&all)
    }
}

/// Whether some relation names a way.
pub open spec fn named(relations: Seq<MultiPolygon>, id: i64) -> bool {
    exists|k: int| 0 <= k < relations.len() && (#[trigger] relations[k]).members@.contains(id)
}

/// Appends a list to another.
fn extend(all: &mut Vec<i64>, more: &Vec<i64>)
    ensures
        final(all)@ == old(all)@ + more@,
        forall|id: i64| #[trigger]
            final(all)@.contains(id) <==> old(all)@.contains(id) || more@.contains(id),
{
    let ghost before = all@;
    let mut i: usize = 0;
    while i < more.len()
        invariant
            i <= more@.len(),
            all@ =~= before + more@.take(i as int),
        decreases more@.len() - i,
    {
        all.push(more[i]);
        i = i + 1;
    }
    proof {
        assert(more@.take(i as int) =~= more@);
        assert forall|id: i64| #[trigger] all@.contains(id) <==> before.contains(id) || more@.contains(id) by {
            if before.contains(id) {
                let k = choose|k: int| 0 <= k < before.len() && before[k] == id;
                assert(all@[k] == id);
            }
            if more@.contains(id) {
                let k = choose|k: int| 0 <= k < more@.len() && more@[k] == id;
                assert(all@[before.len() + k] == id);
            }
            if all@.contains(id) {
                let k = choose|k: int| 0 <= k < all@.len() && all@[k] == id;
                if k < before.len() {
                    assert(before[k] == id);
                } else {
                    assert(more@[k - before.len()] == id);
                }
            }
        }
    }
}

/// What the second pass has kept: the nodes of every way a relation names.
pub struct Members {
    wanted: Vec<i64>,
    found: HashMap<i64, Vec<i64>>,
}

impl View for Members {
    type V = Map<i64, Vec<i64>>;

    closed spec fn view(&self) -> Map<i64, Vec<i64>> {
        self.found@
    }
}

impl Members {
    /// The ways that are kept as they come past.
    pub closed spec fn wanted(&self) -> Seq<i64> {
        self.wanted@
    }

    /// Nothing is held that was not wanted.
    pub closed spec fn wf(&self) -> bool {
        &&& ids::rising(self.wanted@)
        &&& forall|id: i64| #[trigger] self.found@.contains_key(id) ==> self.wanted@.contains(id)
    }

    /// Nothing found yet of what is wanted.
    pub fn new(wanted: Vec<i64>) -> (members: Members)
        requires
            ids::rising(wanted@),
        ensures
            members.wf(),
            members.wanted() == wanted@,
            members@ == Map::<i64, Vec<i64>>::empty(),
    {
        Members { wanted, found: HashMap::new() }
    }

    /// Takes in a way, if it is wanted.
    pub fn way(&mut self, id: i64, refs: Vec<i64>)
        requires
            old(self).wf(),
        ensures
            final(self).wf(),
            final(self).wanted() == old(self).wanted(),
            final(self)@ == if old(self).wanted().contains(id) {
                old(self)@.insert(id, refs)
            } else {
                old(self)@
            },
    {
        broadcast use vstd::std_specs::hash::group_hash_axioms;

        if find(&self.wanted, id).is_some() {
            self.found.insert(id, refs);
        }
    }

    /// The nodes of a way, if it came past.
    pub fn get(&self, id: i64) -> (refs: Option<&Vec<i64>>)
        ensures
            match refs {
                Some(refs) => self@.contains_key(id) && self@[id] == *refs,
                None => !self@.contains_key(id),
            },
    {
        broadcast use vstd::std_specs::hash::group_hash_axioms;

        self.found.get(&id)
    }

    /// How many ways came past.
    pub fn len(&self) -> (count: usize)
        ensures
            count == self@.len(),
    {
        broadcast use vstd::std_specs::hash::group_hash_axioms;

        self.found.len()
    }
}

/// Whether a kept way references a node.
pub open spec fn referenced(
    areas: Seq<Area>,
    coastlines: Seq<Vec<i64>>,
    members: Map<i64, Vec<i64>>,
    id: i64,
) -> bool {
    ||| exists|k: int| 0 <= k < areas.len() && (#[trigger] areas[k]).refs@.contains(id)
    ||| exists|k: int| 0 <= k < coastlines.len() && (#[trigger] coastlines[k])@.contains(id)
    ||| exists|way: i64| #[trigger] members.contains_key(way) && members[way]@.contains(id)
}

/// The nodes the kept ways reference, sorted and each once.
pub fn node_ids(areas: &Vec<Area>, coastlines: &Vec<Vec<i64>>, members: &Members) -> (nodes: Vec<i64>)
    requires
        members.wf(),
    ensures
        ids::rising(nodes@),
        forall|id: i64| #[trigger]
            nodes@.contains(id) <==> referenced(areas@, coastlines@, members@, id),
{
    let mut all: Vec<i64> = Vec::new();
    let mut i: usize = 0;
    while i < areas.len()
        invariant
            i <= areas@.len(),
            forall|id: i64| #[trigger]
                all@.contains(id) <==> exists|k: int| 0 <= k < i && (#[trigger] areas@[k]).refs@.contains(id),
        decreases areas@.len() - i,
    {
        let ghost before = all@;
        extend(&mut all, &areas[i].refs);
        proof {
            assert forall|id: i64| #[trigger] all@.contains(id) <==> exists|k: int|
                0 <= k < i + 1 && (#[trigger] areas@[k]).refs@.contains(id) by {
                assert(before.contains(id) <==> exists|k: int|
                    0 <= k < i && (#[trigger] areas@[k]).refs@.contains(id));
                if areas@[i as int].refs@.contains(id) {
                    assert(areas@[i as int].refs@.contains(id));
                }
            }
        }
        i = i + 1;
    }
    let ghost of_areas = all@;
    let mut i: usize = 0;
    while i < coastlines.len()
        invariant
            i <= coastlines@.len(),
            forall|id: i64| #[trigger]
                all@.contains(id) <==> of_areas.contains(id) || exists|k: int|
                    0 <= k < i && (#[trigger] coastlines@[k])@.contains(id),
        decreases coastlines@.len() - i,
    {
        let ghost before = all@;
        extend(&mut all, &coastlines[i]);
        proof {
            assert forall|id: i64| #[trigger] all@.contains(id) <==> of_areas.contains(id) || exists|k: int|
                0 <= k < i + 1 && (#[trigger] coastlines@[k])@.contains(id) by {
                assert(before.contains(id) <==> of_areas.contains(id) || exists|k: int|
                    0 <= k < i && (#[trigger] coastlines@[k])@.contains(id));
                if coastlines@[i as int]@.contains(id) {
                    assert(coastlines@[i as int]@.contains(id));
                }
            }
        }
        i = i + 1;
    }
    let ghost of_both = all@;
    let mut i: usize = 0;
    while i < members.wanted.len()
        invariant
            i <= members.wanted@.len(),
            members.wf(),
            forall|id: i64| #[trigger]
                all@.contains(id) <==> of_both.contains(id) || exists|k: int|
                    #![trigger members.wanted@[k]]
                    0 <= k < i && members@.contains_key(members.wanted@[k]) && members@[members.wanted@[k]]@.contains(
                        id,
                    ),
        decreases members.wanted@.len() - i,
    {
        let ghost before = all@;
        let way: i64 = members.wanted[i];
        if let Some(refs) = members.get(way) {
            extend(&mut all, refs);
        }
        proof {
            assert forall|id: i64| #[trigger] all@.contains(id) <==> of_both.contains(id) || exists|k: int|
                #![trigger members.wanted@[k]]
                0 <= k < i + 1 && members@.contains_key(members.wanted@[k]) && members@[members.wanted@[k]]@.contains(
                    id,
                ) by {
                assert(before.contains(id) <==> of_both.contains(id) || exists|k: int|
                    #![trigger members.wanted@[k]]
                    0 <= k < i && members@.contains_key(members.wanted@[k]) && members@[members.wanted@[k]]@.contains(
                        id,
                    ));
                if members@.contains_key(way) && members@[way]@.contains(id) {
                    assert(members.wanted@[i as int] == way);
                }
            }
        }
        i = i + 1;
    }
    let nodes = sorted_unique(&all);
    proof {
        assert forall|id: i64| #[trigger] nodes@.contains(id) <==> referenced(areas@, coastlines@, members@, id) by {
            assert(all@.contains(id) <==> nodes@.contains(id));
            assert(of_both.contains(id) || !of_both.contains(id));
            assert(of_areas.contains(id) || !of_areas.contains(id));
            if exists|way: i64| #[trigger] members@.contains_key(way) && members@[way]@.contains(id) {
                let way = choose|way: i64| #[trigger] members@.contains_key(way) && members@[way]@.contains(id);
                assert(members.wanted@.contains(way));
                let k = choose|k: int| 0 <= k < members.wanted@.len() && members.wanted@[k] == way;
                assert(members@.contains_key(members.wanted@[k]));
            }
        }
    }
    nodes
}

/// What the third pass has found: a position for each id it came past.
pub struct Positions<P> {
    ids: Vec<i64>,
    found: Vec<Option<P>>,
}

impl<P: Copy> View for Positions<P> {
    type V = Map<i64, P>;

    closed spec fn view(&self) -> Map<i64, P> {
        Map::new(
            |id: i64| self.ids@.contains(id) && self.found@[self.ids@.index_of(id)] is Some,
            |id: i64| self.found@[self.ids@.index_of(id)]->0,
        )
    }
}

impl<P: Copy> Positions<P> {
    /// The nodes that are placed as they come past.
    pub closed spec fn wanted(&self) -> Seq<i64> {
        self.ids@
    }

    /// The ids rise and each has a place.
    pub closed spec fn wf(&self) -> bool {
        &&& ids::rising(self.ids@)
        &&& self.found@.len() == self.ids@.len()
    }

    /// Nothing placed yet.
    pub fn new(ids: Vec<i64>) -> (positions: Positions<P>)
        requires
            ids::rising(ids@),
        ensures
            positions.wf(),
            positions.wanted() == ids@,
            positions@ == Map::<i64, P>::empty(),
    {
        let mut found: Vec<Option<P>> = Vec::new();
        let mut i: usize = 0;
        while i < ids.len()
            invariant
                i <= ids@.len(),
                found@.len() == i,
                forall|k: int| 0 <= k < i ==> #[trigger] found@[k] is None,
            decreases ids@.len() - i,
        {
            found.push(None);
            i = i + 1;
        }
        let positions = Positions { ids, found };
        proof {
            assert forall|id: i64| !positions@.contains_key(id) by {
                if positions.ids@.contains(id) {
                    let at = positions.ids@.index_of(id);
                    assert(positions.ids@[at] == id);
                    assert(positions.found@[at] is None);
                }
            }
            assert(positions@ =~= Map::empty());
        }
        positions
    }

    /// Takes in a node, if it is wanted.
    pub fn node(&mut self, id: i64, position: P)
        requires
            old(self).wf(),
        ensures
            final(self).wf(),
            final(self).wanted() == old(self).wanted(),
            final(self)@ == if old(self).wanted().contains(id) {
                old(self)@.insert(id, position)
            } else {
                old(self)@
            },
    {
        if let Some(at) = find(&self.ids, id) {
            self.found[at] = Some(position);
            proof {
                let before = old(self);
                assert(self.ids@.contains(id));
                assert forall|other: i64| #[trigger] self.ids@.contains(other) implies {
                    let k = self.ids@.index_of(other);
                    self.ids@[k] == other && (k == at <==> other == id)
                } by {
                    let k = self.ids@.index_of(other);
                    assert(self.ids@[k] == other);
                    assert(self.ids@[at as int] == id);
                }
                assert(self@ =~= before@.insert(id, position));
            }
        } else {
            assert(self@ =~= old(self)@);
        }
    }

    /// The table of what was found, and how many nodes never came past.
    pub fn finish(self) -> (table: (Nodes<P>, u64))
        requires
            self.wf(),
        ensures
            table.0.wf(),
            table.0@ == self@,
            table.1 == self.wanted().len() - self@.len(),
    {
        let mut ids: Vec<i64> = Vec::new();
        let mut positions: Vec<P> = Vec::new();
        let mut missing: u64 = 0;
        let count: usize = self.ids.len();
        let mut i: usize = 0;
        while i < count
            invariant
                i <= count,
                count == self.ids@.len(),
                self.wf(),
                ids@.len() == positions@.len(),
                ids@.len() + missing == i,
                ids::rising(ids@),
                forall|k: int| 0 <= k < ids@.len() && i < count ==> #[trigger] ids@[k] < self.ids@[i as int],
                forall|k: int|
                    #![trigger ids@[k]]
                    0 <= k < ids@.len() ==> self@.contains_key(ids@[k]) && self@[ids@[k]] == positions@[k],
                forall|k: int|
                    #![trigger self.ids@[k]]
                    0 <= k < i && self.found@[k] is Some ==> ids@.contains(self.ids@[k]),
            decreases count - i,
        {
            let ghost before = ids@;
            proof {
                assert(self.ids@.contains(self.ids@[i as int]));
                let k = self.ids@.index_of(self.ids@[i as int]);
                assert(self.ids@[k] == self.ids@[i as int]);
            }
            match self.found[i] {
                Some(position) => {
                    ids.push(self.ids[i]);
                    positions.push(position);
                    proof {
                        assert forall|k: int|
                            #![trigger self.ids@[k]]
                            0 <= k < i + 1 && self.found@[k] is Some implies ids@.contains(self.ids@[k]) by {
                            if k < i {
                                let m = choose|m: int| 0 <= m < before.len() && before[m] == self.ids@[k];
                                assert(ids@[m] == self.ids@[k]);
                            } else {
                                assert(ids@[before.len() as int] == self.ids@[k]);
                            }
                        }
                    }
                },
                None => {
                    missing = missing + 1;
                },
            }
            i = i + 1;
        }
        proof {
            assert forall|id: i64| #[trigger] self@.contains_key(id) <==> ids@.contains(id) by {
                if self@.contains_key(id) {
                    let k = self.ids@.index_of(id);
                    assert(self.ids@[k] == id);
                }
                if ids@.contains(id) {
                    let k = choose|k: int| 0 <= k < ids@.len() && ids@[k] == id;
                    assert(self@.contains_key(ids@[k]));
                }
            }
            let made = column_map(ids@, positions@);
            assert forall|id: i64| #[trigger] made.contains_key(id) implies made[id] == self@[id] by {
                let k = ids@.index_of(id);
                assert(ids@[k] == id);
            }
            assert(made =~= self@);
            ids@.unique_seq_to_set();
            assert(ids@.to_set() =~= self@.dom());
        }
        (Nodes { ids, positions }, missing)
    }
}

/// Everything an extract holds that is painted.
pub struct Extract<P> {
    pub areas: Vec<Area>,
    pub relations: Vec<MultiPolygon>,
    /// `natural=coastline` ways, directed with land on the left.
    pub coastlines: Vec<Vec<i64>>,
    /// The nodes of every way a relation names, by way.
    pub members: Members,
    pub nodes: Nodes<P>,
}

/// A way tagged as coastline is kept as that, whatever else it is. Any other is
/// kept as an area where it classifies and closes after at least three sides, is
/// counted where it classifies and does not, and is nothing where it does not
/// classify.
pub proof fn a_way_is_coast_before_it_is_ground(tags: Seq<(&str, &str)>, refs: Seq<i64>)
    ensures
        ({
            let coast = exists|k: int|
                0 <= k < tags.len() && (#[trigger] tags[k]).0@ == "natural"@ && tags[k].1@ == "coastline"@;
            let closed = refs.len() >= 4 && refs[0] == refs[refs.len() - 1];
            &&& coast ==> way_kept(tags, refs) == Kept::Coastline
            &&& !coast ==> match tags::classified(tags) {
                Some(material) => way_kept(tags, refs) == if closed {
                    Kept::Area(material)
                } else {
                    Kept::Unclosed
                },
                None => way_kept(tags, refs) == Kept::Nothing,
            }
        }),
{
}

/// A relation is kept where it is tagged as a multipolygon, classifies, and has
/// a way among its members.
pub proof fn a_relation_is_kept_for_its_ways(tags: Seq<(&str, &str)>, members: Seq<(bool, i64)>)
    ensures
        ({
            let typed = exists|k: int|
                0 <= k < tags.len() && (#[trigger] tags[k]).0@ == "type"@ && tags[k].1@ == "multipolygon"@;
            let holds = exists|k: int| 0 <= k < members.len() && (#[trigger] members[k]).0;
            &&& typed && holds ==> relation_kept(tags, members) == tags::classified(tags)
            &&& !(typed && holds) ==> relation_kept(tags, members) is None
        }),
{
    let flags = Seq::new(members.len(), |k: int| members[k].0);
    every_way_among_the_members_is_kept(members);
    if exists|k: int| 0 <= k < members.len() && (#[trigger] members[k]).0 {
        let k = choose|k: int| 0 <= k < members.len() && (#[trigger] members[k]).0;
        assert(flags[k]);
        order::lemma_chosen_grows(flags, k, flags.len() as int);
    } else {
        lemma_none_chosen(flags, flags.len() as int);
    }
}

proof fn lemma_none_chosen(flags: Seq<bool>, upto: int)
    requires
        0 <= upto <= flags.len(),
        forall|k: int| 0 <= k < flags.len() ==> !#[trigger] flags[k],
    ensures
        order::chosen(flags, upto) == 0,
    decreases upto,
{
    if upto > 0 {
        assert(!flags[upto - 1]);
        lemma_none_chosen(flags, upto - 1);
    }
}

/// The ways among a relation's members are kept, every one of them and in order,
/// and no other member is.
pub proof fn every_way_among_the_members_is_kept(members: Seq<(bool, i64)>)
    ensures
        order::picks(
            ways_among(members),
            Seq::new(members.len(), |k: int| members[k].1),
            Seq::new(members.len(), |k: int| members[k].0),
        ),
    decreases members.len(),
{
    let items = Seq::new(members.len(), |k: int| members[k].1);
    let flags = Seq::new(members.len(), |k: int| members[k].0);
    if members.len() > 0 {
        let fewer = members.drop_last();
        every_way_among_the_members_is_kept(fewer);
        assert(items.drop_last() =~= Seq::new(fewer.len(), |k: int| fewer[k].1));
        assert(flags.drop_last() =~= Seq::new(fewer.len(), |k: int| fewer[k].0));
        let list = ways_among(members);
        if flags.last() {
            assert(list.drop_last() =~= ways_among(fewer));
        }
        order::lemma_picks_one_more(list, items, flags);
    }
}

/// A table of rising ids holds each of them with what stands beside it, and no
/// other.
pub proof fn a_table_holds_what_stands_beside<P>(ids: Seq<i64>, values: Seq<P>, at: int, id: i64)
    requires
        ids::rising(ids),
        0 <= at < ids.len(),
    ensures
        column_map(ids, values).contains_key(ids[at]),
        column_map(ids, values)[ids[at]] == values[at],
        column_map(ids, values).contains_key(id) ==> exists|k: int| 0 <= k < ids.len() && #[trigger] ids[k] == id,
{
    lemma_column_map(ids, values, at);
}

/// Every node of every kept way is wanted: of an area, of the coast, and of a way
/// a relation names. Every way a relation names is wanted too.
pub proof fn nothing_kept_goes_without_its_nodes(
    areas: Seq<Area>,
    coastlines: Seq<Vec<i64>>,
    members: Map<i64, Vec<i64>>,
    relations: Seq<MultiPolygon>,
    k: int,
    m: int,
    way: i64,
)
    ensures
        0 <= k < areas.len() && 0 <= m < areas[k].refs@.len() ==> referenced(
            areas,
            coastlines,
            members,
            areas[k].refs@[m],
        ),
        0 <= k < coastlines.len() && 0 <= m < coastlines[k]@.len() ==> referenced(
            areas,
            coastlines,
            members,
            coastlines[k]@[m],
        ),
        members.contains_key(way) && 0 <= m < members[way]@.len() ==> referenced(
            areas,
            coastlines,
            members,
            members[way]@[m],
        ),
        0 <= k < relations.len() && 0 <= m < relations[k].members@.len() ==> named(
            relations,
            relations[k].members@[m],
        ),
{
    if 0 <= k < areas.len() && 0 <= m < areas[k].refs@.len() {
        assert(areas[k].refs@.contains(areas[k].refs@[m]));
    }
    if 0 <= k < coastlines.len() && 0 <= m < coastlines[k]@.len() {
        assert(coastlines[k]@.contains(coastlines[k]@[m]));
    }
    if members.contains_key(way) && 0 <= m < members[way]@.len() {
        assert(members[way]@.contains(members[way]@[m]));
    }
    if 0 <= k < relations.len() && 0 <= m < relations[k].members@.len() {
        assert(relations[k].members@.contains(relations[k].members@[m]));
    }
}

/// Nothing is wanted but the nodes of a kept way, nor any way that no relation
/// names.
pub proof fn nothing_else_is_wanted(
    areas: Seq<Area>,
    coastlines: Seq<Vec<i64>>,
    members: Map<i64, Vec<i64>>,
    relations: Seq<MultiPolygon>,
    id: i64,
)
    ensures
        referenced(areas, coastlines, members, id) ==> {
            ||| exists|k: int, m: int|
                0 <= k < areas.len() && 0 <= m < areas[k].refs@.len() && #[trigger] areas[k].refs@[m] == id
            ||| exists|k: int, m: int|
                0 <= k < coastlines.len() && 0 <= m < coastlines[k]@.len() && #[trigger] coastlines[k]@[m] == id
            ||| exists|way: i64, m: int|
                members.contains_key(way) && 0 <= m < members[way]@.len() && #[trigger] members[way]@[m] == id
        },
        named(relations, id) ==> exists|k: int, m: int|
            0 <= k < relations.len() && 0 <= m < relations[k].members@.len() && #[trigger] relations[k].members@[m]
                == id,
{
    if named(relations, id) {
        let k = choose|k: int| 0 <= k < relations.len() && (#[trigger] relations[k]).members@.contains(id);
        let m = choose|m: int| 0 <= m < relations[k].members@.len() && relations[k].members@[m] == id;
        assert(relations[k].members@[m] == id);
    }
    if exists|k: int| 0 <= k < areas.len() && (#[trigger] areas[k]).refs@.contains(id) {
        let k = choose|k: int| 0 <= k < areas.len() && (#[trigger] areas[k]).refs@.contains(id);
        let m = choose|m: int| 0 <= m < areas[k].refs@.len() && areas[k].refs@[m] == id;
        assert(areas[k].refs@[m] == id);
    } else if exists|k: int| 0 <= k < coastlines.len() && (#[trigger] coastlines[k])@.contains(id) {
        let k = choose|k: int| 0 <= k < coastlines.len() && (#[trigger] coastlines[k])@.contains(id);
        let m = choose|m: int| 0 <= m < coastlines[k]@.len() && coastlines[k]@[m] == id;
        assert(coastlines[k]@[m] == id);
    } else if exists|way: i64| #[trigger] members.contains_key(way) && members[way]@.contains(id) {
        let way = choose|way: i64| #[trigger] members.contains_key(way) && members[way]@.contains(id);
        let m = choose|m: int| 0 <= m < members[way]@.len() && members[way]@[m] == id;
        assert(members[way]@[m] == id);
    }
}

} // verus!
