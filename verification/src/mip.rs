//! Coarse material levels: each texel the commonest id on the ground it names.
//!
//! A coarse texel holds the id covering the most base-level ground beneath it.
//! The mode is taken over the base level directly, not over the level below:
//! mode is not associative, and a mode of modes drifts. `Null` never wins a
//! count: it is the absence of data, not a kind of ground. Ties between real
//! materials go to the higher layer, then the lower id.

use crate::tiles::TILE_TEXELS;
use vstd::prelude::*;
use crate::lattice;
use crate::tiles::TILE_SIZE;

verus! {

/// The slot of an id that is no material's.
pub const NO_SLOT: u16 = 0xffff;

/// The most base texels a coarse texel may span along an axis: with more, a
/// count could outgrow its counter.
pub const MOST_SCALE: usize = 255;

/// Dense material table: id to slot, slot to id, and the tie-break key.
pub struct Palette {
    slots: Vec<u16>,
    ids: Vec<u32>,
    precedences: Vec<u8>,
}

impl Palette {
    /// The ids of the materials, slot by slot.
    pub closed spec fn ids(&self) -> Seq<u32> {
        self.ids@
    }

    /// The layers of the materials, slot by slot.
    pub closed spec fn layers(&self) -> Seq<u8> {
        self.precedences@
    }

    /// The table leads from each id to its slot, and from no other id to any.
    pub closed spec fn wf(&self) -> bool {
        &&& self.ids@.len() == self.precedences@.len()
        &&& self.ids@.len() < NO_SLOT
        &&& forall|slot: int|
            #![trigger self.ids@[slot]]
            0 <= slot < self.ids@.len() ==> self.ids@[slot] < self.slots@.len() && self.slots@[self.ids@[slot] as int]
                == slot
        &&& forall|id: int|
            #![trigger self.slots@[id]]
            0 <= id < self.slots@.len() && self.slots@[id] != NO_SLOT ==> self.slots@[id] < self.ids@.len()
                && self.ids@[self.slots@[id] as int] == id
    }

    /// A table of materials, each given by its id and its layer.
    pub fn new(materials: &Vec<(u32, u8)>) -> (palette: Palette)
        requires
            materials@.len() < NO_SLOT,
            forall|i: int| 0 <= i < materials@.len() ==> (#[trigger] materials@[i]).0 < u32::MAX,
            forall|i: int, j: int|
                #![trigger materials@[i], materials@[j]]
                0 <= i < j < materials@.len() ==> materials@[i].0 != materials@[j].0,
        ensures
            palette.wf(),
            palette.ids() == materials@.map_values(|material: (u32, u8)| material.0),
            palette.layers() == materials@.map_values(|material: (u32, u8)| material.1),
    {
        let mut highest: u32 = 0;
        let mut i: usize = 0;
        while i < materials.len()
            invariant
                i <= materials@.len(),
                highest < u32::MAX,
                forall|k: int| 0 <= k < materials@.len() ==> (#[trigger] materials@[k]).0 < u32::MAX,
                forall|k: int| 0 <= k < i ==> (#[trigger] materials@[k]).0 <= highest,
            decreases materials@.len() - i,
        {
            if materials[i].0 > highest {
                highest = materials[i].0;
            }
            i = i + 1;
        }
        let size: usize = highest as usize + 1;
        let mut slots: Vec<u16> = Vec::new();
        slots.resize(size, NO_SLOT);
        let mut ids: Vec<u32> = Vec::new();
        let mut precedences: Vec<u8> = Vec::new();
        let mut i: usize = 0;
        while i < materials.len()
            invariant
                i <= materials@.len(),
                materials@.len() < NO_SLOT,
                slots@.len() == highest + 1,
                forall|k: int| 0 <= k < materials@.len() ==> (#[trigger] materials@[k]).0 <= highest,
                forall|a: int, b: int|
                    #![trigger materials@[a], materials@[b]]
                    0 <= a < b < materials@.len() ==> materials@[a].0 != materials@[b].0,
                ids@ =~= materials@.take(i as int).map_values(|material: (u32, u8)| material.0),
                precedences@ =~= materials@.take(i as int).map_values(|material: (u32, u8)| material.1),
                forall|slot: int|
                    #![trigger ids@[slot]]
                    0 <= slot < i ==> slots@[ids@[slot] as int] == slot,
                forall|id: int|
                    #![trigger slots@[id]]
                    0 <= id < slots@.len() && slots@[id] != NO_SLOT ==> slots@[id] < i && ids@[slots@[id] as int]
                        == id,
            decreases materials@.len() - i,
        {
            let (id, layer): (u32, u8) = materials[i];
            let ghost (old_slots, old_ids) = (slots@, ids@);
            slots[id as usize] = i as u16;
            ids.push(id);
            precedences.push(layer);
            proof {
                assert forall|slot: int|
                    #![trigger ids@[slot]]
                    0 <= slot < i + 1 implies slots@[ids@[slot] as int] == slot by {
                    if slot < i {
                        assert(ids@[slot] == old_ids[slot]);
                        assert(materials@[slot].0 != materials@[i as int].0);
                    }
                }
                assert forall|other: int|
                    #![trigger slots@[other]]
                    0 <= other < slots@.len() && slots@[other] != NO_SLOT implies slots@[other] < i + 1
                    && ids@[slots@[other] as int] == other by {
                    if other != id {
                        assert(slots@[other] == old_slots[other]);
                        assert(ids@[old_slots[other] as int] == old_ids[old_slots[other] as int]);
                    }
                }
            }
            i = i + 1;
        }
        assert(materials@.take(i as int) =~= materials@);
        Palette { slots, ids, precedences }
    }

    /// The slot of an id, if it is a material's.
    pub fn slot(&self, id: u32) -> (slot: Option<usize>)
        requires
            self.wf(),
        ensures
            match slot {
                Some(slot) => slot < self.ids().len() && self.ids()[slot as int] == id,
                None => !self.ids().contains(id),
            },
    {
        if id as usize >= self.slots.len() {
            proof {
                if self.ids@.contains(id) {
                    let k = choose|k: int| 0 <= k < self.ids@.len() && self.ids@[k] == id;
                    assert(self.ids@[k] < self.slots@.len());
                }
            }
            return None;
        }
        let slot: u16 = self.slots[id as usize];
        if slot != NO_SLOT {
            Some(slot as usize)
        } else {
            proof {
                if self.ids@.contains(id) {
                    let k = choose|k: int| 0 <= k < self.ids@.len() && self.ids@[k] == id;
                    assert(self.slots@[self.ids@[k] as int] == k);
                }
            }
            None
        }
    }
}

/// Which texel of a coarse tile a base texel lands in, both counted from the
/// tile's corner.
pub open spec fn lands_in(scale: int, x: int, y: int) -> int {
    (y / scale) * TILE_SIZE + x / scale
}

/// The base texels counted in a coarse texel under an id.
pub open spec fn footprint(ground: Map<(int, int), u32>, scale: int, texel: int, id: u32) -> Set<(int, int)> {
    Set::new(
        |at: (int, int)| ground.contains_key(at) && ground[at] == id && lands_in(scale, at.0, at.1) == texel,
    )
}

/// Whether nothing was counted in a coarse texel: its whole square is null.
pub open spec fn nothing_in(ground: Map<(int, int), u32>, scale: int, texel: int) -> bool {
    forall|at: (int, int)| #[trigger] ground.contains_key(at) ==> lands_in(scale, at.0, at.1) != texel
}

/// How much ground of an id a coarse texel covers.
pub open spec fn count_of(ground: Map<(int, int), u32>, scale: int, texel: int, id: u32) -> nat {
    footprint(ground, scale, texel, id).len()
}

/// The ground a coarse texel covers, as a square of base texels.
spec fn square(scale: int, texel: int) -> Set<(int, int)> {
    Set::new(
        |at: (int, int)|
            (texel % (TILE_SIZE as int)) * scale <= at.0 < (texel % (TILE_SIZE as int)) * scale + scale && (texel / (
            TILE_SIZE as int)) * scale <= at.1 < (texel / (TILE_SIZE as int)) * scale + scale,
    )
}

/// A rectangle of cells has as many as its sides multiply to.
proof fn lemma_rectangle(x: int, y: int, width: int, height: int)
    requires
        0 <= width,
        0 <= height,
    ensures
        ({
            let cells = Set::new(|at: (int, int)| x <= at.0 < x + width && y <= at.1 < y + height);
            cells.finite() && cells.len() == width * height
        }),
    decreases height,
{
    let cells = Set::new(|at: (int, int)| x <= at.0 < x + width && y <= at.1 < y + height);
    if height == 0 {
        assert(cells =~= Set::empty());
    } else {
        lemma_rectangle(x, y, width, height - 1);
        lemma_row(x, y + height - 1, width);
        let above = Set::new(|at: (int, int)| x <= at.0 < x + width && y <= at.1 < y + (height - 1));
        let row = Set::new(|at: (int, int)| x <= at.0 < x + width && at.1 == y + height - 1);
        assert(cells =~= above.union(row));
        assert(above.disjoint(row));
        vstd::set_lib::lemma_set_disjoint_lens(above, row);
        assert(width * (height - 1) + width == width * height) by (nonlinear_arith);
    }
}

proof fn lemma_row(x: int, y: int, width: int)
    requires
        0 <= width,
    ensures
        ({
            let cells = Set::new(|at: (int, int)| x <= at.0 < x + width && at.1 == y);
            cells.finite() && cells.len() == width
        }),
    decreases width,
{
    let cells = Set::new(|at: (int, int)| x <= at.0 < x + width && at.1 == y);
    if width == 0 {
        assert(cells =~= Set::empty());
    } else {
        lemma_row(x, y, width - 1);
        let shorter = Set::new(|at: (int, int)| x <= at.0 < x + (width - 1) && at.1 == y);
        assert(cells =~= shorter.insert((x + width - 1, y)));
    }
}

/// The footprint of a coarse texel lies in its square, so no count outgrows it.
proof fn lemma_footprint_fits(ground: Map<(int, int), u32>, scale: int, texel: int, id: u32)
    requires
        0 < scale,
        0 <= texel < TILE_TEXELS,
        forall|at: (int, int)| #[trigger]
            ground.contains_key(at) ==> 0 <= at.0 < scale * TILE_SIZE && 0 <= at.1 < scale * TILE_SIZE,
    ensures
        footprint(ground, scale, texel, id).finite(),
        count_of(ground, scale, texel, id) <= scale * scale,
{
    let (cx, cy) = (texel % (TILE_SIZE as int), texel / (TILE_SIZE as int));
    let cells = footprint(ground, scale, texel, id);
    let all = square(scale, texel);
    lemma_rectangle(cx * scale, cy * scale, scale, scale);
    assert(all =~= Set::new(
        |at: (int, int)| cx * scale <= at.0 < cx * scale + scale && cy * scale <= at.1 < cy * scale + scale,
    ));
    assert(cells.subset_of(all)) by {
        assert forall|at: (int, int)| cells.contains(at) implies all.contains(at) by {
            lemma_lands(scale, at.0, at.1);
        }
    }
    vstd::set_lib::lemma_len_subset(cells, all);
}

/// A base texel lands inside the tile, in the texel whose square it is in.
proof fn lemma_lands(scale: int, x: int, y: int)
    requires
        0 < scale,
        0 <= x < scale * TILE_SIZE,
        0 <= y < scale * TILE_SIZE,
    ensures
        0 <= lands_in(scale, x, y) < TILE_TEXELS,
        lands_in(scale, x, y) % (TILE_SIZE as int) == x / scale,
        lands_in(scale, x, y) / (TILE_SIZE as int) == y / scale,
        (x / scale) * scale <= x < (x / scale) * scale + scale,
        (y / scale) * scale <= y < (y / scale) * scale + scale,
{
    let side = TILE_SIZE as int;
    let (cx, cy) = (x / scale, y / scale);
    assert(cx * scale <= x < cx * scale + scale && 0 <= cx < side) by (nonlinear_arith)
        requires
            cx == x / scale,
            0 < scale,
            0 <= x < scale * side,
    ;
    assert(cy * scale <= y < cy * scale + scale && 0 <= cy < side) by (nonlinear_arith)
        requires
            cy == y / scale,
            0 < scale,
            0 <= y < scale * side,
    ;
    lattice::lemma_cell_coordinates(side, side, cx, cy);
}

/// Where the count of a slot in a texel is kept.
spec fn place_of(materials: int, texel: int, slot: int) -> int {
    texel * materials + slot
}

/// Whether each count is the size of its footprint.
spec fn counts_match(counts: Seq<u16>, ids: Seq<u32>, ground: Map<(int, int), u32>, scale: int) -> bool {
    forall|texel: int, slot: int|
        #![trigger place_of(ids.len() as int, texel, slot)]
        0 <= texel < TILE_TEXELS && 0 <= slot < ids.len() ==> counts[place_of(ids.len() as int, texel, slot)]
            == count_of(ground, scale, texel, ids[slot])
}

/// Each slot of each texel has a place of its own.
proof fn lemma_place(materials: int, texel: int, slot: int)
    requires
        0 <= texel < TILE_TEXELS,
        0 <= slot < materials,
    ensures
        0 <= place_of(materials, texel, slot) < TILE_TEXELS * materials,
        place_of(materials, texel, slot) / materials == texel,
        place_of(materials, texel, slot) % materials == slot,
{
    lattice::lemma_cell_coordinates(materials, TILE_TEXELS as int, slot, texel);
    assert(materials * TILE_TEXELS == TILE_TEXELS * materials) by (nonlinear_arith);
}

/// The base ground counted so far under one coarse tile.
pub struct Tally {
    scale: usize,
    materials: usize,
    counts: Vec<u16>,
    ground: Ghost<Map<(int, int), u32>>,
}

impl View for Tally {
    type V = Map<(int, int), u32>;

    closed spec fn view(&self) -> Map<(int, int), u32> {
        self.ground@
    }
}

impl Tally {
    /// How many base texels a coarse texel spans along an axis.
    pub closed spec fn scale(&self) -> int {
        self.scale as int
    }

    /// Each count is the size of its footprint.
    pub closed spec fn wf(&self, palette: &Palette) -> bool {
        &&& 0 < self.scale <= MOST_SCALE
        &&& self.materials == palette.ids().len()
        &&& self.counts@.len() == TILE_TEXELS * self.materials
        &&& forall|at: (int, int)| #[trigger]
            self.ground@.contains_key(at) ==> {
                &&& 0 <= at.0 < self.scale * TILE_SIZE
                &&& 0 <= at.1 < self.scale * TILE_SIZE
                &&& self.ground@[at] != 0
                &&& palette.ids().contains(self.ground@[at])
            }
        &&& counts_match(self.counts@, palette.ids(), self.ground@, self.scale as int)
    }
}

/// Whether a base texel is in a base tile, both counted from the corner of the
/// coarse tile.
pub open spec fn in_base(base_x: int, base_y: int, at: (int, int)) -> bool {
    &&& base_x * TILE_SIZE <= at.0 < (base_x + 1) * TILE_SIZE
    &&& base_y * TILE_SIZE <= at.1 < (base_y + 1) * TILE_SIZE
}

/// Where a base texel is kept in its tile.
pub open spec fn index_in(base_x: int, base_y: int, at: (int, int)) -> int {
    (at.1 - base_y * TILE_SIZE) * TILE_SIZE + at.0 - base_x * TILE_SIZE
}

/// Ground with the first texels of a base tile added, those that hold nothing
/// left out.
pub open spec fn with_base(
    ground: Map<(int, int), u32>,
    base_x: int,
    base_y: int,
    values: Seq<u32>,
    upto: int,
) -> Map<(int, int), u32> {
    Map::new(
        |at: (int, int)|
            ground.contains_key(at) || (in_base(base_x, base_y, at) && index_in(base_x, base_y, at) < upto && values[index_in(
                base_x,
                base_y,
                at,
            )] != 0),
        |at: (int, int)|
            if in_base(base_x, base_y, at) {
                values[index_in(base_x, base_y, at)]
            } else {
                ground[at]
            },
    )
}

/// The first id in a tile that is no material's.
pub open spec fn first_unknown(values: Seq<u32>, ids: Seq<u32>, from: int) -> Option<u32>
    decreases values.len() - from,
{
    if from >= values.len() {
        None
    } else if values[from] != 0 && !ids.contains(values[from]) {
        Some(values[from])
    } else {
        first_unknown(values, ids, from + 1)
    }
}

/// One more base texel adds to one count.
proof fn lemma_one_more(ground: Map<(int, int), u32>, scale: int, at: (int, int), id: u32, texel: int, other: u32)
    requires
        0 < scale,
        0 <= texel < TILE_TEXELS,
        !ground.contains_key(at),
        forall|p: (int, int)| #[trigger]
            ground.contains_key(p) ==> 0 <= p.0 < scale * TILE_SIZE && 0 <= p.1 < scale * TILE_SIZE,
    ensures
        count_of(ground.insert(at, id), scale, texel, other) == count_of(ground, scale, texel, other) + if texel
            == lands_in(scale, at.0, at.1) && other == id {
            1nat
        } else {
            0nat
        },
{
    lemma_footprint_fits(ground, scale, texel, other);
    let before = footprint(ground, scale, texel, other);
    let after = footprint(ground.insert(at, id), scale, texel, other);
    if texel == lands_in(scale, at.0, at.1) && other == id {
        assert(after =~= before.insert(at));
    } else {
        assert(after =~= before);
    }
}

impl Tally {
    /// A tally of nothing yet, for a coarse tile whose texels span `scale` base
    /// texels along each axis.
    pub fn new(palette: &Palette, scale: usize) -> (tally: Tally)
        requires
            palette.wf(),
            0 < scale <= MOST_SCALE,
            TILE_TEXELS * palette.ids().len() <= usize::MAX,
        ensures
            tally.wf(palette),
            tally.scale() == scale,
            tally@ == Map::<(int, int), u32>::empty(),
    {
        let materials: usize = palette.ids.len();
        let mut counts: Vec<u16> = Vec::new();
        counts.resize(TILE_TEXELS * materials, 0);
        let tally = Tally { scale, materials, counts, ground: Ghost(Map::empty()) };
        proof {
            assert forall|texel: int, slot: int|
                #![trigger place_of(palette.ids().len() as int, texel, slot)]
                0 <= texel < TILE_TEXELS && 0 <= slot < palette.ids().len() implies counts@[place_of(
                palette.ids().len() as int,
                texel,
                slot,
            )] == count_of(Map::empty(), scale as int, texel, palette.ids()[slot]) by {
                lemma_place(materials as int, texel, slot);
                assert(footprint(Map::empty(), scale as int, texel, palette.ids()[slot]) =~= Set::empty());
            }
        }
        tally
    }

    /// Counts the ground of one base tile, told by where it stands under the
    /// coarse one. Each base tile may be counted once.
    ///
    /// An id that is no material's is refused.
    pub fn count(
        &mut self,
        palette: &Palette,
        base_x: usize,
        base_y: usize,
        values: &Vec<u32>,
    ) -> (done: Result<(), u32>)
        requires
            palette.wf(),
            old(self).wf(palette),
            base_x < old(self).scale(),
            base_y < old(self).scale(),
            values@.len() == TILE_TEXELS,
            forall|at: (int, int)| #[trigger]
                old(self)@.contains_key(at) ==> !in_base(base_x as int, base_y as int, at),
        ensures
            match done {
                Ok(()) => {
                    &&& first_unknown(values@, palette.ids(), 0) is None
                    &&& final(self).wf(palette)
                    &&& final(self).scale() == old(self).scale()
                    &&& final(self)@ == with_base(
                        old(self)@,
                        base_x as int,
                        base_y as int,
                        values@,
                        values@.len() as int,
                    )
                },
                Err(id) => first_unknown(values@, palette.ids(), 0) == Some(id),
            },
    {
        let ghost before = self@;
        let ghost (bx, by) = (base_x as int, base_y as int);
        proof {
            assert(with_base(before, bx, by, values@, 0) =~= before) by {
                assert forall|at: (int, int)| in_base(bx, by, at) implies index_in(bx, by, at) >= 0 by {
                    lemma_index_in(bx, by, at);
                }
            }
        }
        let mut i: usize = 0;
        while i < values.len()
            invariant
                i <= values@.len(),
                bx == base_x,
                by == base_y,
                palette.wf(),
                self.wf(palette),
                self.scale == old(self).scale,
                base_x < self.scale,
                base_y < self.scale,
                values@.len() == TILE_TEXELS,
                before == old(self)@,
                forall|at: (int, int)| #[trigger] before.contains_key(at) ==> !in_base(bx, by, at),
                first_unknown(values@, palette.ids(), 0) == first_unknown(values@, palette.ids(), i as int),
                self.ground@ == with_base(before, bx, by, values@, i as int),
            decreases values@.len() - i,
        {
            let id: u32 = values[i];
            let ghost at = (bx * TILE_SIZE + i as int % 512, by * TILE_SIZE + i as int / 512);
            let ghost earlier = self.ground@;
            proof {
                lemma_texel_at(bx, by, i as int, self.scale as int);
            }
            if id != 0 {
                let slot: usize = match palette.slot(id) {
                    Some(slot) => slot,
                    None => {
                        return Err(id);
                    },
                };
                self.add_texel(palette, base_x, base_y, i, id, slot);
                proof {
                    lemma_with_one_more(before, bx, by, values@, i as int);
                    assert(self.ground@ =~= with_base(before, bx, by, values@, i + 1));
                }
            } else {
                proof {
                    lemma_with_none_more(before, bx, by, values@, i as int);
                }
            }
            i = i + 1;
        }
        Ok(())
    }

    /// Counts one base texel.
    fn add_texel(&mut self, palette: &Palette, base_x: usize, base_y: usize, i: usize, id: u32, slot: usize)
        requires
            palette.wf(),
            old(self).wf(palette),
            base_x < old(self).scale,
            base_y < old(self).scale,
            i < TILE_TEXELS,
            id != 0,
            slot < palette.ids().len(),
            palette.ids()[slot as int] == id,
            !old(self).ground@.contains_key((base_x * TILE_SIZE + i as int % 512, base_y * TILE_SIZE + i as int / 512)),
        ensures
            final(self).wf(palette),
            final(self).scale == old(self).scale,
            final(self).ground@ == old(self).ground@.insert(
                (base_x * TILE_SIZE + i as int % 512, base_y * TILE_SIZE + i as int / 512),
                id,
            ),
    {
        let side: usize = TILE_SIZE as usize;
        let ghost scale = self.scale as int;
        let ghost at = (base_x * TILE_SIZE + i as int % 512, base_y * TILE_SIZE + i as int / 512);
        let ghost earlier = self.ground@;
        let ghost materials = self.materials as int;
        let ghost ids = palette.ids();
        proof {
            lemma_texel_at(base_x as int, base_y as int, i as int, scale);
            lemma_lands(scale, at.0, at.1);
        }
        let cx: usize = (base_x * side + i % side) / self.scale;
        let cy: usize = (base_y * side + i / side) / self.scale;
        let texel: usize = cy * side + cx;
        proof {
            assert(texel == lands_in(scale, at.0, at.1));
            lemma_place(materials, texel as int, slot as int);
            lemma_one_more(earlier, scale, at, id, texel as int, id);
            lemma_inserted_fits(earlier, scale, at, id);
            lemma_footprint_fits(earlier.insert(at, id), scale, texel as int, id);
            assert(scale * scale <= MOST_SCALE * MOST_SCALE) by (nonlinear_arith)
                requires
                    0 < scale <= MOST_SCALE,
            ;
            assert(self.counts@[place_of(materials, texel as int, slot as int)] == count_of(
                earlier,
                scale,
                texel as int,
                id,
            ));
            assert(texel * materials <= place_of(materials, texel as int, slot as int));
            assert(self.counts.len() <= usize::MAX);
        }
        let place: usize = texel * self.materials + slot;
        let ghost counts_before = self.counts@;
        self.counts[place] = self.counts[place] + 1;
        proof {
            self.ground@ = earlier.insert(at, id);
            assert forall|t: int, s: int|
                #![trigger place_of(ids.len() as int, t, s)]
                0 <= t < TILE_TEXELS && 0 <= s < ids.len() implies self.counts@[place_of(ids.len() as int, t, s)]
                == count_of(earlier.insert(at, id), scale, t, ids[s]) by {
                lemma_place(materials, t, s);
                lemma_one_more(earlier, scale, at, id, t, ids[s]);
                assert(counts_before[place_of(materials, t, s)] == count_of(earlier, scale, t, ids[s]));
                if ids[s] == id && t == texel {
                    palette.lemma_one_slot(s, slot as int);
                }
            }
            assert(ids.contains(id));
        }
    }
}

impl Palette {
    proof fn lemma_one_slot(&self, a: int, b: int)
        requires
            self.wf(),
            0 <= a < self.ids().len(),
            0 <= b < self.ids().len(),
            self.ids()[a] == self.ids()[b],
        ensures
            a == b,
    {
        assert(self.slots@[self.ids@[a] as int] == a);
        assert(self.slots@[self.ids@[b] as int] == b);
    }
}

proof fn lemma_inserted_fits(ground: Map<(int, int), u32>, scale: int, at: (int, int), id: u32)
    requires
        forall|p: (int, int)| #[trigger]
            ground.contains_key(p) ==> 0 <= p.0 < scale * TILE_SIZE && 0 <= p.1 < scale * TILE_SIZE,
        0 <= at.0 < scale * TILE_SIZE,
        0 <= at.1 < scale * TILE_SIZE,
    ensures
        forall|p: (int, int)| #[trigger]
            ground.insert(at, id).contains_key(p) ==> 0 <= p.0 < scale * TILE_SIZE && 0 <= p.1 < scale * TILE_SIZE,
{
    assert forall|p: (int, int)| #[trigger] ground.insert(at, id).contains_key(p) implies 0 <= p.0 < scale
        * TILE_SIZE && 0 <= p.1 < scale * TILE_SIZE by {
        if p != at {
            assert(ground.contains_key(p));
        }
    }
}

proof fn lemma_index_in(base_x: int, base_y: int, at: (int, int))
    requires
        in_base(base_x, base_y, at),
    ensures
        0 <= index_in(base_x, base_y, at) < TILE_TEXELS,
        at.0 == base_x * TILE_SIZE + index_in(base_x, base_y, at) % 512,
        at.1 == base_y * TILE_SIZE + index_in(base_x, base_y, at) / 512,
{
    let (x, y) = (at.0 - base_x * TILE_SIZE, at.1 - base_y * TILE_SIZE);
    assert((base_x + 1) * TILE_SIZE == base_x * TILE_SIZE + TILE_SIZE);
    assert((base_y + 1) * TILE_SIZE == base_y * TILE_SIZE + TILE_SIZE);
    lattice::lemma_cell_coordinates(TILE_SIZE as int, TILE_SIZE as int, x, y);
}

proof fn lemma_texel_at(base_x: int, base_y: int, i: int, scale: int)
    requires
        0 <= base_x < scale,
        0 <= base_y < scale,
        0 <= i < TILE_TEXELS,
    ensures
        ({
            let at = (base_x * TILE_SIZE + i % 512, base_y * TILE_SIZE + i / 512);
            &&& in_base(base_x, base_y, at)
            &&& index_in(base_x, base_y, at) == i
            &&& 0 <= at.0 < scale * TILE_SIZE
            &&& 0 <= at.1 < scale * TILE_SIZE
        }),
{
}

/// Adding a texel that holds something adds it alone.
proof fn lemma_with_one_more(ground: Map<(int, int), u32>, base_x: int, base_y: int, values: Seq<u32>, i: int)
    requires
        values.len() == TILE_TEXELS,
        0 <= i < TILE_TEXELS,
        values[i] != 0,
        forall|at: (int, int)| #[trigger] ground.contains_key(at) ==> !in_base(base_x, base_y, at),
    ensures
        ({
            let at = (base_x * TILE_SIZE + i % 512, base_y * TILE_SIZE + i / 512);
            &&& !with_base(ground, base_x, base_y, values, i).contains_key(at)
            &&& with_base(ground, base_x, base_y, values, i + 1) == with_base(
                ground,
                base_x,
                base_y,
                values,
                i,
            ).insert(at, values[i])
        }),
{
    let at = (base_x * TILE_SIZE + i % 512, base_y * TILE_SIZE + i / 512);
    assert(in_base(base_x, base_y, at) && index_in(base_x, base_y, at) == i);
    let (before, after) = (
        with_base(ground, base_x, base_y, values, i),
        with_base(ground, base_x, base_y, values, i + 1),
    );
    assert forall|p: (int, int)| after.contains_key(p) <==> before.insert(at, values[i]).contains_key(p) by {
        if in_base(base_x, base_y, p) {
            lemma_index_in(base_x, base_y, p);
        }
    }
    assert(after =~= before.insert(at, values[i]));
}

/// Adding a texel that holds nothing changes nothing.
proof fn lemma_with_none_more(ground: Map<(int, int), u32>, base_x: int, base_y: int, values: Seq<u32>, i: int)
    requires
        values.len() == TILE_TEXELS,
        0 <= i < TILE_TEXELS,
        values[i] == 0,
    ensures
        with_base(ground, base_x, base_y, values, i + 1) == with_base(ground, base_x, base_y, values, i),
{
    assert(with_base(ground, base_x, base_y, values, i + 1) =~= with_base(ground, base_x, base_y, values, i));
}

/// Whether one slot comes ahead of another in a coarse texel: more ground
/// first, then the higher layer, then the lower id.
pub open spec fn outranks(
    ids: Seq<u32>,
    layers: Seq<u8>,
    ground: Map<(int, int), u32>,
    scale: int,
    texel: int,
    a: int,
    b: int,
) -> bool {
    let (m, n) = (count_of(ground, scale, texel, ids[a]), count_of(ground, scale, texel, ids[b]));
    m > n || (m == n && (layers[a] > layers[b] || (layers[a] == layers[b] && ids[a] < ids[b])))
}

/// Whether a slot is the mode of a coarse texel: it has ground there, and comes
/// ahead of every other that has.
pub open spec fn wins(
    ids: Seq<u32>,
    layers: Seq<u8>,
    ground: Map<(int, int), u32>,
    scale: int,
    texel: int,
    slot: int,
) -> bool {
    &&& 0 <= slot < ids.len()
    &&& count_of(ground, scale, texel, ids[slot]) > 0
    &&& forall|other: int|
        #![trigger ids[other]]
        0 <= other < ids.len() && other != slot && count_of(ground, scale, texel, ids[other]) > 0 ==> outranks(
            ids,
            layers,
            ground,
            scale,
            texel,
            slot,
            other,
        )
}

/// Whether an id is what a coarse texel comes to hold: the mode of its ground,
/// or nothing where nothing at all was counted.
pub open spec fn is_mode(
    ids: Seq<u32>,
    layers: Seq<u8>,
    ground: Map<(int, int), u32>,
    scale: int,
    texel: int,
    id: u32,
) -> bool {
    ||| id == 0 && forall|slot: int|
        #![trigger ids[slot]]
        0 <= slot < ids.len() ==> count_of(ground, scale, texel, ids[slot]) == 0
    ||| exists|slot: int| #[trigger] wins(ids, layers, ground, scale, texel, slot) && id == ids[slot]
}

impl Tally {
    /// The mode of one coarse texel, by its slot.
    fn mode(&self, palette: &Palette, texel: usize) -> (best: Option<usize>)
        requires
            palette.wf(),
            self.wf(palette),
            texel < TILE_TEXELS,
        ensures
            match best {
                Some(slot) => wins(palette.ids(), palette.layers(), self@, self.scale(), texel as int, slot as int),
                None => forall|slot: int|
                    #![trigger palette.ids()[slot]]
                    0 <= slot < palette.ids().len() ==> count_of(
                        self@,
                        self.scale(),
                        texel as int,
                        palette.ids()[slot],
                    ) == 0,
            },
    {
        let ghost ids = palette.ids();
        let ghost layers = palette.layers();
        let ghost scale = self.scale as int;
        let mut best: Option<usize> = None;
        let mut most: u16 = 0;
        let mut slot: usize = 0;
        while slot < self.materials
            invariant
                slot <= self.materials,
                palette.wf(),
                self.wf(palette),
                texel < TILE_TEXELS,
                ids == palette.ids(),
                layers == palette.layers(),
                scale == self.scale,
                match best {
                    Some(chosen) => {
                        &&& chosen < slot
                        &&& most == count_of(self.ground@, scale, texel as int, ids[chosen as int])
                        &&& most > 0
                        &&& forall|other: int|
                            #![trigger ids[other]]
                            0 <= other < slot && other != chosen && count_of(
                                self.ground@,
                                scale,
                                texel as int,
                                ids[other],
                            ) > 0 ==> outranks(ids, layers, self.ground@, scale, texel as int, chosen as int, other)
                    },
                    None => forall|other: int|
                        #![trigger ids[other]]
                        0 <= other < slot ==> count_of(self.ground@, scale, texel as int, ids[other]) == 0,
                },
            decreases self.materials - slot,
        {
            proof {
                lemma_place(self.materials as int, texel as int, slot as int);
                assert(texel * self.materials <= place_of(self.materials as int, texel as int, slot as int));
                assert(self.counts.len() <= usize::MAX);
            }
            let count: u16 = self.counts[texel * self.materials + slot];
            assert(count == self.counts@[place_of(self.materials as int, texel as int, slot as int)]);
            if count > 0 {
                let better: bool = match best {
                    None => true,
                    Some(chosen) => {
                        let (here, there): (u8, u8) = (palette.precedences[slot], palette.precedences[chosen]);
                        proof {
                            assert(ids[slot as int] != ids[chosen as int]);
                        }
                        count > most || (count == most && (here > there || (here == there && palette.ids[slot]
                            < palette.ids[chosen])))
                    },
                };
                if better {
                    best = Some(slot);
                    most = count;
                }
            }
            slot = slot + 1;
        }
        best
    }

    /// The modes of the counted ground, or `None` where nothing was counted at
    /// all.
    pub fn modes(&self, palette: &Palette) -> (tile: Option<Vec<u32>>)
        requires
            palette.wf(),
            self.wf(palette),
        ensures
            tile is Some <==> exists|at: (int, int)| #[trigger] self@.contains_key(at),
            tile matches Some(out) ==> out@.len() == TILE_TEXELS,
            tile matches Some(out) ==> forall|texel: int|
                #![trigger out@[texel]]
                0 <= texel < TILE_TEXELS ==> is_mode(
                    palette.ids(),
                    palette.layers(),
                    self@,
                    self.scale(),
                    texel,
                    out@[texel],
                ),
            tile matches Some(out) ==> forall|texel: int|
                #![trigger out@[texel]]
                0 <= texel < TILE_TEXELS ==> (out@[texel] == 0 <==> nothing_in(self@, self.scale(), texel)),
            tile matches Some(out) ==> exists|texel: int| 0 <= texel < TILE_TEXELS && #[trigger] out@[texel] != 0,
            forall|at: (int, int)| #[trigger]
                self@.contains_key(at) ==> {
                    &&& 0 <= at.0 < self.scale() * TILE_SIZE
                    &&& 0 <= at.1 < self.scale() * TILE_SIZE
                    &&& self@[at] != 0
                    &&& palette.ids().contains(self@[at])
                },
    {
        let ghost (ids, layers, scale) = (palette.ids(), palette.layers(), self.scale as int);
        let mut out: Vec<u32> = Vec::new();
        let mut any: bool = false;
        let mut texel: usize = 0;
        while texel < TILE_TEXELS
            invariant
                texel <= TILE_TEXELS,
                palette.wf(),
                self.wf(palette),
                ids == palette.ids(),
                layers == palette.layers(),
                scale == self.scale,
                out@.len() == texel,
                forall|t: int|
                    #![trigger out@[t]]
                    0 <= t < texel ==> is_mode(ids, layers, self.ground@, scale, t, out@[t]),
                any ==> exists|at: (int, int)| #[trigger] self.ground@.contains_key(at),
                !any ==> forall|t: int, slot: int|
                    #![trigger footprint(self.ground@, scale, t, ids[slot])]
                    0 <= t < texel && 0 <= slot < ids.len() ==> count_of(self.ground@, scale, t, ids[slot]) == 0,
            decreases TILE_TEXELS - texel,
        {
            match self.mode(palette, texel) {
                Some(slot) => {
                    proof {
                        assert(wins(ids, layers, self.ground@, scale, texel as int, slot as int));
                        lemma_footprint_fits(self.ground@, scale, texel as int, ids[slot as int]);
                        let cells = footprint(self.ground@, scale, texel as int, ids[slot as int]);
                        assert(cells.len() > 0);
                        let at = cells.choose();
                        assert(cells.contains(at));
                        assert(self.ground@.contains_key(at));
                    }
                    out.push(palette.ids[slot]);
                    any = true;
                },
                None => {
                    out.push(0);
                },
            }
            texel = texel + 1;
        }
        if !any {
            proof {
                assert forall|at: (int, int)| !#[trigger] self.ground@.contains_key(at) by {
                    if self.ground@.contains_key(at) {
                        let id = self.ground@[at];
                        let slot = choose|slot: int| 0 <= slot < ids.len() && ids[slot] == id;
                        lemma_lands(scale, at.0, at.1);
                        let t = lands_in(scale, at.0, at.1);
                        lemma_footprint_fits(self.ground@, scale, t, ids[slot]);
                        let cells = footprint(self.ground@, scale, t, ids[slot]);
                        assert(cells.contains(at));
                        assert(count_of(self.ground@, scale, t, ids[slot]) == 0);
                        assert(cells =~= Set::empty());
                    }
                }
            }
            return None;
        }
        proof {
            assert forall|t: int| #![trigger out@[t]] 0 <= t < TILE_TEXELS implies (out@[t] == 0 <==> nothing_in(
                self@,
                scale,
                t,
            )) by {
                a_texel_is_null_exactly_where_its_ground_is(ids, layers, self@, scale, t, out@[t]);
            }
            let at = choose|at: (int, int)| #[trigger] self.ground@.contains_key(at);
            assert(self@.contains_key(at));
            lemma_lands(scale, at.0, at.1);
            let t = lands_in(scale, at.0, at.1);
            assert(!nothing_in(self@, scale, t));
            assert(out@[t] != 0);
        }
        Some(out)
    }
}

/// A coarse texel has one mode.
pub proof fn a_texel_has_one_mode(
    ids: Seq<u32>,
    layers: Seq<u8>,
    ground: Map<(int, int), u32>,
    scale: int,
    texel: int,
    a: u32,
    b: u32,
)
    requires
        is_mode(ids, layers, ground, scale, texel, a),
        is_mode(ids, layers, ground, scale, texel, b),
    ensures
        a == b,
{
    if exists|slot: int| #[trigger] wins(ids, layers, ground, scale, texel, slot) && a == ids[slot] {
        let x = choose|slot: int| #[trigger] wins(ids, layers, ground, scale, texel, slot) && a == ids[slot];
        assert(count_of(ground, scale, texel, ids[x]) > 0);
        let y = choose|slot: int| #[trigger] wins(ids, layers, ground, scale, texel, slot) && b == ids[slot];
        assert(wins(ids, layers, ground, scale, texel, y));
        if x != y {
            assert(outranks(ids, layers, ground, scale, texel, x, y));
            assert(outranks(ids, layers, ground, scale, texel, y, x));
        }
    } else if exists|slot: int| #[trigger] wins(ids, layers, ground, scale, texel, slot) && b == ids[slot] {
        let y = choose|slot: int| #[trigger] wins(ids, layers, ground, scale, texel, slot) && b == ids[slot];
        assert(count_of(ground, scale, texel, ids[y]) > 0);
    }
}

/// Null never outvotes ground: one texel of anything under a coarse texel and
/// it holds something, however much of the rest is empty.
pub proof fn null_never_outvotes_ground(
    ids: Seq<u32>,
    layers: Seq<u8>,
    ground: Map<(int, int), u32>,
    scale: int,
    at: (int, int),
    id: u32,
)
    requires
        0 < scale,
        ground.contains_key(at),
        ids.contains(ground[at]),
        forall|p: (int, int)| #[trigger]
            ground.contains_key(p) ==> 0 <= p.0 < scale * TILE_SIZE && 0 <= p.1 < scale * TILE_SIZE && ground[p]
                != 0,
        is_mode(ids, layers, ground, scale, lands_in(scale, at.0, at.1), id),
    ensures
        id != 0,
{
    let texel = lands_in(scale, at.0, at.1);
    lemma_lands(scale, at.0, at.1);
    let slot = choose|slot: int| 0 <= slot < ids.len() && ids[slot] == ground[at];
    lemma_footprint_fits(ground, scale, texel, ids[slot]);
    let cells = footprint(ground, scale, texel, ids[slot]);
    assert(cells.contains(at));
    if count_of(ground, scale, texel, ids[slot]) == 0 {
        assert(cells =~= Set::empty());
    }
    let winner = choose|winner: int| #[trigger] wins(ids, layers, ground, scale, texel, winner) && id == ids[winner];
    lemma_footprint_fits(ground, scale, texel, ids[winner]);
    let won = footprint(ground, scale, texel, ids[winner]);
    let there = won.choose();
    assert(won.contains(there));
    assert(ground.contains_key(there));
}

/// A coarse texel is null exactly where all the ground under it is.
pub proof fn a_texel_is_null_exactly_where_its_ground_is(
    ids: Seq<u32>,
    layers: Seq<u8>,
    ground: Map<(int, int), u32>,
    scale: int,
    texel: int,
    id: u32,
)
    requires
        0 < scale,
        0 <= texel < TILE_TEXELS,
        forall|at: (int, int)| #[trigger]
            ground.contains_key(at) ==> {
                &&& 0 <= at.0 < scale * TILE_SIZE
                &&& 0 <= at.1 < scale * TILE_SIZE
                &&& ground[at] != 0
                &&& ids.contains(ground[at])
            },
        is_mode(ids, layers, ground, scale, texel, id),
    ensures
        id == 0 <==> nothing_in(ground, scale, texel),
{
    if nothing_in(ground, scale, texel) {
        assert forall|slot: int| #![trigger ids[slot]] 0 <= slot < ids.len() implies count_of(
            ground,
            scale,
            texel,
            ids[slot],
        ) == 0 by {
            assert(footprint(ground, scale, texel, ids[slot]) =~= Set::empty());
        }
    } else {
        let at = choose|at: (int, int)| #[trigger]
            ground.contains_key(at) && lands_in(scale, at.0, at.1) == texel;
        null_never_outvotes_ground(ids, layers, ground, scale, at, id);
    }
}

/// A tie goes to the higher layer: with as much ground as the winner, nothing
/// on a layer above it lost.
pub proof fn ties_go_to_the_higher_layer(
    ids: Seq<u32>,
    layers: Seq<u8>,
    ground: Map<(int, int), u32>,
    scale: int,
    texel: int,
    winner: int,
    other: int,
)
    requires
        wins(ids, layers, ground, scale, texel, winner),
        0 <= other < ids.len(),
        count_of(ground, scale, texel, ids[other]) == count_of(ground, scale, texel, ids[winner]),
    ensures
        layers[other] <= layers[winner],
{
    if other != winner {
        assert(outranks(ids, layers, ground, scale, texel, winner, other));
    }
}

/// A tie on one layer goes to the lower id, whatever order the materials are listed
/// in.
pub proof fn ties_on_a_layer_go_to_the_lower_id(
    ids: Seq<u32>,
    layers: Seq<u8>,
    ground: Map<(int, int), u32>,
    scale: int,
    texel: int,
    winner: int,
    other: int,
)
    requires
        wins(ids, layers, ground, scale, texel, winner),
        0 <= other < ids.len(),
        other != winner,
        layers[other] == layers[winner],
        count_of(ground, scale, texel, ids[other]) == count_of(ground, scale, texel, ids[winner]),
    ensures
        ids[winner] < ids[other],
{
    assert(outranks(ids, layers, ground, scale, texel, winner, other));
}

/// Counting does not depend on the order: two base tiles leave the same ground
/// whichever comes first.
pub proof fn tiles_count_in_any_order(
    ground: Map<(int, int), u32>,
    one: (int, int),
    other: (int, int),
    values: Seq<u32>,
    others: Seq<u32>,
)
    requires
        one != other,
        values.len() == TILE_TEXELS,
        others.len() == TILE_TEXELS,
    ensures
        with_base(
            with_base(ground, one.0, one.1, values, values.len() as int),
            other.0,
            other.1,
            others,
            others.len() as int,
        ) == with_base(
            with_base(ground, other.0, other.1, others, others.len() as int),
            one.0,
            one.1,
            values,
            values.len() as int,
        ),
{
    let a = with_base(
        with_base(ground, one.0, one.1, values, values.len() as int),
        other.0,
        other.1,
        others,
        others.len() as int,
    );
    let b = with_base(
        with_base(ground, other.0, other.1, others, others.len() as int),
        one.0,
        one.1,
        values,
        values.len() as int,
    );
    assert forall|at: (int, int)| true implies !(in_base(one.0, one.1, at) && #[trigger] in_base(other.0, other.1, at)) by {}
    assert(a =~= b);
}

/// A base texel lands in the coarse texel whose square it lies in: so many base
/// texels across and as many down for each coarse one.
pub proof fn a_base_texel_lands_where_it_lies(scale: int, x: int, y: int, column: int, row: int)
    requires
        0 < scale,
        0 <= column < 512,
        0 <= row < 512,
        column * scale <= x < column * scale + scale,
        row * scale <= y < row * scale + scale,
    ensures
        lands_in(scale, x, y) == row * 512 + column,
{
    assert(x / scale == column) by (nonlinear_arith)
        requires
            0 < scale,
            column * scale <= x < column * scale + scale,
    ;
    assert(y / scale == row) by (nonlinear_arith)
        requires
            0 < scale,
            row * scale <= y < row * scale + scale,
    ;
}

/// What is counted in a coarse texel under an id is every base texel of that id
/// in its square and no other, each once.
pub proof fn a_count_is_of_the_square_beneath(
    ground: Map<(int, int), u32>,
    scale: int,
    column: int,
    row: int,
    id: u32,
)
    requires
        0 < scale,
        0 <= column < 512,
        0 <= row < 512,
        forall|at: (int, int)| #[trigger]
            ground.contains_key(at) ==> 0 <= at.0 < scale * 512 && 0 <= at.1 < scale * 512,
    ensures
        count_of(ground, scale, row * 512 + column, id) == Set::new(
            |at: (int, int)|
                {
                    &&& ground.contains_key(at)
                    &&& ground[at] == id
                    &&& column * scale <= at.0 < column * scale + scale
                    &&& row * scale <= at.1 < row * scale + scale
                },
        ).len(),
{
    let there = Set::new(
        |at: (int, int)|
            {
                &&& ground.contains_key(at)
                &&& ground[at] == id
                &&& column * scale <= at.0 < column * scale + scale
                &&& row * scale <= at.1 < row * scale + scale
            },
    );
    let texel = row * 512 + column;
    let cells = footprint(ground, scale, texel, id);
    lattice::lemma_cell_coordinates(512, 512, column, row);
    assert forall|at: (int, int)| cells.contains(at) <==> there.contains(at) by {
        if cells.contains(at) {
            lemma_lands(scale, at.0, at.1);
            assert(texel % 512 == column && texel / 512 == row);
        }
        if there.contains(at) {
            a_base_texel_lands_where_it_lies(scale, at.0, at.1, column, row);
        }
    }
    assert(cells =~= there);
}

/// The most ground wins: nothing covers more of a coarse texel than its mode,
/// which covers some; where as much is covered by another, the mode is on a
/// higher layer, or on the same with a lower id.
pub proof fn the_most_ground_wins(
    ids: Seq<u32>,
    layers: Seq<u8>,
    ground: Map<(int, int), u32>,
    scale: int,
    texel: int,
    id: u32,
    other: int,
)
    requires
        is_mode(ids, layers, ground, scale, texel, id),
        0 <= other < ids.len(),
        count_of(ground, scale, texel, ids[other]) > 0,
    ensures
        exists|slot: int| {
            &&& 0 <= slot < ids.len()
            &&& #[trigger] ids[slot] == id
            &&& count_of(ground, scale, texel, id) >= count_of(ground, scale, texel, ids[other])
            &&& count_of(ground, scale, texel, id) == count_of(ground, scale, texel, ids[other]) ==> layers[slot]
                >= layers[other]
            &&& count_of(ground, scale, texel, id) == count_of(ground, scale, texel, ids[other]) && layers[slot]
                == layers[other] ==> id <= ids[other]
        },
{
    assert(ids[other] == ids[other]);
    let slot = choose|slot: int| #[trigger] wins(ids, layers, ground, scale, texel, slot) && id == ids[slot];
    assert(wins(ids, layers, ground, scale, texel, slot));
    if other != slot {
        assert(outranks(ids, layers, ground, scale, texel, slot, other));
    }
    assert(ids[slot] == id);
}

/// Counting a base tile adds each texel of it that holds something, where it
/// stands under the coarse tile, and changes nothing else.
pub proof fn a_base_tile_is_counted_texel_by_texel(
    ground: Map<(int, int), u32>,
    base_x: int,
    base_y: int,
    values: Seq<u32>,
    column: int,
    row: int,
    elsewhere: (int, int),
)
    requires
        values.len() == 512 * 512,
        0 <= column < 512,
        0 <= row < 512,
        !ground.contains_key((base_x * 512 + column, base_y * 512 + row)),
        !(base_x * 512 <= elsewhere.0 < base_x * 512 + 512 && base_y * 512 <= elsewhere.1 < base_y * 512 + 512),
    ensures
        ({
            let after = with_base(ground, base_x, base_y, values, values.len() as int);
            let at = (base_x * 512 + column, base_y * 512 + row);
            let value = values[row * 512 + column];
            &&& value != 0 ==> after.contains_key(at) && after[at] == value
            &&& value == 0 ==> !after.contains_key(at)
            &&& after.contains_key(elsewhere) <==> ground.contains_key(elsewhere)
            &&& ground.contains_key(elsewhere) ==> after[elsewhere] == ground[elsewhere]
        }),
{
    let at = (base_x * 512 + column, base_y * 512 + row);
    assert(index_in(base_x, base_y, at) == row * 512 + column);
}

/// A tile is refused for the first id in it that is something and no material's,
/// and for no other reason.
pub proof fn a_tile_is_refused_for_its_first_unknown_id(values: Seq<u32>, ids: Seq<u32>, from: int)
    requires
        0 <= from,
    ensures
        match first_unknown(values, ids, from) {
            Some(id) => exists|k: int| {
                &&& from <= k < values.len()
                &&& #[trigger] values[k] == id
                &&& id != 0
                &&& !ids.contains(id)
                &&& forall|j: int| from <= j < k ==> #[trigger] values[j] == 0 || ids.contains(values[j])
            },
            None => forall|k: int| from <= k < values.len() ==> #[trigger] values[k] == 0 || ids.contains(values[k]),
        },
    decreases values.len() - from,
{
    if from < values.len() {
        if values[from] != 0 && !ids.contains(values[from]) {
            assert(values[from] == values[from]);
        } else {
            a_tile_is_refused_for_its_first_unknown_id(values, ids, from + 1);
            if let Some(id) = first_unknown(values, ids, from + 1) {
                let k = choose|k: int| {
                    &&& from + 1 <= k < values.len()
                    &&& #[trigger] values[k] == id
                    &&& id != 0
                    &&& !ids.contains(id)
                    &&& forall|j: int| from + 1 <= j < k ==> #[trigger] values[j] == 0 || ids.contains(values[j])
                };
                assert(values[k] == id);
            }
        }
    }
}

/// Nothing was counted in a coarse texel exactly where no base texel was in its
/// square.
pub proof fn nothing_is_counted_where_no_base_texel_is(
    ground: Map<(int, int), u32>,
    scale: int,
    column: int,
    row: int,
)
    requires
        0 < scale,
        0 <= column < 512,
        0 <= row < 512,
        forall|at: (int, int)| #[trigger]
            ground.contains_key(at) ==> 0 <= at.0 < scale * 512 && 0 <= at.1 < scale * 512,
    ensures
        nothing_in(ground, scale, row * 512 + column) <==> !exists|at: (int, int)| {
            &&& #[trigger] ground.contains_key(at)
            &&& column * scale <= at.0 < column * scale + scale
            &&& row * scale <= at.1 < row * scale + scale
        },
{
    let texel = row * 512 + column;
    lattice::lemma_cell_coordinates(512, 512, column, row);
    assert forall|at: (int, int)| #[trigger] ground.contains_key(at) implies (lands_in(scale, at.0, at.1) == texel
        <==> column * scale <= at.0 < column * scale + scale && row * scale <= at.1 < row * scale + scale) by {
        lemma_lands(scale, at.0, at.1);
        if column * scale <= at.0 < column * scale + scale && row * scale <= at.1 < row * scale + scale {
            a_base_texel_lands_where_it_lies(scale, at.0, at.1, column, row);
        }
        if lands_in(scale, at.0, at.1) == texel {
            assert(texel % 512 == column && texel / 512 == row);
        }
    }
}

} // verus!
