//! Stones on the ground: what each cell of a lattice draws, and what a texel
//! makes of the stones under it.

use crate::noise;
use crate::noise::hash;
use crate::order;
use crate::order::stable_order;
use vstd::prelude::*;

verus! {

/// What the boulders are drawn from.
pub const BOULDER_SEED: u32 = 0x526f_636b;

/// What the rubble is drawn from.
pub const RUBBLE_SEED: u32 = 0x5363_7265;

/// The key of no height at all.
pub const GROUND: u32 = 0x8000_0000;

/// The fewest samples taken across a texel.
pub const FEWEST: u32 = 4;

/// The most samples taken across a texel.
pub const MOST: u32 = 32;

/// What one cell of a lattice draws for its stone.
#[derive(Clone, Copy, Debug, PartialEq, Eq, Structural)]
pub struct Draw {
    /// How far across the cell it lies, of 1024.
    pub jitter_x: u32,
    /// How far down the cell it lies, of 1024.
    pub jitter_y: u32,
    /// How big it is among its class, of 64.
    pub grade: u32,
    /// How dense the field has to be before it is there, of 64.
    pub wants: u32,
}

/// The four fields a word is split into.
pub open spec fn drawn(word: u32) -> Draw {
    Draw {
        jitter_x: (word % 1024) as u32,
        jitter_y: (word / 1024 % 1024) as u32,
        grade: (word / 0x10_0000 % 64) as u32,
        wants: (word / 0x400_0000) as u32,
    }
}

/// Draws the stone of a cell.
pub fn draw(x: i32, y: i32, seed: u32) -> (stone: Draw)
    ensures
        stone == drawn(noise::lattice_word(x, y, seed)),
{
    let bits: u32 = hash(x, y, seed);
    assert(bits & 0x3ff == bits % 1024 && (bits >> 10) & 0x3ff == bits / 1024 % 1024 && (bits >> 20) & 0x3f == bits
        / 0x10_0000 % 64 && (bits >> 26) & 0x3f == bits / 0x400_0000) by (bit_vector);
    Draw {
        jitter_x: bits & 0x3ff,
        jitter_y: (bits >> 10) & 0x3ff,
        grade: (bits >> 20) & 0x3f,
        wants: (bits >> 26) & 0x3f,
    }
}

/// One of the three fields a corner of the patch lattice draws, of 1023.
pub open spec fn part(word: u32, field: int) -> u32 {
    if field == 0 {
        (word % 1024) as u32
    } else if field == 1 {
        (word / 1024 % 1024) as u32
    } else {
        (word / 0x10_0000 % 1024) as u32
    }
}

/// Draws one of the three fields at the four corners of a cell: the cell's own
/// corner, the one east of it, the one south of it and the one across.
pub fn corners(x: i32, y: i32, field: usize) -> (parts: [u32; 4])
    requires
        x < i32::MAX,
        y < i32::MAX,
        field < 3,
    ensures
        parts@[0] == part(noise::lattice_word(x, y, BOULDER_SEED), field as int),
        parts@[1] == part(noise::lattice_word((x + 1) as i32, y, BOULDER_SEED), field as int),
        parts@[2] == part(noise::lattice_word(x, (y + 1) as i32, BOULDER_SEED), field as int),
        parts@[3] == part(noise::lattice_word((x + 1) as i32, (y + 1) as i32, BOULDER_SEED), field as int),
{
    [
        take(hash(x, y, BOULDER_SEED), field),
        take(hash(x + 1, y, BOULDER_SEED), field),
        take(hash(x, y + 1, BOULDER_SEED), field),
        take(hash(x + 1, y + 1, BOULDER_SEED), field),
    ]
}

/// Ten bits of a word.
fn take(bits: u32, field: usize) -> (value: u32)
    requires
        field < 3,
    ensures
        value == part(bits, field as int),
        value < 1024,
{
    assert(bits & 0x3ff == bits % 1024 && (bits >> 10) & 0x3ff == bits / 1024 % 1024 && (bits >> 20) & 0x3ff == bits
        / 0x10_0000 % 1024) by (bit_vector);
    if field == 0 {
        bits & 0x3ff
    } else if field == 1 {
        (bits >> 10) & 0x3ff
    } else {
        (bits >> 20) & 0x3ff
    }
}

/// How many samples are taken across a texel that wants so many.
pub fn samples_across(wanted: u32) -> (across: u32)
    ensures
        across == if wanted < FEWEST {
            FEWEST
        } else if wanted > MOST {
            MOST
        } else {
            wanted
        },
{
    if wanted < FEWEST {
        FEWEST
    } else if wanted > MOST {
        MOST
    } else {
        wanted
    }
}

/// How many samples the height of a texel is averaged over: two of every
/// twenty-five, rounded up, and one at least.
pub open spec fn silhouette(samples: int) -> int {
    if samples == 0 {
        0
    } else {
        (2 * samples + 24) / 25
    }
}

/// The higher of the two classes of stone at a sample.
pub open spec fn top(boulder: u32, rubble: u32) -> u32 {
    if boulder >= rubble {
        boulder
    } else {
        rubble
    }
}

/// How many of the first `upto` samples stand above the ground.
pub open spec fn standing(heights: Seq<u32>, upto: int) -> int
    decreases upto,
{
    if upto <= 0 {
        0
    } else {
        standing(heights, upto - 1) + if heights[upto - 1] > GROUND {
            1int
        } else {
            0int
        }
    }
}

/// The surface a ray meets over each sample.
pub open spec fn tops(boulders: Seq<u32>, rubble: Seq<u32>) -> Seq<u32> {
    Seq::new(boulders.len(), |i: int| top(boulders[i], rubble[i]))
}

/// What a texel carries of the stones on it.
pub struct Baked {
    /// The keys of the heights its height is averaged over, tallest first.
    pub tallest: Vec<u32>,
    /// How many samples lie under a boulder.
    pub boulders: u32,
    /// How many lie under a stone of either class.
    pub covered: u32,
}

/// Whether a list holds the tallest of some heights, tallest first: each entry is
/// a height of its own, and none left out stands above one taken.
pub open spec fn tallest_of(list: Seq<u32>, heights: Seq<u32>, places: Seq<usize>) -> bool {
    &&& list.len() == silhouette(heights.len() as int)
    &&& places.len() == heights.len()
    &&& places.no_duplicates()
    &&& forall|i: int| 0 <= i < places.len() ==> #[trigger] places[i] < heights.len()
    &&& forall|i: int| #![trigger list[i]] 0 <= i < list.len() ==> list[i] == heights[places[i] as int]
    &&& forall|i: int, j: int|
        #![trigger places[i], places[j]]
        0 <= i < j < places.len() ==> heights[places[i] as int] >= heights[places[j] as int]
}

/// Puts together what a texel carries from the heights of both classes at each of
/// its samples.
pub fn bake(boulders: &Vec<u32>, rubble: &Vec<u32>) -> (baked: Baked)
    requires
        boulders@.len() == rubble@.len(),
        boulders@.len() <= u32::MAX,
    ensures
        exists|places: Seq<usize>| #[trigger] tallest_of(baked.tallest@, tops(boulders@, rubble@), places),
        baked.boulders == standing(boulders@, boulders@.len() as int),
        baked.covered == standing(tops(boulders@, rubble@), boulders@.len() as int),
{
    let samples: usize = boulders.len();
    let mut keys: Vec<u128> = Vec::new();
    let mut surface: Vec<u32> = Vec::new();
    let mut under_boulder: u32 = 0;
    let mut under_stone: u32 = 0;
    let ghost all = tops(boulders@, rubble@);
    let mut i: usize = 0;
    while i < samples
        invariant
            i <= samples,
            samples == boulders@.len(),
            samples == rubble@.len(),
            samples <= u32::MAX,
            all == tops(boulders@, rubble@),
            keys@.len() == i,
            surface@.len() == i,
            forall|k: int| #![trigger surface@[k]] 0 <= k < i ==> surface@[k] == all[k],
            forall|k: int| #![trigger keys@[k]] 0 <= k < i ==> keys@[k] == 0xffff_ffff - all[k],
            under_boulder == standing(boulders@, i as int),
            under_stone == standing(all, i as int),
            under_boulder <= i,
            under_stone <= i,
        decreases samples - i,
    {
        let here: u32 = if boulders[i] >= rubble[i] {
            boulders[i]
        } else {
            rubble[i]
        };
        assert(here == all[i as int]);
        keys.push((0xffff_ffffu32 - here) as u128);
        surface.push(here);
        if boulders[i] > GROUND {
            under_boulder = under_boulder + 1;
        }
        if here > GROUND {
            under_stone = under_stone + 1;
        }
        i = i + 1;
    }
    let sorted = stable_order(&keys);
    let taken: usize = if samples == 0 {
        0
    } else {
        ((samples as u64 * 2 + 24) / 25) as usize
    };
    let mut tallest: Vec<u32> = Vec::new();
    let mut k: usize = 0;
    while k < taken
        invariant
            k <= taken <= samples,
            samples == surface@.len(),
            samples == sorted@.len(),
            order::is_order(keys@, sorted@),
            keys@.len() == samples,
            tallest@.len() == k,
            forall|j: int| #![trigger tallest@[j]] 0 <= j < k ==> tallest@[j] == surface@[sorted@[j] as int],
        decreases taken - k,
    {
        tallest.push(surface[sorted[k]]);
        k = k + 1;
    }
    proof {
        assert forall|a: int, b: int|
            #![trigger sorted@[a], sorted@[b]]
            0 <= a < b < sorted@.len() implies all[sorted@[a] as int] >= all[sorted@[b] as int] && sorted@[a]
            != sorted@[b] by {
            assert(order::ahead(keys@, sorted@[a] as int, sorted@[b] as int));
            assert(keys@[sorted@[a] as int] == 0xffff_ffff - all[sorted@[a] as int]);
            assert(keys@[sorted@[b] as int] == 0xffff_ffff - all[sorted@[b] as int]);
        }
        assert forall|i: int| #![trigger tallest@[i]] 0 <= i < tallest@.len() implies tallest@[i]
            == all[sorted@[i] as int] by {
            assert(surface@[sorted@[i] as int] == all[sorted@[i] as int]);
        }
    }
    let baked = Baked { tallest, boulders: under_boulder, covered: under_stone };
    assert(tallest_of(baked.tallest@, tops(boulders@, rubble@), sorted@));
    baked
}

/// A word's four fields are the whole of it: no bit is used twice and none is
/// left out.
pub proof fn the_fields_of_a_word_make_it_up(word: u32)
    ensures
        drawn(word).jitter_x < 1024,
        drawn(word).jitter_y < 1024,
        drawn(word).grade < 64,
        drawn(word).wants < 64,
        word == drawn(word).jitter_x + drawn(word).jitter_y * 1024 + drawn(word).grade * 0x10_0000
            + drawn(word).wants * 0x400_0000,
{
    assert(word / 0x10_0000 % 64 == (word / 0x10_0000) - (word / 0x400_0000) * 64 && word / 1024 % 1024 == (word
        / 1024) - (word / 0x10_0000) * 1024 && word / 0x400_0000 < 64) by (bit_vector);
}

/// A boulder is a stone: no texel has more of its samples under boulders than
/// under stones.
pub proof fn boulders_are_stones(boulders: Seq<u32>, rubble: Seq<u32>, upto: int)
    requires
        boulders.len() == rubble.len(),
        0 <= upto <= boulders.len(),
    ensures
        0 <= standing(boulders, upto) <= standing(tops(boulders, rubble), upto) <= upto,
    decreases upto,
{
    if upto > 0 {
        boulders_are_stones(boulders, rubble, upto - 1);
    }
}

/// The nine cells around a point hold every stone that can cover it: one that
/// reaches at most half a cell from its middle lies in the point's own cell or
/// beside it. Positions along an axis are in 1024ths of a cell.
pub proof fn nine_cells_hold_every_stone(point: int, middle: int, reach: int)
    requires
        2 * reach <= 1024,
        -reach < point - middle < reach,
    ensures
        -1 <= point / 1024 - middle / 1024 <= 1,
{
}

/// The three fields of a corner's word are ten bits each, the lowest first; only
/// its top two bits are left over.
pub proof fn the_parts_of_a_word_follow_each_other(word: u32)
    ensures
        part(word, 0) < 1024,
        part(word, 1) < 1024,
        part(word, 2) < 1024,
        word == part(word, 0) + 1024 * part(word, 1) + 0x10_0000 * part(word, 2) + 0x4000_0000 * (word as int
            / 0x4000_0000),
{
    assert(word / 1024 % 1024 == (word / 1024) - (word / 0x10_0000) * 1024 && word / 0x10_0000 % 1024 == (word
        / 0x10_0000) - (word / 0x4000_0000) * 1024) by (bit_vector);
}

/// The silhouette is the fewest samples that come to two in every twenty-five.
pub proof fn a_silhouette_is_two_in_twenty_five(samples: int)
    requires
        0 <= samples,
    ensures
        25 * silhouette(samples) >= 2 * samples,
        samples > 0 ==> 25 * (silhouette(samples) - 1) < 2 * samples,
        samples == 0 ==> silhouette(samples) == 0,
        samples > 0 ==> 1 <= silhouette(samples) <= samples,
{
}

/// Over each sample the surface is the higher of the two stones there.
pub proof fn the_surface_is_the_higher_stone(boulders: Seq<u32>, rubble: Seq<u32>, i: int)
    requires
        boulders.len() == rubble.len(),
        0 <= i < boulders.len(),
    ensures
        tops(boulders, rubble).len() == boulders.len(),
        tops(boulders, rubble)[i] >= boulders[i],
        tops(boulders, rubble)[i] >= rubble[i],
        tops(boulders, rubble)[i] == boulders[i] || tops(boulders, rubble)[i] == rubble[i],
{
}

/// A sample counts as covered exactly where it stands above the ground.
pub proof fn a_sample_counts_where_it_stands_above_the_ground(heights: Seq<u32>, upto: int)
    requires
        0 <= upto <= heights.len(),
    ensures
        standing(heights, upto) == order::chosen(
            Seq::new(heights.len(), |i: int| heights[i] > 0x8000_0000),
            upto,
        ),
    decreases upto,
{
    if upto > 0 {
        a_sample_counts_where_it_stands_above_the_ground(heights, upto - 1);
    }
}

/// The height of a texel is averaged over its tallest samples: they come tallest
/// first, and none that is left out stands above one that is taken.
pub proof fn none_left_out_is_taller(list: Seq<u32>, heights: Seq<u32>, places: Seq<usize>, i: int, j: int)
    requires
        tallest_of(list, heights, places),
        0 <= i < list.len(),
        i < j < heights.len(),
    ensures
        25 * list.len() >= 2 * heights.len(),
        25 * (list.len() - 1) < 2 * heights.len(),
        list[i] == heights[places[i] as int],
        places[i] != places[j],
        heights[places[j] as int] <= list[i],
        j < list.len() ==> list[j] <= list[i],
{
    assert(heights[places[i] as int] >= heights[places[j] as int]);
}

} // verus!
