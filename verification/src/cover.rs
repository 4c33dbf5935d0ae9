//! What covers a texel of generated ground, read off the fields that shaped it.
//!
//! Every measure is the sort key of a 32-bit float (see [`crate::keys`]), so
//! that keys compare as the numbers do, but for the two zeros: the positive one
//! counts as the greater.

use crate::material::Material;
use vstd::arithmetic::power2::pow2;
use vstd::prelude::*;

verus! {

/// How much of a texel standing water covers before it is a lake: a half.
pub const STANDING: u32 = 0xbf00_0000;

/// How much of a texel standing water covers before it is a shore: 0.12.
pub const SHORE: u32 = 0xbdf5_c28f;

/// How much of a texel a channel covers before it is a river: 0.62.
pub const RIVER: u32 = 0xbf1e_b852;

/// How much of a texel a channel covers before it is a stream: 0.28.
pub const STREAM: u32 = 0xbe8f_5c29;

/// How much of a texel a channel covers before it leaves gravel beside it: 0.04.
pub const GRAVEL_CHANNEL: u32 = 0xbd23_d70a;

/// How much loose material a gravel bar takes: 0.45.
pub const GRAVEL_FILLING: u32 = 0xbee6_6666;

/// The slope below which wet ground does not drain: 0.035.
pub const BOGGY_SLOPE: u32 = 0xbd0f_5c29;

/// The drainage above which flat ground stays wet: 9.
pub const BOGGY_FLOW: u32 = 0xc110_0000;

/// How much loose material a bog takes: a quarter.
pub const BOGGY_FILLING: u32 = 0xbe80_0000;

/// How steep ground can be and still hold a glacier: 0.45.
pub const ICE_STEEPNESS: u32 = 0xbee6_6666;

/// How steep a slope of talus is: 0.3.
pub const SCREE_STEEPNESS: u32 = 0xbe99_999a;

/// How much loose material talus takes: 0.22.
pub const SCREE_FILLING: u32 = 0xbe61_47ae;

/// How far between the treeline and the snow shrubs give out: 0.55.
pub const BARREN: u32 = 0xbf0c_cccd;

/// How steep alpine ground carries heath: a quarter.
pub const HEATH_STEEPNESS: u32 = 0xbe80_0000;

/// How hard alpine ground carries heath: 0.6.
pub const HEATH_HARDNESS: u32 = 0xbf19_999a;

/// The slope below which ground is a valley floor: 0.09.
pub const FLOOR_SLOPE: u32 = 0xbdb8_51ec;

/// How high in the relief a valley floor lies at most: 0.35.
pub const FLOOR_BAND: u32 = 0xbeb3_3333;

/// How much loose material outwash takes: 0.7.
pub const OUTWASH_FILLING: u32 = 0xbf33_3333;

/// How far the mottling has to lean for outwash: 0.45.
pub const OUTWASH_MOTTLE: u32 = 0xbee6_6666;

/// How little loose material a cut bank holds: 0.1.
pub const BANK_FILLING: u32 = 0xbdcc_cccd;

/// How steep a cut bank is: 0.12.
pub const BANK_SLOPE: u32 = 0xbdf5_c28f;

/// How far the other way the mottling has to lean for a cut bank: -0.5.
pub const BANK_MOTTLE: u32 = 0x40ff_ffff;

/// How far the mottling has to lean for a meadow: 0.15.
pub const MEADOW_MOTTLE: u32 = 0xbe19_999a;

/// How far into the belt under the treeline the forest gives out: 0.6.
pub const SCRUB: u32 = 0xbf19_999a;

/// The drainage above which ground is wet enough for broadleaves: 8.
pub const WET_FLOW: u32 = 0xc100_0000;

/// How steep ground can be and still carry broadleaves: 0.3.
pub const GENTLE: u32 = 0xbe99_999a;

/// How far south a slope faces before it counts as sunny: a quarter.
pub const SUNNY: u32 = 0xbe80_0000;

/// How far the mottling has to lean for a mixed stand: a quarter.
pub const MIXED_MOTTLE: u32 = 0xbe80_0000;

/// What is known of a texel, each measure by its key.
#[derive(Clone, Copy, Debug, PartialEq, Eq, Structural)]
pub struct Reading {
    /// How much of the texel standing water covers.
    pub lake: u32,
    /// How much of the texel a channel covers.
    pub channel: u32,
    /// How much ground drains through it.
    pub flow: u32,
    /// How steep the landform is, as a rise over run.
    pub slope: u32,
    /// How steep the ground is, from level to sheer.
    pub steepness: u32,
    /// How much loose material lies on it.
    pub filling: u32,
    /// How well the rock resists.
    pub hardness: u32,
    /// How rocky the ground is.
    pub rockiness: u32,
    /// How rocky ground has to be here before nothing grows on it.
    pub bare_from: u32,
    /// Ground height.
    pub height: u32,
    /// Where the trees stop.
    pub treeline: u32,
    /// Where permanent snow starts.
    pub snow_from: u32,
    /// How far from the treeline to the snow it lies.
    pub barrenness: u32,
    /// How far into the belt under the treeline it lies.
    pub thinning: u32,
    /// Where in the relief it lies.
    pub band: u32,
    /// How high in the relief broadleaves come in here.
    pub low_from: u32,
    /// How far south it faces.
    pub south: u32,
    /// The mottling that breaks boundaries up.
    pub mottle: u32,
}

impl Reading {
    /// Flat wet ground that never quite drains, or the margin of a lake.
    pub open spec fn wet(self) -> bool {
        self.lake > SHORE || (self.slope < BOGGY_SLOPE && self.flow > BOGGY_FLOW && self.filling > BOGGY_FILLING)
    }

    /// Above the trees.
    pub open spec fn alpine(self) -> bool {
        self.height > self.treeline
    }

    /// High enough for snow, and shallow enough to hold it.
    pub open spec fn icy(self) -> bool {
        self.height > self.snow_from && self.steepness < ICE_STEEPNESS
    }

    /// Too rocky for anything to grow.
    pub open spec fn bare(self) -> bool {
        self.rockiness > self.bare_from
    }

    /// Loose material on a steep slope.
    pub open spec fn talus(self) -> bool {
        self.steepness > SCREE_STEEPNESS && self.filling > SCREE_FILLING
    }

    /// Flat, worked-over valley bottom.
    pub open spec fn bottom(self) -> bool {
        self.slope < FLOOR_SLOPE && self.band < FLOOR_BAND
    }

    /// Neither under water nor beside it.
    pub open spec fn dry(self) -> bool {
        self.lake <= STANDING && self.channel <= STREAM && !self.wet()
    }

    /// What grows above the treeline.
    pub open spec fn above_the_trees(self) -> Material {
        if self.barrenness > BARREN {
            Material::Fell
        } else if self.steepness > HEATH_STEEPNESS || self.hardness > HEATH_HARDNESS {
            Material::Heath
        } else {
            Material::Grassland
        }
    }

    /// What covers a valley floor the water has been working on.
    pub open spec fn on_the_floor(self) -> Material {
        if self.channel > GRAVEL_CHANNEL && self.filling > GRAVEL_FILLING {
            Material::Shingle
        } else if self.filling > OUTWASH_FILLING && self.mottle > OUTWASH_MOTTLE {
            Material::Sand
        } else if self.filling < BANK_FILLING && self.slope > BANK_SLOPE && self.mottle < BANK_MOTTLE {
            Material::BareEarth
        } else if self.mottle > MEADOW_MOTTLE {
            Material::Meadow
        } else {
            Material::Grassland
        }
    }

    /// What grows below the treeline.
    pub open spec fn among_the_trees(self) -> Material {
        let low = self.band < self.low_from;
        if self.thinning > SCRUB {
            Material::Scrub
        } else if low && self.flow > WET_FLOW && self.steepness < GENTLE {
            Material::ForestBroadleaved
        } else if low && (self.south > SUNNY || self.mottle > MIXED_MOTTLE) {
            Material::ForestMixed
        } else {
            Material::ForestNeedleleaved
        }
    }

    /// What covers the texel: water first, since it covers whatever is under
    /// it, then ice, then bare ground, then whatever grows there.
    pub open spec fn cover(self) -> Material {
        if self.lake > STANDING {
            Material::Lake
        } else if self.channel > RIVER {
            Material::River
        } else if self.channel > STREAM {
            Material::Stream
        } else if self.wet() {
            if self.alpine() {
                Material::Bog
            } else {
                Material::Marsh
            }
        } else if self.icy() {
            Material::Glacier
        } else if self.bare() {
            Material::BareRock
        } else if self.talus() {
            Material::Scree
        } else if self.alpine() {
            self.above_the_trees()
        } else if self.bottom() {
            self.on_the_floor()
        } else {
            self.among_the_trees()
        }
    }
}

/// What grows above the treeline, which is a question of how far above.
fn alpine(reading: &Reading) -> (material: Material)
    ensures
        material == reading.above_the_trees(),
{
    if reading.barrenness > BARREN {
        Material::Fell
    } else if reading.steepness > HEATH_STEEPNESS || reading.hardness > HEATH_HARDNESS {
        Material::Heath
    } else {
        Material::Grassland
    }
}

/// What grows below the treeline, on ground dry enough to hold it.
fn wooded(reading: &Reading) -> (material: Material)
    ensures
        material == reading.among_the_trees(),
{
    if reading.thinning > SCRUB {
        return Material::Scrub;
    }
    let low = reading.band < reading.low_from;
    let wet = reading.flow > WET_FLOW;
    let sunny = reading.south > SUNNY;
    if low && wet && reading.steepness < GENTLE {
        Material::ForestBroadleaved
    } else if low && (sunny || reading.mottle > MIXED_MOTTLE) {
        Material::ForestMixed
    } else {
        Material::ForestNeedleleaved
    }
}

/// What covers a flat valley floor the water has been working on.
fn floor(reading: &Reading) -> (material: Material)
    ensures
        material == reading.on_the_floor(),
{
    if reading.channel > GRAVEL_CHANNEL && reading.filling > GRAVEL_FILLING {
        return Material::Shingle;
    }
    if reading.filling > OUTWASH_FILLING && reading.mottle > OUTWASH_MOTTLE {
        return Material::Sand;
    }
    if reading.filling < BANK_FILLING && reading.slope > BANK_SLOPE && reading.mottle < BANK_MOTTLE {
        return Material::BareEarth;
    }
    if reading.mottle > MEADOW_MOTTLE {
        Material::Meadow
    } else {
        Material::Grassland
    }
}

/// The ground cover of one texel.
pub fn material(reading: &Reading) -> (material: Material)
    ensures
        material == reading.cover(),
{
    if reading.lake > STANDING {
        return Material::Lake;
    }
    if reading.channel > RIVER {
        return Material::River;
    }
    if reading.channel > STREAM {
        return Material::Stream;
    }
    let boggy = reading.slope < BOGGY_SLOPE && reading.flow > BOGGY_FLOW;
    if reading.lake > SHORE || (boggy && reading.filling > BOGGY_FILLING) {
        return if reading.height > reading.treeline {
            Material::Bog
        } else {
            Material::Marsh
        };
    }
    if reading.height > reading.snow_from && reading.steepness < ICE_STEEPNESS {
        return Material::Glacier;
    }
    if reading.rockiness > reading.bare_from {
        return Material::BareRock;
    }
    if reading.steepness > SCREE_STEEPNESS && reading.filling > SCREE_FILLING {
        return Material::Scree;
    }
    if reading.height > reading.treeline {
        return alpine(reading);
    }
    if reading.slope < FLOOR_SLOPE && reading.band < FLOOR_BAND {
        return floor(reading);
    }
    wooded(reading)
}

/// Whether nobody had to build or tend it.
pub open spec fn natural(material: Material) -> bool {
    match material {
        Material::Lake
        | Material::River
        | Material::Stream
        | Material::Bog
        | Material::Marsh
        | Material::Glacier
        | Material::BareRock
        | Material::Scree
        | Material::Fell
        | Material::Heath
        | Material::Grassland
        | Material::Shingle
        | Material::Sand
        | Material::BareEarth
        | Material::Meadow
        | Material::Scrub
        | Material::ForestBroadleaved
        | Material::ForestMixed
        | Material::ForestNeedleleaved => true,
        _ => false,
    }
}

/// Whether it is forest.
pub open spec fn forest(material: Material) -> bool {
    match material {
        Material::ForestBroadleaved | Material::ForestMixed | Material::ForestNeedleleaved => true,
        _ => false,
    }
}

/// Every texel is covered by something, and by nothing anybody built.
pub proof fn every_texel_has_natural_cover(reading: Reading)
    ensures
        natural(reading.cover()),
        reading.cover() != Material::Null,
{
}

/// Standing water is a lake whatever else is known of the ground under it.
pub proof fn standing_water_is_a_lake(reading: Reading)
    ensures
        reading.lake > STANDING <==> reading.cover() == Material::Lake,
{
}

/// A cliff that is dry and carries no ice is bare rock wherever the treeline
/// runs.
pub proof fn a_cliff_is_bare_rock_at_any_altitude(reading: Reading, treeline: u32)
    requires
        reading.dry(),
        !reading.icy(),
        reading.bare(),
    ensures
        (Reading { treeline, ..reading }).cover() == Material::BareRock,
{
}

/// No forest stands above the treeline, and no ice lies below the snow.
pub proof fn cover_keeps_to_its_lines(reading: Reading)
    ensures
        reading.alpine() ==> !forest(reading.cover()),
        reading.cover() == Material::Glacier ==> reading.icy(),
        reading.cover() == Material::Fell || reading.cover() == Material::Heath ==> reading.alpine(),
{
}

/// Ground no water covers or soaks: away from lakes and channels, and not flat,
/// well watered and deep in loose material all at once.
pub open spec fn drained(reading: Reading) -> bool {
    &&& reading.lake <= SHORE
    &&& reading.channel <= STREAM
    &&& reading.slope >= BOGGY_SLOPE || reading.flow <= BOGGY_FLOW || reading.filling <= BOGGY_FILLING
}

/// A channel outside a lake is a river or a stream by how much of the texel it
/// covers, and nothing else is.
pub proof fn channels_are_rivers_and_streams(reading: Reading)
    ensures
        reading.cover() == Material::River <==> reading.lake <= STANDING && reading.channel > RIVER,
        reading.cover() == Material::Stream <==> reading.lake <= STANDING && STREAM < reading.channel <= RIVER,
{
}

/// Flat wet ground that never quite drains is marsh, or bog above the trees, and so
/// is the margin of a lake; nothing else is either.
pub proof fn wet_ground_is_marsh_or_bog(reading: Reading)
    requires
        reading.lake <= STANDING,
        reading.channel <= STREAM,
    ensures
        reading.slope < BOGGY_SLOPE && reading.flow > BOGGY_FLOW && reading.filling > BOGGY_FILLING
            ==> reading.cover() == if reading.height > reading.treeline {
            Material::Bog
        } else {
            Material::Marsh
        },
        reading.lake > SHORE ==> reading.cover() == if reading.height > reading.treeline {
            Material::Bog
        } else {
            Material::Marsh
        },
        reading.cover() == Material::Bog || reading.cover() == Material::Marsh ==> reading.lake > SHORE || (
        reading.slope < BOGGY_SLOPE && reading.flow > BOGGY_FLOW && reading.filling > BOGGY_FILLING),
{
}

/// Ice lies on drained ground above the snow that is shallow enough to hold it, and
/// nowhere else; rock is bare where no ice lies, and talus where neither does.
pub proof fn ice_then_rock_then_talus(reading: Reading)
    ensures
        reading.cover() == Material::Glacier <==> drained(reading) && reading.height > reading.snow_from
            && reading.steepness < ICE_STEEPNESS,
        reading.cover() == Material::BareRock <==> drained(reading) && !(reading.height > reading.snow_from
            && reading.steepness < ICE_STEEPNESS) && reading.rockiness > reading.bare_from,
        reading.cover() == Material::Scree <==> drained(reading) && !(reading.height > reading.snow_from
            && reading.steepness < ICE_STEEPNESS) && reading.rockiness <= reading.bare_from && reading.steepness
            > SCREE_STEEPNESS && reading.filling > SCREE_FILLING,
{
}

/// Drained ground without ice, rock or talus, where something grows.
pub open spec fn grows(reading: Reading) -> bool {
    &&& drained(reading)
    &&& reading.height <= reading.snow_from || reading.steepness >= ICE_STEEPNESS
    &&& reading.rockiness <= reading.bare_from
    &&& reading.steepness <= SCREE_STEEPNESS || reading.filling <= SCREE_FILLING
}

/// Above the trees the cover is a question of how far above, and then of how steep
/// and hard the ground is.
pub proof fn alpine_cover_goes_by_how_far_above(reading: Reading)
    requires
        grows(reading),
        reading.height > reading.treeline,
    ensures
        reading.barrenness > BARREN <==> reading.cover() == Material::Fell,
        reading.barrenness <= BARREN && (reading.steepness > HEATH_STEEPNESS || reading.hardness > HEATH_HARDNESS)
            <==> reading.cover() == Material::Heath,
        reading.barrenness <= BARREN && reading.steepness <= HEATH_STEEPNESS && reading.hardness <= HEATH_HARDNESS
            <==> reading.cover() == Material::Grassland,
{
}

/// Flat ground low in the relief is worked over by the water: gravel beside a
/// channel, then sand, then cut banks, then meadow where the mottling leans that
/// way, and grass for the rest.
pub proof fn a_valley_floor_is_what_the_water_left(reading: Reading)
    requires
        grows(reading),
        reading.height <= reading.treeline,
        reading.slope < FLOOR_SLOPE,
        reading.band < FLOOR_BAND,
    ensures
        ({
            let gravel = reading.channel > GRAVEL_CHANNEL && reading.filling > GRAVEL_FILLING;
            let sand = reading.filling > OUTWASH_FILLING && reading.mottle > OUTWASH_MOTTLE;
            let bank = reading.filling < BANK_FILLING && reading.slope > BANK_SLOPE && reading.mottle < BANK_MOTTLE;
            let meadow = reading.mottle > MEADOW_MOTTLE;
            &&& reading.cover() == Material::Shingle <==> gravel
            &&& reading.cover() == Material::Sand <==> sand && !gravel
            &&& reading.cover() == Material::BareEarth <==> bank && !gravel && !sand
            &&& reading.cover() == Material::Meadow <==> meadow && !gravel && !sand && !bank
            &&& reading.cover() == Material::Grassland <==> !meadow && !gravel && !sand && !bank
        }),
{
}

/// What the water left on a floor is told in one order whatever the slope: gravel
/// beside a channel, sand, cut banks, meadow, grass.
pub proof fn a_floor_is_told_in_one_order(reading: Reading)
    ensures
        ({
            let gravel = reading.channel > GRAVEL_CHANNEL && reading.filling > GRAVEL_FILLING;
            let sand = reading.filling > OUTWASH_FILLING && reading.mottle > OUTWASH_MOTTLE;
            let bank = reading.filling < BANK_FILLING && reading.slope > BANK_SLOPE && reading.mottle < BANK_MOTTLE;
            let meadow = reading.mottle > MEADOW_MOTTLE;
            &&& reading.on_the_floor() == Material::Shingle <==> gravel
            &&& reading.on_the_floor() == Material::Sand <==> sand && !gravel
            &&& reading.on_the_floor() == Material::BareEarth <==> bank && !gravel && !sand
            &&& reading.on_the_floor() == Material::Meadow <==> meadow && !gravel && !sand && !bank
            &&& reading.on_the_floor() == Material::Grassland <==> !meadow && !gravel && !sand && !bank
        }),
{
}

/// Any other ground below the treeline is wooded: scrub where the forest gives out,
/// broadleaves low down on gentle wet ground, mixed stands low down where it is
/// sunny or the mottling leans that way, and needles for the rest.
pub proof fn a_hillside_is_wooded(reading: Reading)
    requires
        grows(reading),
        reading.height <= reading.treeline,
        reading.slope >= FLOOR_SLOPE || reading.band >= FLOOR_BAND,
    ensures
        ({
            let scrub = reading.thinning > SCRUB;
            let low = reading.band < reading.low_from;
            let broad = reading.flow > WET_FLOW && reading.steepness < GENTLE;
            let mixed = reading.south > SUNNY || reading.mottle > MIXED_MOTTLE;
            &&& reading.cover() == Material::Scrub <==> scrub
            &&& reading.cover() == Material::ForestBroadleaved <==> !scrub && low && broad
            &&& reading.cover() == Material::ForestMixed <==> !scrub && low && !broad && mixed
            &&& reading.cover() == Material::ForestNeedleleaved <==> !scrub && (!low || (!broad && !mixed))
        }),
{
}

/// Whether a key stands for the 32-bit float nearest to a positive fraction.
pub open spec fn nearest_to(key: u32, numerator: int, denominator: int) -> bool {
    let bits = key - 0x8000_0000;
    let mantissa = bits % 0x80_0000 + 0x80_0000;
    let scale = pow2((150 - bits / 0x80_0000) as nat);
    let off = 2 * (mantissa * denominator - numerator * scale);
    bits >= 0 && -denominator <= off <= denominator
}

/// The thresholds are the numbers they are said to be.
pub proof fn thresholds_are_numbers()
    ensures
        nearest_to(STANDING, 1, 2),
        nearest_to(SHORE, 12, 100),
        nearest_to(RIVER, 62, 100),
        nearest_to(STREAM, 28, 100),
        nearest_to(GRAVEL_CHANNEL, 4, 100),
        nearest_to(GRAVEL_FILLING, 45, 100),
        nearest_to(BOGGY_SLOPE, 35, 1000),
        nearest_to(BOGGY_FLOW, 9, 1),
        nearest_to(BOGGY_FILLING, 25, 100),
        nearest_to(ICE_STEEPNESS, 45, 100),
        nearest_to(SCREE_STEEPNESS, 30, 100),
        nearest_to(SCREE_FILLING, 22, 100),
        nearest_to(BARREN, 55, 100),
        nearest_to(HEATH_STEEPNESS, 25, 100),
        nearest_to(HEATH_HARDNESS, 60, 100),
        nearest_to(FLOOR_SLOPE, 9, 100),
        nearest_to(FLOOR_BAND, 35, 100),
        nearest_to(OUTWASH_FILLING, 70, 100),
        nearest_to(OUTWASH_MOTTLE, 45, 100),
        nearest_to(BANK_FILLING, 10, 100),
        nearest_to(BANK_SLOPE, 12, 100),
        nearest_to((0xffff_ffff - BANK_MOTTLE) as u32, 50, 100),
        nearest_to(MEADOW_MOTTLE, 15, 100),
        nearest_to(SCRUB, 60, 100),
        nearest_to(WET_FLOW, 8, 1),
        nearest_to(GENTLE, 30, 100),
        nearest_to(SUNNY, 25, 100),
        nearest_to(MIXED_MOTTLE, 25, 100),
{
    vstd::arithmetic::power2::lemma2_to64();
}

} // verus!
