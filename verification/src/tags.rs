//! Deciding what ground an OpenStreetMap area's tags describe.
//!
//! The same ground arrives as `natural=`, `landuse=`, `leisure=`, `water=`,
//! `wetland=`, `golf=`, or a combination, refined by modifiers like
//! `leaf_type=`. This module folds that vocabulary onto [`Material`].
//! Unrecognised values are skipped rather than approximated: a wrong material
//! paints confidently forever, while a skipped area leaves the layer below
//! showing.

use vstd::prelude::*;
use crate::material;
use crate::material::Material;
use crate::text::same;

verus! {

/// The value the first tag with a key carries.
pub open spec fn value_of(tags: Seq<(&str, &str)>, key: Seq<char>) -> Option<Seq<char>>
    decreases tags.len(),
{
    if tags.len() == 0 {
        None
    } else if tags.first().0@ == key {
        Some(tags.first().1@)
    } else {
        value_of(tags.drop_first(), key)
    }
}

/// What a value says, or what nothing says where there is none.
pub open spec fn or_nothing(value: Option<Seq<char>>) -> Seq<char> {
    match value {
        Some(value) => value,
        None => Seq::empty(),
    }
}

/// Open water, by its `water=` value.
pub open spec fn water_named(value: Seq<char>) -> Material {
    if value == "lake"@ || value == "oxbow"@ {
        Material::Lake
    } else if value == "lagoon"@ {
        Material::Lagoon
    } else if value == "pond"@ {
        Material::Pond
    } else if value == "river"@ {
        Material::River
    } else if value == "stream"@ || value == "ditch"@ || value == "drain"@ {
        Material::Stream
    } else if value == "reservoir"@ {
        Material::Reservoir
    } else if value == "basin"@ || value == "wastewater"@ {
        Material::Basin
    } else if value == "canal"@ {
        Material::Canal
    } else {
        Material::WaterUnknown
    }
}

/// Wetland, by its `wetland=` value.
pub open spec fn wetland_named(value: Seq<char>) -> Material {
    if value == "marsh"@ {
        Material::Marsh
    } else if value == "swamp"@ {
        Material::Swamp
    } else if value == "bog"@ || value == "string_bog"@ {
        Material::Bog
    } else if value == "fen"@ {
        Material::Fen
    } else if value == "tidalflat"@ {
        Material::TidalFlat
    } else if value == "saltmarsh"@ {
        Material::SaltMarsh
    } else if value == "wet_meadow"@ {
        Material::WetMeadow
    } else if value == "reedbed"@ {
        Material::Reedbed
    } else {
        Material::WetlandUnknown
    }
}

/// Forest, by its `leaf_type=` value.
pub open spec fn forest_named(value: Seq<char>) -> Material {
    if value == "needleleaved"@ {
        Material::ForestNeedleleaved
    } else if value == "broadleaved"@ {
        Material::ForestBroadleaved
    } else if value == "mixed"@ {
        Material::ForestMixed
    } else {
        Material::ForestUnknown
    }
}

/// A pitch, by its `surface=` value.
pub open spec fn pitch_named(value: Seq<char>) -> Material {
    if value == "artificial_turf"@ || value == "tartan"@ || value == "acrylic"@
        || value == "asphalt"@ || value == "concrete"@ || value == "hard"@ || value == "rubber"@
        || value == "clay"@ || value == "metal_grid"@ || value == "paved"@
        || value == "paving_stones"@ || value == "wood"@ {
        Material::PitchArtificial
    } else {
        Material::PitchGrass
    }
}

/// The parts a golfer would name.
pub open spec fn golf_named(value: Seq<char>) -> Option<Material> {
    if value == "fairway"@ || value == "driving_range"@ {
        Some(Material::GolfFairway)
    } else if value == "green"@ {
        Some(Material::GolfGreen)
    } else if value == "tee"@ {
        Some(Material::GolfTee)
    } else if value == "bunker"@ {
        Some(Material::GolfBunker)
    } else if value == "rough"@ {
        Some(Material::GolfRough)
    } else if value == "water_hazard"@ || value == "lateral_water_hazard"@ {
        Some(Material::Pond)
    } else {
        None
    }
}

/// Natural ground, refined by the other tags.
pub open spec fn natural_named(value: Seq<char>, tags: Seq<(&str, &str)>) -> Option<Material> {
    if value == "water"@ {
        Some(water_named(or_nothing(value_of(tags, "water"@))))
    } else if value == "wood"@ {
        Some(forest_named(or_nothing(value_of(tags, "leaf_type"@))))
    } else if value == "wetland"@ {
        Some(wetland_named(or_nothing(value_of(tags, "wetland"@))))
    } else if value == "scrub"@ {
        Some(Material::Scrub)
    } else if value == "shrubbery"@ {
        Some(Material::Shrubbery)
    } else if value == "heath"@ {
        Some(Material::Heath)
    } else if value == "grassland"@ {
        Some(Material::Grassland)
    } else if value == "fell"@ {
        Some(Material::Fell)
    } else if value == "bare_rock"@ || value == "rock"@ || value == "stone"@ {
        Some(Material::BareRock)
    } else if value == "scree"@ {
        Some(Material::Scree)
    } else if value == "shingle"@ {
        Some(Material::Shingle)
    } else if value == "sand"@ || value == "dune"@ {
        Some(Material::Sand)
    } else if value == "beach"@ {
        Some(Material::Beach)
    } else if value == "glacier"@ {
        Some(Material::Glacier)
    } else if value == "mud"@ {
        Some(Material::Mud)
    } else if value == "bay"@ || value == "strait"@ {
        Some(Material::Ocean)
    } else {
        None
    }
}

/// Ground by the use it is put to.
pub open spec fn landuse_named(value: Seq<char>, tags: Seq<(&str, &str)>) -> Option<Material> {
    if value == "residential"@ || value == "garages"@ {
        Some(Material::Residential)
    } else if value == "commercial"@ {
        Some(Material::Commercial)
    } else if value == "retail"@ {
        Some(Material::Retail)
    } else if value == "industrial"@ || value == "depot"@ || value == "port"@ {
        Some(Material::Industrial)
    } else if value == "institutional"@ || value == "education"@ || value == "civic"@
        || value == "governmental"@ {
        Some(Material::Institutional)
    } else if value == "religious"@ {
        Some(Material::Religious)
    } else if value == "railway"@ {
        Some(Material::Railway)
    } else if value == "military"@ {
        Some(Material::Military)
    } else if value == "construction"@ {
        Some(Material::Construction)
    } else if value == "brownfield"@ {
        Some(Material::Brownfield)
    } else if value == "greenfield"@ {
        Some(Material::Greenfield)
    } else if value == "landfill"@ {
        Some(Material::Landfill)
    } else if value == "quarry"@ {
        Some(Material::Quarry)
    } else if value == "cemetery"@ {
        Some(Material::Cemetery)
    } else if value == "grass"@ {
        Some(Material::Grass)
    } else if value == "meadow"@ || value == "animal_keeping"@ {
        Some(Material::Meadow)
    } else if value == "forest"@ {
        Some(forest_named(or_nothing(value_of(tags, "leaf_type"@))))
    } else if value == "farmland"@ {
        Some(Material::Farmland)
    } else if value == "farmyard"@ {
        Some(Material::Farmyard)
    } else if value == "orchard"@ {
        Some(Material::Orchard)
    } else if value == "vineyard"@ {
        Some(Material::Vineyard)
    } else if value == "allotments"@ {
        Some(Material::Allotments)
    } else if value == "plant_nursery"@ {
        Some(Material::PlantNursery)
    } else if value == "greenhouse_horticulture"@ {
        Some(Material::Greenhouses)
    } else if value == "flowerbed"@ {
        Some(Material::FlowerBed)
    } else if value == "village_green"@ {
        Some(Material::VillageGreen)
    } else if value == "recreation_ground"@ {
        Some(Material::RecreationGround)
    } else if value == "basin"@ {
        Some(Material::Basin)
    } else if value == "reservoir"@ {
        Some(Material::Reservoir)
    } else {
        None
    }
}

/// Ground laid out for leisure.
pub open spec fn leisure_named(value: Seq<char>, tags: Seq<(&str, &str)>) -> Option<Material> {
    if value == "park"@ {
        Some(Material::Park)
    } else if value == "garden"@ {
        Some(Material::Garden)
    } else if value == "dog_park"@ {
        Some(Material::DogPark)
    } else if value == "playground"@ {
        Some(Material::Playground)
    } else if value == "recreation_ground"@ {
        Some(Material::RecreationGround)
    } else if value == "village_green"@ || value == "common"@ {
        Some(Material::VillageGreen)
    } else if value == "golf_course"@ {
        Some(Material::GolfRough)
    } else if value == "pitch"@ || value == "track"@ {
        Some(pitch_named(or_nothing(value_of(tags, "surface"@))))
    } else {
        None
    }
}

/// The material tags describe: the keys from most to least specific, and
/// nothing where the area is no area.
pub open spec fn classified(tags: Seq<(&str, &str)>) -> Option<Material> {
    if value_of(tags, "area"@) == Some("no"@) {
        None
    } else if let Some(value) = value_of(tags, "golf"@) {
        golf_named(value)
    } else if let Some(value) = value_of(tags, "water"@) {
        Some(water_named(value))
    } else if value_of(tags, "waterway"@) == Some("riverbank"@) {
        Some(Material::River)
    } else if let Some(value) = value_of(tags, "natural"@) {
        natural_named(value, tags)
    } else if let Some(value) = value_of(tags, "wetland"@) {
        Some(wetland_named(value))
    } else if value_of(tags, "man_made"@) == Some("clearcut"@) {
        Some(Material::Clearcut)
    } else if let Some(value) = value_of(tags, "landuse"@) {
        landuse_named(value, tags)
    } else if let Some(value) = value_of(tags, "leisure"@) {
        leisure_named(value, tags)
    } else if value_of(tags, "landcover"@) == Some("grass"@) {
        Some(Material::Grass)
    } else {
        None
    }
}

/// The value a tag lookup finds, or nothing.
pub fn get<'a>(tags: &[(&'a str, &'a str)], key: &str) -> (value: Option<&'a str>)
    ensures
        match value {
            Some(value) => value_of(tags@, key@) == Some(value@),
            None => value_of(tags@, key@) is None,
        },
{
    let mut i: usize = 0;
    assert(tags@.skip(0) =~= tags@);
    while i < tags.len()
        invariant
            i <= tags@.len(),
            value_of(tags@, key@) == value_of(tags@.skip(i as int), key@),
        decreases tags@.len() - i,
    {
        let (candidate, value): (&'a str, &'a str) = tags[i];
        if same(candidate, key) {
            return Some(value);
        }
        assert(tags@.skip(i as int).drop_first() =~= tags@.skip(i + 1));
        i = i + 1;
    }
    None
}

/// The value a tag lookup finds, or the empty one.
fn get_or_nothing<'a>(tags: &[(&'a str, &'a str)], key: &str) -> (value: &'a str)
    ensures
        value@ == or_nothing(value_of(tags@, key@)),
{
    match get(tags, key) {
        Some(value) => value,
        None => {
            proof {
                reveal_strlit("");
                assert(""@ =~= Seq::<char>::empty());
            }
            ""
        },
    }
}

/// Whether the first tag with a key carries a value.
fn says(tags: &[(&str, &str)], key: &str, value: &str) -> (yes: bool)
    ensures
        yes == (value_of(tags@, key@) == Some(value@)),
{
    match get(tags, key) {
        Some(found) => same(found, value),
        None => false,
    }
}

/// Whether any tag carries a key and a value.
pub open spec fn tagged(tags: Seq<(&str, &str)>, key: Seq<char>, value: Seq<char>) -> bool {
    exists|i: int| 0 <= i < tags.len() && (#[trigger] tags[i]).0@ == key && tags[i].1@ == value
}

/// Whether any tag carries a key and a value.
pub fn has_tag(tags: &[(&str, &str)], key: &str, value: &str) -> (yes: bool)
    ensures
        yes == tagged(tags@, key@, value@),
{
    let mut i: usize = 0;
    while i < tags.len()
        invariant
            i <= tags@.len(),
            forall|k: int| 0 <= k < i ==> !((#[trigger] tags@[k]).0@ == key@ && tags@[k].1@ == value@),
        decreases tags@.len() - i,
    {
        if same(tags[i].0, key) && same(tags[i].1, value) {
            assert(tags@[i as int].0@ == key@ && tags@[i as int].1@ == value@);
            return true;
        }
        i = i + 1;
    }
    false
}

fn water(value: &str) -> (material: Material)
    ensures
        material == water_named(value@),
{
    if same(value, "lake") || same(value, "oxbow") {
        Material::Lake
    } else if same(value, "lagoon") {
        Material::Lagoon
    } else if same(value, "pond") {
        Material::Pond
    } else if same(value, "river") {
        Material::River
    } else if same(value, "stream") || same(value, "ditch") || same(value, "drain") {
        Material::Stream
    } else if same(value, "reservoir") {
        Material::Reservoir
    } else if same(value, "basin") || same(value, "wastewater") {
        Material::Basin
    } else if same(value, "canal") {
        Material::Canal
    } else {
        Material::WaterUnknown
    }
}

fn wetland(value: &str) -> (material: Material)
    ensures
        material == wetland_named(value@),
{
    if same(value, "marsh") {
        Material::Marsh
    } else if same(value, "swamp") {
        Material::Swamp
    } else if same(value, "bog") || same(value, "string_bog") {
        Material::Bog
    } else if same(value, "fen") {
        Material::Fen
    } else if same(value, "tidalflat") {
        Material::TidalFlat
    } else if same(value, "saltmarsh") {
        Material::SaltMarsh
    } else if same(value, "wet_meadow") {
        Material::WetMeadow
    } else if same(value, "reedbed") {
        Material::Reedbed
    } else {
        Material::WetlandUnknown
    }
}

fn forest(tags: &[(&str, &str)]) -> (material: Material)
    ensures
        material == forest_named(or_nothing(value_of(tags@, "leaf_type"@))),
{
    let value: &str = get_or_nothing(tags, "leaf_type");
    if same(value, "needleleaved") {
        Material::ForestNeedleleaved
    } else if same(value, "broadleaved") {
        Material::ForestBroadleaved
    } else if same(value, "mixed") {
        Material::ForestMixed
    } else {
        Material::ForestUnknown
    }
}

fn pitch(tags: &[(&str, &str)]) -> (material: Material)
    ensures
        material == pitch_named(or_nothing(value_of(tags@, "surface"@))),
{
    let value: &str = get_or_nothing(tags, "surface");
    if same(value, "artificial_turf") || same(value, "tartan") || same(value, "acrylic")
        || same(value, "asphalt") || same(value, "concrete") || same(value, "hard")
        || same(value, "rubber") || same(value, "clay") || same(value, "metal_grid")
        || same(value, "paved") || same(value, "paving_stones") || same(value, "wood") {
        Material::PitchArtificial
    } else {
        Material::PitchGrass
    }
}

fn golf(value: &str) -> (material: Option<Material>)
    ensures
        material == golf_named(value@),
{
    if same(value, "fairway") || same(value, "driving_range") {
        Some(Material::GolfFairway)
    } else if same(value, "green") {
        Some(Material::GolfGreen)
    } else if same(value, "tee") {
        Some(Material::GolfTee)
    } else if same(value, "bunker") {
        Some(Material::GolfBunker)
    } else if same(value, "rough") {
        Some(Material::GolfRough)
    } else if same(value, "water_hazard") || same(value, "lateral_water_hazard") {
        Some(Material::Pond)
    } else {
        None
    }
}

fn natural(value: &str, tags: &[(&str, &str)]) -> (material: Option<Material>)
    ensures
        material == natural_named(value@, tags@),
{
    if same(value, "water") {
        Some(water(get_or_nothing(tags, "water")))
    } else if same(value, "wood") {
        Some(forest(tags))
    } else if same(value, "wetland") {
        Some(wetland(get_or_nothing(tags, "wetland")))
    } else if same(value, "scrub") {
        Some(Material::Scrub)
    } else if same(value, "shrubbery") {
        Some(Material::Shrubbery)
    } else if same(value, "heath") {
        Some(Material::Heath)
    } else if same(value, "grassland") {
        Some(Material::Grassland)
    } else if same(value, "fell") {
        Some(Material::Fell)
    } else if same(value, "bare_rock") || same(value, "rock") || same(value, "stone") {
        Some(Material::BareRock)
    } else if same(value, "scree") {
        Some(Material::Scree)
    } else if same(value, "shingle") {
        Some(Material::Shingle)
    } else if same(value, "sand") || same(value, "dune") {
        Some(Material::Sand)
    } else if same(value, "beach") {
        Some(Material::Beach)
    } else if same(value, "glacier") {
        Some(Material::Glacier)
    } else if same(value, "mud") {
        Some(Material::Mud)
    } else if same(value, "bay") || same(value, "strait") {
        Some(Material::Ocean)
    } else {
        None
    }
}

fn landuse(value: &str, tags: &[(&str, &str)]) -> (material: Option<Material>)
    ensures
        material == landuse_named(value@, tags@),
{
    if same(value, "residential") || same(value, "garages") {
        Some(Material::Residential)
    } else if same(value, "commercial") {
        Some(Material::Commercial)
    } else if same(value, "retail") {
        Some(Material::Retail)
    } else if same(value, "industrial") || same(value, "depot") || same(value, "port") {
        Some(Material::Industrial)
    } else if same(value, "institutional") || same(value, "education") || same(value, "civic")
        || same(value, "governmental") {
        Some(Material::Institutional)
    } else if same(value, "religious") {
        Some(Material::Religious)
    } else if same(value, "railway") {
        Some(Material::Railway)
    } else if same(value, "military") {
        Some(Material::Military)
    } else if same(value, "construction") {
        Some(Material::Construction)
    } else if same(value, "brownfield") {
        Some(Material::Brownfield)
    } else if same(value, "greenfield") {
        Some(Material::Greenfield)
    } else if same(value, "landfill") {
        Some(Material::Landfill)
    } else if same(value, "quarry") {
        Some(Material::Quarry)
    } else if same(value, "cemetery") {
        Some(Material::Cemetery)
    } else if same(value, "grass") {
        Some(Material::Grass)
    } else if same(value, "meadow") || same(value, "animal_keeping") {
        Some(Material::Meadow)
    } else if same(value, "forest") {
        Some(forest(tags))
    } else if same(value, "farmland") {
        Some(Material::Farmland)
    } else if same(value, "farmyard") {
        Some(Material::Farmyard)
    } else if same(value, "orchard") {
        Some(Material::Orchard)
    } else if same(value, "vineyard") {
        Some(Material::Vineyard)
    } else if same(value, "allotments") {
        Some(Material::Allotments)
    } else if same(value, "plant_nursery") {
        Some(Material::PlantNursery)
    } else if same(value, "greenhouse_horticulture") {
        Some(Material::Greenhouses)
    } else if same(value, "flowerbed") {
        Some(Material::FlowerBed)
    } else if same(value, "village_green") {
        Some(Material::VillageGreen)
    } else if same(value, "recreation_ground") {
        Some(Material::RecreationGround)
    } else if same(value, "basin") {
        Some(Material::Basin)
    } else if same(value, "reservoir") {
        Some(Material::Reservoir)
    } else {
        None
    }
}

fn leisure(value: &str, tags: &[(&str, &str)]) -> (material: Option<Material>)
    ensures
        material == leisure_named(value@, tags@),
{
    if same(value, "park") {
        Some(Material::Park)
    } else if same(value, "garden") {
        Some(Material::Garden)
    } else if same(value, "dog_park") {
        Some(Material::DogPark)
    } else if same(value, "playground") {
        Some(Material::Playground)
    } else if same(value, "recreation_ground") {
        Some(Material::RecreationGround)
    } else if same(value, "village_green") || same(value, "common") {
        Some(Material::VillageGreen)
    } else if same(value, "golf_course") {
        Some(Material::GolfRough)
    } else if same(value, "pitch") || same(value, "track") {
        Some(pitch(tags))
    } else {
        None
    }
}

/// The material an area with these tags is made of, or `None` when the tags do
/// not describe ground cover that is painted.
///
/// Keys are consulted from most to least specific, `golf=` before `natural=`
/// before `landuse=` before `leisure=`, so a fairway inside a wood inside a
/// park classifies as the fairway. `area=no` refuses everything: it is the
/// mapper saying a closed way is a loop of something linear, not a surface.
pub fn classify(tags: &[(&str, &str)]) -> (material: Option<Material>)
    ensures
        material == classified(tags@),
{
    if says(tags, "area", "no") {
        return None;
    }
    if let Some(value) = get(tags, "golf") {
        return golf(value);
    }
    if let Some(value) = get(tags, "water") {
        return Some(water(value));
    }
    if says(tags, "waterway", "riverbank") {
        return Some(Material::River);
    }
    if let Some(value) = get(tags, "natural") {
        return natural(value, tags);
    }
    if let Some(value) = get(tags, "wetland") {
        return Some(wetland(value));
    }
    if says(tags, "man_made", "clearcut") {
        return Some(Material::Clearcut);
    }
    if let Some(value) = get(tags, "landuse") {
        return landuse(value, tags);
    }
    if let Some(value) = get(tags, "leisure") {
        return leisure(value, tags);
    }
    if says(tags, "landcover", "grass") {
        return Some(Material::Grass);
    }
    None
}

/// An area that says it is none is never painted, whatever else is tagged.
pub proof fn area_no_refuses_everything(tags: Seq<(&str, &str)>)
    requires
        value_of(tags, "area"@) == Some("no"@),
    ensures
        classified(tags) is None,
{
}

/// A more specific key settles the matter: no tag of a broader key, nor of any
/// other, has a say beside it.
pub proof fn a_more_specific_key_settles_it(tags: Seq<(&str, &str)>, golf: Seq<char>, water: Seq<char>)
    requires
        value_of(tags, "area"@) != Some("no"@),
    ensures
        value_of(tags, "golf"@) == Some(golf) ==> classified(tags) == golf_named(golf),
        value_of(tags, "golf"@) is None && value_of(tags, "water"@) == Some(water) ==> classified(tags) == Some(
            water_named(water),
        ),
{
}

/// Bare ground is what nothing describes, so no tags describe it.
pub proof fn nothing_classifies_as_null(tags: Seq<(&str, &str)>)
    ensures
        classified(tags) != Some(Material::Null),
{
}

/// Water paints over wetland, and wetland over forest, whatever kinds they are.
pub proof fn water_covers_wetland_covers_forest(water: Seq<char>, wetland: Seq<char>, leaves: Seq<char>)
    ensures
        material::layer_of(water_named(water)) > material::layer_of(wetland_named(wetland)),
        material::layer_of(wetland_named(wetland)) > material::layer_of(forest_named(leaves)),
{
}

/// The ocean is the floor: whatever else tags describe paints over it.
pub proof fn every_mapped_area_covers_the_sea(tags: Seq<(&str, &str)>, material: Material)
    requires
        classified(tags) == Some(material),
        material != Material::Ocean,
    ensures
        material::layer_of(material) > material::layer_of(Material::Ocean),
{
}

/// The first tag with a key speaks for it.
pub proof fn the_first_tag_with_a_key_speaks(tags: Seq<(&str, &str)>, key: Seq<char>, first: int)
    requires
        0 <= first < tags.len(),
        tags[first].0@ == key,
        forall|i: int| 0 <= i < first ==> (#[trigger] tags[i]).0@ != key,
    ensures
        value_of(tags, key) == Some(tags[first].1@),
    decreases first,
{
    if first > 0 {
        assert(tags[0].0@ != key);
        let rest = tags.drop_first();
        assert forall|i: int| 0 <= i < first - 1 implies (#[trigger] rest[i]).0@ != key by {
            assert(rest[i] == tags[i + 1]);
        }
        the_first_tag_with_a_key_speaks(rest, key, first - 1);
    }
}

/// A key no tag has says nothing.
pub proof fn a_key_no_tag_has_says_nothing(tags: Seq<(&str, &str)>, key: Seq<char>)
    requires
        forall|i: int| 0 <= i < tags.len() ==> (#[trigger] tags[i]).0@ != key,
    ensures
        value_of(tags, key) is None,
    decreases tags.len(),
{
    if tags.len() > 0 {
        assert(tags[0].0@ != key);
        let rest = tags.drop_first();
        assert forall|i: int| 0 <= i < rest.len() implies (#[trigger] rest[i]).0@ != key by {
            assert(rest[i] == tags[i + 1]);
        }
        a_key_no_tag_has_says_nothing(rest, key);
    }
}

/// Whether two lists of tags say the same under a key.
pub open spec fn same_under(a: Seq<(&str, &str)>, b: Seq<(&str, &str)>, key: Seq<char>) -> bool {
    value_of(a, key) == value_of(b, key)
}

/// An area, as far as the tags say, with nothing said of golf.
pub open spec fn past_golf(tags: Seq<(&str, &str)>) -> bool {
    value_of(tags, "area"@) != Some("no"@) && value_of(tags, "golf"@) is None
}

/// Nothing said of water either.
pub open spec fn past_water(tags: Seq<(&str, &str)>) -> bool {
    past_golf(tags) && value_of(tags, "water"@) is None && value_of(tags, "waterway"@) != Some("riverbank"@)
}

/// Nothing said of nature either.
pub open spec fn past_natural(tags: Seq<(&str, &str)>) -> bool {
    past_water(tags) && value_of(tags, "natural"@) is None
}

/// Nothing said of wetland or of a clearcut either.
pub open spec fn past_wetland(tags: Seq<(&str, &str)>) -> bool {
    past_natural(tags) && value_of(tags, "wetland"@) is None && value_of(tags, "man_made"@) != Some("clearcut"@)
}

/// Nothing said of use either.
pub open spec fn past_landuse(tags: Seq<(&str, &str)>) -> bool {
    past_wetland(tags) && value_of(tags, "landuse"@) is None
}

/// Nothing said of leisure either.
pub open spec fn past_leisure(tags: Seq<(&str, &str)>) -> bool {
    past_landuse(tags) && value_of(tags, "leisure"@) is None
}

/// Keys are consulted from most to least specific: where one has spoken, whatever
/// the broader ones say, or any other tag but the one that refines it, makes no
/// difference.
pub proof fn broader_keys_have_no_say(a: Seq<(&str, &str)>, b: Seq<(&str, &str)>)
    ensures
        value_of(a, "area"@) != Some("no"@) && value_of(b, "area"@) != Some("no"@) && value_of(a, "golf"@) is Some
            && same_under(a, b, "golf"@) ==> classified(a) == classified(b),
        past_golf(a) && past_golf(b) && value_of(a, "water"@) is Some && same_under(a, b, "water"@) ==> classified(a)
            == classified(b),
        past_golf(a) && value_of(a, "water"@) is None && value_of(a, "waterway"@) == Some("riverbank"@)
            ==> classified(a) == Some(Material::River),
        past_water(a) && past_water(b) && value_of(a, "natural"@) is Some && same_under(a, b, "natural"@)
            && same_under(a, b, "wetland"@) && same_under(a, b, "leaf_type"@) ==> classified(a) == classified(b),
        past_natural(a) && past_natural(b) && value_of(a, "wetland"@) is Some && same_under(a, b, "wetland"@)
            ==> classified(a) == classified(b),
        past_natural(a) && value_of(a, "wetland"@) is None && value_of(a, "man_made"@) == Some("clearcut"@)
            ==> classified(a) == Some(Material::Clearcut),
        past_wetland(a) && past_wetland(b) && value_of(a, "landuse"@) is Some && same_under(a, b, "landuse"@)
            && same_under(a, b, "leaf_type"@) ==> classified(a) == classified(b),
        past_landuse(a) && past_landuse(b) && value_of(a, "leisure"@) is Some && same_under(a, b, "leisure"@)
            && same_under(a, b, "surface"@) ==> classified(a) == classified(b),
        past_leisure(a) ==> classified(a) == if value_of(a, "landcover"@) == Some("grass"@) {
            Some(Material::Grass)
        } else {
            None
        },
{
}

/// A number that tells the words of a vocabulary apart: how long a word is, its
/// first two letters and its last two.
#[verifier::opaque]
spec fn mark(word: Seq<char>) -> int {
    word.len() + 64 * (word[0] as int) + 0x4000 * (word[1] as int) + 0x40_0000 * (word.last() as int) + 0x4000_0000 * (
    word[word.len() - 2] as int)
}

proof fn lemma_golf_told_apart()
    ensures
        mark("fairway"@) == 104662063495,
        mark("driving_range"@) == 111020906765,
        mark("green"@) == 108911172037,
        mark("tee"@) == 108873211139,
        mark("bunker"@) == 108927998086,
        mark("rough"@) == 111033441413,
        mark("water_hazard"@) == 122827595212,
        mark("lateral_water_hazard"@) == 122827594516,
{
    reveal(mark);
    reveal_strlit("fairway");
    reveal_strlit("driving_range");
    reveal_strlit("green");
    reveal_strlit("tee");
    reveal_strlit("bunker");
    reveal_strlit("rough");
    reveal_strlit("water_hazard");
    reveal_strlit("lateral_water_hazard");
}

proof fn lemma_water_told_apart()
    ensures
        mark("lake"@) == 115315596036,
        mark("oxbow"@) == 119686437829,
        mark("lagoon"@) == 119648312070,
        mark("pond"@) == 118532856836,
        mark("river"@) == 108927802501,
        mark("stream"@) == 104612043974,
        mark("ditch"@) == 106738374917,
        mark("drain"@) == 113206139141,
        mark("reservoir"@) == 113222704265,
        mark("basin"@) == 113205860485,
        mark("wastewater"@) == 108927671754,
        mark("canal"@) == 104607537349,
{
    reveal(mark);
    reveal_strlit("lake");
    reveal_strlit("oxbow");
    reveal_strlit("lagoon");
    reveal_strlit("pond");
    reveal_strlit("river");
    reveal_strlit("stream");
    reveal_strlit("ditch");
    reveal_strlit("drain");
    reveal_strlit("reservoir");
    reveal_strlit("basin");
    reveal_strlit("wastewater");
    reveal_strlit("canal");
}

proof fn lemma_wetland_told_apart()
    ensures
        mark("marsh"@) == 123918113605,
        mark("swamp"@) == 117509577925,
        mark("bog"@) == 119619180675,
        mark("string_bog"@) == 119619263690,
        mark("fen"@) == 108910958979,
        mark("tidalflat"@) == 104641223945,
        mark("saltmarsh"@) == 123918113993,
        mark("wet_meadow"@) == 119686127050,
        mark("reedbed"@) == 108869016711,
{
    reveal(mark);
    reveal_strlit("marsh");
    reveal_strlit("swamp");
    reveal_strlit("bog");
    reveal_strlit("string_bog");
    reveal_strlit("fen");
    reveal_strlit("tidalflat");
    reveal_strlit("saltmarsh");
    reveal_strlit("wet_meadow");
    reveal_strlit("reedbed");
}

proof fn lemma_natural_told_apart()
    ensures
        mark("water"@) == 108927671749,
        mark("wood"@) == 119606599108,
        mark("wetland"@) == 118532693447,
        mark("scrub"@) == 126040464581,
        mark("shrubbery"@) == 122915790025,
        mark("heath"@) == 124991920645,
        mark("grassland"@) == 118532905417,
        mark("fell"@) == 116418763140,
        mark("bare_rock"@) == 106750826633,
        mark("rock"@) == 106751057028,
        mark("stone"@) == 118537133253,
        mark("scree"@) == 108873178309,
        mark("shingle"@) == 116389452999,
        mark("sand"@) == 118532627652,
        mark("dune"@) == 118537148676,
        mark("beach"@) == 106738309253,
        mark("glacier"@) == 108927850951,
        mark("mud"@) == 126049147715,
        mark("bay"@) == 104662063235,
        mark("strait"@) == 113231338694,
{
    reveal(mark);
    reveal_strlit("water");
    reveal_strlit("wood");
    reveal_strlit("wetland");
    reveal_strlit("scrub");
    reveal_strlit("shrubbery");
    reveal_strlit("heath");
    reveal_strlit("grassland");
    reveal_strlit("fell");
    reveal_strlit("bare_rock");
    reveal_strlit("rock");
    reveal_strlit("stone");
    reveal_strlit("scree");
    reveal_strlit("shingle");
    reveal_strlit("sand");
    reveal_strlit("dune");
    reveal_strlit("beach");
    reveal_strlit("glacier");
    reveal_strlit("mud");
    reveal_strlit("bay");
    reveal_strlit("strait");
}

proof fn lemma_landuse_told_apart()
    ensures
        mark("forest"@) == 123968674182,
        mark("residential"@) == 104607603851,
        mark("garages"@) == 108931865031,
        mark("commercial"@) == 104607766730,
        mark("retail"@) == 113197538438,
        mark("industrial"@) == 104607750730,
        mark("depot"@) == 119673542917,
        mark("port"@) == 122894932996,
        mark("institutional"@) == 104607750733,
        mark("education"@) == 119648360777,
        mark("civic"@) == 113159854277,
        mark("governmental"@) == 104607766988,
        mark("religious"@) == 126111800457,
        mark("railway"@) == 104662064263,
        mark("military"@) == 122915806024,
        mark("construction"@) == 119648540876,
        mark("brownfield"@) == 116385421450,
        mark("greenfield"@) == 116385421770,
        mark("landfill"@) == 116418697992,
        mark("quarry"@) == 122916002886,
        mark("cemetery"@) == 122915739848,
        mark("grass"@) == 123964529093,
        mark("meadow"@) == 119686126406,
        mark("animal_keeping"@) == 118545422414,
        mark("farmland"@) == 118532626824,
        mark("farmyard"@) == 122827594120,
        mark("orchard"@) == 122827873223,
        mark("vineyard"@) == 122827726216,
        mark("allotments"@) == 125038172234,
        mark("plant_nursery"@) == 122915855373,
        mark("greenhouse_horticulture"@) == 122832067031,
        mark("flowerbed"@) == 108869130633,
        mark("village_green"@) == 108911025549,
        mark("recreation_ground"@) == 118532693137,
        mark("basin"@) == 113205860485,
        mark("reservoir"@) == 113222704265,
{
    reveal(mark);
    reveal_strlit("forest");
    reveal_strlit("residential");
    reveal_strlit("garages");
    reveal_strlit("commercial");
    reveal_strlit("retail");
    reveal_strlit("industrial");
    reveal_strlit("depot");
    reveal_strlit("port");
    reveal_strlit("institutional");
    reveal_strlit("education");
    reveal_strlit("civic");
    reveal_strlit("governmental");
    reveal_strlit("religious");
    reveal_strlit("railway");
    reveal_strlit("military");
    reveal_strlit("construction");
    reveal_strlit("brownfield");
    reveal_strlit("greenfield");
    reveal_strlit("landfill");
    reveal_strlit("quarry");
    reveal_strlit("cemetery");
    reveal_strlit("grass");
    reveal_strlit("meadow");
    reveal_strlit("animal_keeping");
    reveal_strlit("farmland");
    reveal_strlit("farmyard");
    reveal_strlit("orchard");
    reveal_strlit("vineyard");
    reveal_strlit("allotments");
    reveal_strlit("plant_nursery");
    reveal_strlit("greenhouse_horticulture");
    reveal_strlit("flowerbed");
    reveal_strlit("village_green");
    reveal_strlit("recreation_ground");
    reveal_strlit("basin");
    reveal_strlit("reservoir");
}

proof fn lemma_leisure_told_apart()
    ensures
        mark("pitch"@) == 106738375685,
        mark("track"@) == 106751106309,
        mark("park"@) == 122856954884,
        mark("garden"@) == 108910893510,
        mark("dog_park"@) == 122857183496,
        mark("playground"@) == 118532807690,
        mark("recreation_ground"@) == 118532693137,
        mark("village_green"@) == 108911025549,
        mark("common"@) == 119648540870,
        mark("golf_course"@) == 123905759691,
{
    reveal(mark);
    reveal_strlit("pitch");
    reveal_strlit("track");
    reveal_strlit("park");
    reveal_strlit("garden");
    reveal_strlit("dog_park");
    reveal_strlit("playground");
    reveal_strlit("recreation_ground");
    reveal_strlit("village_green");
    reveal_strlit("common");
    reveal_strlit("golf_course");
}

proof fn lemma_leaves_told_apart()
    ensures
        mark("needleleaved"@) == 108869016460,
        mark("broadleaved"@) == 108869228683,
        mark("mixed"@) == 108869081925,
{
    reveal(mark);
    reveal_strlit("needleleaved");
    reveal_strlit("broadleaved");
    reveal_strlit("mixed");
}

/// No word of the refining vocabularies is empty.
proof fn lemma_words_are_not_empty()
    ensures
        "lake"@.len() > 0,
        "oxbow"@.len() > 0,
        "lagoon"@.len() > 0,
        "pond"@.len() > 0,
        "river"@.len() > 0,
        "stream"@.len() > 0,
        "ditch"@.len() > 0,
        "drain"@.len() > 0,
        "reservoir"@.len() > 0,
        "basin"@.len() > 0,
        "wastewater"@.len() > 0,
        "canal"@.len() > 0,
        "marsh"@.len() > 0,
        "swamp"@.len() > 0,
        "bog"@.len() > 0,
        "string_bog"@.len() > 0,
        "fen"@.len() > 0,
        "tidalflat"@.len() > 0,
        "saltmarsh"@.len() > 0,
        "wet_meadow"@.len() > 0,
        "reedbed"@.len() > 0,
        "needleleaved"@.len() > 0,
        "broadleaved"@.len() > 0,
        "mixed"@.len() > 0,
        "artificial_turf"@.len() > 0,
        "tartan"@.len() > 0,
        "acrylic"@.len() > 0,
        "asphalt"@.len() > 0,
        "concrete"@.len() > 0,
        "hard"@.len() > 0,
        "rubber"@.len() > 0,
        "clay"@.len() > 0,
        "metal_grid"@.len() > 0,
        "paved"@.len() > 0,
        "paving_stones"@.len() > 0,
        "wood"@.len() > 0,
{
    reveal_strlit("lake");
    reveal_strlit("oxbow");
    reveal_strlit("lagoon");
    reveal_strlit("pond");
    reveal_strlit("river");
    reveal_strlit("stream");
    reveal_strlit("ditch");
    reveal_strlit("drain");
    reveal_strlit("reservoir");
    reveal_strlit("basin");
    reveal_strlit("wastewater");
    reveal_strlit("canal");
    reveal_strlit("marsh");
    reveal_strlit("swamp");
    reveal_strlit("bog");
    reveal_strlit("string_bog");
    reveal_strlit("fen");
    reveal_strlit("tidalflat");
    reveal_strlit("saltmarsh");
    reveal_strlit("wet_meadow");
    reveal_strlit("reedbed");
    reveal_strlit("needleleaved");
    reveal_strlit("broadleaved");
    reveal_strlit("mixed");
    reveal_strlit("artificial_turf");
    reveal_strlit("tartan");
    reveal_strlit("acrylic");
    reveal_strlit("asphalt");
    reveal_strlit("concrete");
    reveal_strlit("hard");
    reveal_strlit("rubber");
    reveal_strlit("clay");
    reveal_strlit("metal_grid");
    reveal_strlit("paved");
    reveal_strlit("paving_stones");
    reveal_strlit("wood");
}

/// What a golf tag names is that part of the course, and an unknown one nothing.
pub proof fn golf_names_the_parts_of_a_course(tags: Seq<(&str, &str)>, value: Seq<char>)
    requires
        value_of(tags, "area"@) != Some("no"@),
        value_of(tags, "golf"@) == Some(value),
    ensures
        (value == "fairway"@
            || value == "driving_range"@) <==> classified(tags) == Some(Material::GolfFairway),
        value == "green"@ <==> classified(tags) == Some(Material::GolfGreen),
        value == "tee"@ <==> classified(tags) == Some(Material::GolfTee),
        value == "bunker"@ <==> classified(tags) == Some(Material::GolfBunker),
        value == "rough"@ <==> classified(tags) == Some(Material::GolfRough),
        (value == "water_hazard"@
            || value == "lateral_water_hazard"@) <==> classified(tags) == Some(Material::Pond),
        classified(tags) != None::<Material> ==> (value == "fairway"@ || value == "driving_range"@
            || value == "green"@ || value == "tee"@ || value == "bunker"@ || value == "rough"@
            || value == "water_hazard"@ || value == "lateral_water_hazard"@),
{
    lemma_golf_told_apart();
}

/// What a water tag names is that water, and any other kind is water all the same.
pub proof fn water_names_a_kind_of_water(tags: Seq<(&str, &str)>, value: Seq<char>)
    requires
        past_golf(tags),
        value_of(tags, "water"@) == Some(value),
    ensures
        (value == "lake"@ || value == "oxbow"@) <==> classified(tags) == Some(Material::Lake),
        value == "lagoon"@ <==> classified(tags) == Some(Material::Lagoon),
        value == "pond"@ <==> classified(tags) == Some(Material::Pond),
        value == "river"@ <==> classified(tags) == Some(Material::River),
        (value == "stream"@ || value == "ditch"@
            || value == "drain"@) <==> classified(tags) == Some(Material::Stream),
        value == "reservoir"@ <==> classified(tags) == Some(Material::Reservoir),
        (value == "basin"@
            || value == "wastewater"@) <==> classified(tags) == Some(Material::Basin),
        value == "canal"@ <==> classified(tags) == Some(Material::Canal),
        (value == "lake"@ || value == "oxbow"@ || value == "lagoon"@ || value == "pond"@
            || value == "river"@ || value == "stream"@ || value == "ditch"@ || value == "drain"@
            || value == "reservoir"@ || value == "basin"@ || value == "wastewater"@
            || value == "canal"@) || classified(tags) == Some(Material::WaterUnknown),
{
    lemma_water_told_apart();
}

/// What a wetland tag names is that wetland, beside `natural=wetland` or alone, and
/// any other kind is wetland all the same.
pub proof fn wetland_names_a_kind_of_wetland(tags: Seq<(&str, &str)>, value: Seq<char>)
    requires
        past_water(tags),
        value_of(tags, "natural"@) is None || value_of(tags, "natural"@) == Some("wetland"@),
        value_of(tags, "wetland"@) == Some(value),
    ensures
        value == "marsh"@ <==> classified(tags) == Some(Material::Marsh),
        value == "swamp"@ <==> classified(tags) == Some(Material::Swamp),
        (value == "bog"@ || value == "string_bog"@) <==> classified(tags) == Some(Material::Bog),
        value == "fen"@ <==> classified(tags) == Some(Material::Fen),
        value == "tidalflat"@ <==> classified(tags) == Some(Material::TidalFlat),
        value == "saltmarsh"@ <==> classified(tags) == Some(Material::SaltMarsh),
        value == "wet_meadow"@ <==> classified(tags) == Some(Material::WetMeadow),
        value == "reedbed"@ <==> classified(tags) == Some(Material::Reedbed),
        (value == "marsh"@ || value == "swamp"@ || value == "bog"@ || value == "string_bog"@
            || value == "fen"@ || value == "tidalflat"@ || value == "saltmarsh"@
            || value == "wet_meadow"@ || value == "reedbed"@)
            || classified(tags) == Some(Material::WetlandUnknown),
{
    lemma_wetland_told_apart();
    lemma_natural_told_apart();
}

/// Natural ground is what it is called; woods go by their leaves, water and wetland
/// that say no more are of an unknown kind, and an unknown value is nothing.
pub proof fn natural_names_the_ground(tags: Seq<(&str, &str)>, value: Seq<char>)
    requires
        past_water(tags),
        value_of(tags, "natural"@) == Some(value),
    ensures
        value == "scrub"@ <==> classified(tags) == Some(Material::Scrub),
        value == "shrubbery"@ <==> classified(tags) == Some(Material::Shrubbery),
        value == "heath"@ <==> classified(tags) == Some(Material::Heath),
        value == "grassland"@ <==> classified(tags) == Some(Material::Grassland),
        value == "fell"@ <==> classified(tags) == Some(Material::Fell),
        (value == "bare_rock"@ || value == "rock"@
            || value == "stone"@) <==> classified(tags) == Some(Material::BareRock),
        value == "scree"@ <==> classified(tags) == Some(Material::Scree),
        value == "shingle"@ <==> classified(tags) == Some(Material::Shingle),
        (value == "sand"@ || value == "dune"@) <==> classified(tags) == Some(Material::Sand),
        value == "beach"@ <==> classified(tags) == Some(Material::Beach),
        value == "glacier"@ <==> classified(tags) == Some(Material::Glacier),
        value == "mud"@ <==> classified(tags) == Some(Material::Mud),
        (value == "bay"@ || value == "strait"@) <==> classified(tags) == Some(Material::Ocean),
        value == "water"@ ==> classified(tags) == Some(Material::WaterUnknown),
        value == "wetland"@ && value_of(tags, "wetland"@) is None ==> classified(tags) == Some(
            Material::WetlandUnknown,
        ),
        value == "wood"@ ==> classified(tags) == Some(leafed(value_of(tags, "leaf_type"@))),
        classified(tags) != None::<Material> ==> value == "water"@ || value == "wetland"@
            || value == "wood"@ || (value == "scrub"@ || value == "shrubbery"@
            || value == "heath"@ || value == "grassland"@ || value == "fell"@
            || value == "bare_rock"@ || value == "rock"@ || value == "stone"@ || value == "scree"@
            || value == "shingle"@ || value == "sand"@ || value == "dune"@ || value == "beach"@
            || value == "glacier"@ || value == "mud"@ || value == "bay"@ || value == "strait"@),
{
    lemma_words_are_not_empty();
    lemma_natural_told_apart();
    lemma_leaves_told_apart();
}

/// A forest of a leaf type: by its name where it has one of three, else unknown.
pub open spec fn leafed(leaves: Option<Seq<char>>) -> Material {
    if leaves == Some("mixed"@) {
        Material::ForestMixed
    } else if leaves == Some("broadleaved"@) {
        Material::ForestBroadleaved
    } else if leaves == Some("needleleaved"@) {
        Material::ForestNeedleleaved
    } else {
        Material::ForestUnknown
    }
}

/// Ground in use is what it is used as; forest goes by its leaves, as wood does,
/// and an unknown use is nothing.
pub proof fn landuse_names_the_use(tags: Seq<(&str, &str)>, value: Seq<char>)
    requires
        past_wetland(tags),
        value_of(tags, "landuse"@) == Some(value),
    ensures
        (value == "residential"@
            || value == "garages"@) <==> classified(tags) == Some(Material::Residential),
        value == "commercial"@ <==> classified(tags) == Some(Material::Commercial),
        value == "retail"@ <==> classified(tags) == Some(Material::Retail),
        (value == "industrial"@ || value == "depot"@
            || value == "port"@) <==> classified(tags) == Some(Material::Industrial),
        (value == "institutional"@ || value == "education"@ || value == "civic"@
            || value == "governmental"@) <==> classified(tags) == Some(Material::Institutional),
        value == "religious"@ <==> classified(tags) == Some(Material::Religious),
        value == "railway"@ <==> classified(tags) == Some(Material::Railway),
        value == "military"@ <==> classified(tags) == Some(Material::Military),
        value == "construction"@ <==> classified(tags) == Some(Material::Construction),
        value == "brownfield"@ <==> classified(tags) == Some(Material::Brownfield),
        value == "greenfield"@ <==> classified(tags) == Some(Material::Greenfield),
        value == "landfill"@ <==> classified(tags) == Some(Material::Landfill),
        value == "quarry"@ <==> classified(tags) == Some(Material::Quarry),
        value == "cemetery"@ <==> classified(tags) == Some(Material::Cemetery),
        value == "grass"@ <==> classified(tags) == Some(Material::Grass),
        (value == "meadow"@
            || value == "animal_keeping"@) <==> classified(tags) == Some(Material::Meadow),
        value == "farmland"@ <==> classified(tags) == Some(Material::Farmland),
        value == "farmyard"@ <==> classified(tags) == Some(Material::Farmyard),
        value == "orchard"@ <==> classified(tags) == Some(Material::Orchard),
        value == "vineyard"@ <==> classified(tags) == Some(Material::Vineyard),
        value == "allotments"@ <==> classified(tags) == Some(Material::Allotments),
        value == "plant_nursery"@ <==> classified(tags) == Some(Material::PlantNursery),
        value == "greenhouse_horticulture"@ <==> classified(tags) == Some(Material::Greenhouses),
        value == "flowerbed"@ <==> classified(tags) == Some(Material::FlowerBed),
        value == "village_green"@ <==> classified(tags) == Some(Material::VillageGreen),
        value == "recreation_ground"@ <==> classified(tags) == Some(Material::RecreationGround),
        value == "basin"@ <==> classified(tags) == Some(Material::Basin),
        value == "reservoir"@ <==> classified(tags) == Some(Material::Reservoir),
        value == "forest"@ ==> classified(tags) == Some(leafed(value_of(tags, "leaf_type"@))),
        classified(tags) != None::<Material> ==> value == "forest"@ || (value == "residential"@
            || value == "garages"@ || value == "commercial"@ || value == "retail"@
            || value == "industrial"@ || value == "depot"@ || value == "port"@
            || value == "institutional"@ || value == "education"@ || value == "civic"@
            || value == "governmental"@ || value == "religious"@ || value == "railway"@
            || value == "military"@ || value == "construction"@ || value == "brownfield"@
            || value == "greenfield"@ || value == "landfill"@ || value == "quarry"@
            || value == "cemetery"@ || value == "grass"@ || value == "meadow"@
            || value == "animal_keeping"@ || value == "farmland"@ || value == "farmyard"@
            || value == "orchard"@ || value == "vineyard"@ || value == "allotments"@
            || value == "plant_nursery"@ || value == "greenhouse_horticulture"@
            || value == "flowerbed"@ || value == "village_green"@ || value == "recreation_ground"@
            || value == "basin"@ || value == "reservoir"@),
{
    lemma_words_are_not_empty();
    lemma_landuse_told_apart();
    lemma_leaves_told_apart();
}

/// Ground for leisure is what it is laid out as; a pitch or track goes by its
/// surface, which is grass unless it is one of the hard ones; an unknown one is
/// nothing.
pub proof fn leisure_names_the_ground(tags: Seq<(&str, &str)>, value: Seq<char>)
    requires
        past_landuse(tags),
        value_of(tags, "leisure"@) == Some(value),
    ensures
        value == "park"@ <==> classified(tags) == Some(Material::Park),
        value == "garden"@ <==> classified(tags) == Some(Material::Garden),
        value == "dog_park"@ <==> classified(tags) == Some(Material::DogPark),
        value == "playground"@ <==> classified(tags) == Some(Material::Playground),
        value == "recreation_ground"@ <==> classified(tags) == Some(Material::RecreationGround),
        (value == "village_green"@
            || value == "common"@) <==> classified(tags) == Some(Material::VillageGreen),
        value == "golf_course"@ <==> classified(tags) == Some(Material::GolfRough),
        value == "pitch"@ || value == "track"@ ==> classified(tags) == Some(
            if value_of(tags, "surface"@) matches Some(surface) && hard_surface(surface) {
                Material::PitchArtificial
            } else {
                Material::PitchGrass
            },
        ),
        classified(tags) != None::<Material> ==> value == "pitch"@ || value == "track"@
            || (value == "park"@ || value == "garden"@ || value == "dog_park"@
            || value == "playground"@ || value == "recreation_ground"@
            || value == "village_green"@ || value == "common"@ || value == "golf_course"@),
{
    lemma_words_are_not_empty();
    lemma_leisure_told_apart();
}

/// A surface nobody mows.
pub open spec fn hard_surface(surface: Seq<char>) -> bool {
    ||| surface == "artificial_turf"@
    ||| surface == "tartan"@
    ||| surface == "acrylic"@
    ||| surface == "asphalt"@
    ||| surface == "concrete"@
    ||| surface == "hard"@
    ||| surface == "rubber"@
    ||| surface == "clay"@
    ||| surface == "metal_grid"@
    ||| surface == "paved"@
    ||| surface == "paving_stones"@
    ||| surface == "wood"@
}

/// Something is tagged so exactly where one of its tags is that key with that
/// value.
pub proof fn a_tag_is_a_key_with_a_value(tags: Seq<(&str, &str)>, key: Seq<char>, value: Seq<char>, i: int)
    ensures
        0 <= i < tags.len() ==> tagged(tags, tags[i].0@, tags[i].1@),
        tagged(tags, key, value) ==> exists|k: int|
            0 <= k < tags.len() && (#[trigger] tags[k]).0@ == key && tags[k].1@ == value,
{
    if 0 <= i < tags.len() {
        assert(tags[i].0@ == tags[i].0@);
    }
}

} // verus!
