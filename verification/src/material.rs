//! What the ground is made of.

use vstd::prelude::*;

verus! {

/// A kind of ground cover.
#[derive(Clone, Copy, Debug, PartialEq, Eq, Structural)]
pub enum Material {
    Null,
    Ocean,
    Residential,
    Commercial,
    Retail,
    Industrial,
    Institutional,
    Religious,
    Railway,
    Military,
    Brownfield,
    Greenfield,
    Farmland,
    Park,
    RecreationGround,
    ForestNeedleleaved,
    ForestBroadleaved,
    ForestMixed,
    ForestUnknown,
    Clearcut,
    Scrub,
    Shrubbery,
    Heath,
    Grassland,
    Grass,
    Meadow,
    Fell,
    Orchard,
    Vineyard,
    Allotments,
    PlantNursery,
    Greenhouses,
    Farmyard,
    Garden,
    VillageGreen,
    BareRock,
    Scree,
    Shingle,
    Sand,
    Beach,
    Glacier,
    BareEarth,
    Mud,
    Quarry,
    Landfill,
    Construction,
    Cemetery,
    FlowerBed,
    GolfFairway,
    GolfGreen,
    GolfTee,
    GolfBunker,
    GolfRough,
    PitchGrass,
    PitchArtificial,
    Playground,
    DogPark,
    Marsh,
    Swamp,
    Bog,
    Fen,
    TidalFlat,
    SaltMarsh,
    WetMeadow,
    Reedbed,
    WetlandUnknown,
    Lake,
    Pond,
    River,
    Stream,
    Reservoir,
    Basin,
    Canal,
    Lagoon,
    WaterUnknown,
}

/// The layer a material paints on.
pub open spec fn layer_of(material: Material) -> u8 {
    match material {
        Material::Null
        | Material::Ocean => 0,
        Material::Residential
        | Material::Commercial
        | Material::Retail
        | Material::Industrial
        | Material::Institutional
        | Material::Religious
        | Material::Railway
        | Material::Military
        | Material::Brownfield
        | Material::Greenfield
        | Material::Farmland
        | Material::Park
        | Material::RecreationGround => 1,
        Material::ForestNeedleleaved
        | Material::ForestBroadleaved
        | Material::ForestMixed
        | Material::ForestUnknown
        | Material::Clearcut
        | Material::Scrub
        | Material::Shrubbery
        | Material::Heath
        | Material::Grassland
        | Material::Grass
        | Material::Meadow
        | Material::Fell
        | Material::Orchard
        | Material::Vineyard
        | Material::Allotments
        | Material::PlantNursery
        | Material::Greenhouses
        | Material::Farmyard
        | Material::Garden
        | Material::VillageGreen => 2,
        Material::BareRock
        | Material::Scree
        | Material::Shingle
        | Material::Sand
        | Material::Beach
        | Material::Glacier
        | Material::BareEarth
        | Material::Mud
        | Material::Quarry
        | Material::Landfill
        | Material::Construction
        | Material::Cemetery
        | Material::FlowerBed
        | Material::GolfFairway
        | Material::GolfGreen
        | Material::GolfTee
        | Material::GolfBunker
        | Material::GolfRough
        | Material::PitchGrass
        | Material::PitchArtificial
        | Material::Playground
        | Material::DogPark => 3,
        Material::Marsh
        | Material::Swamp
        | Material::Bog
        | Material::Fen
        | Material::TidalFlat
        | Material::SaltMarsh
        | Material::WetMeadow
        | Material::Reedbed
        | Material::WetlandUnknown => 4,
        Material::Lake
        | Material::Pond
        | Material::River
        | Material::Stream
        | Material::Reservoir
        | Material::Basin
        | Material::Canal
        | Material::Lagoon
        | Material::WaterUnknown => 5,
    }
}

/// Which layer a material paints on. Higher paints later, and so on top.
///
/// The layers, low to high: the ocean floor everything else sits on; broad
/// zones that describe use rather than surface; vegetation; specific ground
/// that replaces whatever grows around it; wetland, which overrides dry cover;
/// and open inland water, which nothing may bury.
pub fn precedence(material: Material) -> (layer: u8)
    ensures
        layer == layer_of(material),
        layer <= 5,
{
    match material {
        Material::Null
        | Material::Ocean => 0,
        Material::Residential
        | Material::Commercial
        | Material::Retail
        | Material::Industrial
        | Material::Institutional
        | Material::Religious
        | Material::Railway
        | Material::Military
        | Material::Brownfield
        | Material::Greenfield
        | Material::Farmland
        | Material::Park
        | Material::RecreationGround => 1,
        Material::ForestNeedleleaved
        | Material::ForestBroadleaved
        | Material::ForestMixed
        | Material::ForestUnknown
        | Material::Clearcut
        | Material::Scrub
        | Material::Shrubbery
        | Material::Heath
        | Material::Grassland
        | Material::Grass
        | Material::Meadow
        | Material::Fell
        | Material::Orchard
        | Material::Vineyard
        | Material::Allotments
        | Material::PlantNursery
        | Material::Greenhouses
        | Material::Farmyard
        | Material::Garden
        | Material::VillageGreen => 2,
        Material::BareRock
        | Material::Scree
        | Material::Shingle
        | Material::Sand
        | Material::Beach
        | Material::Glacier
        | Material::BareEarth
        | Material::Mud
        | Material::Quarry
        | Material::Landfill
        | Material::Construction
        | Material::Cemetery
        | Material::FlowerBed
        | Material::GolfFairway
        | Material::GolfGreen
        | Material::GolfTee
        | Material::GolfBunker
        | Material::GolfRough
        | Material::PitchGrass
        | Material::PitchArtificial
        | Material::Playground
        | Material::DogPark => 3,
        Material::Marsh
        | Material::Swamp
        | Material::Bog
        | Material::Fen
        | Material::TidalFlat
        | Material::SaltMarsh
        | Material::WetMeadow
        | Material::Reedbed
        | Material::WetlandUnknown => 4,
        Material::Lake
        | Material::Pond
        | Material::River
        | Material::Stream
        | Material::Reservoir
        | Material::Basin
        | Material::Canal
        | Material::Lagoon
        | Material::WaterUnknown => 5,
    }
}

/// A broad zone that describes use rather than surface.
pub open spec fn zone(material: Material) -> bool {
    match material {
        Material::Residential
        | Material::Commercial
        | Material::Retail
        | Material::Industrial
        | Material::Institutional
        | Material::Religious
        | Material::Railway
        | Material::Military
        | Material::Brownfield
        | Material::Greenfield
        | Material::Farmland
        | Material::Park
        | Material::RecreationGround => true,
        _ => false,
    }
}

/// Something that grows.
pub open spec fn vegetation(material: Material) -> bool {
    match material {
        Material::ForestNeedleleaved
        | Material::ForestBroadleaved
        | Material::ForestMixed
        | Material::ForestUnknown
        | Material::Clearcut
        | Material::Scrub
        | Material::Shrubbery
        | Material::Heath
        | Material::Grassland
        | Material::Grass
        | Material::Meadow
        | Material::Fell
        | Material::Orchard
        | Material::Vineyard
        | Material::Allotments
        | Material::PlantNursery
        | Material::Greenhouses
        | Material::Farmyard
        | Material::Garden
        | Material::VillageGreen => true,
        _ => false,
    }
}

/// Specific ground that replaces whatever grows around it.
pub open spec fn specific_ground(material: Material) -> bool {
    match material {
        Material::BareRock
        | Material::Scree
        | Material::Shingle
        | Material::Sand
        | Material::Beach
        | Material::Glacier
        | Material::BareEarth
        | Material::Mud
        | Material::Quarry
        | Material::Landfill
        | Material::Construction
        | Material::Cemetery
        | Material::FlowerBed
        | Material::GolfFairway
        | Material::GolfGreen
        | Material::GolfTee
        | Material::GolfBunker
        | Material::GolfRough
        | Material::PitchGrass
        | Material::PitchArtificial
        | Material::Playground
        | Material::DogPark => true,
        _ => false,
    }
}

/// Wetland, which overrides dry cover.
pub open spec fn wetland(material: Material) -> bool {
    match material {
        Material::Marsh
        | Material::Swamp
        | Material::Bog
        | Material::Fen
        | Material::TidalFlat
        | Material::SaltMarsh
        | Material::WetMeadow
        | Material::Reedbed
        | Material::WetlandUnknown => true,
        _ => false,
    }
}

/// Open inland water, which nothing may bury.
pub open spec fn open_water(material: Material) -> bool {
    match material {
        Material::Lake
        | Material::Pond
        | Material::River
        | Material::Stream
        | Material::Reservoir
        | Material::Basin
        | Material::Canal
        | Material::Lagoon
        | Material::WaterUnknown => true,
        _ => false,
    }
}

/// The sea floor, which everything mapped sits on.
pub open spec fn floor(material: Material) -> bool {
    material == Material::Null || material == Material::Ocean
}

/// The layers lie over one another in order: zones over the sea, what grows over
/// the zones, specific ground over what grows, wetland over that, and open water
/// over everything.
pub proof fn each_layer_covers_the_one_below(below: Material, above: Material)
    ensures
        floor(below) && zone(above) ==> layer_of(below) < layer_of(above),
        zone(below) && vegetation(above) ==> layer_of(below) < layer_of(above),
        vegetation(below) && specific_ground(above) ==> layer_of(below) < layer_of(above),
        specific_ground(below) && wetland(above) ==> layer_of(below) < layer_of(above),
        wetland(below) && open_water(above) ==> layer_of(below) < layer_of(above),
        floor(above) || zone(above) || vegetation(above) || specific_ground(above) || wetland(above) || open_water(
            above,
        ),
{
}

/// Nothing on a layer covers anything else on it.
pub proof fn a_layer_is_level(a: Material, b: Material)
    requires
        (floor(a) && floor(b)) || (zone(a) && zone(b)) || (vegetation(a) && vegetation(b)) || (specific_ground(a)
            && specific_ground(b)) || (wetland(a) && wetland(b)) || (open_water(a) && open_water(b)),
    ensures
        layer_of(a) == layer_of(b),
{
}

/// The layers are numbered from the sea up.
pub proof fn layers_are_numbered_from_the_sea_up(material: Material)
    ensures
        floor(material) <==> layer_of(material) == 0,
        zone(material) <==> layer_of(material) == 1,
        vegetation(material) <==> layer_of(material) == 2,
        specific_ground(material) <==> layer_of(material) == 3,
        wetland(material) <==> layer_of(material) == 4,
        open_water(material) <==> layer_of(material) == 5,
{
}

} // verus!
