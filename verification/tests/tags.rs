use terrain::material::{precedence, Material};
use terrain::tags::{classify, get, has_tag};

fn of(pairs: &[(&str, &str)]) -> Option<Material> {
    classify(pairs)
}

#[test]
fn what_is_mapped_covers_the_sea() {
    for (key, value) in [
        ("landuse", "residential"),
        ("natural", "wood"),
        ("natural", "beach"),
        ("natural", "wetland"),
        ("natural", "water"),
        ("golf", "green"),
    ] {
        let material = of(&[(key, value)]).expect("is ground cover");
        assert!(precedence(material) > precedence(Material::Ocean), "{key}={value}");
    }
    assert_eq!(of(&[("natural", "bay")]), Some(Material::Ocean));
}

#[test]
fn woods_split_by_leaf_type_and_fold_landuse_forest_in() {
    assert_eq!(of(&[("natural", "wood")]), Some(Material::ForestUnknown));
    assert_eq!(
        of(&[("natural", "wood"), ("leaf_type", "needleleaved")]),
        Some(Material::ForestNeedleleaved)
    );
    assert_eq!(
        of(&[("landuse", "forest"), ("leaf_type", "broadleaved")]),
        Some(Material::ForestBroadleaved)
    );
    assert_eq!(
        of(&[("landuse", "forest"), ("leaf_type", "mixed")]),
        Some(Material::ForestMixed)
    );
}

#[test]
fn water_takes_its_subtype_from_the_water_key() {
    assert_eq!(of(&[("natural", "water")]), Some(Material::WaterUnknown));
    assert_eq!(
        of(&[("natural", "water"), ("water", "lake")]),
        Some(Material::Lake)
    );
    // `water=` standing alone still means water.
    assert_eq!(of(&[("water", "reservoir")]), Some(Material::Reservoir));
    assert_eq!(of(&[("waterway", "riverbank")]), Some(Material::River));
}

#[test]
fn wetland_subtypes_come_through_and_unknown_ones_stay_wetland() {
    assert_eq!(
        of(&[("natural", "wetland"), ("wetland", "tidalflat")]),
        Some(Material::TidalFlat)
    );
    assert_eq!(
        of(&[("natural", "wetland"), ("wetland", "quagmire")]),
        Some(Material::WetlandUnknown)
    );
    assert_eq!(
        of(&[("natural", "wetland")]),
        Some(Material::WetlandUnknown)
    );
}

/// The keys are consulted in specificity order, so a tagged combination
/// classifies as its most specific part.
#[test]
fn more_specific_keys_win_over_broader_ones() {
    assert_eq!(
        of(&[("leisure", "golf_course"), ("golf", "green")]),
        Some(Material::GolfGreen)
    );
    assert_eq!(
        of(&[("landuse", "residential"), ("natural", "wood")]),
        Some(Material::ForestUnknown)
    );
    assert_eq!(
        of(&[("landuse", "basin"), ("water", "basin")]),
        Some(Material::Basin)
    );
}

#[test]
fn pitches_split_by_surface() {
    assert_eq!(of(&[("leisure", "pitch")]), Some(Material::PitchGrass));
    assert_eq!(
        of(&[("leisure", "pitch"), ("surface", "artificial_turf")]),
        Some(Material::PitchArtificial)
    );
    assert_eq!(
        of(&[("leisure", "pitch"), ("surface", "grass")]),
        Some(Material::PitchGrass)
    );
}

/// Linear features and urban structure must not become ground cover: a cliff is
/// a line, a pool is furniture, a building is a later mesh.
#[test]
fn linear_and_structural_features_do_not_classify() {
    assert_eq!(of(&[("natural", "cliff")]), None);
    assert_eq!(of(&[("natural", "coastline")]), None);
    assert_eq!(of(&[("natural", "tree_row")]), None);
    assert_eq!(of(&[("leisure", "swimming_pool")]), None);
    assert_eq!(of(&[("building", "yes")]), None);
    assert_eq!(of(&[("highway", "pedestrian")]), None);
}

#[test]
fn area_no_refuses_whatever_else_is_tagged() {
    assert_eq!(of(&[("natural", "wood"), ("area", "no")]), None);
}

#[test]
fn named_sea_water_is_ocean() {
    assert_eq!(of(&[("natural", "bay")]), Some(Material::Ocean));
    assert_eq!(of(&[("natural", "strait")]), Some(Material::Ocean));
}

/// The layers order: zones under vegetation under specific ground under wetland
/// under water, with ocean at the floor.
#[test]
fn precedence_orders_the_layers_the_ground_needs() {
    assert!(precedence(Material::Ocean) < precedence(Material::Residential));
    assert!(precedence(Material::Residential) < precedence(Material::ForestUnknown));
    assert!(precedence(Material::ForestUnknown) < precedence(Material::Beach));
    assert!(precedence(Material::Beach) < precedence(Material::Marsh));
    assert!(precedence(Material::Marsh) < precedence(Material::Lake));
    // A lake inside a forest stays a lake.
    assert!(precedence(Material::Lake) > precedence(Material::ForestMixed));
    for material in ALL {
        assert!(precedence(material) <= 5, "{material:?}");
    }
}

#[test]
fn the_first_tag_with_a_key_speaks_for_it() {
    let tags = [("natural", "wood"), ("natural", "water"), ("area", "yes")];
    assert_eq!(get(&tags, "natural"), Some("wood"));
    assert_eq!(get(&tags, "name"), None);
    assert!(has_tag(&tags, "natural", "water"));
    assert!(!has_tag(&tags, "natural", "heath"));
    assert_eq!(of(&tags), Some(Material::ForestUnknown));
}

#[test]
fn the_broader_keys_are_read_where_nothing_more_specific_is() {
    assert_eq!(of(&[("landuse", "quarry")]), Some(Material::Quarry));
    assert_eq!(of(&[("leisure", "park")]), Some(Material::Park));
    assert_eq!(of(&[("man_made", "clearcut")]), Some(Material::Clearcut));
    assert_eq!(of(&[("landcover", "grass")]), Some(Material::Grass));
    assert_eq!(of(&[("wetland", "fen")]), Some(Material::Fen));
    assert_eq!(of(&[]), None);
}

const ALL: [Material; 75] = [
    Material::Null,
    Material::Ocean,
    Material::Residential,
    Material::Commercial,
    Material::Retail,
    Material::Industrial,
    Material::Institutional,
    Material::Religious,
    Material::Railway,
    Material::Military,
    Material::Brownfield,
    Material::Greenfield,
    Material::Farmland,
    Material::Park,
    Material::RecreationGround,
    Material::ForestNeedleleaved,
    Material::ForestBroadleaved,
    Material::ForestMixed,
    Material::ForestUnknown,
    Material::Clearcut,
    Material::Scrub,
    Material::Shrubbery,
    Material::Heath,
    Material::Grassland,
    Material::Grass,
    Material::Meadow,
    Material::Fell,
    Material::Orchard,
    Material::Vineyard,
    Material::Allotments,
    Material::PlantNursery,
    Material::Greenhouses,
    Material::Farmyard,
    Material::Garden,
    Material::VillageGreen,
    Material::BareRock,
    Material::Scree,
    Material::Shingle,
    Material::Sand,
    Material::Beach,
    Material::Glacier,
    Material::BareEarth,
    Material::Mud,
    Material::Quarry,
    Material::Landfill,
    Material::Construction,
    Material::Cemetery,
    Material::FlowerBed,
    Material::GolfFairway,
    Material::GolfGreen,
    Material::GolfTee,
    Material::GolfBunker,
    Material::GolfRough,
    Material::PitchGrass,
    Material::PitchArtificial,
    Material::Playground,
    Material::DogPark,
    Material::Marsh,
    Material::Swamp,
    Material::Bog,
    Material::Fen,
    Material::TidalFlat,
    Material::SaltMarsh,
    Material::WetMeadow,
    Material::Reedbed,
    Material::WetlandUnknown,
    Material::Lake,
    Material::Pond,
    Material::River,
    Material::Stream,
    Material::Reservoir,
    Material::Basin,
    Material::Canal,
    Material::Lagoon,
    Material::WaterUnknown,
];
