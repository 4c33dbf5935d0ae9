use terrain::assemble::{polygons, resolve, Polygon};
use terrain::ids::{find, sorted_unique};
use terrain::material::Material;
use terrain::read::{node_ids, Extract, Members, Nodes, Positions, Scan};

#[test]
fn node_lookup_finds_present_ids_and_refuses_absent_ones() {
    let nodes = Nodes::from_columns(vec![-7, 3, 19], vec![(1.0, 2.0), (3.0, 4.0), (5.0, 6.0)]);
    assert_eq!(nodes.get(-7), Some((1.0, 2.0)));
    assert_eq!(nodes.get(19), Some((5.0, 6.0)));
    assert_eq!(nodes.get(0), None);
}

#[test]
fn a_polygon_with_no_rings_is_none() {
    let rings: Vec<Vec<(f64, f64)>> = vec![];
    assert!(Polygon::new(Material::Lake, rings).is_none());
}

/// A lake as a relation of two ways, a wood as a closed way, a coastline and a
/// way that does not close.
fn extract() -> Extract<(f64, f64)> {
    let mut scan = Scan::new();
    scan.way(&[("natural", "wood")], vec![1, 2, 3, 1]);
    scan.way(&[("natural", "wood")], vec![1, 2, 3]);
    scan.way(&[("natural", "coastline")], vec![7, 8]);
    scan.way(&[("highway", "path")], vec![1, 2, 3, 1]);
    scan.relation(
        &[("type", "multipolygon"), ("natural", "water")],
        &[(true, 31), (false, 5), (true, 30), (true, 99)],
    );
    scan.relation(&[("type", "route"), ("natural", "water")], &[(true, 31)]);
    assert_eq!(scan.unclosed, 1);
    assert_eq!(scan.wanted_ways(), vec![30, 31, 99]);

    let mut members = Members::new(scan.wanted_ways());
    members.way(29, vec![1, 2]);
    members.way(30, vec![5, 6, 4]);
    members.way(31, vec![4, 9, 5]);
    assert_eq!(members.len(), 2);
    assert_eq!(members.get(30), Some(&vec![5, 6, 4]));
    assert_eq!(members.get(29), None);

    let ids = node_ids(&scan.areas, &scan.coastlines, &members);
    assert_eq!(ids, vec![1, 2, 3, 4, 5, 6, 7, 8, 9]);
    let mut positions = Positions::new(ids);
    for id in [1i64, 2, 3, 4, 5, 6, 9, 12] {
        positions.node(id, (id as f64, -(id as f64)));
    }
    let (nodes, missing) = positions.finish();
    assert_eq!(missing, 2, "the coastline's nodes are not there");
    assert_eq!(nodes.get(7), None);
    assert_eq!(nodes.get(12), None, "nothing references it");
    Extract {
        areas: scan.areas,
        relations: scan.relations,
        coastlines: scan.coastlines,
        members,
        nodes,
    }
}

#[test]
fn areas_and_relations_become_polygons() {
    let assembled = polygons(&extract());
    assert_eq!(assembled.polygons.len(), 2);
    assert_eq!(assembled.polygons[0].material, Material::ForestUnknown);
    assert_eq!(
        assembled.polygons[0].rings,
        vec![vec![(1.0, -1.0), (2.0, -2.0), (3.0, -3.0), (1.0, -1.0)]]
    );
    assert_eq!(assembled.polygons[1].material, Material::WaterUnknown);
    assert_eq!(assembled.polygons[1].layer, 5, "lakes paint on the water layer");
    assert_eq!(assembled.polygons[1].rings.len(), 1);
    assert_eq!(assembled.polygons[1].rings[0].len(), 5);
    // The member way that is not in the extract.
    assert_eq!(assembled.dropped_rings, 1);
    assert_eq!(assembled.dropped_polygons, 0);
}

#[test]
fn a_ring_with_a_missing_node_is_dropped() {
    let mut scan = Scan::new();
    scan.way(&[("natural", "wood")], vec![1, 2, 3, 1]);
    let extract = Extract {
        areas: scan.areas,
        relations: vec![],
        coastlines: vec![],
        members: Members::new(vec![]),
        nodes: Nodes::from_columns(vec![1, 2], vec![(0.0, 0.0), (1.0, 0.0)]),
    };
    assert_eq!(resolve(&vec![1, 2], &extract.nodes), Some(vec![(0.0, 0.0), (1.0, 0.0)]));
    assert_eq!(resolve(&vec![1, 2, 3], &extract.nodes), None);
    let assembled = polygons(&extract);
    assert!(assembled.polygons.is_empty());
    assert_eq!(assembled.dropped_polygons, 1);
}

/// A chain too short to bound ground closes and still paints nothing.
#[test]
fn a_relation_that_only_turns_back_is_lost() {
    let mut scan = Scan::new();
    scan.relation(&[("type", "multipolygon"), ("natural", "water")], &[(true, 30)]);
    let mut members = Members::new(scan.wanted_ways());
    members.way(30, vec![1, 2, 1]);
    let assembled = polygons(&Extract {
        areas: vec![],
        relations: scan.relations,
        coastlines: vec![],
        members,
        nodes: Nodes::from_columns(vec![1, 2], vec![(0.0, 0.0), (1.0, 0.0)]),
    });
    assert!(assembled.polygons.is_empty());
    assert_eq!((assembled.dropped_rings, assembled.dropped_polygons), (1, 1));
}

#[test]
fn ids_are_sorted_and_told_apart() {
    let ids = sorted_unique(&vec![5, -3, 5, 9, -3]);
    assert_eq!(ids, vec![-3, 5, 9]);
    assert_eq!(find(&ids, 9), Some(2));
    assert_eq!(find(&ids, 4), None);
}
