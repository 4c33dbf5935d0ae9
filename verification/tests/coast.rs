use terrain::coastline::{clip_all, clip_chain, coast, lie, mend, mend_all, sort_rings, Clip, End, Lie};
use terrain::keys::ordered_wide;
use terrain::read::Nodes;
use terrain::material::Material;
use terrain::sea::{corners_between, keep_islands, link, ocean, repair, sea_rings, Crossing};

type Point = (f64, f64);

/// How close to an edge counts as on it.
const EDGE_EPSILON: f64 = 0.01;

/// How far a dangling end may be from the edge.
const DANGLE_METRES: f64 = 25_000.0;

#[derive(Clone, Copy)]
struct Rect {
    west: f64,
    south: f64,
    east: f64,
    north: f64,
}

fn rect() -> Rect {
    Rect {
        west: 0.0,
        south: 0.0,
        east: 10.0,
        north: 10.0,
    }
}

impl Rect {
    fn contains(&self, (x, y): Point) -> bool {
        (self.west..=self.east).contains(&x) && (self.south..=self.north).contains(&y)
    }

    fn on_perimeter(&self, (x, y): Point) -> bool {
        self.contains((x, y))
            && ((x - self.west).abs() < EDGE_EPSILON
                || (self.east - x).abs() < EDGE_EPSILON
                || (y - self.south).abs() < EDGE_EPSILON
                || (self.north - y).abs() < EDGE_EPSILON)
    }

    fn perimeter_length(&self) -> f64 {
        2.0 * ((self.east - self.west) + (self.north - self.south))
    }

    fn perimeter_t(&self, (x, y): Point) -> f64 {
        let (width, height) = (self.east - self.west, self.north - self.south);
        if (self.north - y).abs() < EDGE_EPSILON {
            x - self.west
        } else if (self.east - x).abs() < EDGE_EPSILON {
            width + (self.north - y)
        } else if (y - self.south).abs() < EDGE_EPSILON {
            width + height + (self.east - x)
        } else {
            2.0 * width + height + (y - self.south)
        }
    }

    fn corners_between(&self, from: f64, to: f64) -> Vec<Point> {
        let (width, height) = (self.east - self.west, self.north - self.south);
        let corners = [
            (width, (self.east, self.north)),
            (width + height, (self.east, self.south)),
            (2.0 * width + height, (self.west, self.south)),
            (self.perimeter_length(), (self.west, self.north)),
        ];
        let ahead_of = |t: f64| {
            let ahead = if t > from { t - from } else { t - from + self.perimeter_length() };
            ordered_wide(ahead.to_bits())
        };
        let ahead = corners.iter().map(|(t, _)| ahead_of(*t)).collect();
        corners_between(&ahead, ahead_of(to))
            .iter()
            .map(|at| corners[*at].1)
            .collect()
    }
}

/// The parameter span of a segment inside the rectangle.
fn clip_segment(a: Point, b: Point, rect: Rect) -> Option<(f64, f64)> {
    let (dx, dy) = (b.0 - a.0, b.1 - a.1);
    let mut t0 = 0.0f64;
    let mut t1 = 1.0f64;
    for (p, q) in [
        (-dx, a.0 - rect.west),
        (dx, rect.east - a.0),
        (-dy, a.1 - rect.south),
        (dy, rect.north - a.1),
    ] {
        if p == 0.0 {
            if q < 0.0 {
                return None;
            }
            continue;
        }
        let r = q / p;
        if p < 0.0 {
            t0 = t0.max(r);
        } else {
            t1 = t1.min(r);
        }
    }
    (t0 <= t1).then_some((t0, t1))
}

fn clips(chain: &[Point], rect: Rect) -> Vec<Option<Clip<Point>>> {
    chain
        .windows(2)
        .map(|pair| {
            let (a, b) = (pair[0], pair[1]);
            let (t0, t1) = clip_segment(a, b, rect)?;
            let lerp = |t: f64| (a.0 + (b.0 - a.0) * t, a.1 + (b.1 - a.1) * t);
            Some(Clip {
                from: lerp(t0),
                to: lerp(t1),
                leaves: t1 < 1.0,
            })
        })
        .collect()
}

fn end_of(point: Point, rect: Rect) -> End<Point> {
    if rect.on_perimeter(point) {
        return End::OnEdge;
    }
    let (x, y) = point;
    let candidates = [
        (x - rect.west, (rect.west, y)),
        (rect.east - x, (rect.east, y)),
        (y - rect.south, (x, rect.south)),
        (rect.north - y, (x, rect.north)),
    ];
    let (distance, nearest) = candidates
        .into_iter()
        .min_by(|a, b| a.0.total_cmp(&b.0))
        .expect("four candidates");
    if distance <= DANGLE_METRES {
        End::Reaches(nearest)
    } else {
        End::Lost
    }
}

/// Whether a point is inside a ring set, even-odd, by a ray cast east.
fn inside(rings: &[Vec<Point>], (x, y): Point) -> bool {
    let mut crossings = 0;
    for ring in rings {
        for pair in ring.windows(2) {
            let ((x1, y1), (x2, y2)) = (pair[0], pair[1]);
            if (y1 > y) != (y2 > y) {
                let cross_x = x1 + (y - y1) * (x2 - x1) / (y2 - y1);
                if cross_x > x {
                    crossings += 1;
                }
            }
        }
    }
    crossings % 2 == 1
}

/// The rings of the sea, or `None` where there is none.
fn sea_of(points: &[Point], coastlines: Vec<Vec<i64>>, rect: Rect) -> Option<Vec<Vec<Point>>> {
    let nodes = Nodes::from_columns((0..points.len() as i64).collect(), points.to_vec());
    let (rings, mut chains) = coast(&coastlines, &nodes);
    let within = rings
        .iter()
        .map(|ring| ring.iter().map(|point| rect.contains(*point)).collect())
        .collect();
    let islands = sort_rings(&rings, &within, &mut chains);
    let clipped = chains.iter().map(|chain| clips(chain, rect)).collect();
    let pieces = clip_all(&clipped);
    let ends = pieces
        .iter()
        .map(|piece| (end_of(piece[0], rect), end_of(piece[piece.len() - 1], rect)))
        .collect();
    let pieces = mend_all(&pieces, &ends).pieces;
    let at: Vec<(f64, f64)> = pieces
        .iter()
        .map(|piece| (rect.perimeter_t(piece[0]), rect.perimeter_t(piece[piece.len() - 1])))
        .collect();
    let crossings = pieces
        .iter()
        .zip(&at)
        .map(|(piece, (entry, exit))| {
            let metres: f64 = piece
                .windows(2)
                .map(|pair| (pair[1].0 - pair[0].0).hypot(pair[1].1 - pair[0].1))
                .sum();
            Crossing {
                entry: ordered_wide(entry.to_bits()),
                exit: ordered_wide(exit.to_bits()),
                metres: ordered_wide(metres.to_bits()),
            }
        })
        .collect();
    let left = repair(&crossings)?;
    let next = link(&left);
    let corners: Vec<Vec<Point>> = (0..pieces.len())
        .map(|piece| {
            if left.alive[piece] {
                rect.corners_between(at[piece].1, at[next[piece]].0)
            } else {
                Vec::new()
            }
        })
        .collect();
    let sea = sea_rings(&pieces, &left.alive, &next, &corners);
    let surrounded = islands.iter().map(|ring| inside(&sea, ring[0])).collect();
    let polygon = ocean(sea, &islands, &surrounded).0?;
    assert_eq!(polygon.material, Material::Ocean);
    Some(polygon.rings)
}

/// A west-to-east chain with water on its right (south): the sea ring must close
/// around the southern half and leave the north dry.
#[test]
fn one_crossing_chain_closes_around_the_water_side() {
    let sea = sea_of(&[(-2.0, 5.0), (12.0, 5.0)], vec![vec![0, 1]], rect()).expect("there should be sea");
    assert_eq!(sea.len(), 1);
    assert!(inside(&sea, (5.0, 2.0)), "south of the coast is sea");
    assert!(!inside(&sea, (5.0, 8.0)), "north of the coast is land");
}

/// The same coast drawn the other way round encloses the north instead.
#[test]
fn reversing_the_chain_floods_the_other_side() {
    let sea = sea_of(&[(12.0, 5.0), (-2.0, 5.0)], vec![vec![0, 1]], rect()).expect("there should be sea");
    assert!(!inside(&sea, (5.0, 2.0)));
    assert!(inside(&sea, (5.0, 8.0)));
}

/// A chain that enters and leaves through the same edge takes a bite out of the
/// land rather than sweeping the whole rectangle.
#[test]
fn a_same_edge_bite_stays_a_bite() {
    let sea = sea_of(
        &[(7.0, 12.0), (7.0, 6.0), (3.0, 6.0), (3.0, 12.0)],
        vec![vec![0, 1, 2, 3]],
        rect(),
    )
    .expect("there should be sea");
    assert!(inside(&sea, (5.0, 8.0)), "inside the bite");
    assert!(!inside(&sea, (5.0, 4.0)), "south of the bite");
    assert!(!inside(&sea, (1.0, 8.0)), "west of the bite");
}

/// The same walk the other way round is a peninsula.
#[test]
fn the_reverse_walk_is_a_peninsula() {
    let sea = sea_of(
        &[(3.0, 12.0), (3.0, 6.0), (7.0, 6.0), (7.0, 12.0)],
        vec![vec![0, 1, 2, 3]],
        rect(),
    )
    .expect("there should be sea");
    assert!(!inside(&sea, (5.0, 8.0)), "the pocket is land");
    assert!(inside(&sea, (5.0, 4.0)), "south of it is sea");
    assert!(inside(&sea, (1.0, 8.0)), "west of it is sea");
}

#[test]
fn an_island_ring_inside_the_sea_is_kept_and_one_on_land_is_dropped() {
    // Coast at y=5, water south. An island ring in the south, a pond-like ring in
    // the north where there is no sea around it.
    let sea = sea_of(
        &[
            (-2.0, 5.0),
            (12.0, 5.0),
            (4.0, 2.0),
            (6.0, 2.0),
            (5.0, 3.0),
            (4.0, 8.0),
            (6.0, 8.0),
            (5.0, 9.0),
        ],
        vec![vec![0, 1], vec![2, 3, 4, 2], vec![5, 6, 7, 5]],
        rect(),
    )
    .expect("there should be sea");
    assert_eq!(sea.len(), 2, "the sea and one island");
    assert!(
        !inside(&sea, (5.0, 2.3)),
        "the island is not sea even though the strip around it is"
    );
    assert!(inside(&sea, (3.0, 2.1)), "beside the island is sea");
}

/// The invented segment to the nearest edge is what lets the sea close at all.
#[test]
fn a_dangling_end_is_extended_to_the_nearest_edge() {
    // Enters from the east heading west, water right (north), and stops dead in
    // the middle.
    let sea = sea_of(&[(12.0, 5.0), (5.0, 5.0)], vec![vec![0, 1]], rect()).expect("there should be sea");
    assert!(inside(&sea, (8.0, 8.0)));
    assert!(!inside(&sea, (8.0, 2.0)));
}

/// Two parallel west-to-east chains cannot both be honoured. One is dropped and
/// the sea is filled from what remains.
#[test]
fn contradictory_chains_drop_an_offender_and_fill_from_the_rest() {
    let sea = sea_of(
        &[(-2.0, 5.0), (12.0, 5.0), (-2.0, 3.0), (12.0, 3.0)],
        vec![vec![0, 1], vec![2, 3]],
        rect(),
    )
    .expect("the survivor still implies sea");
    // Whichever chain survives, south of y = 3 is water on both accounts and
    // north of y = 5 is land on both.
    assert!(inside(&sea, (5.0, 1.0)));
    assert!(!inside(&sea, (5.0, 8.0)));
}

#[test]
fn no_coastline_means_no_sea() {
    assert!(sea_of(&[], vec![], rect()).is_none());
}

#[test]
fn corners_between_wraps_around_the_start() {
    let rect = rect();
    // From the middle of the west edge, clockwise past the north-west and
    // north-east corners to the middle of the east edge.
    let passed = rect.corners_between(
        rect.perimeter_t((0.0, 5.0)),
        rect.perimeter_t((10.0, 5.0)),
    );
    assert_eq!(passed, vec![(0.0, 10.0), (10.0, 10.0)]);
}

#[test]
fn a_chain_with_a_lost_node_is_split_at_the_gap() {
    let nodes = Nodes::from_columns(vec![0, 1, 3, 4, 6], vec![(0.0, 0.0), (1.0, 0.0), (3.0, 0.0), (4.0, 0.0), (6.0, 0.0)]);
    let (rings, lines) = coast(&[vec![0, 1, 2, 3, 4, 5, 6]], &nodes);
    assert!(rings.is_empty());
    assert_eq!(lines, vec![vec![(0.0, 0.0), (1.0, 0.0)], vec![(3.0, 0.0), (4.0, 0.0)]]);
}

#[test]
fn a_coast_that_turns_back_is_a_line_and_no_ring() {
    let nodes = Nodes::from_columns(vec![0, 1], vec![(0.0, 0.0), (1.0, 0.0)]);
    let (rings, lines) = coast(&[vec![0, 1, 0]], &nodes);
    assert!(rings.is_empty());
    assert_eq!(lines, vec![vec![(0.0, 0.0), (1.0, 0.0), (0.0, 0.0)]]);
}

#[test]
fn a_piece_out_of_reach_is_dropped() {
    let piece = vec![(1.0, 1.0), (2.0, 2.0)];
    assert_eq!(mend(piece.clone(), End::OnEdge, End::Lost), (None, 0));
    assert_eq!(
        mend(piece.clone(), End::Reaches((0.0, 1.0)), End::OnEdge),
        (Some(vec![(0.0, 1.0), (1.0, 1.0), (2.0, 2.0)]), 1)
    );
    assert_eq!(mend(vec![(1.0, 1.0)], End::OnEdge, End::OnEdge), (None, 0));
    assert_eq!(lie(&vec![false, true]), Lie::Across);
    assert_eq!(lie(&vec![false, false]), Lie::Outside);
}

#[test]
fn the_shorter_of_two_contradicting_pieces_is_dropped() {
    // Entry, entry, exit, exit round the perimeter.
    let crossings = vec![
        Crossing { entry: 1, exit: 10, metres: 50 },
        Crossing { entry: 2, exit: 9, metres: 7 },
    ];
    let left = repair(&crossings).expect("one survives");
    assert_eq!(left.alive, vec![true, false]);
    assert_eq!(link(&left)[0], 0);
    assert!(repair(&vec![]).is_none());
}

#[test]
fn rings_sort_into_islands_and_chains() {
    let ring = |at: f64| vec![(at, 0.0), (at, 1.0), (at, 0.0)];
    let mut chains = vec![ring(0.0)];
    let islands = sort_rings(
        &vec![ring(1.0), ring(2.0), ring(3.0)],
        &vec![vec![true; 3], vec![false; 3], vec![false, true, false]],
        &mut chains,
    );
    assert_eq!(islands, vec![ring(1.0)]);
    assert_eq!(chains, vec![ring(0.0), ring(3.0)]);
}

#[test]
fn a_line_falls_into_a_piece_for_each_visit() {
    let clip = |from: u32, to: u32, leaves: bool| Some(Clip { from, to, leaves });
    let line = vec![clip(0, 1, false), clip(1, 2, true), None, clip(5, 6, false)];
    assert_eq!(clip_chain(&line), vec![vec![0, 1, 2], vec![5, 6]]);
    assert_eq!(
        clip_all(&vec![line, vec![None], vec![clip(8, 9, true)]]),
        vec![vec![0, 1, 2], vec![5, 6], vec![8, 9]]
    );
}

#[test]
fn mending_counts_what_it_did() {
    let mended = mend_all(
        &vec![vec![1u32, 2], vec![3, 4], vec![5, 6]],
        &vec![
            (End::OnEdge, End::Reaches(9)),
            (End::Lost, End::Reaches(9)),
            (End::Reaches(7), End::Reaches(8)),
        ],
    );
    assert_eq!(mended.pieces, vec![vec![1, 2, 9], vec![7, 5, 6, 8]]);
    assert_eq!((mended.extended, mended.dropped), (4, 1));
}

#[test]
fn an_orphaned_island_is_dropped_from_the_ocean() {
    let rings = vec![vec![1u32, 2, 1]];
    let islands = vec![vec![3, 4, 3], vec![5, 6, 5]];
    assert_eq!(
        keep_islands(&islands, &vec![false, true]),
        (vec![vec![5, 6, 5]], 1)
    );
    let (sea, orphaned) = ocean(rings, &islands, &vec![false, true]);
    let sea = sea.expect("there is sea");
    assert_eq!(sea.rings, vec![vec![1, 2, 1], vec![5, 6, 5]]);
    assert_eq!(orphaned, 1);
    // Without a ring along the edge there is no sea, whatever is said of islands.
    for surrounded in [vec![false, false], vec![true, true]] {
        let (sea, orphaned) = ocean(vec![], &islands, &surrounded);
        assert!(sea.is_none());
        assert_eq!(orphaned, 2);
    }
}
