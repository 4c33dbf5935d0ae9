use terrain::stitch::{bounds_ground, stitch};

#[test]
fn fragments_stitch_into_a_ring_whichever_way_they_point() {
    // A square drawn as three fragments, the middle one reversed.
    let ways = vec![vec![1, 2, 3], vec![5, 4, 3], vec![5, 6, 1]];
    let stitched = stitch(&ways);
    assert!(stitched.open.is_empty());
    assert_eq!(stitched.closed.len(), 1);
    let ring = &stitched.closed[0];
    assert_eq!(ring.first(), ring.last());
    assert_eq!(ring.len(), 7, "six corners and the repeat: {ring:?}");
}

#[test]
fn a_fragment_pile_with_a_gap_comes_out_open() {
    let ways = vec![vec![1, 2, 3], vec![4, 5, 1]];
    let stitched = stitch(&ways);
    assert!(stitched.closed.is_empty());
    assert_eq!(stitched.closed.len() + stitched.open.len(), 1);
    // Both fragments joined into one chain despite the gap at 3-4.
    assert_eq!(stitched.open[0].len(), 5);
}

/// A chain whose tail is stuck but whose head continues must flip rather than
/// give up: which end of a fragment pile the walk starts from is arbitrary, and
/// coastline chains are exactly this shape.
#[test]
fn a_chain_stuck_at_one_end_continues_from_the_other() {
    let ways = vec![vec![2, 3], vec![1, 2]];
    let stitched = stitch(&ways);
    assert!(stitched.closed.is_empty());
    assert_eq!(stitched.open.len(), 1);
    // In the fragments' own direction, not the direction the walk happened to
    // build it: 1 to 2 to 3, as the pieces are drawn.
    assert_eq!(stitched.open[0], vec![1, 2, 3]);
}

#[test]
fn two_separate_rings_stay_separate() {
    let ways = vec![vec![1, 2, 3, 1], vec![10, 11, 12, 10]];
    let stitched = stitch(&ways);
    assert_eq!(stitched.closed.len(), 2);
    assert!(stitched.open.is_empty());
}

/// A chain whose ends met is closed however short it is, and one handed back open
/// has its ends apart.
#[test]
fn a_chain_that_turns_back_is_closed() {
    let stitched = stitch(&[vec![1, 2, 1]]);
    assert_eq!(stitched.closed, vec![vec![1, 2, 1]]);
    assert!(stitched.open.is_empty());

    // Two fragments over the same two nodes, and one alone.
    let stitched = stitch(&[vec![1, 2], vec![2, 1], vec![7, 8]]);
    assert_eq!(stitched.closed, vec![vec![1, 2, 1]]);
    assert_eq!(stitched.open, vec![vec![7, 8]]);

    // It is too short to stop at, so it walks on where it can.
    let stitched = stitch(&[vec![1, 2, 1], vec![1, 5]]);
    assert!(stitched.closed.is_empty());
    assert_eq!(stitched.open, vec![vec![1, 2, 1, 5]]);
}

#[test]
fn a_ring_bounds_ground_from_four_ids_on() {
    assert!(bounds_ground(&vec![1, 2, 3, 1]));
    assert!(!bounds_ground(&vec![1, 2, 1]));
    assert!(!bounds_ground(&vec![1, 2, 3, 4]));
    assert!(!bounds_ground(&vec![]));
}
