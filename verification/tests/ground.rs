use terrain::droplets::{brush, landing, tile_seed, tiles_of_colour, Patch, COLOURS, HALO, TILE};
use terrain::extent::{groups_of, Extent};
use terrain::grid::{beside, clamped, Beside, Grid};
use terrain::keys::ordered;
use terrain::noise::{hash, octave_seed, BROWNIAN_SPREAD};
use terrain::normals::{bucket, difference, gather, halo_corner, place, slopes_at, Difference, Slopes};
use terrain::order::stable_order;
use terrain::relax::{plan, Fill, Next, CHECK_EVERY, MOST_ITERATIONS};
use terrain::rocks::{bake, corners, draw, samples_across, BOULDER_SEED, RUBBLE_SEED};
use terrain::settling::Settling;
use terrain::tiles::TILE_TEXELS;

fn ramp(width: usize, height: usize) -> Grid<f32> {
    let mut grid = Grid::filled(width, height, 0.0);
    for row in 0..height {
        for column in 0..width {
            let index = grid.index(column, row);
            grid.values[index] = column as f32 * 2.0 + row as f32 * 5.0;
        }
    }
    grid
}

#[test]
fn reads_outside_the_grid_clamp_to_its_edge() {
    let grid = ramp(4, 3);
    assert_eq!(grid.at(-5, 0), grid.at(0, 0));
    assert_eq!(grid.at(99, 0), grid.at(3, 0));
    assert_eq!(grid.at(0, -1), grid.at(0, 0));
    assert_eq!(grid.at(0, 99), grid.at(0, 2));
    assert_eq!(grid.at(2, 1), 9.0);
    assert_eq!(clamped(i64::MIN, 4), 0);
    assert_eq!(clamped(i64::MAX, 4), 3);
}

/// One step of creep: every cell moved a little towards the mean of what stands
/// around it, the ground continued straight on past the edge.
fn creep(grid: &Grid<f32>) -> Grid<f32> {
    let (width, rows) = (grid.width, grid.height);
    let mut out = Grid::filled(width, rows, 0.0f32);
    for cell in 0..width * rows {
        let here = grid.values[cell];
        let mut curvature = 0.0f32;
        for slot in 0..8 {
            let weight = if slot < 4 { 1.0 } else { 0.5 };
            let neighbour = match beside(width, rows, cell, slot) {
                Beside::There(other) => grid.values[other],
                Beside::Continued(other) => 2.0 * here - grid.values[other],
                Beside::Nothing => here,
            };
            curvature += weight * (neighbour - here);
        }
        out.values[cell] = here + 0.06 * curvature / 2.0;
    }
    out
}

/// A plane has no curvature, at its edge no more than inside.
#[test]
fn a_uniform_slope_is_left_exactly_where_it_is() {
    let mut before = Grid::filled(48, 48, 0.0f32);
    for row in 0..48 {
        for column in 0..48 {
            before.values[row * 48 + column] = 900.0 + column as f32 * 2.5 - row as f32 * 1.25;
        }
    }
    let mut after = creep(&before);
    for _ in 1..30 {
        after = creep(&after);
    }
    for (index, (was, now)) in before.values.iter().zip(&after.values).enumerate() {
        assert!(
            (was - now).abs() < 1e-2,
            "cell {index} moved from {was} to {now}"
        );
    }
}

#[test]
fn a_neighbour_off_the_grid_is_continued_from_across() {
    // The middle of the western edge, looking west and north-west.
    assert_eq!(beside(3, 3, 3, 0), Beside::Continued(4));
    assert_eq!(beside(3, 3, 3, 1), Beside::There(4));
    assert_eq!(beside(3, 3, 3, 4), Beside::Continued(7));
    // A corner has nothing on either side along its own diagonal.
    assert_eq!(beside(3, 3, 0, 5), Beside::Nothing);
    assert_eq!(beside(1, 1, 0, 2), Beside::Nothing);
}

#[test]
fn a_grid_is_covered_by_whole_workgroups() {
    let extent = Extent { width: 3073, rows: 8 };
    assert_eq!(extent.cells(), 3073 * 8);
    assert_eq!(extent.channel_bytes(), 3073 * 8 * 4);
    assert_eq!(extent.workgroups(), (385, 1));
    assert_eq!(groups_of(0, 48), 0);
    assert_eq!(groups_of(49, 48), 2);
    assert_eq!(groups_of(u32::MAX, 1), u32::MAX);
}

#[test]
fn a_fill_runs_in_batches_until_nothing_moves() {
    let extent = Extent { width: 97, rows: 97 };
    let whole = plan(extent, false);
    assert_eq!((whole.groups, whole.per_dispatch, whole.dispatches), ((13, 13), 1, 16));
    let tiled = plan(extent, true);
    assert_eq!((tiled.groups, tiled.per_dispatch, tiled.dispatches), ((3, 3), 8, 2));

    let mut fill = Fill::seeded(0);
    assert_eq!(fill.live, 1);
    assert_eq!(fill.batch(whole).iter().take(3).copied().collect::<Vec<_>>(), vec![1, 0, 1]);
    assert_eq!((fill.live, fill.iterations), (1, CHECK_EVERY));
    assert_eq!(fill.next(5), Next::Again);
    assert_eq!(fill.next(0), Next::Settled);
    let mut batches = 1;
    while fill.next(1) == Next::Again {
        fill.batch(tiled);
        batches += 1;
    }
    assert_eq!(batches, 512);
    assert_eq!(fill.iterations, MOST_ITERATIONS);
    assert_eq!(fill.next(1), Next::GaveUp);
    assert_eq!(fill.next(0), Next::Settled);
}

#[test]
fn a_droplets_cutting_is_spread_over_a_disc() {
    let cells = brush();
    assert_eq!(cells.len(), 13);
    assert_eq!(cells[0], (0, -2));
    assert_eq!(cells[6], (0, 0));
    assert!(!cells.contains(&(2, 1)));
    assert!(cells.contains(&(-1, 1)));
}

#[test]
fn every_cell_is_landed_on_and_tiles_that_run_at_once_keep_apart() {
    let (width, rows) = (TILE * 2 + 91, TILE * 2 + HALO * 3);
    let mut owners = vec![0u32; width * rows];
    let mut droplets = 0;
    for colour in 0..COLOURS {
        let patches: Vec<Patch> = tiles_of_colour(width, rows, colour)
            .iter()
            .map(|(tx, ty)| Patch::of_tile(width, rows, *tx, *ty))
            .collect();
        for (at, patch) in patches.iter().enumerate() {
            droplets += patch.droplets(3);
            for row in patch.y..patch.y + patch.rows {
                for column in patch.x..patch.x + patch.width {
                    owners[row * width + column] += 1;
                }
            }
            for other in &patches[at + 1..] {
                let apart = |a: usize, al: usize, b: usize, bl: usize| a + al + 2 * HALO <= b || b + bl + 2 * HALO <= a;
                assert!(
                    apart(patch.x, patch.width, other.x, other.width)
                        || apart(patch.y, patch.rows, other.y, other.rows)
                );
            }
        }
    }
    assert!(owners.iter().all(|owner| *owner == 1));
    assert_eq!(droplets, 3 * width * rows);
    assert_eq!(tiles_of_colour(TILE * 3, TILE, 0), vec![(0, 0), (2, 0)]);
    assert_eq!(tiles_of_colour(TILE * 3, TILE, 1), vec![(1, 0)]);
    assert!(tiles_of_colour(TILE, TILE, 3).is_empty());
}

#[test]
fn a_tiles_droplets_are_drawn_from_where_it_is() {
    assert_eq!(tile_seed(2, 1, 99), hash(2, 1, 99));
    assert_eq!(
        landing(7, 12345),
        (hash(7, 0, 12345) >> 8, hash(7, 1, 12345) >> 8)
    );
    assert_eq!(octave_seed(5, 2, BROWNIAN_SPREAD), 5 ^ 2u32.wrapping_mul(0x51ed_270b));
}

#[test]
fn bedrock_settles_longer_than_sediment() {
    assert_eq!(Settling::Bedrock.sweeps(), 48);
    assert_eq!(Settling::Sediment.sweeps(), 10);
}

#[test]
fn a_cell_draws_its_stone_out_of_one_word() {
    for (x, y) in [(0, 0), (3, 4), (-17, 250)] {
        let word = hash(x, y, BOULDER_SEED);
        let stone = draw(x, y, BOULDER_SEED);
        assert_eq!(stone.jitter_x, word & 0x3ff);
        assert_eq!(stone.jitter_y, (word >> 10) & 0x3ff);
        assert_eq!(stone.grade, (word >> 20) & 0x3f);
        assert_eq!(stone.wants, word >> 26);
        assert_ne!(stone, draw(x, y, RUBBLE_SEED));
    }
    assert_eq!(
        corners(5, -2, 1),
        [
            (hash(5, -2, BOULDER_SEED) >> 10) & 0x3ff,
            (hash(6, -2, BOULDER_SEED) >> 10) & 0x3ff,
            (hash(5, -1, BOULDER_SEED) >> 10) & 0x3ff,
            (hash(6, -1, BOULDER_SEED) >> 10) & 0x3ff,
        ]
    );
}

#[test]
fn a_texel_is_averaged_over_its_tallest_samples() {
    let key = |metres: f32| ordered(metres.to_bits());
    // Sixteen samples: two of every twenty-five is two, rounded up.
    let mut boulders = vec![key(0.0); 16];
    let mut rubble = vec![key(0.0); 16];
    boulders[3] = key(2.5);
    boulders[9] = key(1.0);
    rubble[9] = key(0.25);
    rubble[12] = key(1.5);
    let baked = bake(&boulders, &rubble);
    assert_eq!(baked.tallest, vec![key(2.5), key(1.5)]);
    assert_eq!(baked.boulders, 2);
    assert_eq!(baked.covered, 3);
    // As many samples as a share of 0.08 takes in, whatever the texel.
    for across in 4usize..=32 {
        let samples = across * across;
        let flat = vec![key(0.0); samples];
        let taken = ((samples as f32 * 0.08).ceil() as usize).clamp(1, samples);
        assert_eq!(bake(&flat, &flat).tallest.len(), taken);
    }
    assert_eq!(samples_across(1), 4);
    assert_eq!(samples_across(17), 17);
    assert_eq!(samples_across(54), 32);
}

#[test]
fn a_slope_is_taken_between_what_is_ground() {
    let key = |metres: f32| ordered(metres.to_bits());
    let hole = key(-30000.0);
    // Three texels square: the middle one and its neighbours.
    let mut heights = vec![key(100.0); 9];
    let both = Slopes { east: Difference::Central, south: Difference::Central };
    assert_eq!(slopes_at(&heights, 3, 0, 0, hole), Some(both));
    heights[3] = key(-32767.0);
    heights[7] = key(-32767.0);
    assert_eq!(
        slopes_at(&heights, 3, 0, 0, hole),
        Some(Slopes { east: Difference::Forward, south: Difference::Backward })
    );
    heights[5] = key(-32767.0);
    assert_eq!(
        slopes_at(&heights, 3, 0, 0, hole).map(|slopes| slopes.east),
        Some(Difference::Level)
    );
    heights[4] = key(-32767.0);
    assert_eq!(slopes_at(&heights, 3, 0, 0, hole), None);
    assert_eq!(difference(false, false), Difference::Central);
}

#[test]
fn normals_are_gathered_from_the_texels_beneath() {
    assert_eq!(bucket(8, 17, 4095), 511 * 512 + 2);
    assert_eq!(halo_corner(-3, 8), -25);
    assert_eq!(place(0, 0, 0), 0);
    assert_eq!(place(3, 1, 2), 258 * 512 + 257);
    let values: Vec<u32> = (0..TILE_TEXELS as u32).collect();
    let mut holes = vec![false; TILE_TEXELS];
    assert_eq!(gather(&values, &holes, 1, 1), vec![1026, 1027, 1538, 1539]);
    holes[1027] = true;
    holes[1538] = true;
    assert_eq!(gather(&values, &holes, 1, 1), vec![1026, 1539]);
    holes[1026] = true;
    holes[1539] = true;
    assert!(gather(&values, &holes, 1, 1).is_empty());
    let mut filled = vec![false; TILE_TEXELS];
    for quadrant in 0..4 {
        for y in 0..256 {
            for x in 0..256 {
                assert!(!std::mem::replace(&mut filled[place(quadrant, x, y)], true));
            }
        }
    }
    assert!(filled.iter().all(|filled| *filled));
}

#[test]
fn keys_are_sorted_and_equals_stay_as_they_came() {
    assert_eq!(stable_order(&vec![5, 1, 5, 0, 1]), vec![3, 1, 4, 0, 2]);
    assert!(stable_order(&vec![]).is_empty());
}
