use std::cmp::Reverse;
use std::collections::BinaryHeap;

use terrain::flow::{drainage, outlet, receiver, Outlet, Scratch, LEVEL, NOWHERE};
use terrain::heap::MinHeap;
use terrain::keys::{ordered, ordered_wide, unordered};
use terrain::lattice::neighbour;
use terrain::noise::gradient_index;
use terrain::queue::Queue;

/// The exponent water is spread by.
const SPREAD: f32 = 1.1;

fn keys(values: &[f32]) -> Vec<u32> {
    values.iter().map(|value| ordered(value.to_bits())).collect()
}

fn values(keys: &[u32]) -> Vec<f32> {
    keys.iter().map(|key| f32::from_bits(unordered(*key))).collect()
}

/// A square landscape.
struct Ground {
    side: usize,
    height: Vec<f32>,
}

impl Ground {
    fn new(side: usize, at: impl Fn(usize, usize) -> f32) -> Ground {
        let mut height = Vec::new();
        for row in 0..side {
            for column in 0..side {
                height.push(at(column, row));
            }
        }
        Ground { side, height }
    }
}

/// A bowl inside a plain that falls away to the east, so there is both a hollow
/// to fill and somewhere for the water to leave.
fn bowl(side: usize) -> Ground {
    let middle = (side - 1) as f32 * 0.5;
    Ground::new(side, |column, row| {
        let (dx, dy) = (column as f32 - middle, row as f32 - middle);
        let distance = (dx * dx + dy * dy).sqrt();
        let plain = 900.0 - column as f32 * 0.5;
        if distance < middle * 0.4 {
            plain - (middle * 0.4 - distance) * 3.0
        } else {
            plain
        }
    })
}

/// Everything the water does over a landscape.
struct Water {
    filled: Vec<f32>,
    order: Vec<u32>,
    drains_to: Vec<u32>,
    area: Vec<f32>,
}

fn reach(slot: usize) -> f32 {
    if slot < 4 {
        1.0
    } else {
        std::f32::consts::SQRT_2
    }
}

/// How steeply the surface falls towards each neighbour.
fn falls_at(side: usize, filled: &[f32], cell: usize) -> [f32; 8] {
    let mut falls = [0.0f32; 8];
    for slot in 0..8 {
        if let Some(other) = neighbour(side, side, cell, slot) {
            falls[slot] = (filled[cell] - filled[other]) / reach(slot);
        }
    }
    falls
}

fn keys_of(falls: &[f32; 8]) -> [u32; 8] {
    let mut keys = [LEVEL; 8];
    for slot in 0..8 {
        keys[slot] = ordered(falls[slot].to_bits());
    }
    keys
}

fn route_with(scratch: &mut Scratch, ground: &Ground) -> Water {
    let side = ground.side;
    scratch.drainage(side, side, &keys(&ground.height));
    let flood = scratch.take();
    let filled = values(&flood.filled);
    let drains_to: Vec<u32> = (0..filled.len())
        .map(|cell| {
            let falls = keys_of(&falls_at(side, &filled, cell));
            receiver(side, side, cell, &falls, flood.reached_by[cell])
        })
        .collect();
    let mut area = vec![1.0f32; filled.len()];
    for cell in flood.order.iter().rev() {
        let cell = *cell as usize;
        let mut shares = falls_at(side, &filled, cell);
        let mut total = 0.0f32;
        for slot in 0..8 {
            shares[slot] = if shares[slot] > 0.0 {
                shares[slot].powf(SPREAD) / reach(slot)
            } else {
                0.0
            };
            total += shares[slot];
        }
        let sending = area[cell];
        match outlet(side, side, cell, &keys_of(&shares), drains_to[cell]) {
            Outlet::Shared => {
                for slot in 0..8 {
                    if shares[slot] > 0.0 {
                        let other = neighbour(side, side, cell, slot).expect("downhill is on the map");
                        area[other] += sending * shares[slot] / total;
                    }
                }
            }
            Outlet::Along(into) => area[into as usize] += sending,
            Outlet::Off => {}
        }
    }
    Water { filled, order: flood.order, drains_to, area }
}

fn route(ground: &Ground) -> Water {
    route_with(&mut Scratch::new(), ground)
}

/// A scratch that has already seen one landscape must answer about the next one
/// exactly as a fresh scratch would. The grids are different sizes, so that a
/// cell on the rim of the second was inside the first.
#[test]
fn a_reused_scratch_does_not_remember_the_last_landscape() {
    let first = bowl(41);
    let second = bowl(21);

    let mut scratch = Scratch::new();
    route_with(&mut scratch, &first);
    scratch.drainage(first.side, first.side, &keys(&first.height));
    let reused = route_with(&mut scratch, &second);
    let fresh = route(&second);

    assert_eq!(reused.filled, fresh.filled, "filled");
    assert_eq!(reused.order, fresh.order, "order");
    assert_eq!(reused.drains_to, fresh.drains_to, "drains_to");
    assert_eq!(reused.area, fresh.area, "area");
}

#[test]
fn a_scratch_holds_a_flood_only_until_it_is_taken() {
    let mut scratch = Scratch::new();
    assert!(scratch.take().filled.is_empty(), "nothing was flooded yet");
    scratch.drainage(2, 2, &vec![4, 3, 2, 1]);
    assert_eq!(scratch.take().filled, vec![4, 3, 2, 1]);
    let after = scratch.take();
    assert!(after.filled.is_empty() && after.reached_by.is_empty() && after.order.is_empty());
}

/// The flood with one global heap over every cell, popped lowest first.
fn flood_with_one_global_heap(ground: &Ground) -> (Vec<f32>, Vec<u32>, Vec<u32>) {
    let side = ground.side;
    let count = side * side;
    let heights = &ground.height;

    let mut filled = vec![0f32; count];
    let mut reached_by = vec![u32::MAX; count];
    let mut seen = vec![false; count];
    let mut order = Vec::with_capacity(count);
    let mut heap: BinaryHeap<Reverse<u64>> = BinaryHeap::new();

    for row in 0..side {
        for column in 0..side {
            if row != 0 && column != 0 && row != side - 1 && column != side - 1 {
                continue;
            }
            let index = row * side + column;
            filled[index] = heights[index];
            seen[index] = true;
            heap.push(Reverse(
                (u64::from(ordered(filled[index].to_bits())) << 32) | index as u64,
            ));
        }
    }
    while let Some(Reverse(packed)) = heap.pop() {
        let index = (packed & 0xffff_ffff) as usize;
        order.push(index as u32);
        for slot in 0..8 {
            let Some(other) = neighbour(side, side, index, slot) else {
                continue;
            };
            if seen[other] {
                continue;
            }
            seen[other] = true;
            filled[other] = heights[other].max(filled[index]);
            reached_by[other] = index as u32;
            heap.push(Reverse(
                (u64::from(ordered(filled[other].to_bits())) << 32) | other as u64,
            ));
        }
    }
    (filled, reached_by, order)
}

/// The bucket queue has to pop in the same sequence the global heap did -- not a
/// similar one, the same one: over a bowl with a real hollow, a plane with no
/// hollow at all, and dead flat ground where every cell lands in one bucket.
#[test]
fn the_bucket_queue_floods_exactly_as_a_plain_heap_does() {
    let flat = Ground::new(41, |_, _| 850.0);
    let plane = Ground::new(41, |column, _| 900.0 - column as f32 * 0.5);

    for (name, ground) in [("bowl", bowl(41)), ("plane", plane), ("flat", flat)] {
        let (filled, reached_by, order) = flood_with_one_global_heap(&ground);
        let mine = drainage(ground.side, ground.side, &keys(&ground.height));

        assert_eq!(mine.order, order, "{name}: the pop order");
        assert_eq!(values(&mine.filled), filled, "{name}: the filled surface");
        assert_eq!(mine.reached_by, reached_by, "{name}: what reached each cell");
        assert!(!order.is_empty(), "{name}: the flood reached nothing");
    }
}

/// Every cell has to come out of the flood with a real height on it.
#[test]
fn every_cell_is_reached_by_the_flood() {
    for ground in [bowl(41), bowl(9)] {
        let water = route(&ground);
        assert_eq!(water.order.len(), ground.height.len());
        let missed = water
            .filled
            .iter()
            .filter(|height| !height.is_finite())
            .count();
        assert_eq!(missed, 0, "cells the flood never reached");
    }
}

/// After routing, no cell is lower than every one of its neighbours.
#[test]
fn the_filled_surface_has_no_hollow_left_in_it() {
    let ground = bowl(41);
    let side = ground.side;
    let water = route(&ground);
    for row in 1..side - 1 {
        for column in 1..side - 1 {
            let cell = row * side + column;
            let here = water.filled[cell];
            let lowest = (0..8)
                .filter_map(|slot| neighbour(side, side, cell, slot))
                .map(|other| water.filled[other])
                .fold(f32::INFINITY, f32::min);
            assert!(
                here >= lowest - 1e-4,
                "({column}, {row}) sits at {here}, under every neighbour's {lowest}"
            );
        }
    }
}

/// A lake is flat, and never below its own ground.
#[test]
fn a_hollow_fills_to_one_level_and_never_below_the_ground() {
    let ground = bowl(41);
    let water = route(&ground);

    let mut levels: Vec<f32> = Vec::new();
    for (index, filled) in water.filled.iter().enumerate() {
        let floor = ground.height[index];
        assert!(
            *filled >= floor - 1e-4,
            "cell {index} filled to {filled}, under its own ground at {floor}"
        );
        if *filled - floor > 1.0 {
            levels.push(*filled);
        }
    }
    assert!(!levels.is_empty(), "the bowl did not fill at all");
    let (low, high) = levels
        .iter()
        .fold((f32::INFINITY, f32::NEG_INFINITY), |(l, h), v| {
            (l.min(*v), h.max(*v))
        });
    assert!(high - low < 1e-2, "the lake surface spans {low} to {high}");
}

/// Ground that already drains must be left exactly where it is.
#[test]
fn ground_that_already_drains_is_not_raised() {
    let ground = Ground::new(41, |column, _| 900.0 - column as f32 * 2.0);
    let water = route(&ground);
    for (filled, floor) in water.filled.iter().zip(&ground.height) {
        assert_eq!(filled, floor);
    }
}

/// Drainage area has to grow downstream, and it has to add up: the outlets
/// between them must account for every cell on the map.
#[test]
fn drainage_gathers_downstream_and_accounts_for_every_cell() {
    let ground = bowl(41);
    let side = ground.side;
    let water = route(&ground);
    let count = side * side;

    let flow: Vec<f32> = water.area.iter().map(|cells| cells.log2()).collect();
    let (low, high) = flow
        .iter()
        .fold((f32::INFINITY, f32::NEG_INFINITY), |(l, h), v| {
            (l.min(*v), h.max(*v))
        });
    assert_eq!(low, 0.0, "a cell with nothing above it drains one cell");
    assert!(
        high > (count as f32).log2() * 0.25,
        "the largest drainage is 2^{high} cells out of {count}"
    );

    let mut through_the_edge = 0.0f64;
    for row in 0..side {
        for column in 0..side {
            if row == 0 || column == 0 || row == side - 1 || column == side - 1 {
                through_the_edge += f64::from(flow[row * side + column].exp2());
            }
        }
    }
    assert!(
        through_the_edge >= count as f64,
        "{through_the_edge} cells left through the edge, out of {count}"
    );
}

/// Unit vectors at every 22.5 degrees.
fn gradient_vector(index: usize) -> [f32; 2] {
    let near = 0.923_879_5;
    let off = 0.382_683_4;
    let diagonal = std::f32::consts::FRAC_1_SQRT_2;
    [
        [1.0, 0.0],
        [near, off],
        [diagonal, diagonal],
        [off, near],
        [0.0, 1.0],
        [-off, near],
        [-diagonal, diagonal],
        [-near, off],
        [-1.0, 0.0],
        [-near, -off],
        [-diagonal, -diagonal],
        [-off, -near],
        [0.0, -1.0],
        [off, -near],
        [diagonal, -diagonal],
        [near, -off],
    ][index]
}

fn corner(x: i32, y: i32, dx: f32, dy: f32, seed: u32) -> f32 {
    let g = gradient_vector(gradient_index(x, y, seed));
    g[0] * dx + g[1] * dy
}

/// Gradient noise.
fn gradient(x: f32, y: f32, seed: u32) -> f32 {
    let fade = |t: f32| t * t * t * (t * (t * 6.0 - 15.0) + 10.0);
    let lerp = |a: f32, b: f32, t: f32| a + (b - a) * t;
    let (x0, y0) = (x.floor(), y.floor());
    let (fx, fy) = (x - x0, y - y0);
    let (ix, iy) = (x0 as i32, y0 as i32);
    let top = lerp(
        corner(ix, iy, fx, fy, seed),
        corner(ix + 1, iy, fx - 1.0, fy, seed),
        fade(fx),
    );
    let bottom = lerp(
        corner(ix, iy + 1, fx, fy - 1.0, seed),
        corner(ix + 1, iy + 1, fx - 1.0, fy - 1.0, seed),
        fade(fx),
    );
    lerp(top, bottom, fade(fy)) * std::f32::consts::SQRT_2
}

/// Nothing about this ground distinguishes one cell from the next, so nothing
/// about the drainage may either -- where a single receiver each would spread it
/// by orders of magnitude.
#[test]
fn a_plane_drains_evenly_rather_than_in_parallel_lines() {
    let side = 81;
    let ground = Ground::new(side, |column, row| {
        900.0 - row as f32 * 2.0 - column as f32 * 0.7
            + gradient(column as f32 / 3.0, row as f32 / 3.0, 77) * 0.2
    });
    let water = route(&ground);

    let mut d8 = vec![1.0f32; water.area.len()];
    for index in water.order.iter().rev() {
        let index = *index as usize;
        let into = water.drains_to[index];
        if into != NOWHERE {
            d8[into as usize] += d8[index];
        }
    }

    let row = side / 2;
    let spread = |area: &[f32]| {
        let (low, high) = (20..side - 20)
            .map(|column| area[row * side + column])
            .fold((f32::INFINITY, 0.0f32), |(l, h), a| (l.min(a), h.max(a)));
        high / low
    };
    assert!(
        spread(&d8) > 10.0,
        "the single-receiver rule spread this plane's drainage by only {}, \
         so this landscape no longer demonstrates the problem",
        spread(&d8)
    );
    assert!(
        spread(&water.area) < 1.5,
        "identical cells of a plane carry drainage differing by {}",
        spread(&water.area)
    );
}

/// Ground that converges has to end up carrying far more than ground that does
/// not.
#[test]
fn a_valley_still_collects_far_more_than_the_slope_beside_it() {
    let side = 81;
    let middle = (side - 1) as f32 * 0.5;
    let ground = Ground::new(side, |column, row| {
        let across = (column as f32 - middle).abs().min(20.0);
        900.0 - row as f32 * 2.0 + across * 1.5
    });
    let water = route(&ground);
    let row = side - 12;
    let floor = water.area[row * side + side / 2];
    let flank = water.area[row * side + side - 12];
    assert!(
        floor > flank * 20.0,
        "the valley floor carries {floor} against the flank's {flank}"
    );
}

/// Every cell has a neighbour no higher than itself.
#[test]
fn every_cell_drains_into_one_no_higher_than_itself() {
    let ground = bowl(41);
    let side = ground.side;
    let water = route(&ground);
    for cell in 0..side * side {
        let here = water.filled[cell];
        let lowest = (0..8)
            .filter_map(|slot| neighbour(side, side, cell, slot))
            .map(|other| water.filled[other])
            .fold(f32::INFINITY, f32::min);
        assert!(lowest <= here + 1e-4, "cell {cell} has nowhere to go");
    }
}

#[test]
fn a_cell_is_swept_after_everything_that_gives_to_it() {
    let ground = bowl(21);
    let side = ground.side;
    let water = route(&ground);
    let mut place = vec![0; side * side];
    for (at, cell) in water.order.iter().enumerate() {
        place[*cell as usize] = at;
    }
    for cell in 0..side * side {
        if water.drains_to[cell] != NOWHERE {
            assert!(place[water.drains_to[cell] as usize] < place[cell]);
        }
        for (slot, fall) in falls_at(side, &water.filled, cell).iter().enumerate() {
            if *fall > 0.0 {
                let other = neighbour(side, side, cell, slot).expect("downhill");
                assert!(place[other] < place[cell]);
            }
        }
    }
}

#[test]
fn keys_sort_as_the_numbers_they_stand_for() {
    let numbers = [
        f32::NEG_INFINITY,
        -32767.0,
        -1.5,
        -1e-40,
        0.0,
        1e-40,
        0.25,
        1.0,
        2600.0,
        f32::INFINITY,
    ];
    for pair in numbers.windows(2) {
        assert!(ordered(pair[0].to_bits()) < ordered(pair[1].to_bits()));
    }
    for number in numbers {
        assert_eq!(unordered(ordered(number.to_bits())), number.to_bits());
    }
    let wide = [-1e300f64, -1.0, 0.0, 1e-300, 4.0];
    for pair in wide.windows(2) {
        assert!(ordered_wide(pair[0].to_bits()) < ordered_wide(pair[1].to_bits()));
    }
}

#[test]
fn the_heap_gives_back_the_least_first() {
    let mut heap = MinHeap::new();
    for word in [9, 3, 7, 3, 1] {
        heap.push(word);
    }
    assert_eq!(heap.len(), 5);
    let mut out = vec![];
    while let Some(word) = heap.pop() {
        out.push(word);
    }
    assert_eq!(out, vec![1, 3, 3, 7, 9]);
    heap.push(4);
    heap.clear();
    assert_eq!(heap.pop(), None);
}

#[test]
fn the_queue_gives_back_the_lowest_cell_first_and_equals_by_index() {
    let filled = keys(&[5.0, 1.0, 3.0, 1.0]);
    let mut queue = Queue::new();
    queue.reset(ordered(1.0f32.to_bits()), ordered(5.0f32.to_bits()));
    for cell in [0, 3, 2, 1] {
        queue.push(cell, &filled);
    }
    let mut out = vec![];
    while let Some(cell) = queue.pop(&filled) {
        out.push(cell);
    }
    assert_eq!(out, vec![1, 3, 2, 0]);
}

/// Relaxes a surface over its neighbours until nothing moves.
fn settle(side: usize, heights: &[u32], mut surface: Vec<u32>) -> Vec<u32> {
    loop {
        let relaxed: Vec<u32> = (0..surface.len())
            .map(|cell| {
                (0..8)
                    .filter_map(|slot| neighbour(side, side, cell, slot))
                    .map(|beside| heights[cell].max(surface[beside]))
                    .fold(surface[cell], u32::min)
            })
            .collect();
        if relaxed == surface {
            return surface;
        }
        surface = relaxed;
    }
}

/// The edge at its own height, and the rest as given.
fn seeded(side: usize, heights: &[u32], inside: impl Fn(usize) -> u32) -> Vec<u32> {
    (0..heights.len())
        .map(|cell| {
            let (x, y) = (cell % side, cell / side);
            if x == 0 || y == 0 || x == side - 1 || y == side - 1 {
                heights[cell]
            } else {
                inside(cell)
            }
        })
        .collect()
}

#[test]
fn a_relaxation_from_above_lands_on_the_flood_cold_or_warm() {
    let side = 17;
    let before: Vec<u32> = (0..side * side).map(|cell| 100 + (cell * 37 % 61) as u32).collect();
    let highest = *before.iter().max().expect("there is ground");
    let cold = settle(side, &before, seeded(side, &before, |_| highest));
    let flood = drainage(side, side, &before).filled;
    assert_eq!(cold, flood);

    // Some of the ground rises, none of it by more than nine.
    let lift = 9;
    let heights: Vec<u32> = before
        .iter()
        .enumerate()
        .map(|(cell, height)| height + (cell % 10) as u32)
        .collect();
    let warm = settle(side, &heights, seeded(side, &heights, |cell| flood[cell] + lift));
    assert_eq!(warm, drainage(side, side, &heights).filled);
}
