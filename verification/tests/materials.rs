use terrain::blocks::{blocks, cut_block, lines_up, tile_under, Block};
use terrain::census::Census;
use terrain::fill::{decode_row, encode_row, fill, spreads, sweep_down, sweep_up, Row, FAR, SPILL_BYTES};
use terrain::material::{precedence, Material};
use terrain::mip::{Palette, Tally};
use terrain::paint::{paint_all, paint_order, Cut};
use terrain::tiles::{
    cut_painted, cut_tile, inside, paste, place_tile, punch_out, tile_offset, tile_range, tiles_of, Frame, Stretch,
    Tile, SIDE, TILE_TEXELS,
};

const LAKE: u32 = 0x0101;
const FOREST: u32 = 0x0304;
const GRASS: u32 = 0x0403;
const ROCK: u32 = 0x0501;
const RESIDENTIAL: u32 = 0x0801;

/// The most a fill may reach: four kilometres of four-metre texels, three to a
/// step.
const CAP: u16 = 3000;

/// One tile of ground with a few texels on it.
fn ground(texels: &[(usize, usize, u32)]) -> Vec<u32> {
    let mut cells = vec![0u32; TILE_TEXELS];
    for &(x, y, id) in texels {
        cells[y * SIDE + x] = id;
    }
    cells
}

/// Null ground takes the nearest cover, and the nearest one specifically.
#[test]
fn null_ground_takes_the_nearest_cover() {
    let mut cells = ground(&[(100, 100, FOREST), (140, 100, ROCK)]);
    fill(&mut cells, SIDE, SIDE, CAP);
    assert_eq!(cells[100 * SIDE + 110], FOREST);
    assert_eq!(cells[100 * SIDE + 130], ROCK);
    assert_eq!(
        cells[130 * SIDE + 100],
        FOREST,
        "reach is two-dimensional, not just along the row"
    );
}

/// A lake beside a wood stays a lake, and the gap beyond the lake fills with the
/// wood, straight across the water.
#[test]
fn water_neither_spreads_nor_takes_a_fill() {
    let mut cells = ground(&[(100, 100, FOREST), (110, 100, LAKE), (111, 100, LAKE)]);
    fill(&mut cells, SIDE, SIDE, CAP);
    assert_eq!(cells[100 * SIDE + 110], LAKE);
    assert_eq!(
        cells[100 * SIDE + 115],
        FOREST,
        "the fill crosses the lake but carries the wood"
    );
    assert!(!spreads(LAKE) && !spreads(0) && spreads(FOREST));
}

/// Ground further than the cap from every source stays null.
#[test]
fn ground_beyond_the_cap_stays_null() {
    let mut cells = ground(&[(0, 0, FOREST)]);
    let (filled, unfilled) = fill(&mut cells, SIDE, SIDE, CAP);
    assert_eq!(
        filled + unfilled + 1,
        (SIDE * SIDE) as u64,
        "every texel is either the source, filled, or out of reach"
    );
    assert_eq!(
        cells[511 * SIDE + 511],
        FOREST,
        "the far corner is within the cap"
    );
    assert_eq!(unfilled, 0, "one source reaches this whole tile");

    // A shorter reach leaves the rest bare: three steps east, or two across.
    let mut cells = ground(&[(0, 0, FOREST)]);
    let (filled, _) = fill(&mut cells, SIDE, SIDE, 9);
    assert_eq!(cells[3], FOREST);
    assert_eq!(cells[4], 0);
    assert_eq!(cells[2 * SIDE + 2], FOREST);
    assert_eq!(cells[3 * SIDE + 3], 0);
    assert_eq!(filled, cells.iter().filter(|id| **id != 0).count() as u64 - 1);
}

#[test]
fn a_row_swept_down_and_up_again_finds_the_nearest_either_side() {
    let cells = vec![0, FOREST, 0, 0, 0, 0];
    let top = sweep_down(&cells, 0, 3, None);
    // What lies to the east and below is left to the sweep back up.
    assert_eq!(top.distance, vec![FAR, 0, 3]);
    assert_eq!(top.nearest[1..], [FOREST, FOREST]);
    let mut below = sweep_down(&cells, 3, 3, Some(&top));
    assert_eq!(below.distance, vec![4, 3, 4]);
    let mut out = cells.clone();
    assert_eq!(sweep_up(&mut out, 3, &mut below, None, 3), (1, 2));
    assert_eq!(out, vec![0, FOREST, 0, 0, FOREST, 0]);
}

#[test]
fn a_spilled_row_comes_back_as_it_went() {
    let row = Row { distance: vec![0, 3, FAR], nearest: vec![FOREST, 0x0102_0304, 0] };
    let mut bytes = vec![0u8; 3 * SPILL_BYTES];
    encode_row(&row.distance, &row.nearest, &mut bytes);
    assert_eq!(bytes[..10], [0, 0, 3, 0, 255, 255, 4, 3, 0, 0]);
    let (mut distance, mut nearest) = (vec![9; 3], vec![9; 3]);
    decode_row(&bytes, &mut distance, &mut nearest);
    assert_eq!(distance, row.distance);
    assert_eq!(nearest, row.nearest);
}

/// Ids in the order of their slots, with the layers they paint on.
fn palette() -> Palette {
    Palette::new(&vec![
        (0, precedence(Material::Null)),
        (LAKE, precedence(Material::Lake)),
        (FOREST, precedence(Material::ForestUnknown)),
        (GRASS, precedence(Material::Grass)),
    ])
}

/// The coarse tile over one base tile, `scale` base texels to a coarse one.
fn coarse(scale: usize, value: impl Fn(u32, u32) -> u32) -> Option<Vec<u32>> {
    let palette = palette();
    let base: Vec<u32> = (0..TILE_TEXELS as u32).map(|i| value(i % 512, i / 512)).collect();
    let mut tally = Tally::new(&palette, scale);
    tally.count(&palette, 0, 0, &base).expect("every id is known");
    tally.modes(&palette)
}

/// In every 4 x 4 base block the top half is mostly lake and the bottom all
/// forest: 6 against 10. A mode of the four 2 x 2 modes would give the tie to the
/// lake.
#[test]
fn a_coarse_texel_counts_the_base_not_the_level_below() {
    let pattern = |x: u32, y: u32| {
        if y % 4 < 2 && !(x % 2 == 1 && y % 2 == 1) {
            LAKE
        } else {
            FOREST
        }
    };
    let level3 = coarse(2, pattern).expect("holds ground");
    assert_eq!(level3[0], LAKE, "the top quadrants lean Lake");
    assert_eq!(level3[512], FOREST);
    let level4 = coarse(4, pattern).expect("holds ground");
    assert_eq!(
        level4[0], FOREST,
        "10 Forest beats 6 Lake over the full footprint"
    );
}

/// One real texel outvotes any number of empty ones, and only a fully empty
/// footprint stays null.
#[test]
fn null_never_outvotes_ground() {
    let level4 = coarse(4, |x, y| if x == 0 && y == 0 { LAKE } else { 0 }).expect("holds ground");
    assert_eq!(level4[0], LAKE, "one texel of water carries its cell");
    assert_eq!(level4[1], 0, "an empty footprint stays empty");
}

/// A count tie goes to the higher layer.
#[test]
fn ties_go_to_the_higher_layer() {
    let level3 = coarse(2, |x, _| if x % 2 == 0 { GRASS } else { LAKE }).expect("holds ground");
    assert_eq!(level3[0], LAKE, "two grass, two lake: water wins the tie");
}

/// An entirely empty region makes no coarse tile.
#[test]
fn an_empty_base_writes_no_coarse_tiles() {
    assert!(coarse(2, |_, _| 0).is_none());
    let palette = palette();
    assert!(Tally::new(&palette, 4).modes(&palette).is_none());
}

#[test]
fn an_id_that_is_no_materials_is_refused() {
    let palette = palette();
    assert_eq!(palette.slot(GRASS), Some(3));
    assert_eq!(palette.slot(0x7777), None);
    let mut tally = Tally::new(&palette, 2);
    let mut base = vec![0u32; TILE_TEXELS];
    base[5] = 0x7777;
    assert_eq!(tally.count(&palette, 0, 0, &base), Err(0x7777));
}

#[test]
fn four_base_tiles_share_a_coarse_one() {
    let palette = palette();
    let mut tally = Tally::new(&palette, 2);
    for (x, y, id) in [(0, 0, LAKE), (1, 0, FOREST), (0, 1, GRASS)] {
        tally.count(&palette, x, y, &vec![id; TILE_TEXELS]).expect("known");
    }
    let tile = tally.modes(&palette).expect("holds ground");
    assert_eq!(tile[0], LAKE);
    assert_eq!(tile[256], FOREST);
    assert_eq!(tile[256 * 512], GRASS);
    assert_eq!(tile[256 * 512 + 256], 0);
}

#[test]
fn a_tie_on_one_layer_goes_to_the_lower_id() {
    // The higher id is listed first.
    let palette = Palette::new(&vec![
        (GRASS, precedence(Material::Grass)),
        (FOREST, precedence(Material::ForestUnknown)),
    ]);
    let base: Vec<u32> = (0..TILE_TEXELS).map(|i| if i % 2 == 0 { GRASS } else { FOREST }).collect();
    let mut tally = Tally::new(&palette, 2);
    tally.count(&palette, 0, 0, &base).expect("known");
    assert_eq!(tally.modes(&palette).expect("holds ground")[0], FOREST);
}

#[test]
fn base_tiles_count_in_any_order() {
    let palette = palette();
    let base: Vec<Vec<u32>> = (0..4usize)
        .map(|tile| {
            (0..TILE_TEXELS)
                .map(|i| [0, LAKE, FOREST, GRASS][(i + tile * i / 3) % 4])
                .collect()
        })
        .collect();
    let counted = |order: [usize; 4]| {
        let mut tally = Tally::new(&palette, 2);
        for tile in order {
            tally
                .count(&palette, tile % 2, tile / 2, &base[tile])
                .expect("known");
        }
        tally.modes(&palette)
    };
    let tile = counted([0, 1, 2, 3]);
    assert!(tile.is_some());
    assert_eq!(counted([3, 1, 0, 2]), tile);
    assert_eq!(counted([2, 3, 1, 0]), tile);
}

/// Ground of four-metre texels, two tiles across and one down, with its
/// north-west corner at the origin.
const WIDTH: usize = 1024;
const ROWS: usize = 512;

struct Shape {
    id: u32,
    layer: u8,
    rings: Vec<Vec<(f64, f64)>>,
}

fn shape(material: Material, id: u32, rings: Vec<Vec<(f64, f64)>>) -> Shape {
    Shape {
        id,
        layer: precedence(material),
        rings,
    }
}

/// A closed rectangle ring in metres.
fn rectangle(west: f64, south: f64, east: f64, north: f64) -> Vec<(f64, f64)> {
    vec![
        (west, south),
        (east, south),
        (east, north),
        (west, north),
        (west, south),
    ]
}

/// Where the edges of some rings cross the rows of texel centres.
fn cuts(rings: &[Vec<(f64, f64)>]) -> Vec<Cut> {
    let metres = 4.0;
    let mut found = Vec::new();
    for ring in rings {
        for pair in ring.windows(2) {
            let ((x1, y1), (x2, y2)) = (pair[0], pair[1]);
            let (low, high) = (y1.min(y2), y1.max(y2));
            if low == high {
                continue;
            }
            let first = ((-high / metres - 0.5).floor() as i64 + 1).max(0);
            let last = ((-low / metres - 0.5).floor() as i64).min(ROWS as i64 - 1);
            for row in first..=last {
                let centre = -(row as f64 + 0.5) * metres;
                let x = x1 + (centre - y1) * (x2 - x1) / (y2 - y1);
                found.push(Cut {
                    row: row as u32,
                    column: (x / metres - 0.5).ceil() as i64,
                });
            }
        }
    }
    found
}

fn area(rings: &[Vec<(f64, f64)>]) -> f64 {
    rings
        .iter()
        .map(|ring| {
            let twice: f64 = ring
                .windows(2)
                .map(|pair| pair[0].0 * pair[1].1 - pair[1].0 * pair[0].1)
                .sum();
            (twice * 0.5).abs()
        })
        .sum()
}

fn rasterize(shapes: &[Shape]) -> Vec<u32> {
    let layers = shapes.iter().map(|shape| shape.layer).collect();
    let areas = shapes
        .iter()
        .map(|shape| terrain::keys::ordered_wide(area(&shape.rings).to_bits()))
        .collect();
    let order = paint_order(&layers, &areas);
    let polygons: Vec<Vec<Cut>> = shapes.iter().map(|shape| cuts(&shape.rings)).collect();
    let ids = shapes.iter().map(|shape| shape.id).collect();
    let mut cells = vec![0u32; WIDTH * ROWS];
    paint_all(&mut cells, WIDTH, ROWS, &polygons, &ids, &order);
    cells
}

/// A polygon over the first texels paints exactly the texels whose centres it
/// covers.
#[test]
fn a_polygon_paints_the_texels_whose_centres_it_covers() {
    // Covers x in [0, 40), y in [-8, 0): columns 0..10, rows 0..2.
    let cells = rasterize(&[shape(Material::Lake, LAKE, vec![rectangle(0.0, -8.0, 40.0, 0.0)])]);
    let written = (0..2).filter(|column| cut_painted(&cells, WIDTH, ROWS, *column).is_some()).count();
    assert_eq!(written, 1, "one tile holds paint");

    assert_eq!(cells[0], LAKE);
    assert_eq!(cells[WIDTH + 9], LAKE);
    assert_eq!(cells[10], 0, "east of the edge");
    assert_eq!(cells[2 * WIDTH], 0, "south of the edge");
}

/// A lake inside a forest survives painting, whichever order they arrived in.
#[test]
fn higher_layers_paint_over_lower_ones() {
    let forest = shape(
        Material::ForestUnknown,
        FOREST,
        vec![rectangle(0.0, -400.0, 400.0, 0.0)],
    );
    let lake = shape(
        Material::Lake,
        LAKE,
        vec![rectangle(100.0, -300.0, 300.0, -100.0)],
    );
    // Deliberately hand the lake over first.
    let cells = rasterize(&[lake, forest]);
    assert_eq!(cells[WIDTH + 1], FOREST);
    assert_eq!(cells[50 * WIDTH + 50], LAKE);
}

/// Within a layer the smaller polygon paints last.
#[test]
fn within_a_layer_the_smaller_area_wins() {
    let wood = shape(
        Material::ForestUnknown,
        FOREST,
        vec![rectangle(0.0, -400.0, 400.0, 0.0)],
    );
    let clearing = shape(
        Material::Grass,
        GRASS,
        vec![rectangle(100.0, -300.0, 300.0, -100.0)],
    );
    let cells = rasterize(&[wood, clearing]);
    assert_eq!(cells[WIDTH + 1], FOREST);
    assert_eq!(cells[50 * WIDTH + 50], GRASS);
}

/// A hole is a ring inside a ring: the layer below shows through.
#[test]
fn a_hole_leaves_what_was_painted_below() {
    let zone = shape(
        Material::Residential,
        RESIDENTIAL,
        vec![rectangle(0.0, -400.0, 400.0, 0.0)],
    );
    let wood_with_hole = shape(
        Material::ForestUnknown,
        FOREST,
        vec![
            rectangle(0.0, -400.0, 400.0, 0.0),
            rectangle(100.0, -300.0, 300.0, -100.0),
        ],
    );
    let cells = rasterize(&[zone, wood_with_hole]);
    assert_eq!(cells[WIDTH + 1], FOREST);
    assert_eq!(
        cells[50 * WIDTH + 50],
        RESIDENTIAL,
        "the hole shows the layer below"
    );
}

/// Tiles the paint never reaches hold nothing.
#[test]
fn untouched_tiles_are_absent() {
    let cells = rasterize(&[shape(
        Material::Lake,
        LAKE,
        vec![rectangle(0.0, -40.0, 40.0, 0.0)],
    )]);
    assert!(cut_painted(&cells, WIDTH, ROWS, 0).is_some());
    assert!(
        cut_painted(&cells, WIDTH, ROWS, 1).is_none(),
        "the second tile holds nothing and should not exist"
    );
}

#[test]
fn an_unpaired_crossing_paints_nothing() {
    let mut cells = vec![0u32; 8];
    let odd = vec![
        Cut { row: 0, column: 1 },
        Cut { row: 0, column: 3 },
        Cut { row: 0, column: 5 },
    ];
    paint_all(&mut cells, 8, 1, &vec![odd], &vec![7], &vec![0]);
    assert_eq!(cells, vec![0, 7, 7, 0, 0, 0, 0, 0]);
    let wide = vec![Cut { row: 0, column: -9 }, Cut { row: 0, column: 99 }];
    paint_all(&mut cells, 8, 1, &vec![wide], &vec![5], &vec![0]);
    assert_eq!(cells, vec![5; 8]);
}

#[test]
fn a_band_cut_into_tiles_goes_back_together() {
    // A tile and a bit across, a bit of a tile down.
    let (width, rows) = (600usize, 3usize);
    let cells: Vec<u32> = (0..(width * rows) as u32).map(|i| i + 1).collect();
    let mut back = vec![0u32; width * rows];
    for column in 0..2 {
        let tile = cut_painted(&cells, width, rows, column).expect("holds ground");
        place_tile(&mut back, width, rows, column, &tile);
    }
    assert_eq!(back, cells);
    let tile = cut_tile(&cells, width, rows, 1, 0);
    assert_eq!(tile[0], cells[512]);
    assert_eq!(tile[87], cells[599]);
    assert_eq!(tile[88], 0, "east of the band");
    assert_eq!(tile[512], cells[600 + 512]);
    assert_eq!(tile[3 * 512], 0, "south of the band");
}

#[test]
fn tiles_are_listed_row_by_row() {
    let (first, across, down) = tile_range(Tile { x: -1, y: 4 }, Tile { x: 1, y: 5 });
    assert_eq!((first, across, down), (Tile { x: -1, y: 4 }, 3, 2));
    let tiles = tiles_of(first, across, down);
    assert_eq!(tiles.len(), 6);
    assert_eq!(tiles[0], Tile { x: -1, y: 4 });
    assert_eq!(tiles[4], Tile { x: 0, y: 5 });
}

#[test]
fn a_rectangle_is_pasted_together_from_the_tiles_it_touches() {
    // Four texels across the corner where four tiles meet.
    let mut out = vec![0u32; 16];
    for (tile, mark) in [((0, 0), 1u32), ((512, 0), 2), ((0, 512), 3), ((512, 512), 4)] {
        let values: Vec<u32> = (0..TILE_TEXELS as u32).map(|i| i * 10 + mark).collect();
        paste(&mut out, (510, 510), (4, 4), tile, &values);
    }
    let at = |x: u32, y: u32, mark: u32| (y * 512 + x) * 10 + mark;
    assert_eq!(out[0], at(510, 510, 1));
    assert_eq!(out[2], at(0, 510, 2));
    assert_eq!(out[8], at(510, 0, 3));
    assert_eq!(out[15], at(1, 1, 4));
    // A tile it does not touch leaves it alone.
    let before = out.clone();
    paste(&mut out, (510, 510), (4, 4), (2048, 0), &vec![9; TILE_TEXELS]);
    assert_eq!(out, before);
}

/// A coarse tile hangs off the edge of the raster. What is behind the overhang is
/// nothing, and it has to read as nothing.
#[test]
fn ground_outside_the_raster_is_written_as_a_hole() {
    // Level 3 of a raster of 2048 by 1024 metres, its corner on a tile's.
    let frame = Frame { column: -1_990_656 / 8, row: -536_576 / 8, width: 256, height: 128 };
    let first = Tile { x: -486, y: -131 };
    assert_eq!((tile_offset(first.x, frame.column), tile_offset(first.y, frame.row)), (0, 0));
    let (columns, rows) = inside(frame, first).expect("the tile holds raster");
    assert!(columns.from == 0 && rows.from == 0, "the first texel must be inside");
    assert!(columns.to < SIDE, "the last texel must be outside");
    let mut samples = vec![1.0f32; TILE_TEXELS];
    punch_out(frame, first, &mut samples, -32767.0);
    assert_eq!(samples[0], 1.0);
    assert_eq!(samples[SIDE - 1], -32767.0);
}

#[test]
fn ground_outside_the_raster_is_punched_out() {
    // A raster of 700 by 100 texels whose corner lies ten texels into a tile.
    let frame = Frame { column: 10, row: 0, width: 700, height: 100 };
    assert_eq!(tile_offset(1, 10), 502);
    assert_eq!(
        inside(frame, Tile { x: 0, y: 0 }),
        Some((Stretch { from: 10, to: 512 }, Stretch { from: 0, to: 100 }))
    );
    assert_eq!(
        inside(frame, Tile { x: 1, y: 0 }),
        Some((Stretch { from: 0, to: 198 }, Stretch { from: 0, to: 100 }))
    );
    assert_eq!(inside(frame, Tile { x: 2, y: 0 }), None);
    assert_eq!(inside(frame, Tile { x: 0, y: 1 }), None);

    let mut samples = vec![1.5f32; TILE_TEXELS];
    punch_out(frame, Tile { x: 0, y: 0 }, &mut samples, -32767.0);
    assert_eq!(samples[9], -32767.0);
    assert_eq!(samples[10], 1.5);
    assert_eq!(samples[99 * 512 + 511], 1.5);
    assert_eq!(samples[100 * 512 + 20], -32767.0);
    punch_out(frame, Tile { x: 7, y: 7 }, &mut samples, 0.0);
    assert!(samples.iter().all(|sample| *sample == 0.0));
}

#[test]
fn a_range_of_tiles_is_built_in_blocks() {
    let first = Tile { x: -3, y: 10 };
    let all = blocks(first, 6, 5);
    assert_eq!(all.len(), 4);
    assert_eq!(all[0], Block { corner: first, across: 4, down: 4 });
    assert_eq!(all[1], Block { corner: Tile { x: 1, y: 10 }, across: 2, down: 4 });
    assert_eq!(all[3], Block { corner: Tile { x: 1, y: 14 }, across: 2, down: 1 });
    let tiles: u32 = all.iter().map(|block| block.across * block.down).sum();
    assert_eq!(tiles, 30);

    let cells: Vec<u32> = (0..2 * TILE_TEXELS as u32).collect();
    let tile = cut_block(&cells, 2, 1, 1, 0);
    assert_eq!(tile[0], 512);
    assert_eq!(tile[512], 1024 + 512);
}

#[test]
fn levels_line_up_where_one_is_a_whole_multiple_of_the_other() {
    assert!(lines_up((-8, 16), (-4, 8), 2));
    assert!(!lines_up((-8, 17), (-4, 8), 2));
    assert!(lines_up((i64::MIN, 0), (i64::MIN, 0), 1));
    assert!(!lines_up((0, 0), (i64::MAX, 0), 2));
    assert_eq!(tile_under(Tile { x: -2, y: 3 }, 4, 1, 2), Some(Tile { x: -7, y: 14 }));
    assert_eq!(tile_under(Tile { x: i32::MAX, y: 0 }, 2, 0, 0), None);
}

#[test]
fn ground_is_ranked_by_how_much_of_it_there_is() {
    let mut census = Census::new();
    census.count(&vec![0, LAKE, FOREST, LAKE]);
    census.count(&vec![FOREST, 0, 0, GRASS]);
    assert_eq!(census.mapped(), 5);
    assert_eq!(
        census.ranked(),
        vec![(0, 3), (LAKE, 2), (FOREST, 2), (GRASS, 1)]
    );
    assert!(Census::new().ranked().is_empty());
    assert_eq!(Census::new().mapped(), 0);
}
