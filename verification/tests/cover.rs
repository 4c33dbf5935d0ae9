use terrain::cover;
use terrain::cover::{material, Reading};
use terrain::keys::ordered;
use terrain::material::Material;
use terrain::noise::gradient_index;

fn key(value: f32) -> u32 {
    ordered(value.to_bits())
}

fn lerp(a: f32, b: f32, t: f32) -> f32 {
    a + (b - a) * t
}

fn smoothstep(low: f32, high: f32, at: f32) -> f32 {
    let t = ((at - low) / (high - low)).clamp(0.0, 1.0);
    t * t * (3.0 - 2.0 * t)
}

/// The gradient a lattice point draws, dotted with the offset to the sample.
fn corner(x: i32, y: i32, dx: f32, dy: f32, seed: u32) -> f32 {
    let angle = gradient_index(x, y, seed) as f32 * std::f32::consts::PI / 8.0;
    angle.cos() * dx + angle.sin() * dy
}

fn gradient(x: f32, y: f32, seed: u32) -> f32 {
    let fade = |t: f32| t * t * t * (t * (t * 6.0 - 15.0) + 10.0);
    let (x0, y0) = (x.floor(), y.floor());
    let (fx, fy) = (x - x0, y - y0);
    let (ix, iy) = (x0 as i32, y0 as i32);
    let bottom = lerp(
        corner(ix, iy, fx, fy, seed),
        corner(ix + 1, iy, fx - 1.0, fy, seed),
        fade(fx),
    );
    let top = lerp(
        corner(ix, iy + 1, fx, fy - 1.0, seed),
        corner(ix + 1, iy + 1, fx - 1.0, fy - 1.0, seed),
        fade(fx),
    );
    lerp(bottom, top, fade(fy)) * std::f32::consts::SQRT_2
}

/// Octaves of gradient noise, none finer than `finest`.
fn fbm(x: f32, y: f32, seed: u32, wavelength: f32, octaves: u32, finest: f32) -> f32 {
    let (mut at, mut amplitude, mut sum, mut total) = (wavelength, 1.0f32, 0.0f32, 0.0f32);
    for octave in 0..octaves {
        total += amplitude;
        if at >= finest {
            let octave_seed = seed ^ octave.wrapping_mul(0x51ed_270b);
            sum += gradient(x / at, y / at, octave_seed) * amplitude;
        }
        at /= 2.017;
        amplitude *= 0.5;
    }
    sum / total
}

#[derive(Clone, Copy, Debug)]
struct Sample {
    height: f32,
    hardness: f32,
    flow: f32,
    deposit: f32,
    filled: f32,
    slope: f32,
    aspect: [f32; 2],
}

#[derive(Clone, Copy)]
struct Relief {
    valley_metres: f32,
    peak_metres: f32,
}

#[derive(Clone, Copy)]
struct Ground {
    steepness: f32,
    rockiness: f32,
    filling: f32,
    lake: f32,
    channel: f32,
}

fn ground_of(sample: &Sample, texel_metres: f32, cell_metres: f32) -> Ground {
    let steepness = smoothstep(0.25, 0.9, sample.slope);
    let lake = smoothstep(0.4, 2.5, (sample.filled - sample.height).max(0.0));
    let channel = smoothstep(11.5, 15.5, sample.flow)
        * (1.0 - lake)
        * smoothstep(0.5, 1.5, 2.5 * cell_metres / (2.0 * texel_metres));
    Ground {
        steepness,
        rockiness: steepness * (0.35 + 0.65 * sample.hardness),
        filling: smoothstep(0.0, 6.0, sample.deposit),
        lake,
        channel,
    }
}

fn reading(sample: &Sample, ground: &Ground, x: f32, y: f32, texel: f32, seed: u32, relief: Relief) -> Reading {
    let wobble = fbm(x, y, seed ^ 0x4b19_c2e7, 2600.0, 3, 0.0);
    let mottle = fbm(x, y, seed ^ 0xa71f_63b9, 140.0, 4, 2.0 * texel);
    let sun = sample.aspect[1] * ground.steepness;
    let base = relief.valley_metres;
    let span = relief.peak_metres - relief.valley_metres;
    let treeline = base + span * (0.52 + wobble * 0.05 + sun * 0.063);
    let snowline = base + span * (0.76 + wobble * 0.05 * 0.6 + sun * 0.063 * 1.2);
    let rock_band = span * 0.079;
    let above = smoothstep(treeline - rock_band, treeline + rock_band, sample.height);
    Reading {
        lake: key(ground.lake),
        channel: key(ground.channel),
        flow: key(sample.flow),
        slope: key(sample.slope),
        steepness: key(ground.steepness),
        filling: key(ground.filling),
        hardness: key(sample.hardness),
        rockiness: key(ground.rockiness),
        bare_from: key(lerp(0.86, 0.42, above) + mottle * 0.10),
        height: key(sample.height),
        treeline: key(treeline),
        snow_from: key(snowline + mottle * span * 0.05),
        barrenness: key(smoothstep(treeline, snowline, sample.height + mottle * span * 0.05)),
        thinning: key(smoothstep(
            treeline - span * 0.137,
            treeline,
            sample.height + mottle * span * 0.05 * 0.75,
        )),
        band: key(((sample.height - base) / span.max(1.0)).clamp(0.0, 1.0)),
        low_from: key(0.30 + mottle * 0.08),
        south: key(sample.aspect[1]),
        mottle: key(mottle),
    }
}

fn relief() -> Relief {
    Relief {
        valley_metres: 700.0,
        peak_metres: 2600.0,
    }
}

fn classify(sample: &Sample) -> Material {
    let ground = ground_of(sample, 4.0, 16.0);
    material(&reading(sample, &ground, 1234.0, 5678.0, 4.0, 9, relief()))
}

/// Dry ground at a height and a slope, and nothing else going on.
fn dry(height: f32, slope: f32) -> Sample {
    Sample {
        height,
        hardness: 0.5,
        flow: 2.0,
        deposit: 0.0,
        filled: height,
        slope,
        aspect: [0.0, 0.0],
    }
}

fn is_forest(material: Material) -> bool {
    matches!(
        material,
        Material::ForestBroadleaved
            | Material::ForestMixed
            | Material::ForestNeedleleaved
            | Material::ForestUnknown
    )
}

/// Every combination of channel values has to name a material.
#[test]
fn every_landscape_is_classified_as_something() {
    let mut seen: Vec<Material> = Vec::new();
    for height in [700.0f32, 1100.0, 1500.0, 1900.0, 2300.0, 2600.0] {
        for slope in [0.0f32, 0.05, 0.2, 0.5, 1.0, 2.0] {
            for flow in [0.0f32, 6.0, 10.0, 13.0, 17.0] {
                for deposit in [-8.0f32, 0.0, 2.0, 10.0] {
                    for hardness in [0.0f32, 0.5, 1.0] {
                        for depth in [0.0f32, 0.2, 5.0] {
                            let sample = Sample {
                                height,
                                hardness,
                                flow,
                                deposit,
                                filled: height + depth,
                                slope,
                                aspect: [0.6, -0.8],
                            };
                            let material = classify(&sample);
                            assert_ne!(material, Material::Null, "nothing classified {sample:?}");
                            if !seen.contains(&material) {
                                seen.push(material);
                            }
                        }
                    }
                }
            }
        }
    }
    assert!(
        seen.len() >= 10,
        "only {} materials ever came out; the classifier has dead branches",
        seen.len()
    );
}

/// Nobody built anything in this world.
#[test]
fn nothing_built_by_anybody_is_ever_painted() {
    for height in [700.0f32, 1400.0, 2100.0, 2600.0] {
        for slope in [0.0f32, 0.1, 0.4, 1.2, 3.0] {
            for flow in [0.0f32, 8.0, 12.0, 16.0, 20.0] {
                for deposit in [-20.0f32, 0.0, 30.0] {
                    for depth in [0.0f32, 1.0, 40.0] {
                        for aspect in [[0.0f32, 1.0], [0.0, -1.0], [1.0, 0.0]] {
                            let sample = Sample {
                                height,
                                hardness: 0.4,
                                flow,
                                deposit,
                                filled: height + depth,
                                slope,
                                aspect,
                            };
                            let cover = classify(&sample);
                            assert!(
                                matches!(
                                    cover,
                                    Material::Lake
                                        | Material::River
                                        | Material::Stream
                                        | Material::Bog
                                        | Material::Marsh
                                        | Material::Glacier
                                        | Material::BareRock
                                        | Material::Scree
                                        | Material::Fell
                                        | Material::Heath
                                        | Material::Grassland
                                        | Material::Shingle
                                        | Material::Sand
                                        | Material::BareEarth
                                        | Material::Meadow
                                        | Material::Scrub
                                        | Material::ForestBroadleaved
                                        | Material::ForestMixed
                                        | Material::ForestNeedleleaved
                                ),
                                "{cover:?} is something built"
                            );
                        }
                    }
                }
            }
        }
    }
}

/// The bands that make a mountain look like a mountain: forest at the bottom,
/// then bare alpine ground, then ice.
#[test]
fn cover_changes_with_height_in_the_order_a_mountain_does() {
    let low = classify(&dry(900.0, 0.2));
    assert!(is_forest(low), "{low:?} is not forest");

    let high = classify(&dry(2100.0, 0.2));
    assert!(
        matches!(high, Material::Fell | Material::Heath | Material::Grassland),
        "{high:?} is not alpine ground"
    );

    let top = classify(&dry(2580.0, 0.05));
    assert_eq!(top, Material::Glacier, "the summit is {top:?}");
}

#[test]
fn standing_water_is_a_lake_and_a_trunk_drainage_is_a_river() {
    let lake = classify(&Sample {
        filled: 1210.0,
        ..dry(1200.0, 0.01)
    });
    assert_eq!(lake, Material::Lake);

    let river = classify(&Sample {
        flow: 18.0,
        ..dry(1200.0, 0.02)
    });
    assert_eq!(river, Material::River);
}

/// A cliff is bare at any altitude.
#[test]
fn a_cliff_is_bare_rock_wherever_it_is() {
    for height in [800.0f32, 1400.0, 2000.0, 2500.0] {
        let cliff = classify(&Sample {
            hardness: 1.0,
            ..dry(height, 2.0)
        });
        assert_eq!(cliff, Material::BareRock, "at {height} m");
    }
}

/// Loose material on a steep slope is talus.
#[test]
fn loose_material_on_a_steep_slope_is_scree() {
    let talus = classify(&Sample {
        hardness: 0.1,
        deposit: 4.0,
        ..dry(2000.0, 0.55)
    });
    assert_eq!(talus, Material::Scree);
}

/// The lines have to wander, or they draw as contours round every mountain.
#[test]
fn the_treeline_is_not_a_contour_line() {
    let sample = dry(1870.0, 0.25);
    let ground = ground_of(&sample, 4.0, 16.0);
    let mut kinds: Vec<Material> = Vec::new();
    for step in 0..400 {
        let x = step as f32 * 60.0;
        let cover = material(&reading(&sample, &ground, x, 3000.0, 4.0, 9, relief()));
        if !kinds.contains(&cover) {
            kinds.push(cover);
        }
    }
    assert!(
        kinds.len() > 1,
        "the same material all the way along a line at the treeline"
    );
}

/// The relief scales the landscape, so the lines have to scale with it.
#[test]
fn the_lines_follow_the_relief_they_were_given() {
    let small = Relief {
        valley_metres: 0.0,
        peak_metres: 400.0,
    };
    let sample = dry(100.0, 0.2);
    let ground = ground_of(&sample, 4.0, 16.0);
    let low = material(&reading(&sample, &ground, 100.0, 100.0, 4.0, 9, small));
    assert!(is_forest(low), "{low:?} is not forest near the valley");

    let high = dry(380.0, 0.2);
    let alpine = material(&reading(&high, &ground, 100.0, 100.0, 4.0, 9, small));
    assert!(!is_forest(alpine), "{alpine:?} is forest above the line");
}

/// Every threshold is the key of the number it stands for.
#[test]
fn the_thresholds_are_the_numbers_they_stand_for() {
    let thresholds = [
        (cover::STANDING, 0.5),
        (cover::SHORE, 0.12),
        (cover::RIVER, 0.62),
        (cover::STREAM, 0.28),
        (cover::GRAVEL_CHANNEL, 0.04),
        (cover::GRAVEL_FILLING, 0.45),
        (cover::BOGGY_SLOPE, 0.035),
        (cover::BOGGY_FLOW, 11.5 - 2.5),
        (cover::BOGGY_FILLING, 0.25),
        (cover::ICE_STEEPNESS, 0.45),
        (cover::SCREE_STEEPNESS, 0.30),
        (cover::SCREE_FILLING, 0.22),
        (cover::BARREN, 0.55),
        (cover::HEATH_STEEPNESS, 0.25),
        (cover::HEATH_HARDNESS, 0.6),
        (cover::FLOOR_SLOPE, 0.09),
        (cover::FLOOR_BAND, 0.35),
        (cover::OUTWASH_FILLING, 0.7),
        (cover::OUTWASH_MOTTLE, 0.45),
        (cover::BANK_FILLING, 0.1),
        (cover::BANK_SLOPE, 0.12),
        (cover::BANK_MOTTLE, -0.5),
        (cover::MEADOW_MOTTLE, 0.15),
        (cover::SCRUB, 0.6),
        (cover::WET_FLOW, 11.5 - 3.5),
        (cover::GENTLE, 0.3),
        (cover::SUNNY, 0.25),
        (cover::MIXED_MOTTLE, 0.25),
    ];
    for (threshold, number) in thresholds {
        assert_eq!(threshold, key(number), "{number}");
    }
}

/// A reading on which no rule but the last holds.
fn plain() -> Reading {
    Reading {
        lake: key(0.0),
        channel: key(0.0),
        flow: key(2.0),
        slope: key(0.2),
        steepness: key(0.1),
        filling: key(0.2),
        hardness: key(0.5),
        rockiness: key(0.1),
        bare_from: key(0.8),
        height: key(900.0),
        treeline: key(1700.0),
        snow_from: key(2200.0),
        barrenness: key(0.0),
        thinning: key(0.0),
        band: key(0.4),
        low_from: key(0.3),
        south: key(0.0),
        mottle: key(0.0),
    }
}

#[test]
fn every_rule_has_its_say() {
    let of = |change: &dyn Fn(&mut Reading)| {
        let mut reading = plain();
        change(&mut reading);
        material(&reading)
    };
    assert_eq!(of(&|_| {}), Material::ForestNeedleleaved);
    assert_eq!(of(&|r| r.channel = key(0.3)), Material::Stream);
    assert_eq!(of(&|r| r.lake = key(0.2)), Material::Marsh);
    assert_eq!(
        of(&|r| {
            r.lake = key(0.2);
            r.height = key(1800.0);
        }),
        Material::Bog
    );
    assert_eq!(of(&|r| r.thinning = key(0.7)), Material::Scrub);
    assert_eq!(
        of(&|r| {
            r.band = key(0.1);
            r.flow = key(8.5);
        }),
        Material::ForestBroadleaved
    );
    assert_eq!(
        of(&|r| {
            r.band = key(0.1);
            r.south = key(0.5);
        }),
        Material::ForestMixed
    );
    let floor = |change: &dyn Fn(&mut Reading)| {
        of(&|r| {
            r.slope = key(0.05);
            r.band = key(0.1);
            change(r);
        })
    };
    assert_eq!(floor(&|_| {}), Material::Grassland);
    assert_eq!(floor(&|r| r.mottle = key(0.2)), Material::Meadow);
    assert_eq!(
        floor(&|r| {
            r.filling = key(0.8);
            r.mottle = key(0.5);
        }),
        Material::Sand
    );
    assert_eq!(
        floor(&|r| {
            r.filling = key(0.5);
            r.channel = key(0.1);
        }),
        Material::Shingle
    );
    let alpine = |change: &dyn Fn(&mut Reading)| {
        of(&|r| {
            r.height = key(1800.0);
            change(r);
        })
    };
    assert_eq!(alpine(&|_| {}), Material::Grassland);
    assert_eq!(alpine(&|r| r.hardness = key(0.7)), Material::Heath);
    assert_eq!(alpine(&|r| r.barrenness = key(0.6)), Material::Fell);
    assert_eq!(alpine(&|r| r.height = key(2300.0)), Material::Glacier);
}
