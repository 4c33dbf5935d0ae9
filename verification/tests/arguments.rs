use terrain::arguments::{origin_parts, parse_extent, step_of, validate, wants, Levels, Request};
use terrain::products::{copies, level_of, select};
use terrain::text::{decimal, parse_number, split_once, trim, NumberError};

/// Parses `easting,northing`.
fn parse_origin(text: &str) -> Result<[f64; 2], String> {
    let (easting, northing) = origin_parts(text)?;
    let parse = |part: &str| {
        trim(part)
            .parse::<f64>()
            .map_err(|error| format!("`{part}` is not a number: {error}"))
    };
    Ok([parse(easting)?, parse(northing)?])
}

/// The request a run without arguments makes.
fn default_request() -> Request<'static> {
    Request {
        max_level: 8,
        extent: [49152, 57344],
        origin: ["-1990656", "536576"],
        on_lattice: [true, true],
        peak: "2600",
        valley: "700",
        rises: true,
        cell: "16",
        coarse: true,
    }
}

#[test]
fn the_extent_and_origin_parsers_accept_what_the_help_promises() {
    assert_eq!(parse_extent("49152x57344").expect("valid"), [49152, 57344]);
    assert_eq!(parse_extent("512X512").expect("valid"), [512, 512]);
    assert!(parse_extent("512").is_err());
    assert!(parse_extent("0x512").is_err());
    assert_eq!(
        parse_origin("-1990656,536576").expect("valid"),
        [-1990656.0, 536576.0]
    );
    assert!(parse_origin("-1990656").is_err());
}

#[test]
fn an_extent_that_cannot_be_read_says_why() {
    assert_eq!(
        parse_extent("512"),
        Err("expected `WIDTHxHEIGHT`, got `512`".to_string())
    );
    assert_eq!(
        parse_extent(" x512"),
        Err("` ` is not a whole number of texels: cannot parse integer from empty string".to_string())
    );
    assert_eq!(
        parse_extent("512x-3"),
        Err("`-3` is not a whole number of texels: invalid digit found in string".to_string())
    );
    assert_eq!(
        parse_extent("512x4294967296"),
        Err("`4294967296` is not a whole number of texels: number too large to fit in target type".to_string())
    );
    assert_eq!(
        parse_extent("512x0"),
        Err("`512x0` covers no ground".to_string())
    );
    assert_eq!(parse_extent(" 512 x\t+256\n"), Ok([512, 256]));
    // What is said of a number is what the standard parser says of it.
    for text in ["", "+", "-", "12a", "a", "99999999999", "4294967295", "007", "+5", "1 2"] {
        match (parse_number(text), text.parse::<u32>()) {
            (Ok(mine), Ok(theirs)) => assert_eq!(mine, theirs, "{text}"),
            (Err(_), Err(error)) => assert_eq!(
                parse_extent(&format!("{text}x1")),
                Err(format!("`{text}` is not a whole number of texels: {error}"))
            ),
            (mine, theirs) => panic!("{text}: {mine:?} against {theirs:?}"),
        }
    }
}

/// An extent that does not divide into the coarsest level is refused before
/// anything expensive happens.
#[test]
fn an_extent_that_does_not_divide_into_the_levels_is_refused_up_front() {
    let request = Request {
        extent: [49153, 57344],
        ..default_request()
    };
    let message = validate(&request).expect_err("should refuse");
    assert!(message.contains("does not divide"), "got {message}");
    assert_eq!(
        message,
        "an extent of 49153 x 57344 texels does not divide into level 8 texels of 256 m"
    );
}

#[test]
fn an_origin_off_the_coarsest_lattice_is_refused_up_front() {
    let request = Request {
        origin: ["-1990657", "536576"],
        on_lattice: [(-1990657.0f64 / 256.0).fract() == 0.0, true],
        ..default_request()
    };
    let message = validate(&request).expect_err("should refuse");
    assert!(message.contains("whole number of level"), "got {message}");
    assert_eq!(
        message,
        "an origin easting of -1990657 m is not a whole number of level-8 texels of 256 m"
    );
    let message = validate(&Request {
        on_lattice: [true, false],
        ..default_request()
    })
    .expect_err("should refuse");
    assert!(message.starts_with("an origin northing of 536576 m"), "got {message}");
}

/// The defaults have to be a legal grid on their own: this is the configuration
/// almost every run will use.
#[test]
fn the_default_arguments_describe_a_legal_grid() {
    validate(&default_request()).expect("the defaults must be legal");
    let elevation = Levels::spanning(0, 8);
    let materials = Levels::spanning(2, 8);
    assert_eq!((elevation.level_count, materials.level_count), (9, 7));
    assert_eq!(materials.max_level(), elevation.max_level());
}

#[test]
fn what_nothing_could_open_is_refused() {
    assert_eq!(
        validate(&Request { max_level: 24, ..default_request() }),
        Err("a max level of 24 is not a level anything could store".to_string())
    );
    assert_eq!(
        validate(&Request { rises: false, ..default_request() }),
        Err("a peak at 2600 m is not above a valley floor at 700 m".to_string())
    );
    assert_eq!(
        validate(&Request { coarse: false, cell: "0.5", ..default_request() }),
        Err("an erosion grid of 0.5 m is finer than the terrain it shapes".to_string())
    );
    assert_eq!(step_of(23), 1 << 23);
}

#[test]
fn asking_for_one_product_leaves_the_others_out() {
    let only_materials = vec!["materials".to_string()];
    assert!(wants(&only_materials, "materials"));
    assert!(!wants(&only_materials, "dtm"));
    assert!(!wants(&only_materials, "dtm-max"));
    assert!(wants(&vec![], "dtm"), "no filter means everything");
}

#[test]
fn every_product_of_a_run_ends_at_the_same_level() {
    let elevation = Levels::spanning(0, 8);
    let materials = Levels::spanning(2, 8);
    assert_eq!(elevation.level_count, 9);
    assert_eq!(materials.level_count, 7);
    assert_eq!(materials.max_level(), elevation.max_level());
    // A copy from a coarser level up ends where its source does.
    let copy = elevation.from_level(3).expect("stored");
    assert_eq!((copy.base_level, copy.level_count), (3, 6));
    assert_eq!(materials.from_level(1), Some(materials));
    assert_eq!(elevation.from_level(9), None);
}

/// What a product's description is called.
fn manifest_name() -> String {
    ["manifest", "json"].join(".")
}

#[test]
fn a_paths_level_is_the_directory_it_sits_in() {
    assert_eq!(level_of("03/-239_-122.tif"), Some(3));
    assert_eq!(level_of("00/0_0.tif"), Some(0));
    assert_eq!(level_of("12/1_1.tif"), Some(12));
    // Anything that is not a level directory is kept whatever the base is.
    assert_eq!(level_of(&manifest_name()), None);
    assert_eq!(level_of("notes/03/x.tif"), None);
}

#[test]
fn a_copy_leaves_the_fine_levels_and_the_manifest_behind() {
    let manifest = manifest_name();
    assert!(!copies("01/0_0.tif", 2, &manifest));
    assert!(copies("02/0_0.tif", 2, &manifest));
    assert!(copies("notes.txt", 2, &manifest));
    assert!(!copies(&manifest, 0, &manifest));
    assert_eq!(level_of(""), None);
    assert_eq!(level_of("/03/x.tif"), None);
}

#[test]
fn products_come_in_the_order_of_their_names() {
    let names: Vec<String> = ["dtm-max", "albedo", "dtm", "materials"]
        .iter()
        .map(|name| name.to_string())
        .collect();
    assert_eq!(select(&names, &vec![]), vec![1, 2, 0, 3]);
    assert_eq!(select(&names, &vec!["materials".to_string(), "dtm".to_string()]), vec![2, 3]);
    assert_eq!(select(&names, &vec!["dsm".to_string()]), Vec::<usize>::new());
    let mut sorted = names.clone();
    sorted.sort();
    let picked: Vec<String> = select(&names, &vec![]).iter().map(|at| names[*at].clone()).collect();
    assert_eq!(picked, sorted);
}

#[test]
fn texts_are_cut_and_numbers_written() {
    assert_eq!(trim(" \u{a0}a b\t\n"), "a b");
    assert_eq!(trim("  "), "");
    assert_eq!(split_once("3x4X5", 'x', 'X'), Some(("3", "4X5")));
    assert_eq!(split_once("34", 'x', 'X'), None);
    for number in [0, 7, 10, 4096, u32::MAX] {
        assert_eq!(decimal(number), number.to_string());
        assert_eq!(parse_number(&decimal(number)), Ok(number));
    }
    assert_eq!(parse_number("x"), Err(NumberError::InvalidDigit));
}
