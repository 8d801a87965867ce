use region_render::keys::{KeyError, TileDetails};

#[test]
fn reads_a_region_key() {
    let details = TileDetails::parse("worlds/my-world/overworld/r.3.-7.mca").unwrap();
    assert_eq!(details.world, "my-world");
    assert_eq!(details.dimension, "overworld");
    assert_eq!(details.x, 3);
    assert_eq!(details.z, -7);
}

#[test]
fn reads_names_of_every_kind_of_character() {
    let details = TileDetails::parse("worlds/aZ09_-/-_-/r.0.0.mca").unwrap();
    assert_eq!(details.world, "aZ09_-");
    assert_eq!(details.dimension, "-_-");
    assert_eq!((details.x, details.z), (0, 0));
}

#[test]
fn reads_leading_zeros_and_negative_zero() {
    let details = TileDetails::parse("worlds/w/d/r.007.-0.mca").unwrap();
    assert_eq!((details.x, details.z), (7, 0));
    assert_eq!(details.tile_key(), "anvil-tiles/w/d/r.7.0.png");
}

#[test]
fn reads_the_largest_and_smallest_coordinates() {
    let key = "worlds/w/d/r.9223372036854775807.-9223372036854775808.mca";
    let details = TileDetails::parse(key).unwrap();
    assert_eq!(details.x, i64::MAX);
    assert_eq!(details.z, i64::MIN);
    assert_eq!(
        details.tile_key(),
        "anvil-tiles/w/d/r.9223372036854775807.-9223372036854775808.png"
    );
    assert_eq!(details.north_region_key(), None);
}

#[test]
fn tile_key_of_a_region() {
    let details = TileDetails::parse("worlds/my-world/overworld/r.3.-7.mca").unwrap();
    assert_eq!(details.tile_key(), "anvil-tiles/my-world/overworld/r.3.-7.png");
}

#[test]
fn north_region_is_one_row_up() {
    let details = TileDetails::parse("worlds/my-world/overworld/r.3.-7.mca").unwrap();
    assert_eq!(
        details.north_region_key(),
        Some("worlds/my-world/overworld/r.3.-8.mca".to_string())
    );
    let origin = TileDetails { world: "w", dimension: "nether", x: -10, z: 0 };
    assert_eq!(origin.north_region_key(), Some("worlds/w/nether/r.-10.-1.mca".to_string()));
    let ten = TileDetails { world: "w", dimension: "d", x: 100, z: 10 };
    assert_eq!(ten.north_region_key(), Some("worlds/w/d/r.100.9.mca".to_string()));
}

#[test]
fn north_region_key_reads_back() {
    let details = TileDetails { world: "w_1", dimension: "the-end", x: 12345, z: -99 };
    let north = details.north_region_key().unwrap();
    let read = TileDetails::parse(&north).unwrap();
    assert_eq!(read.world, "w_1");
    assert_eq!(read.dimension, "the-end");
    assert_eq!((read.x, read.z), (12345, -100));
}

const NOT_REGION_KEYS: [&str; 24] = [
    "",
    "worlds/",
    "worlds/w/d/r.1.2.mcb",
    "worlds/w/d/r.1.2.mc",
    "worlds/w/d/r.1.2.mca ",
    "worlds/w/d/r.1.2.mca\n",
    " worlds/w/d/r.1.2.mca",
    "world/w/d/r.1.2.mca",
    "Worlds/w/d/r.1.2.mca",
    "worlds//d/r.1.2.mca",
    "worlds/w//r.1.2.mca",
    "worlds/w/d/r..2.mca",
    "worlds/w/d/r.1..mca",
    "worlds/w/d/r.1.mca",
    "worlds/w/d/e/r.1.2.mca",
    "worlds/w/r.1.2.mca",
    "worlds/w/d/x.1.2.mca",
    "worlds/w/d/r.+1.2.mca",
    "worlds/w/d/r.1.2.3.mca",
    "worlds/w/d/r.1.2.mca.mca",
    "worlds/w d/d/r.1.2.mca",
    "worlds/w\u{e9}/d/r.1.2.mca",
    "worlds/w/d/r.1.\u{662}.mca",
    "anvil-tiles/w/d/r.1.2.png",
];

#[test]
fn refuses_keys_of_another_form() {
    for key in NOT_REGION_KEYS {
        assert!(matches!(TileDetails::parse(key), Err(KeyError::NotARegionKey)), "{:?}", key);
    }
}

const BAD_COORDINATES: [&str; 8] = [
    "worlds/w/d/r.-.3.mca",
    "worlds/w/d/r.3.-.mca",
    "worlds/w/d/r.--1.3.mca",
    "worlds/w/d/r.1-2.3.mca",
    "worlds/w/d/r.1.2-.mca",
    "worlds/w/d/r.9223372036854775808.0.mca",
    "worlds/w/d/r.0.-9223372036854775809.mca",
    "worlds/w/d/r.1.99999999999999999999999999.mca",
];

#[test]
fn refuses_coordinates_that_are_no_integers() {
    for key in BAD_COORDINATES {
        assert!(matches!(TileDetails::parse(key), Err(KeyError::BadCoordinate)), "{:?}", key);
    }
}

#[test]
fn agrees_with_the_pattern_of_region_keys() {
    let pattern = regex::Regex::new(
        r"^worlds/(?P<world>[\-0-9A-Za-z_]+)/(?P<dimension>[\-0-9A-Za-z_]+)/r\.(?P<x>[\-0-9]+)\.(?P<z>[\-0-9]+)\.mca$",
    )
    .unwrap();
    let good = [
        "worlds/my-world/overworld/r.3.-7.mca",
        "worlds/aZ09_-/-_-/r.0.0.mca",
        "worlds/w/d/r.007.-0.mca",
        "worlds/w/d/r.9223372036854775807.-9223372036854775808.mca",
        "worlds/1/2/r.-1.-1.mca",
    ];
    let keys = good.iter().chain(NOT_REGION_KEYS.iter()).chain(BAD_COORDINATES.iter());
    for key in keys {
        let read = TileDetails::parse(key);
        match pattern.captures(key) {
            None => assert!(matches!(read, Err(KeyError::NotARegionKey)), "{:?}", key),
            Some(found) => {
                let x = found.name("x").unwrap().as_str().parse::<i64>();
                let z = found.name("z").unwrap().as_str().parse::<i64>();
                match (x, z) {
                    (Ok(x), Ok(z)) => {
                        let details = read.unwrap();
                        assert_eq!(details.world, found.name("world").unwrap().as_str());
                        assert_eq!(details.dimension, found.name("dimension").unwrap().as_str());
                        assert_eq!((details.x, details.z), (x, z));
                    }
                    _ => assert!(matches!(read, Err(KeyError::BadCoordinate)), "{:?}", key),
                }
            }
        }
    }
}
