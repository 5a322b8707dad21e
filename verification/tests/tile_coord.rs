use vector_tile_core::path::parse_tile_path;
use vector_tile_core::TileCoord;

#[test]
fn test_tile_coord() {
    let coord = TileCoord::new(5, 10, 12);
    assert_eq!(coord.to_path(), "5/10/12.pbf");
}

#[test]
fn path_of_the_root_tile() {
    assert_eq!(TileCoord::new(0, 0, 0).to_path(), "0/0/0.pbf");
}

#[test]
fn path_with_the_largest_numbers() {
    let coord = TileCoord::new(255, u32::MAX, u32::MAX);
    assert_eq!(coord.to_path(), "255/4294967295/4294967295.pbf");
}

#[test]
fn path_reads_back_as_the_same_tile() {
    let samples = [
        TileCoord::new(0, 0, 0),
        TileCoord::new(1, 1, 0),
        TileCoord::new(5, 10, 12),
        TileCoord::new(14, 14552, 6451),
        TileCoord::new(30, 1_073_741_823, 1_073_741_823),
        TileCoord::new(255, u32::MAX, u32::MAX),
    ];
    for coord in samples {
        assert_eq!(parse_tile_path(&coord.to_path()), coord);
    }
}

#[test]
fn path_without_three_parts_is_the_root_tile() {
    assert_eq!(parse_tile_path(""), TileCoord::new(0, 0, 0));
    assert_eq!(parse_tile_path("5/10"), TileCoord::new(0, 0, 0));
    assert_eq!(parse_tile_path("5/10/12/7.pbf"), TileCoord::new(0, 0, 0));
    assert_eq!(parse_tile_path("no slashes here"), TileCoord::new(0, 0, 0));
}

#[test]
fn path_part_that_is_no_number_reads_as_zero() {
    assert_eq!(parse_tile_path("a/10/12.pbf"), TileCoord::new(0, 10, 12));
    assert_eq!(parse_tile_path("5//12.pbf"), TileCoord::new(5, 0, 12));
    assert_eq!(parse_tile_path("5/10/.pbf"), TileCoord::new(5, 10, 0));
    assert_eq!(parse_tile_path("5/-1/12.pbf"), TileCoord::new(5, 0, 12));
    assert_eq!(parse_tile_path("5/1 0/12.pbf"), TileCoord::new(5, 0, 12));
    assert_eq!(parse_tile_path("5/+/12.pbf"), TileCoord::new(5, 0, 12));
}

#[test]
fn path_part_beyond_its_width_reads_as_zero() {
    assert_eq!(parse_tile_path("256/1/2.pbf"), TileCoord::new(0, 1, 2));
    assert_eq!(parse_tile_path("255/4294967296/2.pbf"), TileCoord::new(255, 0, 2));
    assert_eq!(
        parse_tile_path("1/2/99999999999999999999999999.pbf"),
        TileCoord::new(1, 2, 0)
    );
}

#[test]
fn path_accepts_a_plus_sign_and_leading_zeros() {
    assert_eq!(parse_tile_path("+5/010/0012.pbf"), TileCoord::new(5, 10, 12));
}

#[test]
fn path_loses_every_suffix_at_its_end() {
    assert_eq!(parse_tile_path("5/10/12"), TileCoord::new(5, 10, 12));
    assert_eq!(parse_tile_path("5/10/12.pbf.pbf"), TileCoord::new(5, 10, 12));
    assert_eq!(parse_tile_path("5/10/12.mvt"), TileCoord::new(5, 10, 0));
}

#[test]
fn path_with_other_scripts_does_not_confuse_the_parts() {
    assert_eq!(parse_tile_path("é/10/12.pbf"), TileCoord::new(0, 10, 12));
    assert_eq!(parse_tile_path("5/10/١٢.pbf"), TileCoord::new(5, 10, 0));
}
