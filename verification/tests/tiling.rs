use vector_tile_core::feature::{Feature, Geometry};
use vector_tile_core::properties::PropertyValue;
use vector_tile_core::tiler::{has_vertices, tile_features, TileGeometry};
use vector_tile_core::{TileCoord, TileError};

const ONE: i64 = 1 << 52;

fn point_feature(x: i64, y: i64) -> Feature {
    Feature { geometry: Geometry::Point(x, y), properties: Vec::new() }
}

fn named(geometry: Geometry, name: &str) -> Feature {
    Feature {
        geometry,
        properties: vec![("name".to_string(), PropertyValue::String(name.to_string()))],
    }
}

fn coords(tiles: &[(TileCoord, Vec<vector_tile_core::tiler::TileFeature>)]) -> Vec<(u8, u32, u32)> {
    tiles.iter().map(|t| (t.0.z, t.0.x, t.0.y)).collect()
}

fn local_point(feature: &vector_tile_core::tiler::TileFeature) -> (i32, i32) {
    match &feature.geometry {
        TileGeometry::Point(x, y) => (*x, *y),
        other => panic!("not a point: {:?}", other),
    }
}

#[test]
fn zoom_above_30_is_refused() {
    assert!(matches!(tile_features(&[], 31), Err(TileError::InvalidZoom)));
    assert!(matches!(tile_features(&[point_feature(0, 0)], 255), Err(TileError::InvalidZoom)));
    assert!(tile_features(&[point_feature(0, 0)], 30).is_ok());
}

#[test]
fn no_feature_touches_no_tile() {
    assert!(tile_features(&[], 3).unwrap().is_empty());
}

#[test]
fn centre_of_the_world_at_the_first_zooms() {
    let centre = [point_feature(ONE / 2, ONE / 2)];
    let tiles = tile_features(&centre, 0).unwrap();
    assert_eq!(coords(&tiles), vec![(0, 0, 0)]);
    assert_eq!(local_point(&tiles[0].1[0]), (2048, 2048));
    let tiles = tile_features(&centre, 1).unwrap();
    assert_eq!(coords(&tiles), vec![(1, 1, 1)]);
    assert_eq!(local_point(&tiles[0].1[0]), (0, 0));
    let tiles = tile_features(&centre, 30).unwrap();
    assert_eq!(coords(&tiles), vec![(30, 1 << 29, 1 << 29)]);
    assert_eq!(local_point(&tiles[0].1[0]), (0, 0));
}

#[test]
fn local_coordinates_are_rounded_halves_away_from_zero() {
    let unit = ONE / 4096;
    let cases = [
        (0, 0),
        (unit / 2 - 1, 0),
        (unit / 2, 1),
        (unit, 1),
        (unit + unit / 2, 2),
        (-(unit / 2) + 1, 0),
        (-(unit / 2), -1),
        (-unit - unit / 2, -2),
        (-unit - unit / 2 + 1, -1),
        (ONE, 4096),
        (ONE + 7 * unit, 4103),
    ];
    for (x, local) in cases {
        let tiles = tile_features(&[point_feature(x, 0)], 0).unwrap();
        assert_eq!(coords(&tiles), vec![(0, 0, 0)]);
        assert_eq!(local_point(&tiles[0].1[0]), (local, 0));
    }
}

#[test]
fn positions_outside_the_world_count_to_the_edge_tiles() {
    let tiles = tile_features(&[point_feature(ONE, -1)], 2).unwrap();
    assert_eq!(coords(&tiles), vec![(2, 3, 0)]);
    assert_eq!(local_point(&tiles[0].1[0]), (4096, 0));
    let tiles = tile_features(&[point_feature(-ONE, 3 * ONE)], 1).unwrap();
    assert_eq!(coords(&tiles), vec![(1, 0, 1)]);
    assert_eq!(local_point(&tiles[0].1[0]), (-8192, 5 * 4096));
}

#[test]
fn local_coordinates_are_held_to_32_bits() {
    let tiles = tile_features(&[point_feature(i64::MAX, i64::MIN)], 30).unwrap();
    let side = 1u32 << 30;
    assert_eq!(coords(&tiles), vec![(30, side - 1, 0)]);
    assert_eq!(local_point(&tiles[0].1[0]), (i32::MAX, i32::MIN));
}

#[test]
fn feature_goes_whole_to_every_tile_of_its_span() {
    let line = Geometry::LineString(vec![(ONE / 8, ONE / 8), (ONE * 5 / 8, ONE * 3 / 8)]);
    let tiles = tile_features(&[named(line, "diagonal")], 2).unwrap();
    assert_eq!(
        coords(&tiles),
        vec![(2, 0, 0), (2, 1, 0), (2, 2, 0), (2, 0, 1), (2, 1, 1), (2, 2, 1)]
    );
    for (coord, features) in &tiles {
        assert_eq!(features.len(), 1);
        assert_eq!(features[0].properties.len(), 1);
        assert_eq!(features[0].properties[0].0, "name");
        let shift_x = 4096 * coord.x as i32;
        let shift_y = 4096 * coord.y as i32;
        match &features[0].geometry {
            TileGeometry::LineString(points) => assert_eq!(
                points,
                &vec![(2048 - shift_x, 2048 - shift_y), (10240 - shift_x, 6144 - shift_y)]
            ),
            other => panic!("not a line: {:?}", other),
        }
    }
}

#[test]
fn tiles_come_in_order_of_first_touch_with_features_in_order() {
    let features = vec![
        named(Geometry::Point(ONE * 3 / 4, ONE * 3 / 4), "a"),
        named(Geometry::LineString(vec![(ONE / 4, ONE * 3 / 4), (ONE * 3 / 4, ONE * 3 / 4)]), "b"),
        named(Geometry::Point(ONE / 4, ONE / 4), "c"),
        named(Geometry::Point(ONE * 3 / 4 + 5, ONE * 3 / 4 + 5), "d"),
    ];
    let tiles = tile_features(&features, 1).unwrap();
    assert_eq!(coords(&tiles), vec![(1, 1, 1), (1, 0, 1), (1, 0, 0)]);
    let names = |i: usize| -> Vec<String> {
        tiles[i]
            .1
            .iter()
            .map(|f| match &f.properties[0].1 {
                PropertyValue::String(s) => s.clone(),
                other => panic!("not a text: {:?}", other),
            })
            .collect()
    };
    assert_eq!(names(0), vec!["a", "b", "d"]);
    assert_eq!(names(1), vec!["b"]);
    assert_eq!(names(2), vec!["c"]);
}

#[test]
fn polygon_spans_the_tiles_of_all_its_rings() {
    let polygon = Geometry::Polygon(vec![
        vec![(0, 0), (ONE / 8, 0), (ONE / 8, ONE / 8), (0, 0)],
        Vec::new(),
        vec![(ONE * 7 / 8, ONE / 8), (ONE * 7 / 8, ONE / 8), (ONE * 7 / 8, ONE / 8)],
    ]);
    let tiles = tile_features(&[named(polygon, "p")], 1).unwrap();
    assert_eq!(coords(&tiles), vec![(1, 0, 0), (1, 1, 0)]);
    match &tiles[1].1[0].geometry {
        TileGeometry::Polygon(rings) => {
            assert_eq!(rings.len(), 3);
            assert_eq!(rings[0], vec![(-4096, 0), (-3072, 0), (-3072, 1024), (-4096, 0)]);
            assert!(rings[1].is_empty());
            assert_eq!(rings[2], vec![(3072, 1024); 3]);
        }
        other => panic!("not a polygon: {:?}", other),
    }
}

#[test]
fn feature_without_vertices_is_passed_over() {
    let features = vec![
        named(Geometry::LineString(Vec::new()), "empty line"),
        named(Geometry::Polygon(Vec::new()), "empty polygon"),
        named(Geometry::Polygon(vec![Vec::new(), Vec::new()]), "empty rings"),
        named(Geometry::Point(0, 0), "point"),
    ];
    assert!(!has_vertices(&features[0].geometry));
    assert!(!has_vertices(&features[1].geometry));
    assert!(!has_vertices(&features[2].geometry));
    assert!(has_vertices(&features[3].geometry));
    assert!(has_vertices(&Geometry::Polygon(vec![Vec::new(), vec![(1, 1)]])));
    let tiles = tile_features(&features, 4).unwrap();
    assert_eq!(coords(&tiles), vec![(4, 0, 0)]);
    assert_eq!(tiles[0].1.len(), 1);
}
