use std::io::Read;

use vector_tile_core::feature::{Feature, Geometry};
use vector_tile_core::metadata::{Bounds, FieldType, GeometryKind};
use vector_tile_core::mvt_encoder::encode_tile;
use vector_tile_core::path::parse_tile_path;
use vector_tile_core::pmtiles_encoder::coord_to_tile_id;
use vector_tile_core::properties::PropertyValue;
use vector_tile_core::tiler::tile_features;
use vector_tile_core::{
    generate_pmtiles, generate_tiles, generate_tiles_with_metadata, FeatureCollection, TileError,
};

/// Web-mercator position of a place on the unit square, in units of 2^-52.
fn unit(lon: f64, lat: f64) -> (i64, i64) {
    let lat = lat.clamp(-85.05112878, 85.05112878);
    let x = (lon + 180.0) / 360.0;
    let y = 0.5
        - (std::f64::consts::FRAC_PI_4 + lat * std::f64::consts::PI / 360.0).tan().ln()
            / (2.0 * std::f64::consts::PI);
    let scale = (1u64 << 52) as f64;
    ((x * scale).floor() as i64, (y * scale).floor() as i64)
}

fn collection(features: Vec<Feature>, bounds: (f64, f64, f64, f64)) -> FeatureCollection {
    FeatureCollection {
        features,
        bounds: Bounds {
            min_lon_e7: (bounds.0 * 10_000_000.0) as i32,
            min_lat_e7: (bounds.1 * 10_000_000.0) as i32,
            max_lon_e7: (bounds.2 * 10_000_000.0) as i32,
            max_lat_e7: (bounds.3 * 10_000_000.0) as i32,
            text: format!("{:.6},{:.6},{:.6},{:.6}", bounds.0, bounds.1, bounds.2, bounds.3),
        },
        center_lon_e7: ((bounds.0 + bounds.2) / 2.0 * 10_000_000.0) as i32,
        center_lat_e7: ((bounds.1 + bounds.3) / 2.0 * 10_000_000.0) as i32,
    }
}

fn point(lon: f64, lat: f64) -> Feature {
    let (x, y) = unit(lon, lat);
    Feature { geometry: Geometry::Point(x, y), properties: Vec::new() }
}

fn polygon(ring: &[(f64, f64)]) -> Feature {
    Feature {
        geometry: Geometry::Polygon(vec![ring.iter().map(|p| unit(p.0, p.1)).collect()]),
        properties: Vec::new(),
    }
}

fn gunzip(bytes: &[u8]) -> Vec<u8> {
    let mut out = Vec::new();
    flate2::read::GzDecoder::new(bytes).read_to_end(&mut out).unwrap();
    out
}

fn u64_at(bytes: &[u8], at: usize) -> u64 {
    let mut raw = [0u8; 8];
    raw.copy_from_slice(&bytes[at..at + 8]);
    u64::from_le_bytes(raw)
}

fn i32_at(bytes: &[u8], at: usize) -> i32 {
    let mut raw = [0u8; 4];
    raw.copy_from_slice(&bytes[at..at + 4]);
    i32::from_le_bytes(raw)
}

fn varint_at(bytes: &[u8], at: &mut usize) -> u64 {
    let mut rest = &bytes[*at..];
    let value = prost::encoding::decode_varint(&mut rest).unwrap();
    *at = bytes.len() - rest.len();
    value
}

/// The geometry stream of the first feature of a tile.
fn first_geometry(tile: &[u8]) -> Vec<u32> {
    fn varint(bytes: &mut &[u8]) -> u64 {
        prost::encoding::decode_varint(bytes).unwrap()
    }
    fn chunk<'a>(bytes: &mut &'a [u8]) -> &'a [u8] {
        let n = varint(bytes) as usize;
        let (head, tail) = bytes.split_at(n);
        *bytes = tail;
        head
    }
    let mut tile = tile;
    assert_eq!(varint(&mut tile), (3 << 3) | 2);
    let mut layer = chunk(&mut tile);
    loop {
        let key = varint(&mut layer);
        match (key >> 3, key & 7) {
            (2, 2) => {
                let mut feature = chunk(&mut layer);
                loop {
                    let key = varint(&mut feature);
                    match (key >> 3, key & 7) {
                        (4, 2) => {
                            let mut packed = chunk(&mut feature);
                            let mut out = Vec::new();
                            while !packed.is_empty() {
                                out.push(varint(&mut packed) as u32);
                            }
                            return out;
                        }
                        (_, 0) => {
                            varint(&mut feature);
                        }
                        _ => {
                            chunk(&mut feature);
                        }
                    }
                }
            }
            (_, 0) => {
                varint(&mut layer);
            }
            _ => {
                chunk(&mut layer);
            }
        }
    }
}

#[test]
fn single_point_at_the_first_two_zooms() {
    let input = collection(vec![point(0.0, 0.0)], (0.0, 0.0, 0.0, 0.0));
    let files = generate_tiles(&input, 0, 1, "pts").unwrap();
    let paths: Vec<&str> = files.iter().map(|f| f.path.as_str()).collect();
    assert_eq!(paths, vec!["0/0/0.pbf", "1/1/1.pbf"]);
    assert_eq!(first_geometry(&files[0].data), vec![9, 4096, 4096]);
    assert_eq!(first_geometry(&files[1].data), vec![9, 0, 0]);
    assert_eq!(&files[0].data[2..7], &[0x0a, 3, b'p', b't', b's']);
}

#[test]
fn square_polygon_is_one_closed_ring() {
    let square = polygon(&[(0.0, 0.0), (0.0, 1.0), (1.0, 1.0), (1.0, 0.0), (0.0, 0.0)]);
    let input = collection(vec![square], (0.0, 0.0, 1.0, 1.0));
    let files = generate_tiles(&input, 0, 0, "squares").unwrap();
    assert_eq!(files.len(), 1);
    assert_eq!(files[0].path, "0/0/0.pbf");
    let stream = first_geometry(&files[0].data);
    assert_eq!(*stream.last().unwrap(), 15);
    assert_eq!(stream.iter().filter(|&&c| c == 9).count(), 1);
    assert_eq!(stream.iter().filter(|&&c| c == 26).count(), 1);
    assert_eq!(stream, vec![9, 4096, 4096, 26, 0, 21, 22, 0, 0, 22, 15]);
}

#[test]
fn files_are_the_tiles_of_each_zoom_encoded() {
    let features = vec![
        point(-122.4, 37.8),
        Feature {
            geometry: Geometry::LineString(vec![unit(-10.0, 50.0), unit(30.0, 40.0)]),
            properties: vec![("kind".to_string(), PropertyValue::String("route".to_string()))],
        },
    ];
    let input = collection(features, (-122.4, 37.8, 30.0, 50.0));
    let files = generate_tiles(&input, 1, 3, "layer").unwrap();
    let mut expected = Vec::new();
    for zoom in 1..=3u8 {
        for (coord, features) in tile_features(&input.features, zoom).unwrap() {
            expected.push((coord.to_path(), encode_tile(&features, "layer").unwrap()));
        }
    }
    assert_eq!(files.len(), expected.len());
    for (file, (path, data)) in files.iter().zip(expected.iter()) {
        assert_eq!(&file.path, path);
        assert_eq!(&file.data, data);
    }
    let zooms: Vec<u8> = files.iter().map(|f| parse_tile_path(&f.path).z).collect();
    let mut sorted = zooms.clone();
    sorted.sort();
    assert_eq!(zooms, sorted);
    assert_eq!(zooms.first(), Some(&1));
    assert_eq!(zooms.last(), Some(&3));
}

#[test]
fn metadata_describes_the_collection() {
    let mut features = vec![point(1.0, 2.0), point(3.0, 4.0)];
    features[0].properties = vec![
        ("name".to_string(), PropertyValue::String("a".to_string())),
        ("pop".to_string(), PropertyValue::Integer { value: 5, text: "5".to_string() }),
    ];
    features.push(polygon(&[(0.0, 0.0), (0.0, 1.0), (1.0, 1.0), (0.0, 0.0)]));
    features.push(polygon(&[(0.0, 0.0), (0.0, 2.0), (2.0, 2.0), (0.0, 0.0)]));
    let input = collection(features, (0.0, 0.0, 3.0, 4.0));
    let (files, metadata) = generate_tiles_with_metadata(&input, 2, 5, "things").unwrap();
    assert!(!files.is_empty());
    assert_eq!(metadata.min_zoom, 2);
    assert_eq!(metadata.max_zoom, 5);
    assert_eq!(metadata.layer_name, "things");
    assert_eq!(metadata.bounds.min_lon_e7, 0);
    assert_eq!(metadata.bounds.max_lon_e7, 30_000_000);
    assert_eq!(metadata.bounds.max_lat_e7, 40_000_000);
    assert_eq!(metadata.bounds.text, "0.000000,0.000000,3.000000,4.000000");
    assert_eq!(metadata.center_lon_e7, 15_000_000);
    assert_eq!(metadata.center_lat_e7, 20_000_000);
    assert_eq!(metadata.feature_count, 4);
    assert_eq!(metadata.geometry_type, GeometryKind::Polygon);
    assert_eq!(
        metadata.fields,
        vec![("name".to_string(), FieldType::String), ("pop".to_string(), FieldType::Number)]
    );
    assert_eq!(metadata.attributes.len(), 2);
    assert_eq!(metadata.attributes[1].values, vec!["5"]);
    assert!(metadata.attributes[1].numeric);
}

#[test]
fn dominant_geometry_prefers_polygons_then_lines() {
    let line = || Feature {
        geometry: Geometry::LineString(vec![unit(0.0, 0.0), unit(1.0, 1.0)]),
        properties: Vec::new(),
    };
    let square = || polygon(&[(0.0, 0.0), (0.0, 1.0), (1.0, 1.0), (0.0, 0.0)]);
    let kind = |features: Vec<Feature>| {
        let input = collection(features, (0.0, 0.0, 1.0, 1.0));
        generate_tiles_with_metadata(&input, 0, 0, "l").unwrap().1.geometry_type
    };
    assert_eq!(kind(vec![point(0.0, 0.0)]), GeometryKind::Point);
    assert_eq!(kind(vec![point(0.0, 0.0), line()]), GeometryKind::LineString);
    assert_eq!(kind(vec![point(0.0, 0.0), line(), square()]), GeometryKind::Polygon);
    assert_eq!(kind(vec![point(0.0, 0.0), point(0.0, 0.0), line(), square()]), GeometryKind::Point);
    assert_eq!(kind(vec![line(), line(), square(), point(0.0, 0.0)]), GeometryKind::LineString);
    assert_eq!(kind(vec![line(), square(), square(), line()]), GeometryKind::Polygon);
}

#[test]
fn collection_without_a_vertex_has_no_bounds() {
    let empty = collection(Vec::new(), (0.0, 0.0, 0.0, 0.0));
    assert_eq!(generate_pmtiles(&empty, 0, 1, "l"), Err(TileError::NoBounds));
    assert!(matches!(generate_tiles(&empty, 0, 1, "l"), Err(TileError::NoBounds)));
    assert!(matches!(generate_tiles_with_metadata(&empty, 0, 1, "l"), Err(TileError::NoBounds)));
    let hollow = collection(
        vec![
            Feature { geometry: Geometry::LineString(Vec::new()), properties: Vec::new() },
            Feature { geometry: Geometry::Polygon(vec![Vec::new()]), properties: Vec::new() },
        ],
        (0.0, 0.0, 0.0, 0.0),
    );
    assert_eq!(generate_pmtiles(&hollow, 0, 1, "l"), Err(TileError::NoBounds));
    assert_eq!(generate_pmtiles(&empty, 5, 40, "l"), Err(TileError::NoBounds));
}

#[test]
fn zoom_range_must_rise_and_end_at_30() {
    let input = collection(vec![point(0.0, 0.0)], (0.0, 0.0, 0.0, 0.0));
    assert!(matches!(generate_tiles(&input, 3, 2, "l"), Err(TileError::InvalidZoom)));
    assert!(matches!(generate_tiles(&input, 0, 31, "l"), Err(TileError::InvalidZoom)));
    assert_eq!(generate_pmtiles(&input, 31, 31, "l"), Err(TileError::InvalidZoom));
    assert!(generate_tiles(&input, 30, 30, "l").is_ok());
    assert!(generate_tiles(&input, 7, 7, "l").is_ok());
}

#[test]
fn degenerate_geometry_fails_the_generation() {
    let lonely = Feature {
        geometry: Geometry::LineString(vec![unit(0.0, 0.0)]),
        properties: Vec::new(),
    };
    let input = collection(vec![point(5.0, 5.0), lonely], (0.0, 0.0, 5.0, 5.0));
    assert!(matches!(generate_tiles(&input, 0, 2, "l"), Err(TileError::InvalidGeometry)));
    assert_eq!(generate_pmtiles(&input, 0, 2, "l"), Err(TileError::InvalidGeometry));
}

#[test]
fn archive_holds_the_files_in_the_order_of_their_ids() {
    let features = vec![point(-122.4, 37.8), point(139.7, 35.7), point(2.35, 48.85), point(0.0, 0.0)];
    let input = collection(features, (-122.4, 0.0, 139.7, 48.85));
    let files = generate_tiles(&input, 0, 4, "cities").unwrap();
    let archive = generate_pmtiles(&input, 0, 4, "cities").unwrap();

    assert!(archive.len() >= 127);
    assert!(archive.starts_with(b"PMTiles\x03"));
    assert_eq!(u64_at(&archive, 80), files.len() as u64);
    assert_eq!(&archive[96..=99], &[1, 2, 2, 1]);
    assert_eq!(archive[100], 0);
    assert_eq!(archive[101], 4);
    assert_eq!(i32_at(&archive, 102), -1_224_000_000);
    assert_eq!(i32_at(&archive, 106), 0);
    assert_eq!(i32_at(&archive, 110), 1_397_000_000);
    assert_eq!(i32_at(&archive, 114), 488_500_000);
    assert_eq!(archive[118], 2);

    let mut ordered: Vec<(u64, &Vec<u8>)> = files
        .iter()
        .map(|f| {
            let c = parse_tile_path(&f.path);
            (coord_to_tile_id(c.z, c.x, c.y), &f.data)
        })
        .collect();
    ordered.sort_by_key(|t| t.0);
    for pair in ordered.windows(2) {
        assert!(pair[0].0 < pair[1].0);
    }

    let root_offset = u64_at(&archive, 8) as usize;
    let root_length = u64_at(&archive, 16) as usize;
    let tiles_offset = u64_at(&archive, 56) as usize;
    let directory = gunzip(&archive[root_offset..root_offset + root_length]);
    let mut at = 0;
    assert_eq!(varint_at(&directory, &mut at), ordered.len() as u64);
    let mut id = 0;
    for (expected, _) in &ordered {
        id += varint_at(&directory, &mut at);
        assert_eq!(id, *expected);
    }
    for _ in &ordered {
        assert_eq!(varint_at(&directory, &mut at), 1);
    }
    let mut lengths = Vec::new();
    let mut length = 0i64;
    for _ in &ordered {
        let u = varint_at(&directory, &mut at);
        length += ((u >> 1) as i64) ^ -((u & 1) as i64);
        lengths.push(length as usize);
    }
    let mut start = tiles_offset;
    for ((_, data), length) in ordered.iter().zip(lengths) {
        assert_eq!(&gunzip(&archive[start..start + length]), *data);
        start += length;
    }
    assert_eq!(start, archive.len());

    let json_offset = u64_at(&archive, 24) as usize;
    let json = gunzip(&archive[json_offset..tiles_offset]);
    let value: serde_json::Value = serde_json::from_slice(&json).unwrap();
    assert_eq!(value["name"], "cities.pmtiles");
    assert_eq!(value["vector_layers"][0]["maxzoom"], 4);
    assert_eq!(value["tilestats"]["layers"][0]["count"], 4);
    assert_eq!(value["tilestats"]["layers"][0]["geometry"], "Point");
    assert_eq!(value["strategies"].as_array().unwrap().len(), 5);
}

#[test]
fn generation_gives_the_same_bytes_each_time() {
    let features = vec![point(10.0, 10.0), point(-10.0, -10.0)];
    let input = collection(features, (-10.0, -10.0, 10.0, 10.0));
    let first = generate_pmtiles(&input, 0, 3, "l").unwrap();
    let second = generate_pmtiles(&input, 0, 3, "l").unwrap();
    assert_eq!(first, second);
}

#[test]
fn test_wasm_api_structure() {
    // Basic structure test
    let tile_data = vec![vector_tile_core::TileFile {
        path: "0/0/0.pbf".to_string(),
        data: vec![1, 2, 3],
    }];
    let metadata = vector_tile_core::metadata::TileMetadata {
        min_zoom: 0,
        max_zoom: 0,
        layer_name: "layer".to_string(),
        bounds: collection(Vec::new(), (0.0, 0.0, 0.0, 0.0)).bounds,
        center_lon_e7: 0,
        center_lat_e7: 0,
        feature_count: 1,
        geometry_type: GeometryKind::Point,
        fields: Vec::new(),
        attributes: Vec::new(),
    };

    let result = vector_tile_core::tile_result::TileResult::new(tile_data, metadata);
    assert_eq!(result.count(), 1);
    assert_eq!(result.get_path(0), Some("0/0/0.pbf".to_string()));
}

#[test]
fn result_is_read_by_index() {
    let input = collection(vec![point(0.0, 0.0)], (0.0, 0.0, 0.0, 0.0));
    let files = generate_tiles(&input, 0, 2, "pts").unwrap();
    let result = vector_tile_core::tile_result::generate_pbf_tiles(&input, 0, 2, "pts").unwrap();
    assert_eq!(result.count(), 3);
    for (i, file) in files.iter().enumerate() {
        assert_eq!(result.get_path(i).as_deref(), Some(file.path.as_str()));
        assert_eq!(result.get_data(i).as_ref(), Some(&file.data));
    }
    assert_eq!(result.get_path(3), None);
    assert_eq!(result.get_data(3), None);
    assert_eq!(result.get_data(usize::MAX), None);
    assert_eq!(result.get_metadata().layer_name, "pts");
    assert_eq!(result.get_metadata().max_zoom, 2);
    let empty = collection(Vec::new(), (0.0, 0.0, 0.0, 0.0));
    assert!(matches!(
        vector_tile_core::tile_result::generate_pbf_tiles(&empty, 0, 2, "pts"),
        Err(TileError::NoBounds)
    ));
}
