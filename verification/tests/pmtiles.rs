use std::io::Read;

use vector_tile_core::metadata::{Bounds, GeometryKind, TileMetadata};
use vector_tile_core::pmtiles_encoder::{
    assemble_archive, coord_to_tile_id, encode_directory, encode_pmtiles, generate_json_metadata,
    order_keys, push_entry, rot, write_directory, write_header, write_varint, xy_to_hilbert,
    zigzag_encode, Layout, TileEntry,
};
use vector_tile_core::{TileCoord, TileError};

fn metadata(min_zoom: u8, max_zoom: u8, bounds: (f64, f64, f64, f64), center: (f64, f64)) -> TileMetadata {
    TileMetadata {
        min_zoom,
        max_zoom,
        layer_name: "test".to_string(),
        bounds: Bounds {
            min_lon_e7: (bounds.0 * 10_000_000.0) as i32,
            min_lat_e7: (bounds.1 * 10_000_000.0) as i32,
            max_lon_e7: (bounds.2 * 10_000_000.0) as i32,
            max_lat_e7: (bounds.3 * 10_000_000.0) as i32,
            text: format!("{:.6},{:.6},{:.6},{:.6}", bounds.0, bounds.1, bounds.2, bounds.3),
        },
        center_lon_e7: (center.0 * 10_000_000.0) as i32,
        center_lat_e7: (center.1 * 10_000_000.0) as i32,
        feature_count: 0,
        geometry_type: GeometryKind::Polygon,
        fields: Vec::new(),
        attributes: Vec::new(),
    }
}

fn gunzip(bytes: &[u8]) -> Vec<u8> {
    let mut out = Vec::new();
    flate2::read::GzDecoder::new(bytes).read_to_end(&mut out).unwrap();
    out
}

fn u64_at(bytes: &[u8], at: usize) -> u64 {
    let mut raw = [0u8; 8];
    raw.copy_from_slice(&bytes[at..at + 8]);
    u64::from_le_bytes(raw)
}

fn i32_at(bytes: &[u8], at: usize) -> i32 {
    let mut raw = [0u8; 4];
    raw.copy_from_slice(&bytes[at..at + 4]);
    i32::from_le_bytes(raw)
}

fn read_varint(bytes: &[u8], at: &mut usize) -> u64 {
    let mut value = 0u64;
    let mut shift = 0;
    loop {
        let byte = bytes[*at];
        *at += 1;
        value |= ((byte & 0x7f) as u64) << shift;
        if byte & 0x80 == 0 {
            return value;
        }
        shift += 7;
    }
}

fn unzigzag(u: u64) -> i64 {
    ((u >> 1) as i64) ^ -((u & 1) as i64)
}

/// Reads a directory back: ids, run lengths, lengths, offsets.
fn read_directory(bytes: &[u8]) -> (Vec<u64>, Vec<u64>, Vec<u32>, Vec<u64>) {
    let mut at = 0;
    let n = read_varint(bytes, &mut at) as usize;
    let mut ids = Vec::new();
    let mut last = 0u64;
    for _ in 0..n {
        last += read_varint(bytes, &mut at);
        ids.push(last);
    }
    let mut runs = Vec::new();
    for _ in 0..n {
        runs.push(read_varint(bytes, &mut at));
    }
    let mut lengths = Vec::new();
    let mut length = 0i64;
    for _ in 0..n {
        length += unzigzag(read_varint(bytes, &mut at));
        lengths.push(length as u32);
    }
    let mut offsets = Vec::new();
    let mut offset = 0i64;
    for _ in 0..n {
        offset += unzigzag(read_varint(bytes, &mut at));
        offsets.push(offset as u64);
    }
    assert_eq!(at, bytes.len());
    (ids, runs, lengths, offsets)
}

#[test]
fn test_encode_pmtiles_basic() {
    let tiles = vec![
        (TileCoord::new(0, 0, 0), vec![1, 2, 3, 4]),
        (TileCoord::new(1, 0, 0), vec![5, 6, 7, 8]),
    ];

    let metadata = metadata(0, 1, (-180.0, -85.0, 180.0, 85.0), (0.0, 0.0));

    let result = encode_pmtiles(tiles, &metadata);
    assert!(result.is_ok());
    let data = result.unwrap();
    assert!(!data.is_empty());
    // Check magic number
    assert_eq!(&data[0..7], b"PMTiles");
    assert_eq!(data[7], 0x03); // Version 3
}

#[test]
fn test_encode_pmtiles_empty() {
    let tiles = vec![];
    let metadata = metadata(0, 1, (-180.0, -85.0, 180.0, 85.0), (0.0, 0.0));

    let result = encode_pmtiles(tiles, &metadata);
    assert!(result.is_err());
}

#[test]
fn test_coord_to_tile_id() {
    let id1 = coord_to_tile_id(0, 0, 0);
    let id2 = coord_to_tile_id(1, 0, 0);
    let id3 = coord_to_tile_id(1, 1, 0);

    // Different zoom levels should have different top bytes
    assert_ne!(id1 >> 56, id2 >> 56);
    // Same zoom, different coords should have different IDs
    assert_ne!(id2, id3);
}

#[test]
fn empty_archive_is_refused_as_such() {
    let metadata = metadata(0, 1, (-180.0, -85.0, 180.0, 85.0), (0.0, 0.0));
    assert_eq!(encode_pmtiles(Vec::new(), &metadata), Err(TileError::EmptyArchive));
}

#[test]
fn tile_above_zoom_30_is_refused() {
    let metadata = metadata(0, 1, (-180.0, -85.0, 180.0, 85.0), (0.0, 0.0));
    let tiles = vec![(TileCoord::new(0, 0, 0), vec![1]), (TileCoord::new(31, 0, 0), vec![2])];
    assert_eq!(encode_pmtiles(tiles, &metadata), Err(TileError::InvalidZoom));
}

#[test]
fn tile_at_zoom_30_is_packed() {
    let metadata = metadata(30, 30, (-180.0, -85.0, 180.0, 85.0), (0.0, 0.0));
    let tiles = vec![(TileCoord::new(30, 1_073_741_823, 0), vec![1])];
    assert!(encode_pmtiles(tiles, &metadata).is_ok());
}

#[test]
fn archive_of_two_tiles_has_the_header_flags_and_counts() {
    let tiles = vec![
        (TileCoord::new(0, 0, 0), vec![1, 2, 3, 4]),
        (TileCoord::new(1, 0, 0), vec![5, 6, 7, 8]),
    ];
    let metadata = metadata(0, 1, (-180.0, -85.0, 180.0, 85.0), (0.0, 0.0));
    let data = encode_pmtiles(tiles, &metadata).unwrap();
    assert!(data.len() >= 127);
    assert!(data.starts_with(b"PMTiles\x03"));
    assert_eq!(data[7], 0x03);
    assert_eq!(&data[96..=99], &[1, 2, 2, 1]);
    assert_eq!(u64_at(&data, 72), 2);
    assert_eq!(u64_at(&data, 80), 2);
    assert_eq!(u64_at(&data, 88), 2);
}

#[test]
fn archive_regions_follow_each_other() {
    let first = vec![1u8, 2, 3, 4];
    let second: Vec<u8> = (0..200u8).collect();
    let tiles = vec![
        (TileCoord::new(1, 1, 1), second.clone()),
        (TileCoord::new(0, 0, 0), first.clone()),
    ];
    let metadata = metadata(0, 1, (-180.0, -85.0, 180.0, 85.0), (0.0, 0.0));
    let data = encode_pmtiles(tiles, &metadata).unwrap();

    let root_offset = u64_at(&data, 8) as usize;
    let root_length = u64_at(&data, 16) as usize;
    let json_offset = u64_at(&data, 24) as usize;
    let json_length = u64_at(&data, 32) as usize;
    assert_eq!(u64_at(&data, 40), 0);
    assert_eq!(u64_at(&data, 48), 0);
    let tiles_offset = u64_at(&data, 56) as usize;
    let tiles_length = u64_at(&data, 64) as usize;
    assert_eq!(root_offset, 127);
    assert_eq!(json_offset, root_offset + root_length);
    assert_eq!(tiles_offset, json_offset + json_length);
    assert_eq!(data.len(), tiles_offset + tiles_length);

    let directory = gunzip(&data[root_offset..json_offset]);
    let (ids, runs, lengths, offsets) = read_directory(&directory);
    assert_eq!(ids, vec![0, (1u64 << 56) | 2]);
    assert_eq!(runs, vec![1, 1]);
    assert_eq!(offsets[0], 0);
    assert_eq!(offsets[1], lengths[0] as u64);
    assert_eq!(tiles_length, (lengths[0] + lengths[1]) as usize);

    let blob0 = &data[tiles_offset..tiles_offset + lengths[0] as usize];
    let blob1 = &data[tiles_offset + lengths[0] as usize..];
    assert_eq!(gunzip(blob0), first);
    assert_eq!(gunzip(blob1), second);

    let json = gunzip(&data[json_offset..tiles_offset]);
    let text = String::from_utf8(json).unwrap();
    assert!(text.starts_with("{\"name\":\"test.pmtiles\",\"format\":\"pbf\""));
}

#[test]
fn tile_ids_rise_and_offsets_are_sums_of_lengths() {
    let mut tiles = Vec::new();
    for (x, y) in [(3u32, 3u32), (0, 0), (2, 1), (1, 3), (3, 0), (0, 2)] {
        tiles.push((TileCoord::new(2, x, y), vec![x as u8; (10 * y + x + 1) as usize]));
    }
    tiles.push((TileCoord::new(1, 1, 0), vec![9; 40]));
    tiles.push((TileCoord::new(0, 0, 0), vec![7; 3]));
    let metadata = metadata(0, 2, (-180.0, -85.0, 180.0, 85.0), (0.0, 0.0));
    let data = encode_pmtiles(tiles, &metadata).unwrap();
    let root_offset = u64_at(&data, 8) as usize;
    let json_offset = u64_at(&data, 24) as usize;
    let (ids, _, lengths, offsets) = read_directory(&gunzip(&data[root_offset..json_offset]));
    assert_eq!(ids.len(), 8);
    for i in 1..ids.len() {
        assert!(ids[i - 1] < ids[i]);
    }
    let mut sum = 0u64;
    for i in 0..ids.len() {
        assert_eq!(offsets[i], sum);
        sum += lengths[i] as u64;
    }
    assert_eq!(u64_at(&data, 64), sum);
}

#[test]
fn tiles_of_one_id_keep_their_order() {
    let tiles = vec![
        (TileCoord::new(1, 0, 0), vec![1u8; 10]),
        (TileCoord::new(0, 0, 0), vec![2u8; 20]),
        (TileCoord::new(1, 0, 0), vec![3u8; 30]),
    ];
    let metadata = metadata(0, 1, (-180.0, -85.0, 180.0, 85.0), (0.0, 0.0));
    let data = encode_pmtiles(tiles, &metadata).unwrap();
    let root_offset = u64_at(&data, 8) as usize;
    let json_offset = u64_at(&data, 24) as usize;
    let tiles_offset = u64_at(&data, 56) as usize;
    let (ids, _, lengths, offsets) = read_directory(&gunzip(&data[root_offset..json_offset]));
    assert_eq!(ids, vec![0, 1 << 56, 1 << 56]);
    let blob = |i: usize| {
        let from = tiles_offset + offsets[i] as usize;
        gunzip(&data[from..from + lengths[i] as usize])
    };
    assert_eq!(blob(0), vec![2u8; 20]);
    assert_eq!(blob(1), vec![1u8; 10]);
    assert_eq!(blob(2), vec![3u8; 30]);
}

#[test]
fn keys_are_ordered_by_id_then_by_place() {
    let mut keys = vec![(5u64, 0usize), (3, 1), (5, 2), (1, 3), (3, 4), (u64::MAX, 5), (0, 6)];
    order_keys(&mut keys);
    assert_eq!(keys, vec![(0, 6), (1, 3), (3, 1), (3, 4), (5, 0), (5, 2), (u64::MAX, 5)]);
    let mut none: Vec<(u64, usize)> = Vec::new();
    order_keys(&mut none);
    assert!(none.is_empty());
}

#[test]
fn header_has_every_field_in_its_place() {
    let metadata = metadata(2, 9, (-12.5, -33.25, 45.125, 60.0), (16.3125, 13.375));
    let layout = Layout {
        tile_count: 0x0102_0304_0506_0708,
        root_directory_offset: 127,
        root_directory_length: 1000,
        json_metadata_offset: 1127,
        json_metadata_length: 0x1_0000_0001,
        tile_data_offset: 5000,
        tile_data_length: u64::MAX,
    };
    let mut header = vec![0xaa];
    write_header(&mut header, &metadata, &layout);
    assert_eq!(header.len(), 128);
    let header = &header[1..];
    assert_eq!(&header[0..7], b"PMTiles");
    assert_eq!(header[7], 3);
    assert_eq!(u64_at(header, 8), 127);
    assert_eq!(u64_at(header, 16), 1000);
    assert_eq!(u64_at(header, 24), 1127);
    assert_eq!(u64_at(header, 32), 0x1_0000_0001);
    assert_eq!(u64_at(header, 40), 0);
    assert_eq!(u64_at(header, 48), 0);
    assert_eq!(u64_at(header, 56), 5000);
    assert_eq!(u64_at(header, 64), u64::MAX);
    assert_eq!(u64_at(header, 72), 0x0102_0304_0506_0708);
    assert_eq!(&header[72..80], &[8, 7, 6, 5, 4, 3, 2, 1]);
    assert_eq!(u64_at(header, 80), 0x0102_0304_0506_0708);
    assert_eq!(u64_at(header, 88), 0x0102_0304_0506_0708);
    assert_eq!(&header[96..100], &[1, 2, 2, 1]);
    assert_eq!(header[100], 2);
    assert_eq!(header[101], 9);
    assert_eq!(i32_at(header, 102), -125_000_000);
    assert_eq!(i32_at(header, 106), -332_500_000);
    assert_eq!(i32_at(header, 110), 451_250_000);
    assert_eq!(i32_at(header, 114), 600_000_000);
    assert_eq!(header[118], 5);
    assert_eq!(i32_at(header, 119), 163_125_000);
    assert_eq!(i32_at(header, 123), 133_750_000);
}

#[test]
fn centre_zoom_of_the_widest_range_does_not_overflow() {
    let metadata = metadata(255, 255, (0.0, 0.0, 0.0, 0.0), (0.0, 0.0));
    let layout = Layout {
        tile_count: 0,
        root_directory_offset: 0,
        root_directory_length: 0,
        json_metadata_offset: 0,
        json_metadata_length: 0,
        tile_data_offset: 0,
        tile_data_length: 0,
    };
    let mut header = Vec::new();
    write_header(&mut header, &metadata, &layout);
    assert_eq!(header.len(), 127);
    assert_eq!(header[118], 255);
}

#[test]
fn varint_of_small_and_large_numbers() {
    let cases: [(u64, &[u8]); 7] = [
        (0, &[0x00]),
        (1, &[0x01]),
        (127, &[0x7f]),
        (128, &[0x80, 0x01]),
        (300, &[0xac, 0x02]),
        (16384, &[0x80, 0x80, 0x01]),
        (u64::MAX, &[0xff, 0xff, 0xff, 0xff, 0xff, 0xff, 0xff, 0xff, 0xff, 0x01]),
    ];
    for (value, bytes) in cases {
        let mut buffer = vec![0x55];
        write_varint(&mut buffer, value);
        assert_eq!(buffer[0], 0x55);
        assert_eq!(&buffer[1..], bytes);
    }
}

#[test]
fn zigzag_of_64_bit_numbers() {
    assert_eq!(zigzag_encode(0), 0);
    assert_eq!(zigzag_encode(-1), 1);
    assert_eq!(zigzag_encode(1), 2);
    assert_eq!(zigzag_encode(-2), 3);
    assert_eq!(zigzag_encode(2), 4);
    assert_eq!(zigzag_encode(i64::MAX), u64::MAX - 1);
    assert_eq!(zigzag_encode(i64::MIN), u64::MAX);
    for n in [0i64, 1, -1, 63, -64, 4096, -4097, i64::MAX, i64::MIN] {
        assert_eq!(zigzag_encode(n), ((n << 1) ^ (n >> 63)) as u64);
        assert_eq!(unzigzag(zigzag_encode(n)), n);
    }
}

#[test]
fn hilbert_order_of_the_four_quadrants() {
    assert_eq!(xy_to_hilbert(0, 0, 1), 0);
    assert_eq!(xy_to_hilbert(1, 0, 1), 3);
    assert_eq!(xy_to_hilbert(1, 1, 1), 2);
    assert_eq!(xy_to_hilbert(0, 1, 1), 1);
}

#[test]
fn hilbert_index_of_the_root_is_zero() {
    assert_eq!(xy_to_hilbert(0, 0, 0), 0);
    assert_eq!(xy_to_hilbert(17, 4, 0), 0);
}

#[test]
fn hilbert_index_of_a_grid_of_side_four() {
    let expected = [
        [0u64, 3, 4, 5],
        [1, 2, 7, 6],
        [14, 13, 8, 9],
        [15, 12, 11, 10],
    ];
    for x in 0..4u32 {
        for y in 0..4u32 {
            assert_eq!(xy_to_hilbert(x, y, 2), expected[x as usize][y as usize]);
        }
    }
}

#[test]
fn hilbert_index_visits_every_cell_once() {
    for z in 0..=5u8 {
        let side = 1u32 << z;
        let mut seen = vec![false; (side as usize) * (side as usize)];
        for x in 0..side {
            for y in 0..side {
                let d = xy_to_hilbert(x, y, z) as usize;
                assert!(d < seen.len());
                assert!(!seen[d]);
                seen[d] = true;
            }
        }
        assert!(seen.iter().all(|&s| s));
    }
}

#[test]
fn hilbert_neighbours_along_the_curve_touch() {
    let side = 16u32;
    let mut cells = vec![(0u32, 0u32); 256];
    for x in 0..side {
        for y in 0..side {
            cells[xy_to_hilbert(x, y, 4) as usize] = (x, y);
        }
    }
    for d in 1..cells.len() {
        let dx = cells[d].0.abs_diff(cells[d - 1].0);
        let dy = cells[d].1.abs_diff(cells[d - 1].1);
        assert_eq!(dx + dy, 1);
    }
}

#[test]
fn hilbert_holds_coordinates_to_the_grid() {
    assert_eq!(xy_to_hilbert(9, 0, 1), xy_to_hilbert(1, 0, 1));
    assert_eq!(xy_to_hilbert(u32::MAX, u32::MAX, 3), xy_to_hilbert(7, 7, 3));
    assert_eq!(xy_to_hilbert(0, 1 << 30, 30), xy_to_hilbert(0, (1 << 30) - 1, 30));
}

#[test]
fn hilbert_index_at_the_deepest_zoom() {
    let last = (1u32 << 30) - 1;
    assert_eq!(xy_to_hilbert(0, 0, 30), 0);
    assert_eq!(xy_to_hilbert(last, 0, 30), (1u64 << 60) - 1);
}

#[test]
fn tile_id_carries_the_zoom_in_its_top_byte() {
    assert_eq!(coord_to_tile_id(0, 0, 0), 0);
    assert_eq!(coord_to_tile_id(1, 1, 0), (1 << 56) | 3);
    assert_eq!(coord_to_tile_id(2, 3, 3), (2 << 56) | 10);
    assert_eq!(coord_to_tile_id(28, 0, 0) >> 56, 28);
}

#[test]
fn rot_turns_a_quadrant() {
    let (mut x, mut y) = (1u32, 2u32);
    rot(4, &mut x, &mut y, false, true);
    assert_eq!((x, y), (1, 2));
    rot(4, &mut x, &mut y, true, true);
    assert_eq!((x, y), (1, 2));
    rot(4, &mut x, &mut y, false, false);
    assert_eq!((x, y), (2, 1));
    rot(4, &mut x, &mut y, true, false);
    assert_eq!((x, y), (2, 1));
    let (mut x, mut y) = (0u32, 3u32);
    rot(4, &mut x, &mut y, true, false);
    assert_eq!((x, y), (0, 3));
    let (mut x, mut y) = (0u32, 0u32);
    rot(1 << 32, &mut x, &mut y, true, false);
    assert_eq!((x, y), (u32::MAX, u32::MAX));
}

#[test]
fn entries_start_where_the_one_before_ends() {
    let mut entries: Vec<TileEntry> = Vec::new();
    assert!(push_entry(&mut entries, 7, vec![1, 2, 3]));
    assert!(push_entry(&mut entries, 9, Vec::new()));
    assert!(push_entry(&mut entries, 9, vec![4; 10]));
    assert!(push_entry(&mut entries, 12, vec![5]));
    let seen: Vec<(u64, u64, u32)> =
        entries.iter().map(|e| (e.tile_id, e.offset, e.length)).collect();
    assert_eq!(seen, vec![(7, 0, 3), (9, 3, 0), (9, 3, 10), (12, 13, 1)]);
    assert_eq!(entries[2].data, vec![4; 10]);
}

#[test]
fn directory_lists_ids_runs_lengths_and_offsets() {
    let mut entries: Vec<TileEntry> = Vec::new();
    assert!(push_entry(&mut entries, 5, vec![0; 300]));
    assert!(push_entry(&mut entries, 6, vec![0; 2]));
    assert!(push_entry(&mut entries, 1 << 56, vec![0; 200]));
    let plain = write_directory(&entries);
    let mut expected = vec![3u8];
    // ids 5, 6, 2^56: deltas 5, 1, 2^56 - 6
    expected.extend([5, 1]);
    expected.extend([0xfa, 0xff, 0xff, 0xff, 0xff, 0xff, 0xff, 0x7f]);
    expected.extend([1, 1, 1]);
    // lengths 300, 2, 200: deltas +300, -298, +198
    expected.extend([0xd8, 0x04]);
    expected.extend([0xd3, 0x04]);
    expected.extend([0x8c, 0x03]);
    // offsets 0, 300, 302: deltas 0, +300, +2
    expected.extend([0x00]);
    expected.extend([0xd8, 0x04]);
    expected.extend([0x04]);
    assert_eq!(plain, expected);
    let (ids, runs, lengths, offsets) = read_directory(&plain);
    assert_eq!(ids, vec![5, 6, 1 << 56]);
    assert_eq!(runs, vec![1, 1, 1]);
    assert_eq!(lengths, vec![300, 2, 200]);
    assert_eq!(offsets, vec![0, 300, 302]);
}

#[test]
fn directory_of_no_entry_is_a_zero_count() {
    assert_eq!(write_directory(&[]), vec![0]);
}

#[test]
fn compressed_directory_unpacks_to_the_plain_one() {
    let mut entries: Vec<TileEntry> = Vec::new();
    for i in 0..50u64 {
        assert!(push_entry(&mut entries, 3 * i, vec![i as u8; (i % 7) as usize]));
    }
    let plain = write_directory(&entries);
    let packed = encode_directory(&entries).unwrap();
    assert_eq!(&packed[0..3], &[0x1f, 0x8b, 8]);
    assert_ne!(packed, plain);
    assert_eq!(gunzip(&packed), plain);
}

#[test]
fn archive_is_put_together_from_its_parts() {
    let metadata = metadata(0, 3, (-1.0, -2.0, 3.0, 4.0), (1.0, 1.0));
    let mut entries: Vec<TileEntry> = Vec::new();
    assert!(push_entry(&mut entries, 1, vec![0xa1, 0xa2]));
    assert!(push_entry(&mut entries, 2, vec![0xb1, 0xb2, 0xb3]));
    let directory = [0xd1u8, 0xd2, 0xd3, 0xd4];
    let json = [0xe1u8];
    let archive = assemble_archive(&metadata, &entries, &directory, &json);
    assert_eq!(archive.len(), 127 + 4 + 1 + 5);
    assert_eq!(u64_at(&archive, 8), 127);
    assert_eq!(u64_at(&archive, 16), 4);
    assert_eq!(u64_at(&archive, 24), 131);
    assert_eq!(u64_at(&archive, 32), 1);
    assert_eq!(u64_at(&archive, 56), 132);
    assert_eq!(u64_at(&archive, 64), 5);
    assert_eq!(u64_at(&archive, 80), 2);
    assert_eq!(&archive[127..], &[0xd1, 0xd2, 0xd3, 0xd4, 0xe1, 0xa1, 0xa2, 0xb1, 0xb2, 0xb3]);
    let mut header = Vec::new();
    let layout = Layout {
        tile_count: 2,
        root_directory_offset: 127,
        root_directory_length: 4,
        json_metadata_offset: 131,
        json_metadata_length: 1,
        tile_data_offset: 132,
        tile_data_length: 5,
    };
    write_header(&mut header, &metadata, &layout);
    assert_eq!(&archive[..127], &header[..]);
}

#[test]
fn archive_without_tiles_is_a_header_with_its_parts() {
    let metadata = metadata(0, 0, (0.0, 0.0, 0.0, 0.0), (0.0, 0.0));
    let archive = assemble_archive(&metadata, &[], &[], &[]);
    assert_eq!(archive.len(), 127);
    assert!(archive.starts_with(b"PMTiles\x03"));
    assert_eq!(u64_at(&archive, 56), 127);
    assert_eq!(u64_at(&archive, 64), 0);
}

#[test]
fn compressed_metadata_unpacks_to_json() {
    let metadata = metadata(0, 1, (-180.0, -85.0, 180.0, 85.0), (0.0, 0.0));
    let packed = generate_json_metadata(&metadata).unwrap();
    assert_eq!(&packed[0..2], &[0x1f, 0x8b]);
    let text = String::from_utf8(gunzip(&packed)).unwrap();
    let value: serde_json::Value = serde_json::from_str(&text).unwrap();
    assert_eq!(value["name"], "test.pmtiles");
    assert_eq!(value["antimeridian_adjusted_bounds"], "-180.000000,-85.000000,180.000000,85.000000");
}
