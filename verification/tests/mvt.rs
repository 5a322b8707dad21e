use vector_tile_core::mvt_encoder::{
    build_layer, command_integer, encode_geometry, encode_tile, json_to_mvt_value, zigzag_encode,
    ValueKey,
};
use vector_tile_core::properties::PropertyValue;
use vector_tile_core::tiler::{TileFeature, TileGeometry};
use vector_tile_core::vector_tile::{Feature, GeomType, Layer, Value};
use vector_tile_core::wire::{put_key, put_len_field, put_packed_field, put_varint_field};
use vector_tile_core::TileError;

fn point(x: i32, y: i32) -> TileFeature {
    TileFeature { geometry: TileGeometry::Point(x, y), properties: Vec::new() }
}

fn with_properties(x: i32, y: i32, properties: Vec<(&str, PropertyValue)>) -> TileFeature {
    TileFeature {
        geometry: TileGeometry::Point(x, y),
        properties: properties.into_iter().map(|(k, v)| (k.to_string(), v)).collect(),
    }
}

fn text(s: &str) -> PropertyValue {
    PropertyValue::String(s.to_string())
}

fn integer(value: i64) -> PropertyValue {
    PropertyValue::Integer { value, text: (value as f64).to_string() }
}

fn double(value: f64) -> PropertyValue {
    PropertyValue::Double { bits: value.to_bits(), text: value.to_string() }
}

fn unzigzag(u: u32) -> i32 {
    ((u >> 1) as i32) ^ -((u & 1) as i32)
}

/// A reader of protocol-buffer fields over a byte slice.
struct Reader<'a> {
    bytes: &'a [u8],
}

impl<'a> Reader<'a> {
    fn done(&self) -> bool {
        self.bytes.is_empty()
    }

    fn varint(&mut self) -> u64 {
        prost::encoding::decode_varint(&mut self.bytes).unwrap()
    }

    fn key(&mut self) -> (u32, u8) {
        let key = self.varint();
        ((key >> 3) as u32, (key & 7) as u8)
    }

    fn chunk(&mut self) -> &'a [u8] {
        let n = self.varint() as usize;
        let (head, tail) = self.bytes.split_at(n);
        self.bytes = tail;
        head
    }

    fn fixed64(&mut self) -> u64 {
        let (head, tail) = self.bytes.split_at(8);
        self.bytes = tail;
        let mut raw = [0u8; 8];
        raw.copy_from_slice(head);
        u64::from_le_bytes(raw)
    }

    fn packed(&mut self) -> Vec<u32> {
        let mut inner = Reader { bytes: self.chunk() };
        let mut out = Vec::new();
        while !inner.done() {
            out.push(inner.varint() as u32);
        }
        out
    }
}

fn read_value(bytes: &[u8]) -> Value {
    let mut r = Reader { bytes };
    let mut v =
        Value { string_value: None, double_value: None, int_value: None, bool_value: None };
    while !r.done() {
        match r.key() {
            (1, 2) => v.string_value = Some(String::from_utf8(r.chunk().to_vec()).unwrap()),
            (3, 1) => v.double_value = Some(r.fixed64()),
            (4, 0) => v.int_value = Some(r.varint() as i64),
            (7, 0) => v.bool_value = Some(r.varint() != 0),
            other => panic!("field {:?} in a value", other),
        }
    }
    v
}

fn read_feature(bytes: &[u8]) -> Feature {
    let mut r = Reader { bytes };
    let mut f =
        Feature { id: 0, tags: Vec::new(), geom_type: GeomType::Unknown, geometry: Vec::new() };
    while !r.done() {
        match r.key() {
            (1, 0) => f.id = r.varint(),
            (2, 2) => f.tags = r.packed(),
            (3, 0) => {
                f.geom_type = match r.varint() {
                    1 => GeomType::Point,
                    2 => GeomType::Linestring,
                    3 => GeomType::Polygon,
                    _ => GeomType::Unknown,
                }
            }
            (4, 2) => f.geometry = r.packed(),
            other => panic!("field {:?} in a feature", other),
        }
    }
    f
}

fn read_layer(bytes: &[u8]) -> Layer {
    let mut r = Reader { bytes };
    let mut layer = Layer {
        version: 0,
        name: String::new(),
        features: Vec::new(),
        keys: Vec::new(),
        values: Vec::new(),
        extent: 0,
    };
    while !r.done() {
        match r.key() {
            (1, 2) => layer.name = String::from_utf8(r.chunk().to_vec()).unwrap(),
            (2, 2) => layer.features.push(read_feature(r.chunk())),
            (3, 2) => layer.keys.push(String::from_utf8(r.chunk().to_vec()).unwrap()),
            (4, 2) => layer.values.push(read_value(r.chunk())),
            (5, 0) => layer.extent = r.varint() as u32,
            (15, 0) => layer.version = r.varint() as u32,
            other => panic!("field {:?} in a layer", other),
        }
    }
    layer
}

/// Reads a tile back; it must hold layers only.
fn read_tile(bytes: &[u8]) -> Vec<Layer> {
    let mut r = Reader { bytes };
    let mut layers = Vec::new();
    while !r.done() {
        assert_eq!(r.key(), (3, 2));
        layers.push(read_layer(r.chunk()));
    }
    layers
}

fn write_tile(layer: &Layer) -> Vec<u8> {
    let mut out = Vec::new();
    put_len_field(&mut out, 3, &layer.encode());
    out
}

fn same_value(a: &Value, b: &Value) -> bool {
    a.string_value == b.string_value
        && a.double_value == b.double_value
        && a.int_value == b.int_value
        && a.bool_value == b.bool_value
}

#[test]
fn command_integer_packs_id_and_count() {
    assert_eq!(command_integer(1, 1), 9);
    assert_eq!(command_integer(2, 3), 26);
    assert_eq!(command_integer(7, 1), 15);
    assert_eq!(command_integer(2, 0x1fff_ffff), 0xffff_fffa);
    assert_eq!(command_integer(9, 1), 9);
    assert_eq!(command_integer(1, 0x2000_0000), 1);
}

#[test]
fn zigzag_of_32_bit_numbers() {
    assert_eq!(zigzag_encode(0), 0);
    assert_eq!(zigzag_encode(-1), 1);
    assert_eq!(zigzag_encode(1), 2);
    assert_eq!(zigzag_encode(-2), 3);
    assert_eq!(zigzag_encode(2048), 4096);
    assert_eq!(zigzag_encode(i32::MAX), u32::MAX - 1);
    assert_eq!(zigzag_encode(i32::MIN), u32::MAX);
}

#[test]
fn zigzag_decodes_to_what_was_encoded() {
    for n in [0, 1, -1, 2, -2, 63, -64, 2048, -2049, 4096, i32::MAX, i32::MIN, i32::MAX - 1] {
        assert_eq!(zigzag_encode(n), ((n << 1) ^ (n >> 31)) as u32);
        assert_eq!(unzigzag(zigzag_encode(n)), n);
    }
}

#[test]
fn point_is_one_move() {
    let (kind, stream) = encode_geometry(&TileGeometry::Point(2048, 2048)).unwrap();
    assert_eq!(kind, GeomType::Point);
    assert_eq!(stream, vec![9, 4096, 4096]);
    let (_, stream) = encode_geometry(&TileGeometry::Point(-3, 5000)).unwrap();
    assert_eq!(stream, vec![9, 5, 10000]);
}

#[test]
fn line_is_a_move_and_its_segments() {
    let line = TileGeometry::LineString(vec![(2, 2), (2, 10), (10, 10)]);
    let (kind, stream) = encode_geometry(&line).unwrap();
    assert_eq!(kind, GeomType::Linestring);
    assert_eq!(stream, vec![9, 4, 4, 18, 0, 16, 16, 0]);
    let back = TileGeometry::LineString(vec![(10, 10), (2, 2)]);
    assert_eq!(encode_geometry(&back).unwrap().1, vec![9, 20, 20, 10, 15, 15]);
}

#[test]
fn line_of_fewer_than_two_points_is_refused() {
    assert_eq!(
        encode_geometry(&TileGeometry::LineString(Vec::new())),
        Err(TileError::InvalidGeometry)
    );
    assert_eq!(
        encode_geometry(&TileGeometry::LineString(vec![(1, 1)])),
        Err(TileError::InvalidGeometry)
    );
}

#[test]
fn polygon_ring_is_closed_by_a_command() {
    let square = TileGeometry::Polygon(vec![vec![(0, 0), (0, 10), (10, 10), (10, 0), (0, 0)]]);
    let (kind, stream) = encode_geometry(&square).unwrap();
    assert_eq!(kind, GeomType::Polygon);
    assert_eq!(stream, vec![9, 0, 0, 26, 0, 20, 20, 0, 0, 19, 15]);
    assert_eq!(*stream.last().unwrap(), 15);
}

#[test]
fn polygon_rings_each_start_from_the_origin() {
    let rings = TileGeometry::Polygon(vec![
        vec![(0, 0), (0, 10), (10, 10), (0, 0)],
        vec![(1, 2)],
        vec![(2, 2), (2, 4), (4, 4), (2, 2)],
    ]);
    let (_, stream) = encode_geometry(&rings).unwrap();
    assert_eq!(
        stream,
        vec![9, 0, 0, 18, 0, 20, 20, 0, 15, 9, 4, 4, 18, 0, 4, 4, 0, 15]
    );
}

#[test]
fn polygon_without_a_ring_of_four_points_is_refused() {
    assert_eq!(encode_geometry(&TileGeometry::Polygon(Vec::new())), Err(TileError::InvalidGeometry));
    let short = TileGeometry::Polygon(vec![vec![(0, 0), (1, 1), (0, 0)], Vec::new()]);
    assert_eq!(encode_geometry(&short), Err(TileError::InvalidGeometry));
}

#[test]
fn offsets_wrap_like_32_bit_numbers() {
    let line = TileGeometry::LineString(vec![(i32::MIN, 0), (i32::MAX, 0)]);
    let (_, stream) = encode_geometry(&line).unwrap();
    assert_eq!(stream, vec![9, u32::MAX, 0, 10, 1, 0]);
}

#[test]
fn value_of_each_kind() {
    let v = json_to_mvt_value(&text("red"));
    assert_eq!(v.string_value.as_deref(), Some("red"));
    assert!(v.double_value.is_none() && v.int_value.is_none() && v.bool_value.is_none());
    assert_eq!(json_to_mvt_value(&integer(-7)).int_value, Some(-7));
    assert_eq!(json_to_mvt_value(&double(1.5)).double_value, Some(1.5f64.to_bits()));
    assert_eq!(json_to_mvt_value(&PropertyValue::Boolean(true)).bool_value, Some(true));
    for empty in [PropertyValue::Null, PropertyValue::Other] {
        let v = json_to_mvt_value(&empty);
        assert!(v.string_value.is_none());
        assert!(v.double_value.is_none() && v.int_value.is_none() && v.bool_value.is_none());
    }
}

#[test]
fn value_keys_tell_kinds_apart() {
    assert!(ValueKey::from_json(&text("1")).same(&ValueKey::from_json(&text("1"))));
    assert!(!ValueKey::from_json(&text("1")).same(&ValueKey::from_json(&integer(1))));
    assert!(!ValueKey::from_json(&integer(1)).same(&ValueKey::from_json(&double(1.0))));
    assert!(!ValueKey::from_json(&integer(1)).same(&ValueKey::from_json(&integer(2))));
    assert!(ValueKey::from_json(&double(0.5)).same(&ValueKey::from_json(&double(0.5))));
    assert!(!ValueKey::from_json(&double(0.0)).same(&ValueKey::from_json(&double(-0.0))));
    assert!(!ValueKey::from_json(&PropertyValue::Boolean(true))
        .same(&ValueKey::from_json(&PropertyValue::Boolean(false))));
    assert!(!ValueKey::from_json(&PropertyValue::Null).same(&ValueKey::from_json(&text(""))));
    assert!(!ValueKey::from_json(&text("")).same(&ValueKey::from_json(&PropertyValue::Other)));
    assert!(!ValueKey::from_json(&PropertyValue::Null).same(&ValueKey::from_json(&integer(0))));
    assert!(!ValueKey::from_json(&PropertyValue::Null)
        .same(&ValueKey::from_json(&PropertyValue::Boolean(false))));
    assert!(ValueKey::from_json(&PropertyValue::Null).same(&ValueKey::from_json(&PropertyValue::Null)));
    assert!(ValueKey::from_json(&PropertyValue::Other).same(&ValueKey::from_json(&PropertyValue::Null)));
}

#[test]
fn value_bytes_of_each_kind() {
    assert_eq!(json_to_mvt_value(&text("red")).encode(), vec![0x0a, 3, b'r', b'e', b'd']);
    assert_eq!(json_to_mvt_value(&text("é")).encode(), vec![0x0a, 2, 0xc3, 0xa9]);
    assert_eq!(json_to_mvt_value(&integer(300)).encode(), vec![0x20, 0xac, 0x02]);
    assert_eq!(
        json_to_mvt_value(&integer(-1)).encode(),
        vec![0x20, 0xff, 0xff, 0xff, 0xff, 0xff, 0xff, 0xff, 0xff, 0xff, 0x01]
    );
    assert_eq!(
        json_to_mvt_value(&integer(i64::MIN)).encode(),
        vec![0x20, 0x80, 0x80, 0x80, 0x80, 0x80, 0x80, 0x80, 0x80, 0x80, 0x01]
    );
    assert_eq!(
        json_to_mvt_value(&double(1.0)).encode(),
        vec![0x19, 0, 0, 0, 0, 0, 0, 0xf0, 0x3f]
    );
    assert_eq!(
        json_to_mvt_value(&PropertyValue::Double { bits: 0x0102_0304_0506_0708, text: String::new() })
            .encode(),
        vec![0x19, 8, 7, 6, 5, 4, 3, 2, 1]
    );
    assert_eq!(json_to_mvt_value(&PropertyValue::Boolean(true)).encode(), vec![0x38, 1]);
    assert_eq!(json_to_mvt_value(&PropertyValue::Boolean(false)).encode(), vec![0x38, 0]);
    assert_eq!(json_to_mvt_value(&PropertyValue::Null).encode(), Vec::<u8>::new());
}

#[test]
fn wire_fields_are_key_then_payload() {
    let mut buf = vec![0xee];
    put_key(&mut buf, 15, 0);
    assert_eq!(buf, vec![0xee, 0x78]);
    put_key(&mut buf, 16, 2);
    assert_eq!(buf, vec![0xee, 0x78, 0x82, 0x01]);
    let mut buf = Vec::new();
    put_varint_field(&mut buf, 1, 300);
    assert_eq!(buf, vec![0x08, 0xac, 0x02]);
    let mut buf = Vec::new();
    put_len_field(&mut buf, 3, &[7u8; 130]);
    assert_eq!(&buf[..3], &[0x1a, 0x82, 0x01]);
    assert_eq!(&buf[3..], &[7u8; 130]);
    let mut buf = Vec::new();
    put_packed_field(&mut buf, 4, &vec![9, 4096, 4096]);
    assert_eq!(buf, vec![0x22, 5, 9, 0x80, 0x20, 0x80, 0x20]);
    let mut buf = vec![1];
    put_packed_field(&mut buf, 4, &Vec::new());
    assert_eq!(buf, vec![1]);
}

#[test]
fn tile_without_features_is_refused() {
    assert_eq!(encode_tile(&[], "layer"), Err(TileError::EmptyTile));
    assert!(matches!(build_layer(&[], "layer"), Err(TileError::EmptyTile)));
}

#[test]
fn tile_with_a_bad_geometry_is_refused() {
    let features = vec![
        point(1, 1),
        TileFeature { geometry: TileGeometry::LineString(vec![(0, 0)]), properties: Vec::new() },
    ];
    assert_eq!(encode_tile(&features, "layer"), Err(TileError::InvalidGeometry));
    let features = vec![TileFeature {
        geometry: TileGeometry::Polygon(vec![vec![(0, 0), (1, 1), (0, 0)]]),
        properties: Vec::new(),
    }];
    assert_eq!(encode_tile(&features, "layer"), Err(TileError::InvalidGeometry));
}

#[test]
fn centred_point_gives_one_layer_with_one_point() {
    let bytes = encode_tile(&[point(2048, 2048)], "pts").unwrap();
    assert_eq!(
        bytes,
        vec![
            0x1a, 23, // tile: layer, 23 bytes
            0x0a, 3, b'p', b't', b's', // name
            0x12, 11, // feature, 11 bytes
            0x08, 0, // id 0
            0x18, 1, // type point
            0x22, 5, 9, 0x80, 0x20, 0x80, 0x20, // geometry
            0x28, 0x80, 0x20, // extent 4096
            0x78, 2, // version 2
        ]
    );
    let layers = read_tile(&bytes);
    assert_eq!(layers.len(), 1);
    assert_eq!(layers[0].name, "pts");
    assert_eq!(layers[0].version, 2);
    assert_eq!(layers[0].extent, 4096);
    assert_eq!(layers[0].features.len(), 1);
    assert_eq!(layers[0].features[0].geom_type, GeomType::Point);
    assert_eq!(layers[0].features[0].geometry, vec![9, 4096, 4096]);
    assert!(layers[0].keys.is_empty());
    assert!(layers[0].values.is_empty());
}

#[test]
fn equal_properties_share_their_dictionary_entries() {
    let features = vec![
        with_properties(1, 1, vec![("color", text("red"))]),
        with_properties(2, 2, vec![("color", text("red"))]),
    ];
    let layer = build_layer(&features, "layer").unwrap();
    assert_eq!(layer.keys, vec!["color".to_string()]);
    assert_eq!(layer.values.len(), 1);
    assert_eq!(layer.values[0].string_value.as_deref(), Some("red"));
    assert!(layer.values[0].int_value.is_none());
    assert_eq!(layer.features[0].tags, vec![0, 0]);
    assert_eq!(layer.features[1].tags, vec![0, 0]);
    assert_eq!(layer.features[0].id, 0);
    assert_eq!(layer.features[1].id, 1);

    let read = read_tile(&encode_tile(&features, "layer").unwrap());
    assert_eq!(read[0].keys, vec!["color".to_string()]);
    assert_eq!(read[0].values.len(), 1);
    assert!(same_value(&read[0].values[0], &layer.values[0]));
    assert_eq!(read[0].features[0].tags, vec![0, 0]);
    assert_eq!(read[0].features[1].tags, vec![0, 0]);
}

#[test]
fn dictionaries_grow_in_order_of_first_appearance() {
    let features = vec![
        with_properties(0, 0, vec![("b", integer(1)), ("a", text("1"))]),
        with_properties(0, 0, vec![("a", integer(1)), ("c", double(1.0)), ("b", text("1"))]),
        with_properties(0, 0, vec![("c", PropertyValue::Boolean(true)), ("c", double(1.0))]),
    ];
    let layer = build_layer(&features, "layer").unwrap();
    assert_eq!(layer.keys, vec!["b".to_string(), "a".to_string(), "c".to_string()]);
    assert_eq!(layer.values.len(), 4);
    assert_eq!(layer.values[0].int_value, Some(1));
    assert_eq!(layer.values[1].string_value.as_deref(), Some("1"));
    assert_eq!(layer.values[2].double_value, Some(1.0f64.to_bits()));
    assert_eq!(layer.values[3].bool_value, Some(true));
    assert_eq!(layer.features[0].tags, vec![0, 0, 1, 1]);
    assert_eq!(layer.features[1].tags, vec![1, 0, 2, 2, 0, 1]);
    assert_eq!(layer.features[2].tags, vec![2, 3, 2, 2]);
}

#[test]
fn value_without_payload_has_a_slot_of_its_own() {
    let features = vec![
        with_properties(0, 0, vec![("a", PropertyValue::Null), ("b", text(""))]),
        with_properties(0, 0, vec![("a", text("")), ("b", PropertyValue::Other)]),
    ];
    let layer = build_layer(&features, "layer").unwrap();
    assert_eq!(layer.values.len(), 2);
    assert!(layer.values[0].string_value.is_none());
    assert!(layer.values[0].int_value.is_none());
    assert!(layer.values[0].double_value.is_none());
    assert!(layer.values[0].bool_value.is_none());
    assert_eq!(layer.values[1].string_value.as_deref(), Some(""));
    assert_eq!(layer.features[0].tags, vec![0, 0, 1, 1]);
    assert_eq!(layer.features[1].tags, vec![0, 1, 1, 0]);

    let features = vec![
        with_properties(0, 0, vec![("b", text("")), ("a", PropertyValue::Null)]),
    ];
    let layer = build_layer(&features, "layer").unwrap();
    assert_eq!(layer.values.len(), 2);
    assert_eq!(layer.values[0].string_value.as_deref(), Some(""));
    assert!(layer.values[1].string_value.is_none());
    assert_eq!(layer.features[0].tags, vec![0, 0, 1, 1]);
}

#[test]
fn doubles_are_told_apart_by_their_text() {
    let one = PropertyValue::Double { bits: 1, text: "x".to_string() };
    let other = PropertyValue::Double { bits: 2, text: "x".to_string() };
    let third = PropertyValue::Double { bits: 1, text: "y".to_string() };
    let features = vec![with_properties(0, 0, vec![("a", one), ("a", other), ("a", third)])];
    let layer = build_layer(&features, "layer").unwrap();
    assert_eq!(layer.values.len(), 2);
    assert_eq!(layer.values[0].double_value, Some(1));
    assert_eq!(layer.values[1].double_value, Some(1));
    assert_eq!(layer.features[0].tags, vec![0, 0, 0, 0, 0, 1]);
}

#[test]
fn tile_reads_back_and_writes_the_same_bytes() {
    let features = vec![
        with_properties(
            2048,
            2048,
            vec![
                ("name", text("Zürich \"HB\"")),
                ("pop", integer(-402_762)),
                ("area", double(87.88)),
                ("capital", PropertyValue::Boolean(false)),
                ("note", PropertyValue::Null),
            ],
        ),
        TileFeature {
            geometry: TileGeometry::LineString(vec![(0, 0), (4096, 4096), (-5, 4100)]),
            properties: vec![("name".to_string(), text("line")), ("pop".to_string(), integer(0))],
        },
        TileFeature {
            geometry: TileGeometry::Polygon(vec![
                vec![(0, 0), (0, 100), (100, 100), (100, 0), (0, 0)],
                vec![(10, 10), (20, 10), (20, 20), (10, 10)],
            ]),
            properties: vec![("area".to_string(), double(87.88))],
        },
    ];
    let bytes = encode_tile(&features, "places").unwrap();
    let layers = read_tile(&bytes);
    assert_eq!(layers.len(), 1);
    assert_eq!(write_tile(&layers[0]), bytes);

    let built = build_layer(&features, "places").unwrap();
    let read = &layers[0];
    assert_eq!(read.name, built.name);
    assert_eq!(read.version, built.version);
    assert_eq!(read.extent, built.extent);
    assert_eq!(read.keys, built.keys);
    assert_eq!(read.values.len(), built.values.len());
    for (a, b) in read.values.iter().zip(built.values.iter()) {
        assert!(same_value(a, b));
    }
    assert_eq!(read.features.len(), 3);
    for (a, b) in read.features.iter().zip(built.features.iter()) {
        assert_eq!(a.id, b.id);
        assert_eq!(a.tags, b.tags);
        assert_eq!(a.geom_type, b.geom_type);
        assert_eq!(a.geometry, b.geometry);
    }
    assert_eq!(read.features[1].geometry, vec![9, 0, 0, 18, 8192, 8192, 8201, 8]);
    assert_eq!(read.features[2].geom_type, GeomType::Polygon);
}

#[test]
fn layer_fields_come_in_ascending_field_number() {
    let features = vec![with_properties(1, 2, vec![("k", text("v"))])];
    let bytes = encode_tile(&features, "l").unwrap();
    let mut tile = Reader { bytes: &bytes };
    assert_eq!(tile.key(), (3, 2));
    let mut layer = Reader { bytes: tile.chunk() };
    assert!(tile.done());
    let mut order = Vec::new();
    while !layer.done() {
        let (field, wire) = layer.key();
        order.push(field);
        match wire {
            0 => {
                layer.varint();
            }
            2 => {
                layer.chunk();
            }
            other => panic!("wire type {}", other),
        }
    }
    assert_eq!(order, vec![1, 2, 3, 4, 5, 15]);
}

/// Rebuilds the features of a layer: geometry from the command stream,
/// properties from the tags through keys and values.
fn rebuild(layer: &Layer) -> Vec<TileFeature> {
    let point = |s: &[u32], at: usize| (unzigzag(s[at]), unzigzag(s[at + 1]));
    let path = |s: &[u32]| {
        let mut points = vec![point(s, 1)];
        for i in 0..(s[3] >> 3) as usize {
            let last = *points.last().unwrap();
            let step = point(s, 4 + 2 * i);
            points.push((last.0.wrapping_add(step.0), last.1.wrapping_add(step.1)));
        }
        points
    };
    layer
        .features
        .iter()
        .map(|f| {
            let s = &f.geometry[..];
            let geometry = match f.geom_type {
                GeomType::Linestring => TileGeometry::LineString(path(s)),
                GeomType::Polygon => {
                    let mut rings = Vec::new();
                    let mut rest = s;
                    while rest.len() >= 5 {
                        let size = 5 + 2 * (rest[3] >> 3) as usize;
                        let mut ring = path(&rest[..size - 1]);
                        ring.push(ring[0]);
                        rings.push(ring);
                        rest = &rest[size..];
                    }
                    TileGeometry::Polygon(rings)
                }
                _ => {
                    let p = point(s, 1);
                    TileGeometry::Point(p.0, p.1)
                }
            };
            let properties = f
                .tags
                .chunks(2)
                .map(|pair| {
                    let v = &layer.values[pair[1] as usize];
                    let value = if let Some(s) = &v.string_value {
                        PropertyValue::String(s.clone())
                    } else if let Some(bits) = v.double_value {
                        double(f64::from_bits(bits))
                    } else if let Some(i) = v.int_value {
                        integer(i)
                    } else if let Some(b) = v.bool_value {
                        PropertyValue::Boolean(b)
                    } else {
                        PropertyValue::Null
                    };
                    (layer.keys[pair[0] as usize].clone(), value)
                })
                .collect();
            TileFeature { geometry, properties }
        })
        .collect()
}

#[test]
fn rebuilt_features_encode_to_the_same_bytes() {
    let features = vec![
        with_properties(
            7,
            -9,
            vec![
                ("name", text("a")),
                ("n", integer(-3)),
                ("x", double(0.25)),
                ("open", PropertyValue::Boolean(true)),
                ("none", PropertyValue::Null),
                ("list", PropertyValue::Other),
                ("blank", text("")),
            ],
        ),
        TileFeature {
            geometry: TileGeometry::LineString(vec![(i32::MIN, 5), (i32::MAX, -5), (0, 0)]),
            properties: vec![("x".to_string(), double(0.25)), ("name".to_string(), text("b"))],
        },
        TileFeature {
            geometry: TileGeometry::Polygon(vec![
                vec![(0, 0), (1, 1)],
                vec![(0, 0), (0, 100), (100, 100), (100, 0), (3, 3)],
                Vec::new(),
                vec![(10, 10), (20, 10), (20, 20), (10, 10)],
            ]),
            properties: vec![("n".to_string(), integer(-3)), ("n".to_string(), integer(4))],
        },
    ];
    let bytes = encode_tile(&features, "places").unwrap();
    let layers = read_tile(&bytes);
    let rebuilt = rebuild(&layers[0]);
    assert_eq!(rebuilt.len(), 3);
    match &rebuilt[2].geometry {
        TileGeometry::Polygon(rings) => {
            assert_eq!(rings.len(), 2);
            assert_eq!(rings[0], vec![(0, 0), (0, 100), (100, 100), (100, 0), (0, 0)]);
        }
        other => panic!("not a polygon: {:?}", other),
    }
    match &rebuilt[1].geometry {
        TileGeometry::LineString(points) => {
            assert_eq!(points, &vec![(i32::MIN, 5), (i32::MAX, -5), (0, 0)])
        }
        other => panic!("not a line: {:?}", other),
    }
    assert_eq!(encode_tile(&rebuilt, &layers[0].name).unwrap(), bytes);
}
