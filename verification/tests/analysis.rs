use vector_tile_core::analyzer::{analyze_properties, text_before};
use vector_tile_core::feature::{Feature, Geometry};
use vector_tile_core::metadata::{
    metadata_json_text, tiny_polygons, AttributeStats, Bounds, FieldType, GeometryKind,
    TileMetadata,
};
use vector_tile_core::properties::PropertyValue;

fn feature(properties: Vec<(&str, PropertyValue)>) -> Feature {
    Feature {
        geometry: Geometry::Point(0, 0),
        properties: properties.into_iter().map(|(k, v)| (k.to_string(), v)).collect(),
    }
}

fn text(s: &str) -> PropertyValue {
    PropertyValue::String(s.to_string())
}

fn number(value: f64) -> PropertyValue {
    if value.fract() == 0.0 {
        PropertyValue::Integer { value: value as i64, text: value.to_string() }
    } else {
        PropertyValue::Double { bits: value.to_bits(), text: value.to_string() }
    }
}

fn metadata(layer_name: &str) -> TileMetadata {
    TileMetadata {
        min_zoom: 0,
        max_zoom: 1,
        layer_name: layer_name.to_string(),
        bounds: Bounds {
            min_lon_e7: -10_000_000,
            min_lat_e7: -20_000_000,
            max_lon_e7: 30_000_000,
            max_lat_e7: 40_000_000,
            text: "-1.000000,-2.000000,3.000000,4.000000".to_string(),
        },
        center_lon_e7: 10_000_000,
        center_lat_e7: 10_000_000,
        feature_count: 3,
        geometry_type: GeometryKind::Point,
        fields: Vec::new(),
        attributes: Vec::new(),
    }
}

#[test]
fn texts_are_ordered_by_their_bytes() {
    assert!(text_before("a", "b"));
    assert!(!text_before("b", "a"));
    assert!(!text_before("a", "a"));
    assert!(text_before("", "a"));
    assert!(!text_before("a", ""));
    assert!(!text_before("", ""));
    assert!(text_before("ab", "abc"));
    assert!(text_before("Z", "a"));
    assert!(text_before("10", "9"));
    assert!(text_before("z", "é"));
    assert!(text_before("é", "日"));
    for (a, b) in [("a", "b"), ("ab", "abc"), ("z", "é"), ("", "x"), ("same", "same")] {
        assert_eq!(text_before(a, b), a < b);
        assert_eq!(text_before(b, a), b < a);
    }
}

#[test]
fn no_property_gives_no_field() {
    let (fields, attributes) = analyze_properties(&[feature(Vec::new())]);
    assert!(fields.is_empty());
    assert!(attributes.is_empty());
    let (fields, attributes) = analyze_properties(&[]);
    assert!(fields.is_empty());
    assert!(attributes.is_empty());
}

#[test]
fn fields_and_attributes_come_in_order_of_their_names() {
    let features = vec![
        feature(vec![("name", text("b")), ("pop", number(3.0)), ("open", PropertyValue::Boolean(true))]),
        feature(vec![("Zone", text("x")), ("name", text("a")), ("pop", number(1.5))]),
        feature(vec![("name", text("b")), ("open", PropertyValue::Boolean(false))]),
    ];
    let (fields, attributes) = analyze_properties(&features);
    assert_eq!(
        fields,
        vec![
            ("Zone".to_string(), FieldType::String),
            ("name".to_string(), FieldType::String),
            ("open".to_string(), FieldType::Boolean),
            ("pop".to_string(), FieldType::Number),
        ]
    );
    let seen: Vec<(&str, usize, bool, Vec<&str>)> = attributes
        .iter()
        .map(|a| {
            (a.attribute.as_str(), a.count, a.numeric, a.values.iter().map(|v| v.as_str()).collect())
        })
        .collect();
    assert_eq!(
        seen,
        vec![
            ("Zone", 1, false, vec!["x"]),
            ("name", 2, false, vec!["a", "b"]),
            ("open", 2, false, vec!["false", "true"]),
            ("pop", 2, true, vec!["1.5", "3"]),
        ]
    );
}

#[test]
fn field_of_mixed_types_is_a_string() {
    let features = vec![
        feature(vec![("a", number(1.0)), ("b", PropertyValue::Boolean(true)), ("c", PropertyValue::Null)]),
        feature(vec![("a", text("1")), ("b", number(2.0)), ("c", text("x")), ("d", PropertyValue::Other)]),
        feature(vec![("a", number(1.0)), ("b", PropertyValue::Boolean(true)), ("d", PropertyValue::Other)]),
    ];
    let (fields, attributes) = analyze_properties(&features);
    assert_eq!(
        fields,
        vec![
            ("a".to_string(), FieldType::String),
            ("b".to_string(), FieldType::String),
            ("c".to_string(), FieldType::String),
            ("d".to_string(), FieldType::String),
        ]
    );
    assert_eq!(attributes[0].values, vec!["1"]);
    assert!(!attributes[0].numeric);
    assert_eq!(attributes[1].values, vec!["2", "true"]);
    assert_eq!(attributes[2].values, vec!["null", "x"]);
    assert!(attributes[3].values.is_empty());
    assert_eq!(attributes[3].count, 0);
}

#[test]
fn attribute_lists_at_most_a_hundred_values() {
    let mut features = Vec::new();
    for i in (0..250).rev() {
        features.push(feature(vec![("n", text(&format!("{:03}", i))), ("m", number((i % 100) as f64))]));
    }
    let (fields, attributes) = analyze_properties(&features);
    assert_eq!(fields.len(), 2);
    assert_eq!(attributes[0].attribute, "m");
    assert_eq!(attributes[0].count, 100);
    assert_eq!(attributes[0].values.len(), 100);
    assert_eq!(attributes[1].attribute, "n");
    assert_eq!(attributes[1].count, 100);
    let expected: Vec<String> = (0..100).map(|i| format!("{:03}", i)).collect();
    assert_eq!(attributes[1].values, expected);
    let mut sorted = attributes[0].values.clone();
    sorted.sort();
    sorted.dedup();
    assert_eq!(sorted, attributes[0].values);
}

#[test]
fn tiny_polygons_by_zoom() {
    let expected = [
        (0u8, 1000u64),
        (1, 990),
        (5, 950),
        (6, 1250),
        (7, 1300),
        (8, 1300),
        (9, 850),
        (10, 700),
        (13, 250),
        (14, 100),
        (15, 10),
        (30, 10),
        (255, 10),
    ];
    for (zoom, count) in expected {
        assert_eq!(tiny_polygons(1000, zoom), count);
    }
    assert_eq!(tiny_polygons(0, 7), 0);
    assert_eq!(tiny_polygons(1, 1), 0);
    assert_eq!(tiny_polygons(3, 6), 3);
    assert_eq!(tiny_polygons(7, 9), 5);
    assert_eq!(tiny_polygons(99, 20), 0);
    assert_eq!(tiny_polygons(usize::MAX, 0), usize::MAX as u64);
    assert_eq!(tiny_polygons(usize::MAX, 7), u64::MAX);
}

#[test]
fn metadata_json_has_its_members_in_order() {
    let mut m = metadata("roads");
    m.fields = vec![("name".to_string(), FieldType::String), ("pop".to_string(), FieldType::Number)];
    m.attributes = vec![
        AttributeStats {
            attribute: "name".to_string(),
            count: 2,
            numeric: false,
            values: vec!["a".to_string(), "b".to_string()],
        },
        AttributeStats { attribute: "pop".to_string(), count: 0, numeric: true, values: Vec::new() },
    ];
    let text = metadata_json_text(&m).unwrap();
    assert_eq!(
        text,
        "{\"name\":\"roads.pmtiles\",\"format\":\"pbf\",\"type\":\"overlay\",\
         \"description\":\"roads.pmtiles\",\"version\":\"2\",\
         \"strategies\":[{\"tiny_polygons\":3},{\"tiny_polygons\":2}],\
         \"generator\":\"web-vector-tile-maker\",\
         \"generator_options\":\"web-vector-tile-maker -o roads.pmtiles\",\
         \"antimeridian_adjusted_bounds\":\"-1.000000,-2.000000,3.000000,4.000000\",\
         \"vector_layers\":[{\"id\":\"roads\",\"description\":\"\",\"minzoom\":0,\"maxzoom\":1,\
         \"fields\":{\"name\":\"String\",\"pop\":\"Number\"}}],\
         \"tilestats\":{\"layerCount\":1,\"layers\":[{\"layer\":\"roads\",\"count\":3,\
         \"geometry\":\"Point\",\"attributeCount\":2,\"attributes\":[\
         {\"attribute\":\"name\",\"count\":2,\"type\":\"string\",\"values\":[\"a\",\"b\"]},\
         {\"attribute\":\"pop\",\"count\":0,\"type\":\"number\",\"values\":[]}]}]}}"
    );
    let value: serde_json::Value = serde_json::from_str(&text).unwrap();
    assert_eq!(value["tilestats"]["layers"][0]["attributes"][0]["values"][1], "b");
}

#[test]
fn metadata_json_without_fields_and_with_other_kinds() {
    let mut m = metadata("l");
    m.min_zoom = 4;
    m.max_zoom = 4;
    m.feature_count = 200;
    m.geometry_type = GeometryKind::LineString;
    let text = metadata_json_text(&m).unwrap();
    assert!(text.contains("\"strategies\":[{\"tiny_polygons\":192}],"));
    assert!(text.contains("\"minzoom\":4,\"maxzoom\":4,\"fields\":{}}],"));
    assert!(text.contains("\"count\":200,\"geometry\":\"LineString\",\"attributeCount\":0,\"attributes\":[]"));
    m.geometry_type = GeometryKind::Polygon;
    m.min_zoom = 9;
    m.max_zoom = 3;
    let text = metadata_json_text(&m).unwrap();
    assert!(text.contains("\"strategies\":[],"));
    assert!(text.contains("\"geometry\":\"Polygon\""));
}

#[test]
fn metadata_json_escapes_texts() {
    let mut m = metadata("a\"b\\c\nd\u{1}é");
    m.fields = vec![("k\"".to_string(), FieldType::Boolean)];
    m.attributes = vec![AttributeStats {
        attribute: "k\"".to_string(),
        count: 1,
        numeric: false,
        values: vec!["\t".to_string()],
    }];
    let text = metadata_json_text(&m).unwrap();
    assert!(text.starts_with("{\"name\":\"a\\\"b\\\\c\\nd\\u0001é.pmtiles\","));
    assert!(text.contains("\"fields\":{\"k\\\"\":\"Boolean\"}"));
    assert!(text.contains("\"values\":[\"\\t\"]"));
    let value: serde_json::Value = serde_json::from_str(&text).unwrap();
    assert_eq!(value["name"], "a\"b\\c\nd\u{1}é.pmtiles");
    assert_eq!(value["vector_layers"][0]["id"], "a\"b\\c\nd\u{1}é");
    assert_eq!(value["generator_options"], "web-vector-tile-maker -o a\"b\\c\nd\u{1}é.pmtiles");
}
