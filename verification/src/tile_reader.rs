//! Reading a tile back from its bytes, as a specification, and the proof
//! that reading a written tile gives the layer that was written.

use vstd::prelude::*;
use vstd::utf8::{decode_utf8, encode_utf8, valid_utf8};
use crate::reader::{
    field_bytes, fields_bytes, lemma_fields_bytes_add, lemma_read_field, lemma_read_fields,
    lemma_read_packed, read_fields, read_packed, Field,
};
use crate::vector_tile::{
    feature_bytes, features_bytes, keys_bytes, layer_bytes, tile_bytes, twos_complement,
    value_bytes, values_bytes, FeatureView, GeomType, LayerView, ValueView,
};
use crate::wire::varints;

verus! {

/// The signed number whose bits are those of `v`.
pub open spec fn from_twos_complement(v: nat) -> i64 {
    if v < 0x8000_0000_0000_0000 {
        v as i64
    } else {
        (v - 0x1_0000_0000_0000_0000) as i64
    }
}

/// The fields of a `Value` message.
pub open spec fn value_fields(v: ValueView) -> Seq<Field> {
    (match v.string_value {
        Some(s) => seq![Field::Len { tag: 1, body: encode_utf8(s) }],
        None => Seq::<Field>::empty(),
    }) + (match v.double_value {
        Some(bits) => seq![Field::Fixed64 { tag: 3, bits: bits }],
        None => Seq::<Field>::empty(),
    }) + (match v.int_value {
        Some(i) => seq![Field::Varint { tag: 4, value: twos_complement(i) }],
        None => Seq::<Field>::empty(),
    }) + (match v.bool_value {
        Some(b) => seq![
            Field::Varint {
                tag: 7,
                value: if b {
                    1
                } else {
                    0
                },
            },
        ],
        None => Seq::<Field>::empty(),
    })
}

/// A value after one more field of its message; `None` for a field that a
/// value cannot have.
pub open spec fn value_step(v: ValueView, f: Field) -> Option<ValueView> {
    match f {
        Field::Len { tag, body } => if tag == 1 && valid_utf8(body) {
            Some(ValueView { string_value: Some(decode_utf8(body)), ..v })
        } else {
            None
        },
        Field::Fixed64 { tag, bits } => if tag == 3 {
            Some(ValueView { double_value: Some(bits), ..v })
        } else {
            None
        },
        Field::Varint { tag, value } => if tag == 4 && value <= u64::MAX {
            Some(ValueView { int_value: Some(from_twos_complement(value)), ..v })
        } else if tag == 7 {
            Some(ValueView { bool_value: Some(value != 0), ..v })
        } else {
            None
        },
    }
}

/// A value after the fields `fs`.
pub open spec fn value_fold(state: Option<ValueView>, fs: Seq<Field>) -> Option<ValueView>
    decreases fs.len(),
{
    if fs.len() == 0 {
        state
    } else {
        match state {
            None => None,
            Some(v) => value_fold(value_step(v, fs[0]), fs.drop_first()),
        }
    }
}

/// The value that the bytes of a `Value` message hold.
pub open spec fn read_value(b: Seq<u8>) -> Option<ValueView> {
    match read_fields(b) {
        Some(fs) => value_fold(
            Some(
                ValueView {
                    string_value: None,
                    double_value: None,
                    int_value: None,
                    bool_value: None,
                },
            ),
            fs,
        ),
        None => None,
    }
}

/// Reading the fields of one list after another is reading them in turn.
proof fn lemma_value_fold_add(state: Option<ValueView>, a: Seq<Field>, b: Seq<Field>)
    ensures
        value_fold(state, a + b) == value_fold(value_fold(state, a), b),
    decreases a.len(),
{
    if a.len() == 0 {
        assert(a + b =~= b);
    } else {
        assert((a + b).drop_first() =~= a.drop_first() + b);
        assert((a + b)[0] == a[0]);
        match state {
            None => {
                lemma_value_fold_none(b);
            },
            Some(v) => {
                lemma_value_fold_add(value_step(v, a[0]), a.drop_first(), b);
            },
        }
    }
}

/// Nothing is read after a failure.
proof fn lemma_value_fold_none(fs: Seq<Field>)
    ensures
        value_fold(None, fs) == None::<ValueView>,
{
}

/// Reading one field is one step, reading none changes nothing.
proof fn lemma_value_fold_one(v: ValueView, f: Field)
    ensures
        value_fold(Some(v), seq![f]) == value_step(v, f),
        value_fold(Some(v), Seq::<Field>::empty()) == Some(v),
{
    reveal_with_fuel(value_fold, 3);
    assert(seq![f].drop_first() =~= Seq::<Field>::empty());
}

/// Reading a written value gives the value.
pub proof fn lemma_read_value(v: ValueView)
    ensures
        value_bytes(v) == fields_bytes(value_fields(v)),
        read_value(value_bytes(v)) == Some(v),
{
    broadcast use vstd::utf8::encode_utf8_valid_utf8;
    broadcast use vstd::utf8::encode_utf8_decode_utf8;

    let a = match v.string_value {
        Some(s) => seq![Field::Len { tag: 1, body: encode_utf8(s) }],
        None => Seq::<Field>::empty(),
    };
    let b = match v.double_value {
        Some(bits) => seq![Field::Fixed64 { tag: 3, bits: bits }],
        None => Seq::<Field>::empty(),
    };
    let c = match v.int_value {
        Some(i) => seq![Field::Varint { tag: 4, value: twos_complement(i) }],
        None => Seq::<Field>::empty(),
    };
    let d = match v.bool_value {
        Some(flag) => seq![
            Field::Varint {
                tag: 7,
                value: if flag {
                    1
                } else {
                    0
                },
            },
        ],
        None => Seq::<Field>::empty(),
    };
    let start = ValueView {
        string_value: None,
        double_value: None,
        int_value: None,
        bool_value: None,
    };
    lemma_fields_bytes_add(a + b + c, d);
    lemma_fields_bytes_add(a + b, c);
    lemma_fields_bytes_add(a, b);
    lemma_single_field(a);
    lemma_single_field(b);
    lemma_single_field(c);
    lemma_single_field(d);
    assert(value_bytes(v) == fields_bytes(value_fields(v)));
    lemma_read_fields(value_fields(v));
    lemma_value_fold_add(Some(start), a + b + c, d);
    lemma_value_fold_add(Some(start), a + b, c);
    lemma_value_fold_add(Some(start), a, b);
    let v1 = ValueView { string_value: v.string_value, ..start };
    let v2 = ValueView { double_value: v.double_value, ..v1 };
    let v3 = ValueView { int_value: v.int_value, ..v2 };
    if a.len() > 0 {
        lemma_value_fold_one(start, a[0]);
        assert(a =~= seq![a[0]]);
    } else {
        lemma_value_fold_one(start, Field::Varint { tag: 0, value: 0 });
        assert(a =~= Seq::<Field>::empty());
    }
    assert(value_fold(Some(start), a) == Some(v1));
    if b.len() > 0 {
        lemma_value_fold_one(v1, b[0]);
        assert(b =~= seq![b[0]]);
    } else {
        lemma_value_fold_one(v1, Field::Varint { tag: 0, value: 0 });
        assert(b =~= Seq::<Field>::empty());
    }
    assert(value_fold(Some(v1), b) == Some(v2));
    if c.len() > 0 {
        lemma_value_fold_one(v2, c[0]);
        assert(c =~= seq![c[0]]);
    } else {
        lemma_value_fold_one(v2, Field::Varint { tag: 0, value: 0 });
        assert(c =~= Seq::<Field>::empty());
    }
    assert(value_fold(Some(v2), c) == Some(v3));
    if d.len() > 0 {
        lemma_value_fold_one(v3, d[0]);
        assert(d =~= seq![d[0]]);
    } else {
        lemma_value_fold_one(v3, Field::Varint { tag: 0, value: 0 });
        assert(d =~= Seq::<Field>::empty());
    }
    assert(value_fold(Some(v3), d) == Some(v));
}

/// The bytes of no field are none, those of one field are that field's.
proof fn lemma_single_field(fs: Seq<Field>)
    requires
        fs.len() <= 1,
    ensures
        fs.len() == 0 ==> fields_bytes(fs) == Seq::<u8>::empty(),
        fs.len() == 1 ==> fields_bytes(fs) == field_bytes(fs[0]),
{
    reveal_with_fuel(fields_bytes, 3);
    if fs.len() == 1 {
        assert(fs.drop_first() =~= Seq::<Field>::empty());
        assert(field_bytes(fs[0]) + Seq::<u8>::empty() =~= field_bytes(fs[0]));
    }
}

/// The geometry kind that a number stands for.
pub open spec fn geom_type_of(n: nat) -> Option<GeomType> {
    if n == 0 {
        Some(GeomType::Unknown)
    } else if n == 1 {
        Some(GeomType::Point)
    } else if n == 2 {
        Some(GeomType::Linestring)
    } else if n == 3 {
        Some(GeomType::Polygon)
    } else {
        None
    }
}

/// The fields of a `Feature` message.
pub open spec fn feature_fields(f: FeatureView) -> Seq<Field> {
    seq![Field::Varint { tag: 1, value: f.id as nat }] + (if f.tags.len() == 0 {
        Seq::<Field>::empty()
    } else {
        seq![Field::Len { tag: 2, body: varints(f.tags) }]
    }) + seq![Field::Varint { tag: 3, value: f.geom_type.spec_number() }] + (if f.geometry.len()
        == 0 {
        Seq::<Field>::empty()
    } else {
        seq![Field::Len { tag: 4, body: varints(f.geometry) }]
    })
}

/// A feature after one more field of its message; `None` for a field that
/// a feature cannot have.
pub open spec fn feature_step(f: FeatureView, field: Field) -> Option<FeatureView> {
    match field {
        Field::Varint { tag, value } => if tag == 1 && value <= u64::MAX {
            Some(FeatureView { id: value as u64, ..f })
        } else if tag == 3 {
            match geom_type_of(value) {
                Some(kind) => Some(FeatureView { geom_type: kind, ..f }),
                None => None,
            }
        } else {
            None
        },
        Field::Len { tag, body } => if tag == 2 {
            match read_packed(body) {
                Some(tags) => Some(FeatureView { tags: tags, ..f }),
                None => None,
            }
        } else if tag == 4 {
            match read_packed(body) {
                Some(geometry) => Some(FeatureView { geometry: geometry, ..f }),
                None => None,
            }
        } else {
            None
        },
        Field::Fixed64 { tag, bits } => None,
    }
}

/// A feature after the fields `fs`.
pub open spec fn feature_fold(state: Option<FeatureView>, fs: Seq<Field>) -> Option<FeatureView>
    decreases fs.len(),
{
    if fs.len() == 0 {
        state
    } else {
        match state {
            None => None,
            Some(f) => feature_fold(feature_step(f, fs[0]), fs.drop_first()),
        }
    }
}

/// A feature before any field is read.
pub open spec fn blank_feature() -> FeatureView {
    FeatureView {
        id: 0,
        tags: Seq::<u32>::empty(),
        geom_type: GeomType::Unknown,
        geometry: Seq::<u32>::empty(),
    }
}

/// The feature that the bytes of a `Feature` message hold.
pub open spec fn read_feature(b: Seq<u8>) -> Option<FeatureView> {
    match read_fields(b) {
        Some(fs) => feature_fold(Some(blank_feature()), fs),
        None => None,
    }
}

/// Reading the fields of one list after another is reading them in turn.
proof fn lemma_feature_fold_add(state: Option<FeatureView>, a: Seq<Field>, b: Seq<Field>)
    ensures
        feature_fold(state, a + b) == feature_fold(feature_fold(state, a), b),
    decreases a.len(),
{
    if a.len() == 0 {
        assert(a + b =~= b);
    } else {
        assert((a + b).drop_first() =~= a.drop_first() + b);
        assert((a + b)[0] == a[0]);
        match state {
            None => {
                assert(feature_fold(None, b) == None::<FeatureView>);
            },
            Some(f) => {
                lemma_feature_fold_add(feature_step(f, a[0]), a.drop_first(), b);
            },
        }
    }
}

/// Reading one field is one step, reading none changes nothing.
proof fn lemma_feature_fold_one(v: FeatureView, f: Field)
    ensures
        feature_fold(Some(v), seq![f]) == feature_step(v, f),
        feature_fold(Some(v), Seq::<Field>::empty()) == Some(v),
{
    reveal_with_fuel(feature_fold, 3);
    assert(seq![f].drop_first() =~= Seq::<Field>::empty());
}

/// Reading a written feature gives the feature.
pub proof fn lemma_read_feature(f: FeatureView)
    ensures
        feature_bytes(f) == fields_bytes(feature_fields(f)),
        read_feature(feature_bytes(f)) == Some(f),
{
    let a = seq![Field::Varint { tag: 1, value: f.id as nat }];
    let b = if f.tags.len() == 0 {
        Seq::<Field>::empty()
    } else {
        seq![Field::Len { tag: 2, body: varints(f.tags) }]
    };
    let c = seq![Field::Varint { tag: 3, value: f.geom_type.spec_number() }];
    let d = if f.geometry.len() == 0 {
        Seq::<Field>::empty()
    } else {
        seq![Field::Len { tag: 4, body: varints(f.geometry) }]
    };
    lemma_fields_bytes_add(a + b + c, d);
    lemma_fields_bytes_add(a + b, c);
    lemma_fields_bytes_add(a, b);
    lemma_single_field(a);
    lemma_single_field(b);
    lemma_single_field(c);
    lemma_single_field(d);
    assert(feature_bytes(f) == fields_bytes(feature_fields(f)));
    lemma_read_fields(feature_fields(f));
    lemma_read_packed(f.tags);
    lemma_read_packed(f.geometry);
    lemma_feature_fold_add(Some(blank_feature()), a + b + c, d);
    lemma_feature_fold_add(Some(blank_feature()), a + b, c);
    lemma_feature_fold_add(Some(blank_feature()), a, b);
    let f1 = FeatureView { id: f.id, ..blank_feature() };
    let f2 = FeatureView { tags: f.tags, ..f1 };
    let f3 = FeatureView { geom_type: f.geom_type, ..f2 };
    lemma_feature_fold_one(blank_feature(), a[0]);
    assert(feature_fold(Some(blank_feature()), a) == Some(f1));
    if b.len() > 0 {
        lemma_feature_fold_one(f1, b[0]);
        assert(b =~= seq![b[0]]);
    } else {
        lemma_feature_fold_one(f1, a[0]);
        assert(b =~= Seq::<Field>::empty());
        assert(f.tags =~= Seq::<u32>::empty());
    }
    assert(feature_fold(Some(f1), b) == Some(f2));
    lemma_feature_fold_one(f2, c[0]);
    assert(feature_fold(Some(f2), c) == Some(f3));
    if d.len() > 0 {
        lemma_feature_fold_one(f3, d[0]);
        assert(d =~= seq![d[0]]);
    } else {
        lemma_feature_fold_one(f3, a[0]);
        assert(d =~= Seq::<Field>::empty());
        assert(f.geometry =~= Seq::<u32>::empty());
    }
    assert(feature_fold(Some(f3), d) == Some(f));
}

/// The fields that hold the features of a layer.
pub open spec fn features_fields(fs: Seq<FeatureView>) -> Seq<Field> {
    Seq::new(fs.len(), |i: int| Field::Len { tag: 2, body: feature_bytes(fs[i]) })
}

/// The fields that hold the keys of a layer.
pub open spec fn keys_fields(ks: Seq<Seq<char>>) -> Seq<Field> {
    Seq::new(ks.len(), |i: int| Field::Len { tag: 3, body: encode_utf8(ks[i]) })
}

/// The fields that hold the values of a layer.
pub open spec fn values_fields(vs: Seq<ValueView>) -> Seq<Field> {
    Seq::new(vs.len(), |i: int| Field::Len { tag: 4, body: value_bytes(vs[i]) })
}

/// The fields of a `Layer` message.
pub open spec fn layer_fields(l: LayerView) -> Seq<Field> {
    seq![Field::Len { tag: 1, body: encode_utf8(l.name) }] + features_fields(l.features)
        + keys_fields(l.keys) + values_fields(l.values) + seq![
        Field::Varint { tag: 5, value: l.extent as nat },
        Field::Varint { tag: 15, value: l.version as nat },
    ]
}

/// A layer after one more field of its message; `None` for a field that a
/// layer cannot have.
pub open spec fn layer_step(l: LayerView, field: Field) -> Option<LayerView> {
    match field {
        Field::Len { tag, body } => if tag == 1 && valid_utf8(body) {
            Some(LayerView { name: decode_utf8(body), ..l })
        } else if tag == 2 {
            match read_feature(body) {
                Some(f) => Some(LayerView { features: l.features.push(f), ..l }),
                None => None,
            }
        } else if tag == 3 && valid_utf8(body) {
            Some(LayerView { keys: l.keys.push(decode_utf8(body)), ..l })
        } else if tag == 4 {
            match read_value(body) {
                Some(v) => Some(LayerView { values: l.values.push(v), ..l })
                ,
                None => None,
            }
        } else {
            None
        },
        Field::Varint { tag, value } => if tag == 5 && value <= u32::MAX {
            Some(LayerView { extent: value as u32, ..l })
        } else if tag == 15 && value <= u32::MAX {
            Some(LayerView { version: value as u32, ..l })
        } else {
            None
        },
        Field::Fixed64 { tag, bits } => None,
    }
}

/// A layer after the fields `fs`.
pub open spec fn layer_fold(state: Option<LayerView>, fs: Seq<Field>) -> Option<LayerView>
    decreases fs.len(),
{
    if fs.len() == 0 {
        state
    } else {
        match state {
            None => None,
            Some(l) => layer_fold(layer_step(l, fs[0]), fs.drop_first()),
        }
    }
}

/// A layer before any field is read: version 1 and extent 4096, as a layer
/// has them that does not say otherwise.
pub open spec fn blank_layer() -> LayerView {
    LayerView {
        version: 1,
        name: Seq::<char>::empty(),
        features: Seq::<FeatureView>::empty(),
        keys: Seq::<Seq<char>>::empty(),
        values: Seq::<ValueView>::empty(),
        extent: 4096,
    }
}

/// The layer that the bytes of a `Layer` message hold.
pub open spec fn read_layer(b: Seq<u8>) -> Option<LayerView> {
    match read_fields(b) {
        Some(fs) => layer_fold(Some(blank_layer()), fs),
        None => None,
    }
}

/// The layer of a tile that holds one layer and nothing else.
pub open spec fn read_tile(b: Seq<u8>) -> Option<LayerView> {
    match read_fields(b) {
        Some(fs) => if fs.len() == 1 {
            match fs[0] {
                Field::Len { tag, body } => if tag == 3 {
                    read_layer(body)
                } else {
                    None
                },
                _ => None,
            }
        } else {
            None
        },
        None => None,
    }
}

/// Reading the fields of one list after another is reading them in turn.
proof fn lemma_layer_fold_add(state: Option<LayerView>, a: Seq<Field>, b: Seq<Field>)
    ensures
        layer_fold(state, a + b) == layer_fold(layer_fold(state, a), b),
    decreases a.len(),
{
    if a.len() == 0 {
        assert(a + b =~= b);
    } else {
        assert((a + b).drop_first() =~= a.drop_first() + b);
        assert((a + b)[0] == a[0]);
        match state {
            None => {
                assert(layer_fold(None, b) == None::<LayerView>);
            },
            Some(l) => {
                lemma_layer_fold_add(layer_step(l, a[0]), a.drop_first(), b);
            },
        }
    }
}

/// Reading one field is one step, reading none changes nothing.
proof fn lemma_layer_fold_one(l: LayerView, f: Field)
    ensures
        layer_fold(Some(l), seq![f]) == layer_step(l, f),
        layer_fold(Some(l), Seq::<Field>::empty()) == Some(l),
{
    reveal_with_fuel(layer_fold, 3);
    assert(seq![f].drop_first() =~= Seq::<Field>::empty());
}

/// The bytes of the feature fields are those of the features, and reading
/// them adds the features to a layer.
proof fn lemma_features_fields(l: LayerView, fs: Seq<FeatureView>)
    ensures
        fields_bytes(features_fields(fs)) == features_bytes(fs),
        layer_fold(Some(l), features_fields(fs)) == Some(
            LayerView { features: l.features + fs, ..l },
        ),
    decreases fs.len(),
{
    if fs.len() == 0 {
        assert(features_fields(fs) =~= Seq::<Field>::empty());
        assert(l.features + fs =~= l.features);
        lemma_layer_fold_one(l, Field::Varint { tag: 0, value: 0 });
    } else {
        let front = fs.drop_last();
        let last = seq![Field::Len { tag: 2, body: feature_bytes(fs.last()) }];
        lemma_features_fields(l, front);
        assert(features_fields(fs) =~= features_fields(front) + last);
        lemma_fields_bytes_add(features_fields(front), last);
        lemma_single_field(last);
        lemma_layer_fold_add(Some(l), features_fields(front), last);
        lemma_read_feature(fs.last());
        lemma_layer_fold_one(LayerView { features: l.features + front, ..l }, last[0]);
        assert((l.features + front).push(fs.last()) =~= l.features + fs);
    }
}

/// The bytes of the key fields are those of the keys, and reading them adds
/// the keys to a layer.
proof fn lemma_keys_fields(l: LayerView, ks: Seq<Seq<char>>)
    ensures
        fields_bytes(keys_fields(ks)) == keys_bytes(ks),
        layer_fold(Some(l), keys_fields(ks)) == Some(LayerView { keys: l.keys + ks, ..l }),
    decreases ks.len(),
{
    broadcast use vstd::utf8::encode_utf8_valid_utf8;
    broadcast use vstd::utf8::encode_utf8_decode_utf8;

    if ks.len() == 0 {
        assert(keys_fields(ks) =~= Seq::<Field>::empty());
        assert(l.keys + ks =~= l.keys);
        lemma_layer_fold_one(l, Field::Varint { tag: 0, value: 0 });
    } else {
        let front = ks.drop_last();
        let last = seq![Field::Len { tag: 3, body: encode_utf8(ks.last()) }];
        lemma_keys_fields(l, front);
        assert(keys_fields(ks) =~= keys_fields(front) + last);
        lemma_fields_bytes_add(keys_fields(front), last);
        lemma_single_field(last);
        lemma_layer_fold_add(Some(l), keys_fields(front), last);
        lemma_layer_fold_one(LayerView { keys: l.keys + front, ..l }, last[0]);
        assert((l.keys + front).push(ks.last()) =~= l.keys + ks);
    }
}

/// The bytes of the value fields are those of the values, and reading them
/// adds the values to a layer.
proof fn lemma_values_fields(l: LayerView, vs: Seq<ValueView>)
    ensures
        fields_bytes(values_fields(vs)) == values_bytes(vs),
        layer_fold(Some(l), values_fields(vs)) == Some(LayerView { values: l.values + vs, ..l }),
    decreases vs.len(),
{
    if vs.len() == 0 {
        assert(values_fields(vs) =~= Seq::<Field>::empty());
        assert(l.values + vs =~= l.values);
        lemma_layer_fold_one(l, Field::Varint { tag: 0, value: 0 });
    } else {
        let front = vs.drop_last();
        let last = seq![Field::Len { tag: 4, body: value_bytes(vs.last()) }];
        lemma_values_fields(l, front);
        assert(values_fields(vs) =~= values_fields(front) + last);
        lemma_fields_bytes_add(values_fields(front), last);
        lemma_single_field(last);
        lemma_layer_fold_add(Some(l), values_fields(front), last);
        lemma_read_value(vs.last());
        lemma_layer_fold_one(LayerView { values: l.values + front, ..l }, last[0]);
        assert((l.values + front).push(vs.last()) =~= l.values + vs);
    }
}

/// Reading a written layer gives the layer.
pub proof fn lemma_read_layer(l: LayerView)
    ensures
        layer_bytes(l) == fields_bytes(layer_fields(l)),
        read_layer(layer_bytes(l)) == Some(l),
{
    broadcast use vstd::utf8::encode_utf8_valid_utf8;
    broadcast use vstd::utf8::encode_utf8_decode_utf8;

    let a = seq![Field::Len { tag: 1, body: encode_utf8(l.name) }];
    let b = features_fields(l.features);
    let c = keys_fields(l.keys);
    let d = values_fields(l.values);
    let e1 = seq![Field::Varint { tag: 5, value: l.extent as nat }];
    let e2 = seq![Field::Varint { tag: 15, value: l.version as nat }];
    let e = seq![
        Field::Varint { tag: 5, value: l.extent as nat },
        Field::Varint { tag: 15, value: l.version as nat },
    ];
    assert(e =~= e1 + e2);
    let l1 = LayerView { name: l.name, ..blank_layer() };
    let l2 = LayerView { features: l.features, ..l1 };
    let l3 = LayerView { keys: l.keys, ..l2 };
    let l4 = LayerView { values: l.values, ..l3 };
    lemma_features_fields(l1, l.features);
    lemma_keys_fields(l2, l.keys);
    lemma_values_fields(l3, l.values);
    lemma_fields_bytes_add(a + b + c + d, e);
    lemma_fields_bytes_add(a + b + c, d);
    lemma_fields_bytes_add(a + b, c);
    lemma_fields_bytes_add(a, b);
    lemma_fields_bytes_add(e1, e2);
    lemma_single_field(a);
    lemma_single_field(e1);
    lemma_single_field(e2);
    assert(layer_bytes(l) =~= fields_bytes(layer_fields(l)));
    lemma_read_fields(layer_fields(l));
    lemma_layer_fold_add(Some(blank_layer()), a + b + c + d, e);
    lemma_layer_fold_add(Some(blank_layer()), a + b + c, d);
    lemma_layer_fold_add(Some(blank_layer()), a + b, c);
    lemma_layer_fold_add(Some(blank_layer()), a, b);
    lemma_layer_fold_one(blank_layer(), a[0]);
    assert(layer_fold(Some(blank_layer()), a) == Some(l1));
    assert(l1.features + l.features =~= l.features);
    assert(l2.keys + l.keys =~= l.keys);
    assert(l3.values + l.values =~= l.values);
    let l5 = LayerView { extent: l.extent, ..l4 };
    lemma_layer_fold_add(Some(l4), e1, e2);
    lemma_layer_fold_one(l4, e1[0]);
    lemma_layer_fold_one(l5, e2[0]);
    assert(layer_fold(Some(l4), e) == Some(l));
}

/// Reading a written tile gives the layer that was written, and writing
/// what was read gives the same bytes again.
pub proof fn lemma_tile_round_trip(l: LayerView)
    ensures
        read_tile(tile_bytes(l)) == Some(l),
        tile_bytes(read_tile(tile_bytes(l)).unwrap()) == tile_bytes(l),
{
    let fs = seq![Field::Len { tag: 3, body: layer_bytes(l) }];
    lemma_single_field(fs);
    lemma_read_fields(fs);
    lemma_read_layer(l);
    assert(tile_bytes(l) == fields_bytes(fs));
}

} // verus!
