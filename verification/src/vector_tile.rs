//! The messages of a vector tile and their protocol-buffer bytes.

use vstd::prelude::*;
use vstd::string::StringSliceAdditionalSpecFns;
use crate::wire::{
    fixed64_field, len_field, packed_field, put_bytes, put_key, put_len_field, put_packed_field,
    put_varint_field, u64_le, varint_field, WIRE_FIXED64,
};

verus! {

/// Geometry kind of a feature as a tile names it.
#[derive(Debug, Clone, Copy, PartialEq, Eq, Structural)]
pub enum GeomType {
    Unknown,
    Point,
    Linestring,
    Polygon,
}

impl GeomType {
    /// The number that stands for the kind on the wire.
    pub open spec fn spec_number(self) -> nat {
        match self {
            GeomType::Unknown => 0,
            GeomType::Point => 1,
            GeomType::Linestring => 2,
            GeomType::Polygon => 3,
        }
    }

    /// Gives the number that stands for the kind on the wire.
    pub fn number(self) -> (n: u8)
        ensures
            n == self.spec_number(),
    {
        match self {
            GeomType::Unknown => 0,
            GeomType::Point => 1,
            GeomType::Linestring => 2,
            GeomType::Polygon => 3,
        }
    }
}

/// A property value as a layer stores it; at most one field is set.
#[derive(Debug, Clone)]
pub struct Value {
    pub string_value: Option<String>,
    /// The IEEE-754 bit pattern of a double.
    pub double_value: Option<u64>,
    pub int_value: Option<i64>,
    pub bool_value: Option<bool>,
}

/// What a `Value` holds, as mathematical values.
pub struct ValueView {
    pub string_value: Option<Seq<char>>,
    pub double_value: Option<u64>,
    pub int_value: Option<i64>,
    pub bool_value: Option<bool>,
}

impl View for Value {
    type V = ValueView;

    open spec fn view(&self) -> ValueView {
        ValueView {
            string_value: match self.string_value {
                Some(s) => Some(s@),
                None => None,
            },
            double_value: self.double_value,
            int_value: self.int_value,
            bool_value: self.bool_value,
        }
    }
}

/// One feature of a layer.
#[derive(Debug, Clone)]
pub struct Feature {
    pub id: u64,
    /// Pairs of indices into the layer's keys and values.
    pub tags: Vec<u32>,
    pub geom_type: GeomType,
    pub geometry: Vec<u32>,
}

/// What a `Feature` holds, as mathematical values.
pub struct FeatureView {
    pub id: u64,
    pub tags: Seq<u32>,
    pub geom_type: GeomType,
    pub geometry: Seq<u32>,
}

impl View for Feature {
    type V = FeatureView;

    open spec fn view(&self) -> FeatureView {
        FeatureView {
            id: self.id,
            tags: self.tags@,
            geom_type: self.geom_type,
            geometry: self.geometry@,
        }
    }
}

/// One layer of a tile.
#[derive(Debug, Clone)]
pub struct Layer {
    pub version: u32,
    pub name: String,
    pub features: Vec<Feature>,
    pub keys: Vec<String>,
    pub values: Vec<Value>,
    pub extent: u32,
}

/// What a `Layer` holds, as mathematical values.
pub struct LayerView {
    pub version: u32,
    pub name: Seq<char>,
    pub features: Seq<FeatureView>,
    pub keys: Seq<Seq<char>>,
    pub values: Seq<ValueView>,
    pub extent: u32,
}

/// The views of a list of strings.
pub open spec fn strings_view(strings: Seq<String>) -> Seq<Seq<char>> {
    strings.map_values(|s: String| s@)
}

/// The views of a list of values.
pub open spec fn values_view(values: Seq<Value>) -> Seq<ValueView> {
    values.map_values(|v: Value| v@)
}

/// The views of a list of features.
pub open spec fn layer_features_view(features: Seq<Feature>) -> Seq<FeatureView> {
    features.map_values(|f: Feature| f@)
}

impl View for Layer {
    type V = LayerView;

    open spec fn view(&self) -> LayerView {
        LayerView {
            version: self.version,
            name: self.name@,
            features: layer_features_view(self.features@),
            keys: strings_view(self.keys@),
            values: values_view(self.values@),
            extent: self.extent,
        }
    }
}

/// A signed 64-bit number as the unsigned number with the same bits.
pub open spec fn twos_complement(i: i64) -> nat {
    if i >= 0 {
        i as nat
    } else {
        (i + 0x1_0000_0000_0000_0000) as nat
    }
}

/// The bytes of a `Value` message: each field that is set, in field order.
pub open spec fn value_bytes(v: ValueView) -> Seq<u8> {
    (match v.string_value {
        Some(s) => len_field(1, vstd::utf8::encode_utf8(s)),
        None => Seq::<u8>::empty(),
    }) + (match v.double_value {
        Some(bits) => fixed64_field(3, bits),
        None => Seq::<u8>::empty(),
    }) + (match v.int_value {
        Some(i) => varint_field(4, twos_complement(i)),
        None => Seq::<u8>::empty(),
    }) + (match v.bool_value {
        Some(b) => varint_field(
            7,
            if b {
                1
            } else {
                0
            },
        ),
        None => Seq::<u8>::empty(),
    })
}

/// The bytes of a `Feature` message: id, packed tags, kind, packed geometry.
pub open spec fn feature_bytes(f: FeatureView) -> Seq<u8> {
    varint_field(1, f.id as nat) + packed_field(2, f.tags) + varint_field(
        3,
        f.geom_type.spec_number(),
    ) + packed_field(4, f.geometry)
}

/// The features of a layer, each as field 2.
pub open spec fn features_bytes(fs: Seq<FeatureView>) -> Seq<u8>
    decreases fs.len(),
{
    if fs.len() == 0 {
        Seq::<u8>::empty()
    } else {
        features_bytes(fs.drop_last()) + len_field(2, feature_bytes(fs.last()))
    }
}

/// The keys of a layer, each as field 3 in UTF-8.
pub open spec fn keys_bytes(ks: Seq<Seq<char>>) -> Seq<u8>
    decreases ks.len(),
{
    if ks.len() == 0 {
        Seq::<u8>::empty()
    } else {
        keys_bytes(ks.drop_last()) + len_field(3, vstd::utf8::encode_utf8(ks.last()))
    }
}

/// The values of a layer, each as field 4.
pub open spec fn values_bytes(vs: Seq<ValueView>) -> Seq<u8>
    decreases vs.len(),
{
    if vs.len() == 0 {
        Seq::<u8>::empty()
    } else {
        values_bytes(vs.drop_last()) + len_field(4, value_bytes(vs.last()))
    }
}

/// The bytes of a `Layer` message, fields in ascending field number: name (1),
/// features (2), keys (3), values (4), extent (5), version (15).
pub open spec fn layer_bytes(l: LayerView) -> Seq<u8> {
    len_field(1, vstd::utf8::encode_utf8(l.name)) + features_bytes(l.features) + keys_bytes(
        l.keys,
    ) + values_bytes(l.values) + varint_field(5, l.extent as nat) + varint_field(
        15,
        l.version as nat,
    )
}

/// The bytes of a tile that holds the one layer `l`, as field 3.
pub open spec fn tile_bytes(l: LayerView) -> Seq<u8> {
    len_field(3, layer_bytes(l))
}

impl Value {
    /// The bytes of this message.
    pub fn encode(&self) -> (out: Vec<u8>)
        ensures
            out@ == value_bytes(self@),
    {
        let mut out: Vec<u8> = Vec::new();
        match &self.string_value {
            Some(s) => {
                put_len_field(&mut out, 1, s.as_str().as_bytes());
            },
            None => {},
        }
        let ghost a = out@;
        match self.double_value {
            Some(bits) => {
                put_key(&mut out, 3, WIRE_FIXED64);
                let le = u64_le(bits);
                put_bytes(&mut out, le.as_slice());
            },
            None => {},
        }
        let ghost b = out@;
        match self.int_value {
            Some(i) => {
                let u: u64 = if i >= 0 {
                    i as u64
                } else {
                    u64::MAX - ((-(i + 1)) as u64)
                };
                put_varint_field(&mut out, 4, u);
            },
            None => {},
        }
        let ghost c = out@;
        match self.bool_value {
            Some(flag) => {
                put_varint_field(
                    &mut out,
                    7,
                    if flag {
                        1
                    } else {
                        0
                    },
                );
            },
            None => {},
        }
        assert(out@ == value_bytes(self@));
        out
    }
}

impl Feature {
    /// The bytes of this message.
    pub fn encode(&self) -> (out: Vec<u8>)
        ensures
            out@ == feature_bytes(self@),
    {
        let mut out: Vec<u8> = Vec::new();
        put_varint_field(&mut out, 1, self.id);
        put_packed_field(&mut out, 2, &self.tags);
        put_varint_field(&mut out, 3, self.geom_type.number() as u64);
        put_packed_field(&mut out, 4, &self.geometry);
        assert(out@ == feature_bytes(self@));
        out
    }
}

impl Layer {
    /// The bytes of this message.
    pub fn encode(&self) -> (out: Vec<u8>)
        ensures
            out@ == layer_bytes(self@),
    {
        let mut out: Vec<u8> = Vec::new();
        put_len_field(&mut out, 1, self.name.as_str().as_bytes());
        let ghost head = out@;
        let ghost fs = layer_features_view(self.features@);
        let mut i: usize = 0;
        while i < self.features.len()
            invariant
                i <= self.features.len(),
                fs == layer_features_view(self.features@),
                out@ == head + features_bytes(fs.take(i as int)),
            decreases self.features.len() - i,
        {
            let body = self.features[i].encode();
            put_len_field(&mut out, 2, body.as_slice());
            assert(fs.take(i + 1).drop_last() == fs.take(i as int));
            i += 1;
        }
        assert(fs.take(i as int) == fs);
        let ghost head = out@;
        let ghost ks = strings_view(self.keys@);
        let mut i: usize = 0;
        while i < self.keys.len()
            invariant
                i <= self.keys.len(),
                ks == strings_view(self.keys@),
                out@ == head + keys_bytes(ks.take(i as int)),
            decreases self.keys.len() - i,
        {
            put_len_field(&mut out, 3, self.keys[i].as_str().as_bytes());
            assert(ks.take(i + 1).drop_last() == ks.take(i as int));
            i += 1;
        }
        assert(ks.take(i as int) == ks);
        let ghost head = out@;
        let ghost vs = values_view(self.values@);
        let mut i: usize = 0;
        while i < self.values.len()
            invariant
                i <= self.values.len(),
                vs == values_view(self.values@),
                out@ == head + values_bytes(vs.take(i as int)),
            decreases self.values.len() - i,
        {
            let body = self.values[i].encode();
            put_len_field(&mut out, 4, body.as_slice());
            assert(vs.take(i + 1).drop_last() == vs.take(i as int));
            i += 1;
        }
        assert(vs.take(i as int) == vs);
        put_varint_field(&mut out, 5, self.extent as u64);
        put_varint_field(&mut out, 15, self.version as u64);
        assert(out@ == layer_bytes(self@));
        out
    }
}

} // verus!
