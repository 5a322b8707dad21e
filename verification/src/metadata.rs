//! What an archive says about its tiles: zoom range, bounds, the layer's
//! fields and attribute statistics, and the JSON text that carries them.

use vstd::prelude::*;
use vstd::string::StringExecFns;
use crate::text::{decimal_text, digit_char, push_decimal};
use crate::TileError;

verus! {

/// Geographic bounds in degrees, held in the two forms that an archive
/// writes: each value times `10^7` cut to an integer, and the four values as
/// one text, `min_lon,min_lat,max_lon,max_lat`, with six decimals each.
#[derive(Debug, Clone)]
pub struct Bounds {
    pub min_lon_e7: i32,
    pub min_lat_e7: i32,
    pub max_lon_e7: i32,
    pub max_lat_e7: i32,
    pub text: String,
}

/// Geometry kind that most features of a collection have.
#[derive(Debug, Clone, Copy, PartialEq, Eq, Structural)]
pub enum GeometryKind {
    Point,
    LineString,
    Polygon,
}

/// Type label of a field of the layer.
#[derive(Debug, Clone, Copy, PartialEq, Eq, Structural)]
pub enum FieldType {
    String,
    Number,
    Boolean,
}

/// Statistics of one attribute: its distinct values as text, in ascending
/// order, at most a hundred of them.
#[derive(Debug, Clone)]
pub struct AttributeStats {
    pub attribute: String,
    pub count: usize,
    pub numeric: bool,
    pub values: Vec<String>,
}

/// Metadata of one generation.
#[derive(Debug, Clone)]
pub struct TileMetadata {
    pub min_zoom: u8,
    pub max_zoom: u8,
    pub layer_name: String,
    pub bounds: Bounds,
    /// Longitude of the centre of the bounds, times `10^7`.
    pub center_lon_e7: i32,
    /// Latitude of the centre of the bounds, times `10^7`.
    pub center_lat_e7: i32,
    pub feature_count: usize,
    pub geometry_type: GeometryKind,
    /// Field names with their type labels, in ascending order of name.
    pub fields: Vec<(String, FieldType)>,
    /// Attribute statistics, in ascending order of attribute name.
    pub attributes: Vec<AttributeStats>,
}

/// The share of the feature count, in percent, that is reported as tiny
/// polygons at a zoom level: falling by one per level up to zoom 5, then 125
/// and 130 up to zoom 8, then falling by fifteen per level down to one.
pub open spec fn tiny_polygon_percent(zoom: u8) -> nat {
    if zoom <= 5 {
        (100 - zoom) as nat
    } else if zoom == 6 {
        125
    } else if zoom <= 8 {
        130
    } else if zoom <= 14 {
        (100 - 15 * (zoom - 8)) as nat
    } else {
        1
    }
}

/// The tiny-polygon count reported for `feature_count` features at `zoom`:
/// the share rounded down, held to 64 bits.
pub open spec fn tiny_polygons_spec(feature_count: nat, zoom: u8) -> nat {
    let share = feature_count * tiny_polygon_percent(zoom) / 100;
    if share > u64::MAX {
        u64::MAX as nat
    } else {
        share
    }
}

/// Computes the tiny-polygon count for a zoom level.
pub fn tiny_polygons(feature_count: usize, zoom: u8) -> (n: u64)
    ensures
        n == tiny_polygons_spec(feature_count as nat, zoom),
{
    let percent: u128 = if zoom <= 5 {
        (100 - zoom) as u128
    } else if zoom == 6 {
        125
    } else if zoom <= 8 {
        130
    } else if zoom <= 14 {
        (100 - 15 * (zoom - 8)) as u128
    } else {
        1
    };
    assert(feature_count as u128 * percent <= 0xffff_ffff_ffff_ffff * 130) by (nonlinear_arith)
        requires
            feature_count <= 0xffff_ffff_ffff_ffff,
            percent <= 130,
    ;
    let share: u128 = (feature_count as u128) * percent / 100;
    if share > u64::MAX as u128 {
        u64::MAX
    } else {
        share as u64
    }
}

impl GeometryKind {
    /// The name of the kind, in quotes, as JSON text.
    pub open spec fn json(self) -> Seq<char> {
        match self {
            GeometryKind::Point => "\"Point\""@,
            GeometryKind::LineString => "\"LineString\""@,
            GeometryKind::Polygon => "\"Polygon\""@,
        }
    }

    fn json_str(self) -> (s: &'static str)
        ensures
            s@ == self.json(),
    {
        match self {
            GeometryKind::Point => "\"Point\"",
            GeometryKind::LineString => "\"LineString\"",
            GeometryKind::Polygon => "\"Polygon\"",
        }
    }
}

impl FieldType {
    /// The type label, in quotes, as JSON text.
    pub open spec fn json(self) -> Seq<char> {
        match self {
            FieldType::String => "\"String\""@,
            FieldType::Number => "\"Number\""@,
            FieldType::Boolean => "\"Boolean\""@,
        }
    }

    fn json_str(self) -> (s: &'static str)
        ensures
            s@ == self.json(),
    {
        match self {
            FieldType::String => "\"String\"",
            FieldType::Number => "\"Number\"",
            FieldType::Boolean => "\"Boolean\"",
        }
    }
}

/// The character of a hexadecimal digit, in lower case.
pub open spec fn hex_char(d: int) -> char {
    if d < 10 {
        digit_char(d)
    } else if d == 10 {
        'a'
    } else if d == 11 {
        'b'
    } else if d == 12 {
        'c'
    } else if d == 13 {
        'd'
    } else if d == 14 {
        'e'
    } else {
        'f'
    }
}

/// A character as it stands inside a JSON string literal: the quote and the
/// backslash behind a backslash; backspace, form feed, line feed, carriage
/// return and tab by their letters; any other character below the space as
/// `\u00` with its two hexadecimal digits; every other character as it is.
pub open spec fn json_escape(c: char) -> Seq<char> {
    if c == '"' {
        seq!['\\', '"']
    } else if c == '\\' {
        seq!['\\', '\\']
    } else if c == '\u{8}' {
        seq!['\\', 'b']
    } else if c == '\u{c}' {
        seq!['\\', 'f']
    } else if c == '\n' {
        seq!['\\', 'n']
    } else if c == '\r' {
        seq!['\\', 'r']
    } else if c == '\t' {
        seq!['\\', 't']
    } else if (c as u32) < 0x20 {
        seq!['\\', 'u', '0', '0', hex_char(c as int / 16), hex_char(c as int % 16)]
    } else {
        seq![c]
    }
}

/// The characters of a text as they stand inside a JSON string literal.
pub open spec fn json_escaped(s: Seq<char>) -> Seq<char>
    decreases s.len(),
{
    if s.len() == 0 {
        Seq::<char>::empty()
    } else {
        json_escaped(s.drop_last()) + json_escape(s.last())
    }
}

/// The JSON string literal of a text: the escaped text in double quotes.
pub open spec fn json_literal(s: Seq<char>) -> Seq<char> {
    seq!['"'] + json_escaped(s) + seq!['"']
}

/// What `serde_json` makes of a text: the JSON string literal that it
/// writes; `None` where it reports an error.
pub uninterp spec fn json_serialized(s: Seq<char>) -> Option<Seq<char>>;

/// Whether a text can be written as a JSON string literal.
pub open spec fn quotable(s: Seq<char>) -> bool {
    json_serialized(s) is Some
}

/// The JSON string literal of a text that can be written; nothing for a
/// text that cannot.
pub open spec fn json_quoted(s: Seq<char>) -> Seq<char> {
    if quotable(s) {
        json_literal(s)
    } else {
        Seq::<char>::empty()
    }
}

/// Serialises `s` with `serde_json::to_string`. What it gives for a text is
/// the text in double quotes with the quote, the backslash and the
/// characters below the space escaped, each as `json_escape` says, and every
/// other character as it is. `None` stands for an error of the serialiser.
#[verifier::external_body]
pub(crate) fn json_quote(s: &str) -> (r: Option<String>)
    ensures
        match r {
            Some(t) => json_serialized(s@) == Some(t@) && t@ == json_literal(s@),
            None => json_serialized(s@) is None,
        },
{
    serde_json::to_string(s).ok()
}

/// Appends `s` as a JSON string literal. Gives `false` for a text that
/// cannot be serialised, and then `out` is as before.
fn push_quoted(out: &mut String, s: &str) -> (ok: bool)
    ensures
        ok == quotable(s@),
        ok ==> final(out)@ == old(out)@ + json_quoted(s@),
        !ok ==> final(out)@ == old(out)@,
{
    match json_quote(s) {
        Some(t) => {
            out.append(t.as_str());
            true
        },
        None => false,
    }
}

/// The name of the archive file of a layer.
pub open spec fn archive_name(layer_name: Seq<char>) -> Seq<char> {
    layer_name + ".pmtiles"@
}

/// The `strategies` entries for the zoom levels `from..=to`, separated by
/// commas; nothing when `from` is above `to`.
pub open spec fn strategies_json(feature_count: nat, from: int, to: int) -> Seq<char>
    decreases to - from + 1,
{
    if from > to {
        Seq::<char>::empty()
    } else {
        strategies_json(feature_count, from, to - 1) + (if from < to {
            ","@
        } else {
            Seq::<char>::empty()
        }) + "{\"tiny_polygons\":"@ + decimal_text(tiny_polygons_spec(feature_count, to as u8))
            + "}"@
    }
}

/// The members of the `fields` object for the first `n` fields.
pub open spec fn fields_json(fields: Seq<(String, FieldType)>, n: int) -> Seq<char>
    decreases n,
{
    if n <= 0 {
        Seq::<char>::empty()
    } else {
        fields_json(fields, n - 1) + (if n > 1 {
            ","@
        } else {
            Seq::<char>::empty()
        }) + json_quoted(fields[n - 1].0@) + ":"@ + fields[n - 1].1.json()
    }
}

/// The first `n` texts as JSON string literals, separated by commas.
pub open spec fn strings_json(values: Seq<String>, n: int) -> Seq<char>
    decreases n,
{
    if n <= 0 {
        Seq::<char>::empty()
    } else {
        strings_json(values, n - 1) + (if n > 1 {
            ","@
        } else {
            Seq::<char>::empty()
        }) + json_quoted(values[n - 1]@)
    }
}

/// The JSON object of one attribute's statistics.
pub open spec fn attribute_json(a: &AttributeStats) -> Seq<char> {
    "{\"attribute\":"@ + json_quoted(a.attribute@) + ",\"count\":"@ + decimal_text(a.count as nat)
        + (if a.numeric {
        ",\"type\":\"number\",\"values\":["@
    } else {
        ",\"type\":\"string\",\"values\":["@
    }) + strings_json(a.values@, a.values@.len() as int) + "]}"@
}

/// The objects of the first `n` attributes, separated by commas.
pub open spec fn attributes_json(attributes: Seq<AttributeStats>, n: int) -> Seq<char>
    decreases n,
{
    if n <= 0 {
        Seq::<char>::empty()
    } else {
        attributes_json(attributes, n - 1) + (if n > 1 {
            ","@
        } else {
            Seq::<char>::empty()
        }) + attribute_json(&attributes[n - 1])
    }
}

/// A comma before every item but the first.
pub open spec fn separator(n: int) -> Seq<char> {
    if n > 1 {
        ","@
    } else {
        Seq::<char>::empty()
    }
}

/// Whether the names of the first `n` fields can be written.
pub open spec fn fields_quotable(fields: Seq<(String, FieldType)>, n: int) -> bool {
    forall|i: int| 0 <= i < n ==> quotable((#[trigger] fields[i]).0@)
}

/// What writing the first `n` fields leaves: the members up to the first
/// field whose name cannot be written, and the comma before that field.
pub open spec fn fields_written(fields: Seq<(String, FieldType)>, n: int) -> Seq<char>
    decreases n,
{
    if n <= 0 {
        Seq::<char>::empty()
    } else if !fields_quotable(fields, n - 1) {
        fields_written(fields, n - 1)
    } else {
        fields_written(fields, n - 1) + separator(n) + (if quotable(fields[n - 1].0@) {
            json_quoted(fields[n - 1].0@) + ":"@ + fields[n - 1].1.json()
        } else {
            Seq::<char>::empty()
        })
    }
}

/// Whether the first `n` texts can be written.
pub open spec fn strings_quotable(values: Seq<String>, n: int) -> bool {
    forall|i: int| 0 <= i < n ==> quotable((#[trigger] values[i])@)
}

/// What writing the first `n` texts leaves: the literals up to the first
/// text that cannot be written, and the comma before that text.
pub open spec fn strings_written(values: Seq<String>, n: int) -> Seq<char>
    decreases n,
{
    if n <= 0 {
        Seq::<char>::empty()
    } else if !strings_quotable(values, n - 1) {
        strings_written(values, n - 1)
    } else {
        strings_written(values, n - 1) + separator(n) + json_quoted(values[n - 1]@)
    }
}

/// Whether the name and the values of an attribute can be written.
pub open spec fn attribute_quotable(a: &AttributeStats) -> bool {
    quotable(a.attribute@) && strings_quotable(a.values@, a.values@.len() as int)
}

/// What writing an attribute leaves: its object, cut short behind the key
/// of its name if the name cannot be written, and inside the list of its
/// values if one of them cannot.
pub open spec fn attribute_written(a: &AttributeStats) -> Seq<char> {
    "{\"attribute\":"@ + (if quotable(a.attribute@) {
        json_quoted(a.attribute@) + ",\"count\":"@ + decimal_text(a.count as nat) + (if a.numeric {
            ",\"type\":\"number\",\"values\":["@
        } else {
            ",\"type\":\"string\",\"values\":["@
        }) + strings_written(a.values@, a.values@.len() as int) + (if strings_quotable(
            a.values@,
            a.values@.len() as int,
        ) {
            "]}"@
        } else {
            Seq::<char>::empty()
        })
    } else {
        Seq::<char>::empty()
    })
}

/// Whether the first `n` attributes can be written.
pub open spec fn attributes_quotable(attributes: Seq<AttributeStats>, n: int) -> bool {
    forall|i: int| 0 <= i < n ==> attribute_quotable(&#[trigger] attributes[i])
}

/// What writing the first `n` attributes leaves: the objects up to the
/// first attribute that cannot be written, the comma before that one, and
/// what writing that one leaves.
pub open spec fn attributes_written(attributes: Seq<AttributeStats>, n: int) -> Seq<char>
    decreases n,
{
    if n <= 0 {
        Seq::<char>::empty()
    } else if !attributes_quotable(attributes, n - 1) {
        attributes_written(attributes, n - 1)
    } else {
        attributes_written(attributes, n - 1) + separator(n) + attribute_written(
            &attributes[n - 1],
        )
    }
}

/// Fields whose names can be written are written as the members of the
/// `fields` object; after a name that cannot, nothing more is written.
pub proof fn lemma_fields_written(fields: Seq<(String, FieldType)>, m: int, n: int)
    requires
        0 <= m <= n,
    ensures
        fields_quotable(fields, n) ==> fields_written(fields, n) == fields_json(fields, n),
        !fields_quotable(fields, m) ==> fields_written(fields, n) == fields_written(fields, m),
    decreases n,
{
    if n > 0 {
        if m < n {
            lemma_fields_written(fields, m, n - 1);
        } else {
            lemma_fields_written(fields, n - 1, n - 1);
        }
        if fields_quotable(fields, n) {
            assert(quotable(fields[n - 1].0@));
            assert(fields_written(fields, n) =~= fields_json(fields, n));
        }
    }
}

/// Texts that can be written are written as JSON string literals; after a
/// text that cannot, nothing more is written.
pub proof fn lemma_strings_written(values: Seq<String>, m: int, n: int)
    requires
        0 <= m <= n,
    ensures
        strings_quotable(values, n) ==> strings_written(values, n) == strings_json(values, n),
        !strings_quotable(values, m) ==> strings_written(values, n) == strings_written(values, m),
    decreases n,
{
    if n > 0 {
        if m < n {
            lemma_strings_written(values, m, n - 1);
        } else {
            lemma_strings_written(values, n - 1, n - 1);
        }
    }
}

/// An attribute that can be written is written as its JSON object.
pub proof fn lemma_attribute_written(a: &AttributeStats)
    ensures
        attribute_quotable(a) ==> attribute_written(a) == attribute_json(a),
{
    let n = a.values@.len() as int;
    lemma_strings_written(a.values@, n, n);
    if attribute_quotable(a) {
        assert(attribute_written(a) =~= attribute_json(a));
    }
}

/// Attributes that can be written are written as their JSON objects; after
/// an attribute that cannot, nothing more is written.
pub proof fn lemma_attributes_written(attributes: Seq<AttributeStats>, m: int, n: int)
    requires
        0 <= m <= n,
    ensures
        attributes_quotable(attributes, n) ==> attributes_written(attributes, n)
            == attributes_json(attributes, n),
        !attributes_quotable(attributes, m) ==> attributes_written(attributes, n)
            == attributes_written(attributes, m),
    decreases n,
{
    if n > 0 {
        if m < n {
            lemma_attributes_written(attributes, m, n - 1);
        } else {
            lemma_attributes_written(attributes, n - 1, n - 1);
        }
        if attributes_quotable(attributes, n) {
            assert(attribute_quotable(&attributes[n - 1]));
            lemma_attribute_written(&attributes[n - 1]);
        }
    }
}

/// The JSON metadata of an archive: one object, its members in this order,
/// without white space.
pub open spec fn metadata_json(m: &TileMetadata) -> Seq<char> {
    "{\"name\":"@ + json_quoted(archive_name(m.layer_name@))
        + ",\"format\":\"pbf\",\"type\":\"overlay\",\"description\":"@ + json_quoted(
        archive_name(m.layer_name@),
    ) + ",\"version\":\"2\",\"strategies\":["@ + strategies_json(
        m.feature_count as nat,
        m.min_zoom as int,
        m.max_zoom as int,
    ) + "],\"generator\":\"web-vector-tile-maker\",\"generator_options\":"@ + json_quoted(
        "web-vector-tile-maker -o "@ + archive_name(m.layer_name@),
    ) + ",\"antimeridian_adjusted_bounds\":"@ + json_quoted(m.bounds.text@)
        + ",\"vector_layers\":[{\"id\":"@ + json_quoted(m.layer_name@)
        + ",\"description\":\"\",\"minzoom\":"@ + decimal_text(m.min_zoom as nat)
        + ",\"maxzoom\":"@ + decimal_text(m.max_zoom as nat) + ",\"fields\":{"@ + fields_json(
        m.fields@,
        m.fields@.len() as int,
    ) + "}}],\"tilestats\":{\"layerCount\":1,\"layers\":[{\"layer\":"@ + json_quoted(
        m.layer_name@,
    ) + ",\"count\":"@ + decimal_text(m.feature_count as nat) + ",\"geometry\":"@
        + m.geometry_type.json() + ",\"attributeCount\":"@ + decimal_text(
        m.attributes@.len() as nat,
    ) + ",\"attributes\":["@ + attributes_json(m.attributes@, m.attributes@.len() as int)
        + "]}]}}"@
}

/// Whether every text of the metadata can be written as a JSON string
/// literal: the archive name, the generator options, the bounds, the layer
/// name, the field names, and the names and values of the attributes.
pub open spec fn metadata_quotable(m: &TileMetadata) -> bool {
    &&& quotable(archive_name(m.layer_name@))
    &&& quotable("web-vector-tile-maker -o "@ + archive_name(m.layer_name@))
    &&& quotable(m.bounds.text@)
    &&& quotable(m.layer_name@)
    &&& fields_quotable(m.fields@, m.fields@.len() as int)
    &&& attributes_quotable(m.attributes@, m.attributes@.len() as int)
}

/// Whether two metadata hold the same values: the same numbers and kinds,
/// and texts, fields and attributes with the same views.
pub open spec fn same_metadata(a: &TileMetadata, b: &TileMetadata) -> bool {
    &&& a.min_zoom == b.min_zoom
    &&& a.max_zoom == b.max_zoom
    &&& a.layer_name@ == b.layer_name@
    &&& a.bounds.min_lon_e7 == b.bounds.min_lon_e7
    &&& a.bounds.min_lat_e7 == b.bounds.min_lat_e7
    &&& a.bounds.max_lon_e7 == b.bounds.max_lon_e7
    &&& a.bounds.max_lat_e7 == b.bounds.max_lat_e7
    &&& a.bounds.text@ == b.bounds.text@
    &&& a.center_lon_e7 == b.center_lon_e7
    &&& a.center_lat_e7 == b.center_lat_e7
    &&& a.feature_count == b.feature_count
    &&& a.geometry_type == b.geometry_type
    &&& same_fields(a.fields@, b.fields@)
    &&& same_attributes(a.attributes@, b.attributes@)
}

/// Whether two field lists name the same fields with the same labels.
pub open spec fn same_fields(a: Seq<(String, FieldType)>, b: Seq<(String, FieldType)>) -> bool {
    &&& a.len() == b.len()
    &&& forall|i: int| 0 <= i < a.len() ==> (#[trigger] a[i]).0@ == b[i].0@ && a[i].1 == b[i].1
}

/// Whether two lists of texts hold the same texts.
pub open spec fn same_strings(a: Seq<String>, b: Seq<String>) -> bool {
    &&& a.len() == b.len()
    &&& forall|i: int| 0 <= i < a.len() ==> (#[trigger] a[i])@ == b[i]@
}

/// Whether two attribute lists hold the same statistics.
pub open spec fn same_attributes(a: Seq<AttributeStats>, b: Seq<AttributeStats>) -> bool {
    &&& a.len() == b.len()
    &&& forall|i: int|
        0 <= i < a.len() ==> {
            &&& (#[trigger] a[i]).attribute@ == b[i].attribute@
            &&& a[i].count == b[i].count
            &&& a[i].numeric == b[i].numeric
            &&& same_strings(a[i].values@, b[i].values@)
        }
}

/// The same fields are written alike.
proof fn lemma_same_fields(a: Seq<(String, FieldType)>, b: Seq<(String, FieldType)>, n: int)
    requires
        same_fields(a, b),
        n <= a.len(),
    ensures
        fields_json(a, n) == fields_json(b, n),
        fields_quotable(a, n) == fields_quotable(b, n),
    decreases n,
{
    if n > 0 {
        lemma_same_fields(a, b, n - 1);
        assert(a[n - 1].0@ == b[n - 1].0@);
    }
    if fields_quotable(a, n) {
        assert forall|i: int| 0 <= i < n implies quotable((#[trigger] b[i]).0@) by {
            assert(quotable(a[i].0@));
        }
    }
    if fields_quotable(b, n) {
        assert forall|i: int| 0 <= i < n implies quotable((#[trigger] a[i]).0@) by {
            assert(quotable(b[i].0@));
        }
    }
}

/// The same texts are written alike.
proof fn lemma_same_strings(a: Seq<String>, b: Seq<String>, n: int)
    requires
        same_strings(a, b),
        n <= a.len(),
    ensures
        strings_json(a, n) == strings_json(b, n),
        strings_quotable(a, n) == strings_quotable(b, n),
    decreases n,
{
    if n > 0 {
        lemma_same_strings(a, b, n - 1);
        assert(a[n - 1]@ == b[n - 1]@);
    }
    if strings_quotable(a, n) {
        assert forall|i: int| 0 <= i < n implies quotable((#[trigger] b[i])@) by {
            assert(quotable(a[i]@));
        }
    }
    if strings_quotable(b, n) {
        assert forall|i: int| 0 <= i < n implies quotable((#[trigger] a[i])@) by {
            assert(quotable(b[i]@));
        }
    }
}

/// The same attributes are written alike.
proof fn lemma_same_attributes(a: Seq<AttributeStats>, b: Seq<AttributeStats>, n: int)
    requires
        same_attributes(a, b),
        n <= a.len(),
    ensures
        attributes_json(a, n) == attributes_json(b, n),
        attributes_quotable(a, n) == attributes_quotable(b, n),
    decreases n,
{
    if n > 0 {
        lemma_same_attributes(a, b, n - 1);
        assert(a[n - 1].attribute@ == b[n - 1].attribute@);
        lemma_same_strings(a[n - 1].values@, b[n - 1].values@, a[n - 1].values@.len() as int);
    }
    assert forall|i: int| 0 <= i < n implies attribute_quotable(&a[i]) == attribute_quotable(
        &b[i],
    ) by {
        assert(a[i].attribute@ == b[i].attribute@);
        lemma_same_strings(a[i].values@, b[i].values@, a[i].values@.len() as int);
    }
    if attributes_quotable(a, n) {
        assert forall|i: int| 0 <= i < n implies attribute_quotable(&#[trigger] b[i]) by {
            assert(attribute_quotable(&a[i]));
        }
    }
    if attributes_quotable(b, n) {
        assert forall|i: int| 0 <= i < n implies attribute_quotable(&#[trigger] a[i]) by {
            assert(attribute_quotable(&b[i]));
        }
    }
}

/// Metadata that hold the same values have the same JSON text, and the one
/// can be serialised if the other can.
pub proof fn lemma_same_metadata(a: &TileMetadata, b: &TileMetadata)
    requires
        same_metadata(a, b),
    ensures
        metadata_json(a) == metadata_json(b),
        metadata_quotable(a) == metadata_quotable(b),
{
    lemma_same_fields(a.fields@, b.fields@, a.fields@.len() as int);
    lemma_same_attributes(a.attributes@, b.attributes@, a.attributes@.len() as int);
}

/// Appends the `strategies` entries of the zoom range.
fn push_strategies(out: &mut String, feature_count: usize, min_zoom: u8, max_zoom: u8)
    ensures
        final(out)@ == old(out)@ + strategies_json(
            feature_count as nat,
            min_zoom as int,
            max_zoom as int,
        ),
{
    if min_zoom > max_zoom {
        assert(out@ =~= old(out)@ + Seq::<char>::empty());
        return ;
    }
    let mut zoom: u8 = min_zoom;
    let ghost f = feature_count as nat;
    assert(out@ =~= old(out)@ + strategies_json(f, min_zoom as int, zoom - 1));
    loop
        invariant_except_break
            out@ == old(out)@ + strategies_json(f, min_zoom as int, zoom - 1),
        invariant
            min_zoom <= zoom <= max_zoom,
            f == feature_count as nat,
        ensures
            out@ == old(out)@ + strategies_json(f, min_zoom as int, max_zoom as int),
        decreases max_zoom - zoom,
    {
        let ghost before = out@;
        if zoom > min_zoom {
            out.append(",");
        }
        out.append("{\"tiny_polygons\":");
        push_decimal(out, tiny_polygons(feature_count, zoom));
        out.append("}");
        assert(out@ =~= old(out)@ + strategies_json(f, min_zoom as int, zoom as int));
        if zoom == max_zoom {
            break ;
        }
        zoom = zoom + 1;
    }
}

/// Appends the members of the `fields` object. Stops with `false` at the
/// first field whose name cannot be serialised, behind the comma that
/// precedes it.
fn push_fields(out: &mut String, fields: &Vec<(String, FieldType)>) -> (ok: bool)
    ensures
        ok == fields_quotable(fields@, fields@.len() as int),
        final(out)@ == old(out)@ + fields_written(fields@, fields@.len() as int),
        ok ==> final(out)@ == old(out)@ + fields_json(fields@, fields@.len() as int),
{
    let n = fields.len();
    let mut i: usize = 0;
    assert(out@ =~= old(out)@ + fields_written(fields@, 0));
    while i < n
        invariant
            i <= n == fields.len(),
            fields_quotable(fields@, i as int),
            out@ == old(out)@ + fields_written(fields@, i as int),
        decreases n - i,
    {
        if i > 0 {
            out.append(",");
        }
        if !push_quoted(out, fields[i].0.as_str()) {
            proof {
                assert(!quotable(fields@[i as int].0@));
                assert(out@ =~= old(out)@ + fields_written(fields@, i + 1));
                lemma_fields_written(fields@, i + 1, n as int);
            }
            return false;
        }
        out.append(":");
        out.append(fields[i].1.json_str());
        assert(out@ =~= old(out)@ + fields_written(fields@, i + 1));
        i += 1;
    }
    proof {
        lemma_fields_written(fields@, n as int, n as int);
    }
    true
}

/// Appends texts as JSON string literals, separated by commas. Stops with
/// `false` at the first text that cannot be serialised, behind the comma
/// that precedes it.
fn push_strings(out: &mut String, values: &Vec<String>) -> (ok: bool)
    ensures
        ok == strings_quotable(values@, values@.len() as int),
        final(out)@ == old(out)@ + strings_written(values@, values@.len() as int),
        ok ==> final(out)@ == old(out)@ + strings_json(values@, values@.len() as int),
{
    let n = values.len();
    let mut i: usize = 0;
    assert(out@ =~= old(out)@ + strings_written(values@, 0));
    while i < n
        invariant
            i <= n == values.len(),
            strings_quotable(values@, i as int),
            out@ == old(out)@ + strings_written(values@, i as int),
        decreases n - i,
    {
        if i > 0 {
            out.append(",");
        }
        if !push_quoted(out, values[i].as_str()) {
            proof {
                assert(!quotable(values@[i as int]@));
                assert(out@ =~= old(out)@ + strings_written(values@, i + 1));
                lemma_strings_written(values@, i + 1, n as int);
            }
            return false;
        }
        assert(out@ =~= old(out)@ + strings_written(values@, i + 1));
        i += 1;
    }
    proof {
        lemma_strings_written(values@, n as int, n as int);
    }
    true
}

/// Appends the object of one attribute. Stops with `false` where its name
/// or one of its values cannot be serialised.
fn push_attribute(out: &mut String, a: &AttributeStats) -> (ok: bool)
    ensures
        ok == attribute_quotable(a),
        final(out)@ == old(out)@ + attribute_written(a),
{
    out.append("{\"attribute\":");
    if !push_quoted(out, a.attribute.as_str()) {
        assert(out@ =~= old(out)@ + attribute_written(a));
        return false;
    }
    out.append(",\"count\":");
    push_decimal(out, a.count as u64);
    if a.numeric {
        out.append(",\"type\":\"number\",\"values\":[");
    } else {
        out.append(",\"type\":\"string\",\"values\":[");
    }
    if !push_strings(out, &a.values) {
        assert(out@ =~= old(out)@ + attribute_written(a));
        return false;
    }
    out.append("]}");
    assert(out@ =~= old(out)@ + attribute_written(a));
    true
}

/// Appends the objects of all attributes, separated by commas. Stops with
/// `false` in the first attribute whose name or values cannot be
/// serialised.
fn push_attributes(out: &mut String, attributes: &Vec<AttributeStats>) -> (ok: bool)
    ensures
        ok == attributes_quotable(attributes@, attributes@.len() as int),
        final(out)@ == old(out)@ + attributes_written(attributes@, attributes@.len() as int),
        ok ==> final(out)@ == old(out)@ + attributes_json(attributes@, attributes@.len() as int),
{
    let n = attributes.len();
    let mut i: usize = 0;
    assert(out@ =~= old(out)@ + attributes_written(attributes@, 0));
    while i < n
        invariant
            i <= n == attributes.len(),
            attributes_quotable(attributes@, i as int),
            out@ == old(out)@ + attributes_written(attributes@, i as int),
        decreases n - i,
    {
        if i > 0 {
            out.append(",");
        }
        let done = push_attribute(out, &attributes[i]);
        assert(out@ =~= old(out)@ + attributes_written(attributes@, i + 1));
        if !done {
            proof {
                assert(!attribute_quotable(&attributes@[i as int]));
                lemma_attributes_written(attributes@, i + 1, n as int);
            }
            return false;
        }
        i += 1;
    }
    proof {
        lemma_attributes_written(attributes@, n as int, n as int);
    }
    true
}

/// Writes the JSON metadata of an archive as text.
///
/// Succeeds exactly when every text of the metadata can be serialised, and
/// fails with `EncodeFailed` otherwise.
pub fn metadata_json_text(m: &TileMetadata) -> (r: Result<String, TileError>)
    ensures
        r is Ok <==> metadata_quotable(m),
        match r {
            Ok(text) => text@ == metadata_json(m),
            Err(e) => e == TileError::EncodeFailed,
        },
{
    let name: String = m.layer_name.clone().concat(".pmtiles");
    let options: String = String::from_str("web-vector-tile-maker -o ").concat(name.as_str());
    let mut out: String = String::new();
    out.append("{\"name\":");
    if !push_quoted(&mut out, name.as_str()) {
        return Err(TileError::EncodeFailed);
    }
    out.append(",\"format\":\"pbf\",\"type\":\"overlay\",\"description\":");
    if !push_quoted(&mut out, name.as_str()) {
        return Err(TileError::EncodeFailed);
    }
    out.append(",\"version\":\"2\",\"strategies\":[");
    push_strategies(&mut out, m.feature_count, m.min_zoom, m.max_zoom);
    out.append("],\"generator\":\"web-vector-tile-maker\",\"generator_options\":");
    if !push_quoted(&mut out, options.as_str()) {
        return Err(TileError::EncodeFailed);
    }
    out.append(",\"antimeridian_adjusted_bounds\":");
    if !push_quoted(&mut out, m.bounds.text.as_str()) {
        return Err(TileError::EncodeFailed);
    }
    out.append(",\"vector_layers\":[{\"id\":");
    if !push_quoted(&mut out, m.layer_name.as_str()) {
        return Err(TileError::EncodeFailed);
    }
    out.append(",\"description\":\"\",\"minzoom\":");
    push_decimal(&mut out, m.min_zoom as u64);
    out.append(",\"maxzoom\":");
    push_decimal(&mut out, m.max_zoom as u64);
    out.append(",\"fields\":{");
    if !push_fields(&mut out, &m.fields) {
        return Err(TileError::EncodeFailed);
    }
    out.append("}}],\"tilestats\":{\"layerCount\":1,\"layers\":[{\"layer\":");
    if !push_quoted(&mut out, m.layer_name.as_str()) {
        return Err(TileError::EncodeFailed);
    }
    out.append(",\"count\":");
    push_decimal(&mut out, m.feature_count as u64);
    out.append(",\"geometry\":");
    out.append(m.geometry_type.json_str());
    out.append(",\"attributeCount\":");
    push_decimal(&mut out, m.attributes.len() as u64);
    out.append(",\"attributes\":[");
    if !push_attributes(&mut out, &m.attributes) {
        return Err(TileError::EncodeFailed);
    }
    out.append("]}]}}");
    assert(out@ =~= metadata_json(m));
    Ok(out)
}

} // verus!
