//! Mapbox Vector Tile encoding: geometry command streams, the key and value
//! dictionaries of a layer, and the protocol-buffer bytes of a tile.

use vstd::prelude::*;
use crate::properties::{PropertyValue, PropertyValueView, PropertyView};
use crate::tiler::{
    features_view, TileFeature, TileFeatureView, TileGeometry, TileGeometryView, TilePoint,
};
use crate::vector_tile::{
    layer_features_view, strings_view, tile_bytes, values_view, Feature, FeatureView, GeomType,
    Layer, LayerView, Value, ValueView,
};
use crate::wire::{put_len_field, zigzag, zigzag_decode};
use crate::TileError;

verus! {

/// Side length of a tile in tile-local units.
pub const EXTENT: u32 = 4096;

/// Command id that starts a path at a point.
pub const MOVE_TO: u32 = 1;

/// Command id that draws segments to the points that follow.
pub const LINE_TO: u32 = 2;

/// Command id that closes a ring.
pub const CLOSE_PATH: u32 = 7;

/// Largest repeat count that a command integer holds.
pub const MAX_COMMAND_COUNT: u32 = 0x1fff_ffff;

/// A command integer: the id in the three low bits, the repeat count above.
pub open spec fn command_integer_spec(id: u32, count: u32) -> u32 {
    (id & 0x7) | (count << 3)
}

/// Packs a command id and a repeat count.
pub fn command_integer(id: u32, count: u32) -> (r: u32)
    ensures
        r == command_integer_spec(id, count),
{
    (id & 0x7) | (count << 3)
}

/// Zig-zag code of a 32-bit parameter.
pub fn zigzag_encode(n: i32) -> (r: u32)
    ensures
        r == zigzag(n as int),
{
    if n >= 0 {
        2 * (n as u32)
    } else {
        let m: u32 = (-(n + 1)) as u32;
        2 * m + 1
    }
}

/// Decoding a zig-zag code gives back the number that was encoded.
pub proof fn lemma_zigzag_round_trip(n: i32)
    ensures
        0 <= zigzag(n as int) <= u32::MAX,
        zigzag_decode(zigzag(n as int)) == n,
{
}

/// The difference `a - b` as 32-bit arithmetic leaves it: wrapped into range.
pub open spec fn wrapping_delta(a: i32, b: i32) -> i32 {
    let d = a - b;
    if d > i32::MAX {
        (d - 0x1_0000_0000) as i32
    } else if d < i32::MIN {
        (d + 0x1_0000_0000) as i32
    } else {
        d as i32
    }
}

/// Computes `wrapping_delta`.
fn delta(a: i32, b: i32) -> (r: i32)
    ensures
        r == wrapping_delta(a, b),
{
    let d: i64 = (a as i64) - (b as i64);
    if d > 2147483647 {
        (d - 4294967296) as i32
    } else if d < -2147483648 {
        (d + 4294967296) as i32
    } else {
        d as i32
    }
}

/// The parameters of the segments that lead to points `1..n` of `pts`: for
/// each point the zig-zag codes of its offset from the point before.
pub open spec fn line_params(pts: Seq<TilePoint>, n: int) -> Seq<u32>
    decreases n,
{
    if n <= 1 {
        Seq::<u32>::empty()
    } else {
        line_params(pts, n - 1) + seq![
            zigzag(wrapping_delta(pts[n - 1].0, pts[n - 2].0) as int) as u32,
            zigzag(wrapping_delta(pts[n - 1].1, pts[n - 2].1) as int) as u32,
        ]
    }
}

/// The commands of an open path through the first `n` points of `pts`: one
/// `MoveTo` to the first point, taken from the origin, then one `LineTo` that
/// covers the others.
pub open spec fn path_stream(pts: Seq<TilePoint>, n: int) -> Seq<u32> {
    seq![
        command_integer_spec(MOVE_TO, 1),
        zigzag(pts[0].0 as int) as u32,
        zigzag(pts[0].1 as int) as u32,
        command_integer_spec(LINE_TO, (n - 1) as u32),
    ] + line_params(pts, n)
}

/// A ring can be drawn when it has at least four points and its segment
/// count fits a command integer. That its last point repeats the first is
/// taken for granted, not tested: the last point is left out unread.
pub open spec fn ring_usable(ring: Seq<TilePoint>) -> bool {
    4 <= ring.len() <= MAX_COMMAND_COUNT as int + 2
}

/// The commands of one ring: the path through all points but the closing one,
/// then `ClosePath`. A ring that cannot be drawn leaves nothing.
pub open spec fn ring_stream(ring: Seq<TilePoint>) -> Seq<u32> {
    if ring_usable(ring) {
        path_stream(ring, ring.len() - 1) + seq![command_integer_spec(CLOSE_PATH, 1)]
    } else {
        Seq::<u32>::empty()
    }
}

/// The commands of all rings, in order.
pub open spec fn rings_stream(rings: Seq<Seq<TilePoint>>) -> Seq<u32>
    decreases rings.len(),
{
    if rings.len() == 0 {
        Seq::<u32>::empty()
    } else {
        rings_stream(rings.drop_last()) + ring_stream(rings.last())
    }
}

/// Whether one ring at least can be drawn.
pub open spec fn has_usable_ring(rings: Seq<Seq<TilePoint>>) -> bool {
    exists|i: int| 0 <= i < rings.len() && ring_usable(#[trigger] rings[i])
}

/// Whether a geometry can be encoded: a line needs two points at least and a
/// segment count that fits a command integer, a polygon one usable ring.
pub open spec fn geometry_valid(g: TileGeometryView) -> bool {
    match g {
        TileGeometryView::Point(_, _) => true,
        TileGeometryView::LineString(coords) => 2 <= coords.len() <= MAX_COMMAND_COUNT as int + 1,
        TileGeometryView::Polygon(rings) => has_usable_ring(rings),
    }
}

/// The kind under which a geometry is stored.
pub open spec fn geometry_kind(g: TileGeometryView) -> GeomType {
    match g {
        TileGeometryView::Point(_, _) => GeomType::Point,
        TileGeometryView::LineString(_) => GeomType::Linestring,
        TileGeometryView::Polygon(_) => GeomType::Polygon,
    }
}

/// The command stream of a geometry.
pub open spec fn geometry_stream(g: TileGeometryView) -> Seq<u32> {
    match g {
        TileGeometryView::Point(x, y) => seq![
            command_integer_spec(MOVE_TO, 1),
            zigzag(x as int) as u32,
            zigzag(y as int) as u32,
        ],
        TileGeometryView::LineString(coords) => path_stream(coords, coords.len() as int),
        TileGeometryView::Polygon(rings) => rings_stream(rings),
    }
}

/// Appends the commands of an open path through the first `n` points.
fn push_path(commands: &mut Vec<u32>, pts: &Vec<TilePoint>, n: usize)
    requires
        2 <= n <= pts.len(),
        n - 1 <= MAX_COMMAND_COUNT,
    ensures
        final(commands)@ == old(commands)@ + path_stream(pts@, n as int),
{
    commands.push(command_integer(MOVE_TO, 1));
    commands.push(zigzag_encode(pts[0].0));
    commands.push(zigzag_encode(pts[0].1));
    commands.push(command_integer(LINE_TO, (n - 1) as u32));
    let ghost head = commands@;
    assert(head == old(commands)@ + seq![
        command_integer_spec(MOVE_TO, 1),
        zigzag(pts@[0].0 as int) as u32,
        zigzag(pts@[0].1 as int) as u32,
        command_integer_spec(LINE_TO, (n - 1) as u32),
    ]);
    let mut i: usize = 1;
    while i < n
        invariant
            1 <= i <= n <= pts.len(),
            commands@ == head + line_params(pts@, i as int),
        decreases n - i,
    {
        let dx = delta(pts[i].0, pts[i - 1].0);
        let dy = delta(pts[i].1, pts[i - 1].1);
        commands.push(zigzag_encode(dx));
        commands.push(zigzag_encode(dy));
        assert(commands@ == head + line_params(pts@, i + 1));
        i += 1;
    }
}

/// Encodes a geometry as its kind and command stream.
///
/// A line of fewer than two points and a polygon without a usable ring are
/// refused; rings of a polygon that cannot be drawn are left out.
pub fn encode_geometry(geometry: &TileGeometry) -> (r: Result<(GeomType, Vec<u32>), TileError>)
    ensures
        geometry_valid(geometry@) ==> (r matches Ok(out) && out.0 == geometry_kind(geometry@)
            && out.1@ == geometry_stream(geometry@)),
        !geometry_valid(geometry@) ==> r == Err::<(GeomType, Vec<u32>), TileError>(
            TileError::InvalidGeometry,
        ),
{
    match geometry {
        TileGeometry::Point(x, y) => {
            let mut commands: Vec<u32> = Vec::new();
            commands.push(command_integer(MOVE_TO, 1));
            commands.push(zigzag_encode(*x));
            commands.push(zigzag_encode(*y));
            assert(commands@ == geometry_stream(geometry@));
            Ok((GeomType::Point, commands))
        },
        TileGeometry::LineString(coords) => {
            if coords.len() < 2 || coords.len() - 1 > MAX_COMMAND_COUNT as usize {
                return Err(TileError::InvalidGeometry);
            }
            let mut commands: Vec<u32> = Vec::new();
            push_path(&mut commands, coords, coords.len());
            assert(commands@ == geometry_stream(geometry@));
            Ok((GeomType::Linestring, commands))
        },
        TileGeometry::Polygon(rings) => {
            let ghost ring_views = rings@.map_values(|r: Vec<TilePoint>| r@);
            let mut commands: Vec<u32> = Vec::new();
            let mut drawn: bool = false;
            let mut i: usize = 0;
            while i < rings.len()
                invariant
                    i <= rings.len(),
                    ring_views == rings@.map_values(|r: Vec<TilePoint>| r@),
                    commands@ == rings_stream(ring_views.take(i as int)),
                    drawn <==> has_usable_ring(ring_views.take(i as int)),
                decreases rings.len() - i,
            {
                let ring = &rings[i];
                assert(ring_views[i as int] == ring@);
                assert(ring_views.take(i + 1).drop_last() == ring_views.take(i as int));
                proof {
                    let before = ring_views.take(i as int);
                    let after = ring_views.take(i + 1);
                    if has_usable_ring(before) {
                        let j = choose|j: int|
                            0 <= j < before.len() && ring_usable(#[trigger] before[j]);
                        assert(ring_usable(after[j]));
                    }
                    if ring_usable(ring@) {
                        assert(ring_usable(after[i as int]));
                    }
                    if has_usable_ring(after) {
                        let j = choose|j: int|
                            0 <= j < after.len() && ring_usable(#[trigger] after[j]);
                        if j < i {
                            assert(ring_usable(before[j]));
                        }
                    }
                }
                if ring.len() >= 4 && ring.len() - 2 <= MAX_COMMAND_COUNT as usize {
                    push_path(&mut commands, ring, ring.len() - 1);
                    commands.push(command_integer(CLOSE_PATH, 1));
                    drawn = true;
                }
                assert(commands@ == rings_stream(ring_views.take(i + 1)));
                i += 1;
            }
            assert(ring_views.take(i as int) == ring_views);
            assert(geometry@ == TileGeometryView::Polygon(ring_views));
            if drawn {
                Ok((GeomType::Polygon, commands))
            } else {
                Err(TileError::InvalidGeometry)
            }
        },
    }
}

/// Checks whether a geometry can be encoded, without encoding it.
fn geometry_ok(geometry: &TileGeometry) -> (ok: bool)
    ensures
        ok == geometry_valid(geometry@),
{
    match geometry {
        TileGeometry::Point(_, _) => true,
        TileGeometry::LineString(coords) => coords.len() >= 2 && coords.len() - 1
            <= MAX_COMMAND_COUNT as usize,
        TileGeometry::Polygon(rings) => {
            let ghost ring_views = rings@.map_values(|r: Vec<TilePoint>| r@);
            let mut i: usize = 0;
            while i < rings.len()
                invariant
                    i <= rings.len(),
                    ring_views == rings@.map_values(|r: Vec<TilePoint>| r@),
                    geometry@ == TileGeometryView::Polygon(ring_views),
                    forall|j: int| 0 <= j < i ==> !ring_usable(#[trigger] ring_views[j]),
                decreases rings.len() - i,
            {
                let n = rings[i].len();
                assert(ring_views[i as int] == rings@[i as int]@);
                if n >= 4 && n - 2 <= MAX_COMMAND_COUNT as usize {
                    assert(ring_usable(ring_views[i as int]));
                    assert(has_usable_ring(ring_views));
                    return true;
                }
                i += 1;
            }
            assert(!has_usable_ring(ring_views));
            false
        },
    }
}

/// What tells one stored value from another: its kind and payload, a double
/// by its text.
#[derive(Debug, Clone)]
pub enum ValueKey {
    String(String),
    Int(i64),
    Double(String),
    Bool(bool),
    /// The key of a value without payload.
    Empty,
}

/// What a `ValueKey` holds, as mathematical values.
pub enum ValueKeyView {
    String(Seq<char>),
    Int(i64),
    Double(Seq<char>),
    Bool(bool),
    Empty,
}

impl View for ValueKey {
    type V = ValueKeyView;

    open spec fn view(&self) -> ValueKeyView {
        match self {
            ValueKey::String(s) => ValueKeyView::String(s@),
            ValueKey::Int(i) => ValueKeyView::Int(*i),
            ValueKey::Double(t) => ValueKeyView::Double(t@),
            ValueKey::Bool(b) => ValueKeyView::Bool(*b),
            ValueKey::Empty => ValueKeyView::Empty,
        }
    }
}

/// The key under which a property value is stored: its kind with its
/// payload. Values without a payload have one key of their own, apart from
/// that of every string.
pub open spec fn value_key(v: PropertyValueView) -> ValueKeyView {
    match v {
        PropertyValueView::String(s) => ValueKeyView::String(s),
        PropertyValueView::Integer { value, text } => ValueKeyView::Int(value),
        PropertyValueView::Double { bits, text } => ValueKeyView::Double(text),
        PropertyValueView::Boolean(b) => ValueKeyView::Bool(b),
        PropertyValueView::Null => ValueKeyView::Empty,
        PropertyValueView::Other => ValueKeyView::Empty,
    }
}

impl ValueKey {
    /// The key of a property value.
    pub fn from_json(value: &PropertyValue) -> (k: ValueKey)
        ensures
            k@ == value_key(value@),
    {
        match value {
            PropertyValue::String(s) => ValueKey::String(s.clone()),
            PropertyValue::Integer { value, text } => ValueKey::Int(*value),
            PropertyValue::Double { bits, text } => ValueKey::Double(text.clone()),
            PropertyValue::Boolean(b) => ValueKey::Bool(*b),
            PropertyValue::Null => ValueKey::Empty,
            PropertyValue::Other => ValueKey::Empty,
        }
    }

    /// Whether two keys name the same stored value.
    pub fn same(&self, other: &ValueKey) -> (r: bool)
        ensures
            r == (self@ == other@),
    {
        match self {
            ValueKey::String(a) => match other {
                ValueKey::String(b) => *a == *b,
                _ => false,
            },
            ValueKey::Int(a) => match other {
                ValueKey::Int(b) => *a == *b,
                _ => false,
            },
            ValueKey::Double(a) => match other {
                ValueKey::Double(b) => *a == *b,
                _ => false,
            },
            ValueKey::Bool(a) => match other {
                ValueKey::Bool(b) => *a == *b,
                _ => false,
            },
            ValueKey::Empty => match other {
                ValueKey::Empty => true,
                _ => false,
            },
        }
    }
}

/// A property value as a layer stores it: a string, a 64-bit integer, a
/// double or a boolean in the field of its kind, anything else with no field.
pub open spec fn mvt_value(v: PropertyValueView) -> ValueView {
    ValueView {
        string_value: match v {
            PropertyValueView::String(s) => Some(s),
            _ => None,
        },
        double_value: match v {
            PropertyValueView::Double { bits, text } => Some(bits),
            _ => None,
        },
        int_value: match v {
            PropertyValueView::Integer { value, text } => Some(value),
            _ => None,
        },
        bool_value: match v {
            PropertyValueView::Boolean(b) => Some(b),
            _ => None,
        },
    }
}

/// Converts a property value to the value that a layer stores.
pub fn json_to_mvt_value(value: &PropertyValue) -> (r: Value)
    ensures
        r@ == mvt_value(value@),
{
    match value {
        PropertyValue::String(s) => Value {
            string_value: Some(s.clone()),
            double_value: None,
            int_value: None,
            bool_value: None,
        },
        PropertyValue::Integer { value, text } => Value {
            string_value: None,
            double_value: None,
            int_value: Some(*value),
            bool_value: None,
        },
        PropertyValue::Double { bits, text } => Value {
            string_value: None,
            double_value: Some(*bits),
            int_value: None,
            bool_value: None,
        },
        PropertyValue::Boolean(b) => Value {
            string_value: None,
            double_value: None,
            int_value: None,
            bool_value: Some(*b),
        },
        _ => Value { string_value: None, double_value: None, int_value: None, bool_value: None },
    }
}

/// The properties of all features, in feature order.
pub open spec fn all_properties(fs: Seq<TileFeatureView>) -> Seq<PropertyView>
    decreases fs.len(),
{
    if fs.len() == 0 {
        Seq::<PropertyView>::empty()
    } else {
        all_properties(fs.drop_last()) + fs.last().properties
    }
}

/// The distinct keys of `props`, each at the place of its first appearance.
pub open spec fn key_dictionary(props: Seq<PropertyView>) -> Seq<Seq<char>>
    decreases props.len(),
{
    if props.len() == 0 {
        Seq::<Seq<char>>::empty()
    } else {
        let d = key_dictionary(props.drop_last());
        if d.contains(props.last().0) {
            d
        } else {
            d.push(props.last().0)
        }
    }
}

/// The keys under which the values of `entries` are stored.
pub open spec fn entry_keys(entries: Seq<PropertyValueView>) -> Seq<ValueKeyView> {
    entries.map_values(|v: PropertyValueView| value_key(v))
}

/// The values of `props` that a layer stores: for each distinct value key the
/// first value that has it, in order of first appearance.
pub open spec fn value_entries(props: Seq<PropertyView>) -> Seq<PropertyValueView>
    decreases props.len(),
{
    if props.len() == 0 {
        Seq::<PropertyValueView>::empty()
    } else {
        let d = value_entries(props.drop_last());
        if entry_keys(d).contains(value_key(props.last().1)) {
            d
        } else {
            d.push(props.last().1)
        }
    }
}

/// The tags of a feature: for each property the index of its key among
/// `keys`, then the index of its value key among `vkeys`.
pub open spec fn tags_of(
    props: Seq<PropertyView>,
    keys: Seq<Seq<char>>,
    vkeys: Seq<ValueKeyView>,
) -> Seq<u32> {
    Seq::new(
        2 * props.len(),
        |t: int|
            if t % 2 == 0 {
                keys.index_of(props[t / 2].0) as u32
            } else {
                vkeys.index_of(value_key(props[t / 2].1)) as u32
            },
    )
}

/// The feature of a layer that stands for `f`, numbered `id`.
pub open spec fn layer_feature(
    f: TileFeatureView,
    id: int,
    keys: Seq<Seq<char>>,
    vkeys: Seq<ValueKeyView>,
) -> FeatureView {
    FeatureView {
        id: id as u64,
        tags: tags_of(f.properties, keys, vkeys),
        geom_type: geometry_kind(f.geometry),
        geometry: geometry_stream(f.geometry),
    }
}

/// The layer that holds `fs` under `name`: version 2, extent 4096, the
/// features numbered from zero, and the dictionaries of all their properties.
pub open spec fn layer_of(fs: Seq<TileFeatureView>, name: Seq<char>) -> LayerView {
    let props = all_properties(fs);
    let keys = key_dictionary(props);
    let entries = value_entries(props);
    LayerView {
        version: 2,
        name: name,
        features: Seq::new(
            fs.len(),
            |i: int| layer_feature(fs[i], i, keys, entry_keys(entries)),
        ),
        keys: keys,
        values: entries.map_values(|v: PropertyValueView| mvt_value(v)),
        extent: EXTENT,
    }
}

/// Whether every geometry of `fs` can be encoded.
pub open spec fn geometries_valid(fs: Seq<TileFeatureView>) -> bool {
    forall|i: int| 0 <= i < fs.len() ==> geometry_valid((#[trigger] fs[i]).geometry)
}

/// Whether every dictionary index of `fs` fits 32 bits.
pub open spec fn dictionaries_fit(fs: Seq<TileFeatureView>) -> bool {
    &&& key_dictionary(all_properties(fs)).len() <= 0x1_0000_0000
    &&& value_entries(all_properties(fs)).len() <= 0x1_0000_0000
}

/// What encoding a tile from `fs` gives: the layer, or the reason for none.
pub open spec fn layer_result(fs: Seq<TileFeatureView>, name: Seq<char>) -> Result<
    LayerView,
    TileError,
> {
    if fs.len() == 0 {
        Err(TileError::EmptyTile)
    } else if !geometries_valid(fs) {
        Err(TileError::InvalidGeometry)
    } else if !dictionaries_fit(fs) {
        Err(TileError::EncodeFailed)
    } else {
        Ok(layer_of(fs, name))
    }
}

/// No key occurs twice in a key dictionary.
pub proof fn lemma_key_dictionary_distinct(props: Seq<PropertyView>)
    ensures
        key_dictionary(props).no_duplicates(),
    decreases props.len(),
{
    if props.len() > 0 {
        lemma_key_dictionary_distinct(props.drop_last());
    }
}

/// No value key occurs twice among the stored values.
pub proof fn lemma_value_entries_distinct(props: Seq<PropertyView>)
    ensures
        entry_keys(value_entries(props)).no_duplicates(),
    decreases props.len(),
{
    if props.len() > 0 {
        lemma_value_entries_distinct(props.drop_last());
        let d = value_entries(props.drop_last());
        let v = props.last().1;
        if !entry_keys(d).contains(value_key(v)) {
            assert(entry_keys(d.push(v)) == entry_keys(d).push(value_key(v)));
        }
    }
}

/// Properties that follow never shrink the dictionaries.
proof fn lemma_dictionaries_grow(a: Seq<PropertyView>, b: Seq<PropertyView>)
    ensures
        key_dictionary(a).len() <= key_dictionary(a + b).len(),
        value_entries(a).len() <= value_entries(a + b).len(),
    decreases b.len(),
{
    if b.len() == 0 {
        assert(a + b == a);
    } else {
        assert((a + b).drop_last() == a + b.drop_last());
        lemma_dictionaries_grow(a, b.drop_last());
    }
}

/// The properties of the first `i` features open the list of all properties.
proof fn lemma_all_properties_split(fs: Seq<TileFeatureView>, i: int) -> (rest: Seq<PropertyView>)
    requires
        0 <= i <= fs.len(),
    ensures
        all_properties(fs) == all_properties(fs.take(i)) + rest,
    decreases fs.len() - i,
{
    if i == fs.len() {
        assert(fs.take(i) == fs);
        let rest = Seq::<PropertyView>::empty();
        assert(all_properties(fs) == all_properties(fs.take(i)) + rest);
        rest
    } else {
        let tail = lemma_all_properties_split(fs, i + 1);
        assert(fs.take(i + 1).drop_last() == fs.take(i));
        let rest = fs[i].properties + tail;
        assert(all_properties(fs) == all_properties(fs.take(i)) + rest);
        rest
    }
}

/// Whether the `j`-th pair of `tags` points at the key and the value key of
/// the `j`-th property.
pub open spec fn tag_pair_ok(
    tags: Seq<u32>,
    props: Seq<PropertyView>,
    keys: Seq<Seq<char>>,
    vkeys: Seq<ValueKeyView>,
    j: int,
) -> bool {
    &&& tags[2 * j] < keys.len()
    &&& keys[tags[2 * j] as int] == props[j].0
    &&& tags[2 * j + 1] < vkeys.len()
    &&& vkeys[tags[2 * j + 1] as int] == value_key(props[j].1)
}

/// Whether `tags` holds one well-aimed pair for each property.
pub open spec fn tags_ok(
    tags: Seq<u32>,
    props: Seq<PropertyView>,
    keys: Seq<Seq<char>>,
    vkeys: Seq<ValueKeyView>,
) -> bool {
    &&& tags.len() == 2 * props.len()
    &&& forall|j: int| 0 <= j < props.len() ==> #[trigger] tag_pair_ok(tags, props, keys, vkeys, j)
}

/// Tags stay well aimed when the dictionaries grow at the end.
proof fn lemma_tags_ok_grow(
    tags: Seq<u32>,
    props: Seq<PropertyView>,
    keys: Seq<Seq<char>>,
    vkeys: Seq<ValueKeyView>,
    keys2: Seq<Seq<char>>,
    vkeys2: Seq<ValueKeyView>,
)
    requires
        tags_ok(tags, props, keys, vkeys),
        keys.is_prefix_of(keys2),
        vkeys.is_prefix_of(vkeys2),
    ensures
        tags_ok(tags, props, keys2, vkeys2),
{
    assert forall|j: int| 0 <= j < props.len() implies #[trigger] tag_pair_ok(
        tags,
        props,
        keys2,
        vkeys2,
        j,
    ) by {
        assert(tag_pair_ok(tags, props, keys, vkeys, j));
    }
}

/// In dictionaries without repeats, well-aimed tags are the tags of the
/// feature.
proof fn lemma_tags_ok_exact(
    tags: Seq<u32>,
    props: Seq<PropertyView>,
    keys: Seq<Seq<char>>,
    vkeys: Seq<ValueKeyView>,
)
    requires
        tags_ok(tags, props, keys, vkeys),
        keys.no_duplicates(),
        vkeys.no_duplicates(),
    ensures
        tags == tags_of(props, keys, vkeys),
{
    let want = tags_of(props, keys, vkeys);
    assert forall|t: int| 0 <= t < tags.len() implies tags[t] == want[t] by {
        let j = t / 2;
        assert(tag_pair_ok(tags, props, keys, vkeys, j));
        if t % 2 == 0 {
            assert(t == 2 * j);
            let k = props[j].0;
            assert(keys[tags[t] as int] == k);
            assert(keys.index_of(k) == tags[t] as int);
        } else {
            assert(t == 2 * j + 1);
            let k = value_key(props[j].1);
            assert(vkeys[tags[t] as int] == k);
            assert(vkeys.index_of(k) == tags[t] as int);
        }
    }
    assert(tags =~= want);
}

/// The place of `key` among `keys`, if it is there.
fn find_key(keys: &Vec<String>, key: &String) -> (r: Option<usize>)
    ensures
        match r {
            Some(i) => i < keys.len() && keys[i as int]@ == key@,
            None => !strings_view(keys@).contains(key@),
        },
{
    let mut i: usize = 0;
    while i < keys.len()
        invariant
            i <= keys.len(),
            forall|j: int| 0 <= j < i ==> (#[trigger] keys[j])@ != key@,
        decreases keys.len() - i,
    {
        if keys[i] == *key {
            return Some(i);
        }
        i += 1;
    }
    assert forall|j: int| 0 <= j < strings_view(keys@).len() implies strings_view(keys@)[j]
        != key@ by {
        assert(strings_view(keys@)[j] == keys[j]@);
    }
    None
}

/// The views of a list of value keys.
pub open spec fn value_keys_view(keys: Seq<ValueKey>) -> Seq<ValueKeyView> {
    keys.map_values(|k: ValueKey| k@)
}

/// The place of `key` among `keys`, if it is there.
fn find_value_key(keys: &Vec<ValueKey>, key: &ValueKey) -> (r: Option<usize>)
    ensures
        match r {
            Some(i) => i < keys.len() && keys[i as int]@ == key@,
            None => !value_keys_view(keys@).contains(key@),
        },
{
    let mut i: usize = 0;
    while i < keys.len()
        invariant
            i <= keys.len(),
            forall|j: int| 0 <= j < i ==> (#[trigger] keys[j])@ != key@,
        decreases keys.len() - i,
    {
        if keys[i].same(key) {
            return Some(i);
        }
        i += 1;
    }
    assert forall|j: int| 0 <= j < value_keys_view(keys@).len() implies value_keys_view(
        keys@,
    )[j] != key@ by {
        assert(value_keys_view(keys@)[j] == keys[j]@);
    }
    None
}

/// Whether the three lists hold the dictionaries of `props`: the keys, the
/// value keys, and the stored value of each value key.
pub open spec fn dictionaries_hold(
    keys: Seq<String>,
    value_keys: Seq<ValueKey>,
    values: Seq<Value>,
    props: Seq<PropertyView>,
) -> bool {
    &&& strings_view(keys) == key_dictionary(props)
    &&& value_keys_view(value_keys) == entry_keys(value_entries(props))
    &&& values_view(values) == value_entries(props).map_values(
        |v: PropertyValueView| mvt_value(v),
    )
    &&& keys.len() <= 0x1_0000_0000
    &&& value_keys.len() <= 0x1_0000_0000
}

/// Looks `key` up among `keys` and adds it at the end if it is new. Gives its
/// index, or `None` when the index of a new key would not fit 32 bits.
fn intern_key(keys: &mut Vec<String>, key: &String) -> (r: Option<u32>)
    requires
        old(keys).len() <= 0x1_0000_0000,
    ensures
        final(keys).len() <= 0x1_0000_0000,
        match r {
            Some(t) => {
                &&& strings_view(final(keys)@) == if strings_view(old(keys)@).contains(key@) {
                    strings_view(old(keys)@)
                } else {
                    strings_view(old(keys)@).push(key@)
                }
                &&& t < final(keys).len()
                &&& strings_view(final(keys)@)[t as int] == key@
            },
            None => {
                &&& !strings_view(old(keys)@).contains(key@)
                &&& old(keys).len() == 0x1_0000_0000
                &&& final(keys)@ == old(keys)@
            },
        },
{
    match find_key(keys, key) {
        Some(i) => {
            assert(strings_view(keys@)[i as int] == key@);
            Some(i as u32)
        },
        None => {
            if keys.len() > u32::MAX as usize {
                return None;
            }
            let t: usize = keys.len();
            keys.push(key.clone());
            assert(strings_view(keys@) == strings_view(old(keys)@).push(key@));
            Some(t as u32)
        },
    }
}

/// Looks the key of `value` up among `value_keys`; if it is new, adds it and
/// the value to store. Gives the index, or `None` when the index of a new
/// value would not fit 32 bits.
fn intern_value(
    value_keys: &mut Vec<ValueKey>,
    values: &mut Vec<Value>,
    value: &PropertyValue,
) -> (r: Option<u32>)
    requires
        old(value_keys).len() <= 0x1_0000_0000,
        old(value_keys).len() == old(values).len(),
    ensures
        final(value_keys).len() <= 0x1_0000_0000,
        final(value_keys).len() == final(values).len(),
        match r {
            Some(t) => {
                &&& if value_keys_view(old(value_keys)@).contains(value_key(value@)) {
                    &&& final(value_keys)@ == old(value_keys)@
                    &&& final(values)@ == old(values)@
                } else {
                    &&& value_keys_view(final(value_keys)@) == value_keys_view(
                        old(value_keys)@,
                    ).push(value_key(value@))
                    &&& values_view(final(values)@) == values_view(old(values)@).push(
                        mvt_value(value@),
                    )
                }
                &&& t < final(value_keys).len()
                &&& value_keys_view(final(value_keys)@)[t as int] == value_key(value@)
            },
            None => {
                &&& !value_keys_view(old(value_keys)@).contains(value_key(value@))
                &&& old(value_keys).len() == 0x1_0000_0000
                &&& final(value_keys)@ == old(value_keys)@
                &&& final(values)@ == old(values)@
            },
        },
{
    let key = ValueKey::from_json(value);
    match find_value_key(value_keys, &key) {
        Some(i) => {
            assert(value_keys_view(value_keys@)[i as int] == key@);
            Some(i as u32)
        },
        None => {
            if value_keys.len() > u32::MAX as usize {
                return None;
            }
            let t: usize = value_keys.len();
            value_keys.push(key);
            values.push(json_to_mvt_value(value));
            assert(value_keys_view(value_keys@) == value_keys_view(old(value_keys)@).push(
                value_key(value@),
            ));
            assert(values_view(values@) == values_view(old(values)@).push(mvt_value(value@)));
            Some(t as u32)
        },
    }
}

/// Enters the properties of one feature into the dictionaries and gives the
/// feature's tags, or `None` when a dictionary index would not fit 32 bits.
fn intern_properties(
    keys: &mut Vec<String>,
    value_keys: &mut Vec<ValueKey>,
    values: &mut Vec<Value>,
    properties: &Vec<(String, PropertyValue)>,
    Ghost(before): Ghost<Seq<PropertyView>>,
) -> (r: Option<Vec<u32>>)
    requires
        dictionaries_hold(old(keys)@, old(value_keys)@, old(values)@, before),
    ensures
        match r {
            Some(tags) => {
                let props = crate::properties::properties_view(properties@);
                &&& dictionaries_hold(
                    final(keys)@,
                    final(value_keys)@,
                    final(values)@,
                    before + props,
                )
                &&& tags_ok(
                    tags@,
                    props,
                    strings_view(final(keys)@),
                    value_keys_view(final(value_keys)@),
                )
                &&& strings_view(old(keys)@).is_prefix_of(strings_view(final(keys)@))
                &&& value_keys_view(old(value_keys)@).is_prefix_of(
                    value_keys_view(final(value_keys)@),
                )
            },
            None => {
                let all = before + crate::properties::properties_view(properties@);
                key_dictionary(all).len() > 0x1_0000_0000 || value_entries(all).len()
                    > 0x1_0000_0000
            },
        },
{
    let ghost props = crate::properties::properties_view(properties@);
    let mut tags: Vec<u32> = Vec::new();
    let mut j: usize = 0;
    assert(before + props.take(0) == before);
    while j < properties.len()
        invariant
            j <= properties.len(),
            props == crate::properties::properties_view(properties@),
            dictionaries_hold(keys@, value_keys@, values@, before + props.take(j as int)),
            tags_ok(
                tags@,
                props.take(j as int),
                strings_view(keys@),
                value_keys_view(value_keys@),
            ),
            strings_view(old(keys)@).is_prefix_of(strings_view(keys@)),
            value_keys_view(old(value_keys)@).is_prefix_of(value_keys_view(value_keys@)),
        decreases properties.len() - j,
    {
        let prop = &properties[j];
        let ghost seen = before + props.take(j as int);
        let ghost next = before + props.take(j + 1);
        let ghost keys0 = strings_view(keys@);
        let ghost vkeys0 = value_keys_view(value_keys@);
        let ghost tags0 = tags@;
        proof {
            assert(props[j as int] == (prop.0@, prop.1@));
            assert(next.drop_last() == seen);
            assert(next.last() == props[j as int]);
            assert(props.take(j + 1) == props.take(j as int).push(props[j as int]));
            assert(props == props.take(j + 1) + props.skip(j + 1));
            assert(before + props == next + props.skip(j + 1));
            lemma_dictionaries_grow(next, props.skip(j + 1));
            assert(value_keys@.len() == value_keys_view(value_keys@).len());
            assert(values@.len() == values_view(values@).len());
        }
        let key_index = match intern_key(keys, &prop.0) {
            Some(t) => t,
            None => {
                return None;
            },
        };
        let value_index = match intern_value(value_keys, values, &prop.1) {
            Some(t) => t,
            None => {
                return None;
            },
        };
        tags.push(key_index);
        tags.push(value_index);
        proof {
            let keys1 = strings_view(keys@);
            let vkeys1 = value_keys_view(value_keys@);
            assert(keys0.is_prefix_of(keys1));
            assert(vkeys0.is_prefix_of(vkeys1));
            if !vkeys0.contains(value_key(prop.1@)) {
                assert(entry_keys(value_entries(seen).push(prop.1@)) == entry_keys(
                    value_entries(seen),
                ).push(value_key(prop.1@)));
                assert(value_entries(seen).push(prop.1@).map_values(
                    |v: PropertyValueView| mvt_value(v),
                ) == value_entries(seen).map_values(|v: PropertyValueView| mvt_value(v)).push(
                    mvt_value(prop.1@),
                ));
            }
            lemma_tags_ok_grow(tags0, props.take(j as int), keys0, vkeys0, keys1, vkeys1);
            assert forall|k: int| 0 <= k < j + 1 implies #[trigger] tag_pair_ok(
                tags@,
                props.take(j + 1),
                keys1,
                vkeys1,
                k,
            ) by {
                if k < j {
                    assert(tag_pair_ok(tags0, props.take(j as int), keys1, vkeys1, k));
                }
            }
        }
        j += 1;
    }
    assert(props.take(j as int) == props);
    Some(tags)
}

/// Whether `e` stands for the feature `f` numbered `id`, its tags aimed into
/// `keys` and `vkeys`.
pub open spec fn feature_holds(
    e: FeatureView,
    f: TileFeatureView,
    id: int,
    keys: Seq<Seq<char>>,
    vkeys: Seq<ValueKeyView>,
) -> bool {
    &&& e.id == id
    &&& e.geom_type == geometry_kind(f.geometry)
    &&& e.geometry == geometry_stream(f.geometry)
    &&& tags_ok(e.tags, f.properties, keys, vkeys)
}

/// Builds the layer of a tile: the features numbered from zero in the order
/// given, with the key and value dictionaries of their properties.
///
/// Fails with `EmptyTile` on no feature, with `InvalidGeometry` when a
/// geometry cannot be encoded, and with `EncodeFailed` when a dictionary
/// outgrows 32-bit indices.
pub fn build_layer(features: &[TileFeature], layer_name: &str) -> (r: Result<Layer, TileError>)
    ensures
        match r {
            Ok(layer) => layer_result(features_view(features@), layer_name@) == Ok::<
                LayerView,
                TileError,
            >(layer@),
            Err(e) => layer_result(features_view(features@), layer_name@) == Err::<
                LayerView,
                TileError,
            >(e),
        },
{
    let ghost fv = features_view(features@);
    if features.len() == 0 {
        return Err(TileError::EmptyTile);
    }
    let mut i: usize = 0;
    while i < features.len()
        invariant
            i <= features.len(),
            fv == features_view(features@),
            forall|j: int| 0 <= j < i ==> geometry_valid((#[trigger] fv[j]).geometry),
        decreases features.len() - i,
    {
        assert(fv[i as int] == features@[i as int]@);
        if !geometry_ok(&features[i].geometry) {
            return Err(TileError::InvalidGeometry);
        }
        i += 1;
    }
    assert(geometries_valid(fv));
    let mut keys: Vec<String> = Vec::new();
    let mut value_keys: Vec<ValueKey> = Vec::new();
    let mut values: Vec<Value> = Vec::new();
    let mut encoded: Vec<Feature> = Vec::new();
    let mut i: usize = 0;
    proof {
        assert(fv.take(0) == Seq::<TileFeatureView>::empty());
        assert(strings_view(keys@) == Seq::<Seq<char>>::empty());
        assert(value_keys_view(value_keys@) == Seq::<ValueKeyView>::empty());
        assert(values_view(values@) == Seq::<ValueView>::empty());
        assert(entry_keys(Seq::<PropertyValueView>::empty()) == Seq::<ValueKeyView>::empty());
        assert(Seq::<PropertyValueView>::empty().map_values(
            |v: PropertyValueView| mvt_value(v),
        ) == Seq::<ValueView>::empty());
    }
    while i < features.len()
        invariant
            i <= features.len(),
            fv == features_view(features@),
            fv.len() > 0,
            geometries_valid(fv),
            dictionaries_hold(
                keys@,
                value_keys@,
                values@,
                all_properties(fv.take(i as int)),
            ),
            encoded.len() == i,
            forall|f: int|
                0 <= f < i ==> feature_holds(
                    (#[trigger] encoded[f])@,
                    fv[f],
                    f,
                    strings_view(keys@),
                    value_keys_view(value_keys@),
                ),
        decreases features.len() - i,
    {
        let feature = &features[i];
        let ghost before = all_properties(fv.take(i as int));
        let ghost keys0 = strings_view(keys@);
        let ghost vkeys0 = value_keys_view(value_keys@);
        proof {
            assert(fv[i as int] == feature@);
            assert(fv.take(i + 1).drop_last() == fv.take(i as int));
            assert(all_properties(fv.take(i + 1)) == before + fv[i as int].properties);
        }
        let tags = match intern_properties(
            &mut keys,
            &mut value_keys,
            &mut values,
            &feature.properties,
            Ghost(before),
        ) {
            Some(tags) => tags,
            None => {
                proof {
                    let rest = lemma_all_properties_split(fv, i + 1);
                    lemma_dictionaries_grow(all_properties(fv.take(i + 1)), rest);
                }
                return Err(TileError::EncodeFailed);
            },
        };
        let (geom_type, geometry) = match encode_geometry(&feature.geometry) {
            Ok(pair) => pair,
            Err(e) => {
                return Err(e);
            },
        };
        let ghost encoded0 = encoded@;
        encoded.push(Feature { id: i as u64, tags, geom_type, geometry });
        proof {
            let keys1 = strings_view(keys@);
            let vkeys1 = value_keys_view(value_keys@);
            assert forall|f: int| 0 <= f < i + 1 implies feature_holds(
                (#[trigger] encoded[f])@,
                fv[f],
                f,
                keys1,
                vkeys1,
            ) by {
                if f < i {
                    assert(encoded[f] == encoded0[f]);
                    lemma_tags_ok_grow(
                        encoded0[f]@.tags,
                        fv[f].properties,
                        keys0,
                        vkeys0,
                        keys1,
                        vkeys1,
                    );
                }
            }
        }
        i += 1;
    }
    let layer = Layer {
        version: 2,
        name: layer_name.to_owned(),
        features: encoded,
        keys,
        values,
        extent: EXTENT,
    };
    proof {
        assert(fv.take(i as int) == fv);
        let props = all_properties(fv);
        let want = layer_of(fv, layer_name@);
        lemma_key_dictionary_distinct(props);
        lemma_value_entries_distinct(props);
        assert forall|f: int| 0 <= f < fv.len() implies layer@.features[f] == want.features[f] by {
            assert(layer@.features[f] == layer.features[f]@);
            lemma_tags_ok_exact(
                layer.features[f]@.tags,
                fv[f].properties,
                want.keys,
                entry_keys(value_entries(props)),
            );
        }
        assert(layer@.features =~= want.features);
        assert(want.keys.len() == layer.keys@.len());
        assert(entry_keys(value_entries(props)).len() == value_entries(props).len());
        assert(value_keys_view(value_keys@).len() == value_keys@.len());
    }
    Ok(layer)
}

/// Encodes the features of one tile as a vector tile with the single layer
/// `layer_name`.
///
/// The result is the protocol-buffer message of the layer that `build_layer`
/// gives, or the error that it gives.
pub fn encode_tile(features: &[TileFeature], layer_name: &str) -> (r: Result<Vec<u8>, TileError>)
    ensures
        match r {
            Ok(bytes) => layer_result(features_view(features@), layer_name@) matches Ok(layer)
                && bytes@ == tile_bytes(layer),
            Err(e) => layer_result(features_view(features@), layer_name@) == Err::<
                LayerView,
                TileError,
            >(e),
        },
{
    match build_layer(features, layer_name) {
        Ok(layer) => {
            let body = layer.encode();
            let mut out: Vec<u8> = Vec::new();
            put_len_field(&mut out, 3, body.as_slice());
            assert(out@ == tile_bytes(layer@));
            Ok(out)
        },
        Err(e) => Err(e),
    }
}

} // verus!
