//! Rebuilding the features of a tile from its layer: geometry from the
//! command stream, properties from the tags through keys and values; and the
//! proof that the rebuilt features encode to the layer they came from.

use vstd::prelude::*;
use crate::mvt_encoder::{
    all_properties, command_integer_spec, dictionaries_fit, entry_keys, geometries_valid,
    geometry_kind, geometry_stream, geometry_valid, has_usable_ring, key_dictionary, layer_of,
    layer_result, lemma_key_dictionary_distinct, lemma_value_entries_distinct, line_params,
    layer_feature, mvt_value, path_stream, ring_stream, ring_usable, rings_stream, tags_of,
    value_entries, value_key, wrapping_delta, LINE_TO, MAX_COMMAND_COUNT,
};
use crate::path::lemma_decimal_text;
use crate::properties::{PropertyValueView, PropertyView};
use crate::text::decimal_text;
use crate::tile_reader::{lemma_tile_round_trip, read_tile};
use crate::tiler::{TileFeatureView, TileGeometryView, TilePoint};
use crate::vector_tile::{tile_bytes, FeatureView, GeomType, LayerView, ValueView};
use crate::wire::{zigzag, zigzag_decode};

verus! {

/// The signed number that a zig-zag parameter stands for.
pub open spec fn unzig(u: u32) -> i32 {
    zigzag_decode(u as int) as i32
}

/// The sum `a + d` as 32-bit arithmetic leaves it: wrapped into range.
pub open spec fn wrapping_sum(a: i32, d: i32) -> i32 {
    let s = a + d;
    if s > i32::MAX {
        (s - 0x1_0000_0000) as i32
    } else if s < i32::MIN {
        (s + 0x1_0000_0000) as i32
    } else {
        s as i32
    }
}

/// The point that lies at the offset `(dx, dy)`, given as parameters, from
/// `p`.
pub open spec fn step_point(p: TilePoint, dx: u32, dy: u32) -> TilePoint {
    (wrapping_sum(p.0, unzig(dx)), wrapping_sum(p.1, unzig(dy)))
}

/// The points of a path: `start`, then `m` points, each at the offset that
/// the next two parameters give from the point before.
pub open spec fn decode_points(start: TilePoint, params: Seq<u32>, m: int) -> Seq<TilePoint>
    decreases m,
{
    if m <= 0 {
        seq![start]
    } else {
        let before = decode_points(start, params, m - 1);
        before.push(step_point(before.last(), params[2 * (m - 1)], params[2 * (m - 1) + 1]))
    }
}

/// The points of an open path from its commands: a `MoveTo` with its point,
/// then a `LineTo` with its count and offsets.
pub open spec fn decode_path(s: Seq<u32>) -> Seq<TilePoint> {
    decode_points((unzig(s[1]), unzig(s[2])), s.skip(4), s[3] as int / 8)
}

/// The rings of a polygon from its commands: for each ring its path, closed
/// by its first point.
pub open spec fn decode_rings(s: Seq<u32>) -> Seq<Seq<TilePoint>>
    decreases s.len(),
{
    if s.len() < 5 {
        Seq::<Seq<TilePoint>>::empty()
    } else {
        let size = 5 + 2 * (s[3] as int / 8);
        if size > s.len() {
            Seq::<Seq<TilePoint>>::empty()
        } else {
            let path = decode_path(s.take(size - 1));
            seq![path.push(path[0])] + decode_rings(s.skip(size))
        }
    }
}

/// The geometry of the kind `kind` that a command stream draws.
pub open spec fn decode_geometry(kind: GeomType, s: Seq<u32>) -> TileGeometryView {
    match kind {
        GeomType::Linestring => TileGeometryView::LineString(decode_path(s)),
        GeomType::Polygon => TileGeometryView::Polygon(decode_rings(s)),
        _ => TileGeometryView::Point(unzig(s[1]), unzig(s[2])),
    }
}

/// A parameter stands for the number it was made from.
pub proof fn lemma_unzig(x: i32)
    ensures
        unzig(zigzag(x as int) as u32) == x,
{
}

/// An offset added to the point it was taken from gives the point it leads
/// to.
pub proof fn lemma_wrapping_sum(a: i32, b: i32)
    ensures
        wrapping_sum(b, wrapping_delta(a, b)) == a,
{
}

/// For an id below 8 and a count that fits, a command integer is the id
/// plus eight times the count.
pub proof fn lemma_command_integer(id: u32, count: u32)
    requires
        id < 8,
        count <= MAX_COMMAND_COUNT,
    ensures
        command_integer_spec(id, count) == id + 8 * count,
{
    assert(id < 8 && count <= 0x1fff_ffffu32 ==> ((id & 0x7) | (count << 3)) == id + 8 * count)
        by (bit_vector);
}

/// A path has two parameters for each point behind the first.
proof fn lemma_line_params_len(pts: Seq<TilePoint>, n: int)
    requires
        1 <= n,
    ensures
        line_params(pts, n).len() == 2 * (n - 1),
    decreases n,
{
    if n > 1 {
        lemma_line_params_len(pts, n - 1);
    }
}

/// The parameters of point `i` of a path are its offsets from the point
/// before.
proof fn lemma_line_params(pts: Seq<TilePoint>, n: int, i: int)
    requires
        1 <= i < n,
    ensures
        line_params(pts, n).len() == 2 * (n - 1),
        line_params(pts, n)[2 * (i - 1)] == zigzag(
            wrapping_delta(pts[i].0, pts[i - 1].0) as int,
        ) as u32,
        line_params(pts, n)[2 * (i - 1) + 1] == zigzag(
            wrapping_delta(pts[i].1, pts[i - 1].1) as int,
        ) as u32,
    decreases n,
{
    lemma_line_params_len(pts, n);
    lemma_line_params_len(pts, n - 1);
    let all = line_params(pts, n);
    let before = line_params(pts, n - 1);
    let tail = seq![
        zigzag(wrapping_delta(pts[n - 1].0, pts[n - 2].0) as int) as u32,
        zigzag(wrapping_delta(pts[n - 1].1, pts[n - 2].1) as int) as u32,
    ];
    assert(all == before + tail);
    if i < n - 1 {
        lemma_line_params(pts, n - 1, i);
        assert(all[2 * (i - 1)] == before[2 * (i - 1)]);
        assert(all[2 * (i - 1) + 1] == before[2 * (i - 1) + 1]);
    } else {
        assert(all[2 * (i - 1)] == tail[0]);
        assert(all[2 * (i - 1) + 1] == tail[1]);
    }
}

/// The parameters of a path give its points back.
proof fn lemma_decode_points(pts: Seq<TilePoint>, n: int, m: int)
    requires
        1 <= n <= pts.len(),
        0 <= m <= n - 1,
    ensures
        decode_points(pts[0], line_params(pts, n), m) == pts.take(m + 1),
    decreases m,
{
    let params = line_params(pts, n);
    if m <= 0 {
        assert(decode_points(pts[0], params, m) =~= pts.take(m + 1));
    } else {
        lemma_decode_points(pts, n, m - 1);
        lemma_line_params(pts, n, m);
        let before = decode_points(pts[0], params, m - 1);
        assert(before.last() == pts[m - 1]);
        assert(params[2 * (m - 1)] == zigzag(wrapping_delta(pts[m].0, pts[m - 1].0) as int) as u32);
        assert(params[2 * (m - 1) + 1] == zigzag(
            wrapping_delta(pts[m].1, pts[m - 1].1) as int,
        ) as u32);
        lemma_unzig(wrapping_delta(pts[m].0, pts[m - 1].0));
        lemma_unzig(wrapping_delta(pts[m].1, pts[m - 1].1));
        lemma_wrapping_sum(pts[m].0, pts[m - 1].0);
        lemma_wrapping_sum(pts[m].1, pts[m - 1].1);
        assert(step_point(before.last(), params[2 * (m - 1)], params[2 * (m - 1) + 1]) == pts[m]);
        assert(decode_points(pts[0], params, m) =~= pts.take(m + 1));
    }
}

/// The commands of an open path give its points back.
proof fn lemma_decode_path(pts: Seq<TilePoint>, n: int)
    requires
        2 <= n <= pts.len(),
        n - 1 <= MAX_COMMAND_COUNT,
    ensures
        path_stream(pts, n).len() == 4 + 2 * (n - 1),
        path_stream(pts, n)[3] as int / 8 == n - 1,
        decode_path(path_stream(pts, n)) == pts.take(n),
{
    let s = path_stream(pts, n);
    lemma_line_params_len(pts, n);
    lemma_command_integer(LINE_TO, (n - 1) as u32);
    lemma_unzig(pts[0].0);
    lemma_unzig(pts[0].1);
    assert(s.skip(4) =~= line_params(pts, n));
    lemma_decode_points(pts, n, n - 1);
}

/// Paths through the same first points have the same commands.
proof fn lemma_path_stream_take(a: Seq<TilePoint>, b: Seq<TilePoint>, n: int)
    requires
        1 <= n <= a.len(),
        n <= b.len(),
        a.take(n) == b.take(n),
    ensures
        line_params(a, n) == line_params(b, n),
        path_stream(a, n) == path_stream(b, n),
    decreases n,
{
    assert(a[0] == a.take(n)[0] && b[0] == b.take(n)[0]);
    if n > 1 {
        assert(a.take(n - 1) =~= a.take(n).take(n - 1));
        assert(b.take(n - 1) =~= b.take(n).take(n - 1));
        lemma_path_stream_take(a, b, n - 1);
        assert(a[n - 1] == a.take(n)[n - 1] && b[n - 1] == b.take(n)[n - 1]);
        assert(a[n - 2] == a.take(n)[n - 2] && b[n - 2] == b.take(n)[n - 2]);
    }
}

/// The commands of rings are those of the first ring, then the others'.
proof fn lemma_rings_stream_front(rings: Seq<Seq<TilePoint>>)
    requires
        rings.len() > 0,
    ensures
        rings_stream(rings) == ring_stream(rings[0]) + rings_stream(rings.drop_first()),
    decreases rings.len(),
{
    if rings.len() == 1 {
        assert(rings.drop_last() =~= Seq::<Seq<TilePoint>>::empty());
        assert(rings.drop_first() =~= Seq::<Seq<TilePoint>>::empty());
        assert(rings_stream(rings) =~= ring_stream(rings[0]) + rings_stream(rings.drop_first()));
    } else {
        lemma_rings_stream_front(rings.drop_last());
        assert(rings.drop_last().drop_first() =~= rings.drop_first().drop_last());
        assert(rings.drop_first().last() == rings.last());
        assert(rings.drop_last()[0] == rings[0]);
        assert(rings_stream(rings) =~= ring_stream(rings[0]) + rings_stream(rings.drop_first()));
    }
}

/// The rings read from the commands of rings have the same commands, and
/// one of them can be drawn if one of the rings can.
proof fn lemma_decode_rings(rings: Seq<Seq<TilePoint>>)
    ensures
        rings_stream(decode_rings(rings_stream(rings))) == rings_stream(rings),
        has_usable_ring(rings) ==> has_usable_ring(decode_rings(rings_stream(rings))),
    decreases rings.len(),
{
    let s = rings_stream(rings);
    let d = decode_rings(s);
    if rings.len() == 0 {
        assert(d =~= Seq::<Seq<TilePoint>>::empty());
    } else {
        let first = rings[0];
        let rest = rings.drop_first();
        lemma_rings_stream_front(rings);
        lemma_decode_rings(rest);
        if has_usable_ring(rings) && !ring_usable(first) {
            let i = choose|i: int| 0 <= i < rings.len() && ring_usable(#[trigger] rings[i]);
            assert(ring_usable(rest[i - 1]));
        }
        if ring_usable(first) {
            let k = first.len() - 1;
            let chunk = ring_stream(first);
            let tail = rings_stream(rest);
            lemma_decode_path(first, k);
            assert(s =~= chunk + tail);
            assert(chunk.len() == 5 + 2 * (k - 1));
            assert(s[3] == path_stream(first, k)[3]);
            assert(s.take(chunk.len() - 1) =~= path_stream(first, k));
            assert(s.skip(chunk.len() as int) =~= tail);
            let path = decode_path(s.take(chunk.len() - 1));
            let ring = path.push(path[0]);
            assert(path == first.take(k));
            assert(d =~= seq![ring] + decode_rings(tail));
            lemma_rings_stream_front(d);
            assert(d.drop_first() =~= decode_rings(tail));
            assert(ring.len() == first.len());
            assert(ring.take(k) =~= first.take(k));
            lemma_path_stream_take(ring, first, k);
            assert(ring_usable(d[0]));
        } else {
            assert(ring_stream(first) =~= Seq::<u32>::empty());
            assert(s =~= rings_stream(rest));
            if has_usable_ring(rest) {
                let i = choose|i: int|
                    0 <= i < decode_rings(rings_stream(rest)).len() && ring_usable(
                        #[trigger] decode_rings(rings_stream(rest))[i],
                    );
                assert(ring_usable(d[i]));
            }
        }
        if ring_usable(first) && !has_usable_ring(d) {
            assert(ring_usable(d[0]));
        }
    }
}

/// The geometry read from the commands of a valid geometry is valid and of
/// the same kind, and has the same commands.
pub proof fn lemma_decode_geometry(g: TileGeometryView)
    requires
        geometry_valid(g),
    ensures
        geometry_kind(decode_geometry(geometry_kind(g), geometry_stream(g))) == geometry_kind(g),
        geometry_valid(decode_geometry(geometry_kind(g), geometry_stream(g))),
        geometry_stream(decode_geometry(geometry_kind(g), geometry_stream(g))) == geometry_stream(
            g,
        ),
{
    match g {
        TileGeometryView::Point(x, y) => {
            lemma_unzig(x);
            lemma_unzig(y);
        },
        TileGeometryView::LineString(coords) => {
            lemma_decode_path(coords, coords.len() as int);
            assert(coords.take(coords.len() as int) =~= coords);
        },
        TileGeometryView::Polygon(rings) => {
            lemma_decode_rings(rings);
        },
    }
}

/// The text that stands for a double that is known by its bits alone.
pub open spec fn double_text(bits: u64) -> Seq<char> {
    decimal_text(bits as nat)
}

/// The property value that a stored value stands for.
pub open spec fn stored_value(v: ValueView) -> PropertyValueView {
    match v.string_value {
        Some(s) => PropertyValueView::String(s),
        None => match v.double_value {
            Some(bits) => PropertyValueView::Double { bits: bits, text: double_text(bits) },
            None => match v.int_value {
                Some(i) => PropertyValueView::Integer { value: i, text: Seq::<char>::empty() },
                None => match v.bool_value {
                    Some(b) => PropertyValueView::Boolean(b),
                    None => PropertyValueView::Null,
                },
            },
        },
    }
}

/// The properties that the tags of a feature name: for each pair of tags
/// the key and the value at those places.
pub open spec fn rebuild_properties(
    tags: Seq<u32>,
    keys: Seq<Seq<char>>,
    values: Seq<ValueView>,
) -> Seq<PropertyView> {
    Seq::new(
        tags.len() / 2,
        |j: int| (keys[tags[2 * j] as int], stored_value(values[tags[2 * j + 1] as int])),
    )
}

/// The tile feature that a feature of the layer `l` stands for.
pub open spec fn rebuild_feature(f: FeatureView, l: LayerView) -> TileFeatureView {
    TileFeatureView {
        geometry: decode_geometry(f.geom_type, f.geometry),
        properties: rebuild_properties(f.tags, l.keys, l.values),
    }
}

/// The tile features that the features of a layer stand for, in order.
pub open spec fn rebuild_features(l: LayerView) -> Seq<TileFeatureView> {
    Seq::new(l.features.len(), |i: int| rebuild_feature(l.features[i], l))
}

/// Whether doubles with the same bits have the same text.
pub open spec fn doubles_by_bits(props: Seq<PropertyView>) -> bool {
    forall|s: int, t: int|
        0 <= s < props.len() && 0 <= t < props.len() ==> same_bits_same_text(
            (#[trigger] props[s]).1,
            (#[trigger] props[t]).1,
        )
}

/// Whether `a` and `b`, if they are doubles with the same bits, have the
/// same text.
pub open spec fn same_bits_same_text(a: PropertyValueView, b: PropertyValueView) -> bool {
    match (a, b) {
        (
            PropertyValueView::Double { bits: x, text: s },
            PropertyValueView::Double { bits: y, text: t },
        ) => x == y ==> s == t,
        _ => true,
    }
}

/// A property value as it comes back from the layer: what its stored value
/// stands for.
pub open spec fn restored_value(v: PropertyValueView) -> PropertyValueView {
    stored_value(mvt_value(v))
}

/// A property as it comes back from a layer with the stored values
/// `entries`: its key, with what the stored value of its value key stands
/// for.
pub open spec fn restored(p: PropertyView, entries: Seq<PropertyValueView>) -> PropertyView {
    (p.0, restored_value(entries[entry_keys(entries).index_of(value_key(p.1))]))
}

/// Properties as they come back from a layer.
pub open spec fn restored_all(
    props: Seq<PropertyView>,
    entries: Seq<PropertyValueView>,
) -> Seq<PropertyView> {
    Seq::new(props.len(), |j: int| restored(props[j], entries))
}

/// Whether the value `v` occurs among the properties.
pub open spec fn value_occurs(props: Seq<PropertyView>, v: PropertyValueView) -> bool {
    exists|t: int| 0 <= t < props.len() && (#[trigger] props[t]).1 == v
}

/// A value that comes back is stored as the value it came from.
proof fn lemma_restored_value(v: PropertyValueView)
    ensures
        mvt_value(restored_value(v)) == mvt_value(v),
{
}

/// Two values that come back with one key had one key, if doubles with the
/// same bits have the same text.
proof fn lemma_restored_key(a: PropertyValueView, b: PropertyValueView)
    requires
        same_bits_same_text(a, b),
        value_key(restored_value(a)) == value_key(restored_value(b)),
    ensures
        value_key(a) == value_key(b),
{
    match (a, b) {
        (
            PropertyValueView::Double { bits: x, text: s },
            PropertyValueView::Double { bits: y, text: t },
        ) => {
            lemma_decimal_text(x as nat);
            lemma_decimal_text(y as nat);
        },
        _ => {},
    }
}

/// The dictionaries of properties open the dictionaries of the properties
/// with more behind them.
proof fn lemma_dictionaries_extend(a: Seq<PropertyView>, b: Seq<PropertyView>)
    ensures
        key_dictionary(a).is_prefix_of(key_dictionary(a + b)),
        value_entries(a).is_prefix_of(value_entries(a + b)),
    decreases b.len(),
{
    if b.len() == 0 {
        assert(a + b =~= a);
    } else {
        assert((a + b).drop_last() =~= a + b.drop_last());
        lemma_dictionaries_extend(a, b.drop_last());
    }
}

/// The key and the value key of every property are in the dictionaries, and
/// every stored value is the value of a property.
proof fn lemma_dictionaries_cover(props: Seq<PropertyView>)
    ensures
        forall|t: int|
            0 <= t < props.len() ==> key_dictionary(props).contains((#[trigger] props[t]).0),
        forall|t: int|
            0 <= t < props.len() ==> entry_keys(value_entries(props)).contains(
                value_key((#[trigger] props[t]).1),
            ),
        forall|k: int|
            0 <= k < value_entries(props).len() ==> value_occurs(
                props,
                #[trigger] value_entries(props)[k],
            ),
    decreases props.len(),
{
    if props.len() > 0 {
        let front = props.drop_last();
        let last = props.last();
        lemma_dictionaries_cover(front);
        let k0 = key_dictionary(front);
        let e0 = value_entries(front);
        let keys = key_dictionary(props);
        let entries = value_entries(props);
        assert(entry_keys(e0.push(last.1)) =~= entry_keys(e0).push(value_key(last.1)));
        assert forall|t: int| 0 <= t < props.len() implies keys.contains(
            (#[trigger] props[t]).0,
        ) by {
            if t < front.len() {
                assert(front[t] == props[t]);
                assert(k0.contains(front[t].0));
                let i = choose|i: int| 0 <= i < k0.len() && k0[i] == front[t].0;
                assert(keys[i] == props[t].0);
            } else if k0.contains(last.0) {
            } else {
                assert(keys[k0.len() as int] == last.0);
            }
        }
        assert forall|t: int| 0 <= t < props.len() implies entry_keys(entries).contains(
            value_key((#[trigger] props[t]).1),
        ) by {
            if t < front.len() {
                assert(front[t] == props[t]);
                assert(entry_keys(e0).contains(value_key(front[t].1)));
                let i = choose|i: int|
                    0 <= i < entry_keys(e0).len() && entry_keys(e0)[i] == value_key(front[t].1);
                assert(entry_keys(entries)[i] == value_key(props[t].1));
            } else if entry_keys(e0).contains(value_key(last.1)) {
            } else {
                assert(entry_keys(entries)[e0.len() as int] == value_key(last.1));
            }
        }
        assert forall|k: int| 0 <= k < entries.len() implies value_occurs(
            props,
            #[trigger] entries[k],
        ) by {
            if k < e0.len() {
                assert(entries[k] == e0[k]);
                assert(value_occurs(front, e0[k]));
                let t = choose|t: int| 0 <= t < front.len() && (#[trigger] front[t]).1 == e0[k];
                assert(props[t].1 == entries[k]);
            } else {
                assert(props[props.len() - 1].1 == entries[k]);
            }
        }
    }
}

/// Properties with the same keys have the same key dictionary.
proof fn lemma_same_keys(a: Seq<PropertyView>, b: Seq<PropertyView>)
    requires
        a.len() == b.len(),
        forall|t: int| 0 <= t < a.len() ==> (#[trigger] a[t]).0 == b[t].0,
    ensures
        key_dictionary(a) == key_dictionary(b),
    decreases a.len(),
{
    if a.len() > 0 {
        assert forall|t: int| 0 <= t < a.drop_last().len() implies (#[trigger] a.drop_last()[t]).0
            == b.drop_last()[t].0 by {
            assert(a[t].0 == b[t].0);
        }
        lemma_same_keys(a.drop_last(), b.drop_last());
        assert(a[a.len() - 1].0 == b[a.len() - 1].0);
    }
}

/// The place of a value key among the stored values of all properties is
/// the place it has among the stored values of the first properties.
proof fn lemma_entry_place(props: Seq<PropertyView>, n: int, k: int, key: crate::mvt_encoder::ValueKeyView)
    requires
        0 <= n <= props.len(),
        0 <= k < value_entries(props.take(n)).len(),
        value_key(value_entries(props.take(n))[k]) == key,
    ensures
        k < value_entries(props).len(),
        value_entries(props)[k] == value_entries(props.take(n))[k],
        entry_keys(value_entries(props)).index_of(key) == k,
{
    let entries = value_entries(props);
    assert(props =~= props.take(n) + props.skip(n));
    lemma_dictionaries_extend(props.take(n), props.skip(n));
    lemma_value_entries_distinct(props);
    assert(entry_keys(entries)[k] == key);
    let i = entry_keys(entries).index_of(key);
    assert(0 <= i < entry_keys(entries).len() && entry_keys(entries)[i] == key);
}

/// The values that the properties coming back from a layer store are the
/// stored values of the layer as they come back, place by place.
proof fn lemma_restored_entries(props: Seq<PropertyView>, n: int)
    requires
        0 <= n <= props.len(),
        doubles_by_bits(props),
    ensures
        value_entries(restored_all(props, value_entries(props)).take(n)).len() == value_entries(
            props.take(n),
        ).len(),
        forall|k: int|
            0 <= k < value_entries(props.take(n)).len() ==> #[trigger] value_entries(
                restored_all(props, value_entries(props)).take(n),
            )[k] == restored_value(value_entries(props.take(n))[k]),
    decreases n,
{
    let entries = value_entries(props);
    let back = restored_all(props, entries);
    if n > 0 {
        lemma_restored_entries(props, n - 1);
        lemma_dictionaries_cover(props);
        lemma_value_entries_distinct(props);
        let e0 = value_entries(props.take(n - 1));
        let r0 = value_entries(back.take(n - 1));
        let en = value_entries(props.take(n));
        let rn = value_entries(back.take(n));
        let v = props[n - 1].1;
        let key = value_key(v);
        let place = entry_keys(entries).index_of(key);
        assert(entry_keys(entries).contains(key));
        assert(0 <= place < entries.len() && entry_keys(entries)[place] == key);
        let w = restored_value(entries[place]);
        assert(back[n - 1] == restored(props[n - 1], entries));
        assert(back[n - 1].1 == w);
        assert(props.take(n).drop_last() =~= props.take(n - 1));
        assert(back.take(n).drop_last() =~= back.take(n - 1));
        assert(props.take(n).last() == props[n - 1]);
        assert(back.take(n).last() == back[n - 1]);
        assert(entry_keys(r0).len() == r0.len() && entry_keys(e0).len() == e0.len());
        if entry_keys(e0).contains(key) {
            let k = choose|k: int| 0 <= k < entry_keys(e0).len() && entry_keys(e0)[k] == key;
            lemma_entry_place(props, n - 1, k, key);
            assert(place == k);
            assert(r0[k] == restored_value(e0[k]));
            assert(entry_keys(r0)[k] == value_key(w));
            assert(entry_keys(r0).contains(value_key(w)));
            assert(rn == r0);
            assert(en == e0);
        } else {
            if entry_keys(r0).contains(value_key(w)) {
                let k = choose|k: int|
                    0 <= k < entry_keys(r0).len() && entry_keys(r0)[k] == value_key(w);
                assert(r0[k] == restored_value(e0[k]));
                lemma_entry_place(props, n - 1, k, value_key(e0[k]));
                assert(entries[k] == e0[k]);
                assert(value_occurs(props, entries[k]));
                assert(value_occurs(props, entries[place]));
                let s = choose|s: int| 0 <= s < props.len() && (#[trigger] props[s]).1 == entries[k];
                let t = choose|t: int|
                    0 <= t < props.len() && (#[trigger] props[t]).1 == entries[place];
                assert(same_bits_same_text(props[s].1, props[t].1));
                lemma_restored_key(entries[k], entries[place]);
                assert(entry_keys(e0)[k] == key);
                assert(false);
            }
            assert(en == e0.push(v));
            assert(rn == r0.push(w));
            lemma_entry_place(props, n, e0.len() as int, key);
            assert(place == e0.len());
            assert(entries[place] == v);
            assert forall|k: int| 0 <= k < en.len() implies #[trigger] rn[k] == restored_value(
                en[k],
            ) by {
                if k < e0.len() {
                    assert(rn[k] == r0[k]);
                    assert(en[k] == e0[k]);
                }
            }
        }
    } else {
        assert(props.take(0) =~= Seq::<PropertyView>::empty());
        assert(back.take(0) =~= Seq::<PropertyView>::empty());
    }
}

/// Every property of a feature is one of the properties of all features.
proof fn lemma_property_occurs(fs: Seq<TileFeatureView>, i: int, j: int) -> (t: int)
    requires
        0 <= i < fs.len(),
        0 <= j < fs[i].properties.len(),
    ensures
        0 <= t < all_properties(fs).len(),
        all_properties(fs)[t] == fs[i].properties[j],
    decreases fs.len(),
{
    let front = fs.drop_last();
    if i == fs.len() - 1 {
        all_properties(front).len() + j
    } else {
        assert(front[i] == fs[i]);
        lemma_property_occurs(front, i, j)
    }
}

/// Features whose properties come back from a layer have, all together, the
/// properties of all features as they come back.
proof fn lemma_restored_flat(
    fs: Seq<TileFeatureView>,
    gs: Seq<TileFeatureView>,
    entries: Seq<PropertyValueView>,
)
    requires
        gs.len() == fs.len(),
        forall|i: int|
            0 <= i < fs.len() ==> (#[trigger] gs[i]).properties == restored_all(
                fs[i].properties,
                entries,
            ),
    ensures
        all_properties(gs) == restored_all(all_properties(fs), entries),
    decreases fs.len(),
{
    if fs.len() == 0 {
        assert(all_properties(gs) =~= restored_all(all_properties(fs), entries));
    } else {
        let f0 = fs.drop_last();
        let g0 = gs.drop_last();
        assert forall|i: int| 0 <= i < f0.len() implies (#[trigger] g0[i]).properties
            == restored_all(f0[i].properties, entries) by {
            assert(g0[i] == gs[i]);
            assert(f0[i] == fs[i]);
        }
        lemma_restored_flat(f0, g0, entries);
        assert(gs.last() == gs[gs.len() - 1]);
        assert(gs.last().properties == restored_all(fs.last().properties, entries));
        assert(all_properties(gs) =~= restored_all(all_properties(fs), entries));
    }
}

/// The place of a key in a dictionary without repeats is the place where
/// the key stands.
proof fn lemma_index_of<T>(d: Seq<T>, k: T, i: int)
    requires
        d.no_duplicates(),
        0 <= i < d.len(),
        d[i] == k,
    ensures
        d.index_of(k) == i,
{
    let j = d.index_of(k);
    assert(0 <= j < d.len() && d[j] == k);
}

/// The properties rebuilt for a feature of the layer of `fs` are the
/// properties of that feature as they come back from the layer.
proof fn lemma_rebuilt_properties(fs: Seq<TileFeatureView>, name: Seq<char>, i: int)
    requires
        0 <= i < fs.len(),
        dictionaries_fit(fs),
    ensures
        rebuild_features(layer_of(fs, name))[i].properties == restored_all(
            fs[i].properties,
            value_entries(all_properties(fs)),
        ),
{
    let props = all_properties(fs);
    let keys = key_dictionary(props);
    let entries = value_entries(props);
    let vkeys = entry_keys(entries);
    let l = layer_of(fs, name);
    let p = fs[i].properties;
    let tags = tags_of(p, keys, vkeys);
    let got = rebuild_properties(tags, l.keys, l.values);
    let want = restored_all(p, entries);
    lemma_dictionaries_cover(props);
    assert(l.features[i] == layer_feature(fs[i], i, keys, vkeys));
    assert(rebuild_features(l)[i] == rebuild_feature(l.features[i], l));
    assert(got.len() == want.len());
    assert forall|j: int| 0 <= j < want.len() implies got[j] == want[j] by {
        let t = lemma_property_occurs(fs, i, j);
        assert(props[t] == p[j]);
        assert(keys.contains(props[t].0));
        assert(vkeys.contains(value_key(props[t].1)));
        let a = keys.index_of(p[j].0);
        let b = vkeys.index_of(value_key(p[j].1));
        assert(0 <= a < keys.len() && keys[a] == p[j].0);
        assert(0 <= b < vkeys.len() && vkeys[b] == value_key(p[j].1));
        assert((2 * j) % 2 == 0 && (2 * j) / 2 == j);
        assert((2 * j + 1) % 2 == 1 && (2 * j + 1) / 2 == j);
        assert(tags[2 * j] == a as u32);
        assert(tags[2 * j + 1] == b as u32);
        assert(l.values[b] == mvt_value(entries[b]));
    }
    assert(got =~= want);
}

/// Rebuilding the features of a tile from its layer and encoding them again
/// gives the same layer, and so the same bytes, if doubles with the same
/// bits have the same text.
pub proof fn lemma_rebuild_round_trip(fs: Seq<TileFeatureView>, name: Seq<char>)
    requires
        layer_result(fs, name) is Ok,
        doubles_by_bits(all_properties(fs)),
    ensures
        layer_result(rebuild_features(layer_result(fs, name)->Ok_0), name) == layer_result(
            fs,
            name,
        ),
{
    let props = all_properties(fs);
    let keys = key_dictionary(props);
    let entries = value_entries(props);
    let vkeys = entry_keys(entries);
    let l = layer_of(fs, name);
    let gs = rebuild_features(l);
    assert(layer_result(fs, name) == Ok::<LayerView, crate::TileError>(l));
    assert(gs.len() == fs.len());
    assert forall|i: int| 0 <= i < fs.len() implies (#[trigger] gs[i]).properties == restored_all(
        fs[i].properties,
        entries,
    ) by {
        lemma_rebuilt_properties(fs, name, i);
    }
    lemma_restored_flat(fs, gs, entries);
    let back = restored_all(props, entries);
    assert(all_properties(gs) == back);
    lemma_same_keys(back, props);
    lemma_restored_entries(props, props.len() as int);
    assert(props.take(props.len() as int) =~= props);
    assert(back.take(props.len() as int) =~= back);
    let entries2 = value_entries(back);
    let vkeys2 = entry_keys(entries2);
    assert(entries2.len() == entries.len());
    assert forall|k: int| 0 <= k < entries.len() implies #[trigger] entries2[k] == restored_value(
        entries[k],
    ) by {}
    lemma_value_entries_distinct(back);
    lemma_value_entries_distinct(props);
    lemma_dictionaries_cover(props);
    assert forall|i: int| 0 <= i < fs.len() implies geometry_valid((#[trigger] gs[i]).geometry)
        && geometry_kind(gs[i].geometry) == geometry_kind(fs[i].geometry) && geometry_stream(
        gs[i].geometry,
    ) == geometry_stream(fs[i].geometry) by {
        assert(geometry_valid(fs[i].geometry));
        lemma_decode_geometry(fs[i].geometry);
        assert(l.features[i] == layer_feature(fs[i], i, keys, vkeys));
        assert(gs[i] == rebuild_feature(l.features[i], l));
    }
    assert(geometries_valid(gs));
    assert(dictionaries_fit(gs));
    let l2 = layer_of(gs, name);
    assert(l2.keys == l.keys);
    assert(l2.values =~= l.values) by {
        assert forall|k: int| 0 <= k < entries.len() implies l2.values[k] == l.values[k] by {
            lemma_restored_value(entries[k]);
            assert(l2.values[k] == mvt_value(entries2[k]));
        }
    }
    assert forall|i: int| 0 <= i < fs.len() implies l2.features[i] == l.features[i] by {
        let p = fs[i].properties;
        let q = gs[i].properties;
        let t1 = tags_of(p, keys, vkeys);
        let t2 = tags_of(q, keys, vkeys2);
        assert(q == restored_all(p, entries));
        assert(t1.len() == t2.len());
        assert forall|t: int| 0 <= t < t1.len() implies t1[t] == t2[t] by {
            let j = t / 2;
            let at = lemma_property_occurs(fs, i, j);
            assert(props[at] == p[j]);
            assert(q[j] == restored(p[j], entries));
            if t % 2 == 1 {
                assert(vkeys.contains(value_key(props[at].1)));
                let b = vkeys.index_of(value_key(p[j].1));
                assert(0 <= b < vkeys.len() && vkeys[b] == value_key(p[j].1));
                assert(q[j].1 == restored_value(entries[b]));
                assert(vkeys2[b] == value_key(entries2[b]));
                lemma_index_of(vkeys2, value_key(q[j].1), b);
            }
        }
        assert(t1 =~= t2);
        assert(l2.features[i] == layer_feature(gs[i], i, keys, vkeys2));
        assert(l.features[i] == layer_feature(fs[i], i, keys, vkeys));
    }
    assert(l2.features =~= l.features);
    assert(l2 == l);
}

/// Reading the bytes of an encoded tile, rebuilding the features from the
/// layer read and encoding them under the layer's name gives the same bytes
/// again, if doubles with the same bits have the same text.
pub proof fn lemma_tile_rebuild_round_trip(fs: Seq<TileFeatureView>, name: Seq<char>)
    requires
        layer_result(fs, name) is Ok,
        doubles_by_bits(all_properties(fs)),
    ensures
        read_tile(tile_bytes(layer_result(fs, name)->Ok_0)) matches Some(t) && layer_result(
            rebuild_features(t),
            t.name,
        ) matches Ok(again) && tile_bytes(again) == tile_bytes(layer_result(fs, name)->Ok_0),
{
    lemma_tile_round_trip(layer_result(fs, name)->Ok_0);
    lemma_rebuild_round_trip(fs, name);
}

} // verus!
