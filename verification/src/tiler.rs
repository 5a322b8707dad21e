//! The tiler: which tiles of a zoom level a feature touches, and the feature
//! in the tile-local integer coordinates of each of them.

use vstd::prelude::*;
use vstd::arithmetic::power2::pow2;
use crate::feature::{
    feature_views, Feature, FeatureView, Geometry, GeometryView, UnitPoint, FRACTION_BITS,
};
use crate::hilbert::side;
use crate::properties::{properties_view, PropertyValue, PropertyView};
use crate::{TileCoord, TileError, MAX_ZOOM};

verus! {

/// A vertex in tile-local units; the tile spans `0..=4096` on both axes and a
/// vertex may lie outside it.
pub type TilePoint = (i32, i32);

/// Geometry of a feature inside one tile.
#[derive(Debug, Clone)]
pub enum TileGeometry {
    Point(i32, i32),
    LineString(Vec<TilePoint>),
    Polygon(Vec<Vec<TilePoint>>),
}

/// What a `TileGeometry` holds, as mathematical values.
pub enum TileGeometryView {
    Point(i32, i32),
    LineString(Seq<TilePoint>),
    Polygon(Seq<Seq<TilePoint>>),
}

impl View for TileGeometry {
    type V = TileGeometryView;

    open spec fn view(&self) -> TileGeometryView {
        match self {
            TileGeometry::Point(x, y) => TileGeometryView::Point(*x, *y),
            TileGeometry::LineString(coords) => TileGeometryView::LineString(coords@),
            TileGeometry::Polygon(rings) => TileGeometryView::Polygon(
                rings@.map_values(|r: Vec<TilePoint>| r@),
            ),
        }
    }
}

/// A feature as it is handed to the tile encoder.
#[derive(Debug, Clone)]
pub struct TileFeature {
    pub geometry: TileGeometry,
    pub properties: Vec<(String, PropertyValue)>,
}

/// What a `TileFeature` holds, as mathematical values.
pub struct TileFeatureView {
    pub geometry: TileGeometryView,
    pub properties: Seq<PropertyView>,
}

impl View for TileFeature {
    type V = TileFeatureView;

    open spec fn view(&self) -> TileFeatureView {
        TileFeatureView {
            geometry: self.geometry@,
            properties: properties_view(self.properties@),
        }
    }
}

/// The views of a feature list, in order.
pub open spec fn features_view(features: Seq<TileFeature>) -> Seq<TileFeatureView> {
    features.map_values(|f: TileFeature| f@)
}

/// Side length of a tile in tile-local units.
pub const TILE_EXTENT: i128 = 4096;

/// Width of a tile at `zoom` in units of the unit square.
pub open spec fn unit_scale(zoom: u8) -> int {
    pow2((FRACTION_BITS - zoom) as nat) as int
}

/// The column or row of the grid at `zoom` that holds the coordinate `v`;
/// a coordinate outside the square counts to the nearest edge.
pub open spec fn tile_index(v: i64, zoom: u8) -> int {
    let t = v as int / unit_scale(zoom);
    if t < 0 {
        0
    } else if t >= side(zoom as nat) {
        side(zoom as nat) - 1
    } else {
        t
    }
}

/// `num / den` rounded to the nearest integer, halves away from zero.
pub open spec fn round_half_away(num: int, den: int) -> int {
    if num >= 0 {
        (2 * num + den) / (2 * den)
    } else {
        -((-2 * num + den) / (2 * den))
    }
}

/// The coordinate `v` in the local units of column or row `t` at `zoom`:
/// its offset from the tile's edge in 4096ths of the tile's width, rounded,
/// and held to 32 bits.
pub open spec fn local_coord(v: i64, zoom: u8, t: int) -> i32 {
    let r = round_half_away((v - t * unit_scale(zoom)) * 4096, unit_scale(zoom));
    if r > i32::MAX {
        i32::MAX
    } else if r < i32::MIN {
        i32::MIN
    } else {
        r as i32
    }
}

/// A vertex in the local units of the tile `(tx, ty)`.
pub open spec fn local_point(p: UnitPoint, zoom: u8, tx: int, ty: int) -> TilePoint {
    (local_coord(p.0, zoom, tx), local_coord(p.1, zoom, ty))
}

/// The vertices of all rings, in order.
pub open spec fn ring_vertices(rings: Seq<Seq<UnitPoint>>) -> Seq<UnitPoint>
    decreases rings.len(),
{
    if rings.len() == 0 {
        Seq::<UnitPoint>::empty()
    } else {
        ring_vertices(rings.drop_last()) + rings.last()
    }
}

/// The vertices of a geometry, in order.
pub open spec fn vertices(g: GeometryView) -> Seq<UnitPoint> {
    match g {
        GeometryView::Point(x, y) => seq![(x, y)],
        GeometryView::LineString(coords) => coords,
        GeometryView::Polygon(rings) => ring_vertices(rings),
    }
}

/// The columns and rows that the vertices `vs` span at `zoom`: least and
/// greatest column, least and greatest row.
pub open spec fn tile_span(vs: Seq<UnitPoint>, zoom: u8) -> (int, int, int, int)
    decreases vs.len(),
{
    let tx = tile_index(vs.last().0, zoom);
    let ty = tile_index(vs.last().1, zoom);
    if vs.len() <= 1 {
        (tx, tx, ty, ty)
    } else {
        let s = tile_span(vs.drop_last(), zoom);
        (
            if tx < s.0 {
                tx
            } else {
                s.0
            },
            if tx > s.1 {
                tx
            } else {
                s.1
            },
            if ty < s.2 {
                ty
            } else {
                s.2
            },
            if ty > s.3 {
                ty
            } else {
                s.3
            },
        )
    }
}

/// The first `n` tiles of row `ty`, from column `xlo` eastwards.
pub open spec fn row_tiles(xlo: int, n: int, ty: int) -> Seq<(int, int)> {
    Seq::new(
        if n > 0 {
            n as nat
        } else {
            0
        },
        |k: int| (xlo + k, ty),
    )
}

/// The tiles of `h` rows of `w` columns, row by row from `(xlo, ylo)`.
pub open spec fn grid_tiles(xlo: int, w: int, ylo: int, h: int) -> Seq<(int, int)>
    decreases h,
{
    if h <= 0 {
        Seq::<(int, int)>::empty()
    } else {
        grid_tiles(xlo, w, ylo, h - 1) + row_tiles(xlo, w, ylo + h - 1)
    }
}

/// The tiles that a geometry touches at `zoom`: all tiles of the columns and
/// rows that its vertices span, row by row; none for a geometry without
/// vertices.
pub open spec fn touched_tiles(g: GeometryView, zoom: u8) -> Seq<(int, int)> {
    if vertices(g).len() == 0 {
        Seq::<(int, int)>::empty()
    } else {
        let s = tile_span(vertices(g), zoom);
        grid_tiles(s.0, s.1 - s.0 + 1, s.2, s.3 - s.2 + 1)
    }
}

/// A geometry in the local units of the tile `(tx, ty)`, whole and unclipped.
pub open spec fn local_geometry(g: GeometryView, zoom: u8, tx: int, ty: int) -> TileGeometryView {
    match g {
        GeometryView::Point(x, y) => TileGeometryView::Point(
            local_coord(x, zoom, tx),
            local_coord(y, zoom, ty),
        ),
        GeometryView::LineString(coords) => TileGeometryView::LineString(
            local_points(coords, zoom, tx, ty),
        ),
        GeometryView::Polygon(rings) => TileGeometryView::Polygon(
            Seq::new(rings.len(), |i: int| local_points(rings[i], zoom, tx, ty)),
        ),
    }
}

/// Vertices in the local units of the tile `(tx, ty)`.
pub open spec fn local_points(pts: Seq<UnitPoint>, zoom: u8, tx: int, ty: int) -> Seq<TilePoint> {
    Seq::new(pts.len(), |i: int| local_point(pts[i], zoom, tx, ty))
}

/// A feature as the tile `(tx, ty)` holds it: the geometry in local units,
/// the properties as they are.
pub open spec fn local_feature(f: FeatureView, zoom: u8, tx: int, ty: int) -> TileFeatureView {
    TileFeatureView {
        geometry: local_geometry(f.geometry, zoom, tx, ty),
        properties: f.properties,
    }
}

/// One tile with the features that touch it.
pub struct TileBucketView {
    pub coord: TileCoord,
    pub features: Seq<TileFeatureView>,
}

/// What a list of tiles holds, as mathematical values.
pub open spec fn buckets_view(tiles: Seq<(TileCoord, Vec<TileFeature>)>) -> Seq<TileBucketView> {
    tiles.map_values(
        |t: (TileCoord, Vec<TileFeature>)|
            TileBucketView { coord: t.0, features: features_view(t.1@) },
    )
}

/// The tiles `state` after `f` is added to the tile `coord`: at the end of
/// that tile's features, or as the first feature of a new last tile.
pub open spec fn place(
    state: Seq<TileBucketView>,
    coord: TileCoord,
    f: TileFeatureView,
) -> Seq<TileBucketView>
    decreases state.len(),
{
    if state.len() == 0 {
        seq![TileBucketView { coord: coord, features: seq![f] }]
    } else if state[0].coord == coord {
        seq![TileBucketView { coord: coord, features: state[0].features.push(f) }]
            + state.drop_first()
    } else {
        seq![state[0]] + place(state.drop_first(), coord, f)
    }
}

/// The tile address of column `t.0` and row `t.1` at `zoom`.
pub open spec fn coord_at(zoom: u8, t: (int, int)) -> TileCoord {
    TileCoord { z: zoom, x: t.0 as u32, y: t.1 as u32 }
}

/// The tiles `state` after the feature `f` is added to each tile of `at`.
pub open spec fn place_each(
    state: Seq<TileBucketView>,
    at: Seq<(int, int)>,
    f: FeatureView,
    zoom: u8,
) -> Seq<TileBucketView>
    decreases at.len(),
{
    if at.len() == 0 {
        state
    } else {
        place(
            place_each(state, at.drop_last(), f, zoom),
            coord_at(zoom, at.last()),
            local_feature(f, zoom, at.last().0, at.last().1),
        )
    }
}

/// The tiles of `fs` at `zoom`: each tile that a feature touches, in the
/// order in which the features first touch them, with the features that
/// touch it in feature order.
pub open spec fn tiled(fs: Seq<FeatureView>, zoom: u8) -> Seq<TileBucketView>
    decreases fs.len(),
{
    if fs.len() == 0 {
        Seq::<TileBucketView>::empty()
    } else {
        place_each(
            tiled(fs.drop_last(), zoom),
            touched_tiles(fs.last().geometry, zoom),
            fs.last(),
            zoom,
        )
    }
}

/// The width of a tile at `zoom` and the number of tiles in a row.
fn scales(zoom: u8) -> (r: (i64, i64))
    requires
        zoom <= MAX_ZOOM,
    ensures
        r.0 == unit_scale(zoom),
        r.1 == side(zoom as nat),
        0x40_0000 <= r.0 <= 0x10_0000_0000_0000,
        1 <= r.1 <= 0x4000_0000,
{
    let scale: u64 = 1u64 << ((FRACTION_BITS - zoom) as u64);
    let count: u64 = 1u64 << (zoom as u64);
    proof {
        vstd::arithmetic::power2::lemma2_to64();
        vstd::arithmetic::power2::lemma2_to64_rest();
        vstd::bits::lemma_u64_shl_is_mul(1, (FRACTION_BITS - zoom) as u64);
        vstd::bits::lemma_u64_shl_is_mul(1, zoom as u64);
        if zoom < 30 {
            vstd::arithmetic::power2::lemma_pow2_strictly_increases(zoom as nat, 30);
        }
        if zoom < 30 {
            vstd::arithmetic::power2::lemma_pow2_strictly_increases(
                22,
                (FRACTION_BITS - zoom) as nat,
            );
        }
        if zoom > 0 {
            vstd::arithmetic::power2::lemma_pow2_strictly_increases(
                (FRACTION_BITS - zoom) as nat,
                52,
            );
        }
        vstd::arithmetic::power2::lemma_pow2_pos(zoom as nat);
    }
    (scale as i64, count as i64)
}

/// Computes `tile_index`.
fn index_of(v: i64, zoom: u8) -> (t: u32)
    requires
        zoom <= MAX_ZOOM,
    ensures
        t == tile_index(v, zoom),
        t < side(zoom as nat),
{
    let (scale, count) = scales(zoom);
    if v <= 0 {
        proof {
            vstd::arithmetic::div_mod::lemma_div_is_ordered(v as int, 0, scale as int);
        }
        0
    } else {
        let t: i64 = v / scale;
        proof {
            vstd::arithmetic::div_mod::lemma_div_pos_is_pos(v as int, scale as int);
        }
        if t >= count {
            (count - 1) as u32
        } else {
            t as u32
        }
    }
}

/// Computes `local_coord`.
fn local_of(v: i64, zoom: u8, t: u32) -> (r: i32)
    requires
        zoom <= MAX_ZOOM,
    ensures
        r == local_coord(v, zoom, t as int),
{
    let (scale, count) = scales(zoom);
    let den: i128 = scale as i128;
    assert(t as i128 * den <= 0xffff_ffff * 0x10_0000_0000_0000 && t as i128 * den >= 0)
        by (nonlinear_arith)
        requires
            0 <= t <= 0xffff_ffff,
            0 <= den <= 0x10_0000_0000_0000,
    ;
    let offset: i128 = v as i128 - (t as i128) * den;
    let num: i128 = offset * TILE_EXTENT;
    let r: i128 = if num >= 0 {
        (2 * num + den) / (2 * den)
    } else {
        -((-2 * num + den) / (2 * den))
    };
    if r > i32::MAX as i128 {
        i32::MAX
    } else if r < i32::MIN as i128 {
        i32::MIN
    } else {
        r as i32
    }
}

/// Widens a span by one vertex, or starts it.
fn widen(span: Option<(u32, u32, u32, u32)>, p: UnitPoint, zoom: u8, Ghost(vs): Ghost<Seq<UnitPoint>>) -> (r: (u32, u32, u32, u32))
    requires
        zoom <= MAX_ZOOM,
        match span {
            Some(s) => vs.len() > 0 && (s.0 as int, s.1 as int, s.2 as int, s.3 as int)
                == tile_span(vs, zoom),
            None => vs.len() == 0,
        },
    ensures
        (r.0 as int, r.1 as int, r.2 as int, r.3 as int) == tile_span(vs.push(p), zoom),
        r.0 <= r.1 < side(zoom as nat),
        r.2 <= r.3 < side(zoom as nat),
{
    let tx = index_of(p.0, zoom);
    let ty = index_of(p.1, zoom);
    proof {
        assert(vs.push(p).drop_last() =~= vs);
        assert(vs.push(p).last() == p);
        if vs.len() > 0 {
            lemma_tile_span_bounds(vs, zoom);
        }
    }
    match span {
        None => (tx, tx, ty, ty),
        Some(s) => (
            if tx < s.0 {
                tx
            } else {
                s.0
            },
            if tx > s.1 {
                tx
            } else {
                s.1
            },
            if ty < s.2 {
                ty
            } else {
                s.2
            },
            if ty > s.3 {
                ty
            } else {
                s.3
            },
        ),
    }
}

/// A row of the grid at a zoom of the pyramid has at most `2^30` tiles.
proof fn lemma_side_bound(zoom: u8)
    requires
        zoom <= MAX_ZOOM,
    ensures
        1 <= side(zoom as nat) <= 0x4000_0000,
{
    vstd::arithmetic::power2::lemma2_to64();
    vstd::arithmetic::power2::lemma_pow2_pos(zoom as nat);
    if zoom < 30 {
        vstd::arithmetic::power2::lemma_pow2_strictly_increases(zoom as nat, 30);
    }
}

/// A span lies on the grid, its least column and row not above the greatest.
proof fn lemma_tile_span_bounds(vs: Seq<UnitPoint>, zoom: u8)
    requires
        vs.len() > 0,
        zoom <= MAX_ZOOM,
    ensures
        0 <= tile_span(vs, zoom).0 <= tile_span(vs, zoom).1 < side(zoom as nat),
        0 <= tile_span(vs, zoom).2 <= tile_span(vs, zoom).3 < side(zoom as nat),
    decreases vs.len(),
{
    vstd::arithmetic::power2::lemma_pow2_pos(zoom as nat);
    if vs.len() > 1 {
        lemma_tile_span_bounds(vs.drop_last(), zoom);
    }
}

/// The columns and rows that a geometry spans; `None` without vertices.
fn span_of(geometry: &Geometry, zoom: u8) -> (r: Option<(u32, u32, u32, u32)>)
    requires
        zoom <= MAX_ZOOM,
    ensures
        match r {
            Some(s) => vertices(geometry@).len() > 0 && (
                s.0 as int,
                s.1 as int,
                s.2 as int,
                s.3 as int,
            ) == tile_span(vertices(geometry@), zoom) && s.0 <= s.1 < side(zoom as nat) && s.2
                <= s.3 < side(zoom as nat),
            None => vertices(geometry@).len() == 0,
        },
{
    match geometry {
        Geometry::Point(x, y) => {
            assert(Seq::<UnitPoint>::empty().push((*x, *y)) =~= vertices(geometry@));
            Some(widen(None, (*x, *y), zoom, Ghost(Seq::empty())))
        },
        Geometry::LineString(coords) => {
            let mut span: Option<(u32, u32, u32, u32)> = None;
            let mut i: usize = 0;
            while i < coords.len()
                invariant
                    i <= coords.len(),
                    zoom <= MAX_ZOOM,
                    match span {
                        Some(s) => i > 0 && (s.0 as int, s.1 as int, s.2 as int, s.3 as int)
                            == tile_span(coords@.take(i as int), zoom) && s.0 <= s.1 < side(
                            zoom as nat,
                        ) && s.2 <= s.3 < side(zoom as nat),
                        None => i == 0,
                    },
                decreases coords.len() - i,
            {
                assert(coords@.take(i as int).push(coords@[i as int]) =~= coords@.take(i + 1));
                span = Some(widen(span, coords[i], zoom, Ghost(coords@.take(i as int))));
                i += 1;
            }
            assert(coords@.take(i as int) =~= coords@);
            span
        },
        Geometry::Polygon(rings) => {
            let ghost ring_views = rings@.map_values(|r: Vec<UnitPoint>| r@);
            let mut span: Option<(u32, u32, u32, u32)> = None;
            let mut i: usize = 0;
            assert(ring_views.take(0) =~= Seq::empty());
            while i < rings.len()
                invariant
                    i <= rings.len(),
                    zoom <= MAX_ZOOM,
                    ring_views == rings@.map_values(|r: Vec<UnitPoint>| r@),
                    match span {
                        Some(s) => ring_vertices(ring_views.take(i as int)).len() > 0 && (
                            s.0 as int,
                            s.1 as int,
                            s.2 as int,
                            s.3 as int,
                        ) == tile_span(ring_vertices(ring_views.take(i as int)), zoom) && s.0
                            <= s.1 < side(zoom as nat) && s.2 <= s.3 < side(zoom as nat),
                        None => ring_vertices(ring_views.take(i as int)).len() == 0,
                    },
                decreases rings.len() - i,
            {
                let ring = &rings[i];
                let ghost done = ring_vertices(ring_views.take(i as int));
                proof {
                    assert(ring_views[i as int] == ring@);
                    assert(ring_views.take(i + 1).drop_last() =~= ring_views.take(i as int));
                    assert(ring_vertices(ring_views.take(i + 1)) == done + ring@);
                    assert(done + ring@.take(0) =~= done);
                }
                let mut j: usize = 0;
                while j < ring.len()
                    invariant
                        j <= ring.len(),
                        zoom <= MAX_ZOOM,
                        match span {
                            Some(s) => (done + ring@.take(j as int)).len() > 0 && (
                                s.0 as int,
                                s.1 as int,
                                s.2 as int,
                                s.3 as int,
                            ) == tile_span(done + ring@.take(j as int), zoom) && s.0 <= s.1
                                < side(zoom as nat) && s.2 <= s.3 < side(zoom as nat),
                            None => (done + ring@.take(j as int)).len() == 0,
                        },
                    decreases ring.len() - j,
                {
                    assert((done + ring@.take(j as int)).push(ring@[j as int]) =~= done
                        + ring@.take(j + 1));
                    span = Some(widen(span, ring[j], zoom, Ghost(done + ring@.take(j as int))));
                    j += 1;
                }
                assert(ring@.take(j as int) =~= ring@);
                i += 1;
            }
            assert(ring_views.take(i as int) =~= ring_views);
            span
        },
    }
}

/// The vertices of all rings are at least as many as those of the first
/// `i` rings.
proof fn lemma_ring_vertices_grow(rings: Seq<Seq<UnitPoint>>, i: int)
    requires
        0 <= i <= rings.len(),
    ensures
        ring_vertices(rings.take(i)).len() <= ring_vertices(rings).len(),
    decreases rings.len() - i,
{
    if i == rings.len() {
        assert(rings.take(i) =~= rings);
    } else {
        lemma_ring_vertices_grow(rings, i + 1);
        assert(rings.take(i + 1).drop_last() =~= rings.take(i));
    }
}

/// Whether a geometry has a vertex.
pub fn has_vertices(geometry: &Geometry) -> (r: bool)
    ensures
        r == (vertices(geometry@).len() > 0),
{
    match geometry {
        Geometry::Point(_, _) => true,
        Geometry::LineString(coords) => coords.len() > 0,
        Geometry::Polygon(rings) => {
            let ghost ring_views = rings@.map_values(|r: Vec<UnitPoint>| r@);
            let mut i: usize = 0;
            assert(ring_views.take(0) =~= Seq::empty());
            while i < rings.len()
                invariant
                    i <= rings.len(),
                    ring_views == rings@.map_values(|r: Vec<UnitPoint>| r@),
                    geometry@ == GeometryView::Polygon(ring_views),
                    ring_vertices(ring_views.take(i as int)).len() == 0,
                decreases rings.len() - i,
            {
                proof {
                    assert(ring_views[i as int] == rings@[i as int]@);
                    assert(ring_views.take(i + 1).drop_last() =~= ring_views.take(i as int));
                    lemma_ring_vertices_grow(ring_views, i + 1);
                }
                if rings[i].len() > 0 {
                    return true;
                }
                i += 1;
            }
            assert(ring_views.take(i as int) =~= ring_views);
            false
        },
    }
}

/// Copies a property value.
fn copy_value(value: &PropertyValue) -> (r: PropertyValue)
    ensures
        r@ == value@,
{
    match value {
        PropertyValue::String(s) => PropertyValue::String(s.clone()),
        PropertyValue::Integer { value, text } => PropertyValue::Integer {
            value: *value,
            text: text.clone(),
        },
        PropertyValue::Double { bits, text } => PropertyValue::Double {
            bits: *bits,
            text: text.clone(),
        },
        PropertyValue::Boolean(b) => PropertyValue::Boolean(*b),
        PropertyValue::Null => PropertyValue::Null,
        PropertyValue::Other => PropertyValue::Other,
    }
}

/// Copies a property list.
fn copy_properties(properties: &Vec<(String, PropertyValue)>) -> (out: Vec<(String, PropertyValue)>)
    ensures
        properties_view(out@) == properties_view(properties@),
{
    let mut out: Vec<(String, PropertyValue)> = Vec::new();
    let mut i: usize = 0;
    while i < properties.len()
        invariant
            i <= properties.len(),
            properties_view(out@) == properties_view(properties@).take(i as int),
        decreases properties.len() - i,
    {
        let ghost before = out@;
        let key = properties[i].0.clone();
        let value = copy_value(&properties[i].1);
        out.push((key, value));
        proof {
            assert(properties_view(out@) =~= properties_view(before).push((key@, value@)));
            assert(properties_view(properties@).take(i + 1) =~= properties_view(
                properties@,
            ).take(i as int).push((key@, value@)));
        }
        i += 1;
    }
    assert(properties_view(properties@).take(i as int) =~= properties_view(properties@));
    out
}

/// Puts vertices into the local units of the tile `(tx, ty)`.
fn localize_points(pts: &Vec<UnitPoint>, zoom: u8, tx: u32, ty: u32) -> (out: Vec<TilePoint>)
    requires
        zoom <= MAX_ZOOM,
    ensures
        out@ == local_points(pts@, zoom, tx as int, ty as int),
{
    let mut out: Vec<TilePoint> = Vec::new();
    let mut i: usize = 0;
    while i < pts.len()
        invariant
            i <= pts.len(),
            zoom <= MAX_ZOOM,
            out@ == local_points(pts@, zoom, tx as int, ty as int).take(i as int),
        decreases pts.len() - i,
    {
        let p = pts[i];
        out.push((local_of(p.0, zoom, tx), local_of(p.1, zoom, ty)));
        assert(out@ =~= local_points(pts@, zoom, tx as int, ty as int).take(i + 1));
        i += 1;
    }
    assert(out@ =~= local_points(pts@, zoom, tx as int, ty as int));
    out
}

/// Puts a feature into the local units of the tile `(tx, ty)`.
fn localize(feature: &Feature, zoom: u8, tx: u32, ty: u32) -> (r: TileFeature)
    requires
        zoom <= MAX_ZOOM,
    ensures
        r@ == local_feature(feature@, zoom, tx as int, ty as int),
{
    let geometry = match &feature.geometry {
        Geometry::Point(x, y) => TileGeometry::Point(
            local_of(*x, zoom, tx),
            local_of(*y, zoom, ty),
        ),
        Geometry::LineString(coords) => TileGeometry::LineString(
            localize_points(coords, zoom, tx, ty),
        ),
        Geometry::Polygon(rings) => {
            let ghost ring_views = rings@.map_values(|r: Vec<UnitPoint>| r@);
            let ghost want = Seq::new(
                ring_views.len(),
                |i: int| local_points(ring_views[i], zoom, tx as int, ty as int),
            );
            let mut out: Vec<Vec<TilePoint>> = Vec::new();
            let mut i: usize = 0;
            while i < rings.len()
                invariant
                    i <= rings.len(),
                    zoom <= MAX_ZOOM,
                    ring_views == rings@.map_values(|r: Vec<UnitPoint>| r@),
                    want == Seq::new(
                        ring_views.len(),
                        |i: int| local_points(ring_views[i], zoom, tx as int, ty as int),
                    ),
                    out@.map_values(|r: Vec<TilePoint>| r@) == want.take(i as int),
                decreases rings.len() - i,
            {
                let ghost before = out@;
                let ring = localize_points(&rings[i], zoom, tx, ty);
                assert(ring_views[i as int] == rings@[i as int]@);
                out.push(ring);
                assert(out@.map_values(|r: Vec<TilePoint>| r@) =~= before.map_values(
                    |r: Vec<TilePoint>| r@,
                ).push(ring@));
                assert(want.take(i + 1) =~= want.take(i as int).push(ring@));
                i += 1;
            }
            assert(want.take(i as int) =~= want);
            TileGeometry::Polygon(out)
        },
    };
    TileFeature { geometry, properties: copy_properties(&feature.properties) }
}

/// Adds a feature to the tile `coord`, at the end of its features, or as
/// the first feature of a new last tile.
fn place_into(tiles: &mut Vec<(TileCoord, Vec<TileFeature>)>, coord: TileCoord, f: TileFeature)
    ensures
        buckets_view(final(tiles)@) == place(buckets_view(old(tiles)@), coord, f@),
{
    let ghost before = buckets_view(tiles@);
    let mut p: usize = 0;
    assert(before.take(0) + place(before.skip(0), coord, f@) =~= place(before, coord, f@)) by {
        assert(before.skip(0) =~= before);
    }
    while p < tiles.len()
        invariant
            p <= tiles.len(),
            tiles@ == old(tiles)@,
            before == buckets_view(tiles@),
            place(before, coord, f@) == before.take(p as int) + place(
                before.skip(p as int),
                coord,
                f@,
            ),
        decreases tiles.len() - p,
    {
        let ghost rest = before.skip(p as int);
        proof {
            assert(rest[0].coord == tiles@[p as int].0);
            assert(rest[0].features == features_view(tiles@[p as int].1@));
            assert(rest.drop_first() =~= before.skip(p + 1));
            assert(before.take(p + 1) =~= before.take(p as int) + seq![rest[0]]);
        }
        if tiles[p].0 == coord {
            let mut bucket = tiles.remove(p);
            let ghost held = bucket.1@;
            bucket.1.push(f);
            assert(features_view(bucket.1@) =~= features_view(held).push(f@));
            tiles.insert(p, bucket);
            proof {
                assert(buckets_view(tiles@) =~= before.take(p as int) + (seq![
                    TileBucketView { coord: coord, features: rest[0].features.push(f@) },
                ] + rest.drop_first()));
            }
            return ;
        }
        proof {
            assert(before.take(p as int) + (seq![rest[0]] + place(rest.drop_first(), coord, f@))
                =~= before.take(p + 1) + place(before.skip(p + 1), coord, f@));
        }
        p += 1;
    }
    let mut held: Vec<TileFeature> = Vec::new();
    held.push(f);
    assert(features_view(held@) =~= seq![f@]);
    tiles.push((coord, held));
    proof {
        assert(before.skip(p as int) =~= Seq::<TileBucketView>::empty());
        assert(before.take(p as int) =~= before);
        assert(buckets_view(tiles@) =~= before + seq![
            TileBucketView { coord: coord, features: seq![f@] },
        ]);
    }
}

/// Assigns the features to the tiles of one zoom level. Each feature goes,
/// whole and unclipped, to every tile of the columns and rows that its
/// vertices span; a feature without vertices goes nowhere.
///
/// Fails with `InvalidZoom` when `zoom` is above 30.
pub fn tile_features(features: &[Feature], zoom: u8) -> (r: Result<
    Vec<(TileCoord, Vec<TileFeature>)>,
    TileError,
>)
    ensures
        zoom > MAX_ZOOM <==> r == Err::<Vec<(TileCoord, Vec<TileFeature>)>, TileError>(
            TileError::InvalidZoom,
        ),
        zoom <= MAX_ZOOM ==> (r matches Ok(tiles) && buckets_view(tiles@) == tiled(
            feature_views(features@),
            zoom,
        )),
{
    if zoom > MAX_ZOOM {
        return Err(TileError::InvalidZoom);
    }
    let ghost fv = feature_views(features@);
    let mut tiles: Vec<(TileCoord, Vec<TileFeature>)> = Vec::new();
    let mut i: usize = 0;
    assert(buckets_view(tiles@) =~= tiled(fv.take(0), zoom)) by {
        assert(fv.take(0) =~= Seq::empty());
    }
    while i < features.len()
        invariant
            i <= features.len(),
            zoom <= MAX_ZOOM,
            fv == feature_views(features@),
            buckets_view(tiles@) == tiled(fv.take(i as int), zoom),
        decreases features.len() - i,
    {
        let feature = &features[i];
        let ghost base = buckets_view(tiles@);
        proof {
            assert(fv[i as int] == feature@);
            assert(fv.take(i + 1).drop_last() =~= fv.take(i as int));
            assert(fv.take(i + 1).last() == feature@);
        }
        match span_of(&feature.geometry, zoom) {
            None => {},
            Some(s) => {
                let ghost w = s.1 - s.0 + 1;
                let mut ty: u32 = s.2;
                proof {
                    lemma_side_bound(zoom);
                }
                assert(grid_tiles(s.0 as int, w, s.2 as int, 0) =~= Seq::empty());
                while ty <= s.3
                    invariant
                        s.2 <= ty <= s.3 + 1,
                        s.0 <= s.1 < 0x4000_0001,
                        s.3 < 0x4000_0001,
                        w == s.1 - s.0 + 1,
                        zoom <= MAX_ZOOM,
                        buckets_view(tiles@) == place_each(
                            base,
                            grid_tiles(s.0 as int, w, s.2 as int, ty - s.2),
                            feature@,
                            zoom,
                        ),
                    decreases s.3 + 1 - ty,
                {
                    let ghost rows = grid_tiles(s.0 as int, w, s.2 as int, ty - s.2);
                    let mut tx: u32 = s.0;
                    assert(rows + row_tiles(s.0 as int, 0, ty as int) =~= rows);
                    while tx <= s.1
                        invariant
                            s.0 <= tx <= s.1 + 1,
                            s.1 < 0x4000_0001,
                            zoom <= MAX_ZOOM,
                            buckets_view(tiles@) == place_each(
                                base,
                                rows + row_tiles(s.0 as int, tx - s.0, ty as int),
                                feature@,
                                zoom,
                            ),
                        decreases s.1 + 1 - tx,
                    {
                        proof {
                            let now = rows + row_tiles(s.0 as int, tx - s.0, ty as int);
                            let next = rows + row_tiles(s.0 as int, tx - s.0 + 1, ty as int);
                            assert(next.drop_last() =~= now);
                            assert(next.last() == (tx as int, ty as int));
                        }
                        let local = localize(feature, zoom, tx, ty);
                        place_into(&mut tiles, TileCoord { z: zoom, x: tx, y: ty }, local);
                        tx += 1;
                    }
                    assert(rows + row_tiles(s.0 as int, w, ty as int) =~= grid_tiles(
                        s.0 as int,
                        w,
                        s.2 as int,
                        ty - s.2 + 1,
                    ));
                    ty += 1;
                }
            },
        }
        i += 1;
    }
    assert(fv.take(i as int) =~= fv);
    Ok(tiles)
}

/// Whether the tiles are tiles of the grid at `zoom`, no two at one
/// address, each with a feature.
pub open spec fn buckets_valid(buckets: Seq<TileBucketView>, zoom: u8) -> bool {
    &&& forall|i: int|
        0 <= i < buckets.len() ==> (#[trigger] buckets[i]).coord.z == zoom
            && buckets[i].coord.well_formed() && buckets[i].features.len() > 0
    &&& forall|i: int, j: int|
        0 <= i < j < buckets.len() ==> (#[trigger] buckets[i]).coord != (
        #[trigger] buckets[j]).coord
}

/// Adding a feature to a tile leaves the tiles in their places and adds at
/// most one tile, at the end.
proof fn lemma_place_shape(state: Seq<TileBucketView>, coord: TileCoord, f: TileFeatureView)
    ensures
        state.len() <= place(state, coord, f).len() <= state.len() + 1,
        forall|k: int|
            0 <= k < state.len() ==> (#[trigger] place(state, coord, f)[k]).coord
                == state[k].coord && place(state, coord, f)[k].features.len()
                >= state[k].features.len(),
        place(state, coord, f).len() == state.len() + 1 ==> place(state, coord, f).last().coord
            == coord && place(state, coord, f).last().features.len() == 1 && forall|k: int|
            0 <= k < state.len() ==> (#[trigger] state[k]).coord != coord,
    decreases state.len(),
{
    let r = place(state, coord, f);
    if state.len() == 0 {
    } else if state[0].coord == coord {
        assert(r =~= seq![TileBucketView { coord: coord, features: state[0].features.push(f) }]
            + state.drop_first());
    } else {
        let rest = state.drop_first();
        let q = place(rest, coord, f);
        lemma_place_shape(rest, coord, f);
        assert(r =~= seq![state[0]] + q);
        assert forall|k: int| 0 <= k < state.len() implies (#[trigger] r[k]).coord
            == state[k].coord && r[k].features.len() >= state[k].features.len() by {
            if k > 0 {
                assert(r[k] == q[k - 1]);
                assert(state[k] == rest[k - 1]);
            }
        }
        if r.len() == state.len() + 1 {
            assert(r.last() == q.last());
            assert forall|k: int| 0 <= k < state.len() implies (#[trigger] state[k]).coord
                != coord by {
                if k > 0 {
                    assert(state[k] == rest[k - 1]);
                }
            }
        }
    }
}

/// Adding a feature to a tile of the grid keeps the tiles valid.
proof fn lemma_place_valid(
    state: Seq<TileBucketView>,
    coord: TileCoord,
    f: TileFeatureView,
    zoom: u8,
)
    requires
        buckets_valid(state, zoom),
        coord.z == zoom,
        coord.well_formed(),
    ensures
        buckets_valid(place(state, coord, f), zoom),
{
    let r = place(state, coord, f);
    lemma_place_shape(state, coord, f);
    assert forall|i: int| 0 <= i < r.len() implies (#[trigger] r[i]).coord.z == zoom
        && r[i].coord.well_formed() && r[i].features.len() > 0 by {
        if i < state.len() {
            assert(r[i].coord == state[i].coord);
        }
    }
    assert forall|i: int, j: int| 0 <= i < j < r.len() implies (#[trigger] r[i]).coord != (
    #[trigger] r[j]).coord by {
        assert(r[i].coord == state[i].coord);
        if j < state.len() {
            assert(r[j].coord == state[j].coord);
        }
    }
}

/// The tiles of a grid of rows lie in its columns and rows.
proof fn lemma_grid_tiles_bounds(xlo: int, w: int, ylo: int, h: int)
    ensures
        forall|k: int|
            0 <= k < grid_tiles(xlo, w, ylo, h).len() ==> xlo <= (#[trigger] grid_tiles(
                xlo,
                w,
                ylo,
                h,
            )[k]).0 < xlo + w && ylo <= grid_tiles(xlo, w, ylo, h)[k].1 < ylo + h,
    decreases h,
{
    if h > 0 {
        lemma_grid_tiles_bounds(xlo, w, ylo, h - 1);
        let all = grid_tiles(xlo, w, ylo, h);
        let before = grid_tiles(xlo, w, ylo, h - 1);
        let row = row_tiles(xlo, w, ylo + h - 1);
        assert forall|k: int| 0 <= k < all.len() implies xlo <= (#[trigger] all[k]).0 < xlo + w
            && ylo <= all[k].1 < ylo + h by {
            if k < before.len() {
                assert(all[k] == before[k]);
            } else {
                assert(all[k] == row[k - before.len()]);
            }
        }
    }
}

/// Adding a feature to tiles of the grid keeps the tiles valid.
proof fn lemma_place_each_valid(
    state: Seq<TileBucketView>,
    at: Seq<(int, int)>,
    f: FeatureView,
    zoom: u8,
)
    requires
        zoom <= MAX_ZOOM,
        buckets_valid(state, zoom),
        forall|k: int|
            0 <= k < at.len() ==> 0 <= (#[trigger] at[k]).0 < side(zoom as nat) && 0 <= at[k].1
                < side(zoom as nat),
    ensures
        buckets_valid(place_each(state, at, f, zoom), zoom),
    decreases at.len(),
{
    if at.len() > 0 {
        lemma_place_each_valid(state, at.drop_last(), f, zoom);
        lemma_side_bound(zoom);
        let t = at.last();
        assert(0 <= at[at.len() - 1].0 < side(zoom as nat));
        lemma_place_valid(
            place_each(state, at.drop_last(), f, zoom),
            coord_at(zoom, t),
            local_feature(f, zoom, t.0, t.1),
            zoom,
        );
    }
}

/// The tiles of a zoom level are tiles of its grid, no two at one address,
/// each with a feature.
pub proof fn lemma_tiled_valid(fs: Seq<FeatureView>, zoom: u8)
    requires
        zoom <= MAX_ZOOM,
    ensures
        buckets_valid(tiled(fs, zoom), zoom),
    decreases fs.len(),
{
    if fs.len() > 0 {
        lemma_tiled_valid(fs.drop_last(), zoom);
        let g = fs.last().geometry;
        let at = touched_tiles(g, zoom);
        if vertices(g).len() > 0 {
            let s = tile_span(vertices(g), zoom);
            lemma_tile_span_bounds(vertices(g), zoom);
            lemma_grid_tiles_bounds(s.0, s.1 - s.0 + 1, s.2, s.3 - s.2 + 1);
        }
        lemma_place_each_valid(tiled(fs.drop_last(), zoom), at, fs.last(), zoom);
    }
}

} // verus!
