//! Vector tile generation core: MVT tile encoding and PMTiles archive assembly,
//! with the byte formats stated as specifications and proved.

use vstd::prelude::*;
use crate::analyzer::{analyze_properties, analyzed, attributes_match, fields_match};
use crate::feature::{collected_properties, feature_views, Feature, FeatureView, GeometryView};
use crate::metadata::{same_metadata, Bounds, GeometryKind, TileMetadata};
use crate::mvt_encoder::{encode_tile, layer_result};
use crate::path::{lemma_path_round_trip, parse_path, parse_tile_path, path_text};
use crate::pmtiles_encoder::{
    encode_pmtiles, ids_strictly_ascending, lemma_archive_ids_rise, lemma_same_metadata_result,
    magic_bytes, outcome_is, pmtiles_entries, pmtiles_result, tiles_distinct, tiles_view,
    HEADER_SIZE, MAX_ID_ZOOM,
};
use crate::tiler::{
    buckets_view, features_view, has_vertices, lemma_tiled_valid, tile_features, tiled, vertices,
    TileBucketView, TileFeature,
};
use crate::vector_tile::tile_bytes;

pub mod analyzer;
pub mod feature;
pub mod gzip;
pub mod hilbert;
pub mod metadata;
pub mod mvt_encoder;
pub mod path;
pub mod pmtiles_encoder;
pub mod properties;
pub mod reader;
pub mod rebuild;
pub mod text;
pub mod tile_reader;
pub mod tile_result;
pub mod tiler;
pub mod vector_tile;
pub mod wire;

verus! {

/// Largest zoom level of the tile pyramid.
pub const MAX_ZOOM: u8 = 30;

/// Why a generation call ended without a result.
#[derive(Debug, Clone, Copy, PartialEq, Eq, Hash, Structural)]
pub enum TileError {
    /// The input is not a feature collection that can be tiled.
    InvalidInput,
    /// There is no vertex to take bounds from.
    NoBounds,
    /// A zoom level lies above `MAX_ZOOM`, or the range is reversed.
    InvalidZoom,
    /// A tile was to be encoded from no feature.
    EmptyTile,
    /// A line of fewer than two points, or a polygon without a usable ring.
    InvalidGeometry,
    /// An archive was to be assembled from no tile.
    EmptyArchive,
    /// A gzip stream could not be produced.
    CompressionFailed,
    /// A payload could not be serialised.
    EncodeFailed,
}

/// Address of one tile of the pyramid.
#[derive(Debug, Clone, Copy, PartialEq, Eq, Hash, Structural)]
pub struct TileCoord {
    pub z: u8,
    pub x: u32,
    pub y: u32,
}

impl TileCoord {
    /// A tile address lies on the pyramid when its zoom is at most `MAX_ZOOM`
    /// and both indices are below `2^z`.
    pub open spec fn well_formed(&self) -> bool {
        &&& self.z <= MAX_ZOOM
        &&& (self.x as int) < vstd::arithmetic::power2::pow2(self.z as nat)
        &&& (self.y as int) < vstd::arithmetic::power2::pow2(self.z as nat)
    }

    /// The tile in column `x` and row `y` of zoom `z`.
    pub fn new(z: u8, x: u32, y: u32) -> (c: Self)
        ensures
            c.z == z,
            c.x == x,
            c.y == y,
    {
        Self { z, x, y }
    }

    /// The canonical path of the tile: `z/x/y.pbf`, the numbers in decimal.
    pub fn to_path(&self) -> (path: String)
        ensures
            path@ == crate::path::path_text(self.z, self.x, self.y),
    {
        crate::path::tile_path(self.z, self.x, self.y)
    }
}

/// One encoded tile under its path.
#[derive(Debug, Clone)]
pub struct TileFile {
    pub path: String,
    pub data: Vec<u8>,
}

/// What a `TileFile` holds, as mathematical values.
pub struct TileFileView {
    pub path: Seq<char>,
    pub data: Seq<u8>,
}

impl View for TileFile {
    type V = TileFileView;

    open spec fn view(&self) -> TileFileView {
        TileFileView { path: self.path@, data: self.data@ }
    }
}

/// The views of a list of tile files.
pub open spec fn files_view(files: Seq<TileFile>) -> Seq<TileFileView> {
    files.map_values(|f: TileFile| f@)
}

/// A feature collection as the parser and the projection hand it over: the
/// features on the unit square of the world, and the bounds and their centre
/// in degrees.
#[derive(Debug, Clone)]
pub struct FeatureCollection {
    pub features: Vec<Feature>,
    pub bounds: Bounds,
    pub center_lon_e7: i32,
    pub center_lat_e7: i32,
}

/// Whether some feature has a vertex.
pub open spec fn has_vertex(fs: Seq<FeatureView>) -> bool {
    exists|i: int| 0 <= i < fs.len() && vertices((#[trigger] fs[i]).geometry).len() > 0
}

/// The kind of a geometry.
pub open spec fn kind_of(g: GeometryView) -> GeometryKind {
    match g {
        GeometryView::Point(_, _) => GeometryKind::Point,
        GeometryView::LineString(_) => GeometryKind::LineString,
        GeometryView::Polygon(_) => GeometryKind::Polygon,
    }
}

/// How many of the features have a geometry of the kind `kind`.
pub open spec fn kind_count(fs: Seq<FeatureView>, kind: GeometryKind) -> nat
    decreases fs.len(),
{
    if fs.len() == 0 {
        0
    } else {
        kind_count(fs.drop_last(), kind) + if kind_of(fs.last().geometry) == kind {
            1nat
        } else {
            0nat
        }
    }
}

/// The kind that most features have; polygons win a tie, then lines.
pub open spec fn dominant_kind(fs: Seq<FeatureView>) -> GeometryKind {
    let points = kind_count(fs, GeometryKind::Point);
    let lines = kind_count(fs, GeometryKind::LineString);
    let polygons = kind_count(fs, GeometryKind::Polygon);
    if polygons >= points && polygons >= lines {
        GeometryKind::Polygon
    } else if lines >= points {
        GeometryKind::LineString
    } else {
        GeometryKind::Point
    }
}

/// The files of the first `n` tiles of `buckets`, each tile encoded under
/// its path; the first error if a tile cannot be encoded.
pub open spec fn encoded_tiles(buckets: Seq<TileBucketView>, name: Seq<char>, n: int) -> Result<
    Seq<TileFileView>,
    TileError,
>
    decreases n,
{
    if n <= 0 {
        Ok(Seq::<TileFileView>::empty())
    } else {
        match encoded_tiles(buckets, name, n - 1) {
            Err(e) => Err(e),
            Ok(files) => match layer_result(buckets[n - 1].features, name) {
                Err(e) => Err(e),
                Ok(layer) => Ok(
                    files.push(
                        TileFileView {
                            path: path_text(
                                buckets[n - 1].coord.z,
                                buckets[n - 1].coord.x,
                                buckets[n - 1].coord.y,
                            ),
                            data: tile_bytes(layer),
                        },
                    ),
                ),
            },
        }
    }
}

/// The files of the zoom levels `from..=to`, zoom by zoom; the first error
/// if a tile cannot be encoded.
pub open spec fn zoom_files(fs: Seq<FeatureView>, name: Seq<char>, from: int, to: int) -> Result<
    Seq<TileFileView>,
    TileError,
>
    decreases to - from + 1,
{
    if from > to {
        Ok(Seq::<TileFileView>::empty())
    } else {
        match zoom_files(fs, name, from, to - 1) {
            Err(e) => Err(e),
            Ok(files) => match encoded_tiles(
                tiled(fs, to as u8),
                name,
                tiled(fs, to as u8).len() as int,
            ) {
                Err(e) => Err(e),
                Ok(more) => Ok(files + more),
            },
        }
    }
}

/// What a generation gives: `NoBounds` for features without any vertex,
/// `InvalidZoom` for a zoom range that is reversed or reaches above 30, else
/// the files of the zoom range or the first error of the tile encoder.
pub open spec fn generated(fs: Seq<FeatureView>, min_zoom: u8, max_zoom: u8, name: Seq<char>)
    -> Result<Seq<TileFileView>, TileError> {
    if !has_vertex(fs) {
        Err(TileError::NoBounds)
    } else if max_zoom > MAX_ZOOM || min_zoom > max_zoom {
        Err(TileError::InvalidZoom)
    } else {
        zoom_files(fs, name, min_zoom as int, max_zoom as int)
    }
}

/// Whether `m` is the metadata of a generation from `c`: the zoom range and
/// layer name as asked for, bounds and centre as handed over, the feature
/// count, the dominant geometry kind, and the fields and attribute
/// statistics of all properties.
pub open spec fn metadata_describes(
    m: &TileMetadata,
    c: &FeatureCollection,
    min_zoom: u8,
    max_zoom: u8,
    name: Seq<char>,
) -> bool {
    let state = analyzed(collected_properties(feature_views(c.features@)));
    &&& m.min_zoom == min_zoom
    &&& m.max_zoom == max_zoom
    &&& m.layer_name@ == name
    &&& m.bounds.min_lon_e7 == c.bounds.min_lon_e7
    &&& m.bounds.min_lat_e7 == c.bounds.min_lat_e7
    &&& m.bounds.max_lon_e7 == c.bounds.max_lon_e7
    &&& m.bounds.max_lat_e7 == c.bounds.max_lat_e7
    &&& m.bounds.text@ == c.bounds.text@
    &&& m.center_lon_e7 == c.center_lon_e7
    &&& m.center_lat_e7 == c.center_lat_e7
    &&& m.feature_count == c.features@.len()
    &&& m.geometry_type == dominant_kind(feature_views(c.features@))
    &&& fields_match(m.fields@, state)
    &&& attributes_match(m.attributes@, state)
}

/// Once a tile fails to encode, the error stays.
proof fn lemma_encoded_tiles_error(buckets: Seq<TileBucketView>, name: Seq<char>, m: int, n: int)
    requires
        m <= n,
        encoded_tiles(buckets, name, m).is_err(),
    ensures
        encoded_tiles(buckets, name, n) == encoded_tiles(buckets, name, m),
    decreases n - m,
{
    if m < n {
        lemma_encoded_tiles_error(buckets, name, m, n - 1);
    }
}

/// Once a zoom level fails, the error stays.
proof fn lemma_zoom_files_error(fs: Seq<FeatureView>, name: Seq<char>, from: int, m: int, n: int)
    requires
        m <= n,
        zoom_files(fs, name, from, m).is_err(),
    ensures
        zoom_files(fs, name, from, n) == zoom_files(fs, name, from, m),
    decreases n - m,
{
    if m < n {
        lemma_zoom_files_error(fs, name, from, m, n - 1);
    }
}

/// Names the kind that most features have.
fn dominant_geometry(features: &[Feature]) -> (kind: GeometryKind)
    ensures
        kind == dominant_kind(feature_views(features@)),
{
    let ghost fv = feature_views(features@);
    let mut points: usize = 0;
    let mut lines: usize = 0;
    let mut polygons: usize = 0;
    let mut i: usize = 0;
    assert(fv.take(0) =~= Seq::empty());
    while i < features.len()
        invariant
            i <= features.len(),
            fv == feature_views(features@),
            points == kind_count(fv.take(i as int), GeometryKind::Point),
            lines == kind_count(fv.take(i as int), GeometryKind::LineString),
            polygons == kind_count(fv.take(i as int), GeometryKind::Polygon),
            points + lines + polygons == i,
        decreases features.len() - i,
    {
        proof {
            assert(fv[i as int] == features@[i as int]@);
            assert(fv.take(i + 1).drop_last() =~= fv.take(i as int));
        }
        match features[i].geometry {
            crate::feature::Geometry::Point(_, _) => {
                points += 1;
            },
            crate::feature::Geometry::LineString(_) => {
                lines += 1;
            },
            crate::feature::Geometry::Polygon(_) => {
                polygons += 1;
            },
        }
        i += 1;
    }
    assert(fv.take(i as int) =~= fv);
    if polygons >= points && polygons >= lines {
        GeometryKind::Polygon
    } else if lines >= points {
        GeometryKind::LineString
    } else {
        GeometryKind::Point
    }
}

/// Whether some feature has a vertex.
fn any_vertex(features: &[Feature]) -> (r: bool)
    ensures
        r == has_vertex(feature_views(features@)),
{
    let ghost fv = feature_views(features@);
    let mut i: usize = 0;
    while i < features.len()
        invariant
            i <= features.len(),
            fv == feature_views(features@),
            forall|j: int| 0 <= j < i ==> vertices((#[trigger] fv[j]).geometry).len() == 0,
        decreases features.len() - i,
    {
        assert(fv[i as int] == features@[i as int]@);
        if has_vertices(&features[i].geometry) {
            return true;
        }
        i += 1;
    }
    false
}

/// Encodes the tiles of one zoom level and adds their files to `files`.
/// Stops at the first tile that cannot be encoded.
fn encode_zoom(
    tiles: &Vec<(TileCoord, Vec<TileFeature>)>,
    layer_name: &str,
    files: &mut Vec<TileFile>,
) -> (r: Result<(), TileError>)
    ensures
        match r {
            Ok(_) => encoded_tiles(
                buckets_view(tiles@),
                layer_name@,
                tiles@.len() as int,
            ) matches Ok(more) && files_view(final(files)@) == files_view(old(files)@) + more,
            Err(e) => encoded_tiles(buckets_view(tiles@), layer_name@, tiles@.len() as int)
                == Err::<Seq<TileFileView>, TileError>(e),
        },
{
    let ghost buckets = buckets_view(tiles@);
    let ghost name = layer_name@;
    let ghost base = files_view(files@);
    let mut k: usize = 0;
    assert(base + Seq::<TileFileView>::empty() =~= base);
    while k < tiles.len()
        invariant
            k <= tiles.len(),
            buckets == buckets_view(tiles@),
            name == layer_name@,
            encoded_tiles(buckets, name, k as int) matches Ok(more) && files_view(files@) == base
                + more,
        decreases tiles.len() - k,
    {
        let ghost more = encoded_tiles(buckets, name, k as int)->Ok_0;
        let ghost before = files@;
        let coord = tiles[k].0;
        proof {
            assert(buckets[k as int].coord == coord);
            assert(buckets[k as int].features == features_view(tiles@[k as int].1@));
        }
        let data = match encode_tile(tiles[k].1.as_slice(), layer_name) {
            Ok(data) => data,
            Err(e) => {
                proof {
                    assert(encoded_tiles(buckets, name, k + 1) == Err::<
                        Seq<TileFileView>,
                        TileError,
                    >(e));
                    lemma_encoded_tiles_error(buckets, name, k + 1, buckets.len() as int);
                }
                return Err(e);
            },
        };
        let file = TileFile { path: coord.to_path(), data };
        files.push(file);
        proof {
            assert(files_view(files@) =~= files_view(before).push(file@));
            assert(base + more.push(file@) =~= (base + more).push(file@));
        }
        k += 1;
    }
    Ok(())
}

/// Tiles the features at each zoom level of the range and encodes the
/// tiles. Stops at the first tile that cannot be encoded.
fn encode_zooms(features: &[Feature], min_zoom: u8, max_zoom: u8, layer_name: &str) -> (r: Result<
    Vec<TileFile>,
    TileError,
>)
    requires
        min_zoom <= max_zoom <= MAX_ZOOM,
    ensures
        match r {
            Ok(files) => zoom_files(
                feature_views(features@),
                layer_name@,
                min_zoom as int,
                max_zoom as int,
            ) == Ok::<Seq<TileFileView>, TileError>(files_view(files@)),
            Err(e) => zoom_files(
                feature_views(features@),
                layer_name@,
                min_zoom as int,
                max_zoom as int,
            ) == Err::<Seq<TileFileView>, TileError>(e),
        },
{
    let ghost fv = feature_views(features@);
    let ghost name = layer_name@;
    let mut files: Vec<TileFile> = Vec::new();
    let mut zoom: u8 = min_zoom;
    assert(files_view(files@) =~= Seq::<TileFileView>::empty());
    loop
        invariant_except_break
            zoom_files(fv, name, min_zoom as int, zoom - 1) == Ok::<
                Seq<TileFileView>,
                TileError,
            >(files_view(files@)),
        invariant
            min_zoom <= zoom <= max_zoom <= MAX_ZOOM,
            fv == feature_views(features@),
            name == layer_name@,
        ensures
            zoom_files(fv, name, min_zoom as int, max_zoom as int) == Ok::<
                Seq<TileFileView>,
                TileError,
            >(files_view(files@)),
        decreases max_zoom - zoom,
    {
        let tiles = match tile_features(features, zoom) {
            Ok(tiles) => tiles,
            Err(e) => {
                return Err(e);
            },
        };
        let ghost base = files_view(files@);
        match encode_zoom(&tiles, layer_name, &mut files) {
            Ok(()) => {},
            Err(e) => {
                proof {
                    assert(zoom_files(fv, name, min_zoom as int, zoom as int) == Err::<
                        Seq<TileFileView>,
                        TileError,
                    >(e));
                    lemma_zoom_files_error(fv, name, min_zoom as int, zoom as int, max_zoom as int);
                }
                return Err(e);
            },
        }
        assert(zoom_files(fv, name, min_zoom as int, zoom as int) == Ok::<
            Seq<TileFileView>,
            TileError,
        >(files_view(files@)));
        if zoom == max_zoom {
            break ;
        }
        zoom = zoom + 1;
    }
    Ok(files)
}

/// Tiles a feature collection over a zoom range and encodes every tile, zoom
/// by zoom and within a zoom in the order in which the features first touch
/// the tiles; gives the files with the metadata of the generation.
///
/// Fails with `NoBounds` when no feature has a vertex, with `InvalidZoom`
/// when the zoom range is reversed or reaches above 30, and with the error
/// of the first tile that cannot be encoded.
pub fn generate_tiles_with_metadata(
    collection: &FeatureCollection,
    min_zoom: u8,
    max_zoom: u8,
    layer_name: &str,
) -> (r: Result<(Vec<TileFile>, TileMetadata), TileError>)
    ensures
        match r {
            Ok(out) => generated(
                feature_views(collection.features@),
                min_zoom,
                max_zoom,
                layer_name@,
            ) == Ok::<Seq<TileFileView>, TileError>(files_view(out.0@)) && metadata_describes(
                &out.1,
                collection,
                min_zoom,
                max_zoom,
                layer_name@,
            ),
            Err(e) => generated(
                feature_views(collection.features@),
                min_zoom,
                max_zoom,
                layer_name@,
            ) == Err::<Seq<TileFileView>, TileError>(e),
        },
{
    let features = collection.features.as_slice();
    let ghost fv = feature_views(features@);
    let ghost name = layer_name@;
    if !any_vertex(features) {
        return Err(TileError::NoBounds);
    }
    if max_zoom > MAX_ZOOM || min_zoom > max_zoom {
        return Err(TileError::InvalidZoom);
    }
    let geometry_type = dominant_geometry(features);
    let (fields, attributes) = analyze_properties(features);
    let metadata = TileMetadata {
        min_zoom,
        max_zoom,
        layer_name: layer_name.to_owned(),
        bounds: Bounds {
            min_lon_e7: collection.bounds.min_lon_e7,
            min_lat_e7: collection.bounds.min_lat_e7,
            max_lon_e7: collection.bounds.max_lon_e7,
            max_lat_e7: collection.bounds.max_lat_e7,
            text: collection.bounds.text.clone(),
        },
        center_lon_e7: collection.center_lon_e7,
        center_lat_e7: collection.center_lat_e7,
        feature_count: features.len(),
        geometry_type,
        fields,
        attributes,
    };
    let files = match encode_zooms(features, min_zoom, max_zoom, layer_name) {
        Ok(files) => files,
        Err(e) => {
            return Err(e);
        },
    };
    Ok((files, metadata))
}

/// Tiles a feature collection over a zoom range and encodes every tile.
///
/// The files and the errors are those of `generate_tiles_with_metadata`.
pub fn generate_tiles(
    collection: &FeatureCollection,
    min_zoom: u8,
    max_zoom: u8,
    layer_name: &str,
) -> (r: Result<Vec<TileFile>, TileError>)
    ensures
        match r {
            Ok(files) => generated(
                feature_views(collection.features@),
                min_zoom,
                max_zoom,
                layer_name@,
            ) == Ok::<Seq<TileFileView>, TileError>(files_view(files@)),
            Err(e) => generated(
                feature_views(collection.features@),
                min_zoom,
                max_zoom,
                layer_name@,
            ) == Err::<Seq<TileFileView>, TileError>(e),
        },
{
    match generate_tiles_with_metadata(collection, min_zoom, max_zoom, layer_name) {
        Ok(out) => Ok(out.0),
        Err(e) => Err(e),
    }
}

/// The tile that the path of a file names.
pub open spec fn parsed_coord(path: Seq<char>) -> TileCoord {
    TileCoord {
        z: parse_path(path).0 as u8,
        x: parse_path(path).1 as u32,
        y: parse_path(path).2 as u32,
    }
}

/// The tiles of an archive made from files: each file's data under the tile
/// that its path names.
pub open spec fn archive_tiles(files: Seq<TileFileView>) -> Seq<(TileCoord, Seq<u8>)> {
    Seq::new(files.len(), |i: int| (parsed_coord(files[i].path), files[i].data))
}

/// Turns files into the tiles of an archive, in the same order.
fn tiles_of_files(files: Vec<TileFile>) -> (tiles: Vec<(TileCoord, Vec<u8>)>)
    ensures
        tiles_view(tiles@) == archive_tiles(files_view(files@)),
{
    let ghost want = archive_tiles(files_view(files@));
    let n = files.len();
    let mut stack = files;
    let mut reversed: Vec<(TileCoord, Vec<u8>)> = Vec::new();
    while stack.len() > 0
        invariant
            stack@ == files@.take(stack@.len() as int),
            stack@.len() + reversed@.len() == n == files@.len(),
            want == archive_tiles(files_view(files@)),
            forall|j: int|
                0 <= j < reversed@.len() ==> (#[trigger] tiles_view(reversed@)[j]) == want[n - 1
                    - j],
        decreases stack@.len(),
    {
        let ghost held = reversed@;
        let ghost left = stack@.len();
        match stack.pop() {
            Some(file) => {
                let coord = parse_tile_path(file.path.as_str());
                proof {
                    assert(file == files@[left - 1]);
                    assert(files_view(files@)[left - 1] == file@);
                    assert(coord == parsed_coord(file@.path));
                    assert(stack@ =~= files@.take(stack@.len() as int));
                }
                reversed.push((coord, file.data));
                proof {
                    assert forall|j: int| 0 <= j < reversed@.len() implies (#[trigger] tiles_view(
                        reversed@,
                    )[j]) == want[n - 1 - j] by {
                        if j < held.len() {
                            assert(tiles_view(reversed@)[j] == tiles_view(held)[j]);
                        }
                    }
                }
            },
            None => {},
        }
    }
    let ghost turned = tiles_view(reversed@);
    let mut tiles: Vec<(TileCoord, Vec<u8>)> = Vec::new();
    while reversed.len() > 0
        invariant
            reversed@.len() + tiles@.len() == n,
            want.len() == n,
            forall|j: int|
                0 <= j < reversed@.len() ==> (#[trigger] tiles_view(reversed@)[j]) == want[n - 1
                    - j],
            forall|j: int| 0 <= j < tiles@.len() ==> (#[trigger] tiles_view(tiles@)[j]) == want[j],
        decreases reversed@.len(),
    {
        let ghost held = tiles@;
        let ghost left = reversed@;
        match reversed.pop() {
            Some(tile) => {
                proof {
                    assert(tiles_view(left)[left.len() - 1] == (tile.0, tile.1@));
                    assert forall|j: int| 0 <= j < reversed@.len() implies (#[trigger] tiles_view(
                        reversed@,
                    )[j]) == want[n - 1 - j] by {
                        assert(tiles_view(reversed@)[j] == tiles_view(left)[j]);
                    }
                }
                tiles.push(tile);
                proof {
                    assert forall|j: int| 0 <= j < tiles@.len() implies (#[trigger] tiles_view(
                        tiles@,
                    )[j]) == want[j] by {
                        if j < held.len() {
                            assert(tiles_view(tiles@)[j] == tiles_view(held)[j]);
                        }
                    }
                }
            },
            None => {},
        }
    }
    assert(tiles_view(tiles@) =~= want);
    tiles
}

/// Two metadata that describe one generation hold the same values.
pub proof fn lemma_described_alike(
    a: &TileMetadata,
    b: &TileMetadata,
    c: &FeatureCollection,
    min_zoom: u8,
    max_zoom: u8,
    name: Seq<char>,
)
    requires
        metadata_describes(a, c, min_zoom, max_zoom, name),
        metadata_describes(b, c, min_zoom, max_zoom, name),
    ensures
        same_metadata(a, b),
{
    let state = analyzed(collected_properties(feature_views(c.features@)));
    assert forall|i: int| 0 <= i < a.fields@.len() implies (#[trigger] a.fields@[i]).0@
        == b.fields@[i].0@ && a.fields@[i].1 == b.fields@[i].1 by {
        assert(a.fields@[i].0@ == state[i].key);
        assert(b.fields@[i].0@ == state[i].key);
    }
    assert forall|i: int| 0 <= i < a.attributes@.len() implies {
        &&& (#[trigger] a.attributes@[i]).attribute@ == b.attributes@[i].attribute@
        &&& a.attributes@[i].count == b.attributes@[i].count
        &&& a.attributes@[i].numeric == b.attributes@[i].numeric
        &&& crate::metadata::same_strings(a.attributes@[i].values@, b.attributes@[i].values@)
    } by {
        let x = a.attributes@[i];
        let y = b.attributes@[i];
        assert(x.attribute@ == state[i].key);
        assert(y.attribute@ == state[i].key);
        let xs = crate::vector_tile::strings_view(x.values@);
        let ys = crate::vector_tile::strings_view(y.values@);
        assert(xs == ys);
        assert(x.values@.len() == xs.len() && y.values@.len() == ys.len());
        assert forall|j: int| 0 <= j < x.values@.len() implies (#[trigger] x.values@[j])@
            == y.values@[j]@ by {
            assert(xs[j] == x.values@[j]@);
            assert(ys[j] == y.values@[j]@);
        }
    }
}

/// What `generate_pmtiles` gives: the error of a generation that fails,
/// else what packing its files gives, each file's data under the tile that
/// its path names, with the metadata `m` of the generation.
pub open spec fn generated_archive(
    fs: Seq<FeatureView>,
    min_zoom: u8,
    max_zoom: u8,
    name: Seq<char>,
    m: &TileMetadata,
) -> Result<Seq<u8>, TileError> {
    match generated(fs, min_zoom, max_zoom, name) {
        Err(cause) => Err(cause),
        Ok(files) => pmtiles_result(archive_tiles(files), m),
    }
}

/// Tiles a feature collection over a zoom range, encodes every tile and
/// packs the tiles into one PMTiles archive, each tile under the address
/// that its path names.
///
/// The outcome is that of `generated_archive` with the metadata that
/// describes the generation: the error of a generation that fails, else the
/// outcome of `encode_pmtiles` on its files. An archive opens with `PMTiles`
/// and the version 3 and is at least 127 bytes long.
pub fn generate_pmtiles(
    collection: &FeatureCollection,
    min_zoom: u8,
    max_zoom: u8,
    layer_name: &str,
) -> (r: Result<Vec<u8>, TileError>)
    ensures
        r matches Ok(bytes) ==> bytes@.len() >= HEADER_SIZE && bytes@.take(8) == magic_bytes(),
        generated(feature_views(collection.features@), min_zoom, max_zoom, layer_name@) is Err
            ==> outcome_is(
            r,
            Err(
                generated(
                    feature_views(collection.features@),
                    min_zoom,
                    max_zoom,
                    layer_name@,
                )->Err_0,
            ),
        ),
        generated(feature_views(collection.features@), min_zoom, max_zoom, layer_name@) is Ok
            ==> exists|m: TileMetadata| #[trigger]
            metadata_describes(&m, collection, min_zoom, max_zoom, layer_name@),
        forall|m: TileMetadata| #[trigger]
            metadata_describes(&m, collection, min_zoom, max_zoom, layer_name@) ==> outcome_is(
                r,
                generated_archive(
                    feature_views(collection.features@),
                    min_zoom,
                    max_zoom,
                    layer_name@,
                    &m,
                ),
            ),
{
    let ghost made = generated(
        feature_views(collection.features@),
        min_zoom,
        max_zoom,
        layer_name@,
    );
    let (files, metadata) = match generate_tiles_with_metadata(
        collection,
        min_zoom,
        max_zoom,
        layer_name,
    ) {
        Ok(out) => out,
        Err(e) => {
            return Err(e);
        },
    };
    let ghost fviews = files_view(files@);
    let tiles = tiles_of_files(files);
    let packed = encode_pmtiles(tiles, &metadata);
    proof {
        assert(made == Ok::<Seq<TileFileView>, TileError>(fviews));
        assert(tiles_view(tiles@) == archive_tiles(fviews));
        assert(metadata_describes(&metadata, collection, min_zoom, max_zoom, layer_name@));
        assert forall|m: TileMetadata| #[trigger]
            metadata_describes(&m, collection, min_zoom, max_zoom, layer_name@) implies outcome_is(
            packed,
            generated_archive(
                feature_views(collection.features@),
                min_zoom,
                max_zoom,
                layer_name@,
                &m,
            ),
        ) by {
            lemma_described_alike(&m, &metadata, collection, min_zoom, max_zoom, layer_name@);
            lemma_same_metadata_result(archive_tiles(fviews), &m, &metadata);
        }
    }
    packed
}

/// The addresses of the tiles of the zoom levels `from..=to`, zoom by zoom.
pub open spec fn generated_coords(fs: Seq<FeatureView>, from: int, to: int) -> Seq<TileCoord>
    decreases to - from + 1,
{
    if from > to {
        Seq::<TileCoord>::empty()
    } else {
        generated_coords(fs, from, to - 1) + Seq::new(
            tiled(fs, to as u8).len(),
            |i: int| tiled(fs, to as u8)[i].coord,
        )
    }
}

/// The files of encoded tiles name the tiles, in order.
proof fn lemma_encoded_tiles_coords(buckets: Seq<TileBucketView>, name: Seq<char>, n: int)
    requires
        0 <= n <= buckets.len(),
        encoded_tiles(buckets, name, n) is Ok,
    ensures
        encoded_tiles(buckets, name, n)->Ok_0.len() == n,
        forall|i: int|
            0 <= i < n ==> parsed_coord(
                (#[trigger] encoded_tiles(buckets, name, n)->Ok_0[i]).path,
            ) == buckets[i].coord,
    decreases n,
{
    if n > 0 {
        lemma_encoded_tiles_coords(buckets, name, n - 1);
        let c = buckets[n - 1].coord;
        lemma_path_round_trip(c.z, c.x, c.y);
        let before = encoded_tiles(buckets, name, n - 1)->Ok_0;
        let files = encoded_tiles(buckets, name, n)->Ok_0;
        assert forall|i: int| 0 <= i < n implies parsed_coord((#[trigger] files[i]).path)
            == buckets[i].coord by {
            if i < n - 1 {
                assert(files[i] == before[i]);
            }
        }
    }
}

/// The files of a zoom range name the tiles of its zoom levels, in order.
proof fn lemma_zoom_files_coords(fs: Seq<FeatureView>, name: Seq<char>, from: int, to: int)
    requires
        zoom_files(fs, name, from, to) is Ok,
    ensures
        zoom_files(fs, name, from, to)->Ok_0.len() == generated_coords(fs, from, to).len(),
        forall|i: int|
            0 <= i < generated_coords(fs, from, to).len() ==> parsed_coord(
                (#[trigger] zoom_files(fs, name, from, to)->Ok_0[i]).path,
            ) == generated_coords(fs, from, to)[i],
    decreases to - from + 1,
{
    if from <= to {
        lemma_zoom_files_coords(fs, name, from, to - 1);
        let buckets = tiled(fs, to as u8);
        lemma_encoded_tiles_coords(buckets, name, buckets.len() as int);
        let before = zoom_files(fs, name, from, to - 1)->Ok_0;
        let more = encoded_tiles(buckets, name, buckets.len() as int)->Ok_0;
        let files = zoom_files(fs, name, from, to)->Ok_0;
        let coords = generated_coords(fs, from, to);
        assert(files == before + more);
        assert forall|i: int| 0 <= i < coords.len() implies parsed_coord(
            (#[trigger] files[i]).path,
        ) == coords[i] by {
            if i < before.len() {
                assert(files[i] == before[i]);
            } else {
                assert(files[i] == more[i - before.len()]);
            }
        }
    }
}

/// The tiles of a zoom range lie on the pyramid, each at a zoom of the
/// range, no two at one address.
proof fn lemma_generated_coords_valid(fs: Seq<FeatureView>, from: int, to: int)
    requires
        0 <= from,
        to <= MAX_ZOOM,
    ensures
        forall|i: int|
            0 <= i < generated_coords(fs, from, to).len() ==> (#[trigger] generated_coords(
                fs,
                from,
                to,
            )[i]).well_formed() && from <= generated_coords(fs, from, to)[i].z <= to,
        forall|i: int, j: int|
            0 <= i < j < generated_coords(fs, from, to).len() ==> #[trigger] generated_coords(
                fs,
                from,
                to,
            )[i] != #[trigger] generated_coords(fs, from, to)[j],
    decreases to - from + 1,
{
    if from <= to {
        lemma_generated_coords_valid(fs, from, to - 1);
        lemma_tiled_valid(fs, to as u8);
        let buckets = tiled(fs, to as u8);
        let before = generated_coords(fs, from, to - 1);
        let coords = generated_coords(fs, from, to);
        assert forall|i: int| 0 <= i < coords.len() implies (#[trigger] coords[i]).well_formed()
            && from <= coords[i].z <= to by {
            if i < before.len() {
                assert(coords[i] == before[i]);
            } else {
                assert(coords[i] == buckets[i - before.len()].coord);
            }
        }
        assert forall|i: int, j: int| 0 <= i < j < coords.len() implies #[trigger] coords[i]
            != #[trigger] coords[j] by {
            if j < before.len() {
                assert(coords[i] == before[i] && coords[j] == before[j]);
            } else if i < before.len() {
                assert(coords[i] == before[i]);
                assert(coords[j] == buckets[j - before.len()].coord);
            } else {
                assert(coords[i] == buckets[i - before.len()].coord);
                assert(coords[j] == buckets[j - before.len()].coord);
            }
        }
    }
}

/// In the archive of a generation up to zoom 28 the tile ids rise from each
/// directory entry to the next.
pub proof fn lemma_generated_ids_rise(
    fs: Seq<FeatureView>,
    min_zoom: u8,
    max_zoom: u8,
    name: Seq<char>,
)
    requires
        generated(fs, min_zoom, max_zoom, name) is Ok,
        max_zoom <= MAX_ID_ZOOM,
        generated(fs, min_zoom, max_zoom, name)->Ok_0.len() <= usize::MAX,
    ensures
        tiles_distinct(archive_tiles(generated(fs, min_zoom, max_zoom, name)->Ok_0)),
        ids_strictly_ascending(
            pmtiles_entries(archive_tiles(generated(fs, min_zoom, max_zoom, name)->Ok_0)),
        ),
{
    let files = generated(fs, min_zoom, max_zoom, name)->Ok_0;
    let tiles = archive_tiles(files);
    let coords = generated_coords(fs, min_zoom as int, max_zoom as int);
    lemma_zoom_files_coords(fs, name, min_zoom as int, max_zoom as int);
    lemma_generated_coords_valid(fs, min_zoom as int, max_zoom as int);
    assert forall|i: int| 0 <= i < tiles.len() implies (#[trigger] tiles[i]).0.well_formed()
        && tiles[i].0.z <= MAX_ID_ZOOM by {
        assert(tiles[i].0 == parsed_coord(files[i].path));
        assert(tiles[i].0 == coords[i]);
    }
    assert forall|i: int, j: int| 0 <= i < j < tiles.len() implies (#[trigger] tiles[i]).0 != (
    #[trigger] tiles[j]).0 by {
        assert(tiles[i].0 == parsed_coord(files[i].path));
        assert(tiles[j].0 == parsed_coord(files[j].path));
        assert(tiles[i].0 == coords[i] && tiles[j].0 == coords[j]);
    }
    lemma_archive_ids_rise(tiles);
}

} // verus!
