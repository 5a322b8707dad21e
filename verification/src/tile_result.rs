//! The tiles of one generation with their metadata, as a host reads them:
//! by count and by index.

use vstd::prelude::*;
use vstd::slice::slice_to_vec;
use crate::feature::feature_views;
use crate::metadata::TileMetadata;
use crate::{
    files_view, generate_tiles_with_metadata, generated, metadata_describes, FeatureCollection,
    TileError, TileFile, TileFileView,
};

verus! {

/// The result of a generation: the tile files in order, and the metadata.
pub struct TileResult {
    tiles: Vec<TileFile>,
    metadata: TileMetadata,
}

impl TileResult {
    /// The tile files of the result, in order.
    pub closed spec fn files(&self) -> Seq<TileFileView> {
        files_view(self.tiles@)
    }

    /// The metadata of the result.
    pub closed spec fn described(&self) -> &TileMetadata {
        &self.metadata
    }

    /// A result of the given tiles and metadata.
    pub fn new(tiles: Vec<TileFile>, metadata: TileMetadata) -> (r: Self)
        ensures
            r.files() == files_view(tiles@),
            *r.described() == metadata,
    {
        TileResult { tiles, metadata }
    }

    /// The number of tiles.
    pub fn count(&self) -> (n: usize)
        ensures
            n == self.files().len(),
    {
        self.tiles.len()
    }

    /// The path of the tile at `index`; `None` beyond the last tile.
    pub fn get_path(&self, index: usize) -> (r: Option<String>)
        ensures
            match r {
                Some(path) => index < self.files().len() && path@ == self.files()[index as int].path,
                None => index >= self.files().len(),
            },
    {
        if index < self.tiles.len() {
            assert(self.files()[index as int] == self.tiles@[index as int]@);
            Some(self.tiles[index].path.clone())
        } else {
            None
        }
    }

    /// The bytes of the tile at `index`; `None` beyond the last tile.
    pub fn get_data(&self, index: usize) -> (r: Option<Vec<u8>>)
        ensures
            match r {
                Some(data) => index < self.files().len() && data@ == self.files()[index as int].data,
                None => index >= self.files().len(),
            },
    {
        if index < self.tiles.len() {
            assert(self.files()[index as int] == self.tiles@[index as int]@);
            Some(slice_to_vec(self.tiles[index].data.as_slice()))
        } else {
            None
        }
    }

    /// The metadata of the generation.
    pub fn get_metadata(&self) -> (m: &TileMetadata)
        ensures
            m == self.described(),
    {
        &self.metadata
    }
}

/// Generates the tiles of a feature collection as a result that a host reads
/// by index.
///
/// The files, the metadata and the errors are those of
/// `generate_tiles_with_metadata`.
pub fn generate_pbf_tiles(
    collection: &FeatureCollection,
    min_zoom: u8,
    max_zoom: u8,
    layer_name: &str,
) -> (r: Result<TileResult, TileError>)
    ensures
        match r {
            Ok(result) => generated(
                feature_views(collection.features@),
                min_zoom,
                max_zoom,
                layer_name@,
            ) == Ok::<Seq<TileFileView>, TileError>(result.files()) && metadata_describes(
                result.described(),
                collection,
                min_zoom,
                max_zoom,
                layer_name@,
            ),
            Err(e) => generated(
                feature_views(collection.features@),
                min_zoom,
                max_zoom,
                layer_name@,
            ) == Err::<Seq<TileFileView>, TileError>(e),
        },
{
    match generate_tiles_with_metadata(collection, min_zoom, max_zoom, layer_name) {
        Ok(out) => Ok(TileResult::new(out.0, out.1)),
        Err(e) => Err(e),
    }
}

} // verus!
