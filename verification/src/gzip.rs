//! Gzip compression, done by `flate2`.

use vstd::prelude::*;

verus! {

/// What `flate2` makes of `data` at its default level: the gzip stream that
/// it writes, which is a header without name or time, the deflated data,
/// checksum and length; `None` where the encoder reports an error.
pub uninterp spec fn gzip_result(data: Seq<u8>) -> Option<Seq<u8>>;

/// Whether `data` can be compressed.
pub open spec fn compressible(data: Seq<u8>) -> bool {
    gzip_result(data) is Some
}

/// The gzip stream of `data`; nothing for data that has none.
pub open spec fn gzip_bytes(data: Seq<u8>) -> Seq<u8> {
    match gzip_result(data) {
        Some(out) => out,
        None => Seq::<u8>::empty(),
    }
}

/// Compresses `data` by writing all of it to a `flate2::write::GzEncoder`
/// over an empty `Vec<u8>` at `Compression::default()` and finishing the
/// stream. `None` stands for an error of the encoder.
#[verifier::external_body]
pub(crate) fn gzip(data: &[u8]) -> (r: Option<Vec<u8>>)
    ensures
        match r {
            Some(out) => gzip_result(data@) == Some(out@),
            None => gzip_result(data@) is None,
        },
{
    let mut encoder = flate2::write::GzEncoder::new(Vec::new(), flate2::Compression::default());
    std::io::Write::write_all(&mut encoder, data).ok()?;
    encoder.finish().ok()
}

} // verus!
