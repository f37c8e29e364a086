//! The call this library makes into `flate2` to compress samples with zlib.
use crate::pdf::lopdf_api::{bytes_view, decoded_content, flate_only, zlib_compressed};
use crate::pdf::model::PdfDict;
use flate2::write::ZlibEncoder;
use flate2::Compression;
use std::io::Write;
use vstd::prelude::*;

verus! {

/// `ZlibEncoder` at `Compression::best()` over `content`, written and
/// finished into a fresh buffer (what lopdf's `zlib_compress` does at level
/// 9). Writing into a `Vec` does not fail, so there always is a result.
///
/// zlib decompression undoes zlib compression: a stream whose `/Filter` is
/// the name `/FlateDecode` and which has no `/DecodeParms` decodes, as
/// `Stream::decompressed_content` does it (`ZlibDecoder`, no predictor),
/// from these bytes back to `content`.
#[verifier::external_body]
pub(crate) fn zlib_encode(content: &[u8]) -> (r: Option<Vec<u8>>)
    ensures
        r is Some,
        bytes_view(r) == zlib_compressed(content@),
        r matches Some(z) ==> forall|d: PdfDict|
            flate_only(d) ==> #[trigger] decoded_content(d, z@) == Some(content@),
{
    let mut encoder = ZlibEncoder::new(Vec::new(), Compression::best());
    encoder.write_all(content).ok()?;
    encoder.finish().ok()
}

} // verus!
