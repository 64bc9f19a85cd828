//! The small square raster a cover's colours are read from.
use vstd::prelude::*;
use crate::thumbnail::decodes;

verus! {

/// The edge, in pixels, of the raster a cover's palette is read from.
pub const RASTER_SIZE: u32 = 64;

/// The RGB bytes, row by row, of the image the bytes `data` decode to once
/// `DynamicImage::resize_to_fill` has scaled it with the triangle filter to
/// cover an `edge` by `edge` square and cropped it to that square, as
/// `to_rgb8` gives them; a function of the bytes and the edge alone.
pub uninterp spec fn filled_rgb(data: Seq<u8>, edge: u32) -> Seq<u8>;

/// `image::ImageReader` over the bytes, `with_guessed_format`, `decode`
/// (the steps of `image::load_from_memory`), then `resize_to_fill(edge, edge,
/// FilterType::Triangle)` and `to_rgb8`. The contract claims that it gives
/// pixels exactly when `decodes` holds, and of the pixels only that they are
/// `filled_rgb` of the bytes and the edge. Left unsaid: an image so narrow
/// that filling the square needs more memory than the machine has.
#[verifier::external_body]
fn filled_pixels(data: &[u8], edge: u32) -> (r: Option<Vec<u8>>)
    requires
        edge >= 1,
    ensures
        r is Some == decodes(data@),
        r matches Some(p) ==> p@ == filled_rgb(data@, edge),
{
    let reader = image::ImageReader::new(std::io::Cursor::new(data)).with_guessed_format().ok()?;
    let decoded = reader.decode().ok()?;
    let filled = decoded.resize_to_fill(edge, edge, image::imageops::FilterType::Triangle);
    Some(filled.to_rgb8().into_raw())
}

/// The RGB raster of a cover thumbnail that its palette is read from; none
/// when the bytes are no image.
pub fn cover_raster(bytes: &[u8]) -> (r: Option<Vec<u8>>)
    ensures
        r is Some == decodes(bytes@),
        r matches Some(p) ==> p@ == filled_rgb(bytes@, RASTER_SIZE),
{
    filled_pixels(bytes, RASTER_SIZE)
}

} // verus!
