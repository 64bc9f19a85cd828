//! The two thumbnails kept for every cover.
use vstd::prelude::*;
use image::ImageError;

verus! {

#[verifier::external_type_specification]
#[verifier::external_body]
pub struct ExImageError(ImageError);

/// The edge, in pixels, of the small thumbnail.
pub const SMALL_SIZE: u32 = 128;

/// The edge, in pixels, of the large thumbnail.
pub const LARGE_SIZE: u32 = 320;

/// The JPEG bytes of the two thumbnails of a cover.
pub struct Thumbnails {
    pub small: Vec<u8>,
    pub large: Vec<u8>,
}

/// Why no thumbnails could be made.
pub enum ThumbnailError {
    /// The bytes are no image the decoder knows.
    Decode(ImageError),
    /// A thumbnail could not be written as JPEG.
    Encode(ImageError),
}

/// Whether `image::load_from_memory` decodes `data`: the format is guessed
/// from the first bytes and the image decoded with the default limits, so
/// the answer depends on the bytes alone.
pub uninterp spec fn decodes(data: Seq<u8>) -> bool;

/// The JPEG bytes of the `size` by `size` thumbnail of the image `data`, as
/// `image::imageops::thumbnail` shrinks it and `DynamicImage::write_to`
/// encodes it; a function of the bytes and the size alone.
pub uninterp spec fn jpeg_thumbnail(data: Seq<u8>, size: u32) -> Seq<u8>;

/// `image::load_from_memory`, then `image::imageops::thumbnail` to a `size`
/// by `size` RGBA image, then `DynamicImage::write_to` a `Vec` in JPEG. The
/// contract claims that this fails exactly when the bytes do not decode: the
/// JPEG encoder takes the thumbnail (converted to RGB) since both its sides
/// lie between 1 and 65535, and writing to a `Vec` does not fail. Of the
/// bytes it claims only that they are `jpeg_thumbnail` of the data and size.
#[verifier::external_body]
fn thumbnail_jpeg(data: &[u8], size: u32) -> (r: Result<Vec<u8>, ImageError>)
    requires
        1 <= size <= 65535,
    ensures
        r is Ok == decodes(data@),
        r matches Ok(bytes) ==> bytes@ == jpeg_thumbnail(data@, size),
{
    let img = image::load_from_memory(data)?;
    let thumb = image::DynamicImage::ImageRgba8(image::imageops::thumbnail(&img, size, size));
    let mut buf = std::io::Cursor::new(Vec::new());
    thumb.write_to(&mut buf, image::ImageFormat::Jpeg)?;
    Ok(buf.into_inner())
}

/// The small and large JPEG thumbnails of the image `data`; fails with
/// `Decode` exactly when the bytes are no image the decoder knows.
pub fn generate_thumbnails(data: &[u8]) -> (r: Result<Thumbnails, ThumbnailError>)
    ensures
        !decodes(data@) ==> r matches Err(ThumbnailError::Decode(_)),
        decodes(data@) ==> (r matches Ok(t) && t.small@ == jpeg_thumbnail(data@, SMALL_SIZE)
            && t.large@ == jpeg_thumbnail(data@, LARGE_SIZE)),
{
    let small = match thumbnail_jpeg(data, SMALL_SIZE) {
        Ok(bytes) => bytes,
        Err(e) => {
            return Err(ThumbnailError::Decode(e));
        },
    };
    let large = match thumbnail_jpeg(data, LARGE_SIZE) {
        Ok(bytes) => bytes,
        Err(e) => {
            return Err(ThumbnailError::Encode(e));
        },
    };
    Ok(Thumbnails { small, large })
}

} // verus!
