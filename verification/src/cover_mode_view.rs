//! Telling the format of cover bytes from their first bytes.
use vstd::prelude::*;

verus! {

/// The image formats a cover can be shown from.
#[derive(Clone, Copy, Debug, PartialEq, Eq, Structural)]
pub enum ImageFormat {
    Jpeg,
    Png,
    Webp,
    Gif,
    Bmp,
}

pub open spec fn begins(bytes: Seq<u8>, magic: Seq<u8>) -> bool {
    magic.len() <= bytes.len() && bytes.take(magic.len() as int) == magic
}

/// The format whose signature the bytes begin with: `FF D8` (JPEG),
/// `89 'PNG'`, `'RIFF'` with `'WEBP'` at bytes 8 to 11 and more after them,
/// `'GIF8'` or `'BM'`.
pub open spec fn sniff_spec(bytes: Seq<u8>) -> Option<ImageFormat> {
    if begins(bytes, seq![0xFFu8, 0xD8u8]) {
        Some(ImageFormat::Jpeg)
    } else if begins(bytes, seq![0x89u8, 0x50u8, 0x4Eu8, 0x47u8]) {
        Some(ImageFormat::Png)
    } else if bytes.len() > 12 && begins(bytes, seq![0x52u8, 0x49u8, 0x46u8, 0x46u8])
        && bytes.subrange(8, 12) == seq![0x57u8, 0x45u8, 0x42u8, 0x50u8] {
        Some(ImageFormat::Webp)
    } else if begins(bytes, seq![0x47u8, 0x49u8, 0x46u8, 0x38u8]) {
        Some(ImageFormat::Gif)
    } else if begins(bytes, seq![0x42u8, 0x4Du8]) {
        Some(ImageFormat::Bmp)
    } else {
        None
    }
}

fn begins_with(bytes: &[u8], at: usize, magic: &[u8]) -> (r: bool)
    requires
        at <= bytes@.len(),
    ensures
        r == (at + magic@.len() <= bytes@.len() && bytes@.subrange(
            at as int,
            at + magic@.len(),
        ) == magic@),
{
    if magic.len() > bytes.len() - at {
        return false;
    }
    let n = magic.len();
    let blen = bytes.len();
    for i in 0..n
        invariant
            n == magic@.len(),
            blen == bytes@.len(),
            at + magic@.len() <= bytes@.len(),
            forall|j: int| 0 <= j < i ==> bytes@[at + j] == magic@[j],
    {
        assert(at + i < bytes@.len());
        if bytes[at + i] != magic[i] {
            assert(bytes@.subrange(at as int, at + magic@.len())[i as int] != magic@[i as int]);
            return false;
        }
    }
    assert(bytes@.subrange(at as int, at + magic@.len()) =~= magic@);
    true
}

/// The format of cover bytes, from their signature.
pub fn sniff_image_format(bytes: &[u8]) -> (r: Option<ImageFormat>)
    ensures
        r == sniff_spec(bytes@),
{
    let jpeg: [u8; 2] = [0xFF, 0xD8];
    let png: [u8; 4] = [0x89, 0x50, 0x4E, 0x47];
    let riff: [u8; 4] = [0x52, 0x49, 0x46, 0x46];
    let webp: [u8; 4] = [0x57, 0x45, 0x42, 0x50];
    let gif: [u8; 4] = [0x47, 0x49, 0x46, 0x38];
    let bmp: [u8; 2] = [0x42, 0x4D];
    assert(jpeg@ =~= seq![0xFFu8, 0xD8u8]);
    assert(png@ =~= seq![0x89u8, 0x50u8, 0x4Eu8, 0x47u8]);
    assert(riff@ =~= seq![0x52u8, 0x49u8, 0x46u8, 0x46u8]);
    assert(webp@ =~= seq![0x57u8, 0x45u8, 0x42u8, 0x50u8]);
    assert(gif@ =~= seq![0x47u8, 0x49u8, 0x46u8, 0x38u8]);
    assert(bmp@ =~= seq![0x42u8, 0x4Du8]);
    if begins_with(bytes, 0, &jpeg) {
        Some(ImageFormat::Jpeg)
    } else if begins_with(bytes, 0, &png) {
        Some(ImageFormat::Png)
    } else if bytes.len() > 12 && begins_with(bytes, 0, &riff) && begins_with(bytes, 8, &webp) {
        Some(ImageFormat::Webp)
    } else if begins_with(bytes, 0, &gif) {
        Some(ImageFormat::Gif)
    } else if begins_with(bytes, 0, &bmp) {
        Some(ImageFormat::Bmp)
    } else {
        None
    }
}

} // verus!
