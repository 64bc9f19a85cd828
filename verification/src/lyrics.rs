//! Lyrics are stored zlib-compressed.
use vstd::prelude::*;
use std::io::{Read, Write};

verus! {

/// What a zlib stream gives back when it is decompressed and read as UTF-8
/// text: `None` where it is no complete zlib stream or no UTF-8.
pub uninterp spec fn inflated_text(blob: Seq<u8>) -> Option<Seq<char>>;

pub open spec fn opt_text(s: Option<String>) -> Option<Seq<char>> {
    match s {
        Some(t) => Some(t@),
        None => None,
    }
}

/// `flate2::write::ZlibEncoder` at the default level over the UTF-8 bytes of
/// `text`, finished into a `Vec`. Writing to a `Vec` does not fail, and zlib
/// is lossless: the contract claims that the stream decompresses to `text`;
/// which bytes the stream holds is left unsaid.
#[verifier::external_body]
fn zlib_compress(text: &str) -> (r: Vec<u8>)
    ensures
        inflated_text(r@) == Some(text@),
{
    let mut encoder = flate2::write::ZlibEncoder::new(Vec::new(), flate2::Compression::default());
    let _ = encoder.write_all(text.as_bytes());
    encoder.finish().unwrap_or_default()
}

/// `flate2::read::ZlibDecoder` read to the end as a `String`; `None` on a
/// read error, which covers a broken stream and bytes that are no UTF-8.
#[verifier::external_body]
fn zlib_decompress(blob: &[u8]) -> (r: Option<String>)
    ensures
        opt_text(r) == inflated_text(blob@),
{
    let mut out = String::new();
    match flate2::read::ZlibDecoder::new(blob).read_to_string(&mut out) {
        Ok(_) => Some(out),
        Err(_) => None,
    }
}

/// The stored form of lyrics: a zlib stream that decompresses to `text`.
pub fn compress_lyrics(text: &str) -> (r: Vec<u8>)
    ensures
        inflated_text(r@) == Some(text@),
{
    zlib_compress(text)
}

/// The text of stored lyrics, or `None` where the blob is no zlib stream of
/// UTF-8 text.
pub fn decompress_lyrics(blob: &[u8]) -> (r: Option<String>)
    ensures
        opt_text(r) == inflated_text(blob@),
{
    zlib_decompress(blob)
}

} // verus!
