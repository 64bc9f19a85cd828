use pawse::cover_mode_view::{sniff_image_format, ImageFormat};

#[test]
fn sniffs_known_formats() {
    assert!(matches!(sniff_image_format(&[0xFF, 0xD8, 0xFF, 0xE0]), Some(ImageFormat::Jpeg)));
    assert!(matches!(sniff_image_format(b"\x89PNG\r\n\x1a\n"), Some(ImageFormat::Png)));
    assert!(matches!(sniff_image_format(b"RIFF\x10\x00\x00\x00WEBPVP8 "), Some(ImageFormat::Webp)));
    assert!(matches!(sniff_image_format(b"GIF89a"), Some(ImageFormat::Gif)));
    assert!(matches!(sniff_image_format(b"BM\x36\x00"), Some(ImageFormat::Bmp)));
}

#[test]
fn rejects_unknown_and_truncated() {
    assert!(sniff_image_format(b"").is_none());
    assert!(sniff_image_format(b"hello world").is_none());
    assert!(sniff_image_format(b"RIFF\x10\x00\x00\x00WAVE").is_none());
    assert!(sniff_image_format(b"RIFF\x10\x00WEBP").is_none());
    assert!(sniff_image_format(&[0x89]).is_none());
}

#[test]
fn a_webp_needs_bytes_after_its_header() {
    assert!(sniff_image_format(b"RIFF\x10\x00\x00\x00WEBP").is_none());
    assert_eq!(sniff_image_format(b"RIFF\x10\x00\x00\x00WEBPV"), Some(ImageFormat::Webp));
}
