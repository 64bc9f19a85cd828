use pawse::footer::toggle_queue;
use pawse::models::lyrics_source::{is_disk_derived, EMBEDDED, LRC, LRCLIB};
use pawse::models::RemoteSyncReport;
use pawse::thumbnail::{generate_thumbnails, ThumbnailError};

#[test]
fn the_queue_button_flips_the_queue() {
    let mut shown = false;
    assert!(toggle_queue(&mut shown).show);
    assert!(shown);
    assert!(!toggle_queue(&mut shown).show);
    assert!(!shown);
}

#[test]
fn only_lyrics_read_from_files_are_disk_derived() {
    assert!(is_disk_derived(LRC));
    assert!(is_disk_derived(EMBEDDED));
    assert!(!is_disk_derived(LRCLIB));
    assert!(!is_disk_derived("LRC"));
}

#[test]
fn a_sync_changed_something_when_any_count_moved() {
    let quiet = RemoteSyncReport::default();
    assert!(!quiet.changed());
    let mut report = RemoteSyncReport { total: 10, ..Default::default() };
    assert!(!report.changed());
    report.revived = 1;
    assert!(report.changed());
    let back = RemoteSyncReport { became_available: true, ..Default::default() };
    assert!(back.changed());
}

#[test]
fn garbage_bytes_yield_no_thumbnails() {
    assert!(matches!(generate_thumbnails(b"not an image"), Err(ThumbnailError::Decode(_))));
}

#[test]
fn a_png_yields_two_jpeg_thumbnails() {
    let img = image::DynamicImage::ImageRgba8(image::RgbaImage::from_pixel(
        40,
        30,
        image::Rgba([200, 10, 10, 255]),
    ));
    let mut png = std::io::Cursor::new(Vec::new());
    img.write_to(&mut png, image::ImageFormat::Png).unwrap();
    let thumbs = match generate_thumbnails(png.get_ref()) {
        Ok(t) => t,
        Err(_) => panic!("a valid PNG gives thumbnails"),
    };
    assert_eq!(&thumbs.small[..2], &[0xFF, 0xD8]);
    assert_eq!(&thumbs.large[..2], &[0xFF, 0xD8]);
    let small = image::load_from_memory(&thumbs.small).unwrap();
    let large = image::load_from_memory(&thumbs.large).unwrap();
    assert_eq!((small.width(), small.height()), (128, 128));
    assert_eq!((large.width(), large.height()), (320, 320));
}

fn png_of(img: image::RgbaImage) -> Vec<u8> {
    let mut png = std::io::Cursor::new(Vec::new());
    image::DynamicImage::ImageRgba8(img).write_to(&mut png, image::ImageFormat::Png).unwrap();
    png.into_inner()
}

#[test]
fn a_cover_tile_comes_out_with_red_and_blue_swapped() {
    let mut img = image::RgbaImage::new(2, 1);
    img.put_pixel(0, 0, image::Rgba([1, 2, 3, 4]));
    img.put_pixel(1, 0, image::Rgba([10, 20, 30, 40]));
    let tile = pawse::cover_art_cache::decode_cover_tile(&png_of(img)).unwrap();
    assert_eq!(tile, vec![3, 2, 1, 4, 30, 20, 10, 40]);
    assert!(pawse::cover_art_cache::decode_cover_tile(b"not an image").is_none());
}

#[test]
fn a_cover_raster_is_the_square_of_its_colours() {
    let img = image::RgbaImage::from_pixel(3, 2, image::Rgba([40, 80, 120, 255]));
    let raster = pawse::cover_skin::cover_raster(&png_of(img)).unwrap();
    assert_eq!(raster.len(), 64 * 64 * 3);
    assert!(raster.chunks(3).all(|p| p == [40, 80, 120]));
    assert!(pawse::cover_skin::cover_raster(&[]).is_none());
}
