use imageviewer::media::{decode, is_supported, DecodeError, DecodedImage, ImageFormat};

fn encoded(format: image::ImageFormat, width: u32, height: u32, rgb: [u8; 3]) -> Vec<u8> {
    let buffer = image::RgbImage::from_pixel(width, height, image::Rgb(rgb));
    let mut bytes = std::io::Cursor::new(Vec::new());
    buffer.write_to(&mut bytes, format).expect("encode image");
    bytes.into_inner()
}

#[test]
fn extensions_map_to_formats_case_insensitively() {
    assert_eq!(ImageFormat::from_extension("PNG"), Some(ImageFormat::Png));
    assert_eq!(ImageFormat::from_extension("Jpg"), Some(ImageFormat::Jpeg));
    assert_eq!(ImageFormat::from_extension("jpeg"), Some(ImageFormat::Jpeg));
    assert_eq!(ImageFormat::from_extension("bmp"), None);
}

#[test]
fn every_format_has_a_decoder_for_itself() {
    for format in ImageFormat::ALL {
        assert_eq!(format.decoder().format(), format);
    }
}

#[test]
fn every_listed_extension_selects_its_format() {
    for format in ImageFormat::ALL {
        for extension in format.extensions() {
            assert_eq!(ImageFormat::from_extension(extension), Some(format));
            assert_eq!(
                ImageFormat::from_extension(&extension.to_ascii_uppercase()),
                Some(format)
            );
        }
    }
}

#[test]
fn support_follows_the_extension() {
    assert!(is_supported("/tmp/a.PNG"));
    assert!(!is_supported("/tmp/a.gif"));
    assert!(!is_supported("/tmp/a"));
}

#[test]
fn png_decodes_to_bgra_at_the_right_size() {
    // Distinct channels so a swapped or dropped one is obvious.
    let bytes = encoded(image::ImageFormat::Png, 7, 3, [10, 20, 30]);

    let decoded = decode("a.png", &bytes).expect("decodes");
    assert_eq!((decoded.width(), decoded.height()), (7, 3));
    // The renderer uploads BGRA, so blue comes first and alpha is opaque.
    assert_eq!(decoded.pixel(0, 0), [30, 20, 10, 255]);
    assert_eq!(decoded.pixel(6, 2), [30, 20, 10, 255]);
}

#[test]
fn jpeg_decodes_to_bgra() {
    let bytes = encoded(image::ImageFormat::Jpeg, 16, 16, [200, 40, 90]);

    let decoded = decode("a.jpg", &bytes).expect("decodes");
    assert_eq!((decoded.width(), decoded.height()), (16, 16));
    let [b, g, r, a] = decoded.pixel(8, 8);
    assert_eq!(a, 255);
    // JPEG is lossy, so allow a small deviation per channel.
    assert!(r.abs_diff(200) < 12, "red was {r}");
    assert!(g.abs_diff(40) < 12, "green was {g}");
    assert!(b.abs_diff(90) < 12, "blue was {b}");
}

#[test]
fn a_corrupt_file_fails_instead_of_panicking() {
    let bytes = b"\x89PNG\r\n\x1a\nnot really a png";
    assert_eq!(decode("broken.png", bytes).err(), Some(DecodeError::Undecodable));
}

#[test]
fn contents_are_never_sniffed_past_the_extension() {
    // A JPEG named .png must fail rather than be displayed, so that the
    // extension stays the single source of truth for the decoder table.
    let bytes = encoded(image::ImageFormat::Jpeg, 8, 8, [1, 2, 3]);
    assert!(decode("mislabelled.png", &bytes).is_err());
    assert!(decode("real.jpg", &bytes).is_ok());
}

#[test]
fn an_unsupported_extension_is_refused_before_decoding() {
    let bytes = encoded(image::ImageFormat::Png, 2, 2, [1, 2, 3]);
    assert_eq!(decode("a.gif", &bytes).err(), Some(DecodeError::UnsupportedExtension));
    assert_eq!(decode("noext", &bytes).err(), Some(DecodeError::UnsupportedExtension));
}

#[test]
fn rgba_becomes_bgra_pixel_by_pixel() {
    let image = DecodedImage::from_rgba(2, 1, vec![1, 2, 3, 4, 5, 6, 7, 8]);
    assert_eq!(image.pixel(0, 0), [3, 2, 1, 4]);
    assert_eq!(image.pixel(1, 0), [7, 6, 5, 8]);
    assert_eq!(image.into_bgra(), (2, 1, vec![3, 2, 1, 4, 7, 6, 5, 8]));
}

#[test]
fn full_paths_are_judged_by_their_file_name() {
    assert_eq!(ImageFormat::from_path("/tmp/a.png"), Some(ImageFormat::Png));
    assert_eq!(ImageFormat::from_path("pics/2024.05/a.JPEG"), Some(ImageFormat::Jpeg));
    assert_eq!(ImageFormat::from_path("/tmp/.png"), None);
    assert_eq!(ImageFormat::from_path("/a.png/readme"), None);
    assert!(is_supported("dir/sub/a.jpg"));
    assert!(!is_supported("dir.png/a"));
}

#[test]
fn an_image_inside_a_folder_decodes() {
    let bytes = encoded(image::ImageFormat::Png, 7, 3, [10, 20, 30]);
    let decoded = decode("/pictures/holiday/a.png", &bytes).expect("decodes");
    assert_eq!((decoded.width(), decoded.height()), (7, 3));
    assert_eq!(decoded.pixel(6, 2), [30, 20, 10, 255]);
    let jpeg = encoded(image::ImageFormat::Jpeg, 8, 8, [200, 40, 90]);
    assert!(decode("/pictures/mislabelled.png", &jpeg).is_err());
    assert_eq!(decode("/pictures.png/noext", &bytes).err(), Some(DecodeError::UnsupportedExtension));
}

#[test]
fn windows_style_paths_are_judged_by_their_last_segment() {
    assert_eq!(ImageFormat::from_path(r"C:\Users\me\a.png"), Some(ImageFormat::Png));
    assert!(is_supported(r"C:\Pictures\holiday\b.JPG"));
    assert_eq!(ImageFormat::from_path(r"C:\dir.png\noext"), None);
    assert!(!is_supported(r"pics\notes.txt"));
}
