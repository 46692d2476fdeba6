//! Encoding exported pixels as image files: each format's encoder writes
//! its own header, and a lossless file reads back as the same pixels.

use splatter_iron::app_state::ExportFormat;
use splatter_iron::files::canvas_from_image_bytes;
use splatter_iron::image_export::encode_export_image;
use splatter_iron::pixel::Color32;

/// Two by two straight-alpha pixels: red, green, blue and a
/// half-transparent grey.
fn sample() -> Vec<u8> {
    vec![255, 0, 0, 255, 0, 255, 0, 255, 0, 0, 255, 255, 100, 100, 100, 128]
}

/// The half-transparent grey premultiplied, as ecolor does it.
fn grey() -> Color32 {
    let c = ecolor::Color32::from_rgba_unmultiplied(100, 100, 100, 128);
    Color32::from_rgba_premultiplied(c.r(), c.g(), c.b(), c.a())
}

fn encoded(format: ExportFormat) -> Vec<u8> {
    let bytes = encode_export_image(format, &sample(), 2, 2).expect("encodes");
    assert_ne!(bytes, sample());
    bytes
}

#[test]
fn png_export_has_signature_and_reads_back() {
    let bytes = encoded(ExportFormat::Png);
    assert_eq!(&bytes[0..8], &[0x89, b'P', b'N', b'G', 0x0d, 0x0a, 0x1a, 0x0a]);
    let canvas = canvas_from_image_bytes(&bytes).expect("decodes");
    assert_eq!((canvas.width, canvas.height), (2, 2));
    assert_eq!(canvas.pixels[0].pixels[0], Color32::from_rgba_premultiplied(255, 0, 0, 255));
    assert_eq!(canvas.pixels[0].pixels[3], grey());
}

#[test]
fn jpeg_export_is_a_jpeg_of_the_same_size() {
    let bytes = encoded(ExportFormat::Jpeg);
    assert_eq!(&bytes[0..2], &[0xff, 0xd8]);
    let canvas = canvas_from_image_bytes(&bytes).expect("decodes");
    assert_eq!((canvas.width, canvas.height), (2, 2));
}

#[test]
fn webp_export_is_lossless() {
    let bytes = encoded(ExportFormat::WebP);
    assert_eq!(&bytes[0..4], b"RIFF");
    assert_eq!(&bytes[8..12], b"WEBP");
    let canvas = canvas_from_image_bytes(&bytes).expect("decodes");
    assert_eq!(canvas.pixels[0].pixels[1], Color32::from_rgba_premultiplied(0, 255, 0, 255));
}

#[test]
fn gif_export_has_header() {
    let bytes = encoded(ExportFormat::Gif);
    assert_eq!(&bytes[0..6], b"GIF89a");
    assert_eq!(*bytes.last().expect("trailer"), 0x3b);
}

#[test]
fn tiff_export_reads_back() {
    let bytes = encoded(ExportFormat::Tiff);
    assert!(&bytes[0..4] == b"II*\0" || &bytes[0..4] == b"MM\0*");
    let canvas = canvas_from_image_bytes(&bytes).expect("decodes");
    assert_eq!(canvas.pixels[0].pixels[2], Color32::from_rgba_premultiplied(0, 0, 255, 255));
}

#[test]
fn tga_export_is_true_colour() {
    let bytes = encoded(ExportFormat::Tga);
    assert!(bytes[2] == 2 || bytes[2] == 10);
    assert_eq!(u16::from_le_bytes([bytes[12], bytes[13]]), 2);
}

#[test]
fn ico_export_has_icon_header() {
    let bytes = encoded(ExportFormat::Ico);
    assert_eq!(&bytes[0..4], &[0, 0, 1, 0]);
}

#[test]
fn pnm_export_is_pam() {
    let bytes = encoded(ExportFormat::Pnm);
    assert_eq!(&bytes[0..2], b"P7");
}

#[test]
fn qoi_export_reads_back() {
    let bytes = encoded(ExportFormat::Qoi);
    assert_eq!(&bytes[0..4], b"qoif");
    let canvas = canvas_from_image_bytes(&bytes).expect("decodes");
    assert_eq!(canvas.pixels[0].pixels[3], grey());
}

#[test]
fn farbfeld_export_widens_samples() {
    let bytes = encoded(ExportFormat::Farbfeld);
    assert_eq!(&bytes[0..8], b"farbfeld");
    assert_eq!(u32::from_be_bytes([bytes[8], bytes[9], bytes[10], bytes[11]]), 2);
    // First sample: red 255 widened to 65535, big-endian in the file.
    assert_eq!(&bytes[16..18], &[0xff, 0xff]);
    // Grey 100 widened to 25700.
    assert_eq!(u16::from_be_bytes([bytes[16 + 24], bytes[16 + 25]]), 25700);
}

#[test]
fn avif_export_has_file_type_box() {
    let bytes = encoded(ExportFormat::Avif);
    assert_eq!(&bytes[4..8], b"ftyp");
}

#[test]
fn openexr_export_of_eight_bit_pixels_is_refused() {
    assert!(encode_export_image(ExportFormat::OpenExr, &sample(), 2, 2).is_err());
}

/// An image without pixels is refused or encoded by every encoder, none
/// panics.
#[test]
fn zero_size_exports_do_not_panic() {
    for format in [
        ExportFormat::Avif,
        ExportFormat::Png,
        ExportFormat::Jpeg,
        ExportFormat::WebP,
        ExportFormat::Gif,
        ExportFormat::Tiff,
        ExportFormat::Tga,
        ExportFormat::Ico,
        ExportFormat::Pnm,
        ExportFormat::Qoi,
        ExportFormat::OpenExr,
        ExportFormat::Farbfeld,
    ] {
        for (w, h) in [(0u32, 0u32), (0, 3), (3, 0)] {
            let _ = encode_export_image(format, &Vec::new(), w, h);
        }
    }
}

/// An icon larger than 256 pixels a side is refused, not encoded.
#[test]
fn oversized_icon_is_refused() {
    let rgba = vec![0u8; 4 * 300];
    assert!(encode_export_image(ExportFormat::Ico, &rgba, 300, 1).is_err());
}
