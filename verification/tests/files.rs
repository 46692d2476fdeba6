//! Canvas file compression, checks on loaded canvases, and the pixel
//! conversions of image export and import.

use splatter_iron::canvas::Canvas;
use splatter_iron::canvas::DirtyRectList;
use splatter_iron::canvas::Layer;
use splatter_iron::files::canvas_from_rgba;
use splatter_iron::files::check_loaded_canvas;
use splatter_iron::files::compress_canvas_data;
use splatter_iron::files::decompress_canvas_data;
use splatter_iron::files::export_pixels;
use splatter_iron::files::rgba_to_rgb;
use splatter_iron::files::widen_to_u16;
use splatter_iron::files::Compression;
use splatter_iron::pixel::Color32;

fn canvas_of(width: u32, height: u32, layers: Vec<usize>) -> Canvas {
    Canvas {
        pixels: layers
            .into_iter()
            .map(|n| Layer { pixels: vec![Color32::transparent(); n], ..Default::default() })
            .collect(),
        height,
        width,
        output_rgba: Vec::new(),
        dirty_rect: DirtyRectList::new(),
        render_next_frame: false,
    }
}

/// Data that is not zstd-compressed is refused.
#[test]
fn invalid_data_returns_error() {
    let bad = b"this is not zstd-compressed json";
    assert!(decompress_canvas_data(bad, Compression::Zstd).is_err());
}

/// Empty data is refused.
#[test]
fn empty_data_returns_error() {
    assert!(decompress_canvas_data(&[], Compression::Zstd).is_err());
}

/// Corrupted data is refused.
#[test]
fn decompress_corrupted_data_errors() {
    let corrupted = b"this is not valid zstd compressed data at all!!!";
    assert!(decompress_canvas_data(corrupted, Compression::Zstd).is_err());
}

/// A zstd frame with a valid header and a bad body is refused.
#[test]
fn decompress_partially_corrupted_zstd_errors() {
    let mut buf = Vec::new();
    buf.extend_from_slice(&[0x28, 0xB5, 0x2F, 0xFD]);
    buf.push(0x00);
    buf.extend_from_slice(&[0xDE, 0xAD, 0xBE, 0xEF]);
    assert!(decompress_canvas_data(&buf, Compression::Zstd).is_err());
}

/// Compressing and decompressing gives the data back, for both formats.
#[test]
fn compression_roundtrip_both_formats() {
    let data: Vec<u8> = (0..5000u32).map(|i| (i % 251) as u8).collect();
    for kind in [Compression::Zstd, Compression::Xz] {
        let packed = compress_canvas_data(&data, kind).expect("compress");
        assert_ne!(packed, data);
        let unpacked = decompress_canvas_data(&packed, kind).expect("decompress");
        assert_eq!(unpacked, data);
    }
}

/// zstd data is not xz data.
#[test]
fn xz_refuses_zstd_data() {
    let packed = compress_canvas_data(b"{}", Compression::Zstd).expect("compress");
    assert!(decompress_canvas_data(&packed, Compression::Xz).is_err());
}

/// A loaded canvas of zero width is refused.
#[test]
fn load_zero_width_canvas_rejected() {
    let r = check_loaded_canvas(canvas_of(0, 1, vec![1]));
    assert_eq!(r.err(), Some("invalid canvas dimensions: 0x1".to_string()), "zero-width canvas should be rejected");
}

/// A loaded canvas of zero height is refused.
#[test]
fn load_zero_height_canvas_rejected() {
    let r = check_loaded_canvas(canvas_of(1, 0, vec![0]));
    assert!(r.is_err(), "zero-height canvas should be rejected");
}

/// A loaded canvas with a layer of the wrong size is refused.
#[test]
fn load_wrong_layer_size_rejected() {
    let r = check_loaded_canvas(canvas_of(2, 2, vec![4, 2]));
    assert_eq!(
        r.err(),
        Some("layer 1: expected 4 pixels, got 2".to_string()),
        "mismatched layer pixel count should be rejected"
    );
}

/// A sound loaded canvas is kept and asks for a full blend.
#[test]
fn load_sound_canvas_accepted() {
    let mut c = canvas_of(2, 2, vec![4, 4]);
    c.dirty_rect.add(splatter_iron::canvas::DirtyRect::new(0, 0, 1, 1));
    let ok = check_loaded_canvas(c).expect("sound canvas");
    assert_eq!(ok.pixels.len(), 2);
    assert!(ok.dirty_rect.is_empty());
}

/// An image without pixels cannot be exported.
#[test]
fn export_zero_width_fails() {
    let rgba = vec![0u8; 16];
    assert_eq!(export_pixels(&rgba, 0, 2, false).err(), Some("cannot export an image with zero pixels".to_string()));
}

/// Export converts premultiplied pixels to straight alpha; JPEG export
/// composites over white.
#[test]
fn export_png_semi_transparent() {
    let rgba = vec![64, 32, 16, 128, 255, 0, 0, 255];
    let png = export_pixels(&rgba, 2, 1, false).expect("png");
    assert_eq!(png, vec![127, 63, 31, 128, 255, 0, 0, 255]);
    let jpeg = export_pixels(&rgba, 2, 1, true).expect("jpeg");
    assert_eq!(jpeg, vec![191, 159, 143, 255, 255, 0, 0, 255]);
}

/// RGBA to RGB drops every fourth byte; widening scales each value to 16
/// bits.
#[test]
fn rgb_and_wide_conversions() {
    assert_eq!(rgba_to_rgb(&vec![1, 2, 3, 4, 5, 6, 7, 8]), vec![1, 2, 3, 5, 6, 7]);
    assert_eq!(widen_to_u16(&vec![0, 7, 255]), vec![0u16, 1799, 65535]);
}

/// An imported image becomes a one-layer canvas of premultiplied pixels.
#[test]
fn import_rgba_as_canvas() {
    let rgba = vec![255, 0, 0, 255, 200, 100, 50, 0];
    let c = canvas_from_rgba(2, 1, &rgba);
    assert_eq!((c.width, c.height), (2, 1));
    assert_eq!(c.pixels.len(), 1);
    assert_eq!(c.pixels[0].pixels[0], Color32::from_rgba_premultiplied(255, 0, 0, 255));
    assert_eq!(c.pixels[0].pixels[1].a(), 0);
}

/// Imported straight-alpha pixels are premultiplied exactly once.
#[test]
fn import_premultiplies_once() {
    let rgba = vec![200, 100, 50, 128];
    let c = canvas_from_rgba(1, 1, &rgba);
    let p = c.pixels[0].pixels[0];
    assert_eq!((p.r(), p.g(), p.b(), p.a()), (100, 50, 25, 128));
}
