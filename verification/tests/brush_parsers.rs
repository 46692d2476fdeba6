//! GIMP and Photoshop brush files.

use splatter_iron::pixel::Color32;
use splatter_iron::tools::brush_parsers::abr_blocks;
use splatter_iron::tools::brush_parsers::has_png_signature;
use splatter_iron::tools::brush_parsers::is_raw_image_size_plausible;
use splatter_iron::tools::brush_parsers::parse_abr;
use splatter_iron::tools::brush_parsers::parse_brush_data;
use splatter_iron::tools::brush_parsers::parse_computed_params;
use splatter_iron::tools::brush_parsers::parse_gbr;
use splatter_iron::tools::brush_parsers::AbrBlockKind;
use splatter_iron::tools::brush_parsers::BrushTip;
use splatter_iron::tools::brush_parsers::ComputedParams;

/// Stands in for the shape rasteriser: a fully opaque square tip of the
/// brush's diameter with its spacing.
fn stub_rasterise(p: ComputedParams) -> BrushTip {
    let d = p.diameter;
    BrushTip {
        name: String::new(),
        pixels: vec![Color32::from_rgba_premultiplied(255, 255, 255, 255); (d * d) as usize],
        width: d,
        height: d,
        spacing: p.spacing as u8,
    }
}

/// Build a valid GBR v2 byte buffer for a 2×2 RGBA brush.
fn make_gbr_v2_rgba() -> Vec<u8> {
    let mut buf = Vec::new();
    buf.extend_from_slice(b"GIMP");
    // Version "2.1 " (4-byte string) — common in GIMP 2.10+
    buf.extend_from_slice(b"2.1 ");
    // Width = 2, Height = 2 (u32 BE)
    buf.extend_from_slice(&2u32.to_be_bytes());
    buf.extend_from_slice(&2u32.to_be_bytes());
    // Bytes per pixel = 4 (RGBA)
    buf.extend_from_slice(&4u32.to_be_bytes());
    // Spacing = 20 (u32 BE)
    buf.extend_from_slice(&20u32.to_be_bytes());
    // Pixel data: 4 pixels, RGBA straight-alpha
    // Red   (255, 0, 0, 255)
    // Green (0, 255, 0, 255)
    // Blue  (0, 0, 255, 255)
    // White (255, 255, 255, 128)
    buf.extend_from_slice(&[255, 0, 0, 255]);
    buf.extend_from_slice(&[0, 255, 0, 255]);
    buf.extend_from_slice(&[0, 0, 255, 255]);
    buf.extend_from_slice(&[255, 255, 255, 128]);
    buf
}

/// Build a valid GBR v2 grayscale byte buffer.
fn make_gbr_v2_gray() -> Vec<u8> {
    let mut buf = Vec::new();
    buf.extend_from_slice(b"GIMP");
    buf.extend_from_slice(b"2.1 ");
    buf.extend_from_slice(&2u32.to_be_bytes());
    buf.extend_from_slice(&2u32.to_be_bytes());
    buf.extend_from_slice(&1u32.to_be_bytes()); // 1 byte per pixel
    buf.extend_from_slice(&15u32.to_be_bytes()); // spacing 15
    // Grayscale values (opacity): 0, 128, 255, 64
    buf.extend_from_slice(&[0, 128, 255, 64]);
    buf
}

/// Build a GBR v1 byte buffer (no spacing field).
fn make_gbr_v1() -> Vec<u8> {
    let mut buf = Vec::new();
    buf.extend_from_slice(b"GIMP");
    buf.extend_from_slice(&1u32.to_be_bytes()); // version 1
    buf.extend_from_slice(&1u32.to_be_bytes()); // width = 1
    buf.extend_from_slice(&1u32.to_be_bytes()); // height = 1
    buf.extend_from_slice(&4u32.to_be_bytes()); // bpp = 4
    // No spacing field in v1
    buf.extend_from_slice(&[64, 128, 192, 255]); // single pixel
    buf
}

/// Parse a valid GBR v2 RGBA brush and verify dimensions + pixel count.
#[test]
fn parse_gbr_v2_rgba_basic() {
    let buf = make_gbr_v2_rgba();
    let tips = parse_gbr(&buf).expect("should parse valid GBR v2 RGBA");
    assert_eq!(tips.len(), 1);
    let tip = &tips[0];
    assert_eq!(tip.width, 2);
    assert_eq!(tip.height, 2);
    assert_eq!(tip.pixels.len(), 4);
    assert_eq!(tip.spacing, 20);
}

/// Verify RGBA pixel values: count, ordering, and premultiplied format.
#[test]
fn parse_gbr_v2_rgba_pixels() {
    let buf = make_gbr_v2_rgba();
    let tips = parse_gbr(&buf).expect("should parse");
    let tip = &tips[0];
    assert_eq!(tip.pixels.len(), 4);
    // Each pixel must be premultiplied: R ≤ A, G ≤ A, B ≤ A
    for (i, p) in tip.pixels.iter().enumerate() {
        assert!(p.r() <= p.a(), "pixel {i}: R must be ≤ A (premultiplied)");
        assert!(p.g() <= p.a(), "pixel {i}: G must be ≤ A (premultiplied)");
        assert!(p.b() <= p.a(), "pixel {i}: B must be ≤ A (premultiplied)");
    }
    // Pixel 0 is fully opaque red → (255,0,0,255)
    assert_eq!(tip.pixels[0].to_array(), [255, 0, 0, 255]);
    // Pixel 2 is fully opaque blue → (0,0,255,255)
    assert_eq!(tip.pixels[2].to_array(), [0, 0, 255, 255]);
    // Pixel 3: white at alpha 128 → premultiplied (128,128,128,128)
    assert_eq!(tip.pixels[3].to_array(), [128, 128, 128, 128]);
}

/// Parse a grayscale GBR brush.
#[test]
fn parse_gbr_v2_grayscale() {
    let buf = make_gbr_v2_gray();
    let tips = parse_gbr(&buf).expect("should parse grayscale GBR");
    let tip = &tips[0];
    assert_eq!(tip.width, 2);
    assert_eq!(tip.height, 2);
    assert_eq!(tip.spacing, 15);
    // Grayscale value 128 → white at alpha 128 → premultiplied (128,128,128,128)
    let p1 = tip.pixels[1];
    assert!(p1.r() == p1.g() && p1.g() == p1.b());
    assert_eq!(p1.a(), 128);
    assert_ne!(p1.r(), 0);
    // Grayscale value 0 → fully transparent
    let p0 = tip.pixels[0];
    assert_eq!(p0.a(), 0);
}

/// Parse a GBR v1 file (no spacing).
#[test]
fn parse_gbr_v1() {
    let buf = make_gbr_v1();
    let tips = parse_gbr(&buf).expect("should parse GBR v1");
    let tip = &tips[0];
    assert_eq!(tip.width, 1);
    assert_eq!(tip.height, 1);
    // v1 defaults to spacing 25
    assert_eq!(tip.spacing, 25);
}

/// Invalid magic should return an error.
#[test]
fn parse_gbr_invalid_magic() {
    let buf = b"NOTGIMP...".to_vec();
    assert!(parse_gbr(&buf).is_err());
}

/// Truncated file should return an error.
#[test]
fn parse_gbr_truncated() {
    let buf = b"GIMP".to_vec();
    assert!(parse_gbr(&buf).is_err());
}

/// Zero dimensions should return an error.
#[test]
fn parse_gbr_zero_dimensions() {
    let mut buf = Vec::new();
    buf.extend_from_slice(b"GIMP");
    buf.extend_from_slice(&2u32.to_be_bytes());
    buf.extend_from_slice(&0u32.to_be_bytes()); // width = 0
    buf.extend_from_slice(&0u32.to_be_bytes()); // height = 0
    buf.extend_from_slice(&4u32.to_be_bytes());
    buf.extend_from_slice(&25u32.to_be_bytes());
    assert!(parse_gbr(&buf).is_err());
}

/// Unsupported bpp should return an error.
#[test]
fn parse_gbr_unsupported_bpp() {
    let mut buf = Vec::new();
    buf.extend_from_slice(b"GIMP");
    buf.extend_from_slice(&2u32.to_be_bytes());
    buf.extend_from_slice(&2u32.to_be_bytes());
    buf.extend_from_slice(&2u32.to_be_bytes());
    buf.extend_from_slice(&3u32.to_be_bytes()); // bpp = 3 (unsupported)
    buf.extend_from_slice(&25u32.to_be_bytes());
    assert!(parse_gbr(&buf).is_err());
}

// ---------------------------------------------------------------------------
// ABR parser tests (Photoshop Brush, versions 6–10)
// ---------------------------------------------------------------------------

/// Build a minimal ABR v6 file with a single raw-BGRA sampled brush (2x2).
fn make_abr_v6_bgra() -> Vec<u8> {
    let bgra: [u8; 16] = [
        0, 0, 255, 255, 0, 255, 0, 255, 255, 0, 0, 255, 255, 255, 255, 128,
    ];
    let mut block_data = Vec::new();
    block_data.extend_from_slice(b"data");
    block_data.extend_from_slice(&16u32.to_be_bytes());
    block_data.extend_from_slice(&bgra);
    let block_size = block_data.len() as u32;
    let mut buf = Vec::new();
    buf.extend_from_slice(b"8BPB");
    buf.extend_from_slice(&6u16.to_be_bytes());
    buf.extend_from_slice(&1u16.to_be_bytes());
    buf.extend_from_slice(&[0u8; 4]);
    buf.extend_from_slice(&[0u8; 2]);
    buf.extend_from_slice(b"8BIM");
    buf.extend_from_slice(&1u16.to_be_bytes());
    buf.extend_from_slice(&block_size.to_be_bytes());
    buf.extend_from_slice(&[0u8; 4]);
    buf.extend_from_slice(&block_data);
    buf
}

/// Build a minimal ABR v6 file with one computed round brush (diam=6).
fn make_abr_v6_computed_round() -> Vec<u8> {
    let mut block_data = Vec::new();
    block_data.extend_from_slice(b"diam");
    block_data.extend_from_slice(&2u32.to_be_bytes());
    block_data.extend_from_slice(&6u16.to_be_bytes());
    block_data.extend_from_slice(b"shpe");
    block_data.extend_from_slice(&2u32.to_be_bytes());
    block_data.extend_from_slice(&0u16.to_be_bytes());
    let block_size = block_data.len() as u32;
    let mut buf = Vec::new();
    buf.extend_from_slice(b"8BPB");
    buf.extend_from_slice(&6u16.to_be_bytes());
    buf.extend_from_slice(&1u16.to_be_bytes());
    buf.extend_from_slice(&[0u8; 4]);
    buf.extend_from_slice(&[0u8; 2]);
    buf.extend_from_slice(b"8BIM");
    buf.extend_from_slice(&2u16.to_be_bytes());
    buf.extend_from_slice(&block_size.to_be_bytes());
    buf.extend_from_slice(&[0u8; 4]);
    buf.extend_from_slice(&block_data);
    buf
}

/// Build an ABR v6 file with two computed brush subblocks (round + square).
fn make_abr_v6_multi() -> Vec<u8> {
    let mut block1 = Vec::new();
    block1.extend_from_slice(b"diam");
    block1.extend_from_slice(&2u32.to_be_bytes());
    block1.extend_from_slice(&6u16.to_be_bytes());
    block1.extend_from_slice(b"shpe");
    block1.extend_from_slice(&2u32.to_be_bytes());
    block1.extend_from_slice(&0u16.to_be_bytes());
    let size1 = block1.len() as u32;
    let mut block2 = Vec::new();
    block2.extend_from_slice(b"diam");
    block2.extend_from_slice(&2u32.to_be_bytes());
    block2.extend_from_slice(&4u16.to_be_bytes());
    block2.extend_from_slice(b"shpe");
    block2.extend_from_slice(&2u32.to_be_bytes());
    block2.extend_from_slice(&1u16.to_be_bytes());
    let size2 = block2.len() as u32;
    let mut buf = Vec::new();
    buf.extend_from_slice(b"8BPB");
    buf.extend_from_slice(&6u16.to_be_bytes());
    buf.extend_from_slice(&2u16.to_be_bytes());
    buf.extend_from_slice(&[0u8; 4]);
    buf.extend_from_slice(&[0u8; 2]);
    buf.extend_from_slice(b"8BIM");
    buf.extend_from_slice(&2u16.to_be_bytes());
    buf.extend_from_slice(&size1.to_be_bytes());
    buf.extend_from_slice(&[0u8; 4]);
    buf.extend_from_slice(&block1);
    buf.extend_from_slice(b"8BIM");
    buf.extend_from_slice(&2u16.to_be_bytes());
    buf.extend_from_slice(&size2.to_be_bytes());
    buf.extend_from_slice(&[0u8; 4]);
    buf.extend_from_slice(&block2);
    buf
}

#[test]
fn parse_abr_invalid_magic() {
    assert!(parse_abr(b"XXXX", stub_rasterise).is_err());
}

#[test]
fn parse_abr_truncated() {
    assert!(parse_abr(b"8BPB", stub_rasterise).is_err());
}

#[test]
fn parse_abr_unsupported_version() {
    let mut buf = Vec::new();
    buf.extend_from_slice(b"8BPB");
    buf.extend_from_slice(&5u16.to_be_bytes());
    buf.extend_from_slice(&1u16.to_be_bytes());
    buf.extend_from_slice(&[0u8; 4]);
    buf.extend_from_slice(&[0u8; 2]);
    assert!(parse_abr(&buf, stub_rasterise).is_err());
}

#[test]
fn parse_abr_sampled_bgra() {
    let buf = make_abr_v6_bgra();
    let tips = parse_abr(&buf, stub_rasterise).expect("should parse ABR v6 BGRA sampled");
    assert_eq!(tips.len(), 1);
    let tip = &tips[0];
    assert_eq!(tip.pixels.len(), 4);
    assert_eq!(tip.spacing, 25);
    for (i, p) in tip.pixels.iter().enumerate() {
        assert!(p.r() <= p.a(), "sampled pixel {i}: R must be ≤ A");
    }
    assert_eq!(tip.pixels[0].to_array(), [255, 0, 0, 255]);
    assert_eq!(tip.pixels[1].to_array(), [0, 255, 0, 255]);
    assert_eq!(tip.pixels[2].to_array(), [0, 0, 255, 255]);
    assert_eq!(tip.pixels[3].to_array(), [128, 128, 128, 128]);
}

#[test]
fn parse_abr_computed_round() {
    let buf = make_abr_v6_computed_round();
    let tips = parse_abr(&buf, stub_rasterise).expect("should parse computed round brush");
    assert_eq!(tips.len(), 1);
    let tip = &tips[0];
    assert_eq!(tip.width, 6);
    assert_eq!(tip.height, 6);
    assert_eq!(tip.pixels.len(), 36);
    let center = tip.pixels[(3 * tip.width + 3) as usize];
    assert_eq!(center.a(), 255, "round brush center should be opaque");
}

#[test]
fn parse_abr_computed_square() {
    let buf = make_abr_v6_multi();
    let tips = parse_abr(&buf, stub_rasterise).expect("should parse multi-subblock ABR");
    let square = &tips[1];
    assert_eq!(square.width, 4);
    assert_eq!(square.height, 4);
    assert_eq!(square.pixels.len(), 16);
}

#[test]
fn parse_abr_multi_subblock() {
    let buf = make_abr_v6_multi();
    let tips = parse_abr(&buf, stub_rasterise).expect("should parse multi-subblock ABR");
    assert_eq!(tips.len(), 2);
    assert_eq!(tips[0].width, 6);
    assert_eq!(tips[1].width, 4);
}

#[test]
fn parse_abr_empty_no_tips() {
    let mut buf = Vec::new();
    buf.extend_from_slice(b"8BPB");
    buf.extend_from_slice(&6u16.to_be_bytes());
    buf.extend_from_slice(&0u16.to_be_bytes());
    buf.extend_from_slice(&[0u8; 4]);
    buf.extend_from_slice(&[0u8; 2]);
    assert!(parse_abr(&buf, stub_rasterise).is_err(), "no subblocks should error");
}

#[test]
fn parse_abr_computed_default_spacing() {
    let buf = make_abr_v6_computed_round();
    let tips = parse_abr(&buf, stub_rasterise).expect("should parse");
    assert_eq!(tips[0].spacing, 25);
}

#[test]
fn parse_abr_computed_explicit_spacing() {
    let mut block_data = Vec::new();
    block_data.extend_from_slice(b"diam");
    block_data.extend_from_slice(&2u32.to_be_bytes());
    block_data.extend_from_slice(&6u16.to_be_bytes());
    block_data.extend_from_slice(b"spac");
    block_data.extend_from_slice(&2u32.to_be_bytes());
    block_data.extend_from_slice(&10u16.to_be_bytes());
    block_data.extend_from_slice(b"shpe");
    block_data.extend_from_slice(&2u32.to_be_bytes());
    block_data.extend_from_slice(&0u16.to_be_bytes());
    let block_size = block_data.len() as u32;
    let mut buf = Vec::new();
    buf.extend_from_slice(b"8BPB");
    buf.extend_from_slice(&6u16.to_be_bytes());
    buf.extend_from_slice(&1u16.to_be_bytes());
    buf.extend_from_slice(&[0u8; 4]);
    buf.extend_from_slice(&[0u8; 2]);
    buf.extend_from_slice(b"8BIM");
    buf.extend_from_slice(&2u16.to_be_bytes());
    buf.extend_from_slice(&block_size.to_be_bytes());
    buf.extend_from_slice(&[0u8; 4]);
    buf.extend_from_slice(&block_data);
    let tips = parse_abr(&buf, stub_rasterise).expect("should parse with explicit spacing");
    assert_eq!(tips[0].spacing, 10);
}


/// An unsupported extension is refused.
#[test]
fn parse_brush_file_unsupported_format() {
    let result = parse_brush_data("xyz", "test", b"dummy", stub_rasterise);
    assert!(result.is_err());
    assert!(result.unwrap_err().contains("Unsupported brush format"));
}

/// A GIMP brush file gives one tip named after the file stem.
#[test]
fn parse_brush_file_gbr_single_tip_named_by_stem() {
    let gbr_data = make_gbr_v2_rgba();
    let tips = parse_brush_data("gbr", "my_brush", &gbr_data, stub_rasterise).expect("parse gbr");
    assert_eq!(tips.len(), 1);
    assert_eq!(tips[0].name, "my_brush");
    assert_eq!(tips[0].width, 2);
    assert_eq!(tips[0].height, 2);
}

/// Several tips of one file are numbered after the stem.
#[test]
fn parse_brush_data_abr_tips_numbered() {
    let tips = parse_brush_data("abr", "set", &make_abr_v6_multi(), stub_rasterise).expect("parse abr");
    assert_eq!(tips.len(), 2);
    assert_eq!(tips[0].name, "set_0");
    assert_eq!(tips[1].name, "set_1");
}

/// The block list of a Photoshop brush file names each brush subblock.
#[test]
fn abr_blocks_lists_subblocks() {
    let (version, blocks) = abr_blocks(&make_abr_v6_multi()).expect("header");
    assert_eq!(version, 6);
    assert_eq!(blocks.len(), 2);
    assert_eq!(blocks[0].kind, AbrBlockKind::Computed);
    assert_eq!(blocks[0].payload_start, 28);
    assert_eq!(blocks[0].size, 20);
    assert_eq!(blocks[1].payload_start, 62);
}

/// Unknown version errors give the version number.
#[test]
fn parse_abr_version_message() {
    let mut buf = Vec::new();
    buf.extend_from_slice(b"8BPB");
    buf.extend_from_slice(&11u16.to_be_bytes());
    buf.extend_from_slice(&[0u8; 8]);
    assert_eq!(parse_abr(&buf, stub_rasterise).unwrap_err(), "Unsupported ABR version: 11 (only 6–10 supported)");
}

/// Computed-brush parameters are read from their tags and clamped.
#[test]
fn computed_params_tags_and_clamps() {
    let mut d = Vec::new();
    for (tag, val) in [(b"diam", 0u16), (b"hrad", 20000), (b"rond", 100), (b"angl", 400), (b"spac", 0), (b"shpe", 9)] {
        d.extend_from_slice(tag);
        d.extend_from_slice(&2u32.to_be_bytes());
        d.extend_from_slice(&val.to_be_bytes());
    }
    let p = parse_computed_params(&d);
    assert_eq!(p.diameter, 1);
    assert_eq!(p.hardness, 16383);
    assert_eq!(p.roundness, 100);
    assert_eq!(p.angle, 40);
    assert_eq!(p.spacing, 1);
    assert_eq!(p.shape, 3);
    let q = parse_computed_params(&[]);
    assert_eq!((q.diameter, q.hardness, q.roundness, q.angle, q.spacing, q.shape), (64, 16383, 16383, 0, 25, 0));
}

/// The raw-image size check and the PNG signature check.
#[test]
fn raw_size_and_png_signature() {
    assert!(is_raw_image_size_plausible(16));
    assert!(!is_raw_image_size_plausible(12));
    assert!(!is_raw_image_size_plausible(18));
    assert!(is_raw_image_size_plausible(256 * 256 * 4));
    assert!(!is_raw_image_size_plausible(256 * 256 * 4 + 4));
    assert!(has_png_signature(&[0x89, b'P', b'N', b'G', 0x0d, 0x0a, 0x1a, 0x0a, 0]));
    assert!(!has_png_signature(b"GIMP"));
}

/// A GIMP brush with a grey pixel gives white at that alpha, premultiplied.
#[test]
fn parse_gbr_grayscale_exact_pixels() {
    let tips = parse_gbr(&make_gbr_v2_gray()).expect("parse");
    let px: Vec<[u8; 4]> = tips[0].pixels.iter().map(|p| p.to_array()).collect();
    assert_eq!(px[0], [0, 0, 0, 0]);
    assert_eq!(px[2], [255, 255, 255, 255]);
    assert_eq!(px[1][3], 128);
}
