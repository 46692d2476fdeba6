//! Placing sampled stamps: tinting, where a stamp lands, and painting it.

use splatter_iron::canvas::DirtyRect;
use splatter_iron::pixel::Color32;
use splatter_iron::tools::stamp_brush::paint_stamp_block;
use splatter_iron::tools::stamp_brush::stamp_block;
use splatter_iron::tools::stamp_brush::tint;
use splatter_iron::undo::RunSegment;

fn px(v: u8) -> Color32 {
    Color32::from_rgba_premultiplied(v, v, v, 255)
}

/// Tinting multiplies every channel and truncates.
#[test]
fn tint_multiplies_channels() {
    let p = Color32::from_rgba_premultiplied(200, 100, 50, 255);
    let c = Color32::from_rgba_premultiplied(128, 255, 0, 128);
    assert_eq!(tint(p, c), Color32::from_rgba_premultiplied(100, 100, 0, 128));
}

/// A stamp's block is centred on its position and clipped to the canvas.
#[test]
fn stamp_block_centred_and_clipped() {
    let b = stamp_block(5, 5, 4, 3, 10, 10).expect("on canvas");
    assert_eq!((b.out_left, b.out_top), (3, 4));
    assert_eq!((b.left, b.top, b.right, b.bottom), (3, 4, 6, 6));
    let c = stamp_block(0, 0, 5, 5, 10, 10).expect("corner");
    assert_eq!((c.out_left, c.out_top), (-2, -2));
    assert_eq!((c.left, c.top, c.right, c.bottom), (0, 0, 2, 2));
    assert!(stamp_block(30, 3, 4, 4, 10, 10).is_none());
}

/// Painting a block writes its samples, skips pixels this stroke
/// already painted, and records runs of the old pixels.
#[test]
fn paint_block_skips_visited_and_records_runs() {
    let mut pixels: Vec<Color32> = (0..16).map(|i| px(i as u8)).collect();
    let old = pixels.clone();
    let b = stamp_block(1, 1, 3, 2, 4, 4).expect("block");
    assert_eq!((b.left, b.top, b.right, b.bottom), (0, 0, 2, 1));
    let samples: Vec<Color32> = (0..6).map(|i| px(100 + i as u8)).collect();
    let mut visited = vec![0u32; 16];
    visited[1] = 7;
    let mut drag = Vec::new();
    let mut runs: Vec<RunSegment> = Vec::new();
    let mut dirty = DirtyRect::empty();
    paint_stamp_block(&mut pixels, 4, b, &samples, px(0), false, false, &mut visited, 7, &mut drag, 0, &mut runs, &mut dirty);
    assert_eq!(pixels[0], px(100));
    assert_eq!(pixels[1], old[1]);
    assert_eq!(pixels[2], px(102));
    assert_eq!(pixels[4], px(103));
    assert_eq!(pixels[6], px(105));
    assert_eq!(pixels[3], old[3]);
    let spans: Vec<(u32, u32)> = runs.iter().map(|r| (r.start, r.length)).collect();
    assert_eq!(spans, vec![(0, 1), (2, 1), (4, 3)]);
    assert_eq!(visited[0..7].to_vec(), vec![7, 7, 7, 0, 7, 7, 7]);
    assert_eq!((dirty.min_x, dirty.min_y, dirty.max_x, dirty.max_y), (0, 0, 2, 1));
}

/// In alpha-overlay mode the samples are blended, tinted first, and each
/// pixel is blended once per drag.
#[test]
fn paint_block_alpha_overlay_once_per_drag() {
    let mut pixels = vec![px(255); 4];
    let b = stamp_block(0, 0, 1, 1, 2, 2).expect("block");
    let samples = vec![Color32::from_rgba_premultiplied(128, 0, 0, 128)];
    let mut visited = vec![0u32; 4];
    let mut drag = vec![0u32; 4];
    let mut runs = Vec::new();
    let mut dirty = DirtyRect::empty();
    paint_stamp_block(&mut pixels, 2, b, &samples, px(255), true, true, &mut visited, 1, &mut drag, 3, &mut runs, &mut dirty);
    let once = pixels[0];
    assert_ne!(once, px(255));
    assert_eq!(drag[0], 3);
    let mut visited2 = vec![0u32; 4];
    paint_stamp_block(&mut pixels, 2, b, &samples, px(255), true, true, &mut visited2, 2, &mut drag, 3, &mut runs, &mut dirty);
    assert_eq!(pixels[0], once);
    assert_eq!(runs.len(), 1);
}
