//! Painting the pixels a stroke stamped and recording their runs.

use splatter_iron::canvas::DirtyRect;
use splatter_iron::pixel::Color32;
use splatter_iron::tools::brush_common::apply_visited_runs;

/// `apply_visited_runs` with no visited pixels returns an empty run list.
#[test]
fn no_visited_pixels_returns_empty() {
    let mut pixels = vec![Color32::transparent(); 100];
    let dirty = DirtyRect::new(0, 0, 9, 9);
    let visited = vec![0u32; 100];
    let mut drag = vec![0u32; 100];

    let runs = apply_visited_runs(
        &mut pixels,
        &dirty,
        10,
        &visited,
        1,
        Color32::from_rgba_premultiplied(255, 0, 0, 255),
        false,
        &mut drag,
        0,
    );
    assert!(runs.is_empty());
}

/// `apply_visited_runs` with all pixels visited captures the correct runs.
#[test]
fn all_visited_produces_runs() {
    let mut pixels = vec![Color32::transparent(); 4];
    let dirty = DirtyRect::new(0, 0, 1, 1);
    let visited = vec![1u32; 4];
    let mut drag = vec![0u32; 4];

    let runs = apply_visited_runs(
        &mut pixels,
        &dirty,
        2,
        &visited,
        1,
        Color32::from_rgba_premultiplied(255, 0, 0, 255),
        false,
        &mut drag,
        0,
    );
    assert_eq!(runs.len(), 2, "one run per row");
    assert_eq!(pixels.iter().filter(|p| **p == Color32::from_rgba_premultiplied(255, 0, 0, 255)).count(), 4);
}

/// `apply_visited_runs` with alpha-overlay blends correctly.
#[test]
fn alpha_overlay_blends() {
    let mut pixels = vec![Color32::from_rgba_premultiplied(255, 0, 0, 255); 4];
    let dirty = DirtyRect::new(0, 0, 1, 1);
    let visited = vec![1u32; 4];
    let mut drag = vec![0u32; 4];
    let overlay = Color32::from_rgba_premultiplied(0, 0, 255, 128);

    let runs = apply_visited_runs(
        &mut pixels,
        &dirty,
        2,
        &visited,
        1,
        overlay,
        true,
        &mut drag,
        1,
    );
    assert!(!runs.is_empty());
    // Every pixel should have been modified (blended)
    assert!(pixels.iter().all(|p| *p != Color32::from_rgba_premultiplied(255, 0, 0, 255)));
}

/// `apply_visited_runs` skips already processed pixels in alpha-overlay mode.
#[test]
fn alpha_overlay_skips_processed() {
    let mut pixels = vec![Color32::transparent(); 4];
    let dirty = DirtyRect::new(0, 0, 1, 1);
    let visited = vec![1u32; 4];
    let mut drag = vec![1u32; 4]; // all already processed
    let overlay = Color32::from_rgba_premultiplied(255, 0, 0, 255);

    let runs = apply_visited_runs(
        &mut pixels,
        &dirty,
        2,
        &visited,
        1,
        overlay,
        true,
        &mut drag,
        1,
    );
    assert!(runs.is_empty(), "all pixels already processed");
}


/// Runs follow the stamped pixels row by row, and each run keeps the
/// pixels it replaced.
#[test]
fn runs_split_at_unstamped_pixels() {
    let mut pixels: Vec<Color32> = (0..9).map(|i| Color32::from_rgba_premultiplied(i, 0, 0, 255)).collect();
    let dirty = DirtyRect::new(0, 0, 2, 2);
    let visited = vec![5, 0, 5, 5, 5, 0, 0, 0, 5];
    let mut drag = Vec::new();
    let red = Color32::from_rgba_premultiplied(255, 0, 0, 255);
    let runs = apply_visited_runs(&mut pixels, &dirty, 3, &visited, 5, red, false, &mut drag, 0);
    let starts: Vec<(u32, u32)> = runs.iter().map(|r| (r.start, r.length)).collect();
    assert_eq!(starts, vec![(0, 1), (2, 1), (3, 2), (8, 1)]);
    for i in 0..9 {
        if visited[i] == 5 {
            assert_eq!(pixels[i], red);
        } else {
            assert_eq!(pixels[i], Color32::from_rgba_premultiplied(i as u8, 0, 0, 255));
        }
    }
}
