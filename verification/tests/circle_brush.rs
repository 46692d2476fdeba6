//! Disc fills and round-brush stroke lines.

use splatter_iron::canvas::Canvas;
use splatter_iron::canvas::DirtyRect;
use splatter_iron::canvas::DirtyRectList;
use splatter_iron::canvas::Layer;
use splatter_iron::pixel::Color32;
use splatter_iron::tools::circle_brush::draw_circle;
use splatter_iron::tools::circle_brush::draw_circle_line;
use splatter_iron::tools::circle_brush::isqrt_u64;
use splatter_iron::tools::circle_brush::stamp_circle_positions;
use splatter_iron::tools::pencil::draw_pencil;
use splatter_iron::tools::pencil::draw_pencil_line;
use splatter_iron::undo::undo_apply;
use splatter_iron::undo::UndoRecord;

fn red() -> Color32 {
    Color32::from_rgba_premultiplied(255, 0, 0, 255)
}

fn blue() -> Color32 {
    Color32::from_rgba_premultiplied(0, 0, 255, 255)
}

/// A 10 x 10 canvas of one transparent layer.
fn small_canvas() -> Canvas {
    Canvas {
        pixels: vec![Layer { pixels: vec![Color32::transparent(); 100], ..Default::default() }],
        height: 10,
        width: 10,
        output_rgba: Vec::new(),
        dirty_rect: DirtyRectList::new(),
        render_next_frame: false,
    }
}

// --- draw_circle ---

/// `draw_circle` should fill the region at the specified center.
#[test]
fn draw_circle_fills_radius_one() {
    let mut canvas = small_canvas();
    draw_circle(5, 5, 1, &mut canvas, red(), 0, false);
    // Center pixel should be colored
    assert_eq!(canvas.pixels[0].pixels[5 * 10 + 5], red(), "center pixel");
    // Neighbors within radius 1 should be filled
    assert_eq!(canvas.pixels[0].pixels[4 * 10 + 5], red(), "above center");
    assert_eq!(canvas.pixels[0].pixels[6 * 10 + 5], red(), "below center");
    assert_eq!(canvas.pixels[0].pixels[5 * 10 + 4], red(), "left of center");
    assert_eq!(
        canvas.pixels[0].pixels[5 * 10 + 6],
        red(),
        "right of center"
    );
}

/// Pixels outside the circle should remain transparent.
#[test]
fn draw_circle_leaves_outside_unchanged() {
    let mut canvas = small_canvas();
    draw_circle(5, 5, 2, &mut canvas, red(), 0, false);
    // Far corner should be transparent
    assert_eq!(canvas.pixels[0].pixels[0], Color32::transparent());
}

/// Drawing a circle at radius 0 returns an empty undo record (no-op).
#[test]
fn draw_circle_radius_zero() {
    let mut canvas = small_canvas();
    draw_circle(5, 5, 0, &mut canvas, red(), 0, false);
    assert_eq!(
        canvas.pixels[0].pixels[5 * 10 + 5],
        Color32::transparent(),
        "no pixel colored at radius 0"
    );
}

/// A circle centered at origin with radius should not panic.
#[test]
fn draw_circle_at_origin() {
    let mut canvas = small_canvas();
    draw_circle(0, 0, 3, &mut canvas, red(), 0, false);
    assert_eq!(canvas.pixels[0].pixels[0], red(), "origin pixel");
}

/// Drawing on different layers should independently modify each layer.
#[test]
fn draw_circle_multi_layer() {
    let mut canvas = Canvas {
        pixels: vec![
            Layer {
                pixels: vec![Color32::transparent(); 100],
                ..Default::default()
            },
            Layer {
                pixels: vec![Color32::transparent(); 100],
                ..Default::default()
            },
        ],
        height: 10,
        width: 10,
        output_rgba: Vec::new(),
        dirty_rect: DirtyRectList::new(),
        render_next_frame: false,
    };
    draw_circle(2, 2, 1, &mut canvas, red(), 0, false);
    draw_circle(7, 7, 1, &mut canvas, blue(), 1, false);
    assert_eq!(
        canvas.pixels[0].pixels[2 * 10 + 2],
        red(),
        "layer 0 has red"
    );
    assert_eq!(
        canvas.pixels[1].pixels[7 * 10 + 7],
        blue(),
        "layer 1 has blue"
    );
}

// --- draw_circle_line ---

/// A horizontal circle-brush line should color pixels at both endrag_processedoints.
#[test]
fn draw_circle_line_horizontal() {
    let mut canvas = small_canvas();
    let mut visited = vec![0u32; 100];
    let mut drag_processed = Vec::new();
    draw_circle_line(
        1, 5, 8, 5, 0, &mut canvas, red(), 0, &mut visited, 1, false,
        &mut drag_processed, 0,
    );
    assert_eq!(canvas.pixels[0].pixels[5 * 10 + 1], red(), "start");
    assert_eq!(canvas.pixels[0].pixels[5 * 10 + 8], red(), "end");
}

/// A vertical circle-brush line should color pixels at both endrag_processedoints.
#[test]
fn draw_circle_line_vertical() {
    let mut canvas = small_canvas();
    let mut visited = vec![0u32; 100];
    let mut drag_processed = Vec::new();
    draw_circle_line(
        5, 1, 5, 8, 0, &mut canvas, red(), 0, &mut visited, 1, false,
        &mut drag_processed, 0,
    );
    assert_eq!(canvas.pixels[0].pixels[1 * 10 + 5], red(), "start");
    assert_eq!(canvas.pixels[0].pixels[8 * 10 + 5], red(), "end");
}

/// A diagonal circle-brush line should color pixels at both endrag_processedoints.
#[test]
fn draw_circle_line_diagonal() {
    let mut canvas = small_canvas();
    let mut visited = vec![0u32; 100];
    let mut drag_processed = Vec::new();
    draw_circle_line(
        1, 1, 8, 8, 0, &mut canvas, red(), 0, &mut visited, 1, false,
        &mut drag_processed, 0,
    );
    assert_eq!(canvas.pixels[0].pixels[1 * 10 + 1], red(), "start");
    assert_eq!(canvas.pixels[0].pixels[8 * 10 + 8], red(), "end");
}

/// Different stamp values should produce independent brush lines.
#[test]
fn draw_circle_line_different_stamps_dont_interfere() {
    let mut canvas = small_canvas();
    let mut visited = vec![0u32; 100];
    let mut drag_processed = Vec::new();
    draw_circle_line(
        1, 1, 3, 1, 0, &mut canvas, red(), 0, &mut visited, 1, false,
        &mut drag_processed, 0,
    );
    draw_circle_line(
        6, 6, 8, 6, 0, &mut canvas, blue(), 0, &mut visited, 2, false,
        &mut drag_processed, 0,
    );
    assert_eq!(canvas.pixels[0].pixels[1 * 10 + 1], red(), "stamp 1");
    assert_eq!(canvas.pixels[0].pixels[6 * 10 + 6], blue(), "stamp 2");
}

/// Circle brush radius should affect the area covered around the cursor.
#[test]
fn draw_circle_line_brush_radius() {
    let mut canvas = small_canvas();
    let mut visited = vec![0u32; 100];
    let mut drag_processed = Vec::new();
    draw_circle_line(
        5, 5, 5, 5, 3, &mut canvas, red(), 0, &mut visited, 1, false,
        &mut drag_processed, 0,
    );
    // Center and nearby should be colored
    assert_eq!(canvas.pixels[0].pixels[5 * 10 + 5], red(), "center");
    assert_eq!(canvas.pixels[0].pixels[4 * 10 + 5], red(), "above center");
    assert_eq!(canvas.pixels[0].pixels[5 * 10 + 4], red(), "left of center");
}

/// Drawing at the canvas edge with a large circle brush should not panic.
#[test]
fn draw_circle_line_clamps_to_canvas() {
    let mut canvas = small_canvas();
    let mut visited = vec![0u32; 100];
    let mut drag_processed = Vec::new();
    draw_circle_line(
        0, 0, 0, 0, 5, &mut canvas, red(), 0, &mut visited, 1, false,
        &mut drag_processed, 0,
    );
    assert_eq!(canvas.pixels[0].pixels[0], red(), "corner colored");
}

// --- Alpha overlay ---

/// Alpha overlay mode for `draw_circle` should blend instead of overwriting.
#[test]
fn draw_circle_alpha_overlay_blends() {
    let mut canvas = small_canvas();
    // Pre-fill pixel at center with opaque white
    canvas.pixels[0].pixels[5 * 10 + 5] = Color32::from_rgba_premultiplied(255, 255, 255, 255);
    let semi_red = Color32::from_rgba_premultiplied(128, 0, 0, 128);
    draw_circle(5, 5, 1, &mut canvas, semi_red, 0, true);
    let blended = canvas.pixels[0].pixels[5 * 10 + 5];
    // Blended result should differ from both pure white and pure semi_red
    assert_ne!(
        blended,
        Color32::from_rgba_premultiplied(255, 255, 255, 255),
        "alpha overlay changed pixel"
    );
    assert_ne!(blended, semi_red, "alpha overlay blended, not replaced");
}

/// Alpha overlay mode for `draw_circle_line` should blend instead of overwriting.
#[test]
fn draw_circle_line_alpha_overlay_blends() {
    let mut canvas = small_canvas();
    canvas.pixels[0].pixels[5 * 10 + 1] = Color32::from_rgba_premultiplied(255, 255, 255, 255);
    let mut visited = vec![0u32; 100];
    let mut drag_processed = vec![0u32; 100];
    let semi_red = Color32::from_rgba_premultiplied(128, 0, 0, 128);
    draw_circle_line(
        1, 5, 1, 5, 0, &mut canvas, semi_red, 0, &mut visited, 1, true,
        &mut drag_processed, 1,
    );
    let blended = canvas.pixels[0].pixels[5 * 10 + 1];
    assert_ne!(
        blended,
        Color32::from_rgba_premultiplied(255, 255, 255, 255),
        "alpha overlay changed pixel"
    );
    assert_ne!(blended, semi_red, "alpha overlay blended");
}

/// A circle center clamped to the canvas edge should still produce runs
/// (drawn at the nearest valid pixel).
#[test]
fn draw_circle_clamped_to_edge_produces_runs() {
    let mut canvas = small_canvas();
    // Center at (100, 100) — well outside the 10x10 canvas, clamped to (9, 9)
    let record = draw_circle(100, 100, 5, &mut canvas, red(), 0, false);
    let runs = match &record {
        UndoRecord::Run { runs, .. } => runs,
        _ => unreachable!("draw_circle always produces Run"),
    };
    assert!(!runs.is_empty(), "clamped circle should produce runs");
}

// --------------------------------------------------
//  Regression: semi-transparent premultiplied color
// --------------------------------------------------

/// Semi-transparent premultiplied circle must be stored as-is (not double-premultiplied).
#[test]
fn draw_circle_preserves_premultiplied_semi_transparent() {
    let mut canvas = small_canvas();
    let semi = Color32::from_rgba_premultiplied(128, 64, 32, 128);
    draw_circle(5, 5, 1, &mut canvas, semi, 0, false);
    assert_eq!(
        canvas.pixels[0].pixels[5 * 10 + 5],
        semi,
        "center pixel should store exact premultiplied color"
    );
    assert_eq!(
        canvas.pixels[0].pixels[5 * 10 + 5].r(),
        128,
        "r must not be darkend"
    );
}

/// Semi-transparent premultiplied circle line must be stored as-is.
#[test]
fn draw_circle_line_preserves_premultiplied_semi_transparent() {
    let mut canvas = small_canvas();
    let mut visited = vec![0u32; 100];
    let mut drag_processed = Vec::new();
    let semi = Color32::from_rgba_premultiplied(128, 64, 32, 128);
    draw_circle_line(
        2, 5, 7, 5, 0, &mut canvas, semi, 0, &mut visited, 1, false,
        &mut drag_processed, 0,
    );
    assert_eq!(canvas.pixels[0].pixels[5 * 10 + 2], semi);
    assert_eq!(canvas.pixels[0].pixels[5 * 10 + 2].r(), 128);
}


/// The integer square root is the floor of the real one.
#[test]
fn isqrt_exact_values() {
    assert_eq!(isqrt_u64(0), 0);
    assert_eq!(isqrt_u64(1), 1);
    assert_eq!(isqrt_u64(15), 3);
    assert_eq!(isqrt_u64(16), 4);
    assert_eq!(isqrt_u64(17), 4);
    assert_eq!(isqrt_u64(0x3fff_ffff_ffff_ffff), 2_147_483_647);
    for n in 0..2000u64 {
        let s = isqrt_u64(n);
        assert!(s * s <= n && (s + 1) * (s + 1) > n, "n = {n}");
    }
}

/// A disc of radius 2 covers exactly the pixels within distance 2 of
/// its centre.
#[test]
fn draw_circle_radius_two_exact_disc() {
    let mut canvas = small_canvas();
    draw_circle(5, 5, 2, &mut canvas, red(), 0, false);
    for y in 0..10i32 {
        for x in 0..10i32 {
            let inside = (x - 5) * (x - 5) + (y - 5) * (y - 5) <= 4;
            assert_eq!(canvas.pixels[0].pixels[(y * 10 + x) as usize] == red(), inside, "({x}, {y})");
        }
    }
}

/// A round stamp line marks the union of the discs along the line.
#[test]
fn stamp_circle_positions_marks_discs() {
    let mut visited = vec![0u32; 100];
    let mut dirty = DirtyRect::empty();
    stamp_circle_positions(2, 5, 7, 5, 1, 10, 10, &mut visited, 9, &mut dirty);
    for y in 0..10i32 {
        for x in 0..10i32 {
            let inside = (2..=7).any(|cx| (x - cx) * (x - cx) + (y - 5) * (y - 5) <= 1);
            assert_eq!(visited[(y * 10 + x) as usize] == 9, inside, "({x}, {y})");
        }
    }
    assert_eq!((dirty.min_x, dirty.min_y, dirty.max_x, dirty.max_y), (1, 4, 8, 6));
}

/// Undoing a round stroke line restores the layer.
#[test]
fn draw_circle_line_undo_restores_layer() {
    let mut canvas = small_canvas();
    let mut visited = vec![0u32; 100];
    let mut drag_processed = Vec::new();
    let record = draw_circle_line(1, 2, 8, 7, 2, &mut canvas, red(), 0, &mut visited, 4, false, &mut drag_processed, 0);
    assert!(canvas.pixels[0].pixels.iter().any(|p| *p == red()));
    undo_apply(&mut canvas, &record);
    assert!(canvas.pixels[0].pixels.iter().all(|p| *p == Color32::transparent()));
}

/// The pencil paints as the round brush does.
#[test]
fn pencil_matches_round_brush() {
    let mut a = small_canvas();
    let mut b = small_canvas();
    draw_pencil(4, 4, 2, &mut a, red(), 0, false);
    draw_circle(4, 4, 2, &mut b, red(), 0, false);
    assert_eq!(a.pixels[0].pixels, b.pixels[0].pixels);
    let mut visited_a = vec![0u32; 100];
    let mut visited_b = vec![0u32; 100];
    let mut drag = Vec::new();
    draw_pencil_line(0, 0, 9, 3, 1, &mut a, blue(), 0, &mut visited_a, 1, false, &mut drag, 0);
    draw_circle_line(0, 0, 9, 3, 1, &mut b, blue(), 0, &mut visited_b, 1, false, &mut drag, 0);
    assert_eq!(a.pixels[0].pixels, b.pixels[0].pixels);
}
