//! Run-length capture of stroke pixels and applying undo records.

use splatter_iron::canvas::Canvas;
use splatter_iron::canvas::DirtyRectList;
use splatter_iron::canvas::Layer;
use splatter_iron::pixel::Color32;
use splatter_iron::tools::square_brush::draw_square;
use splatter_iron::undo::compress_run;
use splatter_iron::undo::redo_apply;
use splatter_iron::undo::undo_apply;
use splatter_iron::undo::BeforePixels;
use splatter_iron::undo::UndoRecord;

fn red() -> Color32 {
    Color32::from_rgba_premultiplied(255, 0, 0, 255)
}

fn green() -> Color32 {
    Color32::from_rgba_premultiplied(0, 255, 0, 255)
}

fn blue() -> Color32 {
    Color32::from_rgba_premultiplied(0, 0, 255, 255)
}

fn white() -> Color32 {
    Color32::from_rgba_premultiplied(255, 255, 255, 255)
}

/// A 10 x 10 canvas of one opaque white layer.
fn small_white_canvas() -> Canvas {
    Canvas {
        pixels: vec![Layer { pixels: vec![white(); 100], ..Default::default() }],
        height: 10,
        width: 10,
        output_rgba: Vec::new(),
        dirty_rect: DirtyRectList::new(),
        render_next_frame: false,
    }
}

/// Runs no longer than the threshold are kept pixel by pixel.
#[test]
fn compress_run_short_returns_many() {
    let pixels = vec![red(); 4];
    let (before, length) = compress_run(pixels.clone());
    assert_eq!(length, 4);
    assert!(matches!(before, BeforePixels::Many(_)));
}

/// Long uniform runs are kept as one colour.
#[test]
fn compress_run_uniform_long_returns_all() {
    let pixels = vec![green(); 20];
    let (before, length) = compress_run(pixels);
    assert_eq!(length, 20);
    let BeforePixels::All(c) = before else { panic!("expected All") };
    assert_eq!(c, green());
}

/// Long mixed runs are kept pixel by pixel.
#[test]
fn compress_run_mixed_long_returns_many() {
    let pixels: Vec<Color32> = (0..20).map(|i| if i % 2 == 0 { red() } else { blue() }).collect();
    let (before, length) = compress_run(pixels);
    assert_eq!(length, 20);
    assert!(matches!(before, BeforePixels::Many(_)));
}

/// A run exactly at the threshold is short.
#[test]
fn compress_run_threshold_boundary() {
    let uniform = vec![red(); 8];
    let (before, length) = compress_run(uniform);
    assert_eq!(length, 8, "len 8 should be short → Many");
    assert!(matches!(before, BeforePixels::Many(_)));
}

/// A uniform run just above the threshold is kept as one colour.
#[test]
fn compress_run_just_above_threshold() {
    let uniform = vec![red(); 9];
    let (before, length) = compress_run(uniform);
    assert_eq!(length, 9);
    assert!(matches!(before, BeforePixels::All(_)));
}

/// Undo restores the pixels present before the stroke.
#[test]
fn undo_apply_restores_before_pixels() {
    let mut canvas = small_white_canvas();
    let original = canvas.pixels[0].pixels[0];
    let record = draw_square(0, 0, 5, 5, &mut canvas, red(), 0, false);
    assert_eq!(canvas.pixels[0].pixels[0], red(), "square changed pixel");
    undo_apply(&mut canvas, &record);
    assert_eq!(canvas.pixels[0].pixels[0], original, "undo restored pixel");
}

/// Redo paints the stroke colour again.
#[test]
fn redo_apply_reapplies_color() {
    let mut canvas = small_white_canvas();
    let record = draw_square(0, 0, 5, 5, &mut canvas, red(), 0, false);
    undo_apply(&mut canvas, &record);
    redo_apply(&mut canvas, &record);
    assert_eq!(canvas.pixels[0].pixels[0], red());
}

/// Undo, redo and undo again end where the first undo did.
#[test]
fn undo_redo_full_roundtrip() {
    let mut canvas = small_white_canvas();
    let original = canvas.pixels[0].pixels[0];
    let record = draw_square(0, 0, 5, 5, &mut canvas, red(), 0, false);
    undo_apply(&mut canvas, &record);
    assert_eq!(canvas.pixels[0].pixels[0], original);
    redo_apply(&mut canvas, &record);
    assert_eq!(canvas.pixels[0].pixels[0], red());
    undo_apply(&mut canvas, &record);
    assert_eq!(canvas.pixels[0].pixels[0], original);
}

/// A square stroke gives a `Run` record.
#[test]
fn undo_record_is_runs_variant() {
    let mut canvas = small_white_canvas();
    let record = draw_square(2, 2, 7, 7, &mut canvas, red(), 0, false);
    assert!(matches!(record, UndoRecord::Run { .. }));
}

/// A square of no area records no run.
#[test]
fn empty_square_produces_empty_runs() {
    let mut canvas = small_white_canvas();
    let record = draw_square(5, 5, 5, 5, &mut canvas, red(), 0, false);
    let UndoRecord::Run { runs, .. } = &record else { panic!("expected Run") };
    assert!(runs.is_empty(), "zero-area rect should produce no runs");
}

/// An empty run has length 0 and is kept pixel by pixel.
#[test]
fn compress_run_empty_returns_many() {
    let (before, length) = compress_run(Vec::new());
    assert_eq!(length, 0);
    assert!(matches!(before, BeforePixels::Many(_)));
}

/// Redo of an alpha-overlay stroke blends as the stroke did.
#[test]
fn redo_apply_alpha_overlay_blends() {
    let mut canvas = small_white_canvas();
    let semi = Color32::from_rgba_premultiplied(128, 0, 0, 128);
    let record = draw_square(0, 0, 5, 5, &mut canvas, semi, 0, true);
    let after_draw = canvas.pixels[0].pixels[0];
    undo_apply(&mut canvas, &record);
    assert_eq!(canvas.pixels[0].pixels[0], white());
    redo_apply(&mut canvas, &record);
    assert_eq!(canvas.pixels[0].pixels[0], after_draw, "redo blend matches original blend");
}

/// Uniform rows are stored as one colour and restored by undo.
#[test]
fn undo_apply_before_pixels_all_restores() {
    let mut canvas = small_white_canvas();
    let record = draw_square(0, 0, 10, 10, &mut canvas, red(), 0, false);
    let UndoRecord::Run { runs, .. } = &record else { panic!("expected Run") };
    for run in runs {
        assert!(matches!(run.before, BeforePixels::All(_)), "uniform run should compress to All");
    }
    undo_apply(&mut canvas, &record);
    assert_eq!(canvas.pixels[0].pixels[0], white());
    assert_eq!(canvas.pixels[0].pixels[99], white());
}

/// Several undos and redos compose.
#[test]
fn multiple_undos_stack() {
    let mut canvas = small_white_canvas();
    let r1 = draw_square(0, 0, 3, 3, &mut canvas, red(), 0, false);
    let r2 = draw_square(3, 3, 6, 6, &mut canvas, blue(), 0, false);

    undo_apply(&mut canvas, &r2);
    assert_eq!(canvas.pixels[0].pixels[0], red(), "first square still present");
    assert_eq!(canvas.pixels[0].pixels[33], white(), "second square area restored after undo");

    undo_apply(&mut canvas, &r1);
    assert_eq!(canvas.pixels[0].pixels[0], white(), "all pixels restored after both undos");

    redo_apply(&mut canvas, &r1);
    redo_apply(&mut canvas, &r2);
    assert_eq!(canvas.pixels[0].pixels[0], red(), "first square reapplied");
    assert_eq!(canvas.pixels[0].pixels[33], blue(), "second square reapplied");
}

/// Undo of a stroke restores every pixel of the layer, not just the first.
#[test]
fn undo_restores_every_pixel_of_mixed_layer() {
    let mut canvas = small_white_canvas();
    for i in 0..100 {
        canvas.pixels[0].pixels[i] = Color32::from_rgba_premultiplied(i as u8, 0, 0, 255);
    }
    let before = canvas.pixels[0].pixels.clone();
    let record = draw_square(1, 2, 8, 9, &mut canvas, green(), 0, false);
    assert_ne!(canvas.pixels[0].pixels, before);
    undo_apply(&mut canvas, &record);
    assert_eq!(canvas.pixels[0].pixels, before);
    redo_apply(&mut canvas, &record);
    let mut expected = before.clone();
    for y in 2..9 {
        for x in 1..8 {
            expected[y * 10 + x] = green();
        }
    }
    assert_eq!(canvas.pixels[0].pixels, expected);
}
