//! Midpoint-circle span-fill brush: [`draw_circle`] paints a filled disc.

use vstd::prelude::*;

use crate::canvas::Canvas;
use crate::canvas::DirtyRect;
use crate::pixel::Color32;
use crate::tools::brush_common::lemma_row_col;
use crate::tools::brush_common::painted_by;
use crate::tools::brush_common::record_span;
use crate::canvas::empty_rect;
use crate::canvas::is_empty_spec;
use crate::tools::brush_common::apply_visited_runs;
use crate::tools::brush_common::set_range;
use crate::tools::brush_common::visited_selected;
use crate::tools::line::lemma_line_point_between;
use crate::tools::line::lemma_walk_start;
use crate::tools::line::lemma_walk_step;
use crate::tools::line::lemma_walk_unfold;
use crate::tools::line::line_points;
use crate::tools::line::walk_from;
use crate::tools::line::walk_remaining;
use crate::tools::line::walk_state;
use crate::tools::line::walk_step;
use crate::tools::line::LINE_COORD_LIMIT;
use crate::tools::square_brush::clamp_i64;
use crate::tools::square_brush::clampi;
use crate::tools::square_brush::extend_spec;
use crate::tools::square_brush::lemma_line_nonempty;
use crate::tools::square_brush::lemma_pixel_in_row;
use crate::tools::square_brush::lemma_points_nonneg;
use crate::tools::square_brush::lemma_row_below;
use crate::tools::square_brush::lemma_row_fits;
use crate::tools::square_brush::marks_dirty;
use crate::tools::square_brush::stroke_frame;
use crate::undo::covered;
use crate::undo::stroke_recorded;
use crate::undo::RunSegment;
use crate::undo::UndoRecord;

verus! {

pub open spec fn sq(v: int) -> int {
    v * v
}

/// Pixel `p` of a canvas `w` wide lies within distance `r` of `(cx, cy)`.
pub open spec fn in_disc(w: int, cx: int, cy: int, r: int, p: int) -> bool {
    w > 0 && sq(p / w - cy) + sq(p % w - cx) <= r * r
}

proof fn lemma_isqrt_range(a: int, d: int, m: int)
    requires
        0 <= d,
        d * d <= m < (d + 1) * (d + 1),
    ensures
        (a * a <= m) <==> (-d <= a <= d),
{
    if -d <= a <= d {
        assert(a * a <= d * d) by (nonlinear_arith)
            requires
                -d <= a <= d,
                0 <= d,
        ;
    } else {
        assert(a * a >= (d + 1) * (d + 1)) by (nonlinear_arith)
            requires
                a < -d || a > d,
                0 <= d,
        ;
    }
}

proof fn lemma_square_mono(a: int, b: int)
    requires
        0 <= a <= b,
    ensures
        a * a <= b * b,
{
    assert(a * a <= b * b) by (nonlinear_arith)
        requires
            0 <= a <= b,
    ;
}

proof fn lemma_row_start_fits(row: int, h: int, w: int)
    requires
        0 <= row < h,
        w > 0,
    ensures
        0 <= row * w,
        row * w + w <= w * h,
{
    vstd::arithmetic::mul::lemma_mul_is_commutative(w, h);
    vstd::arithmetic::mul::lemma_mul_inequality(row + 1, h, w);
    vstd::arithmetic::mul::lemma_mul_is_distributive_add_other_way(w, row, 1);
    vstd::arithmetic::mul::lemma_mul_nonnegative(row, w);
}

proof fn lemma_span_membership(p: int, w: int, row: int, lo: int, hi: int)
    requires
        w > 0,
        0 <= row,
        0 <= lo <= hi < w,
        0 <= p,
    ensures
        (row * w + lo <= p < row * w + hi + 1) <==> (p / w == row && lo <= p % w <= hi),
{
    crate::tools::brush_common::lemma_row_col(p, w);
    crate::tools::brush_common::lemma_row_major_order(p / w, p % w, row, lo, w);
    crate::tools::brush_common::lemma_row_major_order(p / w, p % w, row, hi + 1, w);
}

proof fn lemma_position(w: int, y: int, x: int)
    requires
        w > 0,
        0 <= y,
        0 <= x < w,
    ensures
        (y * w + x) / w == y,
        (y * w + x) % w == x,
{
    vstd::arithmetic::div_mod::lemma_fundamental_div_mod_converse(y * w + x, w, y, x);
}

proof fn lemma_rows_step(
    old_runs: Seq<RunSegment>,
    new_runs: Seq<RunSegment>,
    w: int,
    h: int,
    cx: int,
    cy: int,
    r: int,
    dy: int,
    ss: int,
    se: int,
    top_lo: int,
    top_hi: int,
    bot_lo: int,
    bot_hi: int,
)
    requires
        w > 0,
        0 <= cx < w,
        0 <= cy < h,
        0 <= dy <= r,
        0 <= ss <= se < w,
        forall|c: int| 0 <= c < w ==> (ss <= c <= se <==> #[trigger] sq(c - cx) <= r * r - dy * dy),
        cy >= dy ==> top_lo == (cy - dy) * w + ss && top_hi == (cy - dy) * w + se + 1,
        cy < dy ==> top_lo == top_hi,
        dy != 0 && cy + dy < h ==> bot_lo == (cy + dy) * w + ss && bot_hi == (cy + dy) * w + se + 1,
        !(dy != 0 && cy + dy < h) ==> bot_lo == bot_hi,
        forall|p: int|
            #[trigger] covered(new_runs, p) <==> (covered(old_runs, p) || (top_lo <= p < top_hi) || (
            bot_lo <= p < bot_hi)),
        forall|p: int|
            0 <= p < w * h ==> (#[trigger] covered(old_runs, p) <==> (-dy < p / w - cy < dy && in_disc(
                w,
                cx,
                cy,
                r,
                p,
            ))),
    ensures
        forall|p: int|
            0 <= p < w * h ==> (#[trigger] covered(new_runs, p) <==> (-(dy + 1) < p / w - cy < dy + 1
                && in_disc(w, cx, cy, r, p))),
{
    assert forall|p: int| 0 <= p < w * h implies (#[trigger] covered(new_runs, p) <==> (-(dy + 1) < p
        / w - cy < dy + 1 && in_disc(w, cx, cy, r, p))) by {
        crate::tools::brush_common::lemma_row_col(p, w);
        let q = p / w;
        let c = p % w;
        if cy >= dy {
            lemma_span_membership(p, w, cy - dy, ss, se);
        }
        if dy != 0 && cy + dy < h {
            lemma_span_membership(p, w, cy + dy, ss, se);
        }
        if q == cy - dy || q == cy + dy {
            assert(sq(q - cy) == dy * dy) by (nonlinear_arith)
                requires
                    q == cy - dy || q == cy + dy,
            ;
            if q == cy + dy && dy != 0 && cy + dy >= h {
                vstd::arithmetic::mul::lemma_mul_inequality(h, q, w);
                vstd::arithmetic::mul::lemma_mul_is_commutative(w, h);
            }
        }
    }
}

proof fn lemma_rows_done(runs: Seq<RunSegment>, w: int, h: int, cx: int, cy: int, r: int)
    requires
        w > 0,
        r >= 0,
        forall|p: int|
            0 <= p < w * h ==> (#[trigger] covered(runs, p) <==> (-(r + 1) < p / w - cy < r + 1
                && in_disc(w, cx, cy, r, p))),
    ensures
        forall|p: int| 0 <= p < w * h ==> (#[trigger] covered(runs, p) <==> in_disc(w, cx, cy, r, p)),
{
    assert forall|p: int| 0 <= p < w * h implies (#[trigger] covered(runs, p) <==> in_disc(
        w,
        cx,
        cy,
        r,
        p,
    )) by {
        let q = p / w;
        let c = p % w;
        if in_disc(w, cx, cy, r, p) && (q - cy > r || q - cy < -r) {
            assert(sq(q - cy) > r * r) by (nonlinear_arith)
                requires
                    q - cy > r || q - cy < -r,
                    r >= 0,
            ;
            assert(sq(c - cx) >= 0) by (nonlinear_arith);
        }
    }
}

/// `after` is `before` with a disc of radius `radius` painted at the
/// clamped centre (see [`draw_circle`]), and `record` records it.
/// `v` clamped to the last of `limit` positions.
pub open spec fn clamp_to_last(v: u32, limit: u32) -> int {
    if v < limit {
        v as int
    } else {
        limit - 1
    }
}

pub open spec fn disc_stroke(
    before: Canvas,
    after: Canvas,
    record: UndoRecord,
    center_x: u32,
    center_y: u32,
    radius: u32,
    color: Color32,
    layer: usize,
    alpha_overlay: bool,
) -> bool {
    let w = before.width as int;
    let h = before.height as int;
    let cx = clamp_to_last(center_x, before.width);
    let cy = clamp_to_last(center_y, before.height);
    record matches UndoRecord::Run { layer_index, color_after, runs, is_alpha_overlay } && {
        &&& layer_index == layer
        &&& color_after == color
        &&& is_alpha_overlay == alpha_overlay
        &&& stroke_frame(before, after, layer as int)
        &&& if radius > 0 && w > 0 && h > 0 {
            &&& stroke_recorded(
                runs@,
                color,
                alpha_overlay,
                before.pixels@[layer as int].pixels@,
                after.pixels@[layer as int].pixels@,
            )
            &&& forall|p: int|
                0 <= p < w * h ==> (covered(runs@, p) <==> in_disc(w, cx, cy, radius as int, p))
            &&& marks_dirty(
                before,
                after,
                DirtyRect {
                    min_x: if cx >= radius { (cx - radius) as u32 } else { 0 },
                    min_y: if cy >= radius { (cy - radius) as u32 } else { 0 },
                    max_x: if cx + radius < w - 1 { (cx + radius) as u32 } else { (w - 1) as u32 },
                    max_y: if cy + radius < h - 1 { (cy + radius) as u32 } else { (h - 1) as u32 },
                },
            )
        } else {
            &&& runs@.len() == 0
            &&& after == before
        }
    }
}

/// Draw a filled circle on a canvas layer and return an undo record.
///
/// The centre is clamped to the last column and row of the canvas.  If
/// the radius is zero or the canvas has no pixel, nothing changes and the
/// record has no runs.  Otherwise every canvas pixel within distance `radius` of
/// the centre is painted, one run per row records its old pixels, and the
/// disc's bounding box (clamped) is marked dirty.
#[verifier::rlimit(100)]
#[verifier::spinoff_prover]
pub fn draw_circle(
    center_x: u32,
    center_y: u32,
    radius: u32,
    canvas: &mut Canvas,
    color: Color32,
    layer: usize,
    alpha_overlay: bool,
) -> (record: UndoRecord)
    requires
        old(canvas).wf(),
        old(canvas).width * old(canvas).height <= u32::MAX,
        radius > 0 && old(canvas).width > 0 && old(canvas).height > 0 ==> {
            &&& layer < old(canvas).pixels@.len()
            &&& clamp_to_last(center_x, old(canvas).width) + radius <= u32::MAX
            &&& clamp_to_last(center_y, old(canvas).height) + radius <= u32::MAX
        },
    ensures
        disc_stroke(*old(canvas), *final(canvas), record, center_x, center_y, radius, color, layer, alpha_overlay),
{
    let canvas_width = canvas.width;
    let height = canvas.height;
    let width = canvas_width as usize;
    if radius == 0 || canvas_width == 0 || height == 0 {
        return UndoRecord::Run {
            layer_index: layer,
            color_after: color,
            runs: Vec::new(),
            is_alpha_overlay: alpha_overlay,
        };
    }
    let center_x = if center_x < canvas_width { center_x } else { canvas_width - 1 };
    let center_y = if center_y < height { center_y } else { height - 1 };
    let ghost w = width as int;
    let ghost h = height as int;
    let ghost cx = center_x as int;
    let ghost cy = center_y as int;
    let ghost r = radius as int;
    let ghost n = w * h;
    let ghost initial = canvas.pixels@[layer as int].pixels@;
    let ghost old_canvas = *canvas;
    let mut runs: Vec<RunSegment> = Vec::new();
    let radius64 = radius as u64;
    proof {
        lemma_square_mono(r, 0xffff_ffff);
    }
    let radius_squared = radius64 * radius64;
    let mut delta_x: u64 = radius64;
    let mut delta_y: u32 = 0;
    proof {
        assert(r * r - 0 * 0 < (r + 1) * (r + 1)) by (nonlinear_arith)
            requires r >= 0;
    }
    proof {
        assert(painted_by(runs@, color, alpha_overlay, initial, canvas.pixels@[layer as int].pixels@)) by {
            assert forall|p: int| 0 <= p < initial.len() implies !covered(runs@, p) by {}
        }
    }
    loop
        invariant_except_break
            delta_y <= radius,
            forall|p: int|
                0 <= p < n ==> (#[trigger] covered(runs@, p) <==> (-(delta_y as int) < p / w - cy
                    < delta_y && in_disc(w, cx, cy, r, p))),
        invariant
            w == canvas_width,
            width == w,
            h == height,
            h == canvas.height,
            w == canvas.width,
            w > 0,
            n == w * h,
            n <= u32::MAX,
            0 <= cx < w,
            0 <= cy < h,
            cx == center_x,
            cy == center_y,
            r == radius,
            center_x + radius <= u32::MAX,
            center_y + radius <= u32::MAX,
            radius_squared == r * r,
            radius64 == r,
            layer < canvas.pixels@.len(),
            initial.len() == n,
            stroke_frame(old_canvas, *canvas, layer as int),
            canvas.dirty_rect == old_canvas.dirty_rect,
            delta_x <= radius,
            delta_y as int * delta_y as int <= r * r,
            r * r - delta_y * delta_y < (delta_x + 1) * (delta_x + 1),
            painted_by(runs@, color, alpha_overlay, initial, canvas.pixels@[layer as int].pixels@),
        ensures
            forall|p: int|
                0 <= p < n ==> (#[trigger] covered(runs@, p) <==> in_disc(w, cx, cy, r, p)),
        decreases radius - delta_y,
    {
        let delta_y_squared = (delta_y as u64) * (delta_y as u64);
        let remaining = radius_squared - delta_y_squared;
        proof {
            lemma_square_mono(delta_x as int, 0xffff_ffff);
        }
        while delta_x * delta_x > remaining
            invariant
                delta_x <= radius,
                delta_x * delta_x <= 0xffff_ffff * 0xffff_ffff,
                radius <= 0xffff_ffffu32,
                remaining == r * r - delta_y * delta_y,
                0 <= remaining,
                remaining < (delta_x + 1) * (delta_x + 1),
            decreases delta_x,
        {
            assert(delta_x > 0) by (nonlinear_arith)
                requires delta_x * delta_x > remaining, remaining >= 0;
            delta_x = delta_x - 1;
            proof {
                lemma_square_mono(delta_x as int, 0xffff_ffff);
            }
        }
        proof {
            lemma_square_mono(delta_x as int, 0xffff_ffff);
        }
        let dx32 = delta_x as u32;
        let span_start = if center_x >= dx32 { center_x - dx32 } else { 0 };
        let span_end = if center_x + dx32 < canvas_width - 1 { center_x + dx32 } else { canvas_width - 1 };
        let ghost span_ok = |c: int| span_start <= c <= span_end;
        proof {
            assert forall|c: int| 0 <= c < w implies (span_start <= c <= span_end <==> #[trigger] sq(c - cx) <= r * r - delta_y * delta_y) by {
                lemma_isqrt_range(c - cx, delta_x as int, r * r - delta_y * delta_y);
            }
        }
        let ghost runs_at_row = runs@;
        let ghost mut top_lo: int = 0;
        let ghost mut top_hi: int = 0;
        let ghost mut bot_lo: int = 0;
        let ghost mut bot_hi: int = 0;
        if center_y >= delta_y {
            let row = center_y - delta_y;
            proof {
                lemma_row_start_fits(row as int, h, w);
            }
            let row_start = (row as usize) * width;
            proof {
                assert forall|p: int| row_start + span_start <= p < row_start + span_end + 1 implies !#[trigger] covered(runs@, p) by {
                    lemma_position(w, row as int, p - row_start);
                    assert(p == row * w + (p - row_start));
                    assert(p / w == row);
                    assert(0 <= p < n);
                }
            }
            record_span(
                &mut canvas.pixels[layer].pixels,
                &mut runs,
                row_start + span_start as usize,
                row_start + span_end as usize + 1,
                color,
                alpha_overlay,
                Ghost(initial),
            );
            proof {
                top_lo = row_start + span_start;
                top_hi = row_start + span_end + 1;
            }
        }
        let ghost runs_after_top = runs@;
        assert(forall|p: int| #[trigger] covered(runs_after_top, p) <==> (covered(runs_at_row, p) || (top_lo <= p < top_hi)));
        if delta_y != 0 && center_y + delta_y < height {
            let row = center_y + delta_y;
            proof {
                lemma_row_start_fits(row as int, h, w);
            }
            let row_start = (row as usize) * width;
            proof {
                assert forall|p: int| row_start + span_start <= p < row_start + span_end + 1 implies !#[trigger] covered(runs@, p) by {
                    lemma_span_membership(p, w, row as int, span_start as int, span_end as int);
                    assert(!covered(runs_at_row, p));
                    if top_lo <= p < top_hi {
                        lemma_span_membership(p, w, cy - delta_y, span_start as int, span_end as int);
                    }
                }
            }
            record_span(
                &mut canvas.pixels[layer].pixels,
                &mut runs,
                row_start + span_start as usize,
                row_start + span_end as usize + 1,
                color,
                alpha_overlay,
                Ghost(initial),
            );
            proof {
                bot_lo = row_start + span_start;
                bot_hi = row_start + span_end + 1;
            }
        }
        assert(forall|p: int| #[trigger] covered(runs@, p) <==> (covered(runs_at_row, p) || (top_lo <= p < top_hi) || (bot_lo <= p < bot_hi)));
        proof {
            lemma_rows_step(
                runs_at_row,
                runs@,
                w,
                h,
                cx,
                cy,
                r,
                delta_y as int,
                span_start as int,
                span_end as int,
                top_lo,
                top_hi,
                bot_lo,
                bot_hi,
            );
        }
        if delta_y == radius {
            proof {
                lemma_rows_done(runs@, w, h, cx, cy, r);
            }
            break;
        }
        proof {
            assert((delta_y + 1) * (delta_y + 1) <= r * r) by (nonlinear_arith)
                requires delta_y + 1 <= r, 0 <= delta_y;
            assert(r * r - (delta_y + 1) * (delta_y + 1) <= r * r - delta_y * delta_y) by (nonlinear_arith)
                requires 0 <= delta_y;
        }
        delta_y = delta_y + 1;
    }
    let min_x = center_x.saturating_sub(radius);
    let min_y = center_y.saturating_sub(radius);
    let max_x = if center_x + radius < canvas_width - 1 { center_x + radius } else { canvas_width - 1 };
    let max_y = if center_y + radius < height - 1 { center_y + radius } else { height - 1 };
    canvas.dirty_rect.add(DirtyRect::new(min_x, min_y, max_x, max_y));
    UndoRecord::Run { layer_index: layer, color_after: color, runs, is_alpha_overlay: alpha_overlay }
}

/// Pixel `(x, y)` is stamped by the disc brush of radius `r` at `(cx, cy)`:
/// it lies on the canvas, in a row the disc reaches, and either within
/// the disc or, when the centre lies right of the canvas, in the last
/// column (each row's span is clamped to the canvas).
pub open spec fn disc_stamps(cx: int, cy: int, r: int, w: int, h: int, x: int, y: int) -> bool {
    &&& 0 <= y < h
    &&& 0 <= x < w
    &&& sq(y - cy) <= r * r
    &&& (sq(x - cx) + sq(y - cy) <= r * r || (x == w - 1 && cx >= w))
}

/// Pixel `(x, y)` is stamped at line point `p`: the point itself for a
/// zero radius, its disc otherwise.
pub open spec fn circle_point_stamps(p: (int, int), r: int, w: int, h: int, x: int, y: int) -> bool {
    if r == 0 {
        p.0 == x && p.1 == y
    } else {
        disc_stamps(p.0, p.1, r, w, h, x, y)
    }
}

/// Pixel `(x, y)` is stamped at one of the first `n` line points.
pub open spec fn circle_line_covers(pts: Seq<(int, int)>, r: int, w: int, h: int, n: nat, x: int, y: int) -> bool
    decreases n,
{
    n > 0 && (circle_line_covers(pts, r, w, h, (n - 1) as nat, x, y) || circle_point_stamps(
        pts[n - 1],
        r,
        w,
        h,
        x,
        y,
    ))
}

pub open spec fn max0(v: int) -> int {
    if v < 0 {
        0
    } else {
        v
    }
}

pub open spec fn min_int(a: int, b: int) -> int {
    if a < b {
        a
    } else {
        b
    }
}

/// `start` grown by the first `n` line points: each on-canvas point for a
/// zero radius, otherwise both corners of each disc's bounding box (the
/// top-left corner only clamped at zero).
pub open spec fn circle_line_rect(
    start: DirtyRect,
    pts: Seq<(int, int)>,
    r: int,
    w: int,
    h: int,
    n: nat,
) -> DirtyRect
    decreases n,
{
    if n == 0 {
        start
    } else {
        let p = pts[n - 1];
        let prev = circle_line_rect(start, pts, r, w, h, (n - 1) as nat);
        if r == 0 {
            if 0 <= p.0 < w && 0 <= p.1 < h {
                extend_spec(prev, p.0, p.1)
            } else {
                prev
            }
        } else {
            extend_spec(
                extend_spec(prev, max0(p.0 - r), max0(p.1 - r)),
                max0(min_int(p.0 + r, w - 1)),
                max0(min_int(p.1 + r, h - 1)),
            )
        }
    }
}

/// The floor of the square root of `n`.
pub fn isqrt_u64(n: u64) -> (s: u64)
    requires
        n < 0x4000_0000_0000_0000,
    ensures
        s * s <= n < (s + 1) * (s + 1),
        s < 0x8000_0000,
{
    let mut lo: u64 = 0;
    let mut hi: u64 = 0x8000_0000;
    assert(n < 0x8000_0000 * 0x8000_0000);
    while hi - lo > 1
        invariant
            lo < hi <= 0x8000_0000,
            lo * lo <= n,
            n < hi * hi,
        decreases hi - lo,
    {
        let mid = lo + (hi - lo) / 2;
        assert(mid * mid < 0x8000_0000 * 0x8000_0000) by (nonlinear_arith)
            requires
                mid < 0x8000_0000,
        ;
        if mid * mid <= n {
            lo = mid;
        } else {
            hi = mid;
        }
    }
    assert(hi == lo + 1);
    lo
}

proof fn lemma_disc_row_span(cx: int, d: int, m: int, w: int, x: int)
    requires
        0 <= cx,
        0 <= d,
        d * d <= m < (d + 1) * (d + 1),
        0 < w,
        0 <= x < w,
    ensures
        (clampi(cx - d, 0, w - 1) <= x <= clampi(cx + d, 0, w - 1)) <==> (sq(x - cx) <= m || (x == w - 1
            && cx >= w)),
{
    lemma_isqrt_range(x - cx, d, m);
    if cx >= w {
        lemma_isqrt_range(w - 1 - cx, d, m);
    }
}

/// Stamp every pixel of the disc of radius `r` around `(cx, cy)`, row by
/// row, each row's span clamped to the canvas.
fn stamp_disc(visited: &mut Vec<u32>, width: usize, height: u32, cx: i64, cy: i64, r: i64, stamp: u32)
    requires
        0 < width < 0x8000_0000,
        0 < height < 0x8000_0000,
        width * height <= old(visited)@.len(),
        0 <= cx < LINE_COORD_LIMIT,
        0 <= cy < LINE_COORD_LIMIT,
        0 < r < LINE_COORD_LIMIT,
    ensures
        final(visited)@.len() == old(visited)@.len(),
        forall|p: int|
            0 <= p < old(visited)@.len() ==> #[trigger] final(visited)@[p] == if p < width * height
                && disc_stamps(cx as int, cy as int, r as int, width as int, height as int, p % (width as int), p / (width as int)) {
                stamp
            } else {
                old(visited)@[p]
            },
{
    let ghost v0 = visited@;
    let ghost w = width as int;
    let ghost h = height as int;
    let vlen = visited.len();
    let w64 = width as i64;
    let h64 = height as i64;
    let mut dyv: i64 = -r;
    proof {
        assert forall|p: int| 0 <= p < v0.len() implies #[trigger] visited@[p] == if p < w * h && disc_stamps(
            cx as int,
            cy as int,
            r as int,
            w,
            h,
            p % w,
            p / w,
        ) && p / w < cy + dyv {
            stamp
        } else {
            v0[p]
        } by {
            if p < w * h && disc_stamps(cx as int, cy as int, r as int, w, h, p % w, p / w) {
                let dd = p / w - cy;
                if dd < -r {
                    assert(dd * dd > r * r) by (nonlinear_arith)
                        requires
                            dd < -r,
                            r > 0,
                    ;
                }
            }
        }
    }
    while dyv <= r
        invariant
            -r <= dyv <= r + 1,
            0 < w < 0x8000_0000,
            0 < h < 0x8000_0000,
            w == width,
            h == height,
            w64 == w,
            h64 == h,
            w * h <= v0.len(),
            vlen == v0.len(),
            0 <= cx < LINE_COORD_LIMIT,
            0 <= cy < LINE_COORD_LIMIT,
            0 < r < LINE_COORD_LIMIT,
            visited@.len() == v0.len(),
            forall|p: int|
                0 <= p < v0.len() ==> #[trigger] visited@[p] == if p < w * h && disc_stamps(
                    cx as int,
                    cy as int,
                    r as int,
                    w,
                    h,
                    p % w,
                    p / w,
                ) && p / w < cy + dyv {
                    stamp
                } else {
                    v0[p]
                },
        decreases r + 1 - dyv,
    {
        let y = cy + dyv;
        if y >= 0 && y < h64 {
            proof {
                assert(dyv * dyv <= r * r) by (nonlinear_arith)
                    requires
                        -r <= dyv <= r,
                ;
                assert(r * r < 0x4000_0000_0000_0000) by (nonlinear_arith)
                    requires
                        0 < r < 0x4000_0000,
                ;
                assert(0 <= dyv * dyv) by (nonlinear_arith);
            }
            let m = (r * r - dyv * dyv) as u64;
            let d = isqrt_u64(m) as i64;
            let sxl = clamp_i64(cx - d, 0, w64 - 1);
            let exl = clamp_i64(cx + d, 0, w64 - 1);
            proof {
                lemma_row_fits(y as int, h, w);
            }
            let row_start = (y as usize) * width;
            set_range(visited, row_start + sxl as usize, row_start + exl as usize + 1, stamp);
            proof {
                assert forall|p: int| 0 <= p < v0.len() implies #[trigger] visited@[p] == if p < w * h
                    && disc_stamps(cx as int, cy as int, r as int, w, h, p % w, p / w) && p / w < cy + dyv + 1 {
                    stamp
                } else {
                    v0[p]
                } by {
                    lemma_pixel_in_row(p, w, y as int, sxl as int, exl + 1);
                    if p < w * h {
                        lemma_row_below(p, w, h);
                        if p / w == y {
                            lemma_disc_row_span(cx as int, d as int, m as int, w, p % w);
                            assert(sq(p / w - cy) == dyv * dyv);
                        }
                    }
                }
            }
        } else {
            proof {
                assert forall|p: int| 0 <= p < v0.len() implies #[trigger] visited@[p] == if p < w * h
                    && disc_stamps(cx as int, cy as int, r as int, w, h, p % w, p / w) && p / w < cy + dyv + 1 {
                    stamp
                } else {
                    v0[p]
                } by {
                    if p < w * h {
                        lemma_row_below(p, w, h);
                    }
                }
            }
        }
        dyv = dyv + 1;
    }
    proof {
        assert forall|p: int| 0 <= p < v0.len() implies #[trigger] visited@[p] == if p < w * h && disc_stamps(
            cx as int,
            cy as int,
            r as int,
            w,
            h,
            p % w,
            p / w,
        ) {
            stamp
        } else {
            v0[p]
        } by {
            if p < w * h && disc_stamps(cx as int, cy as int, r as int, w, h, p % w, p / w) {
                let dd = p / w - cy;
                if dd > r {
                    assert(dd * dd > r * r) by (nonlinear_arith)
                        requires
                            dd > r,
                            r > 0,
                    ;
                }
            }
        }
    }
}

/// Mark in `visited` every pixel the circle brush of radius `geo_radius`
/// stamps along the line from `(start_x, start_y)` to `(end_x, end_y)`
/// ([`circle_line_covers`]), and grow `dirty_rect` accordingly
/// ([`circle_line_rect`]).  With a zero radius only the line's own
/// on-canvas pixels are stamped.
pub fn stamp_circle_positions(
    start_x: u32,
    start_y: u32,
    end_x: u32,
    end_y: u32,
    geo_radius: u32,
    width: usize,
    height: u32,
    visited: &mut Vec<u32>,
    stamp: u32,
    dirty_rect: &mut DirtyRect,
)
    requires
        0 < width < 0x8000_0000,
        0 < height < 0x8000_0000,
        width * height <= old(visited)@.len(),
        start_x < LINE_COORD_LIMIT,
        start_y < LINE_COORD_LIMIT,
        end_x < LINE_COORD_LIMIT,
        end_y < LINE_COORD_LIMIT,
        geo_radius < LINE_COORD_LIMIT,
    ensures
        ({
            let pts = line_points(start_x as int, start_y as int, end_x as int, end_y as int);
            let w = width as int;
            let h = height as int;
            let r = geo_radius as int;
            &&& final(visited)@.len() == old(visited)@.len()
            &&& forall|p: int|
                0 <= p < old(visited)@.len() ==> #[trigger] final(visited)@[p] == if p < w * h
                    && circle_line_covers(pts, r, w, h, pts.len(), p % w, p / w) {
                    stamp
                } else {
                    old(visited)@[p]
                }
            &&& *final(dirty_rect) == circle_line_rect(*old(dirty_rect), pts, r, w, h, pts.len())
        }),
{
    let ghost pts = line_points(start_x as int, start_y as int, end_x as int, end_y as int);
    let ghost w = width as int;
    let ghost h = height as int;
    let ghost r = geo_radius as int;
    let ghost v0 = visited@;
    let ghost d0 = *dirty_rect;
    let vlen = visited.len();
    let x0 = start_x as i64;
    let y0 = start_y as i64;
    let tx = end_x as i64;
    let ty = end_y as i64;
    let dx: i64 = if tx > x0 { tx - x0 } else { x0 - tx };
    let sx: i64 = if x0 < tx { 1 } else { -1 };
    let dy: i64 = if ty > y0 { y0 - ty } else { ty - y0 };
    let sy: i64 = if y0 < ty { 1 } else { -1 };
    let mut err: i64 = dx + dy;
    let mut cx = x0;
    let mut cy = y0;
    let w64 = width as i64;
    let h64 = height as i64;
    let r64 = geo_radius as i64;
    let ghost fuel0: int = dx - dy + 1;
    let ghost mut k: int = 0;
    proof {
        lemma_walk_start(x0 as int, y0 as int, tx as int, ty as int);
        lemma_walk_unfold(x0 as int, y0 as int, tx as int, ty as int, x0 as int, y0 as int, err as int, fuel0 as nat);
        assert(pts.subrange(0, pts.len() as int) =~= pts);
    }
    loop
        invariant_except_break
            walk_state(x0 as int, y0 as int, tx as int, ty as int, cx as int, cy as int, err as int),
            0 <= k < pts.len(),
            fuel0 - k >= walk_remaining(x0 as int, y0 as int, tx as int, ty as int, cx as int, cy as int) + 1,
            pts.subrange(k, pts.len() as int) == walk_from(
                cx as int,
                cy as int,
                err as int,
                tx as int,
                ty as int,
                dx as int,
                dy as int,
                sx as int,
                sy as int,
                (fuel0 - k) as nat,
            ),
            forall|q: int|
                0 <= q < v0.len() ==> #[trigger] visited@[q] == if q < w * h && circle_line_covers(
                    pts,
                    r,
                    w,
                    h,
                    k as nat,
                    q % w,
                    q / w,
                ) {
                    stamp
                } else {
                    v0[q]
                },
            *dirty_rect == circle_line_rect(d0, pts, r, w, h, k as nat),
        invariant
            pts == line_points(start_x as int, start_y as int, end_x as int, end_y as int),
            x0 == start_x,
            y0 == start_y,
            tx == end_x,
            ty == end_y,
            dx == crate::tools::line::abs(tx - x0),
            dy == -crate::tools::line::abs(ty - y0),
            sx == crate::tools::line::step_dir(x0 as int, tx as int),
            sy == crate::tools::line::step_dir(y0 as int, ty as int),
            fuel0 == dx - dy + 1,
            start_x < LINE_COORD_LIMIT,
            start_y < LINE_COORD_LIMIT,
            end_x < LINE_COORD_LIMIT,
            end_y < LINE_COORD_LIMIT,
            w == width,
            h == height,
            r == geo_radius,
            w64 == w,
            h64 == h,
            r64 == r,
            0 < w < 0x8000_0000,
            0 < h < 0x8000_0000,
            0 <= r < LINE_COORD_LIMIT,
            w * h <= v0.len(),
            vlen == v0.len(),
            visited@.len() == v0.len(),
        ensures
            visited@.len() == v0.len(),
            forall|q: int|
                0 <= q < v0.len() ==> #[trigger] visited@[q] == if q < w * h && circle_line_covers(
                    pts,
                    r,
                    w,
                    h,
                    pts.len(),
                    q % w,
                    q / w,
                ) {
                    stamp
                } else {
                    v0[q]
                },
            *dirty_rect == circle_line_rect(d0, pts, r, w, h, pts.len()),
        decreases walk_remaining(x0 as int, y0 as int, tx as int, ty as int, cx as int, cy as int),
    {
        proof {
            lemma_points_nonneg(x0 as int, y0 as int, tx as int, ty as int, cx as int, cy as int, err as int);
            lemma_walk_unfold(x0 as int, y0 as int, tx as int, ty as int, cx as int, cy as int, err as int, (fuel0 - k) as nat);
            assert(pts[k] == pts.subrange(k, pts.len() as int)[0]);
        }
        let ghost vis_before = visited@;
        if r64 == 0 {
            if cx < w64 && cy < h64 {
                proof {
                    lemma_row_fits(cy as int, h, w);
                }
                let idx = (cy as usize) * width + cx as usize;
                visited.set(idx, stamp);
                dirty_rect.extend(cx as u32, cy as u32);
            }
            proof {
                assert forall|q: int| 0 <= q < v0.len() implies #[trigger] visited@[q] == if q < w * h
                    && circle_point_stamps(pts[k], r, w, h, q % w, q / w) {
                    stamp
                } else {
                    vis_before[q]
                } by {
                    if q < w * h {
                        lemma_row_below(q, w, h);
                    }
                    if cx < w64 && cy < h64 {
                        lemma_pixel_in_row(q, w, cy as int, cx as int, cx + 1);
                    }
                }
            }
        } else {
            dirty_rect.extend(
                (if cx >= r64 { cx - r64 } else { 0 }) as u32,
                (if cy >= r64 { cy - r64 } else { 0 }) as u32,
            );
            let ex = if cx + r64 < w64 - 1 { cx + r64 } else { w64 - 1 };
            let ey = if cy + r64 < h64 - 1 { cy + r64 } else { h64 - 1 };
            dirty_rect.extend(ex as u32, ey as u32);
            stamp_disc(visited, width, height, cx, cy, r64, stamp);
        }
        proof {
            let k1 = (k + 1) as nat;
            assert(((k1 - 1) as nat) == k as nat);
            assert(circle_line_rect(d0, pts, r, w, h, k1) == *dirty_rect);
            assert forall|q: int| 0 <= q < v0.len() implies #[trigger] visited@[q] == if q < w * h
                && circle_line_covers(pts, r, w, h, k1, q % w, q / w) {
                stamp
            } else {
                v0[q]
            } by {
                assert(vis_before[q] == if q < w * h && circle_line_covers(pts, r, w, h, k as nat, q % w, q / w) {
                    stamp
                } else {
                    v0[q]
                });
            }
        }
        if cx == tx && cy == ty {
            proof {
                assert(pts.len() == k + 1);
            }
            break;
        }
        let ghost s = pts.subrange(k, pts.len() as int);
        proof {
            lemma_walk_step(x0 as int, y0 as int, tx as int, ty as int, cx as int, cy as int, err as int);
        }
        let (nx, ny, ne) = walk_step(cx, cy, err, dx, dy, sx, sy);
        cx = nx;
        cy = ny;
        err = ne;
        proof {
            lemma_walk_unfold(x0 as int, y0 as int, tx as int, ty as int, cx as int, cy as int, err as int, (fuel0 - k - 1) as nat);
            assert(pts.subrange(k + 1, pts.len() as int) =~= s.drop_first());
            k = k + 1;
        }
    }
}

/// A rectangle holds no pixel, or lies within a `w` by `h` canvas.
pub open spec fn rect_on_canvas(rect: DirtyRect, w: int, h: int) -> bool {
    rect == empty_rect() || (rect.min_x <= rect.max_x < w && rect.min_y <= rect.max_y < h)
}

proof fn lemma_circle_line_rect(pts: Seq<(int, int)>, r: int, w: int, h: int, n: nat)
    requires
        0 < w < 0x8000_0000,
        0 < h < 0x8000_0000,
        0 <= r < LINE_COORD_LIMIT,
        n <= pts.len(),
        forall|k: int|
            0 <= k < n ==> 0 <= (#[trigger] pts[k]).0 < LINE_COORD_LIMIT && 0 <= pts[k].1 < LINE_COORD_LIMIT,
        r > 0 ==> forall|k: int| 0 <= k < n ==> (#[trigger] pts[k]).0 < w + r && pts[k].1 < h + r,
    ensures
        rect_on_canvas(circle_line_rect(empty_rect(), pts, r, w, h, n), w, h),
        r > 0 && n > 0 ==> circle_line_rect(empty_rect(), pts, r, w, h, n) != empty_rect(),
    decreases n,
{
    if n > 0 {
        lemma_circle_line_rect(pts, r, w, h, (n - 1) as nat);
        let p = pts[n - 1];
        if n == 1 {
            assert(circle_line_rect(empty_rect(), pts, r, w, h, 0) == empty_rect());
        }
    }
}

/// `after` is `before` with the circle-brush line painted (see
/// [`draw_circle_line`]), the stamp and drag buffers went from
/// `visited_before` and `drag_before` to `visited_after` and
/// `drag_after`, and `record` records the stroke.
pub open spec fn circle_line_stroke(
    before: Canvas,
    after: Canvas,
    record: UndoRecord,
    visited_before: Seq<u32>,
    visited_after: Seq<u32>,
    drag_before: Seq<u32>,
    drag_after: Seq<u32>,
    start_x: u32,
    start_y: u32,
    end_x: u32,
    end_y: u32,
    geo_radius: u32,
    color: Color32,
    layer: usize,
    stamp: u32,
    alpha_overlay: bool,
    drag_stamp_value: u32,
) -> bool {
    let w = before.width as int;
    let h = before.height as int;
    let r = geo_radius as int;
    let pts = line_points(start_x as int, start_y as int, end_x as int, end_y as int);
    let rect = circle_line_rect(empty_rect(), pts, r, w, h, pts.len());
    record matches UndoRecord::Run { layer_index, color_after, runs, is_alpha_overlay } && {
        &&& layer_index == layer
        &&& color_after == color
        &&& is_alpha_overlay == alpha_overlay
        &&& stroke_frame(before, after, layer as int)
        &&& visited_after.len() == visited_before.len()
        &&& forall|p: int|
            0 <= p < visited_before.len() ==> #[trigger] visited_after[p] == if p < w * h
                && circle_line_covers(pts, r, w, h, pts.len(), p % w, p / w) {
                stamp
            } else {
                visited_before[p]
            }
        &&& stroke_recorded(
            runs@,
            color,
            alpha_overlay,
            before.pixels@[layer as int].pixels@,
            after.pixels@[layer as int].pixels@,
        )
        &&& forall|p: int|
            0 <= p < w * h ==> (covered(runs@, p) <==> visited_selected(
                rect,
                w,
                visited_after,
                stamp,
                alpha_overlay,
                drag_before,
                drag_stamp_value,
                p,
            ))
        &&& drag_after.len() == drag_before.len()
        &&& forall|p: int|
            0 <= p < drag_before.len() ==> #[trigger] drag_after[p] == if alpha_overlay
                && 0 <= p < w * h && covered(runs@, p) {
                drag_stamp_value
            } else {
                drag_before[p]
            }
        &&& if is_empty_spec(rect) {
            after.dirty_rect@ == before.dirty_rect@
        } else {
            marks_dirty(before, after, rect)
        }
    }
}

/// Draw a circle-brush line between two points and return an undo record.
///
/// [`stamp_circle_positions`] marks the pixels the brush stamps along the
/// line with `stamp` in `visited` and collects their bounding box; then
/// every pixel of that box carrying `stamp` is painted (skipping, in
/// alpha-overlay mode, pixels already blended during this drag), with one
/// run per horizontal stretch recording its old pixels, and the box, when
/// it holds a pixel, is marked dirty.
pub fn draw_circle_line(
    start_x: u32,
    start_y: u32,
    end_x: u32,
    end_y: u32,
    geo_radius: u32,
    canvas: &mut Canvas,
    color: Color32,
    layer: usize,
    visited: &mut Vec<u32>,
    stamp: u32,
    alpha_overlay: bool,
    drag_processed: &mut Vec<u32>,
    drag_stamp_value: u32,
) -> (record: UndoRecord)
    requires
        old(canvas).wf(),
        0 < old(canvas).width < 0x8000_0000,
        0 < old(canvas).height < 0x8000_0000,
        old(canvas).width * old(canvas).height <= u32::MAX,
        layer < old(canvas).pixels@.len(),
        old(canvas).width * old(canvas).height <= old(visited)@.len(),
        alpha_overlay ==> old(canvas).width * old(canvas).height <= old(drag_processed)@.len(),
        start_x < LINE_COORD_LIMIT,
        start_y < LINE_COORD_LIMIT,
        end_x < LINE_COORD_LIMIT,
        end_y < LINE_COORD_LIMIT,
        geo_radius < LINE_COORD_LIMIT,
        geo_radius > 0 ==> {
            &&& start_x < old(canvas).width + geo_radius
            &&& end_x < old(canvas).width + geo_radius
            &&& start_y < old(canvas).height + geo_radius
            &&& end_y < old(canvas).height + geo_radius
        },
    ensures
        circle_line_stroke(
            *old(canvas),
            *final(canvas),
            record,
            old(visited)@,
            final(visited)@,
            old(drag_processed)@,
            final(drag_processed)@,
            start_x,
            start_y,
            end_x,
            end_y,
            geo_radius,
            color,
            layer,
            stamp,
            alpha_overlay,
            drag_stamp_value,
        ),
{
    let width = canvas.width as usize;
    let height = canvas.height;
    let ghost w = width as int;
    let ghost h = height as int;
    let ghost r = geo_radius as int;
    let ghost pts = line_points(start_x as int, start_y as int, end_x as int, end_y as int);
    let ghost old_canvas = *canvas;
    let mut dirty_rect = DirtyRect::empty();
    stamp_circle_positions(
        start_x,
        start_y,
        end_x,
        end_y,
        geo_radius,
        width,
        height,
        visited,
        stamp,
        &mut dirty_rect,
    );
    proof {
        assert forall|k: int| 0 <= k < pts.len() implies 0 <= (#[trigger] pts[k]).0 < LINE_COORD_LIMIT && 0
            <= pts[k].1 < LINE_COORD_LIMIT && (r > 0 ==> pts[k].0 < w + r && pts[k].1 < h + r) by {
            lemma_line_point_between(start_x as int, start_y as int, end_x as int, end_y as int, k);
        }
        lemma_line_nonempty(start_x as int, start_y as int, end_x as int, end_y as int);
        lemma_circle_line_rect(pts, r, w, h, pts.len());
        if dirty_rect.min_y <= dirty_rect.max_y {
            lemma_row_fits(dirty_rect.max_y as int, h, w);
        }
    }
    let runs = apply_visited_runs(
        &mut canvas.pixels[layer].pixels,
        &dirty_rect,
        width,
        visited,
        stamp,
        color,
        alpha_overlay,
        drag_processed,
        drag_stamp_value,
    );
    canvas.dirty_rect.add(dirty_rect);
    proof {
        assert forall|l: int| 0 <= l < old_canvas.pixels@.len() implies (#[trigger] canvas.pixels@[l]).pixels@.len()
            == canvas.width * canvas.height by {}
    }
    UndoRecord::Run { layer_index: layer, color_after: color, runs, is_alpha_overlay: alpha_overlay }
}

} // verus!
