//! Rectangular fill brush: [`draw_square`] for single stamps.

use vstd::prelude::*;

use crate::canvas::Canvas;
use crate::canvas::DirtyRect;
use crate::canvas::empty_rect;
use crate::canvas::rect_contains;
use crate::canvas::union_spec;
use crate::pixel::Color32;
use crate::tools::brush_common::capture_span;
use crate::tools::brush_common::apply_visited_runs;
use crate::tools::brush_common::fill_span;
use crate::tools::brush_common::filled_u32;
use crate::tools::brush_common::lemma_row_col;
use crate::tools::brush_common::set_range;
use crate::tools::brush_common::visited_selected;
use crate::tools::line::lemma_err_magnitude;
use crate::tools::line::lemma_walk_between;
use crate::tools::line::lemma_walk_start;
use crate::tools::line::lemma_walk_step;
use crate::tools::line::lemma_walk_unfold;
use crate::tools::line::line_points;
use crate::tools::line::walk_from;
use crate::tools::line::walk_remaining;
use crate::tools::line::walk_state;
use crate::tools::line::walk_step;
use crate::tools::line::LINE_COORD_LIMIT;
use crate::undo::compress_run;
use crate::undo::covered;
use crate::undo::in_run;
use crate::undo::run_pixels;
use crate::undo::stroke_recorded;
use crate::undo::stroke_value;
use crate::undo::RunSegment;
use crate::undo::UndoRecord;

verus! {

/// Pixel `p` of a canvas `w` wide lies in columns `[x0, x1)` of rows `[y0, y1)`.
pub open spec fn in_box(w: int, x0: int, y0: int, x1: int, y1: int, p: int) -> bool {
    w > 0 && y0 <= p / w < y1 && x0 <= p % w < x1
}

pub open spec fn clamp(v: u32, limit: u32) -> u32 {
    if v < limit {
        v
    } else {
        limit
    }
}

/// The parts of a canvas that a stroke on layer `layer` leaves alone.
pub open spec fn stroke_frame(before: Canvas, after: Canvas, layer: int) -> bool {
    &&& after.width == before.width
    &&& after.height == before.height
    &&& after.pixels@.len() == before.pixels@.len()
    &&& forall|l: int|
        0 <= l < before.pixels@.len() && l != layer ==> #[trigger] after.pixels@[l] == before.pixels@[l]
    &&& 0 <= layer < before.pixels@.len() ==> {
        &&& after.pixels@[layer].name == before.pixels@[layer].name
        &&& after.pixels@[layer].visible == before.pixels@[layer].visible
        &&& after.pixels@[layer].opacity == before.pixels@[layer].opacity
        &&& after.pixels@[layer].mode == before.pixels@[layer].mode
    }
    &&& after.output_rgba@ == before.output_rgba@
    &&& after.render_next_frame == before.render_next_frame
    &&& after.wf()
}

/// The dirty list after a stroke marked `rect` dirty: the old regions and
/// `rect` are all covered.
pub open spec fn marks_dirty(before: Canvas, after: Canvas, rect: DirtyRect) -> bool {
    &&& forall|j: int|
        0 <= j < before.dirty_rect@.len() ==> crate::canvas::covered_by(
            after.dirty_rect@,
            #[trigger] before.dirty_rect@[j],
        )
    &&& after.dirty_rect@.len() > 0
    &&& rect_contains(after.dirty_rect@.last(), rect)
}

pub proof fn lemma_box_position(w: int, y: int, x: int)
    requires
        w > 0,
        0 <= y,
        0 <= x < w,
    ensures
        (y * w + x) / w == y,
        (y * w + x) % w == x,
{
    vstd::arithmetic::div_mod::lemma_fundamental_div_mod_converse(y * w + x, w, y, x);
}

pub proof fn lemma_row_fits(y: int, h: int, w: int)
    requires
        0 <= y < h,
        w > 0,
    ensures
        y * w + w <= h * w,
        y * w + w <= w * h,
        0 <= y * w,
{
    vstd::arithmetic::mul::lemma_mul_is_commutative(w, h);
    vstd::arithmetic::mul::lemma_mul_inequality(y + 1, h, w);
    vstd::arithmetic::mul::lemma_mul_is_distributive_add_other_way(w, y, 1);
    vstd::arithmetic::mul::lemma_mul_nonnegative(y, w);
}

/// Draw a filled rectangle on a canvas layer and return an undo record.
///
/// Coordinates are clamped to the canvas; the rectangle covers columns
/// `[start_x, end_x)` and rows `[start_y, end_y)`.  If it is empty after
/// clamping, nothing changes and the record has no runs.  Otherwise every
/// pixel of the rectangle is painted (overwritten, or alpha-blended when
/// `alpha_overlay`), one run per row records its old pixels, and the
/// rectangle is marked dirty.
pub fn draw_square(
    start_x: u32,
    start_y: u32,
    end_x: u32,
    end_y: u32,
    canvas: &mut Canvas,
    color: Color32,
    layer: usize,
    alpha_overlay: bool,
) -> (record: UndoRecord)
    requires
        old(canvas).wf(),
        old(canvas).width * old(canvas).height <= u32::MAX,
        clamp(start_x, old(canvas).width) < clamp(end_x, old(canvas).width) && clamp(
            start_y,
            old(canvas).height,
        ) < clamp(end_y, old(canvas).height) ==> layer < old(canvas).pixels@.len(),
    ensures
        ({
            let w = old(canvas).width as int;
            let x0 = clamp(start_x, old(canvas).width) as int;
            let x1 = clamp(end_x, old(canvas).width) as int;
            let y0 = clamp(start_y, old(canvas).height) as int;
            let y1 = clamp(end_y, old(canvas).height) as int;
            record matches UndoRecord::Run { layer_index, color_after, runs, is_alpha_overlay } && {
                &&& layer_index == layer
                &&& color_after == color
                &&& is_alpha_overlay == alpha_overlay
                &&& stroke_frame(*old(canvas), *final(canvas), layer as int)
                &&& if x0 < x1 && y0 < y1 {
                    &&& runs@.len() == y1 - y0
                    &&& stroke_recorded(
                        runs@,
                        color,
                        alpha_overlay,
                        old(canvas).pixels@[layer as int].pixels@,
                        final(canvas).pixels@[layer as int].pixels@,
                    )
                    &&& forall|p: int|
                        0 <= p < w * old(canvas).height ==> (covered(runs@, p) <==> in_box(
                            w,
                            x0,
                            y0,
                            x1,
                            y1,
                            p,
                        ))
                    &&& marks_dirty(
                        *old(canvas),
                        *final(canvas),
                        DirtyRect {
                            min_x: x0 as u32,
                            min_y: y0 as u32,
                            max_x: (x1 - 1) as u32,
                            max_y: (y1 - 1) as u32,
                        },
                    )
                } else {
                    &&& runs@.len() == 0
                    &&& *final(canvas) == *old(canvas)
                }
            }
        }),
{
    let width = canvas.width as usize;
    let height = canvas.height;
    let start_x = if start_x < canvas.width { start_x } else { canvas.width };
    let end_x = if end_x < canvas.width { end_x } else { canvas.width };
    let start_y = if start_y < height { start_y } else { height };
    let end_y = if end_y < height { end_y } else { height };
    if start_x >= end_x || start_y >= end_y {
        return UndoRecord::Run {
            layer_index: layer,
            color_after: color,
            runs: Vec::new(),
            is_alpha_overlay: alpha_overlay,
        };
    }
    let ghost w = width as int;
    let ghost h = height as int;
    let ghost x0 = start_x as int;
    let ghost x1 = end_x as int;
    let ghost y0 = start_y as int;
    let ghost initial = canvas.pixels@[layer as int].pixels@;
    let ghost old_canvas = *canvas;
    let mut runs: Vec<RunSegment> = Vec::new();
    let mut y = start_y;
    while y < end_y
        invariant
            w == canvas.width,
            width == w,
            h == canvas.height,
            w > 0,
            w * h <= u32::MAX,
            0 <= x0 < x1 <= w,
            start_y <= y <= end_y <= h,
            y0 == start_y,
            x0 == start_x,
            x1 == end_x,
            layer < canvas.pixels@.len(),
            initial.len() == w * h,
            canvas.pixels@[layer as int].pixels@.len() == w * h,
            stroke_frame(old_canvas, *canvas, layer as int),
            canvas.dirty_rect == old_canvas.dirty_rect,
            runs@.len() == y - y0,
            forall|k: int|
                0 <= k < runs@.len() ==> {
                    &&& (#[trigger] runs@[k]).start == (y0 + k) * w + x0
                    &&& runs@[k].length == x1 - x0
                    &&& run_pixels(runs@[k]) == initial.subrange(
                        (y0 + k) * w + x0,
                        (y0 + k) * w + x1,
                    )
                    &&& runs@[k].before matches crate::undo::BeforePixels::Many(v) ==> v@.len()
                        == x1 - x0
                },
            forall|p: int|
                0 <= p < w * h ==> #[trigger] canvas.pixels@[layer as int].pixels@[p] == if in_box(
                    w,
                    x0,
                    y0,
                    x1,
                    y as int,
                    p,
                ) {
                    stroke_value(initial[p], color, alpha_overlay)
                } else {
                    initial[p]
                },
        decreases end_y - y,
    {
        proof {
            lemma_row_fits(y as int, h, w);
        }
        let row_start = (y as usize) * width;
        let start = row_start + (start_x as usize);
        let end = row_start + (end_x as usize);
        let ghost before_row = canvas.pixels@[layer as int].pixels@;
        let captured = capture_span(&canvas.pixels[layer].pixels, start, end);
        proof {
            assert forall|q: int| start <= q < end implies before_row[q] == initial[q] by {
                lemma_box_position(w, y as int, q - y * w);
            }
            assert(captured@ =~= initial.subrange(start as int, end as int));
        }
        let (before, length) = compress_run(captured);
        runs.push(RunSegment { start: start as u32, length, before });
        fill_span(&mut canvas.pixels[layer].pixels, start, end, color, alpha_overlay);
        proof {
            assert forall|p: int| 0 <= p < w * h implies #[trigger] canvas.pixels@[layer as int].pixels@[p]
                == if in_box(w, x0, y0, x1, y + 1, p) {
                stroke_value(initial[p], color, alpha_overlay)
            } else {
                initial[p]
            } by {
                let q = p / w;
                let r = p % w;
                vstd::arithmetic::div_mod::lemma_fundamental_div_mod(p, w);
                vstd::arithmetic::mul::lemma_mul_is_commutative(w, q);
                if start <= p < end {
                    lemma_box_position(w, y as int, p - y * w);
                } else if q == y as int && x0 <= r < x1 {
                    assert(p == y * w + r);
                }
            }
        }
        y = y + 1;
    }
    let ghost painted = canvas.pixels@[layer as int].pixels@;
    proof {
        assert forall|p: int| 0 <= p < w * h implies (covered(runs@, p) <==> in_box(
            w,
            x0,
            y0,
            x1,
            end_y as int,
            p,
        )) by {
            let q = p / w;
            let r = p % w;
            vstd::arithmetic::div_mod::lemma_fundamental_div_mod(p, w);
            vstd::arithmetic::mul::lemma_mul_is_commutative(w, q);
            if in_box(w, x0, y0, x1, end_y as int, p) {
                let k = q - y0;
                assert(in_run(runs@[k], p));
            }
            if covered(runs@, p) {
                let k = choose|k: int| 0 <= k < runs@.len() && in_run(#[trigger] runs@[k], p);
                lemma_box_position(w, y0 + k, p - (y0 + k) * w);
            }
        }
        assert forall|j: int, i: int| 0 <= j < runs@.len() && 0 <= i < runs@[j].length implies #[trigger] run_pixels(
            runs@[j],
        )[i] == initial[runs@[j].start + i] by {
            lemma_row_fits(y0 + j, h, w);
        }
        assert forall|j: int| 0 <= j < runs@.len() implies crate::undo::run_fits(
            #[trigger] runs@[j],
            initial.len(),
        ) by {
            lemma_row_fits(y0 + j, h, w);
        }
    }
    let rect = DirtyRect::new(start_x, start_y, end_x - 1, end_y - 1);
    canvas.dirty_rect.add(rect);
    UndoRecord::Run { layer_index: layer, color_after: color, runs, is_alpha_overlay: alpha_overlay }
}

/// `v` clamped to `[lo, hi]`.
pub open spec fn clampi(v: int, lo: int, hi: int) -> int {
    if v < lo {
        lo
    } else if v > hi {
        hi
    } else {
        v
    }
}

/// First index of the square footprint of radius `r` around `c`, kept
/// inside `[0, n)`.
pub open spec fn foot_lo(c: int, r: int, n: int) -> int {
    clampi(c - r, 0, n - 1)
}

/// One past the last index of the square footprint of radius `r` around
/// `c`, kept inside `[0, n]`.
pub open spec fn foot_hi(c: int, r: int, n: int) -> int {
    clampi(c + r + 1, 0, n)
}

/// The footprint at line point `k` reaches row `y`.
pub open spec fn foot_on_row(pts: Seq<(int, int)>, k: int, r: int, h: int, y: int) -> bool {
    foot_lo(pts[k].1, r, h) <= y < foot_hi(pts[k].1, r, h)
}

/// The leftmost footprint column on row `y` among the first `n` line
/// points (`u32::MAX` when none reaches the row).
pub open spec fn row_lo(pts: Seq<(int, int)>, r: int, w: int, h: int, y: int, n: nat) -> int
    decreases n,
{
    if n == 0 {
        u32::MAX as int
    } else {
        let m = row_lo(pts, r, w, h, y, (n - 1) as nat);
        let lo = foot_lo(pts[n - 1].0, r, w);
        if foot_on_row(pts, n - 1, r, h, y) && lo < m {
            lo
        } else {
            m
        }
    }
}

/// One past the rightmost footprint column on row `y` among the first `n`
/// line points (0 when none reaches the row).
pub open spec fn row_hi(pts: Seq<(int, int)>, r: int, w: int, h: int, y: int, n: nat) -> int
    decreases n,
{
    if n == 0 {
        0
    } else {
        let m = row_hi(pts, r, w, h, y, (n - 1) as nat);
        let hi = foot_hi(pts[n - 1].0, r, w);
        if foot_on_row(pts, n - 1, r, h, y) && hi > m {
            hi
        } else {
            m
        }
    }
}

/// Pixel `(x, y)` lies in the stamped span of its row: between the
/// leftmost and the rightmost edge of the footprints along the line that
/// reach the row.
pub open spec fn square_line_covers(pts: Seq<(int, int)>, r: int, w: int, h: int, x: int, y: int) -> bool {
    row_lo(pts, r, w, h, y, pts.len()) <= x < row_hi(pts, r, w, h, y, pts.len())
}

/// `rect` grown to hold the point `(x, y)`.
pub open spec fn extend_spec(rect: DirtyRect, x: int, y: int) -> DirtyRect {
    union_spec(rect, DirtyRect { min_x: x as u32, min_y: y as u32, max_x: x as u32, max_y: y as u32 })
}

/// `start` grown by both corners of the footprints of the first `n` line
/// points.
pub open spec fn square_line_rect(
    start: DirtyRect,
    pts: Seq<(int, int)>,
    r: int,
    w: int,
    h: int,
    n: nat,
) -> DirtyRect
    decreases n,
{
    if n == 0 {
        start
    } else {
        let p = pts[n - 1];
        let prev = square_line_rect(start, pts, r, w, h, (n - 1) as nat);
        extend_spec(
            extend_spec(prev, foot_lo(p.0, r, w), foot_lo(p.1, r, h)),
            foot_hi(p.0, r, w) - 1,
            foot_hi(p.1, r, h) - 1,
        )
    }
}

proof fn lemma_foot(c: int, r: int, n: int)
    requires
        0 <= c,
        0 <= r,
        0 < n,
    ensures
        0 <= foot_lo(c, r, n) < foot_hi(c, r, n) <= n,
{
}

/// The bounding box of a non-empty line's footprints lies on the canvas.
proof fn lemma_square_line_rect(pts: Seq<(int, int)>, r: int, w: int, h: int, n: nat)
    requires
        0 < w < 0x8000_0000,
        0 < h < 0x8000_0000,
        0 <= r,
        n <= pts.len(),
        forall|k: int| 0 <= k < n ==> 0 <= (#[trigger] pts[k]).0 && 0 <= pts[k].1,
    ensures
        n > 0 ==> ({
            let rect = square_line_rect(empty_rect(), pts, r, w, h, n);
            &&& rect.min_x <= rect.max_x < w
            &&& rect.min_y <= rect.max_y < h
        }),
    decreases n,
{
    if n > 0 {
        lemma_square_line_rect(pts, r, w, h, (n - 1) as nat);
        let p = pts[n - 1];
        lemma_foot(p.0, r, w);
        lemma_foot(p.1, r, h);
        if n == 1 {
            assert(square_line_rect(empty_rect(), pts, r, w, h, 0) == empty_rect());
        }
    }
}

pub(crate) fn clamp_i64(v: i64, lo: i64, hi: i64) -> (c: i64)
    requires
        lo <= hi,
    ensures
        c == clampi(v as int, lo as int, hi as int),
{
    if v < lo {
        lo
    } else if v > hi {
        hi
    } else {
        v
    }
}

/// A row's stamped span: none yet, or `[lo, hi)` within the canvas width.
pub open spec fn row_ok(lo: u32, hi: u32, w: int) -> bool {
    (lo == u32::MAX && hi == 0) || (lo < hi <= w)
}

/// Pixel `p` is stamped by a footprint covering columns `[bsx, bex)` of
/// rows `[bsy, bey)`: it lies there and outside its row's earlier span.
pub open spec fn newly_stamped(
    p: int,
    w: int,
    bsx: int,
    bex: int,
    bsy: int,
    bey: int,
    lo: Seq<u32>,
    hi: Seq<u32>,
) -> bool {
    let y = p / w;
    let x = p % w;
    &&& 0 <= p < w * lo.len()
    &&& bsy <= y < bey
    &&& (if bsx < lo[y] { bsx } else { lo[y] as int }) <= x
    &&& x < (if bex > hi[y] { bex } else { hi[y] as int })
    &&& !(lo[y] <= x < hi[y])
}

pub proof fn lemma_pixel_in_row(p: int, w: int, y: int, a: int, b: int)
    requires
        0 < w,
        0 <= y,
        0 <= a <= b <= w,
        0 <= p,
    ensures
        (y * w + a <= p < y * w + b) <==> (p / w == y && a <= p % w < b),
{
    lemma_row_col(p, w);
    if y * w + a <= p < y * w + b {
        lemma_box_position(w, y, p - y * w);
    }
    if p / w == y && a <= p % w < b {
        assert(p == y * w + p % w);
    }
}

/// Stamp the rows `[bsy, bey)` of a square footprint covering columns
/// `[bsx, bex)`, widening each row's stamped span to hold it and marking
/// only the columns the span gains.
fn stamp_footprint_rows(
    visited: &mut Vec<u32>,
    row_min_x: &mut Vec<u32>,
    row_max_x: &mut Vec<u32>,
    width: usize,
    bsx: u32,
    bex: u32,
    bsy: u32,
    bey: u32,
    stamp: u32,
)
    requires
        0 < width,
        bsx < bex <= width,
        bsy < bey <= old(row_min_x)@.len(),
        old(row_max_x)@.len() == old(row_min_x)@.len(),
        width * old(row_min_x)@.len() <= old(visited)@.len(),
        forall|y: int|
            0 <= y < old(row_min_x)@.len() ==> row_ok(
                #[trigger] old(row_min_x)@[y],
                old(row_max_x)@[y],
                width as int,
            ),
    ensures
        final(visited)@.len() == old(visited)@.len(),
        final(row_min_x)@.len() == old(row_min_x)@.len(),
        final(row_max_x)@.len() == old(row_max_x)@.len(),
        forall|y: int|
            0 <= y < old(row_min_x)@.len() ==> row_ok(
                #[trigger] final(row_min_x)@[y],
                final(row_max_x)@[y],
                width as int,
            ),
        forall|y: int|
            0 <= y < old(row_min_x)@.len() ==> #[trigger] final(row_min_x)@[y] == if bsy <= y < bey
                && bsx < old(row_min_x)@[y] {
                bsx
            } else {
                old(row_min_x)@[y]
            },
        forall|y: int|
            0 <= y < old(row_max_x)@.len() ==> #[trigger] final(row_max_x)@[y] == if bsy <= y < bey
                && bex > old(row_max_x)@[y] {
                bex
            } else {
                old(row_max_x)@[y]
            },
        forall|p: int|
            0 <= p < old(visited)@.len() ==> #[trigger] final(visited)@[p] == if newly_stamped(
                p,
                width as int,
                bsx as int,
                bex as int,
                bsy as int,
                bey as int,
                old(row_min_x)@,
                old(row_max_x)@,
            ) {
                stamp
            } else {
                old(visited)@[p]
            },
{
    let ghost lo0 = row_min_x@;
    let ghost hi0 = row_max_x@;
    let ghost v0 = visited@;
    let ghost w = width as int;
    let ghost h = lo0.len() as int;
    let vlen = visited.len();
    let mut y = bsy as usize;
    while y < bey as usize
        invariant
            vlen == v0.len(),
            bsy <= y <= bey <= h,
            w == width,
            0 < w,
            bsx < bex <= w,
            w * h <= v0.len(),
            lo0.len() == h,
            hi0.len() == h,
            row_min_x@.len() == h,
            row_max_x@.len() == h,
            visited@.len() == v0.len(),
            forall|q: int| 0 <= q < h ==> row_ok(lo0[q], hi0[q], w),
            forall|q: int| 0 <= q < h ==> row_ok(#[trigger] row_min_x@[q], row_max_x@[q], w),
            forall|q: int|
                0 <= q < h ==> #[trigger] row_min_x@[q] == if bsy <= q < y && bsx < lo0[q] {
                    bsx
                } else {
                    lo0[q]
                },
            forall|q: int|
                0 <= q < h ==> #[trigger] row_max_x@[q] == if bsy <= q < y && bex > hi0[q] {
                    bex
                } else {
                    hi0[q]
                },
            forall|p: int|
                0 <= p < v0.len() ==> #[trigger] visited@[p] == if newly_stamped(
                    p,
                    w,
                    bsx as int,
                    bex as int,
                    bsy as int,
                    y as int,
                    lo0,
                    hi0,
                ) {
                    stamp
                } else {
                    v0[p]
                },
        decreases bey - y,
    {
        proof {
            lemma_row_fits(y as int, h, w);
            assert(y * w + w <= v0.len());
        }
        let row_start = y * width;
        let cur_min = row_min_x[y];
        let cur_max = row_max_x[y];
        let ghost vis_before = visited@;
        if cur_min == u32::MAX {
            set_range(visited, row_start + bsx as usize, row_start + bex as usize, stamp);
            row_min_x.set(y, bsx);
            row_max_x.set(y, bex);
            proof {
                assert forall|p: int| 0 <= p < v0.len() implies #[trigger] visited@[p] == if newly_stamped(
                    p,
                    w,
                    bsx as int,
                    bex as int,
                    bsy as int,
                    y + 1,
                    lo0,
                    hi0,
                ) {
                    stamp
                } else {
                    v0[p]
                } by {
                    lemma_pixel_in_row(p, w, y as int, bsx as int, bex as int);
                }
            }
        } else {
            if bsx < cur_min {
                set_range(visited, row_start + bsx as usize, row_start + cur_min as usize, stamp);
                row_min_x.set(y, bsx);
            }
            let ghost vis_mid = visited@;
            if bex > cur_max {
                set_range(visited, row_start + cur_max as usize, row_start + bex as usize, stamp);
                row_max_x.set(y, bex);
            }
            proof {
                assert forall|p: int| 0 <= p < v0.len() implies #[trigger] visited@[p] == if newly_stamped(
                    p,
                    w,
                    bsx as int,
                    bex as int,
                    bsy as int,
                    y + 1,
                    lo0,
                    hi0,
                ) {
                    stamp
                } else {
                    v0[p]
                } by {
                    if bsx < cur_min {
                        lemma_pixel_in_row(p, w, y as int, bsx as int, cur_min as int);
                    }
                    if bex > cur_max {
                        lemma_pixel_in_row(p, w, y as int, cur_max as int, bex as int);
                    }
                    lemma_pixel_in_row(p, w, y as int, 0, w);
                }
            }
        }
        y = y + 1;
    }
}

/// Every point of a line between non-negative end points below the
/// coordinate limit is non-negative.
pub proof fn lemma_line_point_nonneg(x0: int, y0: int, x1: int, y1: int, k: int)
    requires
        0 <= x0 < LINE_COORD_LIMIT,
        0 <= y0 < LINE_COORD_LIMIT,
        0 <= x1 < LINE_COORD_LIMIT,
        0 <= y1 < LINE_COORD_LIMIT,
        0 <= k < line_points(x0, y0, x1, y1).len(),
    ensures
        0 <= line_points(x0, y0, x1, y1)[k].0 < LINE_COORD_LIMIT,
        0 <= line_points(x0, y0, x1, y1)[k].1 < LINE_COORD_LIMIT,
{
    crate::tools::line::lemma_line_point_between(x0, y0, x1, y1, k);
}

/// A line has at least one point.
pub proof fn lemma_line_nonempty(x0: int, y0: int, x1: int, y1: int)
    ensures
        line_points(x0, y0, x1, y1).len() >= 1,
{
    lemma_walk_start(x0, y0, x1, y1);
    let dx = crate::tools::line::abs(x1 - x0);
    let dy = -crate::tools::line::abs(y1 - y0);
    lemma_walk_unfold(x0, y0, x1, y1, x0, y0, dx + dy, (dx - dy + 1) as nat);
}

/// A pixel of a canvas `w` wide and `h` high lies in one of its rows.
pub proof fn lemma_row_below(q: int, w: int, h: int)
    requires
        0 < w,
        0 <= q < w * h,
    ensures
        0 <= q / w < h,
        0 <= q % w < w,
{
    lemma_row_col(q, w);
    if q / w >= h {
        vstd::arithmetic::mul::lemma_mul_inequality(h, q / w, w);
        vstd::arithmetic::mul::lemma_mul_is_commutative(w, h);
    }
}

/// The line's points lie on the non-negative side and within the walk's
/// coordinate limit.
pub proof fn lemma_points_nonneg(x0: int, y0: int, x1: int, y1: int, x: int, y: int, err: int)
    requires
        walk_state(x0, y0, x1, y1, x, y, err),
        0 <= x0 < LINE_COORD_LIMIT,
        0 <= y0 < LINE_COORD_LIMIT,
        0 <= x1 < LINE_COORD_LIMIT,
        0 <= y1 < LINE_COORD_LIMIT,
    ensures
        0 <= x < LINE_COORD_LIMIT,
        0 <= y < LINE_COORD_LIMIT,
        -0x2000_0000_0000_0000 <= err <= 0x2000_0000_0000_0000,
{
    lemma_walk_between(x0, y0, x1, y1, x, y, err);
    lemma_err_magnitude(x0, y0, x1, y1, x, y, err, LINE_COORD_LIMIT as int);
    assert((LINE_COORD_LIMIT as int + 1) * (LINE_COORD_LIMIT as int) <= 0x2000_0000_0000_0000) by (nonlinear_arith);
}

/// Mark in `visited` every pixel the square brush of radius `brush_radius`
/// covers along the line from `(start_x, start_y)` to `(end_x, end_y)`,
/// and grow `dirty_rect` by each footprint.
///
/// Each row keeps the span of columns stamped so far; a footprint only
/// stamps the columns by which it widens that span.  A row's stamped
/// pixels are therefore those between the leftmost and the rightmost
/// footprint edge reaching it ([`square_line_covers`]).  Footprints are
/// clamped to the canvas.
pub fn stamp_line_positions(
    start_x: u32,
    start_y: u32,
    end_x: u32,
    end_y: u32,
    brush_radius: u32,
    width: usize,
    height: u32,
    visited: &mut Vec<u32>,
    stamp: u32,
    dirty_rect: &mut DirtyRect,
)
    requires
        0 < width < 0x8000_0000,
        0 < height < 0x8000_0000,
        width * height <= old(visited)@.len(),
        start_x < LINE_COORD_LIMIT,
        start_y < LINE_COORD_LIMIT,
        end_x < LINE_COORD_LIMIT,
        end_y < LINE_COORD_LIMIT,
        brush_radius < 0x8000_0000,
    ensures
        ({
            let pts = line_points(start_x as int, start_y as int, end_x as int, end_y as int);
            let w = width as int;
            let h = height as int;
            let r = brush_radius as int;
            &&& final(visited)@.len() == old(visited)@.len()
            &&& forall|p: int|
                0 <= p < old(visited)@.len() ==> #[trigger] final(visited)@[p] == if p < w * h
                    && square_line_covers(pts, r, w, h, p % w, p / w) {
                    stamp
                } else {
                    old(visited)@[p]
                }
            &&& *final(dirty_rect) == square_line_rect(*old(dirty_rect), pts, r, w, h, pts.len())
        }),
{
    let ghost pts = line_points(start_x as int, start_y as int, end_x as int, end_y as int);
    let ghost w = width as int;
    let ghost h = height as int;
    let ghost r = brush_radius as int;
    let ghost v0 = visited@;
    let ghost d0 = *dirty_rect;
    let vlen = visited.len();
    let mut row_min_x = filled_u32(height as usize, u32::MAX);
    let mut row_max_x = filled_u32(height as usize, 0);
    let x0 = start_x as i64;
    let y0 = start_y as i64;
    let tx = end_x as i64;
    let ty = end_y as i64;
    let dx: i64 = if tx > x0 { tx - x0 } else { x0 - tx };
    let sx: i64 = if x0 < tx { 1 } else { -1 };
    let dy: i64 = if ty > y0 { y0 - ty } else { ty - y0 };
    let sy: i64 = if y0 < ty { 1 } else { -1 };
    let mut err: i64 = dx + dy;
    let mut cx = x0;
    let mut cy = y0;
    let w64 = width as i64;
    let h64 = height as i64;
    let r64 = brush_radius as i64;
    let ghost fuel0: int = dx - dy + 1;
    let ghost mut k: int = 0;
    proof {
        lemma_walk_start(x0 as int, y0 as int, tx as int, ty as int);
        lemma_walk_unfold(x0 as int, y0 as int, tx as int, ty as int, x0 as int, y0 as int, err as int, fuel0 as nat);
        assert(pts.subrange(0, pts.len() as int) =~= pts);
        assert forall|q: int| 0 <= q < h implies #[trigger] row_min_x@[q] == row_lo(pts, r, w, h, q, 0) && row_max_x@[q] == row_hi(pts, r, w, h, q, 0) && row_ok(row_min_x@[q], row_max_x@[q], w) by {}
    }
    loop
        invariant_except_break
            walk_state(x0 as int, y0 as int, tx as int, ty as int, cx as int, cy as int, err as int),
            0 <= k < pts.len(),
            fuel0 - k >= walk_remaining(x0 as int, y0 as int, tx as int, ty as int, cx as int, cy as int) + 1,
            pts.subrange(k, pts.len() as int) == walk_from(
                cx as int,
                cy as int,
                err as int,
                tx as int,
                ty as int,
                dx as int,
                dy as int,
                sx as int,
                sy as int,
                (fuel0 - k) as nat,
            ),
            forall|q: int|
                0 <= q < h ==> #[trigger] row_min_x@[q] == row_lo(pts, r, w, h, q, k as nat) && row_max_x@[q]
                    == row_hi(pts, r, w, h, q, k as nat),
            forall|q: int|
                0 <= q < v0.len() ==> #[trigger] visited@[q] == if q < w * h && row_lo(pts, r, w, h, q / w, k as nat)
                    <= q % w < row_hi(pts, r, w, h, q / w, k as nat) {
                    stamp
                } else {
                    v0[q]
                },
            *dirty_rect == square_line_rect(d0, pts, r, w, h, k as nat),
        invariant
            pts == line_points(start_x as int, start_y as int, end_x as int, end_y as int),
            x0 == start_x,
            y0 == start_y,
            tx == end_x,
            ty == end_y,
            dx == crate::tools::line::abs(tx - x0),
            dy == -crate::tools::line::abs(ty - y0),
            sx == crate::tools::line::step_dir(x0 as int, tx as int),
            sy == crate::tools::line::step_dir(y0 as int, ty as int),
            fuel0 == dx - dy + 1,
            start_x < LINE_COORD_LIMIT,
            start_y < LINE_COORD_LIMIT,
            end_x < LINE_COORD_LIMIT,
            end_y < LINE_COORD_LIMIT,
            w == width,
            h == height,
            r == brush_radius,
            w64 == w,
            h64 == h,
            r64 == r,
            0 < w < 0x8000_0000,
            0 < h < 0x8000_0000,
            0 <= r < 0x8000_0000,
            w * h <= v0.len(),
            vlen == v0.len(),
            visited@.len() == v0.len(),
            row_min_x@.len() == h,
            row_max_x@.len() == h,
            forall|q: int| 0 <= q < h ==> row_ok(#[trigger] row_min_x@[q], row_max_x@[q], w),
        ensures
            visited@.len() == v0.len(),
            forall|q: int|
                0 <= q < v0.len() ==> #[trigger] visited@[q] == if q < w * h && square_line_covers(
                    pts,
                    r,
                    w,
                    h,
                    q % w,
                    q / w,
                ) {
                    stamp
                } else {
                    v0[q]
                },
            *dirty_rect == square_line_rect(d0, pts, r, w, h, pts.len()),
        decreases walk_remaining(x0 as int, y0 as int, tx as int, ty as int, cx as int, cy as int),
    {
        proof {
            lemma_points_nonneg(x0 as int, y0 as int, tx as int, ty as int, cx as int, cy as int, err as int);
            lemma_walk_unfold(x0 as int, y0 as int, tx as int, ty as int, cx as int, cy as int, err as int, (fuel0 - k) as nat);
            assert(pts[k] == pts.subrange(k, pts.len() as int)[0]);
        }
        let bsx = clamp_i64(cx - r64, 0, w64 - 1);
        let bex = clamp_i64(cx + r64 + 1, 0, w64);
        let bsy = clamp_i64(cy - r64, 0, h64 - 1);
        let bey = clamp_i64(cy + r64 + 1, 0, h64);
        proof {
            lemma_foot(cx as int, r, w);
            lemma_foot(cy as int, r, h);
        }
        dirty_rect.extend(bsx as u32, bsy as u32);
        dirty_rect.extend((bex - 1) as u32, (bey - 1) as u32);
        let ghost lo_before = row_min_x@;
        let ghost hi_before = row_max_x@;
        let ghost vis_before = visited@;
        stamp_footprint_rows(
            visited,
            &mut row_min_x,
            &mut row_max_x,
            width,
            bsx as u32,
            bex as u32,
            bsy as u32,
            bey as u32,
            stamp,
        );
        proof {
            let k1 = (k + 1) as nat;
            assert(square_line_rect(d0, pts, r, w, h, k1) == *dirty_rect);
            assert forall|q: int| 0 <= q < h implies #[trigger] row_min_x@[q] == row_lo(pts, r, w, h, q, k1)
                && row_max_x@[q] == row_hi(pts, r, w, h, q, k1) by {
                assert(lo_before[q] == row_lo(pts, r, w, h, q, k as nat));
                assert(hi_before[q] == row_hi(pts, r, w, h, q, k as nat));
                assert(((k1 - 1) as nat) == k as nat);
            }
            assert forall|q: int| 0 <= q < v0.len() implies #[trigger] visited@[q] == if q < w * h && row_lo(
                pts,
                r,
                w,
                h,
                q / w,
                k1,
            ) <= q % w < row_hi(pts, r, w, h, q / w, k1) {
                stamp
            } else {
                v0[q]
            } by {
                if q < w * h {
                    lemma_row_below(q, w, h);
                    let y = q / w;
                    assert(row_min_x@[y] == row_lo(pts, r, w, h, y, k1));
                    assert(lo_before[y] == row_lo(pts, r, w, h, y, k as nat));
                }
            }
        }
        if cx == tx && cy == ty {
            proof {
                assert(pts.len() == k + 1);
            }
            break;
        }
        let ghost s = pts.subrange(k, pts.len() as int);
        proof {
            lemma_walk_step(x0 as int, y0 as int, tx as int, ty as int, cx as int, cy as int, err as int);
        }
        let (nx, ny, ne) = walk_step(cx, cy, err, dx, dy, sx, sy);
        cx = nx;
        cy = ny;
        err = ne;
        proof {
            lemma_walk_unfold(x0 as int, y0 as int, tx as int, ty as int, cx as int, cy as int, err as int, (fuel0 - k - 1) as nat);
            assert(pts.subrange(k + 1, pts.len() as int) =~= s.drop_first());
            k = k + 1;
        }
    }
}

/// Draw a square-brush line between two points and return an undo record.
///
/// [`stamp_line_positions`] marks the pixels the brush covers along the
/// line with `stamp` in `visited` and collects their bounding box; then
/// every pixel of that box carrying `stamp` is painted (skipping, in
/// alpha-overlay mode, pixels already blended during this drag), with one
/// run per horizontal stretch recording its old pixels, and the box is
/// marked dirty.
pub fn draw_square_line(
    start_x: u32,
    start_y: u32,
    end_x: u32,
    end_y: u32,
    brush_radius: u32,
    canvas: &mut Canvas,
    color: Color32,
    layer: usize,
    visited: &mut Vec<u32>,
    stamp: u32,
    alpha_overlay: bool,
    drag_processed: &mut Vec<u32>,
    drag_stamp_value: u32,
) -> (record: UndoRecord)
    requires
        old(canvas).wf(),
        0 < old(canvas).width < 0x8000_0000,
        0 < old(canvas).height < 0x8000_0000,
        old(canvas).width * old(canvas).height <= u32::MAX,
        layer < old(canvas).pixels@.len(),
        old(canvas).width * old(canvas).height <= old(visited)@.len(),
        alpha_overlay ==> old(canvas).width * old(canvas).height <= old(drag_processed)@.len(),
        start_x < LINE_COORD_LIMIT,
        start_y < LINE_COORD_LIMIT,
        end_x < LINE_COORD_LIMIT,
        end_y < LINE_COORD_LIMIT,
        brush_radius < 0x8000_0000,
    ensures
        ({
            let w = old(canvas).width as int;
            let h = old(canvas).height as int;
            let r = brush_radius as int;
            let pts = line_points(start_x as int, start_y as int, end_x as int, end_y as int);
            let rect = square_line_rect(empty_rect(), pts, r, w, h, pts.len());
            record matches UndoRecord::Run { layer_index, color_after, runs, is_alpha_overlay } && {
                &&& layer_index == layer
                &&& color_after == color
                &&& is_alpha_overlay == alpha_overlay
                &&& stroke_frame(*old(canvas), *final(canvas), layer as int)
                &&& final(visited)@.len() == old(visited)@.len()
                &&& forall|p: int|
                    0 <= p < old(visited)@.len() ==> #[trigger] final(visited)@[p] == if p < w * h
                        && square_line_covers(pts, r, w, h, p % w, p / w) {
                        stamp
                    } else {
                        old(visited)@[p]
                    }
                &&& stroke_recorded(
                    runs@,
                    color,
                    alpha_overlay,
                    old(canvas).pixels@[layer as int].pixels@,
                    final(canvas).pixels@[layer as int].pixels@,
                )
                &&& forall|p: int|
                    0 <= p < w * h ==> (covered(runs@, p) <==> visited_selected(
                        rect,
                        w,
                        final(visited)@,
                        stamp,
                        alpha_overlay,
                        old(drag_processed)@,
                        drag_stamp_value,
                        p,
                    ))
                &&& final(drag_processed)@.len() == old(drag_processed)@.len()
                &&& forall|p: int|
                    0 <= p < old(drag_processed)@.len() ==> #[trigger] final(drag_processed)@[p] == if alpha_overlay
                        && 0 <= p < w * h && covered(runs@, p) {
                        drag_stamp_value
                    } else {
                        old(drag_processed)@[p]
                    }
                &&& marks_dirty(*old(canvas), *final(canvas), rect)
            }
        }),
{
    let width = canvas.width as usize;
    let height = canvas.height;
    let ghost w = width as int;
    let ghost h = height as int;
    let ghost r = brush_radius as int;
    let ghost pts = line_points(start_x as int, start_y as int, end_x as int, end_y as int);
    let ghost old_canvas = *canvas;
    let mut dirty_rect = DirtyRect::empty();
    stamp_line_positions(
        start_x,
        start_y,
        end_x,
        end_y,
        brush_radius,
        width,
        height,
        visited,
        stamp,
        &mut dirty_rect,
    );
    proof {
        crate::tools::line::lemma_walk_start(start_x as int, start_y as int, end_x as int, end_y as int);
        assert forall|k: int| 0 <= k < pts.len() implies 0 <= (#[trigger] pts[k]).0 && 0 <= pts[k].1 by {
            lemma_line_point_nonneg(start_x as int, start_y as int, end_x as int, end_y as int, k);
        }
        lemma_line_nonempty(start_x as int, start_y as int, end_x as int, end_y as int);
        lemma_square_line_rect(pts, r, w, h, pts.len());
        lemma_row_fits(dirty_rect.max_y as int, h, w);
    }
    let runs = apply_visited_runs(
        &mut canvas.pixels[layer].pixels,
        &dirty_rect,
        width,
        visited,
        stamp,
        color,
        alpha_overlay,
        drag_processed,
        drag_stamp_value,
    );
    canvas.dirty_rect.add(dirty_rect);
    proof {
        assert forall|l: int| 0 <= l < old_canvas.pixels@.len() implies (#[trigger] canvas.pixels@[l]).pixels@.len()
            == canvas.width * canvas.height by {}
    }
    UndoRecord::Run { layer_index: layer, color_after: color, runs, is_alpha_overlay: alpha_overlay }
}

} // verus!
