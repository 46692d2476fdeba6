//! Shared brush utilities: span capture and fill, and the visited-pixel
//! run capture used by the line-drawing brushes.

use vstd::prelude::*;

use crate::pixel::alpha_blend;
use crate::pixel::Color32;
use crate::canvas::DirtyRect;
use crate::undo::compress_run;
use crate::undo::covered;
use crate::undo::in_run;
use crate::undo::run_fits;
use crate::undo::run_pixels;
use crate::undo::stroke_recorded;
use crate::undo::stroke_value;
use crate::undo::RunSegment;
use crate::undo::lemma_sequence_ends;
use crate::undo::replay_run;
use crate::undo::runs_in_sequence;

verus! {

/// A copy of `pixels[start..end]`.
pub fn capture_span(pixels: &Vec<Color32>, start: usize, end: usize) -> (v: Vec<Color32>)
    requires
        start <= end <= pixels@.len(),
    ensures
        v@ == pixels@.subrange(start as int, end as int),
{
    let mut v: Vec<Color32> = Vec::with_capacity(end - start);
    let mut i = start;
    while i < end
        invariant
            start <= i <= end <= pixels@.len(),
            v@ == pixels@.subrange(start as int, i as int),
        decreases end - i,
    {
        v.push(pixels[i]);
        i = i + 1;
        assert(v@ =~= pixels@.subrange(start as int, i as int));
    }
    v
}

/// Paint `pixels[start..end]` with `color`, alpha-blending when
/// `alpha_overlay` is set.
pub fn fill_span(pixels: &mut Vec<Color32>, start: usize, end: usize, color: Color32, alpha_overlay: bool)
    requires
        start <= end <= old(pixels)@.len(),
    ensures
        final(pixels)@.len() == old(pixels)@.len(),
        forall|p: int|
            0 <= p < old(pixels)@.len() ==> #[trigger] final(pixels)@[p] == if start <= p < end {
                stroke_value(old(pixels)@[p], color, alpha_overlay)
            } else {
                old(pixels)@[p]
            },
{
    let ghost initial = pixels@;
    let mut i = start;
    while i < end
        invariant
            start <= i <= end <= initial.len(),
            pixels@.len() == initial.len(),
            forall|p: int|
                0 <= p < initial.len() ==> #[trigger] pixels@[p] == if start <= p < i {
                    stroke_value(initial[p], color, alpha_overlay)
                } else {
                    initial[p]
                },
        decreases end - i,
    {
        let value = if alpha_overlay {
            alpha_blend(pixels[i], color)
        } else {
            color
        };
        pixels.set(i, value);
        i = i + 1;
    }
}

/// Pixel `p` is painted by [`apply_visited_runs`]: it lies in the dirty
/// rectangle, carries the stroke's stamp, and (in alpha-overlay mode) was
/// not already painted during this drag.
pub open spec fn visited_selected(
    rect: DirtyRect,
    width: int,
    visited: Seq<u32>,
    stamp: u32,
    alpha_overlay: bool,
    drag_processed: Seq<u32>,
    drag_stamp_value: u32,
    p: int,
) -> bool {
    &&& width > 0
    &&& rect.min_y <= p / width <= rect.max_y
    &&& rect.min_x <= p % width <= rect.max_x
    &&& visited[p] == stamp
    &&& !(alpha_overlay && drag_processed[p] == drag_stamp_value)
}

/// Row-major order of `(q, r)` and `(y, x)` matches the order of their
/// pixel indices.
pub proof fn lemma_row_major_order(q: int, r: int, y: int, x: int, w: int)
    requires
        w > 0,
        0 <= r < w,
        0 <= x <= w,
    ensures
        (q * w + r < y * w + x) <==> (q < y || (q == y && r < x)),
{
    if q < y {
        assert(q * w + r < y * w + x) by (nonlinear_arith)
            requires
                q < y,
                0 <= r < w,
                0 <= x,
                w > 0,
        ;
    } else if q > y {
        assert(q * w + r >= y * w + x) by (nonlinear_arith)
            requires
                q > y,
                0 <= r,
                x <= w,
                w > 0,
        ;
    }
}

/// The row and column of pixel `p` in a canvas `w` wide.
pub proof fn lemma_row_col(p: int, w: int)
    requires
        w > 0,
        0 <= p,
    ensures
        p == (p / w) * w + p % w,
        0 <= p % w < w,
        0 <= p / w,
{
    vstd::arithmetic::div_mod::lemma_fundamental_div_mod(p, w);
    vstd::arithmetic::mul::lemma_mul_is_commutative(w, p / w);
    vstd::arithmetic::div_mod::lemma_div_pos_is_pos(p, w);
}

proof fn lemma_row_in_bounds(y: int, max_y: int, w: int, n: int)
    requires
        0 <= y <= max_y,
        w > 0,
        max_y * w + w <= n,
    ensures
        0 <= y * w,
        y * w + w <= n,
{
    vstd::arithmetic::mul::lemma_mul_inequality(y, max_y, w);
    vstd::arithmetic::mul::lemma_mul_nonnegative(y, w);
}

/// In the scan of [`apply_visited_runs`], pixel `p` comes before the
/// position `(y, x)` (ignoring the rectangle's column bounds).
pub open spec fn before_pos(p: int, w: int, y: int, x: int) -> bool {
    p < y * w + x
}

/// Apply `color` to every selected pixel of the dirty rectangle (see
/// [`visited_selected`]), recording each maximal horizontal run of them
/// with its old pixels; in alpha-overlay mode the painted pixels are marked
/// in `drag_processed` so a later frame of the same drag skips them.
///
/// Returns the runs in row-major order.
pub fn apply_visited_runs(
    pixels: &mut Vec<Color32>,
    dirty_rect: &DirtyRect,
    width: usize,
    visited: &Vec<u32>,
    stamp: u32,
    color: Color32,
    alpha_overlay: bool,
    drag_processed: &mut Vec<u32>,
    drag_stamp_value: u32,
) -> (runs: Vec<RunSegment>)
    requires
        old(pixels)@.len() <= u32::MAX,
        dirty_rect.min_y <= dirty_rect.max_y ==> {
            &&& dirty_rect.min_x <= dirty_rect.max_x < width
            &&& dirty_rect.max_y * width + width <= old(pixels)@.len()
            &&& old(pixels)@.len() <= visited@.len()
            &&& alpha_overlay ==> old(pixels)@.len() <= old(drag_processed)@.len()
        },
    ensures
        final(drag_processed)@.len() == old(drag_processed)@.len(),
        stroke_recorded(runs@, color, alpha_overlay, old(pixels)@, final(pixels)@),
        forall|p: int|
            0 <= p < old(pixels)@.len() ==> (covered(runs@, p) <==> visited_selected(
                *dirty_rect,
                width as int,
                visited@,
                stamp,
                alpha_overlay,
                old(drag_processed)@,
                drag_stamp_value,
                p,
            )),
        forall|p: int|
            0 <= p < old(drag_processed)@.len() ==> #[trigger] final(drag_processed)@[p] == if alpha_overlay
                && 0 <= p < old(pixels)@.len() && covered(runs@, p) {
                drag_stamp_value
            } else {
                old(drag_processed)@[p]
            },
{
    let ghost initial = pixels@;
    let ghost initial_drag = drag_processed@;
    let ghost n = initial.len() as int;
    let ghost w = width as int;
    let ghost rect = *dirty_rect;
    let n_exec = pixels.len();
    let mut runs: Vec<RunSegment> = Vec::new();
    if dirty_rect.min_y > dirty_rect.max_y {
        proof {
            assert(pixels@ =~= initial);
        }
        return runs;
    }
    proof {
        assert forall|p: int| 0 <= p < n && before_pos(p, w, rect.min_y as int, rect.min_x as int) implies !visited_selected(rect, w, visited@, stamp, alpha_overlay, initial_drag, drag_stamp_value, p) by {
            lemma_row_col(p, w);
            lemma_row_major_order(p / w, p % w, rect.min_y as int, rect.min_x as int, w);
        }
    }
    proof {
        lemma_row_in_bounds(rect.max_y as int, rect.max_y as int, w, n);
    }
    let mut y = dirty_rect.min_y;
    loop
        invariant_except_break
            rect.min_y <= y <= rect.max_y,
            forall|p: int|
                0 <= p < n && before_pos(p, w, y as int, rect.min_x as int) ==> (covered(runs@, p)
                    <==> visited_selected(rect, w, visited@, stamp, alpha_overlay, initial_drag, drag_stamp_value, p)),
            forall|p: int|
                0 <= p < n && covered(runs@, p) ==> before_pos(p, w, y as int, rect.min_x as int),
        invariant
            rect == *dirty_rect,
            rect.min_y <= rect.max_y,
            rect.min_x <= rect.max_x < width,
            rect.max_y * w + w <= n,
            w <= n,
            n <= visited@.len(),
            alpha_overlay ==> n <= initial_drag.len(),
            n <= u32::MAX,
            w == width,
            w > 0,
            pixels@.len() == n,
            n_exec == n,
            drag_processed@.len() == initial_drag.len(),
            runs_fit_all(runs@, n),
            crate::undo::runs_record(runs@, initial),
            forall|p: int|
                0 <= p < n ==> #[trigger] pixels@[p] == if covered(runs@, p) {
                    stroke_value(initial[p], color, alpha_overlay)
                } else {
                    initial[p]
                },
            forall|p: int|
                0 <= p < initial_drag.len() ==> #[trigger] drag_processed@[p] == if alpha_overlay && 0
                    <= p < n && covered(runs@, p) {
                    drag_stamp_value
                } else {
                    initial_drag[p]
                },
        ensures
            forall|p: int| 0 <= p < n ==> (covered(runs@, p) <==> visited_selected(rect, w, visited@, stamp, alpha_overlay, initial_drag, drag_stamp_value, p)),
        decreases rect.max_y - y,
    {
        proof {
            lemma_row_in_bounds(y as int, rect.max_y as int, w, n);
        }
        let row_start = (y as usize) * width;
        let mut x = dirty_rect.min_x;
        while x <= dirty_rect.max_x
            invariant
                rect == *dirty_rect,
                rect.min_x <= x <= rect.max_x + 1,
                rect.min_x <= rect.max_x < width,
                rect.min_y <= y <= rect.max_y,
                row_start == y * w,
                0 <= y * w,
                y * w + w <= n,
                w <= n,
                n <= visited@.len(),
                alpha_overlay ==> n <= initial_drag.len(),
                n <= u32::MAX,
                w == width,
                w > 0,
                pixels@.len() == n,
                n_exec == n,
            n_exec == n,
                drag_processed@.len() == initial_drag.len(),
                runs_fit_all(runs@, n),
                crate::undo::runs_record(runs@, initial),
                forall|p: int|
                    0 <= p < n ==> #[trigger] pixels@[p] == if covered(runs@, p) {
                        stroke_value(initial[p], color, alpha_overlay)
                    } else {
                        initial[p]
                    },
                forall|p: int|
                    0 <= p < initial_drag.len() ==> #[trigger] drag_processed@[p] == if alpha_overlay
                        && 0 <= p < n && covered(runs@, p) {
                        drag_stamp_value
                    } else {
                        initial_drag[p]
                    },
                forall|p: int|
                    0 <= p < n && before_pos(p, w, y as int, x as int) ==> (covered(runs@, p) <==> visited_selected(rect, w, visited@, stamp, alpha_overlay, initial_drag, drag_stamp_value, p)),
                forall|p: int| 0 <= p < n && covered(runs@, p) ==> before_pos(p, w, y as int, x as int),
            decreases rect.max_x + 1 - x,
        {
            let pixel_index = row_start + x as usize;
            proof {
                lemma_row_col(pixel_index as int, w);
                lemma_row_major_order((pixel_index as int) / w, (pixel_index as int) % w, y as int, x as int, w);
                lemma_row_major_order(y as int, x as int, (pixel_index as int) / w, (pixel_index as int) % w, w);
                assert(!covered(runs@, pixel_index as int));
            }
            if visited[pixel_index] != stamp || (alpha_overlay && drag_processed[pixel_index]
                == drag_stamp_value) {
                proof {
                    assert(!visited_selected(rect, w, visited@, stamp, alpha_overlay, initial_drag, drag_stamp_value, pixel_index as int));
                }
                x = x + 1;
            } else {
                let run_start = pixel_index;
                let ghost x_start = x as int;
                let ghost before_run = pixels@;
                let ghost drag_before_run = drag_processed@;
                let ghost runs_before = runs@;
                let mut before: Vec<Color32> = Vec::new();
                while x <= dirty_rect.max_x
                    invariant
                        rect == *dirty_rect,
                        x_start <= x <= rect.max_x + 1,
                        x_start <= rect.max_x,
                        n <= u32::MAX,
                        rect.min_x <= x_start,
                        rect.min_y <= y <= rect.max_y,
                        w <= n,
                        x == x_start ==> (visited@[run_start as int] == stamp && !(alpha_overlay
                            && drag_processed@[run_start as int] == drag_stamp_value)),
                        rect.min_x <= rect.max_x < width,
                        run_start == y * w + x_start,
                        row_start == y * w,
                        0 <= y * w,
                        y * w + w <= n,
                        n <= visited@.len(),
                        alpha_overlay ==> n <= initial_drag.len(),
                        w == width,
                        w > 0,
                        pixels@.len() == n,
                        n_exec == n,
                n_exec == n,
            n_exec == n,
                        drag_processed@.len() == initial_drag.len(),
                        runs@ == runs_before,
                        before@.len() == x - x_start,
                        forall|i: int|
                            0 <= i < before@.len() ==> #[trigger] before@[i] == initial[run_start + i],
                        forall|q: int| run_start <= q < y * w + x ==> #[trigger] visited_selected(rect, w, visited@, stamp, alpha_overlay, initial_drag, drag_stamp_value, q),
                        forall|q: int| run_start <= q < n ==> !#[trigger] covered(runs@, q),
                        forall|p: int|
                            0 <= p < n && before_pos(p, w, y as int, x_start) ==> (covered(runs_before, p) <==> #[trigger] visited_selected(rect, w, visited@, stamp, alpha_overlay, initial_drag, drag_stamp_value, p)),
                        forall|p: int| 0 <= p < n && #[trigger] covered(runs_before, p) ==> before_pos(p, w, y as int, x_start),
                        forall|p: int|
                            0 <= p < n ==> #[trigger] pixels@[p] == if run_start <= p < y * w + x {
                                stroke_value(initial[p], color, alpha_overlay)
                            } else {
                                before_run[p]
                            },
                        forall|p: int|
                            0 <= p < initial_drag.len() ==> #[trigger] drag_processed@[p] == if alpha_overlay
                                && run_start <= p < y * w + x {
                                drag_stamp_value
                            } else {
                                drag_before_run[p]
                            },
                        forall|p: int|
                            0 <= p < n ==> #[trigger] before_run[p] == if covered(runs@, p) {
                                stroke_value(initial[p], color, alpha_overlay)
                            } else {
                                initial[p]
                            },
                        forall|p: int|
                            0 <= p < initial_drag.len() ==> #[trigger] drag_before_run[p] == if alpha_overlay
                                && 0 <= p < n && covered(runs@, p) {
                                drag_stamp_value
                            } else {
                                initial_drag[p]
                            },
                    ensures
                        x > x_start,
                    decreases rect.max_x + 1 - x,
                {
                    let next_pixel_index = row_start + x as usize;
                    proof {
                        lemma_row_col(next_pixel_index as int, w);
                        lemma_row_major_order((next_pixel_index as int) / w, (next_pixel_index as int) % w, y as int, x as int, w);
                        lemma_row_major_order(y as int, x as int, (next_pixel_index as int) / w, (next_pixel_index as int) % w, w);
                    }
                    if visited[next_pixel_index] != stamp {
                        break;
                    }
                    if alpha_overlay && drag_processed[next_pixel_index] == drag_stamp_value {
                        break;
                    }
                    proof {
                        assert(visited_selected(rect, w, visited@, stamp, alpha_overlay, initial_drag, drag_stamp_value, next_pixel_index as int));
                    }
                    let current = pixels[next_pixel_index];
                    before.push(current);
                    let value = if alpha_overlay {
                        alpha_blend(current, color)
                    } else {
                        color
                    };
                    pixels.set(next_pixel_index, value);
                    if alpha_overlay {
                        drag_processed.set(next_pixel_index, drag_stamp_value);
                    }
                    x = x + 1;
                }
                let ghost run_end = y * w + x;
                proof {
                    if x <= rect.max_x {
                        let q = run_end;
                        lemma_row_col(q, w);
                        lemma_row_major_order(q / w, q % w, y as int, x as int, w);
                        lemma_row_major_order(y as int, x as int, q / w, q % w, w);
                    }
                }
                let (rle_before, length) = compress_run(before);
                let ghost run = RunSegment { start: run_start as u32, length, before: rle_before };
                runs.push(RunSegment { start: run_start as u32, length, before: rle_before });
                proof {
                    assert(runs@ == runs_before.push(run));
                    assert forall|p: int| #[trigger] covered(runs@, p) <==> (covered(runs_before, p) || (
                    run_start <= p < run_end)) by {
                        if covered(runs@, p) {
                            let j = choose|j: int| 0 <= j < runs@.len() && in_run(#[trigger] runs@[j], p);
                            if j < runs_before.len() {
                                assert(runs_before[j] == runs@[j]);
                            }
                        }
                        if covered(runs_before, p) {
                            let j = choose|j: int| 0 <= j < runs_before.len() && in_run(#[trigger] runs_before[j], p);
                            assert(runs@[j] == runs_before[j]);
                        }
                        if run_start <= p < run_end {
                            assert(in_run(runs@[runs@.len() - 1], p));
                        }
                    }
                    assert forall|j: int, i: int| 0 <= j < runs@.len() && 0 <= i < runs@[j].length implies #[trigger] run_pixels(
                        runs@[j],
                    )[i] == initial[runs@[j].start + i] by {
                        if j < runs_before.len() {
                            assert(runs@[j] == runs_before[j]);
                        }
                    }
                    assert forall|j: int| 0 <= j < runs@.len() implies run_fits(#[trigger] runs@[j], n as nat) by {
                        if j < runs_before.len() {
                            assert(runs@[j] == runs_before[j]);
                        }
                    }
                    assert forall|p: int| 0 <= p < n && #[trigger] covered(runs@, p) implies before_pos(p, w, y as int, x as int) by {
                        if covered(runs_before, p) {}
                    }
                    assert forall|p: int|
                        0 <= p < n && before_pos(p, w, y as int, x as int) implies (covered(runs@, p) <==> visited_selected(rect, w, visited@, stamp, alpha_overlay, initial_drag, drag_stamp_value, p)) by {
                        if !before_pos(p, w, y as int, x_start) {
                            if p == run_end {
                            }
                        }
                    }
                }
            }
        }
        proof {
            let next_row = y + 1;
            vstd::arithmetic::mul::lemma_mul_is_distributive_add_other_way(w, y as int, 1);
            assert forall|p: int| 0 <= p < n && #[trigger] covered(runs@, p) implies before_pos(p, w, next_row as int, rect.min_x as int) by {}
            assert forall|p: int|
                0 <= p < n && !before_pos(p, w, y as int, (rect.max_x + 1) as int) && (y == rect.max_y
                    || before_pos(p, w, next_row as int, rect.min_x as int)) implies !visited_selected(rect, w, visited@, stamp, alpha_overlay, initial_drag, drag_stamp_value, p) by {
                lemma_row_col(p, w);
                lemma_row_major_order(p / w, p % w, y as int, (rect.max_x + 1) as int, w);
                lemma_row_major_order(p / w, p % w, next_row as int, rect.min_x as int, w);
            }
        }
        if y == dirty_rect.max_y {
            proof {
                assert(x == rect.max_x + 1);
                assert forall|p: int| 0 <= p < n implies (covered(runs@, p) <==> visited_selected(rect, w, visited@, stamp, alpha_overlay, initial_drag, drag_stamp_value, p)) by {
                    if !before_pos(p, w, y as int, (rect.max_x + 1) as int) {
                        assert(!before_pos(p, w, y as int, x as int));
                        assert(!covered(runs@, p));
                        lemma_row_col(p, w);
                        lemma_row_major_order(p / w, p % w, y as int, (rect.max_x + 1) as int, w);
                    } else {
                        assert(before_pos(p, w, y as int, x as int));
                    }
                }
            }
            break;
        }
        y = y + 1;
    }
    runs
}

/// Every run of `runs` lies within a layer of `n` pixels.
pub open spec fn runs_fit_all(runs: Seq<RunSegment>, n: int) -> bool {
    forall|j: int| 0 <= j < runs.len() ==> run_fits(#[trigger] runs[j], n as nat)
}

/// The pixels of a layer after a partial stroke: covered pixels hold the
/// stroke value of their initial colour, the rest their initial colour.
pub open spec fn painted_by(
    runs: Seq<RunSegment>,
    color: Color32,
    alpha_overlay: bool,
    initial: Seq<Color32>,
    current: Seq<Color32>,
) -> bool {
    &&& current.len() == initial.len()
    &&& runs_fit_all(runs, initial.len() as int)
    &&& crate::undo::runs_record(runs, initial)
    &&& forall|p: int|
        0 <= p < initial.len() ==> #[trigger] current[p] == if covered(runs, p) {
            stroke_value(initial[p], color, alpha_overlay)
        } else {
            initial[p]
        }
}

/// Paint the span `[start, end)` of a layer and append a run recording its
/// old pixels.  The span must not overlap the runs recorded so far.
pub fn record_span(
    pixels: &mut Vec<Color32>,
    runs: &mut Vec<RunSegment>,
    start: usize,
    end: usize,
    color: Color32,
    alpha_overlay: bool,
    Ghost(initial): Ghost<Seq<Color32>>,
)
    requires
        start <= end <= old(pixels)@.len(),
        old(pixels)@.len() <= u32::MAX,
        painted_by(old(runs)@, color, alpha_overlay, initial, old(pixels)@),
        forall|p: int| start <= p < end ==> !#[trigger] covered(old(runs)@, p),
    ensures
        painted_by(final(runs)@, color, alpha_overlay, initial, final(pixels)@),
        final(runs)@.len() == old(runs)@.len() + 1,
        forall|j: int| 0 <= j < old(runs)@.len() ==> #[trigger] final(runs)@[j] == old(runs)@[j],
        forall|p: int| #[trigger] covered(final(runs)@, p) <==> (covered(old(runs)@, p) || (start <= p < end)),
{
    let ghost runs_before = runs@;
    let ghost pixels_before = pixels@;
    let captured = capture_span(pixels, start, end);
    proof {
        assert forall|q: int| start <= q < end implies pixels_before[q] == initial[q] by {}
        assert(captured@ =~= initial.subrange(start as int, end as int));
    }
    let (before, length) = compress_run(captured);
    let ghost run = RunSegment { start: start as u32, length, before };
    runs.push(RunSegment { start: start as u32, length, before });
    fill_span(pixels, start, end, color, alpha_overlay);
    proof {
        assert(runs@ == runs_before.push(run));
        assert forall|p: int| #[trigger] covered(runs@, p) <==> (covered(runs_before, p) || (start <= p < end)) by {
            if covered(runs@, p) {
                let j = choose|j: int| 0 <= j < runs@.len() && in_run(#[trigger] runs@[j], p);
                if j < runs_before.len() {
                    assert(runs_before[j] == runs@[j]);
                }
            }
            if covered(runs_before, p) {
                let j = choose|j: int| 0 <= j < runs_before.len() && in_run(#[trigger] runs_before[j], p);
                assert(runs@[j] == runs_before[j]);
            }
            if start <= p < end {
                assert(in_run(runs@[runs@.len() - 1], p));
            }
        }
        assert forall|j: int, i: int| 0 <= j < runs@.len() && 0 <= i < runs@[j].length implies #[trigger] run_pixels(
            runs@[j],
        )[i] == initial[runs@[j].start + i] by {
            if j < runs_before.len() {
                assert(runs@[j] == runs_before[j]);
            }
        }
        assert forall|j: int| 0 <= j < runs@.len() implies run_fits(#[trigger] runs@[j], initial.len() as nat) by {
            if j < runs_before.len() {
                assert(runs@[j] == runs_before[j]);
            }
        }
    }
}

/// A vector of `n` copies of `value`.
pub fn filled_u32(n: usize, value: u32) -> (v: Vec<u32>)
    ensures
        v@ == Seq::new(n as nat, |i: int| value),
{
    let mut v: Vec<u32> = Vec::with_capacity(n);
    let mut i: usize = 0;
    while i < n
        invariant
            i <= n,
            v@ == Seq::new(i as nat, |j: int| value),
        decreases n - i,
    {
        v.push(value);
        i = i + 1;
        assert(v@ =~= Seq::new(i as nat, |j: int| value));
    }
    v
}

/// Set `v[start..end]` to `value`.
pub fn set_range(v: &mut Vec<u32>, start: usize, end: usize, value: u32)
    requires
        start <= end <= old(v)@.len(),
    ensures
        final(v)@.len() == old(v)@.len(),
        forall|p: int|
            0 <= p < old(v)@.len() ==> #[trigger] final(v)@[p] == if start <= p < end {
                value
            } else {
                old(v)@[p]
            },
{
    let ghost initial = v@;
    let mut i = start;
    while i < end
        invariant
            start <= i <= end <= initial.len(),
            v@.len() == initial.len(),
            forall|p: int|
                0 <= p < initial.len() ==> #[trigger] v@[p] == if start <= p < i {
                    value
                } else {
                    initial[p]
                },
        decreases end - i,
    {
        v.set(i, value);
        i = i + 1;
    }
}

/// Paint the span `[start, end)` of a layer and append a run recording its
/// pixels just before, continuing a sequence of runs recorded one after
/// another.
pub fn record_span_in_sequence(
    pixels: &mut Vec<Color32>,
    runs: &mut Vec<RunSegment>,
    start: usize,
    end: usize,
    color: Color32,
    alpha_overlay: bool,
    Ghost(initial): Ghost<Seq<Color32>>,
)
    requires
        start <= end <= old(pixels)@.len(),
        old(pixels)@.len() <= u32::MAX,
        runs_in_sequence(old(runs)@, color, alpha_overlay, initial, old(pixels)@),
    ensures
        runs_in_sequence(final(runs)@, color, alpha_overlay, initial, final(pixels)@),
        final(runs)@.len() == old(runs)@.len() + 1,
        final(runs)@.drop_last() == old(runs)@,
        final(runs)@.last().start == start,
        final(runs)@.last().length == end - start,
        final(pixels)@ == replay_run(old(pixels)@, final(runs)@.last(), color, alpha_overlay),
        final(pixels)@.len() == old(pixels)@.len(),
        forall|p: int|
            0 <= p < old(pixels)@.len() ==> #[trigger] final(pixels)@[p] == if start <= p < end {
                stroke_value(old(pixels)@[p], color, alpha_overlay)
            } else {
                old(pixels)@[p]
            },
        forall|p: int| #[trigger] covered(final(runs)@, p) <==> (covered(old(runs)@, p) || (start <= p < end)),
{
    let ghost runs_before = runs@;
    let ghost pixels_before = pixels@;
    proof {
        lemma_sequence_ends(runs_before, color, alpha_overlay, initial, pixels_before);
    }
    let captured = capture_span(pixels, start, end);
    let (before, length) = compress_run(captured);
    let ghost run = RunSegment { start: start as u32, length, before };
    runs.push(RunSegment { start: start as u32, length, before });
    fill_span(pixels, start, end, color, alpha_overlay);
    proof {
        assert(runs@ == runs_before.push(run));
        assert(runs@.drop_last() =~= runs_before);
        assert(runs@.last() == run);
        assert(pixels@ =~= replay_run(pixels_before, run, color, alpha_overlay));
        assert forall|p: int| #[trigger] covered(runs@, p) <==> (covered(runs_before, p) || (start <= p < end)) by {
            if covered(runs@, p) {
                let j = choose|j: int| 0 <= j < runs@.len() && in_run(#[trigger] runs@[j], p);
                if j < runs_before.len() {
                    assert(runs_before[j] == runs@[j]);
                }
            }
            if covered(runs_before, p) {
                let j = choose|j: int| 0 <= j < runs_before.len() && in_run(#[trigger] runs_before[j], p);
                assert(runs@[j] == runs_before[j]);
            }
            if start <= p < end {
                assert(in_run(runs@[runs@.len() - 1], p));
            }
        }
    }
}

} // verus!
