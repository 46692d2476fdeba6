//! Scanline flood fill: [`draw_bucket_fill`] replaces a contiguous region
//! of same-coloured pixels with a new colour.

use vstd::prelude::*;

use crate::canvas::Canvas;
use crate::canvas::DirtyRect;
use crate::canvas::empty_rect;
use crate::pixel::alpha_blend;
use crate::pixel::Color32;
use crate::tools::brush_common::record_span_in_sequence;
use crate::tools::fill_region::closed_but_pending;
use crate::tools::fill_region::joined;
use crate::tools::fill_region::lemma_fill_complete;
use crate::tools::fill_region::lemma_pending_intro;
use crate::tools::fill_region::lemma_runs_joined_elim;
use crate::tools::fill_region::lemma_runs_joined_empty;
use crate::tools::fill_region::lemma_seeds_joined_pop;
use crate::tools::fill_region::lemma_seeds_joined_start;
use crate::tools::fill_region::lemma_pending_prefix;
use crate::tools::fill_region::lemma_pop_stale;
use crate::tools::fill_region::lemma_pushed_joined;
use crate::tools::fill_region::lemma_region_covered;
use crate::tools::fill_region::lemma_span_joined;
use crate::tools::fill_region::lemma_step_closed;
use crate::tools::fill_region::pending;
use crate::tools::fill_region::pixel_at;
use crate::tools::fill_region::run_of;
use crate::tools::fill_region::runs_joined;
use crate::tools::fill_region::seeds_joined;
use crate::tools::square_brush::extend_spec;
use crate::tools::square_brush::lemma_pixel_in_row;
use crate::tools::square_brush::lemma_row_below;
use crate::tools::square_brush::lemma_row_fits;
use crate::tools::square_brush::marks_dirty;
use crate::tools::square_brush::stroke_frame;
use crate::undo::covered;
use crate::undo::in_run;
use crate::undo::lemma_sequence_ends;
use crate::undo::redo_runs;
use crate::undo::replay_run;
use crate::undo::run_fits;
use crate::undo::run_pixels;
use crate::undo::runs_in_sequence;
use crate::undo::stroke_value;
use crate::undo::RunSegment;
use crate::undo::UndoRecord;

verus! {

/// The number of pixels of `s` equal to `t`.
pub open spec fn count_eq(s: Seq<Color32>, t: Color32) -> nat
    decreases s.len(),
{
    if s.len() == 0 {
        0
    } else {
        count_eq(s.drop_last(), t) + if s.last() == t {
            1nat
        } else {
            0nat
        }
    }
}

proof fn lemma_count_le(s1: Seq<Color32>, s2: Seq<Color32>, t: Color32)
    requires
        s1.len() == s2.len(),
        forall|p: int| 0 <= p < s2.len() && #[trigger] s2[p] == t ==> s1[p] == t,
    ensures
        count_eq(s2, t) <= count_eq(s1, t),
    decreases s1.len(),
{
    if s1.len() > 0 {
        let a = s1.drop_last();
        let b = s2.drop_last();
        assert forall|p: int| 0 <= p < b.len() && #[trigger] b[p] == t implies a[p] == t by {
            assert(b[p] == s2[p]);
        }
        lemma_count_le(a, b, t);
    }
}

proof fn lemma_count_lt(s1: Seq<Color32>, s2: Seq<Color32>, t: Color32, q: int)
    requires
        s1.len() == s2.len(),
        forall|p: int| 0 <= p < s2.len() && #[trigger] s2[p] == t ==> s1[p] == t,
        0 <= q < s1.len(),
        s1[q] == t,
        s2[q] != t,
    ensures
        count_eq(s2, t) < count_eq(s1, t),
    decreases s1.len(),
{
    let a = s1.drop_last();
    let b = s2.drop_last();
    assert forall|p: int| 0 <= p < b.len() && #[trigger] b[p] == t implies a[p] == t by {
        assert(b[p] == s2[p]);
    }
    if q == s1.len() - 1 {
        lemma_count_le(a, b, t);
    } else {
        assert(a[q] == s1[q]);
        assert(b[q] == s2[q]);
        lemma_count_lt(a, b, t, q);
    }
}

/// The pixel index of a stack entry `(x, y)` on a canvas `w` wide.
pub open spec fn entry_index(e: (u32, u32), w: int) -> int {
    e.1 * w + e.0
}

/// The number of stack entries whose pixel still holds `t`.
pub open spec fn fresh_count(stack: Seq<(u32, u32)>, px: Seq<Color32>, w: int, t: Color32) -> nat
    decreases stack.len(),
{
    if stack.len() == 0 {
        0
    } else {
        fresh_count(stack.drop_last(), px, w, t) + if px[entry_index(stack.last(), w)] == t {
            1nat
        } else {
            0nat
        }
    }
}

proof fn lemma_fresh_le(stack: Seq<(u32, u32)>, px: Seq<Color32>, w: int, t: Color32)
    ensures
        fresh_count(stack, px, w, t) <= stack.len(),
    decreases stack.len(),
{
    if stack.len() > 0 {
        lemma_fresh_le(stack.drop_last(), px, w, t);
    }
}

proof fn lemma_fresh_same(stack: Seq<(u32, u32)>, px1: Seq<Color32>, px2: Seq<Color32>, w: int, t: Color32)
    requires
        forall|i: int|
            0 <= i < stack.len() ==> (px1[entry_index(#[trigger] stack[i], w)] == t) == (px2[entry_index(
                stack[i],
                w,
            )] == t),
    ensures
        fresh_count(stack, px1, w, t) == fresh_count(stack, px2, w, t),
    decreases stack.len(),
{
    if stack.len() > 0 {
        let init = stack.drop_last();
        assert forall|i: int| 0 <= i < init.len() implies (px1[entry_index(#[trigger] init[i], w)] == t) == (
        px2[entry_index(init[i], w)] == t) by {
            assert(init[i] == stack[i]);
        }
        lemma_fresh_same(init, px1, px2, w, t);
        assert(stack.last() == stack[stack.len() - 1]);
    }
}

/// Push a seed for each stretch of `target` pixels in columns
/// `[search_left, search_right]` of row `row`: its first pixel in the
/// range.
fn push_row_seeds(
    pixels: &Vec<Color32>,
    stack: &mut Vec<(u32, u32)>,
    row: u32,
    width: usize,
    search_left: usize,
    search_right: usize,
    target: Color32,
)
    requires
        0 < width,
        search_left <= search_right < width,
        width <= u32::MAX,
        (row + 1) * width <= pixels@.len(),
    ensures
        final(stack)@.len() >= old(stack)@.len(),
        final(stack)@.subrange(0, old(stack)@.len() as int) == old(stack)@,
        forall|i: int|
            old(stack)@.len() <= i < final(stack)@.len() ==> {
                &&& (#[trigger] final(stack)@[i]).1 == row
                &&& search_left <= final(stack)@[i].0 <= search_right
                &&& pixels@[entry_index(final(stack)@[i], width as int)] == target
            },
        final(stack)@.len() - fresh_count(final(stack)@, pixels@, width as int, target) == old(stack)@.len()
            - fresh_count(old(stack)@, pixels@, width as int, target),
        forall|c: int|
            search_left <= c <= search_right && #[trigger] pixels@[pixel_at(row as int, c, width as int)] == target
                ==> pending(final(stack)@, pixels@, target, width as int, row as int, c),
{
    let ghost s0 = stack@;
    let ghost w = width as int;
    proof {
        lemma_fresh_le(s0, pixels@, w, target);
        assert(row * w + w <= pixels@.len()) by (nonlinear_arith)
            requires
                (row + 1) * w <= pixels@.len(),
        ;
        assert(0 <= row * w) by (nonlinear_arith)
            requires
                0 <= row,
                0 < w,
        ;
    }
    let plen = pixels.len();
    let row_start = (row as usize) * width;
    let mut check_x = search_left;
    while check_x <= search_right
        invariant
            plen == pixels@.len(),
            s0 == old(stack)@,
            search_left <= check_x <= search_right + 1,
            search_right < width,
            w == width,
            width <= u32::MAX,
            row_start == row * w,
            row_start + w <= pixels@.len(),
            stack@.len() >= s0.len(),
            stack@.subrange(0, s0.len() as int) == s0,
            forall|i: int|
                s0.len() <= i < stack@.len() ==> {
                    &&& (#[trigger] stack@[i]).1 == row
                    &&& search_left <= stack@[i].0 <= search_right
                    &&& pixels@[entry_index(stack@[i], w)] == target
                },
            stack@.len() - fresh_count(stack@, pixels@, w, target) == s0.len() - fresh_count(
                s0,
                pixels@,
                w,
                target,
            ),
            forall|c: int|
                search_left <= c < check_x && #[trigger] pixels@[pixel_at(row as int, c, w)] == target ==> pending(
                    stack@,
                    pixels@,
                    target,
                    w,
                    row as int,
                    c,
                ),
        decreases search_right + 1 - check_x,
    {
        if pixels[row_start + check_x] == target {
            let ghost before = stack@;
            let e = (check_x as u32, row);
            stack.push(e);
            let ghost cx0 = check_x as int;
            proof {
                assert(stack@.drop_last() =~= before);
                assert(stack@.subrange(0, s0.len() as int) =~= before.subrange(0, s0.len() as int));
                assert(entry_index(e, w) == row_start + check_x);
                assert(stack@.subrange(0, before.len() as int) =~= before);
                assert forall|c: int|
                    search_left <= c < cx0 && #[trigger] pixels@[pixel_at(row as int, c, w)] == target implies pending(
                    stack@,
                    pixels@,
                    target,
                    w,
                    row as int,
                    c,
                ) by {
                    lemma_pending_prefix(before, stack@, pixels@, target, w, row as int, c);
                }
            }
            let ghost stack_e = stack@;
            while check_x <= search_right && pixels[row_start + check_x] == target
                invariant
                    cx0 <= check_x,
                    cx0 <= search_right,
                    row_start == row * w,
                    check_x == cx0 ==> pixels@[row_start + cx0] == target,
                    plen == pixels@.len(),
                    search_left <= cx0,
                    search_left <= check_x <= search_right + 1,
                    search_right < width,
                    row_start + w <= pixels@.len(),
                    w == width,
                    stack@ == stack_e,
                    stack_e.len() > 0,
                    stack_e[stack_e.len() - 1] == (cx0 as u32, row),
                    forall|c: int| cx0 <= c < check_x ==> #[trigger] pixels@[pixel_at(row as int, c, w)] == target,
                    forall|c: int|
                        search_left <= c < cx0 && #[trigger] pixels@[pixel_at(row as int, c, w)] == target ==> pending(
                            stack@,
                            pixels@,
                            target,
                            w,
                            row as int,
                            c,
                        ),
                decreases search_right + 1 - check_x,
            {
                assert(pixels@[pixel_at(row as int, check_x as int, w)] == pixels@[row_start + check_x]);
                check_x = check_x + 1;
            }
            proof {
                assert forall|c: int|
                    search_left <= c < check_x && #[trigger] pixels@[pixel_at(row as int, c, w)] == target implies pending(
                    stack@,
                    pixels@,
                    target,
                    w,
                    row as int,
                    c,
                ) by {
                    if c >= cx0 {
                        let i = stack_e.len() - 1;
                        assert(run_of(pixels@, target, w, row as int, stack@[i].0 as int, c));
                        lemma_pending_intro(stack@, pixels@, target, w, row as int, c, i);
                    }
                }
            }
        } else {
            assert(pixels@[pixel_at(row as int, check_x as int, w)] == pixels@[row_start + check_x]);
            check_x = check_x + 1;
        }
    }
}

/// The bounding box of the runs' pixels on a canvas `w` wide, each run
/// lying in one row.
pub open spec fn runs_bbox(runs: Seq<RunSegment>, w: int) -> DirtyRect
    decreases runs.len(),
{
    if runs.len() == 0 {
        empty_rect()
    } else {
        let r = runs.last();
        let y = (r.start as int) / w;
        extend_spec(
            extend_spec(runs_bbox(runs.drop_last(), w), (r.start as int) % w, y),
            (r.start + r.length - 1) % w,
            y,
        )
    }
}

/// Run `r` is a non-empty stretch of one row of a `w` by `h` canvas.
pub open spec fn run_in_row(r: RunSegment, w: int, h: int) -> bool {
    &&& r.length >= 1
    &&& (r.start as int) % w + r.length <= w
    &&& (r.start as int) / w < h
}

/// Run `r` is a whole stretch of `t`-coloured pixels of `layer` in its
/// row: each neighbour it has in the row holds another colour.
#[verifier::opaque]
pub open spec fn run_maximal(r: RunSegment, layer: Seq<Color32>, t: Color32, w: int) -> bool {
    &&& (r.start as int) % w == 0 || layer[r.start - 1] != t
    &&& (r.start as int) % w + r.length == w || layer[r.start + r.length] != t
}

/// No pixel lies in two of the runs.
#[verifier::opaque]
pub open spec fn runs_disjoint(runs: Seq<RunSegment>) -> bool {
    forall|j: int, k: int, p: int|
        #![trigger in_run(runs[j], p), in_run(runs[k], p)]
        0 <= j < k < runs.len() && in_run(runs[j], p) ==> !in_run(runs[k], p)
}

/// Every run stores `t` for each of its pixels, is a whole stretch of
/// `t`-coloured pixels of `layer` in its row ([`run_maximal`]), and no
/// pixel lies in two of them.
#[verifier::opaque]
pub open spec fn runs_whole(runs: Seq<RunSegment>, layer: Seq<Color32>, t: Color32, w: int) -> bool {
    &&& forall|j: int, i: int| 0 <= j < runs.len() && 0 <= i < runs[j].length ==> #[trigger] run_pixels(runs[j])[i] == t
    &&& forall|j: int| 0 <= j < runs.len() ==> run_maximal(#[trigger] runs[j], layer, t, w)
    &&& runs_disjoint(runs)
}

/// Two fills that each record whole, non-overlapping row stretches
/// ([`runs_whole`]) of the same `t`-coloured pixels record the same
/// stretches: each run of one starts and ends where a run of the other
/// does.  So fills that paint the same region (such as one with a seed
/// outside the canvas and one with that seed clamped) record the same runs,
/// possibly in another order.
pub proof fn law_whole_runs_agree(
    a: Seq<RunSegment>,
    b: Seq<RunSegment>,
    layer: Seq<Color32>,
    t: Color32,
    w: int,
    h: int,
)
    requires
        0 < w,
        runs_whole(a, layer, t, w),
        runs_whole(b, layer, t, w),
        forall|j: int| 0 <= j < a.len() ==> run_in_row(#[trigger] a[j], w, h),
        forall|j: int| 0 <= j < b.len() ==> run_in_row(#[trigger] b[j], w, h),
        forall|p: int| covered(a, p) <==> #[trigger] covered(b, p),
        forall|p: int| covered(a, p) ==> #[trigger] layer[p] == t,
    ensures
        forall|j: int|
            0 <= j < a.len() ==> exists|k: int|
                0 <= k < b.len() && (#[trigger] b[k]).start == (#[trigger] a[j]).start && b[k].length == a[j].length,
{
    assert forall|j: int| 0 <= j < a.len() implies exists|k: int|
        0 <= k < b.len() && (#[trigger] b[k]).start == (#[trigger] a[j]).start && b[k].length == a[j].length by {
        let k = lemma_matching_run(a, b, layer, t, w, h, j);
        assert(b[k].start == a[j].start && b[k].length == a[j].length);
    }
}

/// The run of `b` that holds the first pixel of run `j` of `a` is the
/// same stretch.
proof fn lemma_matching_run(
    a: Seq<RunSegment>,
    b: Seq<RunSegment>,
    layer: Seq<Color32>,
    t: Color32,
    w: int,
    h: int,
    j: int,
) -> (k: int)
    requires
        0 < w,
        0 <= j < a.len(),
        runs_whole(a, layer, t, w),
        runs_whole(b, layer, t, w),
        forall|i: int| 0 <= i < a.len() ==> run_in_row(#[trigger] a[i], w, h),
        forall|i: int| 0 <= i < b.len() ==> run_in_row(#[trigger] b[i], w, h),
        forall|p: int| covered(a, p) <==> #[trigger] covered(b, p),
        forall|p: int| covered(a, p) ==> #[trigger] layer[p] == t,
    ensures
        0 <= k < b.len(),
        b[k].start == a[j].start,
        b[k].length == a[j].length,
{
    reveal(runs_whole);
    reveal(run_maximal);
    let r = a[j];
    assert(run_in_row(r, w, h));
    let rs = r.start as int;
    let rl = r.length as int;
    assert(in_run(a[j], rs));
    assert(covered(a, rs));
    assert(covered(b, rs));
    let k = choose|k: int| 0 <= k < b.len() && in_run(#[trigger] b[k], rs);
    let s = b[k];
    assert(run_in_row(s, w, h));
    let ss = s.start as int;
    let sl = s.length as int;
    assert(run_maximal(r, layer, t, w));
    assert(run_maximal(s, layer, t, w));
    // Pixels of a run are covered by its list, so hold `t`.
    assert forall|p: int| ss <= p < ss + sl implies #[trigger] layer[p] == t by {
        assert(in_run(b[k], p));
        assert(covered(b, p));
    }
    assert forall|p: int| rs <= p < rs + rl implies #[trigger] layer[p] == t by {
        assert(in_run(a[j], p));
        assert(covered(a, p));
    }
    vstd::arithmetic::div_mod::lemma_fundamental_div_mod(ss, w);
    vstd::arithmetic::div_mod::lemma_fundamental_div_mod(rs, w);
    // The two start together: the earlier would run past the later's left edge.
    if ss < rs {
        // `rs` lies within `s`, in the same row, so it is not a row start.
        assert(rs % w == ss % w + (rs - ss)) by {
            lemma_same_row_col(ss, rs - ss, w);
        }
        assert(layer[rs - 1] == t);
    }
    assert(ss == rs);
    // And end together: the shorter would stop short of a `t` pixel.
    if sl < rl {
        assert(layer[ss + sl] == t);
    } else if rl < sl {
        assert(layer[rs + rl] == t);
    }
    k
}

/// A pixel `d` places after the first of a row stretch, within it, is `d`
/// columns further along the same row.
proof fn lemma_same_row_col(a: int, d: int, w: int)
    requires
        0 < w,
        0 <= a,
        0 <= d,
        a % w + d < w,
    ensures
        (a + d) % w == a % w + d,
{
    let q = a / w;
    vstd::arithmetic::div_mod::lemma_fundamental_div_mod(a, w);
    crate::tools::square_brush::lemma_box_position(w, q, a % w + d);
    assert(q * w + (a % w + d) == a + d) by (nonlinear_arith)
        requires
            a == w * q + a % w,
    ;
}

/// A stretch that reaches the end of its row ends where the next row starts.
proof fn lemma_end_of_row(a: int, l: int, w: int)
    requires
        0 < w,
        0 <= a,
        a % w + l == w,
    ensures
        (a + l) % w == 0,
{
    let q = a / w;
    vstd::arithmetic::div_mod::lemma_fundamental_div_mod(a, w);
    assert(a + l == (q + 1) * w) by (nonlinear_arith)
        requires
            a == w * q + a % w,
            a % w + l == w,
    ;
    vstd::arithmetic::div_mod::lemma_mod_multiples_basic(q + 1, w);
}

proof fn lemma_runs_bbox(runs: Seq<RunSegment>, w: int, h: int)
    requires
        0 < w,
        0 < h,
        w * h <= u32::MAX,
        forall|j: int| 0 <= j < runs.len() ==> run_in_row(#[trigger] runs[j], w, h),
    ensures
        runs.len() > 0 ==> ({
            let b = runs_bbox(runs, w);
            b.min_x <= b.max_x < w && b.min_y <= b.max_y < h
        }),
    decreases runs.len(),
{
    if runs.len() > 0 {
        let init = runs.drop_last();
        assert forall|j: int| 0 <= j < init.len() implies run_in_row(#[trigger] init[j], w, h) by {
            assert(init[j] == runs[j]);
        }
        lemma_runs_bbox(init, w, h);
        let r = runs.last();
        assert(run_in_row(runs[runs.len() - 1], w, h));
        vstd::arithmetic::div_mod::lemma_mod_bound(r.start as int, w);
        vstd::arithmetic::div_mod::lemma_div_pos_is_pos(r.start as int, w);
        lemma_run_end_col(r.start as int, r.length as int, w);
        if runs.len() == 1 {
            assert(runs_bbox(init, w) == empty_rect());
        }
    }
}

proof fn lemma_run_end_col(start: int, length: int, w: int)
    requires
        0 < w,
        0 <= start,
        1 <= length,
        start % w + length <= w,
    ensures
        (start + length - 1) % w == start % w + length - 1,
        (start + length - 1) / w == start / w,
{
    crate::tools::brush_common::lemma_row_col(start, w);
    vstd::arithmetic::div_mod::lemma_fundamental_div_mod_converse(
        start + length - 1,
        w,
        start / w,
        start % w + length - 1,
    );
}

/// The stretch of `target` pixels around column `x` of the row starting at
/// `row_start` (row `y`): it reaches left and right while the next pixel
/// holds `target`; `x` itself is included whatever it holds.
fn find_span(
    pixels: &Vec<Color32>,
    row_start: usize,
    x: usize,
    width: usize,
    target: Color32,
    Ghost(y): Ghost<int>,
) -> (span: (usize, usize))
    requires
        x < width,
        0 <= y,
        row_start == y * width,
        row_start + width <= pixels@.len(),
        pixels@.len() <= u32::MAX,
    ensures
        span.0 <= x <= span.1 < width,
        forall|c: int| span.0 <= c <= span.1 && c != x ==> #[trigger] pixels@[pixel_at(y, c, width as int)] == target,
        span.0 == 0 || pixels@[pixel_at(y, span.0 - 1, width as int)] != target,
        span.1 == width - 1 || pixels@[pixel_at(y, span.1 + 1, width as int)] != target,
{
    let ghost w = width as int;
    let mut left_x: usize = x;
    while left_x > 0 && pixels[row_start + left_x - 1] == target
        invariant
            left_x <= x < width,
            row_start == y * w,
            w == width,
            row_start + w <= pixels@.len(),
            pixels@.len() <= u32::MAX,
            forall|c: int| left_x <= c < x ==> #[trigger] pixels@[pixel_at(y, c, w)] == target,
        decreases left_x,
    {
        assert(pixel_at(y, left_x - 1, w) == row_start + left_x - 1);
        left_x = left_x - 1;
    }
    let mut right_x: usize = x;
    while right_x < width - 1 && pixels[row_start + right_x + 1] == target
        invariant
            x <= right_x < width,
            row_start == y * w,
            w == width,
            row_start + w <= pixels@.len(),
            pixels@.len() <= u32::MAX,
            forall|c: int| x < c <= right_x ==> #[trigger] pixels@[pixel_at(y, c, w)] == target,
        decreases width - right_x,
    {
        assert(pixel_at(y, right_x + 1, w) == row_start + right_x + 1);
        right_x = right_x + 1;
    }
    proof {
        if left_x > 0 {
            assert(pixel_at(y, left_x - 1, w) == row_start + left_x - 1);
        }
        if right_x < width - 1 {
            assert(pixel_at(y, right_x + 1, w) == row_start + right_x + 1);
        }
    }
    (left_x, right_x)
}

/// Push seeds for the stretches of `target` pixels in columns
/// `[search_left, search_right]` of the rows above and below row `y`
/// ([`push_row_seeds`]).
fn push_neighbour_seeds(
    pixels: &Vec<Color32>,
    stack: &mut Vec<(u32, u32)>,
    y: u32,
    width: usize,
    height: u32,
    search_left: usize,
    search_right: usize,
    target: Color32,
)
    requires
        0 < width,
        width <= u32::MAX,
        y < height,
        search_left <= search_right < width,
        pixels@.len() == width * height,
    ensures
        final(stack)@.len() >= old(stack)@.len(),
        final(stack)@.subrange(0, old(stack)@.len() as int) == old(stack)@,
        forall|i: int|
            old(stack)@.len() <= i < final(stack)@.len() ==> {
                &&& ((#[trigger] final(stack)@[i]).1 == y - 1 || final(stack)@[i].1 == y + 1)
                &&& final(stack)@[i].1 < height
                &&& search_left <= final(stack)@[i].0 <= search_right
                &&& pixels@[entry_index(final(stack)@[i], width as int)] == target
            },
        final(stack)@.len() - fresh_count(final(stack)@, pixels@, width as int, target) == old(stack)@.len()
            - fresh_count(old(stack)@, pixels@, width as int, target),
        y > 0 ==> forall|c: int|
            search_left <= c <= search_right && #[trigger] pixels@[pixel_at(y - 1, c, width as int)] == target
                ==> pending(final(stack)@, pixels@, target, width as int, y - 1, c),
        y < height - 1 ==> forall|c: int|
            search_left <= c <= search_right && #[trigger] pixels@[pixel_at(y + 1, c, width as int)] == target
                ==> pending(final(stack)@, pixels@, target, width as int, y + 1, c),
{
    let ghost w = width as int;
    let ghost h = height as int;
    let ghost s0 = stack@;
    proof {
        assert(stack@.subrange(0, s0.len() as int) =~= s0);
    }
    if y > 0 {
        proof {
            lemma_row_fits(y - 1, h, w);
            assert((y - 1 + 1) * w <= w * h) by (nonlinear_arith)
                requires
                    (y - 1) * w + w <= w * h,
            ;
        }
        push_row_seeds(pixels, stack, y - 1, width, search_left, search_right, target);
    }
    let ghost s1 = stack@;
    if y < height - 1 {
        proof {
            lemma_row_fits(y + 1, h, w);
            assert((y + 1 + 1) * w <= w * h) by (nonlinear_arith)
                requires
                    (y + 1) * w + w <= w * h,
            ;
        }
        push_row_seeds(pixels, stack, y + 1, width, search_left, search_right, target);
    }
    proof {
        assert(stack@.subrange(0, s0.len() as int) =~= s0) by {
            assert forall|i: int| 0 <= i < s0.len() implies stack@[i] == s0[i] by {
                assert(stack@.subrange(0, s1.len() as int)[i] == stack@[i]);
                assert(s1.subrange(0, s0.len() as int)[i] == s1[i]);
            }
        }
        assert forall|i: int| s0.len() <= i < stack@.len() implies {
            &&& ((#[trigger] stack@[i]).1 == y - 1 || stack@[i].1 == y + 1)
            &&& stack@[i].1 < height
            &&& search_left <= stack@[i].0 <= search_right
            &&& pixels@[entry_index(stack@[i], w)] == target
        } by {
            if i < s1.len() {
                assert(stack@.subrange(0, s1.len() as int)[i] == stack@[i]);
            }
        }
        assert(stack@.subrange(0, s1.len() as int) =~= s1);
        if y > 0 {
            assert forall|c: int|
                search_left <= c <= search_right && #[trigger] pixels@[pixel_at(y - 1, c, w)] == target implies pending(
                stack@,
                pixels@,
                target,
                w,
                y - 1,
                c,
            ) by {
                lemma_pending_prefix(s1, stack@, pixels@, target, w, y - 1, c);
            }
        }
    }
}

/// A stretch of `t` in the layer before painting, not yet painted, whose
/// neighbours in the row hold another colour or were painted, is a whole
/// stretch of `t` when every earlier run is.
proof fn lemma_new_run_maximal(
    runs0: Seq<RunSegment>,
    r: RunSegment,
    initial: Seq<Color32>,
    t: Color32,
    w: int,
    y: int,
    left: int,
    right: int,
)
    requires
        0 < w,
        0 <= y,
        0 <= left <= right < w,
        r.start == y * w + left,
        r.length == right - left + 1,
        (y * w + left) % w == left,
        initial[y * w + left] == t,
        initial[y * w + right] == t,
        !covered(runs0, y * w + left),
        !covered(runs0, y * w + right),
        left == 0 || initial[y * w + left - 1] != t || covered(runs0, y * w + left - 1),
        right == w - 1 || initial[y * w + right + 1] != t || covered(runs0, y * w + right + 1),
        runs_whole(runs0, initial, t, w),
    ensures
        run_maximal(r, initial, t, w),
{
    reveal(run_maximal);
    reveal(runs_whole);
    let start = y * w + left;
    let end = y * w + right + 1;
    assert((r.start as int) % w == left);
    if left != 0 && initial[start - 1] == t {
        assert(covered(runs0, start - 1));
        let j = choose|j: int| 0 <= j < runs0.len() && in_run(#[trigger] runs0[j], start - 1);
        let big = runs0[j];
        if in_run(big, start) {
            assert(covered(runs0, start));
        } else {
            assert(big.start + big.length == start);
            assert(run_maximal(big, initial, t, w));
            assert(initial[start] == t);
            lemma_end_of_row(big.start as int, big.length as int, w);
        }
    }
    if right != w - 1 && initial[end] == t {
        assert(covered(runs0, end));
        let j = choose|j: int| 0 <= j < runs0.len() && in_run(#[trigger] runs0[j], end);
        let big = runs0[j];
        if in_run(big, end - 1) {
            assert(covered(runs0, end - 1));
        } else {
            assert(big.start == end);
            assert(run_maximal(big, initial, t, w));
            assert(initial[end - 1] == t);
            crate::tools::square_brush::lemma_box_position(w, y, right + 1);
        }
    }
}

/// The runs stay whole and apart when a fill records the stretch of
/// `t` it found from a seed, as it stood before being painted.
proof fn lemma_fill_step_whole(
    runs0: Seq<RunSegment>,
    runs: Seq<RunSegment>,
    initial: Seq<Color32>,
    px0: Seq<Color32>,
    px1: Seq<Color32>,
    t: Color32,
    color: Color32,
    alpha_overlay: bool,
    w: int,
    y: int,
    left: int,
    right: int,
    span_start: int,
    span_end: int,
    row_start: int,
)
    requires
        0 < w,
        0 <= y,
        0 <= left <= right < w,
        row_start == y * w,
        span_start == row_start + left,
        span_end == row_start + right + 1,
        row_start + w <= px0.len(),
        px0.len() == initial.len(),
        stroke_value(t, color, alpha_overlay) != t,
        forall|p: int|
            0 <= p < px0.len() ==> #[trigger] px0[p] == if covered(runs0, p) {
                stroke_value(t, color, alpha_overlay)
            } else {
                initial[p]
            },
        forall|p: int| span_start <= p < span_end ==> #[trigger] px0[p] == t,
        forall|p: int| span_start <= p < span_end ==> #[trigger] initial[p] == t,
        left == 0 || px0[pixel_at(y, left - 1, w)] != t,
        right == w - 1 || px0[pixel_at(y, right + 1, w)] != t,
        runs_whole(runs0, initial, t, w),
        runs_in_sequence(runs0, color, alpha_overlay, initial, px0),
        runs_in_sequence(runs, color, alpha_overlay, initial, px1),
        runs.len() == runs0.len() + 1,
        runs.drop_last() == runs0,
        runs.last().start == span_start,
        runs.last().length == span_end - span_start,
    ensures
        runs_whole(runs, initial, t, w),
{
    let r = runs.last();
    lemma_sequence_ends(runs0, color, alpha_overlay, initial, px0);
    assert forall|i: int| 0 <= i < r.length implies #[trigger] run_pixels(r)[i] == px0[r.start + i] by {}
    crate::tools::square_brush::lemma_box_position(w, y, left);
    let a = span_start;
    let b = span_end - 1;
    assert(px0[a] == t && px0[b] == t);
    assert(!covered(runs0, a) && !covered(runs0, b));
    if left > 0 {
        assert(pixel_at(y, left - 1, w) == a - 1);
        assert(px0[a - 1] != t);
    }
    if right < w - 1 {
        assert(pixel_at(y, right + 1, w) == b + 1);
        assert(px0[b + 1] != t);
    }
    lemma_new_run_maximal(runs0, r, initial, t, w, y, left, right);
    lemma_push_run(runs0, runs, initial, px0, t, color, alpha_overlay, w);
}

/// Appending a run of pixels that hold `t` as they stand, and that is a
/// whole stretch of `t` before painting, keeps the runs whole and apart.
proof fn lemma_push_run(
    runs0: Seq<RunSegment>,
    runs: Seq<RunSegment>,
    initial: Seq<Color32>,
    px0: Seq<Color32>,
    t: Color32,
    color: Color32,
    alpha_overlay: bool,
    w: int,
)
    requires
        runs.len() == runs0.len() + 1,
        runs.drop_last() == runs0,
        run_maximal(runs.last(), initial, t, w),
        runs_whole(runs0, initial, t, w),
        stroke_value(t, color, alpha_overlay) != t,
        forall|p: int|
            0 <= p < px0.len() ==> #[trigger] px0[p] == if covered(runs0, p) {
                stroke_value(t, color, alpha_overlay)
            } else {
                initial[p]
            },
        runs.last().start + runs.last().length <= px0.len(),
        forall|p: int| runs.last().start <= p < runs.last().start + runs.last().length ==> #[trigger] px0[p] == t,
        forall|i: int| 0 <= i < runs.last().length ==> #[trigger] run_pixels(runs.last())[i] == px0[runs.last().start + i],
    ensures
        runs_whole(runs, initial, t, w),
{
    reveal(run_maximal);
    reveal(runs_disjoint);
    reveal(runs_whole);
    assert forall|j: int, i: int| 0 <= j < runs.len() && 0 <= i < runs[j].length implies #[trigger] run_pixels(
        runs[j],
    )[i] == t by {
        if j < runs0.len() {
            assert(runs[j] == runs0[j]);
        } else {
            assert(px0[runs.last().start + i] == t);
        }
    }
    assert forall|j: int| 0 <= j < runs.len() implies run_maximal(#[trigger] runs[j], initial, t, w) by {
        if j < runs0.len() {
            assert(runs[j] == runs0[j]);
        }
    }
    assert forall|j: int, k: int, p: int|
        #![trigger in_run(runs[j], p), in_run(runs[k], p)]
        0 <= j < k < runs.len() && in_run(runs[j], p) implies !in_run(runs[k], p) by {
        assert(runs[j] == runs0[j]);
        if k < runs0.len() {
            assert(runs[k] == runs0[k]);
        } else if in_run(runs[k], p) {
            assert(in_run(runs0[j], p));
            assert(covered(runs0, p));
            assert(px0[p] == t);
        }
    }
}

/// The scanline fill proper, on the pixels of one layer: fill the stretch
/// of `target` pixels around each popped seed, then push a seed for each
/// stretch of `target` pixels touching it from the rows above and below,
/// until the stack is empty.  A popped seed whose pixel was painted in the
/// meantime is skipped, so each pixel is painted once.
#[verifier::rlimit(100)]
#[verifier::spinoff_prover]
fn scanline_fill(
    pixels: &mut Vec<Color32>,
    width: usize,
    height: u32,
    seed_x: u32,
    seed_y: u32,
    target: Color32,
    color: Color32,
    alpha_overlay: bool,
) -> (res: (Vec<RunSegment>, DirtyRect))
    requires
        0 < width,
        0 < height,
        old(pixels)@.len() == width * height,
        width * height <= u32::MAX,
        seed_x < width,
        seed_y < height,
        old(pixels)@[seed_y * width + seed_x] == target,
        target != color,
        stroke_value(target, color, alpha_overlay) != target,
    ensures
        final(pixels)@.len() == old(pixels)@.len(),
        runs_in_sequence(res.0@, color, alpha_overlay, old(pixels)@, final(pixels)@),
        covered(res.0@, seed_y * width + seed_x),
        forall|p: int| 0 <= p < width * height && covered(res.0@, p) ==> #[trigger] old(pixels)@[p] == target,
        forall|p: int|
            0 <= p < width * height ==> #[trigger] final(pixels)@[p] == if covered(res.0@, p) {
                stroke_value(target, color, alpha_overlay)
            } else {
                old(pixels)@[p]
            },
        forall|j: int| 0 <= j < res.0@.len() ==> run_in_row(#[trigger] res.0@[j], width as int, height as int),
        res.0@.len() > 0,
        runs_whole(res.0@, old(pixels)@, target, width as int),
        forall|j: int, i: int|
            0 <= j < res.0@.len() && 0 <= i < res.0@[j].length ==> #[trigger] run_pixels(res.0@[j])[i] == target,
        res.1 == runs_bbox(res.0@, width as int),
        runs_joined(res.0@, old(pixels)@, target, width as int, height as int, (seed_y as int, seed_x as int)),
        forall|y: int, x: int|
            0 <= y < height && 0 <= x < width && #[trigger] joined(
                old(pixels)@,
                target,
                width as int,
                height as int,
                (seed_y as int, seed_x as int),
                (y, x),
            ) ==> covered(res.0@, pixel_at(y, x, width as int)),
{
    let ghost initial = pixels@;
    let ghost w = width as int;
    let ghost h = height as int;
    let ghost n = w * h;
    let ghost seed_idx = seed_y * w + seed_x;
    let plen = pixels.len();
    proof {
        assert(w <= n && h <= n) by (nonlinear_arith)
            requires
                n == w * h,
                0 < w,
                0 < h,
        ;
    }
    let mut runs: Vec<RunSegment> = Vec::new();
    let mut stack: Vec<(u32, u32)> = Vec::new();
    let mut bbox = DirtyRect::empty();
    stack.push((seed_x, seed_y));
    let ghost seed = (seed_y as int, seed_x as int);
    proof {
        assert(runs_in_sequence(runs@, color, alpha_overlay, initial, pixels@));
        lemma_row_fits(seed_y as int, h, w);
        lemma_seeds_joined_start(initial, target, w, h, seed_x, seed_y);
        lemma_runs_joined_empty(stack@, initial, target, w, h, seed);
        assert(runs@ =~= Seq::<RunSegment>::empty());
        assert(runs_whole(runs@, initial, target, w)) by {
            reveal(runs_disjoint);
            reveal(runs_whole);
        }
    }
    loop
        invariant
            plen == n,
            n == w * h,
            w == width,
            h == height,
            0 < w,
            0 < h,
            n <= u32::MAX,
            seed_x < w,
            seed_y < h,
            seed_idx == seed_y * w + seed_x,
            initial.len() == n,
            initial[seed_idx] == target,
            target != color,
            stroke_value(target, color, alpha_overlay) != target,
            pixels@.len() == n,
            runs_in_sequence(runs@, color, alpha_overlay, initial, pixels@),
            forall|p: int| 0 <= p < n && #[trigger] pixels@[p] == target ==> initial[p] == target,
            forall|p: int| 0 <= p < n && covered(runs@, p) ==> #[trigger] initial[p] == target,
            forall|p: int|
                0 <= p < n ==> #[trigger] pixels@[p] == if covered(runs@, p) {
                    stroke_value(target, color, alpha_overlay)
                } else {
                    initial[p]
                },
            forall|i: int|
                0 <= i < stack@.len() ==> {
                    &&& (#[trigger] stack@[i]).0 < w
                    &&& stack@[i].1 < h
                    &&& initial[entry_index(stack@[i], w)] == target
                },
            runs@.len() == 0 ==> stack@ == seq![(seed_x, seed_y)],
            runs@.len() > 0 ==> covered(runs@, seed_idx),
            forall|j: int| 0 <= j < runs@.len() ==> run_in_row(#[trigger] runs@[j], w, h),
            bbox == runs_bbox(runs@, w),
            seed == (seed_y as int, seed_x as int),
            seeds_joined(stack@, initial, target, w, h, seed),
            runs_joined(runs@, initial, target, w, h, seed),
            closed_but_pending(runs@, stack@, pixels@, target, w, h),
            runs_whole(runs@, initial, target, w),
            forall|j: int, i: int|
                0 <= j < runs@.len() && 0 <= i < runs@[j].length ==> #[trigger] run_pixels(runs@[j])[i] == target,
        ensures
            runs_in_sequence(runs@, color, alpha_overlay, initial, pixels@),
            pixels@.len() == n,
            covered(runs@, seed_idx),
            forall|p: int| 0 <= p < n && covered(runs@, p) ==> #[trigger] initial[p] == target,
            forall|p: int|
                0 <= p < n ==> #[trigger] pixels@[p] == if covered(runs@, p) {
                    stroke_value(target, color, alpha_overlay)
                } else {
                    initial[p]
                },
            forall|j: int| 0 <= j < runs@.len() ==> run_in_row(#[trigger] runs@[j], w, h),
            runs@.len() > 0,
            bbox == runs_bbox(runs@, w),
            runs_joined(runs@, initial, target, w, h, seed),
            closed_but_pending(runs@, Seq::empty(), pixels@, target, w, h),
            runs_whole(runs@, initial, target, w),
            forall|j: int, i: int|
                0 <= j < runs@.len() && 0 <= i < runs@[j].length ==> #[trigger] run_pixels(runs@[j])[i] == target,
        decreases count_eq(pixels@, target), stack@.len() - fresh_count(stack@, pixels@, w, target),
    {
        if stack.len() == 0 {
            proof {
                assert(stack@ =~= Seq::<(u32, u32)>::empty());
            }
            break;
        }
        let ghost px0 = pixels@;
        let ghost stack0 = stack@;
        let ghost runs0 = runs@;
        proof {
            lemma_fresh_le(stack0, px0, w, target);
        }
        let (x, y) = stack.pop().unwrap();
        let ghost popped = stack@;
        proof {
            assert(stack0.last() == stack0[stack0.len() - 1]);
            assert forall|i: int| 0 <= i < popped.len() implies #[trigger] popped[i] == stack0[i] by {}
            lemma_row_fits(y as int, h, w);
        }
        let row_start = (y as usize) * width;
        let ghost xi = row_start + x;
        if pixels[row_start + x as usize] != target {
            // Painted since it was pushed: nothing left to fill from here.
            proof {
                assert(stack0.drop_last() == popped);
                assert(entry_index(stack0[stack0.len() - 1], w) == xi);
                lemma_seeds_joined_pop(stack0, initial, target, w, h, seed);
                assert(pixel_at(y as int, x as int, w) == xi);
                lemma_pop_stale(runs@, stack0, pixels@, target, w, h);
                if runs@.len() == 0 {
                    assert(stack0 == seq![(seed_x, seed_y)]);
                    assert(pixels@[xi] == initial[xi]);
                }
                lemma_fresh_le(popped, pixels@, w, target);
            }
            continue;
        }
        let (left_x, right_x) = find_span(pixels, row_start, x as usize, width, target, Ghost(y as int));
        let span_start = row_start + left_x;
        let span_end = row_start + right_x + 1;
        proof {
            assert(pixels@ == px0);
        }
        proof {
            // Every pixel of the span holds the target.
            assert forall|p: int| span_start <= p < span_end implies #[trigger] px0[p] == target by {
                if p != xi {
                    assert(pixel_at(y as int, p - row_start, w) == p);
                }
            }
            assert forall|p: int| span_start <= p < span_end implies #[trigger] initial[p] == target by {
                assert(px0[p] == target);
            }
        }
        record_span_in_sequence(pixels, &mut runs, span_start, span_end, color, alpha_overlay, Ghost(initial));
        let ghost px1 = pixels@;
        proof {
            lemma_fill_step_whole(
                runs0,
                runs@,
                initial,
                px0,
                px1,
                target,
                color,
                alpha_overlay,
                w,
                y as int,
                left_x as int,
                right_x as int,
                span_start as int,
                span_end as int,
                row_start as int,
            );
        }
        bbox.extend(left_x as u32, y);
        bbox.extend(right_x as u32, y);
        proof {
            assert forall|p: int| span_start <= p < span_end implies #[trigger] px1[p] == stroke_value(
                target,
                color,
                alpha_overlay,
            ) by {
                assert(px0[p] == target);
            }
            assert forall|p: int| 0 <= p < n && #[trigger] px1[p] == target implies px0[p] == target by {}
            let r = runs@.last();
            lemma_sequence_ends(runs0, color, alpha_overlay, initial, px0);
            assert(runs@.drop_last() == runs0);
            assert forall|j: int, i: int|
                0 <= j < runs@.len() && 0 <= i < runs@[j].length implies #[trigger] run_pixels(runs@[j])[i]
                == target by {
                if j < runs0.len() {
                    assert(runs@[j] == runs0[j]);
                } else {
                    assert(run_pixels(r)[i] == px0[r.start + i]);
                }
            }
            crate::tools::square_brush::lemma_box_position(w, y as int, left_x as int);
            lemma_run_end_col(r.start as int, r.length as int, w);
            assert(runs@.drop_last() == runs0);
            assert(runs@[runs@.len() - 1] == r);
            assert forall|j: int| 0 <= j < runs@.len() implies run_in_row(#[trigger] runs@[j], w, h) by {
                if j < runs0.len() {
                    assert(runs@[j] == runs0[j]);
                }
            }
            assert(bbox == runs_bbox(runs@, w));
            if runs0.len() == 0 {
                assert(stack0 == seq![(seed_x, seed_y)]);
                assert(xi == seed_idx);
            }
        }
        proof {
            // The painted stretch is joined to the seed through the popped one.
            assert(stack0[stack0.len() - 1] == (x, y));
            lemma_seeds_joined_pop(stack0, initial, target, w, h, seed);
            assert forall|c: int| left_x <= c <= right_x implies #[trigger] initial[pixel_at(y as int, c, w)] == target by {
                assert(pixel_at(y as int, c, w) == row_start + c);
            }
            lemma_span_joined(runs0, runs@, initial, target, w, h, seed, y as int, x as int, left_x as int, right_x as int);
        }
        let search_left = if left_x > 0 { left_x - 1 } else { 0 };
        let search_right = if right_x + 1 < width - 1 { right_x + 1 } else { width - 1 };
        let ghost stack1 = stack@;
        push_neighbour_seeds(pixels, &mut stack, y, width, height, search_left, search_right, target);
        let ghost stack3 = stack@;
        proof {
            // Stack entries stay on the canvas and within the target region.
            assert forall|i: int| 0 <= i < stack@.len() implies {
                &&& (#[trigger] stack@[i]).0 < w
                &&& stack@[i].1 < h
                &&& initial[entry_index(stack@[i], w)] == target
            } by {
                if i < stack1.len() {
                    assert(stack@.subrange(0, stack1.len() as int)[i] == stack@[i]);
                    assert(stack1[i] == popped[i]);
                } else {
                    let e = stack@[i];
                    lemma_row_fits(e.1 as int, h, w);
                }
            }
            // The measure decreases.
            let t0 = count_eq(px0, target);
            let t1 = count_eq(px1, target);
            lemma_count_le(px0, px1, target);
            lemma_count_lt(px0, px1, target, xi);
            lemma_fresh_le(stack@, px1, w, target);
        }
        proof {
            assert(stack1 == popped);
            assert(popped =~= stack0.subrange(0, stack0.len() - 1));

            // Every seed, old or new, is joined to the first.
            assert(stack0.drop_last() == popped);
            assert forall|i: int| popped.len() <= i < stack3.len() implies {
                &&& ((#[trigger] stack3[i]).1 == y - 1 || stack3[i].1 == y + 1)
                &&& stack3[i].1 < h
                &&& left_x - 1 <= stack3[i].0 <= right_x + 1
                &&& stack3[i].0 < w
                &&& initial[pixel_at(stack3[i].1 as int, stack3[i].0 as int, w)] == target
            } by {
                assert(initial[entry_index(stack3[i], w)] == target);
            }
            lemma_pushed_joined(popped, stack3, initial, target, w, h, seed, y as int, left_x as int, right_x as int);
            // Nothing touching the painted pixels is left unreached.
            {
                assert forall|p: int|
                    0 <= p < w * h implies if pixel_at(y as int, left_x as int, w) <= p <= pixel_at(y as int, right_x as int, w) {
                    #[trigger] px1[p] != target
                } else {
                    px1[p] == px0[p]
                } by {}
                lemma_step_closed(
                    runs0,
                    runs@,
                    stack0,
                    stack3,
                    px0,
                    px1,
                    target,
                    w,
                    h,
                    y as int,
                    x as int,
                    left_x as int,
                    right_x as int,
                );
            }
        }
    }
    proof {
        assert forall|p: int| 0 <= p < n && !covered(runs@, p) implies #[trigger] pixels@[p] == initial[p] by {}
        lemma_fill_complete(runs@, initial, pixels@, target, w, h, seed);
    }
    (runs, bbox)
}

/// Runs that each store only `t`, over pixels that all hold `t`, leave a
/// layer as it is when replayed with a stroke that leaves `t` as it is.
proof fn lemma_unchanged_sequence(
    runs: Seq<RunSegment>,
    recorded_color: Color32,
    recorded_overlay: bool,
    before: Seq<Color32>,
    recorded_after: Seq<Color32>,
    t: Color32,
    color: Color32,
    alpha_overlay: bool,
)
    requires
        runs_in_sequence(runs, recorded_color, recorded_overlay, before, recorded_after),
        forall|p: int| 0 <= p < before.len() && covered(runs, p) ==> #[trigger] before[p] == t,
        forall|j: int, i: int| 0 <= j < runs.len() && 0 <= i < runs[j].length ==> #[trigger] run_pixels(runs[j])[i] == t,
        stroke_value(t, color, alpha_overlay) == t,
    ensures
        runs_in_sequence(runs, color, alpha_overlay, before, before),
    decreases runs.len(),
{
    if runs.len() > 0 {
        let init = runs.drop_last();
        let last = runs.last();
        let n = runs.len() - 1;
        let mid = redo_runs(before, init, recorded_color, recorded_overlay);
        assert forall|p: int| 0 <= p < before.len() && covered(init, p) implies #[trigger] before[p] == t by {
            let j = choose|j: int| 0 <= j < init.len() && in_run(#[trigger] init[j], p);
            assert(runs[j] == init[j]);
        }
        assert forall|j: int, i: int| 0 <= j < init.len() && 0 <= i < init[j].length implies #[trigger] run_pixels(
            init[j],
        )[i] == t by {
            assert(runs[j] == init[j]);
        }
        lemma_unchanged_sequence(init, recorded_color, recorded_overlay, before, mid, t, color, alpha_overlay);
        lemma_sequence_ends(init, color, alpha_overlay, before, before);
        assert(run_fits(last, before.len()));
        assert forall|i: int| 0 <= i < last.length implies #[trigger] run_pixels(last)[i] == before[last.start + i] by {
            assert(runs[n] == last);
            assert(in_run(runs[n], last.start + i));
            assert(run_pixels(runs[n])[i] == t);
        }
        assert forall|p: int| 0 <= p < before.len() implies #[trigger] replay_run(before, last, color, alpha_overlay)[p]
            == before[p] by {
            if in_run(last, p) {
                assert(runs[n] == last);
                assert(in_run(runs[n], p));
                assert(run_pixels(runs[n])[p - last.start] == t);
            }
        }
        assert(replay_run(before, last, color, alpha_overlay) =~= before);
    }
}

/// The clamped seed of a fill at `(seed_x, seed_y)` on a `w` by `h` canvas,
/// as a position (row, column).
pub open spec fn seed_position(seed_x: u32, seed_y: u32, w: int, h: int) -> (int, int) {
    let sx = if seed_x < w - 1 { seed_x as int } else { w - 1 };
    let sy = if seed_y < h - 1 { seed_y as int } else { h - 1 };
    (sy, sx)
}

/// The clamped seed of a fill at `(seed_x, seed_y)` on a `w` by `h` canvas,
/// as a pixel index.
pub open spec fn seed_index(seed_x: u32, seed_y: u32, w: int, h: int) -> int {
    let s = seed_position(seed_x, seed_y, w, h);
    pixel_at(s.0, s.1, w)
}

/// A seed outside the canvas fills as the seed clamped to the canvas
/// does: both have the same seed position, so by the contract of
/// [`draw_bucket_fill`] the same target colour and the same painted region.
pub proof fn lemma_seed_clamps_to_canvas(seed_x: u32, seed_y: u32, w: u32, h: u32)
    requires
        0 < w,
        0 < h,
    ensures
        ({
            let cx: u32 = if seed_x < w { seed_x } else { (w - 1) as u32 };
            let cy: u32 = if seed_y < h { seed_y } else { (h - 1) as u32 };
            &&& seed_position(seed_x, seed_y, w as int, h as int) == seed_position(cx, cy, w as int, h as int)
            &&& seed_index(seed_x, seed_y, w as int, h as int) == seed_index(cx, cy, w as int, h as int)
        }),
{
}

/// The fill when blending `color` over the target leaves it as it is: the
/// region is found and recorded as any fill's would be, on a copy of the
/// layer painted with a marker colour, while the layer itself keeps its
/// pixels; the region's bounding box is marked dirty.
fn fill_unchanged(
    seed_x: u32,
    seed_y: u32,
    canvas: &mut Canvas,
    target: Color32,
    color: Color32,
    layer: usize,
) -> (record: UndoRecord)
    requires
        old(canvas).wf(),
        0 < old(canvas).width,
        0 < old(canvas).height,
        old(canvas).width * old(canvas).height <= u32::MAX,
        layer < old(canvas).pixels@.len(),
        seed_x < old(canvas).width,
        seed_y < old(canvas).height,
        old(canvas).pixels@[layer as int].pixels@[seed_y * old(canvas).width + seed_x] == target,
        target != color,
        stroke_value(target, color, true) == target,
    ensures
        ({
            let w = old(canvas).width as int;
            let h = old(canvas).height as int;
            let s = seed_y * w + seed_x;
            let before = old(canvas).pixels@[layer as int].pixels@;
            let after = final(canvas).pixels@[layer as int].pixels@;
            record matches UndoRecord::Run { layer_index, color_after, runs, is_alpha_overlay } && {
                &&& layer_index == layer
                &&& color_after == color
                &&& is_alpha_overlay
                &&& stroke_frame(*old(canvas), *final(canvas), layer as int)
                &&& after == before
                &&& runs_whole(runs@, before, target, w)
                &&& runs_in_sequence(runs@, color, true, before, after)
                &&& covered(runs@, s)
                &&& forall|j: int| 0 <= j < runs@.len() ==> run_in_row(#[trigger] runs@[j], w, h)
                &&& forall|p: int| 0 <= p < w * h && covered(runs@, p) ==> #[trigger] before[p] == target
                &&& marks_dirty(*old(canvas), *final(canvas), runs_bbox(runs@, w))
                &&& forall|y: int, x: int|
                    0 <= y < h && 0 <= x < w && #[trigger] covered(runs@, pixel_at(y, x, w)) ==> joined(
                        before,
                        target,
                        w,
                        h,
                        (seed_y as int, seed_x as int),
                        (y, x),
                    )
                &&& forall|y: int, x: int|
                    0 <= y < h && 0 <= x < w && #[trigger] joined(
                        before,
                        target,
                        w,
                        h,
                        (seed_y as int, seed_x as int),
                        (y, x),
                    ) ==> covered(runs@, pixel_at(y, x, w))
            }
        }),
{
    let width = canvas.width as usize;
    let height = canvas.height;
    let ghost w = width as int;
    let ghost h = height as int;
    let ghost old_canvas = *canvas;
    let mut scratch: Vec<Color32> = Vec::new();
    let mut k: usize = 0;
    let n = canvas.pixels[layer].pixels.len();
    while k < n
        invariant
            *canvas == old_canvas,
            n == canvas.pixels@[layer as int].pixels@.len(),
            layer < canvas.pixels@.len(),
            k <= n,
            scratch@ == canvas.pixels@[layer as int].pixels@.take(k as int),
        decreases n - k,
    {
        scratch.push(canvas.pixels[layer].pixels[k]);
        k = k + 1;
    }
    proof {
        assert(scratch@ =~= old_canvas.pixels@[layer as int].pixels@);
        lemma_row_fits(seed_y as int, h, w);
    }
    let marker = if target.a == 255 {
        Color32 { r: 0, g: 0, b: 0, a: 0 }
    } else {
        Color32 { r: 0, g: 0, b: 0, a: 255 }
    };
    let (runs, bbox) = scanline_fill(&mut scratch, width, height, seed_x, seed_y, target, marker, false);
    proof {
        let before = old_canvas.pixels@[layer as int].pixels@;
        lemma_unchanged_sequence(runs@, marker, false, before, scratch@, target, color, true);
        lemma_runs_bbox(runs@, w, h);
        lemma_runs_joined_elim(runs@, before, target, w, h, (seed_y as int, seed_x as int));
    }
    if bbox.min_x != u32::MAX {
        canvas.dirty_rect.add(bbox);
    }
    UndoRecord::Run { layer_index: layer, color_after: color, runs, is_alpha_overlay: true }
}

/// Fill the contiguous region of matching colour around the seed point on
/// layer `layer` and return an undo record.
///
/// The seed is clamped to the canvas; its colour is the target.  If the
/// target already is the fill colour, nothing changes.  Otherwise a
/// scanline fill paints (overwrites, or alpha-blends when
/// `alpha_overlay`) stretches of target-coloured pixels reached from the
/// seed through the rows above and below, each pixel once, recording each
/// stretch's pixels as they were before it was painted; the bounding box
/// of the painted stretches is marked dirty.  When blending the fill
/// colour over the target (in alpha-overlay mode) leaves it as it is, the
/// stretches are recorded and marked all the same, and the pixels keep
/// their values.
///
/// The region painted is exactly that of the target colour around the
/// seed, diagonal neighbours included ([`joined`]), and each recorded run
/// is a whole stretch of the target colour in its row, no two sharing a
/// pixel ([`runs_whole`]): the runs are the region's row stretches.
pub fn draw_bucket_fill(
    seed_x: u32,
    seed_y: u32,
    canvas: &mut Canvas,
    color: Color32,
    layer: usize,
    alpha_overlay: bool,
) -> (record: UndoRecord)
    requires
        old(canvas).wf(),
        0 < old(canvas).width,
        0 < old(canvas).height,
        old(canvas).width * old(canvas).height <= u32::MAX,
        layer < old(canvas).pixels@.len(),
    ensures
        ({
            let w = old(canvas).width as int;
            let h = old(canvas).height as int;
            let s = seed_index(seed_x, seed_y, w, h);
            let before = old(canvas).pixels@[layer as int].pixels@;
            let after = final(canvas).pixels@[layer as int].pixels@;
            let t = before[s];
            record matches UndoRecord::Run { layer_index, color_after, runs, is_alpha_overlay } && {
                &&& layer_index == layer
                &&& color_after == color
                &&& is_alpha_overlay == alpha_overlay
                &&& stroke_frame(*old(canvas), *final(canvas), layer as int)
                &&& if t == color {
                    &&& runs@.len() == 0
                    &&& *final(canvas) == *old(canvas)
                } else {
                    &&& runs_in_sequence(runs@, color, alpha_overlay, before, after)
                    &&& runs_whole(runs@, before, t, w)
                    &&& covered(runs@, s)
                    &&& forall|j: int| 0 <= j < runs@.len() ==> run_in_row(#[trigger] runs@[j], w, h)
                    &&& forall|p: int| 0 <= p < w * h && covered(runs@, p) ==> #[trigger] before[p] == t
                    &&& forall|p: int|
                        0 <= p < w * h ==> #[trigger] after[p] == if covered(runs@, p) {
                            stroke_value(t, color, alpha_overlay)
                        } else {
                            before[p]
                        }
                    &&& marks_dirty(*old(canvas), *final(canvas), runs_bbox(runs@, w))
                    &&& forall|y: int, x: int|
                        0 <= y < h && 0 <= x < w && #[trigger] covered(runs@, pixel_at(y, x, w)) ==> joined(
                            before,
                            t,
                            w,
                            h,
                            seed_position(seed_x, seed_y, w, h),
                            (y, x),
                        )
                    &&& forall|y: int, x: int|
                        0 <= y < h && 0 <= x < w && #[trigger] joined(
                            before,
                            t,
                            w,
                            h,
                            seed_position(seed_x, seed_y, w, h),
                            (y, x),
                        ) ==> covered(runs@, pixel_at(y, x, w))
                }
            }
        }),
{
    let width = canvas.width as usize;
    let height = canvas.height;
    let ghost w = width as int;
    let ghost h = height as int;
    let ghost old_canvas = *canvas;
    let seed_x = if seed_x < canvas.width - 1 { seed_x } else { canvas.width - 1 };
    let seed_y = if seed_y < height - 1 { seed_y } else { height - 1 };
    proof {
        lemma_row_fits(seed_y as int, h, w);
    }
    let target = canvas.pixels[layer].pixels[(seed_y as usize) * width + seed_x as usize];
    if target == color {
        return UndoRecord::Run {
            layer_index: layer,
            color_after: color,
            runs: Vec::new(),
            is_alpha_overlay: alpha_overlay,
        };
    }
    if alpha_overlay && alpha_blend(target, color) == target {
        return fill_unchanged(seed_x, seed_y, canvas, target, color, layer);
    }
    let (runs, bbox) = scanline_fill(
        &mut canvas.pixels[layer].pixels,
        width,
        height,
        seed_x,
        seed_y,
        target,
        color,
        alpha_overlay,
    );
    proof {
        lemma_runs_bbox(runs@, w, h);
        lemma_runs_joined_elim(runs@, old_canvas.pixels@[layer as int].pixels@, target, w, h, (seed_y as int, seed_x as int));
    }
    if bbox.min_x != u32::MAX {
        canvas.dirty_rect.add(bbox);
    }
    proof {
        assert forall|l: int| 0 <= l < old_canvas.pixels@.len() implies (#[trigger] canvas.pixels@[l]).pixels@.len()
            == canvas.width * canvas.height by {}
    }
    UndoRecord::Run { layer_index: layer, color_after: color, runs, is_alpha_overlay: alpha_overlay }
}

} // verus!
