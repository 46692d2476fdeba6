//! The region a flood fill covers: pixels joined to the seed by a chain of
//! touching pixels of the target colour, diagonal neighbours included.

use vstd::prelude::*;

use crate::pixel::Color32;
use crate::tools::square_brush::lemma_row_fits;
use crate::undo::covered;

verus! {

/// The pixel index of row `y`, column `x` on a canvas `w` wide.
pub open spec fn pixel_at(y: int, x: int, w: int) -> int {
    y * w + x
}

/// Pixels `(y1, x1)` and `(y2, x2)` of a `w` by `h` canvas are distinct
/// and touch: side by side, one above the other, or diagonally.
pub open spec fn touching(y1: int, x1: int, y2: int, x2: int, w: int, h: int) -> bool {
    &&& 0 <= y1 < h
    &&& 0 <= x1 < w
    &&& 0 <= y2 < h
    &&& 0 <= x2 < w
    &&& -1 <= y1 - y2 <= 1
    &&& -1 <= x1 - x2 <= 1
    &&& (y1 != y2 || x1 != x2)
}

/// Position `p` (row, column) lies on the canvas and holds `t`.
pub open spec fn holds_at(px: Seq<Color32>, t: Color32, w: int, h: int, p: (int, int)) -> bool {
    &&& 0 <= p.0 < h
    &&& 0 <= p.1 < w
    &&& px[pixel_at(p.0, p.1, w)] == t
}

/// Positions `i` and `i + 1` of `path` touch.
pub open spec fn step_ok(path: Seq<(int, int)>, w: int, h: int, i: int) -> bool {
    touching(path[i].0, path[i].1, path[i + 1].0, path[i + 1].1, w, h)
}

/// `path` is a non-empty chain of touching positions all holding `t`.
pub open spec fn fill_path(path: Seq<(int, int)>, px: Seq<Color32>, t: Color32, w: int, h: int) -> bool {
    &&& path.len() > 0
    &&& forall|i: int| 0 <= i < path.len() ==> holds_at(px, t, w, h, #[trigger] path[i])
    &&& forall|i: int| 0 <= i < path.len() - 1 ==> #[trigger] step_ok(path, w, h, i)
}

/// Position `to` is joined to `from` by a chain of touching positions
/// holding `t`: it lies in the region of colour `t` around `from`.
pub open spec fn joined(px: Seq<Color32>, t: Color32, w: int, h: int, from: (int, int), to: (int, int)) -> bool {
    exists|path: Seq<(int, int)>| #[trigger] fill_path(path, px, t, w, h) && path[0] == from && path.last() == to
}

/// Columns `a` to `b` of row `y` all hold `t`.
pub open spec fn run_of(px: Seq<Color32>, t: Color32, w: int, y: int, a: int, b: int) -> bool {
    forall|c: int| a <= c <= b ==> #[trigger] px[pixel_at(y, c, w)] == t
}

/// Some seed of `stack` lies in row `y` at or left of column `x`, with
/// only `t` pixels from it to `x`: filling from it reaches `(y, x)`.
pub closed spec fn pending(stack: Seq<(u32, u32)>, px: Seq<Color32>, t: Color32, w: int, y: int, x: int) -> bool {
    exists|i: int|
        0 <= i < stack.len() && (#[trigger] stack[i]).1 == y && stack[i].0 <= x && run_of(
            px,
            t,
            w,
            y,
            stack[i].0 as int,
            x,
        )
}

/// Every `t` pixel touching a covered pixel is still to be reached from a
/// seed of `stack`.
pub closed spec fn closed_but_pending(
    runs: Seq<crate::undo::RunSegment>,
    stack: Seq<(u32, u32)>,
    px: Seq<Color32>,
    t: Color32,
    w: int,
    h: int,
) -> bool {
    forall|qy: int, qx: int, ny: int, nx: int|
        #[trigger] touching(qy, qx, ny, nx, w, h) && covered(runs, pixel_at(qy, qx, w)) && px[pixel_at(ny, nx, w)]
            == t ==> pending(stack, px, t, w, ny, nx)
}

/// A position on the canvas lies within its pixels.
pub proof fn lemma_pixel_at_bounds(y: int, x: int, w: int, h: int)
    requires
        0 <= y < h,
        0 <= x < w,
    ensures
        0 <= pixel_at(y, x, w) < w * h,
{
    lemma_row_fits(y, h, w);
}

/// The seed is joined to itself.
pub proof fn lemma_joined_seed(px: Seq<Color32>, t: Color32, w: int, h: int, s: (int, int))
    requires
        holds_at(px, t, w, h, s),
    ensures
        joined(px, t, w, h, s, s),
{
    let path = seq![s];
    assert(fill_path(path, px, t, w, h));
}

/// A `t` position touching one joined to `from` is joined to `from`.
pub proof fn lemma_joined_step(px: Seq<Color32>, t: Color32, w: int, h: int, from: (int, int), p: (int, int), q: (int, int))
    requires
        joined(px, t, w, h, from, p),
        touching(p.0, p.1, q.0, q.1, w, h),
        holds_at(px, t, w, h, q),
    ensures
        joined(px, t, w, h, from, q),
{
    let path = choose|path: Seq<(int, int)>| #[trigger] fill_path(path, px, t, w, h) && path[0] == from && path.last() == p;
    let longer = path.push(q);
    assert forall|i: int| 0 <= i < longer.len() implies holds_at(px, t, w, h, #[trigger] longer[i]) by {
        if i < path.len() {
            assert(longer[i] == path[i]);
        }
    }
    assert forall|i: int| 0 <= i < longer.len() - 1 implies #[trigger] step_ok(longer, w, h, i) by {
        if i < path.len() - 1 {
            assert(step_ok(path, w, h, i));
        }
    }
    assert(fill_path(longer, px, t, w, h));
    assert(longer[0] == from);
}

/// Along a row of `t` pixels, every one is joined to `from` once one end is.
pub proof fn lemma_joined_row(px: Seq<Color32>, t: Color32, w: int, h: int, from: (int, int), y: int, a: int, b: int)
    requires
        joined(px, t, w, h, from, (y, a)),
        0 <= y < h,
        0 <= a < w,
        0 <= b < w,
        a <= b ==> run_of(px, t, w, y, a, b),
        b <= a ==> run_of(px, t, w, y, b, a),
    ensures
        joined(px, t, w, h, from, (y, b)),
    decreases if a <= b { b - a } else { a - b },
{
    if a < b {
        lemma_joined_row(px, t, w, h, from, y, a, b - 1);
        assert(px[pixel_at(y, b, w)] == t);
        lemma_joined_step(px, t, w, h, from, (y, b - 1), (y, b));
    } else if b < a {
        lemma_joined_row(px, t, w, h, from, y, a, b + 1);
        assert(px[pixel_at(y, b, w)] == t);
        lemma_joined_step(px, t, w, h, from, (y, b + 1), (y, b));
    }
}

/// Appending seeds keeps every pending pixel pending.
pub proof fn lemma_pending_prefix(
    s1: Seq<(u32, u32)>,
    s2: Seq<(u32, u32)>,
    px: Seq<Color32>,
    t: Color32,
    w: int,
    y: int,
    x: int,
)
    requires
        pending(s1, px, t, w, y, x),
        s1.len() <= s2.len(),
        s2.subrange(0, s1.len() as int) == s1,
    ensures
        pending(s2, px, t, w, y, x),
{
    let i = choose|i: int|
        0 <= i < s1.len() && (#[trigger] s1[i]).1 == y && s1[i].0 <= x && run_of(px, t, w, y, s1[i].0 as int, x);
    assert(s2.subrange(0, s1.len() as int)[i] == s2[i]);
    assert(s2[i] == s1[i]);
}

/// With every `t` pixel touching a covered one covered itself (nothing
/// left pending), and the pixels outside the runs unchanged, the runs
/// cover the whole region joined to a covered seed.
pub proof fn lemma_region_covered(
    runs: Seq<crate::undo::RunSegment>,
    before: Seq<Color32>,
    after: Seq<Color32>,
    t: Color32,
    w: int,
    h: int,
    path: Seq<(int, int)>,
)
    requires
        0 < w,
        0 < h,
        before.len() == w * h,
        after.len() == w * h,
        fill_path(path, before, t, w, h),
        covered(runs, pixel_at(path[0].0, path[0].1, w)),
        closed_but_pending(runs, Seq::empty(), after, t, w, h),
        forall|p: int| 0 <= p < w * h && !covered(runs, p) ==> #[trigger] after[p] == before[p],
    ensures
        covered(runs, pixel_at(path.last().0, path.last().1, w)),
    decreases path.len(),
{
    if path.len() > 1 {
        let init = path.drop_last();
        assert forall|i: int| 0 <= i < init.len() implies holds_at(before, t, w, h, #[trigger] init[i]) by {
            assert(init[i] == path[i]);
        }
        assert forall|i: int| 0 <= i < init.len() - 1 implies #[trigger] step_ok(init, w, h, i) by {
            assert(step_ok(path, w, h, i));
        }
        lemma_region_covered(runs, before, after, t, w, h, init);
        let q = init.last();
        let n = path.last();
        assert(step_ok(path, w, h, path.len() - 2));
        assert(touching(q.0, q.1, n.0, n.1, w, h));
        assert(holds_at(before, t, w, h, path[path.len() - 1]));
        lemma_pixel_at_bounds(n.0, n.1, w, h);
        if !covered(runs, pixel_at(n.0, n.1, w)) {
            assert(after[pixel_at(n.0, n.1, w)] == t);
            assert(pending(Seq::<(u32, u32)>::empty(), after, t, w, n.0, n.1));
        }
    }
}

/// Every seed of `stack` is joined to `s` in `px`.
pub closed spec fn seeds_joined(stack: Seq<(u32, u32)>, px: Seq<Color32>, t: Color32, w: int, h: int, s: (int, int)) -> bool {
    forall|i: int| 0 <= i < stack.len() ==> joined(px, t, w, h, s, ((#[trigger] stack[i]).1 as int, stack[i].0 as int))
}

/// Every pixel the runs cover is joined to `s` in `px`.
pub closed spec fn runs_joined(
    runs: Seq<crate::undo::RunSegment>,
    px: Seq<Color32>,
    t: Color32,
    w: int,
    h: int,
    s: (int, int),
) -> bool {
    forall|y: int, x: int|
        0 <= y < h && 0 <= x < w && #[trigger] covered(runs, pixel_at(y, x, w)) ==> joined(px, t, w, h, s, (y, x))
}

/// A pixel index lies between columns `a` and `b` of row `y` exactly when
/// its position is in row `y` between those columns.
pub proof fn lemma_in_row_span(ny: int, nx: int, y: int, a: int, b: int, w: int)
    requires
        0 <= nx < w,
        0 <= a <= b < w,
        0 <= ny,
        0 <= y,
    ensures
        (pixel_at(y, a, w) <= pixel_at(ny, nx, w) <= pixel_at(y, b, w)) == (ny == y && a <= nx <= b),
{
    if ny < y {
        assert(ny * w + w <= y * w) by (nonlinear_arith)
            requires
                ny + 1 <= y,
                0 < w,
        ;
    } else if ny > y {
        assert(y * w + w <= ny * w) by (nonlinear_arith)
            requires
                y + 1 <= ny,
                0 < w,
        ;
    }
}

/// After a stretch `[l, r]` of row `y` is painted, every pixel the runs
/// cover is still joined to the seed, given that `(y, x)` was.
pub proof fn lemma_span_joined(
    runs0: Seq<crate::undo::RunSegment>,
    runs1: Seq<crate::undo::RunSegment>,
    px: Seq<Color32>,
    t: Color32,
    w: int,
    h: int,
    s: (int, int),
    y: int,
    x: int,
    l: int,
    r: int,
)
    requires
        0 < w,
        0 <= y < h,
        0 <= l <= x <= r < w,
        runs_joined(runs0, px, t, w, h, s),
        joined(px, t, w, h, s, (y, x)),
        run_of(px, t, w, y, l, r),
        forall|p: int| #[trigger] covered(runs1, p) <==> (covered(runs0, p) || (pixel_at(y, l, w) <= p < pixel_at(y, r, w) + 1)),
    ensures
        runs_joined(runs1, px, t, w, h, s),
        forall|c: int| l <= c <= r ==> joined(px, t, w, h, s, (y, c)),
{
    assert forall|c: int| l <= c <= r implies joined(px, t, w, h, s, (y, c)) by {
        if x <= c {
            lemma_joined_row(px, t, w, h, s, y, x, c);
        } else {
            lemma_joined_row(px, t, w, h, s, y, x, c);
        }
    }
    assert forall|yy: int, xx: int|
        0 <= yy < h && 0 <= xx < w && #[trigger] covered(runs1, pixel_at(yy, xx, w)) implies joined(px, t, w, h, s, (yy, xx)) by {
        if !covered(runs0, pixel_at(yy, xx, w)) {
            lemma_in_row_span(yy, xx, y, l, r, w);
        }
    }
}

/// Seeds pushed next to a painted stretch `[l, r]` of row `y` (in the
/// row above or below, at most one column beyond either end, on pixels
/// holding `t`) are joined to the seed, given that the stretch is.
pub proof fn lemma_pushed_joined(
    kept: Seq<(u32, u32)>,
    stack: Seq<(u32, u32)>,
    px: Seq<Color32>,
    t: Color32,
    w: int,
    h: int,
    s: (int, int),
    y: int,
    l: int,
    r: int,
)
    requires
        0 < w,
        0 <= y < h,
        0 <= l <= r < w,
        seeds_joined(kept, px, t, w, h, s),
        kept.len() <= stack.len(),
        stack.subrange(0, kept.len() as int) == kept,
        forall|c: int| l <= c <= r ==> joined(px, t, w, h, s, (y, c)),
        forall|i: int|
            kept.len() <= i < stack.len() ==> {
                &&& ((#[trigger] stack[i]).1 == y - 1 || stack[i].1 == y + 1)
                &&& stack[i].1 < h
                &&& l - 1 <= stack[i].0 <= r + 1
                &&& stack[i].0 < w
                &&& px[pixel_at(stack[i].1 as int, stack[i].0 as int, w)] == t
            },
    ensures
        seeds_joined(stack, px, t, w, h, s),
{
    assert forall|i: int| 0 <= i < stack.len() implies joined(
        px,
        t,
        w,
        h,
        s,
        ((#[trigger] stack[i]).1 as int, stack[i].0 as int),
    ) by {
        if i < kept.len() {
            assert(stack.subrange(0, kept.len() as int)[i] == stack[i]);
            assert(kept[i] == stack[i]);
        } else {
            let e = stack[i];
            let c = if (e.0 as int) < l {
                l
            } else if (e.0 as int) > r {
                r
            } else {
                e.0 as int
            };
            lemma_joined_step(px, t, w, h, s, (y, c), (e.1 as int, e.0 as int));
        }
    }
}

/// The pending pixels after one step of the scanline fill: the seed
/// `(x, y)` was popped, the stretch `[l, r]` of row `y` around it painted
/// (every other pixel of it held `t`, the pixels just beyond it did not),
/// and seeds were pushed for the `t` pixels of columns `[sl, sr]` of the
/// rows above and below.
pub proof fn lemma_step_closed(
    runs0: Seq<crate::undo::RunSegment>,
    runs1: Seq<crate::undo::RunSegment>,
    stack0: Seq<(u32, u32)>,
    stack: Seq<(u32, u32)>,
    px0: Seq<Color32>,
    px1: Seq<Color32>,
    t: Color32,
    w: int,
    h: int,
    y: int,
    x: int,
    l: int,
    r: int,
)
    requires
        0 < w,
        0 < h,
        px0.len() == w * h,
        px1.len() == w * h,
        0 <= y < h,
        0 <= l <= x <= r < w,
        closed_but_pending(runs0, stack0, px0, t, w, h),
        stack0.len() > 0,
        stack0[stack0.len() - 1].0 == x,
        stack0[stack0.len() - 1].1 == y,
        stack0.len() - 1 <= stack.len(),
        stack.subrange(0, stack0.len() - 1) == stack0.subrange(0, stack0.len() - 1),
        forall|c: int| l <= c <= r && c != x ==> #[trigger] px0[pixel_at(y, c, w)] == t,
        l == 0 || px0[pixel_at(y, l - 1, w)] != t,
        r == w - 1 || px0[pixel_at(y, r + 1, w)] != t,
        forall|p: int|
            0 <= p < w * h ==> if pixel_at(y, l, w) <= p <= pixel_at(y, r, w) {
                #[trigger] px1[p] != t
            } else {
                px1[p] == px0[p]
            },
        forall|p: int| #[trigger] covered(runs1, p) <==> (covered(runs0, p) || (pixel_at(y, l, w) <= p < pixel_at(y, r, w) + 1)),
        y > 0 ==> forall|c: int|
            (if l > 0 { l - 1 } else { 0 }) <= c <= (if r + 1 < w - 1 { r + 1 } else { w - 1 }) && #[trigger] px1[pixel_at(
                y - 1,
                c,
                w,
            )] == t ==> pending(stack, px1, t, w, y - 1, c),
        y < h - 1 ==> forall|c: int|
            (if l > 0 { l - 1 } else { 0 }) <= c <= (if r + 1 < w - 1 { r + 1 } else { w - 1 }) && #[trigger] px1[pixel_at(
                y + 1,
                c,
                w,
            )] == t ==> pending(stack, px1, t, w, y + 1, c),
    ensures
        closed_but_pending(runs1, stack, px1, t, w, h),
{
    assert forall|qy: int, qx: int, ny: int, nx: int|
        #[trigger] touching(qy, qx, ny, nx, w, h) && covered(runs1, pixel_at(qy, qx, w)) && px1[pixel_at(ny, nx, w)]
            == t implies pending(stack, px1, t, w, ny, nx) by {
        lemma_pixel_at_bounds(ny, nx, w, h);
        lemma_in_row_span(ny, nx, y, l, r, w);
        lemma_in_row_span(qy, qx, y, l, r, w);
        // `(ny, nx)` lies outside the painted stretch and kept its colour.
        assert(!(ny == y && l <= nx <= r));
        assert(px0[pixel_at(ny, nx, w)] == t);
        if covered(runs0, pixel_at(qy, qx, w)) {
            let i = choose|i: int|
                0 <= i < stack0.len() && (#[trigger] stack0[i]).1 == ny && stack0[i].0 <= nx && run_of(
                    px0,
                    t,
                    w,
                    ny,
                    stack0[i].0 as int,
                    nx,
                );
            let a = stack0[i].0 as int;
            if ny == y && a <= r && nx >= l {
                // The stretch from the seed meets the painted one, so it ends
                // inside it.
                if nx > r {
                    assert(px0[pixel_at(y, r + 1, w)] == t);
                }
                assert(false);
            }
            if i == stack0.len() - 1 {
                assert(false);
            }
            assert(stack.subrange(0, stack0.len() - 1)[i] == stack[i]);
            assert(stack0.subrange(0, stack0.len() - 1)[i] == stack0[i]);
            assert forall|c: int| a <= c <= nx implies #[trigger] px1[pixel_at(ny, c, w)] == t by {
                lemma_pixel_at_bounds(ny, c, w, h);
                lemma_in_row_span(ny, c, y, l, r, w);
                assert(px0[pixel_at(ny, c, w)] == t);
            }
            assert(run_of(px1, t, w, ny, a, nx));
        } else {
            assert(qy == y && l <= qx <= r);
            let sl = if l > 0 { l - 1 } else { 0 };
            let sr = if r + 1 < w - 1 { r + 1 } else { w - 1 };
            if ny == y {
                if nx == l - 1 {
                } else {
                    assert(nx == r + 1);
                }
            } else if ny == y - 1 {
                assert(sl <= nx <= sr);
                assert(px1[pixel_at(y - 1, nx, w)] == t);
            } else {
                assert(ny == y + 1);
                assert(sl <= nx <= sr);
                assert(px1[pixel_at(y + 1, nx, w)] == t);
            }
        }
    }
}

/// A seed of `stack` in row `y` at or left of column `x`, with only `t`
/// pixels from it to `x`, leaves `(y, x)` pending.
pub proof fn lemma_pending_intro(stack: Seq<(u32, u32)>, px: Seq<Color32>, t: Color32, w: int, y: int, x: int, i: int)
    requires
        0 <= i < stack.len(),
        stack[i].1 == y,
        stack[i].0 <= x,
        run_of(px, t, w, y, stack[i].0 as int, x),
    ensures
        pending(stack, px, t, w, y, x),
{
}

/// The first seed, on a `t` pixel, is joined to itself.
pub proof fn lemma_seeds_joined_start(px: Seq<Color32>, t: Color32, w: int, h: int, sx: u32, sy: u32)
    requires
        holds_at(px, t, w, h, (sy as int, sx as int)),
    ensures
        seeds_joined(seq![(sx, sy)], px, t, w, h, (sy as int, sx as int)),
{
    lemma_joined_seed(px, t, w, h, (sy as int, sx as int));
    let stack = seq![(sx, sy)];
    assert(stack[0] == (sx, sy));
}

/// Popping a seed: it and the seeds left are joined to the first.
pub proof fn lemma_seeds_joined_pop(stack: Seq<(u32, u32)>, px: Seq<Color32>, t: Color32, w: int, h: int, s: (int, int))
    requires
        seeds_joined(stack, px, t, w, h, s),
        stack.len() > 0,
    ensures
        joined(px, t, w, h, s, (stack[stack.len() - 1].1 as int, stack[stack.len() - 1].0 as int)),
        seeds_joined(stack.drop_last(), px, t, w, h, s),
{
    let popped = stack.drop_last();
    assert forall|i: int| 0 <= i < popped.len() implies joined(
        px,
        t,
        w,
        h,
        s,
        ((#[trigger] popped[i]).1 as int, popped[i].0 as int),
    ) by {
        assert(popped[i] == stack[i]);
    }
}

/// No runs cover nothing.
pub proof fn lemma_runs_joined_empty(stack: Seq<(u32, u32)>, px: Seq<Color32>, t: Color32, w: int, h: int, s: (int, int))
    ensures
        runs_joined(Seq::empty(), px, t, w, h, s),
        closed_but_pending(Seq::empty(), stack, px, t, w, h),
{
}

/// Every pixel covered by runs that are joined to `s` is joined to `s`.
pub proof fn lemma_runs_joined_elim(
    runs: Seq<crate::undo::RunSegment>,
    px: Seq<Color32>,
    t: Color32,
    w: int,
    h: int,
    s: (int, int),
)
    requires
        runs_joined(runs, px, t, w, h, s),
    ensures
        forall|y: int, x: int|
            0 <= y < h && 0 <= x < w && #[trigger] covered(runs, pixel_at(y, x, w)) ==> joined(px, t, w, h, s, (y, x)),
{
}

/// Once nothing is pending, the runs cover every pixel joined to a covered
/// seed `s`, given that the pixels outside the runs kept their colour.
pub proof fn lemma_fill_complete(
    runs: Seq<crate::undo::RunSegment>,
    before: Seq<Color32>,
    after: Seq<Color32>,
    t: Color32,
    w: int,
    h: int,
    s: (int, int),
)
    requires
        0 < w,
        0 < h,
        before.len() == w * h,
        after.len() == w * h,
        covered(runs, pixel_at(s.0, s.1, w)),
        closed_but_pending(runs, Seq::empty(), after, t, w, h),
        forall|p: int| 0 <= p < w * h && !covered(runs, p) ==> #[trigger] after[p] == before[p],
    ensures
        forall|y: int, x: int|
            0 <= y < h && 0 <= x < w && #[trigger] joined(before, t, w, h, s, (y, x)) ==> covered(runs, pixel_at(y, x, w)),
{
    assert forall|y: int, x: int|
        0 <= y < h && 0 <= x < w && #[trigger] joined(before, t, w, h, s, (y, x)) implies covered(runs, pixel_at(y, x, w)) by {
        let path = choose|path: Seq<(int, int)>| #[trigger] fill_path(path, before, t, w, h) && path[0] == s && path.last() == (y, x);
        lemma_region_covered(runs, before, after, t, w, h, path);
    }
}

/// Popping a seed whose pixel no longer holds `t` leaves every pending
/// pixel pending: such a seed reaches nothing.
pub proof fn lemma_pop_stale(
    runs: Seq<crate::undo::RunSegment>,
    stack: Seq<(u32, u32)>,
    px: Seq<Color32>,
    t: Color32,
    w: int,
    h: int,
)
    requires
        closed_but_pending(runs, stack, px, t, w, h),
        stack.len() > 0,
        px[pixel_at(stack[stack.len() - 1].1 as int, stack[stack.len() - 1].0 as int, w)] != t,
    ensures
        closed_but_pending(runs, stack.drop_last(), px, t, w, h),
{
    let popped = stack.drop_last();
    assert forall|qy: int, qx: int, ny: int, nx: int|
        #[trigger] touching(qy, qx, ny, nx, w, h) && covered(runs, pixel_at(qy, qx, w)) && px[pixel_at(ny, nx, w)]
            == t implies pending(popped, px, t, w, ny, nx) by {
        let i = choose|i: int|
            0 <= i < stack.len() && (#[trigger] stack[i]).1 == ny && stack[i].0 <= nx && run_of(
                px,
                t,
                w,
                ny,
                stack[i].0 as int,
                nx,
            );
        if i == stack.len() - 1 {
            assert(px[pixel_at(ny, stack[i].0 as int, w)] == t);
        }
        assert(popped[i] == stack[i]);
    }
}

} // verus!
