//! Stamp brush: placing a sampled stamp image onto a layer.
//!
//! Where a stamp lands on the canvas and how its sampled pixels are
//! tinted, composited and recorded for undo.  Sampling the stamp image at
//! the output size is done by the caller.

use vstd::prelude::*;

use crate::canvas::union_spec;
use crate::canvas::DirtyRect;
use crate::pixel::alpha_blend;
use crate::pixel::Color32;
use crate::tools::brush_common::lemma_row_col;
use crate::tools::brush_common::lemma_row_major_order;
use crate::undo::compress_run;
use crate::undo::covered;
use crate::undo::in_run;
use crate::undo::run_fits;
use crate::undo::run_pixels;
use crate::undo::runs_fit;
use crate::undo::runs_record;
use crate::undo::stroke_value;
use crate::undo::RunSegment;

verus! {

/// One channel of a tinted stamp pixel: `value * color / 255`, truncated.
pub open spec fn tint_channel(value: u8, color: u8) -> u8 {
    (value * color / 255) as u8
}

/// A stamp pixel tinted by `color`: every channel, alpha included,
/// multiplied by the colour's channel ([`tint_channel`]).
pub open spec fn tint_spec(p: Color32, color: Color32) -> Color32 {
    Color32 {
        r: tint_channel(p.r, color.r),
        g: tint_channel(p.g, color.g),
        b: tint_channel(p.b, color.b),
        a: tint_channel(p.a, color.a),
    }
}

fn tint_channel_u8(value: u8, color: u8) -> (out: u8)
    ensures
        out == tint_channel(value, color),
{
    assert(value * color <= 255 * 255) by (nonlinear_arith)
        requires
            value <= 255,
            color <= 255,
    ;
    ((value as u32) * (color as u32) / 255) as u8
}

/// Tint a premultiplied stamp pixel by `color` ([`tint_spec`]).
pub fn tint(p: Color32, color: Color32) -> (out: Color32)
    ensures
        out == tint_spec(p, color),
{
    Color32 {
        r: tint_channel_u8(p.r, color.r),
        g: tint_channel_u8(p.g, color.g),
        b: tint_channel_u8(p.b, color.b),
        a: tint_channel_u8(p.a, color.a),
    }
}

/// The colour a stamp sample is painted with: tinted or as it is.
pub open spec fn stamp_source(sample: Color32, color: Color32, tinted: bool) -> Color32 {
    if tinted {
        tint_spec(sample, color)
    } else {
        sample
    }
}

/// Where one stamp lands: its unclipped top-left corner and the part of
/// the canvas it covers (inclusive bounds).
#[derive(Clone, Copy, Debug, PartialEq, Eq, Structural)]
pub struct StampBlock {
    /// Column of the stamp's left edge; may lie left of the canvas.
    pub out_left: i64,
    /// Row of the stamp's top edge; may lie above the canvas.
    pub out_top: i64,
    pub left: u32,
    pub top: u32,
    pub right: u32,
    pub bottom: u32,
}

/// `v` clamped to `0..=hi`.
pub open spec fn clamp_to(v: int, hi: int) -> int {
    if v < 0 {
        0
    } else if v > hi {
        hi
    } else {
        v
    }
}

/// Where an `output_w` x `output_h` stamp centred at `(center_x,
/// center_y)` lands on a `canvas_width` x `canvas_height` canvas: its
/// left edge `output_w / 2` left of the centre, its top edge `output_h / 2`
/// above it; `None` when it misses the canvas.
pub open spec fn stamp_block_spec(
    center_x: u32,
    center_y: u32,
    output_w: u32,
    output_h: u32,
    canvas_width: u32,
    canvas_height: u32,
) -> Option<StampBlock> {
    let out_left = center_x - output_w / 2;
    let out_top = center_y - output_h / 2;
    let out_right = out_left + output_w - 1;
    let out_bottom = out_top + output_h - 1;
    if out_right < 0 || out_left >= canvas_width || out_bottom < 0 || out_top >= canvas_height {
        None
    } else {
        Some(
            StampBlock {
                out_left: out_left as i64,
                out_top: out_top as i64,
                left: clamp_to(out_left, canvas_width - 1) as u32,
                top: clamp_to(out_top, canvas_height - 1) as u32,
                right: clamp_to(out_right, canvas_width - 1) as u32,
                bottom: clamp_to(out_bottom, canvas_height - 1) as u32,
            },
        )
    }
}

fn clamp_i64(v: i64, hi: i64) -> (out: i64)
    requires
        hi >= 0,
    ensures
        out == clamp_to(v as int, hi as int),
{
    if v < 0 {
        0
    } else if v > hi {
        hi
    } else {
        v
    }
}

/// Where a stamp lands on the canvas ([`stamp_block_spec`]).
pub fn stamp_block(
    center_x: u32,
    center_y: u32,
    output_w: u32,
    output_h: u32,
    canvas_width: u32,
    canvas_height: u32,
) -> (b: Option<StampBlock>)
    requires
        output_w >= 1,
        output_h >= 1,
        canvas_width >= 1,
        canvas_height >= 1,
    ensures
        b == stamp_block_spec(center_x, center_y, output_w, output_h, canvas_width, canvas_height),
        b matches Some(blk) ==> blk.left <= blk.right < canvas_width && blk.top <= blk.bottom < canvas_height,
{
    let out_left = (center_x as i64) - ((output_w / 2) as i64);
    let out_top = (center_y as i64) - ((output_h / 2) as i64);
    let out_right = out_left + (output_w as i64) - 1;
    let out_bottom = out_top + (output_h as i64) - 1;
    if out_right < 0 || out_left >= canvas_width as i64 || out_bottom < 0 || out_top >= canvas_height as i64 {
        return None;
    }
    let max_x = (canvas_width - 1) as i64;
    let max_y = (canvas_height - 1) as i64;
    Some(
        StampBlock {
            out_left,
            out_top,
            left: clamp_i64(out_left, max_x) as u32,
            top: clamp_i64(out_top, max_y) as u32,
            right: clamp_i64(out_right, max_x) as u32,
            bottom: clamp_i64(out_bottom, max_y) as u32,
        },
    )
}

/// Pixel `p` of a canvas `w` wide lies in the block.
pub open spec fn in_block(w: int, b: StampBlock, p: int) -> bool {
    &&& w > 0
    &&& b.top <= p / w <= b.bottom
    &&& b.left <= p % w <= b.right
}

/// The stamp paints pixel `p`: the stroke has not painted it yet (its
/// `visited` entry is not `stamp`) and, in alpha-overlay mode, this drag
/// has not blended it yet.
pub open spec fn stamp_selected(
    visited: Seq<u32>,
    stamp: u32,
    alpha_overlay: bool,
    drag_processed: Seq<u32>,
    drag_stamp_value: u32,
    p: int,
) -> bool {
    visited[p] != stamp && !(alpha_overlay && drag_processed[p] == drag_stamp_value)
}

/// The sample of the stamp for pixel `p` of the block: `samples` holds
/// the block's samples row by row.
pub open spec fn block_sample(samples: Seq<Color32>, w: int, b: StampBlock, p: int) -> Color32 {
    samples[(p / w - b.top) * (b.right - b.left + 1) + (p % w - b.left)]
}

/// `r` grown by every pixel below index `upto` that the stamp paints.
pub open spec fn stamp_dirty(
    r: DirtyRect,
    w: int,
    b: StampBlock,
    visited: Seq<u32>,
    stamp: u32,
    alpha_overlay: bool,
    drag_processed: Seq<u32>,
    drag_stamp_value: u32,
    upto: int,
) -> DirtyRect
    decreases upto,
{
    if upto <= 0 {
        r
    } else {
        let prev = stamp_dirty(r, w, b, visited, stamp, alpha_overlay, drag_processed, drag_stamp_value, upto - 1);
        let p = upto - 1;
        if in_block(w, b, p) && stamp_selected(visited, stamp, alpha_overlay, drag_processed, drag_stamp_value, p) {
            union_spec(prev, DirtyRect { min_x: (p % w) as u32, min_y: (p / w) as u32, max_x: (p % w) as u32, max_y: (p / w) as u32 })
        } else {
            prev
        }
    }
}

proof fn lemma_dirty_skip(
    r: DirtyRect,
    w: int,
    b: StampBlock,
    visited: Seq<u32>,
    stamp: u32,
    alpha_overlay: bool,
    drag_processed: Seq<u32>,
    drag_stamp_value: u32,
    from: int,
    to: int,
)
    requires
        0 <= from <= to,
        forall|p: int| from <= p < to ==> !in_block(w, b, p),
    ensures
        stamp_dirty(r, w, b, visited, stamp, alpha_overlay, drag_processed, drag_stamp_value, to) == stamp_dirty(
            r,
            w,
            b,
            visited,
            stamp,
            alpha_overlay,
            drag_processed,
            drag_stamp_value,
            from,
        ),
    decreases to - from,
{
    if to > from {
        lemma_dirty_skip(r, w, b, visited, stamp, alpha_overlay, drag_processed, drag_stamp_value, from, to - 1);
    }
}

proof fn lemma_push_run(r: Seq<RunSegment>, run: RunSegment)
    ensures
        forall|p: int| #[trigger] covered(r.push(run), p) <==> (covered(r, p) || in_run(run, p)),
{
    assert forall|p: int| #[trigger] covered(r.push(run), p) <==> (covered(r, p) || in_run(run, p)) by {
        let s = r.push(run);
        if covered(s, p) {
            let j = choose|j: int| 0 <= j < s.len() && in_run(#[trigger] s[j], p);
            if j < r.len() {
                assert(s[j] == r[j]);
            }
        }
        if covered(r, p) {
            let j = choose|j: int| 0 <= j < r.len() && in_run(#[trigger] r[j], p);
            assert(s[j] == r[j]);
        }
        if in_run(run, p) {
            assert(in_run(s[s.len() - 1], p));
        }
    }
}

/// Close the open run `[run_start, run_start + before.len())`.
fn close_run(runs: &mut Vec<RunSegment>, run_start: u32, before: Vec<Color32>, Ghost(initial): Ghost<Seq<Color32>>)
    requires
        before@.len() <= u32::MAX,
        run_start + before@.len() <= initial.len(),
        forall|i: int| 0 <= i < before@.len() ==> #[trigger] before@[i] == initial[run_start + i],
    ensures
        final(runs)@ == old(runs)@.push(final(runs)@.last()),
        run_fits(final(runs)@.last(), initial.len()),
        final(runs)@.last().start == run_start,
        final(runs)@.last().length == before@.len(),
        forall|i: int| 0 <= i < before@.len() ==> #[trigger] run_pixels(final(runs)@.last())[i] == initial[run_start + i],
{
    let (rle, length) = compress_run(before);
    runs.push(RunSegment { start: run_start, length, before: rle });
}

/// Paint one placed stamp: every pixel of `block` that the stamp paints
/// ([`stamp_selected`]) gets its sample ([`block_sample`]), tinted by
/// `color` when `tinted`, written over or alpha-blended onto it; it is
/// marked in `visited` (and in `drag_processed` in alpha-overlay mode)
/// and added to `dirty_rect`.  The runs of painted pixels, row by row,
/// are appended to `runs` with the pixels they replaced.
#[verifier::rlimit(100)]
pub fn paint_stamp_block(
    pixels: &mut Vec<Color32>,
    width: u32,
    block: StampBlock,
    samples: &Vec<Color32>,
    color: Color32,
    alpha_overlay: bool,
    tinted: bool,
    visited: &mut Vec<u32>,
    stamp: u32,
    drag_processed: &mut Vec<u32>,
    drag_stamp_value: u32,
    runs: &mut Vec<RunSegment>,
    dirty_rect: &mut DirtyRect,
)
    requires
        block.left <= block.right < width,
        block.top <= block.bottom,
        block.bottom * width + width <= old(pixels)@.len(),
        old(pixels)@.len() <= u32::MAX,
        old(pixels)@.len() <= old(visited)@.len(),
        alpha_overlay ==> old(pixels)@.len() <= old(drag_processed)@.len(),
        samples@.len() == (block.right - block.left + 1) * (block.bottom - block.top + 1),
    ensures
        ({
            let n = old(pixels)@.len() as int;
            let w = width as int;
            let sel = |p: int|
                in_block(w, block, p) && stamp_selected(
                    old(visited)@,
                    stamp,
                    alpha_overlay,
                    old(drag_processed)@,
                    drag_stamp_value,
                    p,
                );
            let added = final(runs)@.subrange(old(runs)@.len() as int, final(runs)@.len() as int);
            &&& final(pixels)@.len() == n
            &&& forall|p: int|
                0 <= p < n ==> #[trigger] final(pixels)@[p] == if sel(p) {
                    stroke_value(
                        old(pixels)@[p],
                        stamp_source(block_sample(samples@, w, block, p), color, tinted),
                        alpha_overlay,
                    )
                } else {
                    old(pixels)@[p]
                }
            &&& final(visited)@.len() == old(visited)@.len()
            &&& forall|p: int|
                0 <= p < old(visited)@.len() ==> #[trigger] final(visited)@[p] == if p < n && sel(p) {
                    stamp
                } else {
                    old(visited)@[p]
                }
            &&& final(drag_processed)@.len() == old(drag_processed)@.len()
            &&& forall|p: int|
                0 <= p < old(drag_processed)@.len() ==> #[trigger] final(drag_processed)@[p] == if alpha_overlay && p
                    < n && sel(p) {
                    drag_stamp_value
                } else {
                    old(drag_processed)@[p]
                }
            &&& final(runs)@.subrange(0, old(runs)@.len() as int) == old(runs)@
            &&& runs_fit(added, n as nat)
            &&& runs_record(added, old(pixels)@)
            &&& forall|p: int| 0 <= p < n ==> (covered(added, p) <==> sel(p))
            &&& *final(dirty_rect) == stamp_dirty(
                *old(dirty_rect),
                w,
                block,
                old(visited)@,
                stamp,
                alpha_overlay,
                old(drag_processed)@,
                drag_stamp_value,
                n,
            )
        }),
{
    let ghost initial = pixels@;
    let ghost vis0 = visited@;
    let ghost drag0 = drag_processed@;
    let ghost runs0 = runs@;
    let ghost dirty0 = *dirty_rect;
    let ghost n = initial.len() as int;
    let ghost w = width as int;
    let ghost len0 = runs0.len() as int;
    let ghost bw = block.right - block.left + 1;
    let bw_exec: usize = (block.right - block.left + 1) as usize;
    let wu: usize = width as usize;
    let samples_len = samples.len();
    let mut x: u32 = block.left;
    let mut y: u32 = block.top;
    let mut k: usize = 0;
    let mut open: bool = false;
    let mut run_start: u32 = 0;
    let mut before: Vec<Color32> = Vec::new();
    let ghost mut added: Seq<RunSegment> = Seq::empty();
    proof {
        assert forall|p: int| 0 <= p < block.top * w + block.left implies !in_block(w, block, p) by {
            lemma_row_col(p, w);
            lemma_row_major_order(p / w, p % w, block.top as int, block.left as int, w);
        }
        lemma_dirty_skip(dirty0, w, block, vis0, stamp, alpha_overlay, drag0, drag_stamp_value, 0, block.top * w + block.left);
        assert(runs@ =~= runs0 + added);
        assert(block.top * w + block.left < n) by (nonlinear_arith)
            requires
                block.top <= block.bottom,
                block.left < w,
                block.bottom * w + w <= n,
        ;
    }
    while y <= block.bottom
        invariant
            block.left <= block.right < width,
            block.top <= block.bottom,
            block.bottom * w + w <= n,
            n <= u32::MAX,
            n <= vis0.len(),
            alpha_overlay ==> n <= drag0.len(),
            w == width,
            wu == width,
            w > 0,
            bw == bw_exec,
            bw == block.right - block.left + 1,
            n == initial.len(),
            samples@.len() == samples_len,
            samples@.len() == bw * (block.bottom - block.top + 1),
            block.left <= x <= block.right,
            block.top <= y <= block.bottom + 1,
            y == block.bottom + 1 ==> x == block.left,
            k == (y - block.top) * bw + (x - block.left),
            pixels@.len() == n,
            visited@.len() == vis0.len(),
            drag_processed@.len() == drag0.len(),
            runs@ == runs0 + added,
            ({
                let pos = y * w + x;
                let sel = |p: int|
                    in_block(w, block, p) && stamp_selected(vis0, stamp, alpha_overlay, drag0, drag_stamp_value, p);
                &&& forall|p: int|
                    0 <= p < n ==> #[trigger] pixels@[p] == if p < pos && sel(p) {
                        stroke_value(
                            initial[p],
                            stamp_source(block_sample(samples@, w, block, p), color, tinted),
                            alpha_overlay,
                        )
                    } else {
                        initial[p]
                    }
                &&& forall|p: int|
                    0 <= p < vis0.len() ==> #[trigger] visited@[p] == if p < n && p < pos && sel(p) {
                        stamp
                    } else {
                        vis0[p]
                    }
                &&& forall|p: int|
                    0 <= p < drag0.len() ==> #[trigger] drag_processed@[p] == if alpha_overlay && p < n && p < pos
                        && sel(p) {
                        drag_stamp_value
                    } else {
                        drag0[p]
                    }
                &&& runs_fit(added, n as nat)
                &&& runs_record(added, initial)
                &&& forall|p: int|
                    0 <= p < n ==> (covered(added, p) <==> (p < pos && sel(p) && !(open && run_start <= p)))
                &&& open ==> {
                    &&& y <= block.bottom
                    &&& y * w + block.left <= run_start <= pos
                    &&& before@.len() == pos - run_start
                    &&& forall|q: int| run_start <= q < pos ==> #[trigger] sel(q)
                    &&& forall|i: int| 0 <= i < before@.len() ==> #[trigger] before@[i] == initial[run_start + i]
                }
                &&& *dirty_rect == stamp_dirty(dirty0, w, block, vis0, stamp, alpha_overlay, drag0, drag_stamp_value, pos)
            }),
        decreases samples@.len() - k,
    {
        let ghost pos = y * w + x;
        let ghost sel = |p: int|
            in_block(w, block, p) && stamp_selected(vis0, stamp, alpha_overlay, drag0, drag_stamp_value, p);
        proof {
            assert(y * w + w <= n) by (nonlinear_arith)
                requires
                    y <= block.bottom,
                    block.bottom * w + w <= n,
                    w > 0,
            ;
            assert(0 <= y * w) by (nonlinear_arith)
                requires
                    y >= 0,
                    w > 0,
            ;
            lemma_row_col(pos, w);
            lemma_row_major_order(pos / w, pos % w, y as int, x as int, w);
            lemma_row_major_order(y as int, x as int, pos / w, pos % w, w);
            assert(pos / w == y && pos % w == x);
            assert(in_block(w, block, pos));
            assert(k < bw * (block.bottom - block.top + 1)) by (nonlinear_arith)
                requires
                    k == (y - block.top) * bw + (x - block.left),
                    block.top <= y <= block.bottom,
                    block.left <= x <= block.right,
                    bw == block.right - block.left + 1,
            ;
            assert(block_sample(samples@, w, block, pos) == samples@[k as int]);
        }
        let p: usize = (y as usize) * wu + (x as usize);
        let selected = visited[p] != stamp && !(alpha_overlay && drag_processed[p] == drag_stamp_value);
        proof {
            assert(visited@[p as int] == vis0[p as int]);
            if alpha_overlay {
                assert(drag_processed@[p as int] == drag0[p as int]);
            }
            assert(selected == sel(pos));
        }
        let ghost added_before = added;
        proof {
            assert(pos < n);
            assert(k < samples@.len());
        }
        if selected {
            if !open {
                open = true;
                run_start = p as u32;
                before = Vec::new();
            }
            let current = pixels[p];
            before.push(current);
            let source = if tinted {
                tint(samples[k], color)
            } else {
                samples[k]
            };
            let value = if alpha_overlay {
                alpha_blend(current, source)
            } else {
                source
            };
            pixels.set(p, value);
            visited.set(p, stamp);
            if alpha_overlay {
                drag_processed.set(p, drag_stamp_value);
            }
            dirty_rect.extend(x, y);
        } else if open {
            proof {
                assert(before@.len() == pos - run_start);
                assert(run_start + before@.len() <= initial.len());
            }
            close_run(runs, run_start, before, Ghost(initial));
            before = Vec::new();
            open = false;
            proof {
                lemma_push_run(added_before, runs@.last());
                added = added_before.push(runs@.last());
                assert(runs@ =~= runs0 + added);
                assert forall|jj: int, i: int|
                    0 <= jj < added.len() && 0 <= i < added[jj].length implies #[trigger] run_pixels(added[jj])[i]
                    == initial[added[jj].start + i] by {
                    if jj < added_before.len() {
                        assert(added[jj] == added_before[jj]);
                    }
                }
                assert forall|jj: int| 0 <= jj < added.len() implies run_fits(#[trigger] added[jj], n as nat) by {
                    if jj < added_before.len() {
                        assert(added[jj] == added_before[jj]);
                    }
                }
            }
        }
        if x == block.right {
            let ghost pos1 = pos + 1;
            if open {
                let ghost ab = added;
                proof {
                    assert(before@.len() == pos + 1 - run_start);
                    assert(run_start + before@.len() <= initial.len());
                }
                close_run(runs, run_start, before, Ghost(initial));
                before = Vec::new();
                open = false;
                proof {
                    lemma_push_run(ab, runs@.last());
                    added = ab.push(runs@.last());
                    assert(runs@ =~= runs0 + added);
                    assert forall|jj: int, i: int|
                        0 <= jj < added.len() && 0 <= i < added[jj].length implies #[trigger] run_pixels(added[jj])[i]
                        == initial[added[jj].start + i] by {
                        if jj < ab.len() {
                            assert(added[jj] == ab[jj]);
                        }
                    }
                    assert forall|jj: int| 0 <= jj < added.len() implies run_fits(#[trigger] added[jj], n as nat) by {
                        if jj < ab.len() {
                            assert(added[jj] == ab[jj]);
                        }
                    }
                }
            }
            proof {
                let next = (y + 1) * w + block.left;
                assert(next == pos1 + (w - 1 - block.right) + block.left) by (nonlinear_arith)
                    requires
                        pos1 == y * w + block.right + 1,
                        next == (y + 1) * w + block.left,
                ;
                assert forall|q: int| pos1 <= q < next implies !in_block(w, block, q) by {
                    lemma_row_col(q, w);
                    lemma_row_major_order(q / w, q % w, y as int, (block.right + 1) as int, w);
                    lemma_row_major_order(q / w, q % w, (y + 1) as int, block.left as int, w);
                }
                lemma_dirty_skip(dirty0, w, block, vis0, stamp, alpha_overlay, drag0, drag_stamp_value, pos1, next);
            }
            proof {
                assert((y + 1 - block.top) * bw == (y - block.top) * bw + bw) by (nonlinear_arith);
            }
            x = block.left;
            y = y + 1;
        } else {
            x = x + 1;
        }
        k = k + 1;
    }
    proof {
        let pos = y * w + x;
        assert forall|q: int| 0 <= q && in_block(w, block, q) implies q < pos && q < n by {
            lemma_row_col(q, w);
            lemma_row_major_order(q / w, q % w, y as int, x as int, w);
            lemma_row_major_order(q / w, q % w, block.bottom as int, w, w);
        }
        if pos <= n {
            lemma_dirty_skip(dirty0, w, block, vis0, stamp, alpha_overlay, drag0, drag_stamp_value, pos, n);
        } else {
            lemma_dirty_skip(dirty0, w, block, vis0, stamp, alpha_overlay, drag0, drag_stamp_value, n, pos);
        }
        assert(runs@.subrange(0, len0) =~= runs0);
        assert(runs@.subrange(len0, runs@.len() as int) =~= added);
    }
}

} // verus!
