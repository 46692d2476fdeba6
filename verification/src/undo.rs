//! Undo records: run-length before-pixel capture for brush strokes, layer
//! structure changes, and the functions that revert and replay them.

use vstd::prelude::*;

use crate::canvas::Canvas;
use crate::canvas::Layer;
use crate::canvas::LayerMode;
use crate::canvas::LayerView;
use crate::pixel::alpha_blend;
use crate::pixel::alpha_blend_spec;
use crate::pixel::Color32;

verus! {

/// Runs at most this long are always stored pixel by pixel.
pub const RLE_SHORT_RUN_THRESHOLD: usize = 8;

/// The pixels a run held before a stroke.
#[derive(Debug)]
pub enum BeforePixels {
    /// One stored pixel per position.
    Many(Vec<Color32>),
    /// Every position held this colour.
    All(Color32),
}

/// A contiguous range of layer pixels touched by a stroke, with its
/// before-stroke contents.
#[derive(Debug)]
pub struct RunSegment {
    /// Index of the first pixel of the run.
    pub start: u32,
    /// Number of pixels in the run.
    pub length: u32,
    /// The run's pixels before the stroke.
    pub before: BeforePixels,
}

/// One undoable edit.
#[derive(Debug)]
pub enum UndoRecord {
    /// A brush or fill stroke on one layer.
    Run {
        /// Index of the layer the stroke painted on.
        layer_index: usize,
        /// The stroke colour.
        color_after: Color32,
        /// The runs of pixels the stroke touched, in the order painted.
        runs: Vec<RunSegment>,
        /// Whether the stroke alpha-blended instead of overwriting.
        is_alpha_overlay: bool,
    },
    /// A layer was appended at `index`.
    AddLayer { index: usize, layer: Box<Layer> },
    /// The layer at `index` was removed.
    DeleteLayer { index: usize, layer: Box<Layer> },
    /// The layers at `from_index` and `to_index` were swapped.
    MoveLayer { from_index: usize, to_index: usize },
    /// The properties of the layer at `index` changed.
    ModifyLayer {
        index: usize,
        old_visible: bool,
        old_opacity: u8,
        old_name: String,
        old_mode: LayerMode,
        new_visible: bool,
        new_opacity: u8,
        new_name: String,
        new_mode: LayerMode,
    },
}

/// The before-stroke pixels of a run as a sequence of `length` colours.
pub open spec fn expand_before(b: BeforePixels, length: nat) -> Seq<Color32> {
    match b {
        BeforePixels::Many(v) => v@,
        BeforePixels::All(c) => Seq::new(length, |i: int| c),
    }
}

/// The stored pixels of a run, indexed from its start.
pub open spec fn run_pixels(r: RunSegment) -> Seq<Color32> {
    expand_before(r.before, r.length as nat)
}

/// A run stores exactly one colour per position and lies within a layer of
/// `n` pixels.
pub open spec fn run_fits(r: RunSegment, n: nat) -> bool {
    &&& r.start + r.length <= n
    &&& r.before matches BeforePixels::Many(v) ==> v@.len() == r.length
}

pub open spec fn runs_fit(runs: Seq<RunSegment>, n: nat) -> bool {
    forall|j: int| 0 <= j < runs.len() ==> run_fits(#[trigger] runs[j], n)
}

/// Pixel `p` lies in run `r`.
pub open spec fn in_run(r: RunSegment, p: int) -> bool {
    r.start <= p < r.start + r.length
}

/// Pixel `p` lies in some run of `runs`.
pub open spec fn covered(runs: Seq<RunSegment>, p: int) -> bool {
    exists|j: int| 0 <= j < runs.len() && in_run(#[trigger] runs[j], p)
}

/// The value a stroke of `color` gives a pixel that held `before`.
pub open spec fn stroke_value(before: Color32, color: Color32, alpha_overlay: bool) -> Color32 {
    if alpha_overlay {
        alpha_blend_spec(before, color)
    } else {
        color
    }
}

/// `layer` with run `r`'s stored pixels written back.
pub open spec fn restore_run(layer: Seq<Color32>, r: RunSegment) -> Seq<Color32> {
    Seq::new(
        layer.len(),
        |p: int|
            if in_run(r, p) {
                run_pixels(r)[p - r.start]
            } else {
                layer[p]
            },
    )
}

/// `layer` with run `r` painted again from its stored pixels.
pub open spec fn replay_run(
    layer: Seq<Color32>,
    r: RunSegment,
    color: Color32,
    alpha_overlay: bool,
) -> Seq<Color32> {
    Seq::new(
        layer.len(),
        |p: int|
            if in_run(r, p) {
                stroke_value(run_pixels(r)[p - r.start], color, alpha_overlay)
            } else {
                layer[p]
            },
    )
}

/// `layer` with every run restored, the last run first.
pub open spec fn undo_runs(layer: Seq<Color32>, runs: Seq<RunSegment>) -> Seq<Color32>
    decreases runs.len(),
{
    if runs.len() == 0 {
        layer
    } else {
        restore_run(undo_runs(layer, runs.drop_first()), runs[0])
    }
}

/// `layer` with every run replayed, the first run first.
pub open spec fn redo_runs(
    layer: Seq<Color32>,
    runs: Seq<RunSegment>,
    color: Color32,
    alpha_overlay: bool,
) -> Seq<Color32>
    decreases runs.len(),
{
    if runs.len() == 0 {
        layer
    } else {
        replay_run(redo_runs(layer, runs.drop_last(), color, alpha_overlay), runs.last(), color, alpha_overlay)
    }
}

/// Every run records the pixels of `before` at its positions.
pub open spec fn runs_record(runs: Seq<RunSegment>, before: Seq<Color32>) -> bool {
    forall|j: int, i: int|
        0 <= j < runs.len() && 0 <= i < runs[j].length ==> #[trigger] run_pixels(runs[j])[i]
            == before[runs[j].start + i]
}

/// A stroke that took `before` to `after` with these runs: the runs record
/// `before`, every covered pixel became the stroke value of its old colour,
/// and every other pixel is unchanged.
pub open spec fn stroke_recorded(
    runs: Seq<RunSegment>,
    color: Color32,
    alpha_overlay: bool,
    before: Seq<Color32>,
    after: Seq<Color32>,
) -> bool {
    &&& after.len() == before.len()
    &&& runs_fit(runs, before.len())
    &&& runs_record(runs, before)
    &&& forall|p: int|
        0 <= p < before.len() ==> #[trigger] after[p] == if covered(runs, p) {
            stroke_value(before[p], color, alpha_overlay)
        } else {
            before[p]
        }
}

proof fn lemma_undo_runs_pointwise(x: Seq<Color32>, runs: Seq<RunSegment>, before: Seq<Color32>)
    requires
        x.len() == before.len(),
        runs_fit(runs, before.len()),
        runs_record(runs, before),
    ensures
        undo_runs(x, runs).len() == x.len(),
        forall|p: int|
            0 <= p < x.len() ==> #[trigger] undo_runs(x, runs)[p] == if covered(runs, p) {
                before[p]
            } else {
                x[p]
            },
    decreases runs.len(),
{
    if runs.len() > 0 {
        let tail = runs.drop_first();
        assert forall|j: int| 0 <= j < tail.len() implies run_fits(#[trigger] tail[j], before.len()) by {
            assert(tail[j] == runs[j + 1]);
        }
        assert forall|j: int, i: int| 0 <= j < tail.len() && 0 <= i < tail[j].length implies #[trigger] run_pixels(
            tail[j],
        )[i] == before[tail[j].start + i] by {
            assert(tail[j] == runs[j + 1]);
        }
        lemma_undo_runs_pointwise(x, tail, before);
        assert forall|p: int| 0 <= p < x.len() implies #[trigger] undo_runs(x, runs)[p] == if covered(
            runs,
            p,
        ) {
            before[p]
        } else {
            x[p]
        } by {
            assert(run_fits(runs[0], before.len()));
            if in_run(runs[0], p) {
                assert(run_pixels(runs[0])[p - runs[0].start] == before[runs[0].start + (p
                    - runs[0].start)]);
            } else {
                if covered(runs, p) {
                    let j = choose|j: int| 0 <= j < runs.len() && in_run(#[trigger] runs[j], p);
                    assert(tail[j - 1] == runs[j]);
                } else {
                    assert forall|j: int| 0 <= j < tail.len() implies !in_run(#[trigger] tail[j], p) by {
                        assert(tail[j] == runs[j + 1]);
                    }
                }
            }
        }
    }
}

proof fn lemma_redo_runs_pointwise(
    x: Seq<Color32>,
    runs: Seq<RunSegment>,
    before: Seq<Color32>,
    color: Color32,
    alpha_overlay: bool,
)
    requires
        x.len() == before.len(),
        runs_fit(runs, before.len()),
        runs_record(runs, before),
    ensures
        redo_runs(x, runs, color, alpha_overlay).len() == x.len(),
        forall|p: int|
            0 <= p < x.len() ==> #[trigger] redo_runs(x, runs, color, alpha_overlay)[p] == if covered(
                runs,
                p,
            ) {
                stroke_value(before[p], color, alpha_overlay)
            } else {
                x[p]
            },
    decreases runs.len(),
{
    if runs.len() > 0 {
        let init = runs.drop_last();
        let n = runs.len() - 1;
        assert forall|j: int| 0 <= j < init.len() implies run_fits(#[trigger] init[j], before.len()) by {
            assert(init[j] == runs[j]);
        }
        assert forall|j: int, i: int| 0 <= j < init.len() && 0 <= i < init[j].length implies #[trigger] run_pixels(
            init[j],
        )[i] == before[init[j].start + i] by {
            assert(init[j] == runs[j]);
        }
        lemma_redo_runs_pointwise(x, init, before, color, alpha_overlay);
        assert forall|p: int| 0 <= p < x.len() implies #[trigger] redo_runs(x, runs, color, alpha_overlay)[p]
            == if covered(runs, p) {
            stroke_value(before[p], color, alpha_overlay)
        } else {
            x[p]
        } by {
            assert(run_fits(runs[n], before.len()));
            if in_run(runs[n], p) {
                assert(run_pixels(runs[n])[p - runs[n].start] == before[runs[n].start + (p
                    - runs[n].start)]);
            } else {
                if covered(runs, p) {
                    let j = choose|j: int| 0 <= j < runs.len() && in_run(#[trigger] runs[j], p);
                    assert(init[j] == runs[j]);
                } else {
                    assert forall|j: int| 0 <= j < init.len() implies !in_run(#[trigger] init[j], p) by {
                        assert(init[j] == runs[j]);
                    }
                }
            }
        }
    }
}

/// Undoing a recorded stroke gives back exactly the layer before the stroke.
pub proof fn law_undo_restores_stroke(
    runs: Seq<RunSegment>,
    color: Color32,
    alpha_overlay: bool,
    before: Seq<Color32>,
    after: Seq<Color32>,
)
    requires
        stroke_recorded(runs, color, alpha_overlay, before, after),
    ensures
        undo_runs(after, runs) == before,
{
    lemma_undo_runs_pointwise(after, runs, before);
    assert(undo_runs(after, runs) =~= before);
}

/// Replaying a recorded stroke on the layer before it gives back exactly
/// the layer after it.
pub proof fn law_redo_replays_stroke(
    runs: Seq<RunSegment>,
    color: Color32,
    alpha_overlay: bool,
    before: Seq<Color32>,
    after: Seq<Color32>,
)
    requires
        stroke_recorded(runs, color, alpha_overlay, before, after),
    ensures
        redo_runs(before, runs, color, alpha_overlay) == after,
{
    lemma_redo_runs_pointwise(before, runs, before, color, alpha_overlay);
    assert(redo_runs(before, runs, color, alpha_overlay) =~= after);
}

/// The runs were recorded one after another: each holds the pixels the
/// runs before it left at its positions, and painting them in order took
/// `before` to `after`.  Runs may overlap.
pub open spec fn runs_in_sequence(
    runs: Seq<RunSegment>,
    color: Color32,
    alpha_overlay: bool,
    before: Seq<Color32>,
    after: Seq<Color32>,
) -> bool
    decreases runs.len(),
{
    if runs.len() == 0 {
        after == before
    } else {
        let mid = redo_runs(before, runs.drop_last(), color, alpha_overlay);
        &&& runs_in_sequence(runs.drop_last(), color, alpha_overlay, before, mid)
        &&& run_fits(runs.last(), before.len())
        &&& forall|i: int|
            0 <= i < runs.last().length ==> #[trigger] run_pixels(runs.last())[i] == mid[runs.last().start + i]
        &&& after == replay_run(mid, runs.last(), color, alpha_overlay)
    }
}

proof fn lemma_undo_runs_last(layer: Seq<Color32>, runs: Seq<RunSegment>)
    requires
        runs.len() > 0,
    ensures
        undo_runs(layer, runs) == undo_runs(restore_run(layer, runs.last()), runs.drop_last()),
    decreases runs.len(),
{
    let last = runs.last();
    if runs.len() == 1 {
        assert(runs.drop_first().len() == 0);
        assert(runs.drop_last().len() == 0);
        assert(undo_runs(layer, runs.drop_first()) == layer);
        assert(undo_runs(restore_run(layer, last), runs.drop_last()) == restore_run(layer, last));
        assert(runs[0] == last);
    } else {
        let tail = runs.drop_first();
        let init = runs.drop_last();
        lemma_undo_runs_last(layer, tail);
        assert(tail.last() == runs.last());
        assert(tail.drop_last() =~= init.drop_first());
        assert(init[0] == runs[0]);
        assert(undo_runs(restore_run(layer, last), init) == restore_run(
            undo_runs(restore_run(layer, last), init.drop_first()),
            init[0],
        ));
    }
}

pub proof fn lemma_sequence_ends(
    runs: Seq<RunSegment>,
    color: Color32,
    alpha_overlay: bool,
    before: Seq<Color32>,
    after: Seq<Color32>,
)
    requires
        runs_in_sequence(runs, color, alpha_overlay, before, after),
    ensures
        redo_runs(before, runs, color, alpha_overlay) == after,
        after.len() == before.len(),
        undo_runs(after, runs) == before,
    decreases runs.len(),
{
    if runs.len() > 0 {
        let init = runs.drop_last();
        let last = runs.last();
        let mid = redo_runs(before, init, color, alpha_overlay);
        lemma_sequence_ends(init, color, alpha_overlay, before, mid);
        lemma_undo_runs_last(after, runs);
        assert(restore_run(after, last) =~= mid);
    }
}

/// Undoing runs recorded one after another gives back exactly the layer
/// before the first of them.
pub proof fn law_undo_restores_sequence(
    runs: Seq<RunSegment>,
    color: Color32,
    alpha_overlay: bool,
    before: Seq<Color32>,
    after: Seq<Color32>,
)
    requires
        runs_in_sequence(runs, color, alpha_overlay, before, after),
    ensures
        undo_runs(after, runs) == before,
{
    lemma_sequence_ends(runs, color, alpha_overlay, before, after);
}

/// Replaying runs recorded one after another on the layer before them
/// gives back exactly the layer after them.
pub proof fn law_redo_replays_sequence(
    runs: Seq<RunSegment>,
    color: Color32,
    alpha_overlay: bool,
    before: Seq<Color32>,
    after: Seq<Color32>,
)
    requires
        runs_in_sequence(runs, color, alpha_overlay, before, after),
    ensures
        redo_runs(before, runs, color, alpha_overlay) == after,
{
    lemma_sequence_ends(runs, color, alpha_overlay, before, after);
}

/// All pixels of `s` equal its first pixel.
pub open spec fn uniform(s: Seq<Color32>) -> bool {
    forall|i: int| 0 <= i < s.len() ==> #[trigger] s[i] == s[0]
}

/// Run-length encode a run's before-pixels: a run longer than
/// [`RLE_SHORT_RUN_THRESHOLD`] whose pixels are all equal is stored as one
/// colour, anything else pixel by pixel.  Returns the encoding and the run
/// length.
pub fn compress_run(pixels: Vec<Color32>) -> (res: (BeforePixels, u32))
    requires
        pixels@.len() <= u32::MAX,
    ensures
        res.1 == pixels@.len(),
        expand_before(res.0, res.1 as nat) == pixels@,
        pixels@.len() > RLE_SHORT_RUN_THRESHOLD && uniform(pixels@) ==> res.0 == BeforePixels::All(
            pixels@[0],
        ),
        !(pixels@.len() > RLE_SHORT_RUN_THRESHOLD && uniform(pixels@)) ==> res.0 is Many,
{
    let length = pixels.len();
    assert(length == pixels@.len());
    let length32 = length as u32;
    assert(length32 == pixels@.len());
    if length <= RLE_SHORT_RUN_THRESHOLD {
        return (BeforePixels::Many(pixels), length32);
    }
    let first = pixels[0];
    let mut i: usize = 1;
    while i < length
        invariant
            1 <= i <= length,
            length == pixels@.len(),
            length32 == length,
            first == pixels@[0],
            forall|k: int| 0 <= k < i ==> #[trigger] pixels@[k] == first,
        decreases length - i,
    {
        if pixels[i] != first {
            return (BeforePixels::Many(pixels), length32);
        }
        i = i + 1;
    }
    let ghost s = pixels@;
    assert(Seq::new(length as nat, |k: int| first) =~= s);
    (BeforePixels::All(first), length32)
}

/// The before-pixel of run `r` at offset `i`.
fn run_pixel(r: &RunSegment, i: u32) -> (c: Color32)
    requires
        i < r.length,
        r.before matches BeforePixels::Many(v) ==> v@.len() == r.length,
    ensures
        c == run_pixels(*r)[i as int],
{
    match &r.before {
        BeforePixels::Many(v) => v[i as usize],
        BeforePixels::All(c) => *c,
    }
}

/// Write run `r`'s stored pixels (or their replay) into `layer`.
fn apply_run(layer: &mut Vec<Color32>, r: &RunSegment, replay: Option<(Color32, bool)>)
    requires
        run_fits(*r, old(layer)@.len()),
    ensures
        final(layer)@ == match replay {
            Some((color, overlay)) => replay_run(old(layer)@, *r, color, overlay),
            None => restore_run(old(layer)@, *r),
        },
{
    let ghost initial = layer@;
    let ghost target = match replay {
        Some((color, overlay)) => replay_run(initial, *r, color, overlay),
        None => restore_run(initial, *r),
    };
    let layer_len = layer.len();
    let mut i: u32 = 0;
    while i < r.length
        invariant
            layer_len == initial.len(),
            i <= r.length,
            run_fits(*r, initial.len()),
            target.len() == initial.len(),
            target == match replay {
                Some((color, overlay)) => replay_run(initial, *r, color, overlay),
                None => restore_run(initial, *r),
            },
            layer@.len() == initial.len(),
            forall|p: int|
                0 <= p < initial.len() ==> #[trigger] layer@[p] == if r.start <= p < r.start + i {
                    target[p]
                } else {
                    initial[p]
                },
        decreases r.length - i,
    {
        let before = run_pixel(r, i);
        let value = match replay {
            Some((color, overlay)) => if overlay {
                alpha_blend(before, color)
            } else {
                color
            },
            None => before,
        };
        layer.set(r.start as usize + i as usize, value);
        i = i + 1;
    }
    assert(layer@ =~= target);
}

/// `record` can be undone (`undo`) or redone on a layer stack without
/// leaving it.
pub open spec fn record_fits(layers: Seq<LayerView>, record: UndoRecord, undo: bool) -> bool {
    match record {
        UndoRecord::Run { layer_index, runs, .. } => layer_index < layers.len() && runs_fit(
            runs@,
            layers[layer_index as int].pixels.len(),
        ),
        UndoRecord::AddLayer { index, .. } => if undo {
            index < layers.len()
        } else {
            index <= layers.len()
        },
        UndoRecord::DeleteLayer { index, .. } => if undo {
            index <= layers.len()
        } else {
            index < layers.len()
        },
        UndoRecord::MoveLayer { from_index, to_index } => from_index < layers.len() && to_index
            < layers.len(),
        UndoRecord::ModifyLayer { .. } => true,
    }
}

/// `record` can be undone (`undo`) or redone on `canvas`.
pub open spec fn record_applies(canvas: Canvas, record: UndoRecord, undo: bool) -> bool {
    record_fits(canvas.layers(), record, undo)
}

/// Layer `l` with the given properties and its pixels unchanged.
pub open spec fn with_properties(
    l: LayerView,
    visible: bool,
    opacity: u8,
    name: Seq<char>,
    mode: LayerMode,
) -> LayerView {
    LayerView { pixels: l.pixels, name, visible, opacity, mode }
}

/// Layer `l` with its pixels replaced.
pub open spec fn with_pixels(l: LayerView, pixels: Seq<Color32>) -> LayerView {
    LayerView { pixels, name: l.name, visible: l.visible, opacity: l.opacity, mode: l.mode }
}

/// The canvas layers after reverting (`undo`) or re-applying a record.
pub open spec fn layers_after(layers: Seq<LayerView>, record: UndoRecord, undo: bool) -> Seq<
    LayerView,
> {
    match record {
        UndoRecord::Run { layer_index, runs, color_after, is_alpha_overlay } => {
            let l = layers[layer_index as int];
            let px = if undo {
                undo_runs(l.pixels, runs@)
            } else {
                redo_runs(l.pixels, runs@, color_after, is_alpha_overlay)
            };
            layers.update(layer_index as int, with_pixels(l, px))
        },
        UndoRecord::AddLayer { index, layer } => if undo {
            layers.remove(index as int)
        } else {
            layers.insert(index as int, layer@)
        },
        UndoRecord::DeleteLayer { index, layer } => if undo {
            layers.insert(index as int, layer@)
        } else {
            layers.remove(index as int)
        },
        UndoRecord::MoveLayer { from_index, to_index } => layers.update(
            from_index as int,
            layers[to_index as int],
        ).update(to_index as int, layers[from_index as int]),
        UndoRecord::ModifyLayer {
            index,
            old_visible,
            old_opacity,
            old_name,
            old_mode,
            new_visible,
            new_opacity,
            new_name,
            new_mode,
        } => if index < layers.len() {
            if undo {
                layers.update(
                    index as int,
                    with_properties(layers[index as int], old_visible, old_opacity, old_name@, old_mode),
                )
            } else {
                layers.update(
                    index as int,
                    with_properties(layers[index as int], new_visible, new_opacity, new_name@, new_mode),
                )
            }
        } else {
            layers
        },
    }
}

/// `after` is `before` with `record` reverted (`undo`) or re-applied, and a
/// full re-blend requested.
pub open spec fn applied_to(before: Canvas, after: Canvas, record: UndoRecord, undo: bool) -> bool {
    &&& after.layers() == layers_after(before.layers(), record, undo)
    &&& after.width == before.width
    &&& after.height == before.height
    &&& after.output_rgba@ == before.output_rgba@
    &&& after.dirty_rect@.len() == 0
    &&& after.render_next_frame == before.render_next_frame
}

/// Revert an edit on `canvas`.
///
/// A stroke writes back the stored pixels of its runs, the last run first;
/// an added layer is removed; a deleted layer is reinserted; a move is
/// swapped back; a property change restores the old properties.  Every
/// change asks for a full re-blend.
pub fn undo_apply(canvas: &mut Canvas, record: &UndoRecord)
    requires
        record_applies(*old(canvas), *record, true),
    ensures
        applied_to(*old(canvas), *final(canvas), *record, true),
{
    apply_record(canvas, record, true);
}

/// Re-apply an undone edit on `canvas`.
///
/// A stroke paints its runs again from their stored pixels, the first run
/// first; an added layer is reinserted; a deleted layer is removed again; a
/// move is swapped again; a property change sets the new properties.
/// Every change asks for a full re-blend.
pub fn redo_apply(canvas: &mut Canvas, record: &UndoRecord)
    requires
        record_applies(*old(canvas), *record, false),
    ensures
        applied_to(*old(canvas), *final(canvas), *record, false),
{
    apply_record(canvas, record, false);
}

/// Exchange the layers at `i` and `j`.
pub fn swap_layers(v: &mut Vec<Layer>, i: usize, j: usize)
    requires
        i < old(v)@.len(),
        j < old(v)@.len(),
    ensures
        final(v)@ == old(v)@.update(i as int, old(v)@[j as int]).update(j as int, old(v)@[i as int]),
{
    if i == j {
        assert(v@ =~= v@.update(i as int, v@[j as int]).update(j as int, v@[i as int]));
        return;
    }
    let (lo, hi) = if i < j {
        (i, j)
    } else {
        (j, i)
    };
    let ghost s = v@;
    let hi_layer = v.remove(hi);
    let lo_layer = v.remove(lo);
    v.insert(lo, hi_layer);
    v.insert(hi, lo_layer);
    assert(v@ =~= s.update(i as int, s[j as int]).update(j as int, s[i as int]));
}

proof fn lemma_undo_runs_len(layer: Seq<Color32>, runs: Seq<RunSegment>)
    ensures
        undo_runs(layer, runs).len() == layer.len(),
    decreases runs.len(),
{
    if runs.len() > 0 {
        lemma_undo_runs_len(layer, runs.drop_first());
    }
}

proof fn lemma_redo_runs_len(layer: Seq<Color32>, runs: Seq<RunSegment>, color: Color32, overlay: bool)
    ensures
        redo_runs(layer, runs, color, overlay).len() == layer.len(),
    decreases runs.len(),
{
    if runs.len() > 0 {
        lemma_redo_runs_len(layer, runs.drop_last(), color, overlay);
    }
}

/// Replace the pixels of layer `layer_index` by reverting (`undo`) or
/// replaying the runs.
fn apply_stroke(
    canvas: &mut Canvas,
    layer_index: usize,
    runs: &Vec<RunSegment>,
    color: Color32,
    overlay: bool,
    undo: bool,
)
    requires
        layer_index < old(canvas).pixels@.len(),
        runs_fit(runs@, old(canvas).pixels@[layer_index as int].pixels@.len()),
    ensures
        final(canvas).pixels@.len() == old(canvas).pixels@.len(),
        forall|l: int|
            0 <= l < old(canvas).pixels@.len() && l != layer_index ==> #[trigger] final(canvas).pixels@[l]
                == old(canvas).pixels@[l],
        final(canvas).pixels@[layer_index as int]@ == with_pixels(
            old(canvas).pixels@[layer_index as int]@,
            if undo {
                undo_runs(old(canvas).pixels@[layer_index as int].pixels@, runs@)
            } else {
                redo_runs(old(canvas).pixels@[layer_index as int].pixels@, runs@, color, overlay)
            },
        ),
        final(canvas).width == old(canvas).width,
        final(canvas).height == old(canvas).height,
        final(canvas).output_rgba@ == old(canvas).output_rgba@,
        final(canvas).dirty_rect@ == old(canvas).dirty_rect@,
        final(canvas).render_next_frame == old(canvas).render_next_frame,
{
    let ghost start = canvas.pixels@;
    let ghost l0 = start[layer_index as int]@;
    let ghost width = canvas.width;
    let ghost height = canvas.height;
    let ghost out = canvas.output_rgba@;
    let ghost dirty = canvas.dirty_rect@;
    let ghost rnf = canvas.render_next_frame;
    let n = runs.len();
    proof {
        lemma_undo_runs_len(l0.pixels, runs@);
        lemma_redo_runs_len(l0.pixels, runs@, color, overlay);
    }
    if undo {
        let mut i = n;
        while i > 0
            invariant
                i <= n,
                n == runs@.len(),
                layer_index < start.len(),
                canvas.pixels@.len() == start.len(),
                runs_fit(runs@, l0.pixels.len()),
                forall|l: int|
                    0 <= l < start.len() && l != layer_index ==> #[trigger] canvas.pixels@[l] == start[l],
                canvas.pixels@[layer_index as int]@ == with_pixels(
                    l0,
                    undo_runs(l0.pixels, runs@.subrange(i as int, n as int)),
                ),
                canvas.width == width,
                canvas.height == height,
                canvas.output_rgba@ == out,
                canvas.dirty_rect@ == dirty,
                canvas.render_next_frame == rnf,
            decreases i,
        {
            i = i - 1;
            assert(runs@.subrange(i as int, n as int).drop_first() =~= runs@.subrange(i + 1, n as int));
            assert(run_fits(runs@[i as int], l0.pixels.len()));
            proof {
                lemma_undo_runs_len(l0.pixels, runs@.subrange(i + 1, n as int));
            }
            apply_run(&mut canvas.pixels[layer_index].pixels, &runs[i], None);
        }
        assert(runs@.subrange(0, n as int) =~= runs@);
    } else {
        let mut i: usize = 0;
        while i < n
            invariant
                i <= n,
                n == runs@.len(),
                layer_index < start.len(),
                canvas.pixels@.len() == start.len(),
                runs_fit(runs@, l0.pixels.len()),
                forall|l: int|
                    0 <= l < start.len() && l != layer_index ==> #[trigger] canvas.pixels@[l] == start[l],
                canvas.pixels@[layer_index as int]@ == with_pixels(
                    l0,
                    redo_runs(l0.pixels, runs@.take(i as int), color, overlay),
                ),
                canvas.width == width,
                canvas.height == height,
                canvas.output_rgba@ == out,
                canvas.dirty_rect@ == dirty,
                canvas.render_next_frame == rnf,
            decreases n - i,
        {
            assert(runs@.take(i + 1).drop_last() =~= runs@.take(i as int));
            assert(run_fits(runs@[i as int], l0.pixels.len()));
            proof {
                lemma_redo_runs_len(l0.pixels, runs@.take(i as int), color, overlay);
            }
            apply_run(&mut canvas.pixels[layer_index].pixels, &runs[i], Some((color, overlay)));
            i = i + 1;
        }
        assert(runs@.take(n as int) =~= runs@);
    }
}

fn apply_record(canvas: &mut Canvas, record: &UndoRecord, undo: bool)
    requires
        record_applies(*old(canvas), *record, undo),
    ensures
        applied_to(*old(canvas), *final(canvas), *record, undo),
{
    let ghost start = canvas.pixels@;
    let ghost before = canvas.layers();
    let n_layers = canvas.pixels.len();
    match record {
        UndoRecord::Run { layer_index, color_after, runs, is_alpha_overlay } => {
            apply_stroke(canvas, *layer_index, runs, *color_after, *is_alpha_overlay, undo);
            assert(canvas.layers() =~= layers_after(before, *record, undo));
        },
        UndoRecord::AddLayer { index, layer } => {
            if undo {
                canvas.pixels.remove(*index);
                assert(canvas.pixels@ == start.remove(*index as int));
            } else {
                let copy = (**layer).copy();
                canvas.pixels.insert(*index, copy);
                assert(canvas.pixels@ == start.insert(*index as int, copy));
            }
            assert(canvas.layers() =~= layers_after(before, *record, undo));
        },
        UndoRecord::DeleteLayer { index, layer } => {
            if undo {
                let copy = (**layer).copy();
                canvas.pixels.insert(*index, copy);
                assert(canvas.pixels@ == start.insert(*index as int, copy));
            } else {
                canvas.pixels.remove(*index);
                assert(canvas.pixels@ == start.remove(*index as int));
            }
            assert(canvas.layers() =~= layers_after(before, *record, undo));
        },
        UndoRecord::MoveLayer { from_index, to_index } => {
            swap_layers(&mut canvas.pixels, *from_index, *to_index);
            assert(canvas.layers() =~= layers_after(before, *record, undo));
        },
        UndoRecord::ModifyLayer {
            index,
            old_visible,
            old_opacity,
            old_name,
            old_mode,
            new_visible,
            new_opacity,
            new_name,
            new_mode,
        } => {
            let index = *index;
            if index < n_layers {
                if undo {
                    canvas.pixels[index].visible = *old_visible;
                    canvas.pixels[index].opacity = *old_opacity;
                    canvas.pixels[index].name = old_name.clone();
                    canvas.pixels[index].mode = *old_mode;
                } else {
                    canvas.pixels[index].visible = *new_visible;
                    canvas.pixels[index].opacity = *new_opacity;
                    canvas.pixels[index].name = new_name.clone();
                    canvas.pixels[index].mode = *new_mode;
                }
            }
            assert(canvas.layers() =~= layers_after(before, *record, undo));
        },
    }
    canvas.dirty_rect.request_full_blend();
}

} // verus!
