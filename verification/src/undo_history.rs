//! Undo/redo history: bounded stacks of [`UndoRecord`]s plus the stroke
//! and drag stamp buffers that brush tools use to avoid painting a pixel
//! twice.

use vstd::prelude::*;

use crate::canvas::Canvas;
use crate::canvas::LayerView;
use crate::undo::layers_after;
use crate::undo::record_fits;
use crate::undo::redo_apply;
use crate::undo::undo_apply;
use crate::undo::UndoRecord;
use crate::undo::law_redo_replays_stroke;
use crate::undo::law_undo_restores_stroke;
use crate::undo::redo_runs;
use crate::undo::run_fits;
use crate::undo::runs_fit;
use crate::undo::runs_in_sequence;
use crate::undo::stroke_recorded;
use crate::tools::square_brush::stroke_frame;

verus! {

/// Undo and redo stacks plus the per-stroke stamp buffers.
pub struct UndoHistory {
    /// Records that can be undone, oldest first.
    pub undo_stack: Vec<UndoRecord>,
    /// Records that can be redone, most recently undone last.
    pub redo_stack: Vec<UndoRecord>,
    /// Maximum number of records kept on the undo stack.
    pub max_undo: usize,
    /// Per-pixel stamp buffer marking pixels painted by the current stroke.
    pub visited: Vec<u32>,
    /// The current stroke's stamp value.
    pub visited_stamp: u32,
    /// Per-pixel stamp buffer marking pixels blended during the current drag.
    pub drag_processed: Vec<u32>,
    /// The current drag's stamp value.
    pub drag_stamp: u32,
}

/// Whether `steps` records from the top of `stack` can be applied in turn
/// (undone when `undo`, redone otherwise) starting from `layers`.
pub open spec fn chain_fits(layers: Seq<LayerView>, stack: Seq<UndoRecord>, steps: nat, undo: bool) -> bool
    decreases steps,
{
    if steps == 0 || stack.len() == 0 {
        true
    } else {
        record_fits(layers, stack.last(), undo) && chain_fits(
            layers_after(layers, stack.last(), undo),
            stack.drop_last(),
            (steps - 1) as nat,
            undo,
        )
    }
}

/// The layers after applying `steps` records from the top of `stack`.
pub open spec fn chain_result(layers: Seq<LayerView>, stack: Seq<UndoRecord>, steps: nat, undo: bool) -> Seq<
    LayerView,
>
    decreases steps,
{
    if steps == 0 || stack.len() == 0 {
        layers
    } else {
        chain_result(
            layers_after(layers, stack.last(), undo),
            stack.drop_last(),
            (steps - 1) as nat,
            undo,
        )
    }
}

pub open spec fn min_nat(a: nat, b: nat) -> nat {
    if a <= b {
        a
    } else {
        b
    }
}

/// `to_after` is `to` with the top `k` records of `from` pushed onto it,
/// the topmost first.
pub open spec fn moved_onto(from: Seq<UndoRecord>, to: Seq<UndoRecord>, to_after: Seq<UndoRecord>, k: nat) -> bool {
    &&& to_after.len() == to.len() + k
    &&& to_after.take(to.len() as int) == to
    &&& forall|j: int| 0 <= j < k ==> #[trigger] to_after[to.len() + j] == from[from.len() - 1 - j]
}

/// One undo (`undo`) or redo step of up to `steps` records: the layers go
/// from `layers` to `layers_after_step` by applying the top records of
/// `from` in turn, which move, the topmost first, from `from` onto `to`.
pub open spec fn stepped(
    layers: Seq<LayerView>,
    from: Seq<UndoRecord>,
    to: Seq<UndoRecord>,
    layers_after_step: Seq<LayerView>,
    from_after: Seq<UndoRecord>,
    to_after: Seq<UndoRecord>,
    steps: nat,
    undo: bool,
) -> bool {
    let k = min_nat(steps, from.len());
    &&& layers_after_step == chain_result(layers, from, steps, undo)
    &&& from_after == from.take(from.len() - k)
    &&& moved_onto(from, to, to_after, k)
}

/// Record `r` links `before` and `after`: undoing it on `after` gives
/// `before` back and redoing it on `before` gives `after`.
pub open spec fn inverse_pair(before: Seq<LayerView>, after: Seq<LayerView>, r: UndoRecord) -> bool {
    &&& record_fits(after, r, true)
    &&& layers_after(after, r, true) == before
    &&& record_fits(before, r, false)
    &&& layers_after(before, r, false) == after
}

/// The records of `stack`, topmost first, each undo the edit that led to
/// the layers they are undone from, starting at `layers`: each record
/// links the layers before its edit and after it.
pub open spec fn history_consistent(layers: Seq<LayerView>, stack: Seq<UndoRecord>) -> bool
    decreases stack.len(),
{
    if stack.len() == 0 {
        true
    } else {
        let prev = layers_after(layers, stack.last(), true);
        &&& inverse_pair(prev, layers, stack.last())
        &&& history_consistent(prev, stack.drop_last())
    }
}

/// Applying `a + b` records from the top of `stack` is applying `a` of
/// them and then `b` from what is left.
proof fn lemma_chain_split(layers: Seq<LayerView>, stack: Seq<UndoRecord>, a: nat, b: nat, undo: bool)
    requires
        a <= stack.len(),
    ensures
        chain_result(layers, stack, a + b, undo) == chain_result(
            chain_result(layers, stack, a, undo),
            stack.take(stack.len() - a),
            b,
            undo,
        ),
        chain_fits(layers, stack, a + b, undo) == (chain_fits(layers, stack, a, undo) && chain_fits(
            chain_result(layers, stack, a, undo),
            stack.take(stack.len() - a),
            b,
            undo,
        )),
    decreases a,
{
    if a == 0 {
        assert(stack.take(stack.len() as int) =~= stack);
    } else {
        let next = layers_after(layers, stack.last(), undo);
        let rest = stack.drop_last();
        lemma_chain_split(next, rest, (a - 1) as nat, b, undo);
        assert(rest.take(rest.len() - (a - 1)) =~= stack.take(stack.len() - a));
        assert((a - 1) as nat + b == (a + b - 1) as nat);
    }
}

/// Undoing `k` records from a consistent undo stack, which moves them onto
/// `r0` giving `r1`, and then redoing `k` records from `r1`, gives the
/// layers back; both steps apply.
proof fn lemma_undo_redo(
    layers: Seq<LayerView>,
    u: Seq<UndoRecord>,
    r0: Seq<UndoRecord>,
    r1: Seq<UndoRecord>,
    k: nat,
)
    requires
        history_consistent(layers, u),
        k <= u.len(),
        moved_onto(u, r0, r1, k),
    ensures
        chain_fits(layers, u, k, true),
        chain_fits(chain_result(layers, u, k, true), r1, k, false),
        chain_result(chain_result(layers, u, k, true), r1, k, false) == layers,
    decreases k,
{
    if k > 0 {
        let t = u.last();
        let prev = layers_after(layers, t, true);
        let u1 = u.drop_last();
        let r0p = r0.push(t);
        assert(r1[r0.len() + 0int] == u[u.len() - 1 - 0int]);
        assert(r1.take(r0p.len() as int) =~= r0p) by {
            assert forall|i: int| 0 <= i < r0p.len() implies r1.take(r0p.len() as int)[i] == r0p[i] by {
                if i < r0.len() {
                    assert(r1.take(r0.len() as int)[i] == r1[i]);
                }
            }
        }
        assert forall|j: int| 0 <= j < (k - 1) as nat implies #[trigger] r1[r0p.len() + j] == u1[u1.len() - 1 - j] by {
            assert(r1[r0.len() + (j + 1)] == u[u.len() - 1 - (j + 1)]);
        }
        assert(moved_onto(u1, r0p, r1, (k - 1) as nat));
        lemma_undo_redo(prev, u1, r0p, r1, (k - 1) as nat);
        let m = chain_result(prev, u1, (k - 1) as nat, true);
        assert(chain_result(layers, u, k, true) == m);
        lemma_chain_split(m, r1, (k - 1) as nat, 1, false);
        assert(r1.take(r1.len() - (k - 1)) == r0p);
        assert(r0p.last() == t);
        assert(chain_result(layers_after(prev, t, false), r0p.drop_last(), 0, false) == layers);
        assert(chain_fits(layers_after(prev, t, false), r0p.drop_last(), 0, false));
        assert(record_fits(prev, t, false));
        assert(chain_fits(prev, r0p, 1, false));
        assert((k - 1) as nat + 1 == k);
        assert(chain_fits(m, r1, (k - 1) as nat + 1, false));
    }
}

/// Records moved back onto the stack they came from restore it.
proof fn lemma_moved_back(u: Seq<UndoRecord>, r1: Seq<UndoRecord>, u2: Seq<UndoRecord>, r0: Seq<UndoRecord>, k: nat)
    requires
        k <= u.len(),
        moved_onto(u, r0, r1, k),
        moved_onto(r1, u.take(u.len() - k), u2, k),
    ensures
        u2 == u,
{
    let base = u.take(u.len() - k);
    assert forall|i: int| 0 <= i < u.len() implies u2[i] == u[i] by {
        if i < base.len() {
            assert(u2.take(base.len() as int)[i] == u2[i]);
        } else {
            let j = i - base.len();
            assert(u2[base.len() + j] == r1[r1.len() - 1 - j]);
            let j2 = k - 1 - j;
            assert(r1[r0.len() + j2] == u[u.len() - 1 - j2]);
        }
    }
    assert(u2 =~= u);
}

/// Undo then redo: undoing `k` steps and then redoing `k` steps gives back
/// the layers, the undo stack and the redo stack, when the undo stack holds
/// at least `k` records consistent with the layers; both steps apply.
pub proof fn law_undo_then_redo_restores(
    layers0: Seq<LayerView>,
    undo0: Seq<UndoRecord>,
    redo0: Seq<UndoRecord>,
    layers1: Seq<LayerView>,
    undo1: Seq<UndoRecord>,
    redo1: Seq<UndoRecord>,
    layers2: Seq<LayerView>,
    undo2: Seq<UndoRecord>,
    redo2: Seq<UndoRecord>,
    k: nat,
)
    requires
        history_consistent(layers0, undo0),
        k <= undo0.len(),
        stepped(layers0, undo0, redo0, layers1, undo1, redo1, k, true),
        stepped(layers1, redo1, undo1, layers2, redo2, undo2, k, false),
    ensures
        chain_fits(layers0, undo0, k, true),
        chain_fits(layers1, redo1, k, false),
        layers2 == layers0,
        undo2 == undo0,
        redo2 == redo0,
{
    lemma_undo_redo(layers0, undo0, redo0, redo1, k);
    assert(min_nat(k, undo0.len()) == k);
    assert(min_nat(k, redo1.len()) == k);
    lemma_moved_back(undo0, redo1, undo2, redo0, k);
    assert(redo2 =~= redo0) by {
        assert(redo1.take(redo0.len() as int) == redo0);
    }
}

/// The records of `stack`, topmost first, each redo an edit from the
/// layers they are redone on, starting at `layers`: each record links the
/// layers before its edit and after it.
pub open spec fn redo_consistent(layers: Seq<LayerView>, stack: Seq<UndoRecord>) -> bool
    decreases stack.len(),
{
    if stack.len() == 0 {
        true
    } else {
        let next = layers_after(layers, stack.last(), false);
        &&& inverse_pair(layers, next, stack.last())
        &&& redo_consistent(next, stack.drop_last())
    }
}

/// `to` with the top `k` records of `from` pushed onto it, the topmost
/// first.
pub open spec fn moved_seq(from: Seq<UndoRecord>, to: Seq<UndoRecord>, k: nat) -> Seq<UndoRecord> {
    to + Seq::new(k, |j: int| from[from.len() - 1 - j])
}

proof fn lemma_moved_seq(from: Seq<UndoRecord>, to: Seq<UndoRecord>, to_after: Seq<UndoRecord>, k: nat)
    requires
        moved_onto(from, to, to_after, k),
    ensures
        to_after == moved_seq(from, to, k),
{
    assert forall|i: int| 0 <= i < to_after.len() implies to_after[i] == moved_seq(from, to, k)[i] by {
        if i < to.len() {
            assert(to_after.take(to.len() as int)[i] == to_after[i]);
        } else {
            assert(to_after[to.len() + (i - to.len())] == from[from.len() - 1 - (i - to.len())]);
        }
    }
    assert(to_after =~= moved_seq(from, to, k));
}

/// Undoing `k` records of a consistent history leaves the rest of the undo
/// stack consistent with the new layers and the grown redo stack
/// replayable from them.
proof fn lemma_undo_valid(layers: Seq<LayerView>, u: Seq<UndoRecord>, r: Seq<UndoRecord>, k: nat)
    requires
        history_consistent(layers, u),
        redo_consistent(layers, r),
        k <= u.len(),
    ensures
        chain_fits(layers, u, k, true),
        history_consistent(chain_result(layers, u, k, true), u.take(u.len() - k)),
        redo_consistent(chain_result(layers, u, k, true), moved_seq(u, r, k)),
    decreases k,
{
    if k == 0 {
        assert(u.take(u.len() as int) =~= u);
        assert(moved_seq(u, r, 0) =~= r);
    } else {
        let t = u.last();
        let prev = layers_after(layers, t, true);
        let u1 = u.drop_last();
        let r1 = r.push(t);
        assert(r1.last() == t);
        assert(r1.drop_last() =~= r);
        assert(redo_consistent(prev, r1));
        lemma_undo_valid(prev, u1, r1, (k - 1) as nat);
        assert(u1.take(u1.len() - (k - 1)) =~= u.take(u.len() - k));
        assert(moved_seq(u1, r1, (k - 1) as nat) =~= moved_seq(u, r, k));
    }
}

/// Redoing `k` records of a replayable redo stack leaves the rest of it
/// replayable from the new layers and the grown undo stack consistent
/// with them.
proof fn lemma_redo_valid(layers: Seq<LayerView>, u: Seq<UndoRecord>, r: Seq<UndoRecord>, k: nat)
    requires
        history_consistent(layers, u),
        redo_consistent(layers, r),
        k <= r.len(),
    ensures
        chain_fits(layers, r, k, false),
        redo_consistent(chain_result(layers, r, k, false), r.take(r.len() - k)),
        history_consistent(chain_result(layers, r, k, false), moved_seq(r, u, k)),
    decreases k,
{
    if k == 0 {
        assert(r.take(r.len() as int) =~= r);
        assert(moved_seq(r, u, 0) =~= u);
    } else {
        let t = r.last();
        let next = layers_after(layers, t, false);
        let r1 = r.drop_last();
        let u1 = u.push(t);
        assert(u1.last() == t);
        assert(u1.drop_last() =~= u);
        assert(history_consistent(next, u1));
        lemma_redo_valid(next, u1, r1, (k - 1) as nat);
        assert(r1.take(r1.len() - (k - 1)) =~= r.take(r.len() - k));
        assert(moved_seq(r1, u1, (k - 1) as nat) =~= moved_seq(r, u, k));
    }
}

/// Undoing keeps a history valid: when the undo stack is consistent with
/// the layers and the redo stack replayable from them, an undo step
/// applies, and afterwards the same holds of the new layers and stacks.
pub proof fn law_undo_keeps_history_valid(
    layers0: Seq<LayerView>,
    undo0: Seq<UndoRecord>,
    redo0: Seq<UndoRecord>,
    layers1: Seq<LayerView>,
    undo1: Seq<UndoRecord>,
    redo1: Seq<UndoRecord>,
    steps: nat,
)
    requires
        history_consistent(layers0, undo0),
        redo_consistent(layers0, redo0),
        stepped(layers0, undo0, redo0, layers1, undo1, redo1, steps, true),
    ensures
        chain_fits(layers0, undo0, steps, true),
        history_consistent(layers1, undo1),
        redo_consistent(layers1, redo1),
{
    let k = min_nat(steps, undo0.len());
    lemma_undo_valid(layers0, undo0, redo0, k);
    lemma_moved_seq(undo0, redo0, redo1, k);
    lemma_chain_clamp(layers0, undo0, steps, true);
}

/// Redoing keeps a history valid: when the undo stack is consistent with
/// the layers and the redo stack replayable from them, a redo step
/// applies, and afterwards the same holds of the new layers and stacks.
pub proof fn law_redo_keeps_history_valid(
    layers0: Seq<LayerView>,
    undo0: Seq<UndoRecord>,
    redo0: Seq<UndoRecord>,
    layers1: Seq<LayerView>,
    undo1: Seq<UndoRecord>,
    redo1: Seq<UndoRecord>,
    steps: nat,
)
    requires
        history_consistent(layers0, undo0),
        redo_consistent(layers0, redo0),
        stepped(layers0, redo0, undo0, layers1, redo1, undo1, steps, false),
    ensures
        chain_fits(layers0, redo0, steps, false),
        history_consistent(layers1, undo1),
        redo_consistent(layers1, redo1),
{
    let k = min_nat(steps, redo0.len());
    lemma_redo_valid(layers0, undo0, redo0, k);
    lemma_moved_seq(redo0, undo0, undo1, k);
    lemma_chain_clamp(layers0, redo0, steps, false);
}

/// Applying more records than the stack holds applies all of them.
proof fn lemma_chain_clamp(layers: Seq<LayerView>, stack: Seq<UndoRecord>, steps: nat, undo: bool)
    ensures
        chain_result(layers, stack, steps, undo) == chain_result(layers, stack, min_nat(steps, stack.len()), undo),
        chain_fits(layers, stack, steps, undo) == chain_fits(layers, stack, min_nat(steps, stack.len()), undo),
    decreases steps,
{
    if steps > 0 && stack.len() > 0 {
        lemma_chain_clamp(layers_after(layers, stack.last(), undo), stack.drop_last(), (steps - 1) as nat, undo);
        assert(min_nat(steps, stack.len()) - 1 == min_nat((steps - 1) as nat, stack.drop_last().len()));
    }
}

/// Redo then undo: redoing `k` steps and then undoing `k` steps gives back
/// the layers and both stacks, when the redo stack holds at least `k`
/// records replayable from the layers; both steps apply.
pub proof fn law_redo_then_undo_restores(
    layers0: Seq<LayerView>,
    undo0: Seq<UndoRecord>,
    redo0: Seq<UndoRecord>,
    layers1: Seq<LayerView>,
    undo1: Seq<UndoRecord>,
    redo1: Seq<UndoRecord>,
    layers2: Seq<LayerView>,
    undo2: Seq<UndoRecord>,
    redo2: Seq<UndoRecord>,
    k: nat,
)
    requires
        redo_consistent(layers0, redo0),
        k <= redo0.len(),
        stepped(layers0, redo0, undo0, layers1, redo1, undo1, k, false),
        stepped(layers1, undo1, redo1, layers2, undo2, redo2, k, true),
    ensures
        chain_fits(layers0, redo0, k, false),
        chain_fits(layers1, undo1, k, true),
        layers2 == layers0,
        undo2 == undo0,
        redo2 == redo0,
{
    lemma_redo_undo(layers0, redo0, undo0, undo1, k);
    assert(min_nat(k, redo0.len()) == k);
    assert(min_nat(k, undo1.len()) == k);
    lemma_moved_back(redo0, undo1, redo2, undo0, k);
    assert(undo2 =~= undo0) by {
        assert(undo1.take(undo0.len() as int) == undo0);
    }
}

/// Redoing `k` records from a replayable redo stack, which moves them onto
/// `u0` giving `u1`, and then undoing `k` records from `u1`, gives the
/// layers back; both steps apply.
proof fn lemma_redo_undo(
    layers: Seq<LayerView>,
    r: Seq<UndoRecord>,
    u0: Seq<UndoRecord>,
    u1: Seq<UndoRecord>,
    k: nat,
)
    requires
        redo_consistent(layers, r),
        k <= r.len(),
        moved_onto(r, u0, u1, k),
    ensures
        chain_fits(layers, r, k, false),
        chain_fits(chain_result(layers, r, k, false), u1, k, true),
        chain_result(chain_result(layers, r, k, false), u1, k, true) == layers,
    decreases k,
{
    if k > 0 {
        let t = r.last();
        let next = layers_after(layers, t, false);
        let r1 = r.drop_last();
        let u0p = u0.push(t);
        assert(u1[u0.len() + 0int] == r[r.len() - 1 - 0int]);
        assert(u1.take(u0p.len() as int) =~= u0p) by {
            assert forall|i: int| 0 <= i < u0p.len() implies u1.take(u0p.len() as int)[i] == u0p[i] by {
                if i < u0.len() {
                    assert(u1.take(u0.len() as int)[i] == u1[i]);
                }
            }
        }
        assert forall|j: int| 0 <= j < (k - 1) as nat implies #[trigger] u1[u0p.len() + j] == r1[r1.len() - 1 - j] by {
            assert(u1[u0.len() + (j + 1)] == r[r.len() - 1 - (j + 1)]);
        }
        assert(moved_onto(r1, u0p, u1, (k - 1) as nat));
        lemma_redo_undo(next, r1, u0p, u1, (k - 1) as nat);
        let m = chain_result(next, r1, (k - 1) as nat, false);
        assert(chain_result(layers, r, k, false) == m);
        lemma_chain_split(m, u1, (k - 1) as nat, 1, true);
        assert(u1.take(u1.len() - (k - 1)) == u0p);
        assert(u0p.last() == t);
        assert(chain_result(layers_after(next, t, true), u0p.drop_last(), 0, true) == layers);
        assert(chain_fits(layers_after(next, t, true), u0p.drop_last(), 0, true));
        assert(record_fits(next, t, true));
        assert(chain_fits(next, u0p, 1, true));
        assert((k - 1) as nat + 1 == k);
        assert(chain_fits(m, u1, (k - 1) as nat + 1, true));
    }
}

/// A consistent history stays consistent when its oldest record is dropped.
proof fn lemma_drop_oldest(layers: Seq<LayerView>, stack: Seq<UndoRecord>)
    requires
        history_consistent(layers, stack),
        stack.len() > 0,
    ensures
        history_consistent(layers, stack.drop_first()),
    decreases stack.len(),
{
    if stack.len() > 1 {
        let prev = layers_after(layers, stack.last(), true);
        lemma_drop_oldest(prev, stack.drop_last());
        assert(stack.drop_first().last() == stack.last());
        assert(stack.drop_first().drop_last() =~= stack.drop_last().drop_first());
    } else {
        assert(stack.drop_first().len() == 0);
    }
}

/// Pushing the record of an edit ([`inverse_pair`]) onto a consistent
/// history, as [`UndoHistory::push_undo`] does, keeps it consistent with
/// the edited layers, also when the oldest record is dropped.
pub proof fn law_push_keeps_history_consistent(
    before: Seq<LayerView>,
    after: Seq<LayerView>,
    stack: Seq<UndoRecord>,
    record: UndoRecord,
    max_undo: usize,
)
    requires
        history_consistent(before, stack),
        inverse_pair(before, after, record),
    ensures
        history_consistent(
            after,
            if stack.len() + 1 > max_undo {
                stack.push(record).drop_first()
            } else {
                stack.push(record)
            },
        ),
{
    let pushed = stack.push(record);
    assert(pushed.last() == record);
    assert(pushed.drop_last() =~= stack);
    assert(history_consistent(after, pushed));
    if stack.len() + 1 > max_undo {
        lemma_drop_oldest(after, pushed);
    }
}

/// Runs recorded one after another fit the layer they were recorded on.
proof fn lemma_sequence_fits(
    runs: Seq<crate::undo::RunSegment>,
    color: crate::pixel::Color32,
    alpha_overlay: bool,
    before: Seq<crate::pixel::Color32>,
    after: Seq<crate::pixel::Color32>,
)
    requires
        runs_in_sequence(runs, color, alpha_overlay, before, after),
    ensures
        runs_fit(runs, before.len()),
    decreases runs.len(),
{
    if runs.len() > 0 {
        let init = runs.drop_last();
        let mid = redo_runs(before, init, color, alpha_overlay);
        lemma_sequence_fits(init, color, alpha_overlay, before, mid);
        assert forall|j: int| 0 <= j < runs.len() implies run_fits(#[trigger] runs[j], before.len()) by {
            if j < init.len() {
                assert(init[j] == runs[j]);
            }
        }
    }
}

/// A stroke's run record links the canvas layers before and after the
/// stroke ([`inverse_pair`]), given that the stroke changed only the
/// pixels of the record's layer and recorded its runs there (at once, or
/// one after another).
pub proof fn law_stroke_record_links(before: Canvas, after: Canvas, record: UndoRecord)
    requires
        record matches UndoRecord::Run { layer_index, runs, color_after, is_alpha_overlay } && {
            &&& layer_index < before.pixels@.len()
            &&& stroke_frame(before, after, layer_index as int)
            &&& (stroke_recorded(
                runs@,
                color_after,
                is_alpha_overlay,
                before.pixels@[layer_index as int].pixels@,
                after.pixels@[layer_index as int].pixels@,
            ) || runs_in_sequence(
                runs@,
                color_after,
                is_alpha_overlay,
                before.pixels@[layer_index as int].pixels@,
                after.pixels@[layer_index as int].pixels@,
            ))
        },
    ensures
        inverse_pair(before.layers(), after.layers(), record),
{
    if let UndoRecord::Run { layer_index, runs, color_after, is_alpha_overlay } = record {
        let li = layer_index as int;
        let bpx = before.pixels@[li].pixels@;
        let apx = after.pixels@[li].pixels@;
        if stroke_recorded(runs@, color_after, is_alpha_overlay, bpx, apx) {
            law_undo_restores_stroke(runs@, color_after, is_alpha_overlay, bpx, apx);
            law_redo_replays_stroke(runs@, color_after, is_alpha_overlay, bpx, apx);
        } else {
            crate::undo::lemma_sequence_ends(runs@, color_after, is_alpha_overlay, bpx, apx);
            lemma_sequence_fits(runs@, color_after, is_alpha_overlay, bpx, apx);
        }
        let bl = before.layers();
        let al = after.layers();
        assert(bl[li].pixels == bpx);
        assert(al[li].pixels == apx);
        assert(apx.len() == bpx.len());
        assert(record_fits(al, record, true));
        assert(record_fits(bl, record, false));
        assert(layers_after(al, record, true) =~= bl) by {
            assert forall|l: int| 0 <= l < bl.len() implies #[trigger] layers_after(al, record, true)[l] == bl[l] by {
                if l != li {
                    assert(after.pixels@[l] == before.pixels@[l]);
                }
            }
        }
        assert(layers_after(bl, record, false) =~= al) by {
            assert forall|l: int| 0 <= l < al.len() implies #[trigger] layers_after(bl, record, false)[l] == al[l] by {
                if l != li {
                    assert(after.pixels@[l] == before.pixels@[l]);
                }
            }
        }
    }
}

/// `v` holds only zeros.
pub open spec fn all_zero(v: Seq<u32>) -> bool {
    forall|i: int| 0 <= i < v.len() ==> #[trigger] v[i] == 0
}

impl UndoHistory {
    /// An empty history keeping at most `max_undo` records.
    pub fn new(max_undo: usize) -> (h: UndoHistory)
        ensures
            h.undo_stack@.len() == 0,
            h.redo_stack@.len() == 0,
            h.max_undo == max_undo,
            h.visited@.len() == 0,
            h.visited_stamp == 0,
            h.drag_processed@.len() == 0,
            h.drag_stamp == 0,
    {
        UndoHistory {
            undo_stack: Vec::new(),
            redo_stack: Vec::new(),
            max_undo,
            visited: Vec::new(),
            visited_stamp: 0,
            drag_processed: Vec::new(),
            drag_stamp: 0,
        }
    }

    /// Whether there is a record to undo.
    pub fn can_undo(&self) -> (b: bool)
        ensures
            b == (self.undo_stack@.len() > 0),
    {
        self.undo_stack.len() > 0
    }

    /// Whether there is a record to redo.
    pub fn can_redo(&self) -> (b: bool)
        ensures
            b == (self.redo_stack@.len() > 0),
    {
        self.redo_stack.len() > 0
    }

    /// Push a new record: the redo stack is cleared, and when the undo
    /// stack grows past `max_undo` its oldest record is dropped.
    pub fn push_undo(&mut self, record: UndoRecord)
        ensures
            final(self).redo_stack@.len() == 0,
            final(self).undo_stack@ == if old(self).undo_stack@.len() + 1 > old(self).max_undo {
                old(self).undo_stack@.push(record).drop_first()
            } else {
                old(self).undo_stack@.push(record)
            },
            final(self).max_undo == old(self).max_undo,
            final(self).visited@ == old(self).visited@,
            final(self).visited_stamp == old(self).visited_stamp,
            final(self).drag_processed@ == old(self).drag_processed@,
            final(self).drag_stamp == old(self).drag_stamp,
    {
        self.redo_stack.clear();
        self.undo_stack.push(record);
        if self.undo_stack.len() > self.max_undo {
            let ghost s = self.undo_stack@;
            self.undo_stack.remove(0);
            assert(self.undo_stack@ =~= s.drop_first());
        }
    }

    /// Undo up to `steps` records, most recent first, moving each onto the
    /// redo stack.
    pub fn undo_step(&mut self, canvas: &mut Canvas, steps: usize)
        requires
            chain_fits(old(canvas).layers(), old(self).undo_stack@, steps as nat, true),
        ensures
            stepped(
                old(canvas).layers(),
                old(self).undo_stack@,
                old(self).redo_stack@,
                final(canvas).layers(),
                final(self).undo_stack@,
                final(self).redo_stack@,
                steps as nat,
                true,
            ),
            final(canvas).width == old(canvas).width,
            final(canvas).height == old(canvas).height,
            final(self).max_undo == old(self).max_undo,
    {
        self.step(canvas, steps, true);
    }

    /// Redo up to `steps` records, most recently undone first, moving each
    /// back onto the undo stack.
    pub fn redo_step(&mut self, canvas: &mut Canvas, steps: usize)
        requires
            chain_fits(old(canvas).layers(), old(self).redo_stack@, steps as nat, false),
        ensures
            stepped(
                old(canvas).layers(),
                old(self).redo_stack@,
                old(self).undo_stack@,
                final(canvas).layers(),
                final(self).redo_stack@,
                final(self).undo_stack@,
                steps as nat,
                false,
            ),
            final(canvas).width == old(canvas).width,
            final(canvas).height == old(canvas).height,
            final(self).max_undo == old(self).max_undo,
    {
        self.step(canvas, steps, false);
    }

    fn step(&mut self, canvas: &mut Canvas, steps: usize, undo: bool)
        requires
            chain_fits(
                old(canvas).layers(),
                if undo {
                    old(self).undo_stack@
                } else {
                    old(self).redo_stack@
                },
                steps as nat,
                undo,
            ),
        ensures
            ({
                let from = if undo {
                    old(self).undo_stack@
                } else {
                    old(self).redo_stack@
                };
                let to = if undo {
                    old(self).redo_stack@
                } else {
                    old(self).undo_stack@
                };
                let from_after = if undo {
                    final(self).undo_stack@
                } else {
                    final(self).redo_stack@
                };
                let to_after = if undo {
                    final(self).redo_stack@
                } else {
                    final(self).undo_stack@
                };
                stepped(old(canvas).layers(), from, to, final(canvas).layers(), from_after, to_after, steps as nat, undo)
            }),
            final(canvas).width == old(canvas).width,
            final(canvas).height == old(canvas).height,
            final(self).max_undo == old(self).max_undo,
    {
        let ghost layers0 = canvas.layers();
        let ghost from0 = if undo {
            self.undo_stack@
        } else {
            self.redo_stack@
        };
        let ghost to0 = if undo {
            self.redo_stack@
        } else {
            self.undo_stack@
        };
        let ghost width = canvas.width;
        let ghost height = canvas.height;
        let ghost max_undo = self.max_undo;
        let mut done: usize = 0;
        proof {
            assert(to0.take(to0.len() as int) =~= to0);
            assert(from0.take(from0.len() as int) =~= from0);
        }
        while done < steps
            invariant
                done <= steps,
                done <= from0.len(),
                canvas.width == width,
                canvas.height == height,
                self.max_undo == max_undo,
                ({
                    let from = if undo {
                        self.undo_stack@
                    } else {
                        self.redo_stack@
                    };
                    let to = if undo {
                        self.redo_stack@
                    } else {
                        self.undo_stack@
                    };
                    &&& from == from0.take(from0.len() - done)
                    &&& moved_onto(from0, to0, to, done as nat)
                    &&& chain_fits(canvas.layers(), from, (steps - done) as nat, undo)
                    &&& chain_result(canvas.layers(), from, (steps - done) as nat, undo)
                        == chain_result(layers0, from0, steps as nat, undo)
                }),
            ensures
                done == steps || (if undo {
                    self.undo_stack@
                } else {
                    self.redo_stack@
                }).len() == 0,
            decreases steps - done,
        {
            let popped = if undo {
                self.undo_stack.pop()
            } else {
                self.redo_stack.pop()
            };
            match popped {
                Some(record) => {
                    let ghost before = canvas.layers();
                    assert(record == from0[from0.len() - 1 - done]);
                    if undo {
                        undo_apply(canvas, &record);
                        let ghost to_before = self.redo_stack@;
                        self.redo_stack.push(record);
                        assert(self.redo_stack@.take(to0.len() as int) =~= to_before.take(to0.len() as int));
                        assert forall|j: int| 0 <= j < done + 1 implies #[trigger] self.redo_stack@[to0.len() + j]
                            == from0[from0.len() - 1 - j] by {
                            if j < done {
                                assert(self.redo_stack@[to0.len() + j] == to_before[to0.len() + j]);
                            }
                        }
                    } else {
                        redo_apply(canvas, &record);
                        let ghost to_before = self.undo_stack@;
                        self.undo_stack.push(record);
                        assert(self.undo_stack@.take(to0.len() as int) =~= to_before.take(to0.len() as int));
                        assert forall|j: int| 0 <= j < done + 1 implies #[trigger] self.undo_stack@[to0.len() + j]
                            == from0[from0.len() - 1 - j] by {
                            if j < done {
                                assert(self.undo_stack@[to0.len() + j] == to_before[to0.len() + j]);
                            }
                        }
                    }
                    assert(from0.take(from0.len() - done).drop_last() =~= from0.take(from0.len() - (done + 1)));
                    done = done + 1;
                },
                None => {
                    break;
                },
            }
        }
        let ghost from = if undo {
            self.undo_stack@
        } else {
            self.redo_stack@
        };
        assert(chain_result(canvas.layers(), from, (steps - done) as nat, undo) == canvas.layers());
    }

    /// Drop all undo and redo records.
    pub fn clear(&mut self)
        ensures
            final(self).undo_stack@.len() == 0,
            final(self).redo_stack@.len() == 0,
            final(self).max_undo == old(self).max_undo,
            final(self).visited@ == old(self).visited@,
            final(self).visited_stamp == old(self).visited_stamp,
            final(self).drag_processed@ == old(self).drag_processed@,
            final(self).drag_stamp == old(self).drag_stamp,
    {
        self.undo_stack.clear();
        self.redo_stack.clear();
    }

    /// Reset the stamp buffers to `pixel_count` zeros (no pixel stamped).
    pub fn resize_visited(&mut self, pixel_count: usize)
        ensures
            final(self).visited@.len() == pixel_count,
            all_zero(final(self).visited@),
            final(self).visited_stamp == 0,
            final(self).drag_processed@.len() == pixel_count,
            all_zero(final(self).drag_processed@),
            final(self).drag_stamp == 0,
            final(self).undo_stack@ == old(self).undo_stack@,
            final(self).redo_stack@ == old(self).redo_stack@,
            final(self).max_undo == old(self).max_undo,
    {
        self.visited = zeros(pixel_count);
        self.visited_stamp = 0;
        self.drag_processed = zeros(pixel_count);
        self.drag_stamp = 0;
    }

    /// Advance to a fresh stroke stamp.  When the stamp wraps past
    /// `u32::MAX` the visited buffer is cleared and the stamp restarts at 1,
    /// so no stale pixel ever carries the new stamp.
    pub fn next_stamp(&mut self) -> (stamp: u32)
        ensures
            stamp == final(self).visited_stamp,
            old(self).visited_stamp < u32::MAX ==> stamp == old(self).visited_stamp + 1
                && final(self).visited@ == old(self).visited@,
            old(self).visited_stamp == u32::MAX ==> stamp == 1 && final(self).visited@.len()
                == old(self).visited@.len() && all_zero(final(self).visited@),
            final(self).undo_stack@ == old(self).undo_stack@,
            final(self).redo_stack@ == old(self).redo_stack@,
            final(self).drag_processed@ == old(self).drag_processed@,
            final(self).drag_stamp == old(self).drag_stamp,
    {
        self.visited_stamp = self.visited_stamp.wrapping_add(1);
        if self.visited_stamp == 0 {
            let n = self.visited.len();
            self.visited = zeros(n);
            self.visited_stamp = 1;
        }
        self.visited_stamp
    }

    /// Advance to a fresh drag stamp, clearing the drag buffer when the
    /// stamp wraps past `u32::MAX` and restarting at 1.
    pub fn next_drag_stamp(&mut self) -> (stamp: u32)
        ensures
            stamp == final(self).drag_stamp,
            old(self).drag_stamp < u32::MAX ==> stamp == old(self).drag_stamp + 1
                && final(self).drag_processed@ == old(self).drag_processed@,
            old(self).drag_stamp == u32::MAX ==> stamp == 1 && final(self).drag_processed@.len()
                == old(self).drag_processed@.len() && all_zero(final(self).drag_processed@),
            final(self).undo_stack@ == old(self).undo_stack@,
            final(self).redo_stack@ == old(self).redo_stack@,
            final(self).visited@ == old(self).visited@,
            final(self).visited_stamp == old(self).visited_stamp,
    {
        self.drag_stamp = self.drag_stamp.wrapping_add(1);
        if self.drag_stamp == 0 {
            let n = self.drag_processed.len();
            self.drag_processed = zeros(n);
            self.drag_stamp = 1;
        }
        self.drag_stamp
    }
}

/// A vector of `n` zeros.
pub fn zeros(n: usize) -> (v: Vec<u32>)
    ensures
        v@.len() == n,
        all_zero(v@),
{
    let mut v: Vec<u32> = Vec::with_capacity(n);
    let mut i: usize = 0;
    while i < n
        invariant
            i <= n,
            v@.len() == i,
            all_zero(v@),
        decreases n - i,
    {
        v.push(0);
        i = i + 1;
    }
    v
}

} // verus!
