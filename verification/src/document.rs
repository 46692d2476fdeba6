//! A canvas with its save path, current layer and dirty state, layer
//! management (add, delete, move, select, show/hide, opacity, mode, rename)
//! with undo records, and compositing of the visible layers.

use vstd::prelude::*;

use crate::canvas::Canvas;
use crate::canvas::DirtyRect;
use crate::canvas::Layer;
use crate::canvas::LayerMode;
use crate::canvas::LayerView;
use crate::canvas::transparent_pixels;
use crate::canvas::transparent_vec;
use crate::canvas::union_spec;
use crate::pixel::blend_layers;
use crate::pixel::blend_region;
use crate::pixel::clear_rect;
use crate::pixel::blend_views;
use crate::pixel::composite_spec;
use crate::pixel::pass_at;
use crate::pixel::pixel_at;
use crate::pixel::region_contains;
use crate::pixel::region_pass;
use crate::pixel::BlendView;
use crate::pixel::Color32;
use crate::pixel::LayerBlendInfo;
use crate::undo::layers_after;
use crate::undo::UndoRecord;
use crate::undo::with_properties;
use crate::undo_history::UndoHistory;
use crate::undo_history::history_consistent;
use crate::undo_history::law_push_keeps_history_consistent;

verus! {

/// Whether an asynchronous save currently holds a copy of the canvas.
#[derive(Clone, Copy, Debug, PartialEq, Eq, Structural)]
pub enum SaveState {
    /// No save is running.
    Idle,
    /// A background save holds a copy of the canvas.
    InFlight,
}

/// A canvas with its save path, current layer and dirty-tracking state.
#[derive(Debug)]
pub struct Document {
    /// The canvas being edited.
    pub canvas: Canvas,
    /// Path most recently saved to or loaded from, or empty.
    pub savefile_path: String,
    /// Index of the active layer within `canvas.pixels`.
    pub current_layer: usize,
    /// Whether unsaved changes exist since the last autosave.
    pub dirty_since_last_autosave: bool,
    /// Whether a background save is running.
    pub save_state: SaveState,
    /// The number in the name of the next layer [`Document::add_layer`]
    /// creates.
    pub next_layer_number: usize,
}

/// The decimal digits of `n`.
pub open spec fn decimal(n: nat) -> Seq<char>
    decreases n,
{
    if n < 10 {
        seq![digit_char(n)]
    } else {
        decimal(n / 10).push(digit_char(n % 10))
    }
}

pub open spec fn digit_char(d: nat) -> char {
    if d == 0 {
        '0'
    } else if d == 1 {
        '1'
    } else if d == 2 {
        '2'
    } else if d == 3 {
        '3'
    } else if d == 4 {
        '4'
    } else if d == 5 {
        '5'
    } else if d == 6 {
        '6'
    } else if d == 7 {
        '7'
    } else if d == 8 {
        '8'
    } else {
        '9'
    }
}

fn digit_str(d: usize) -> (s: &'static str)
    requires
        d < 10,
    ensures
        s@ == seq![digit_char(d as nat)],
{
    proof {
        reveal_strlit("0");
        reveal_strlit("1");
        reveal_strlit("2");
        reveal_strlit("3");
        reveal_strlit("4");
        reveal_strlit("5");
        reveal_strlit("6");
        reveal_strlit("7");
        reveal_strlit("8");
        reveal_strlit("9");
    }
    if d == 0 {
        "0"
    } else if d == 1 {
        "1"
    } else if d == 2 {
        "2"
    } else if d == 3 {
        "3"
    } else if d == 4 {
        "4"
    } else if d == 5 {
        "5"
    } else if d == 6 {
        "6"
    } else if d == 7 {
        "7"
    } else if d == 8 {
        "8"
    } else {
        "9"
    }
}

/// Append the decimal digits of `n` to `text`.
pub(crate) fn append_decimal(text: &mut String, n: usize)
    ensures
        final(text)@ == old(text)@ + decimal(n as nat),
    decreases n,
{
    if n < 10 {
        text.append(digit_str(n));
    } else {
        append_decimal(text, n / 10);
        text.append(digit_str(n % 10));
        assert(decimal(n as nat) == decimal((n / 10) as nat).push(digit_char((n % 10) as nat)));
    }
}

/// The default name of a new layer: "Layer " and its `number`.
pub open spec fn default_layer_name(number: nat) -> Seq<char> {
    seq!['L', 'a', 'y', 'e', 'r', ' '] + decimal(number)
}

proof fn lemma_decimal_len(n: nat)
    ensures
        decimal(n).len() >= 1,
        n >= 10 ==> decimal(n).len() >= 2,
    decreases n,
{
    if n >= 10 {
        lemma_decimal_len(n / 10);
    }
}

proof fn lemma_digit_injective(a: nat, b: nat)
    requires
        a < 10,
        b < 10,
        digit_char(a) == digit_char(b),
    ensures
        a == b,
{
}

proof fn lemma_decimal_injective(a: nat, b: nat)
    requires
        decimal(a) == decimal(b),
    ensures
        a == b,
    decreases a,
{
    lemma_decimal_len(a);
    lemma_decimal_len(b);
    if a >= 10 && b >= 10 {
        let da = decimal(a);
        assert(da.drop_last() == decimal(a / 10));
        assert(decimal(b).drop_last() == decimal(b / 10));
        lemma_decimal_injective(a / 10, b / 10);
        assert(da.last() == digit_char(a % 10));
        assert(decimal(b).last() == digit_char(b % 10));
        lemma_digit_injective(a % 10, b % 10);
    } else if a < 10 && b < 10 {
        assert(decimal(a)[0] == digit_char(a));
        assert(decimal(b)[0] == digit_char(b));
        lemma_digit_injective(a, b);
    }
}

/// Layers created with different numbers get different default names.
pub proof fn law_layer_names_distinct(a: nat, b: nat)
    requires
        a != b,
    ensures
        default_layer_name(a) != default_layer_name(b),
{
    if default_layer_name(a) == default_layer_name(b) {
        assert(default_layer_name(a).skip(6) =~= decimal(a));
        assert(default_layer_name(b).skip(6) =~= decimal(b));
        lemma_decimal_injective(a, b);
    }
}

/// Default name of the layer created with `number`.
pub fn layer_name(number: usize) -> (name: String)
    ensures
        name@ == default_layer_name(number as nat),
{
    let mut name = String::from_str("Layer ");
    proof {
        reveal_strlit("Layer ");
    }
    append_decimal(&mut name, number);
    name
}

/// The current layer after the layer at `index` of `count` layers was
/// removed: a layer below the current one moves it down by one; removing
/// the current layer keeps its position, clamped to the new last layer
/// (0 when none is left); removing a layer above changes nothing.
pub open spec fn current_after_delete(current: int, index: int, count: int) -> int {
    if index < current {
        current - 1
    } else if index == current && current >= count - 1 {
        if count - 1 > 0 { count - 2 } else { 0 }
    } else {
        current
    }
}

/// The number after the layers of a canvas with `count` layers.
fn number_after(count: usize) -> (n: usize)
    ensures
        n == if count < usize::MAX { count + 1 } else { count as int },
{
    if count < usize::MAX {
        count + 1
    } else {
        count
    }
}

/// The visible layers of a stack, as compositing views, bottom first.
pub open spec fn visible_views(layers: Seq<LayerView>) -> Seq<BlendView>
    decreases layers.len(),
{
    if layers.len() == 0 {
        Seq::empty()
    } else {
        let l = layers.last();
        let rest = visible_views(layers.drop_last());
        if l.visible {
            rest.push(BlendView { pixels: l.pixels, opacity: l.opacity, mode: l.mode })
        } else {
            rest
        }
    }
}

/// Some layer of the stack is visible.
pub open spec fn any_visible(layers: Seq<LayerView>) -> bool {
    exists|i: int| 0 <= i < layers.len() && (#[trigger] layers[i]).visible
}

/// Number of visible layers.
pub open spec fn visible_count(layers: Seq<LayerView>) -> nat
    decreases layers.len(),
{
    if layers.len() == 0 {
        0
    } else {
        visible_count(layers.drop_last()) + if layers.last().visible {
            1nat
        } else {
            0nat
        }
    }
}

/// Replacing one layer changes the visible count by the change of that
/// layer's visibility.
proof fn lemma_visible_count_update(layers: Seq<LayerView>, i: int, l: LayerView)
    requires
        0 <= i < layers.len(),
    ensures
        visible_count(layers.update(i, l)) + (if layers[i].visible { 1int } else { 0int })
            == visible_count(layers) + (if l.visible { 1int } else { 0int }),
    decreases layers.len(),
{
    let u = layers.update(i, l);
    if i < layers.len() - 1 {
        assert(u.drop_last() =~= layers.drop_last().update(i, l));
        lemma_visible_count_update(layers.drop_last(), i, l);
    } else {
        assert(u.drop_last() =~= layers.drop_last());
    }
}

/// Pixel `k` after the dirty rectangles `rects` are re-blended in order:
/// a pixel inside a rectangle is cleared and the visible layers composited
/// over transparent black (the last rectangle holding it decides); a pixel
/// outside all of them keeps its value `acc`.
pub open spec fn blend_rects_spec(
    layers: Seq<BlendView>,
    width: int,
    rects: Seq<DirtyRect>,
    k: int,
    acc: crate::pixel::Color32,
) -> crate::pixel::Color32
    decreases rects.len(),
{
    if rects.len() == 0 {
        acc
    } else {
        let prev = blend_rects_spec(layers, width, rects.drop_last(), k, acc);
        let r = rects.last();
        if region_contains(width, r.min_x as int, r.min_y as int, r.max_x as int, r.max_y as int, k) {
            composite_spec(
                layers,
                layers.len() as int,
                k,
                crate::pixel::Color32 { r: 0, g: 0, b: 0, a: 0 },
                region_pass(width, r.min_x as int, r.max_x as int, k),
            )
        } else {
            prev
        }
    }
}

/// The union of the rectangles of `rects`, folded from the first.
pub open spec fn union_of(rects: Seq<DirtyRect>) -> DirtyRect
    decreases rects.len(),
{
    if rects.len() <= 1 {
        rects[0]
    } else {
        union_spec(union_of(rects.drop_last()), rects.last())
    }
}

/// Every dirty rectangle lies inside the canvas.
pub open spec fn dirty_within(canvas: Canvas) -> bool {
    forall|j: int|
        0 <= j < canvas.dirty_rect@.len() ==> {
            &&& (#[trigger] canvas.dirty_rect@[j]).max_x < canvas.width
            &&& canvas.dirty_rect@[j].max_y < canvas.height
        }
}

/// The undo stack after pushing one record.
pub open spec fn pushed(old_stack: Seq<UndoRecord>, new_stack: Seq<UndoRecord>, max_undo: usize) -> bool {
    &&& new_stack.len() == if old_stack.len() + 1 > max_undo {
        old_stack.len()
    } else {
        old_stack.len() + 1
    }
    &&& forall|j: int|
        0 <= j < new_stack.len() - 1 ==> #[trigger] new_stack[j] == if old_stack.len() + 1 > max_undo {
            old_stack[j + 1]
        } else {
            old_stack[j]
        }
}

/// The record pushed (when the history keeps any) is a change of the
/// properties of the layer at `index`.
pub open spec fn modify_recorded(old_undo: UndoHistory, new_undo: UndoHistory, index: int) -> bool {
    old_undo.max_undo > 0 ==> (new_undo.undo_stack@.last() matches UndoRecord::ModifyLayer { index: i, .. } && i
        == index)
}

/// After a layer edit: `undo` pushed `record` (unless it keeps no
/// history), cleared its redo stack, and reverting or re-applying `record`
/// maps the layers after the edit and before it onto each other.
pub open spec fn edit_recorded(
    old_undo: UndoHistory,
    new_undo: UndoHistory,
    before: Seq<LayerView>,
    after: Seq<LayerView>,
) -> bool {
    &&& new_undo.redo_stack@.len() == 0
    &&& new_undo.max_undo == old_undo.max_undo
    &&& new_undo.visited@ == old_undo.visited@
    &&& new_undo.visited_stamp == old_undo.visited_stamp
    &&& pushed(old_undo.undo_stack@, new_undo.undo_stack@, old_undo.max_undo)
    &&& old_undo.max_undo > 0 ==> {
        let record = new_undo.undo_stack@.last();
        &&& new_undo.undo_stack@.len() > 0
        &&& layers_after(after, record, true) == before
        &&& layers_after(before, record, false) == after
        &&& crate::undo::record_fits(after, record, true)
        &&& crate::undo::record_fits(before, record, false)
    }
}

/// The layers with the ones at `i` and `j` exchanged.
pub open spec fn layers_swapped(layers: Seq<LayerView>, i: int, j: int) -> Seq<LayerView> {
    layers.update(i, layers[j]).update(j, layers[i])
}

/// Moving a layer up and then moving it back down (from its new position)
/// gives the layer order back, and so does the other way round.
pub proof fn law_move_up_then_down_restores(layers: Seq<LayerView>, index: int)
    requires
        0 < index < layers.len(),
    ensures
        layers_swapped(layers_swapped(layers, index, index - 1), index - 1, index) == layers,
        layers_swapped(layers_swapped(layers, index - 1, index), index, index - 1) == layers,
{
    assert(layers_swapped(layers_swapped(layers, index, index - 1), index - 1, index) =~= layers);
    assert(layers_swapped(layers_swapped(layers, index - 1, index), index, index - 1) =~= layers);
}

/// Layer operations are undoable: an operation that recorded its edit
/// ([`edit_recorded`]) keeps a history consistent with the layers
/// ([`history_consistent`]) consistent with the edited layers, so undoing
/// and redoing it restore them ([`law_undo_then_redo_restores`]).
pub proof fn law_layer_edit_keeps_history_consistent(
    old_undo: UndoHistory,
    new_undo: UndoHistory,
    before: Seq<LayerView>,
    after: Seq<LayerView>,
)
    requires
        edit_recorded(old_undo, new_undo, before, after),
        history_consistent(before, old_undo.undo_stack@),
        old_undo.undo_stack@.len() <= old_undo.max_undo,
    ensures
        history_consistent(after, new_undo.undo_stack@),
{
    let old_stack = old_undo.undo_stack@;
    let new_stack = new_undo.undo_stack@;
    if old_undo.max_undo == 0 {
        assert(new_stack.len() == 0);
    } else {
        let record = new_stack.last();
        let expected = if old_stack.len() + 1 > old_undo.max_undo {
            old_stack.push(record).drop_first()
        } else {
            old_stack.push(record)
        };
        assert(new_stack =~= expected) by {
            assert forall|j: int| 0 <= j < new_stack.len() implies new_stack[j] == expected[j] by {
                if j < new_stack.len() - 1 {
                    assert(new_stack[j] == if old_stack.len() + 1 > old_undo.max_undo {
                        old_stack[j + 1]
                    } else {
                        old_stack[j]
                    });
                }
            }
        }
        law_push_keeps_history_consistent(before, after, old_stack, record, old_undo.max_undo);
    }
}

/// `n` zero bytes.
pub fn byte_zeros(n: usize) -> (v: Vec<u8>)
    ensures
        v@ == Seq::new(n as nat, |i: int| 0u8),
{
    let mut v: Vec<u8> = Vec::with_capacity(n);
    let mut i: usize = 0;
    while i < n
        invariant
            i <= n,
            v@ == Seq::new(i as nat, |k: int| 0u8),
        decreases n - i,
    {
        v.push(0);
        i = i + 1;
        assert(v@ =~= Seq::new(i as nat, |k: int| 0u8));
    }
    v
}

proof fn lemma_visible_nonempty(layers: Seq<LayerView>)
    requires
        any_visible(layers),
    ensures
        visible_views(layers).len() > 0,
        forall|j: int|
            0 <= j < visible_views(layers).len() ==> exists|l: int|
                0 <= l < layers.len() && (#[trigger] visible_views(layers)[j]).pixels == layers[l].pixels,
    decreases layers.len(),
{
    let rest = layers.drop_last();
    if !layers.last().visible {
        let i = choose|i: int| 0 <= i < layers.len() && (#[trigger] layers[i]).visible;
        assert(rest[i] == layers[i]);
        lemma_visible_nonempty(rest);
    } else if any_visible(rest) {
        lemma_visible_nonempty(rest);
    }
    lemma_visible_source(layers);
}

proof fn lemma_visible_source(layers: Seq<LayerView>)
    ensures
        forall|j: int|
            0 <= j < visible_views(layers).len() ==> exists|l: int|
                0 <= l < layers.len() && (#[trigger] visible_views(layers)[j]).pixels == layers[l].pixels,
    decreases layers.len(),
{
    if layers.len() > 0 {
        let rest = layers.drop_last();
        lemma_visible_source(rest);
        assert forall|j: int| 0 <= j < visible_views(layers).len() implies exists|l: int|
            0 <= l < layers.len() && (#[trigger] visible_views(layers)[j]).pixels == layers[l].pixels by {
            if j < visible_views(rest).len() {
                let l = choose|l: int| 0 <= l < rest.len() && visible_views(rest)[j].pixels == rest[l].pixels;
                assert(layers[l] == rest[l]);
            } else {
                assert(visible_views(layers)[j].pixels == layers[layers.len() - 1].pixels);
            }
        }
    }
}

proof fn lemma_rect_fits(rect: DirtyRect, w: int, h: int)
    requires
        rect.min_x <= rect.max_x < w,
        rect.min_y <= rect.max_y < h,
    ensures
        rect.max_y * w + rect.max_x + 1 <= w * h,
{
    vstd::arithmetic::mul::lemma_mul_inequality(rect.max_y + 1, h, w);
    vstd::arithmetic::mul::lemma_mul_is_distributive_add_other_way(w, rect.max_y as int, 1);
    vstd::arithmetic::mul::lemma_mul_is_commutative(w, h);
}

impl Document {
    /// Wrap `canvas` with an empty save path, layer 0 current, not dirty
    /// and no save running; the next new layer is numbered after the
    /// canvas's layers.
    pub fn new(canvas: Canvas) -> (d: Document)
        ensures
            d.canvas == canvas,
            d.savefile_path@.len() == 0,
            d.current_layer == 0,
            !d.dirty_since_last_autosave,
            d.save_state == SaveState::Idle,
            d.next_layer_number == if canvas.pixels@.len() < usize::MAX {
                canvas.pixels@.len() + 1
            } else {
                canvas.pixels@.len()
            },
    {
        let next_layer_number = number_after(canvas.pixels.len());
        Document {
            canvas,
            savefile_path: String::new(),
            current_layer: 0,
            dirty_since_last_autosave: false,
            save_state: SaveState::Idle,
            next_layer_number,
        }
    }

    /// The canvas, for editing.
    pub fn canvas_mut(&mut self) -> (c: &mut Canvas)
        ensures
            final(self).next_layer_number == old(self).next_layer_number,
            *c == old(self).canvas,
            final(self).canvas == *final(c),
            final(self).savefile_path == old(self).savefile_path,
            final(self).current_layer == old(self).current_layer,
            final(self).dirty_since_last_autosave == old(self).dirty_since_last_autosave,
            final(self).save_state == old(self).save_state,
    {
        &mut self.canvas
    }

    /// Replace the canvas, clear the save path and dirty flag, clear the
    /// undo history and size its stamp buffers for the new canvas, number
    /// the next new layer after the new canvas's layers, and ask for a full
    /// re-blend.
    pub fn replace_canvas(&mut self, canvas: Canvas, undo: &mut UndoHistory)
        requires
            canvas.width * canvas.height <= u32::MAX,
        ensures
            final(self).canvas.layers() == canvas.layers(),
            final(self).canvas.width == canvas.width,
            final(self).canvas.height == canvas.height,
            final(self).canvas.output_rgba@ == canvas.output_rgba@,
            final(self).canvas.render_next_frame == canvas.render_next_frame,
            final(self).canvas.dirty_rect@.len() == 0,
            final(self).savefile_path@.len() == 0,
            !final(self).dirty_since_last_autosave,
            final(self).current_layer == old(self).current_layer,
            final(self).save_state == old(self).save_state,
            final(undo).undo_stack@.len() == 0,
            final(undo).redo_stack@.len() == 0,
            final(undo).visited@.len() == canvas.width * canvas.height,
            final(undo).drag_processed@.len() == canvas.width * canvas.height,
            final(undo).max_undo == old(undo).max_undo,
            final(self).next_layer_number == if canvas.pixels@.len() < usize::MAX {
                canvas.pixels@.len() + 1
            } else {
                canvas.pixels@.len()
            },
    {
        self.next_layer_number = number_after(canvas.pixels.len());
        self.canvas = canvas;
        self.savefile_path = String::new();
        self.dirty_since_last_autosave = false;
        undo.clear();
        let pixel_count = (self.canvas.width * self.canvas.height) as usize;
        undo.resize_visited(pixel_count);
        self.canvas.dirty_rect.request_full_blend();
    }

    /// Append a new transparent, visible, fully opaque `Normal` layer named
    /// "Layer N" (N = the next layer number, which then advances, so no two
    /// layers added get the same name), make it current, push an
    /// [`UndoRecord::AddLayer`] and ask for a full re-blend.
    pub fn add_layer(&mut self, undo: &mut UndoHistory)
        requires
            old(self).canvas.wf(),
            old(self).canvas.width * old(self).canvas.height <= u32::MAX,
            old(self).canvas.pixels@.len() < usize::MAX,
            old(self).next_layer_number < usize::MAX,
        ensures
            final(self).canvas.wf(),
            final(self).next_layer_number == old(self).next_layer_number + 1,
            final(self).canvas.layers() == old(self).canvas.layers().push(
                LayerView {
                    pixels: transparent_pixels((old(self).canvas.width * old(self).canvas.height) as nat),
                    name: default_layer_name(old(self).next_layer_number as nat),
                    visible: true,
                    opacity: 255,
                    mode: LayerMode::Normal,
                },
            ),
            final(self).current_layer == old(self).canvas.pixels@.len(),
            final(self).canvas.dirty_rect@.len() == 0,
            final(self).canvas.width == old(self).canvas.width,
            final(self).canvas.height == old(self).canvas.height,
            edit_recorded(*old(undo), *final(undo), old(self).canvas.layers(), final(self).canvas.layers()),
            old(undo).max_undo > 0 ==> (final(undo).undo_stack@.last() matches UndoRecord::AddLayer { index, layer }
                && index == old(self).canvas.pixels@.len() && (*layer)@ == final(self).canvas.layers().last()),
    {
        let layer_index = self.canvas.pixels.len();
        let width = self.canvas.width;
        let height = self.canvas.height;
        let pixel_count = (width * height) as usize;
        let layer = Layer {
            pixels: transparent_vec(pixel_count),
            name: layer_name(self.next_layer_number),
            visible: true,
            opacity: 255,
            mode: LayerMode::Normal,
        };
        let ghost before = self.canvas.layers();
        let copy = layer.copy();
        let record = UndoRecord::AddLayer { index: layer_index, layer: Box::new(copy) };
        let ghost rec = record;
        undo.push_undo(record);
        self.canvas.pixels.push(layer);
        self.canvas.dirty_rect.request_full_blend();
        self.current_layer = layer_index;
        self.next_layer_number = self.next_layer_number + 1;
        proof {
            assert(self.canvas.layers() =~= before.push(layer@));
            assert(layers_after(self.canvas.layers(), rec, true) =~= before);
            assert(layers_after(before, rec, false) =~= self.canvas.layers());
            if undo.max_undo > 0 {
                assert(undo.undo_stack@.last() == rec);
            }
        }
    }

    /// Remove the layer at `index`, push an [`UndoRecord::DeleteLayer`],
    /// keep the same layer current when another one was removed (see
    /// [`current_after_delete`]) and ask for a full re-blend.
    pub fn delete_layer(&mut self, index: usize, undo: &mut UndoHistory)
        requires
            index < old(self).canvas.pixels@.len(),
        ensures
            final(self).next_layer_number == old(self).next_layer_number,
            final(self).canvas.layers() == old(self).canvas.layers().remove(index as int),
            final(self).current_layer == current_after_delete(
                old(self).current_layer as int,
                index as int,
                old(self).canvas.pixels@.len() as int,
            ),
            final(self).canvas.dirty_rect@.len() == 0,
            final(self).canvas.width == old(self).canvas.width,
            final(self).canvas.height == old(self).canvas.height,
            old(self).canvas.wf() ==> final(self).canvas.wf(),
            edit_recorded(*old(undo), *final(undo), old(self).canvas.layers(), final(self).canvas.layers()),
            old(undo).max_undo > 0 ==> (final(undo).undo_stack@.last() matches UndoRecord::DeleteLayer { index: i, layer }
                && i == index && (*layer)@ == old(self).canvas.layers()[index as int]),
    {
        let ghost before = self.canvas.layers();
        let ghost old_pixels = self.canvas.pixels@;
        let removed = self.canvas.pixels.remove(index);
        let record = UndoRecord::DeleteLayer { index, layer: Box::new(removed) };
        let ghost rec = record;
        undo.push_undo(record);
        let count = self.canvas.pixels.len();
        if index < self.current_layer {
            self.current_layer = self.current_layer - 1;
        } else if index == self.current_layer && self.current_layer >= count {
            self.current_layer = if count > 0 { count - 1 } else { 0 };
        }
        self.canvas.dirty_rect.request_full_blend();
        proof {
            assert(self.canvas.layers() =~= before.remove(index as int));
            assert(layers_after(self.canvas.layers(), rec, true) =~= before);
            assert(layers_after(before, rec, false) =~= self.canvas.layers());
            if undo.max_undo > 0 {
                assert(undo.undo_stack@.last() == rec);
            }
            assert forall|l: int| 0 <= l < self.canvas.pixels@.len() implies #[trigger] self.canvas.pixels@[l] == if l < index {
                old_pixels[l]
            } else {
                old_pixels[l + 1]
            } by {}
        }
    }

    /// Swap the layer at `index` with the one below it in the list
    /// (`index - 1`), make that position current, push an
    /// [`UndoRecord::MoveLayer`] and ask for a full re-blend.
    pub fn move_layer_up(&mut self, index: usize, undo: &mut UndoHistory)
        requires
            0 < index < old(self).canvas.pixels@.len(),
        ensures
            final(self).next_layer_number == old(self).next_layer_number,
            final(self).canvas.layers() == layers_swapped(old(self).canvas.layers(), index as int, index - 1),
            final(self).current_layer == index - 1,
            final(self).canvas.dirty_rect@.len() == 0,
            final(self).canvas.width == old(self).canvas.width,
            final(self).canvas.height == old(self).canvas.height,
            old(self).canvas.wf() ==> final(self).canvas.wf(),
            edit_recorded(*old(undo), *final(undo), old(self).canvas.layers(), final(self).canvas.layers()),
            old(undo).max_undo > 0 ==> (final(undo).undo_stack@.last() matches UndoRecord::MoveLayer { from_index, to_index }
                && from_index == index && to_index == index - 1),
    {
        self.move_layer(index, index - 1, undo);
    }

    /// Swap the layer at `index` with the one above it in the list
    /// (`index + 1`), make that position current, push an
    /// [`UndoRecord::MoveLayer`] and ask for a full re-blend.
    pub fn move_layer_down(&mut self, index: usize, undo: &mut UndoHistory)
        requires
            index + 1 < old(self).canvas.pixels@.len(),
        ensures
            final(self).next_layer_number == old(self).next_layer_number,
            final(self).canvas.layers() == layers_swapped(old(self).canvas.layers(), index as int, index + 1),
            final(self).current_layer == index + 1,
            final(self).canvas.dirty_rect@.len() == 0,
            final(self).canvas.width == old(self).canvas.width,
            final(self).canvas.height == old(self).canvas.height,
            old(self).canvas.wf() ==> final(self).canvas.wf(),
            edit_recorded(*old(undo), *final(undo), old(self).canvas.layers(), final(self).canvas.layers()),
            old(undo).max_undo > 0 ==> (final(undo).undo_stack@.last() matches UndoRecord::MoveLayer { from_index, to_index }
                && from_index == index && to_index == index + 1),
    {
        let count = self.canvas.pixels.len();
        assert(index + 1 < count);
        self.move_layer(index, index + 1, undo);
    }

    fn move_layer(&mut self, from: usize, to: usize, undo: &mut UndoHistory)
        requires
            from < old(self).canvas.pixels@.len(),
            to < old(self).canvas.pixels@.len(),
        ensures
            final(self).next_layer_number == old(self).next_layer_number,
            final(self).canvas.layers() == old(self).canvas.layers().update(
                from as int,
                old(self).canvas.layers()[to as int],
            ).update(to as int, old(self).canvas.layers()[from as int]),
            final(self).current_layer == to,
            final(self).canvas.dirty_rect@.len() == 0,
            final(self).canvas.width == old(self).canvas.width,
            final(self).canvas.height == old(self).canvas.height,
            old(self).canvas.wf() ==> final(self).canvas.wf(),
            edit_recorded(*old(undo), *final(undo), old(self).canvas.layers(), final(self).canvas.layers()),
            old(undo).max_undo > 0 ==> (final(undo).undo_stack@.last() matches UndoRecord::MoveLayer { from_index, to_index }
                && from_index == from && to_index == to),
    {
        let ghost before = self.canvas.layers();
        let ghost old_pixels = self.canvas.pixels@;
        self.current_layer = to;
        crate::undo::swap_layers(&mut self.canvas.pixels, from, to);
        let record = UndoRecord::MoveLayer { from_index: from, to_index: to };
        let ghost rec = record;
        undo.push_undo(record);
        self.canvas.dirty_rect.request_full_blend();
        proof {
            let expected = before.update(from as int, before[to as int]).update(to as int, before[from as int]);
            assert(self.canvas.layers() =~= expected);
            assert(layers_after(self.canvas.layers(), rec, true) =~= before);
            assert(layers_after(before, rec, false) =~= self.canvas.layers());
            if undo.max_undo > 0 {
                assert(undo.undo_stack@.last() == rec);
            }
            assert forall|l: int| 0 <= l < self.canvas.pixels@.len() implies (#[trigger] self.canvas.pixels@[l]).pixels@.len()
                == old_pixels[if l == from { to as int } else if l == to { from as int } else { l }].pixels@.len() by {}
        }
    }

    /// Composite the visible layers into `canvas.output_rgba` and return the
    /// region that changed.
    ///
    /// The output buffer is first resized to `width * height * 4` zero
    /// bytes if its length is wrong.  With no dirty rectangles pending the
    /// whole canvas is composited over transparent black and the whole
    /// canvas is returned; otherwise each pending rectangle in turn is
    /// cleared and the visible layers composited into it over transparent
    /// black, and their union is returned.
    /// The pending rectangles are consumed.
    pub fn blend_to_output(&mut self) -> (result: Option<DirtyRect>)
        requires
            old(self).canvas.wf(),
            4 * (old(self).canvas.width * old(self).canvas.height) <= usize::MAX,
            dirty_within(old(self).canvas),
            old(self).canvas.dirty_rect@.len() == 0 ==> {
                &&& any_visible(old(self).canvas.layers())
                &&& old(self).canvas.width > 0
                &&& old(self).canvas.height > 0
            },
        ensures
            final(self).next_layer_number == old(self).next_layer_number,
            ({
                let c0 = old(self).canvas;
                let w = c0.width as int;
                let n = c0.width * c0.height;
                let views = visible_views(c0.layers());
                let rects = c0.dirty_rect@;
                let start = if c0.output_rgba@.len() == 4 * n {
                    c0.output_rgba@
                } else {
                    Seq::new((4 * n) as nat, |i: int| 0u8)
                };
                &&& final(self).canvas.layers() == c0.layers()
                &&& final(self).canvas.width == c0.width
                &&& final(self).canvas.height == c0.height
                &&& final(self).canvas.dirty_rect@.len() == 0
                &&& final(self).canvas.render_next_frame == c0.render_next_frame
                &&& final(self).canvas.output_rgba@.len() == 4 * n
                &&& rects.len() == 0 ==> {
                    &&& result == Some(DirtyRect { min_x: 0, min_y: 0, max_x: (c0.width - 1) as u32, max_y: (c0.height - 1) as u32 })
                    &&& forall|k: int|
                        0 <= k < n ==> #[trigger] pixel_at(final(self).canvas.output_rgba@, k) == composite_spec(
                            views,
                            views.len() as int,
                            k,
                            Color32 { r: 0, g: 0, b: 0, a: 0 },
                            pass_at(0, n, k),
                        )
                }
                &&& rects.len() > 0 ==> {
                    &&& result == Some(union_of(rects))
                    &&& forall|k: int|
                        0 <= k < n ==> #[trigger] pixel_at(final(self).canvas.output_rgba@, k) == blend_rects_spec(
                            views,
                            w,
                            rects,
                            k,
                            pixel_at(start, k),
                        )
                }
            }),
            final(self).savefile_path == old(self).savefile_path,
            final(self).current_layer == old(self).current_layer,
            final(self).dirty_since_last_autosave == old(self).dirty_since_last_autosave,
            final(self).save_state == old(self).save_state,
    {
        let ghost c0 = self.canvas;
        let ghost layers = self.canvas.layers();
        let width = self.canvas.width;
        let height = self.canvas.height;
        let pixel_count = (width as usize) * (height as usize);
        let ghost n = pixel_count as int;
        let mut output: Vec<u8> = Vec::new();
        std::mem::swap(&mut output, &mut self.canvas.output_rgba);
        if output.len() != pixel_count * 4 {
            output = byte_zeros(pixel_count * 4);
        }
        let ghost start = output@;
        let rects = self.canvas.dirty_rect.take_all();
        let mut infos: Vec<LayerBlendInfo> = Vec::new();
        let count = self.canvas.pixels.len();
        let mut i: usize = 0;
        while i < count
            invariant
                i <= count,
                count == self.canvas.pixels@.len(),
                layers == self.canvas.layers(),
                blend_views(infos@) == visible_views(layers.take(i as int)),
                forall|j: int| 0 <= j < infos@.len() ==> (#[trigger] infos@[j]).pixels@.len() == n,
                self.canvas.wf(),
                n == self.canvas.width * self.canvas.height,
            decreases count - i,
        {
            assert(layers.take(i + 1).drop_last() =~= layers.take(i as int));
            if self.canvas.pixels[i].visible {
                let ghost prev = infos@;
                infos.push(
                    LayerBlendInfo {
                        pixels: self.canvas.pixels[i].pixels.as_slice(),
                        opacity: self.canvas.pixels[i].opacity,
                        mode: self.canvas.pixels[i].mode,
                    },
                );
                assert(blend_views(infos@) =~= blend_views(prev).push(infos@.last()@));
            } else {
                assert(blend_views(infos@) =~= visible_views(layers.take(i + 1)));
            }
            i = i + 1;
        }
        assert(layers.take(count as int) =~= layers);
        let ghost views = visible_views(layers);
        let result = if rects.len() == 0 {
            proof {
                lemma_visible_nonempty(layers);
            }
            blend_layers(infos.as_slice(), &mut output);
            Some(DirtyRect::new(0, 0, width - 1, height - 1))
        } else {
            let mut union_rect: Option<DirtyRect> = None;
            let mut j: usize = 0;
            while j < rects.len()
                invariant
                    j <= rects@.len(),
                    rects@ == c0.dirty_rect@,
                    c0.dirty_rect.wf(),
                    dirty_within(c0),
                    width == c0.width,
                    height == c0.height,
                    n == width * height,
                    4 * n <= usize::MAX,
                    output@.len() == 4 * n,
                    blend_views(infos@) == views,
                    forall|l: int| 0 <= l < infos@.len() ==> (#[trigger] infos@[l]).pixels@.len() == n,
                    j == 0 ==> union_rect.is_none(),
                    j > 0 ==> union_rect == Some(union_of(rects@.take(j as int))),
                    forall|k: int|
                        0 <= k < n ==> #[trigger] pixel_at(output@, k) == blend_rects_spec(
                            views,
                            width as int,
                            rects@.take(j as int),
                            k,
                            pixel_at(start, k),
                        ),
                decreases rects@.len() - j,
            {
                let rect = rects[j];
                proof {
                    assert(!crate::canvas::is_empty_spec(rect));
                    lemma_rect_fits(rect, width as int, height as int);
                    assert(rects@.take(j + 1).drop_last() =~= rects@.take(j as int));
                }
                let ghost before = output@;
                clear_rect(&mut output, width, rect.min_x, rect.min_y, rect.max_x, rect.max_y);
                let ghost cleared = output@;
                blend_region(
                    infos.as_slice(),
                    &mut output,
                    width,
                    rect.min_x,
                    rect.min_y,
                    rect.max_x,
                    rect.max_y,
                );
                union_rect = match union_rect {
                    Some(r) => Some(r.union(&rect)),
                    None => Some(rect),
                };
                proof {
                    assert forall|k: int| 0 <= k < n implies #[trigger] pixel_at(output@, k) == blend_rects_spec(
                        views,
                        width as int,
                        rects@.take(j + 1),
                        k,
                        pixel_at(start, k),
                    ) by {
                        assert(pixel_at(before, k) == blend_rects_spec(views, width as int, rects@.take(j as int), k, pixel_at(start, k)));
                        assert(rects@.take(j + 1).last() == rect);
                        assert(4 * k + 4 <= cleared.len());
                    }
                    if j == 0 {
                        assert(rects@.take(1) =~= seq![rect]);
                    }
                }
                j = j + 1;
            }
            assert(rects@.take(rects@.len() as int) =~= rects@);
            union_rect
        };
        std::mem::swap(&mut output, &mut self.canvas.output_rgba);
        result
    }

    /// Make the layer at `index` current.
    pub fn select_layer(&mut self, index: usize)
        ensures
            final(self).next_layer_number == old(self).next_layer_number,
            final(self).current_layer == index,
            final(self).canvas == old(self).canvas,
            final(self).savefile_path == old(self).savefile_path,
            final(self).dirty_since_last_autosave == old(self).dirty_since_last_autosave,
            final(self).save_state == old(self).save_state,
    {
        self.current_layer = index;
    }

    /// Toggle the visibility of the layer at `index`, push an
    /// [`UndoRecord::ModifyLayer`] and ask for a full re-blend.  Nothing
    /// happens when `index` is out of range, or when the layer is the only
    /// visible one (the last visible layer cannot be hidden).
    pub fn toggle_layer_visible(&mut self, index: usize, undo: &mut UndoHistory)
        ensures
            final(self).next_layer_number == old(self).next_layer_number,
            ({
                let before = old(self).canvas.layers();
                let changes = index < before.len() && !(before[index as int].visible && visible_count(before) == 1);
                &&& changes ==> {
                    &&& final(self).canvas.layers() == before.update(
                        index as int,
                        with_properties(
                            before[index as int],
                            !before[index as int].visible,
                            before[index as int].opacity,
                            before[index as int].name,
                            before[index as int].mode,
                        ),
                    )
                    &&& final(self).canvas.dirty_rect@.len() == 0
                    &&& edit_recorded(*old(undo), *final(undo), before, final(self).canvas.layers())
                    &&& modify_recorded(*old(undo), *final(undo), index as int)
                }
                &&& !changes ==> final(self).canvas == old(self).canvas && *final(undo) == *old(undo)
            }),
            visible_count(old(self).canvas.layers()) >= 1 ==> visible_count(final(self).canvas.layers()) >= 1,
            final(self).canvas.width == old(self).canvas.width,
            final(self).canvas.height == old(self).canvas.height,
            old(self).canvas.wf() ==> final(self).canvas.wf(),
            final(self).current_layer == old(self).current_layer,
    {
        let ghost start = self.canvas.layers();
        let count = self.canvas.pixels.len();
        let mut visible_before: usize = 0;
        let mut i: usize = 0;
        while i < count
            invariant
                i <= count,
                count == self.canvas.pixels@.len(),
                visible_before <= i,
                visible_before == visible_count(self.canvas.layers().take(i as int)),
            decreases count - i,
        {
            assert(self.canvas.layers().take(i + 1).drop_last() =~= self.canvas.layers().take(i as int));
            if self.canvas.pixels[i].visible {
                visible_before = visible_before + 1;
            }
            i = i + 1;
        }
        assert(self.canvas.layers().take(count as int) =~= self.canvas.layers());
        if index < count {
            if self.canvas.pixels[index].visible && visible_before == 1 {
                return;
            }
            let old_visible = self.canvas.pixels[index].visible;
            let new_visible = !old_visible;
            let opacity = self.canvas.pixels[index].opacity;
            let mode = self.canvas.pixels[index].mode;
            self.set_properties(index, new_visible, opacity, self.canvas.pixels[index].name.clone(), mode, undo);
            proof {
                lemma_visible_count_update(
                    start,
                    index as int,
                    with_properties(start[index as int], new_visible, opacity, start[index as int].name, mode),
                );
            }
        }
    }

    /// Set the opacity (0-255) of the layer at `index`, push an
    /// [`UndoRecord::ModifyLayer`] and ask for a full re-blend.  Nothing
    /// happens when `index` is out of range.
    pub fn set_layer_opacity(&mut self, index: usize, opacity: u8, undo: &mut UndoHistory)
        ensures
            final(self).next_layer_number == old(self).next_layer_number,
            ({
                let before = old(self).canvas.layers();
                &&& index < before.len() ==> {
                    &&& final(self).canvas.layers() == before.update(
                        index as int,
                        with_properties(
                            before[index as int],
                            before[index as int].visible,
                            opacity,
                            before[index as int].name,
                            before[index as int].mode,
                        ),
                    )
                    &&& final(self).canvas.dirty_rect@.len() == 0
                    &&& edit_recorded(*old(undo), *final(undo), before, final(self).canvas.layers())
                    &&& modify_recorded(*old(undo), *final(undo), index as int)
                }
                &&& index >= before.len() ==> final(self).canvas == old(self).canvas && *final(undo) == *old(undo)
            }),
            final(self).canvas.width == old(self).canvas.width,
            final(self).canvas.height == old(self).canvas.height,
            old(self).canvas.wf() ==> final(self).canvas.wf(),
            final(self).current_layer == old(self).current_layer,
    {
        if index < self.canvas.pixels.len() {
            let visible = self.canvas.pixels[index].visible;
            let mode = self.canvas.pixels[index].mode;
            self.set_properties(index, visible, opacity, self.canvas.pixels[index].name.clone(), mode, undo);
        }
    }

    /// Set the compositing mode of the layer at `index`, push an
    /// [`UndoRecord::ModifyLayer`] and ask for a full re-blend.  Nothing
    /// happens when `index` is out of range.
    pub fn set_layer_mode(&mut self, index: usize, mode: LayerMode, undo: &mut UndoHistory)
        ensures
            final(self).next_layer_number == old(self).next_layer_number,
            ({
                let before = old(self).canvas.layers();
                &&& index < before.len() ==> {
                    &&& final(self).canvas.layers() == before.update(
                        index as int,
                        with_properties(
                            before[index as int],
                            before[index as int].visible,
                            before[index as int].opacity,
                            before[index as int].name,
                            mode,
                        ),
                    )
                    &&& final(self).canvas.dirty_rect@.len() == 0
                    &&& edit_recorded(*old(undo), *final(undo), before, final(self).canvas.layers())
                    &&& modify_recorded(*old(undo), *final(undo), index as int)
                }
                &&& index >= before.len() ==> final(self).canvas == old(self).canvas && *final(undo) == *old(undo)
            }),
            final(self).canvas.width == old(self).canvas.width,
            final(self).canvas.height == old(self).canvas.height,
            old(self).canvas.wf() ==> final(self).canvas.wf(),
            final(self).current_layer == old(self).current_layer,
    {
        if index < self.canvas.pixels.len() {
            let visible = self.canvas.pixels[index].visible;
            let opacity = self.canvas.pixels[index].opacity;
            self.set_properties(index, visible, opacity, self.canvas.pixels[index].name.clone(), mode, undo);
        }
    }

    /// Rename the layer at `index` and push an [`UndoRecord::ModifyLayer`]
    /// (no re-blend: the name is not drawn).  Nothing happens when `index`
    /// is out of range.
    pub fn rename_layer(&mut self, index: usize, name: String, undo: &mut UndoHistory)
        ensures
            final(self).next_layer_number == old(self).next_layer_number,
            ({
                let before = old(self).canvas.layers();
                &&& index < before.len() ==> {
                    &&& final(self).canvas.layers() == before.update(
                        index as int,
                        with_properties(
                            before[index as int],
                            before[index as int].visible,
                            before[index as int].opacity,
                            name@,
                            before[index as int].mode,
                        ),
                    )
                    &&& final(self).canvas.dirty_rect@ == old(self).canvas.dirty_rect@
                    &&& edit_recorded(*old(undo), *final(undo), before, final(self).canvas.layers())
                    &&& modify_recorded(*old(undo), *final(undo), index as int)
                }
                &&& index >= before.len() ==> final(self).canvas == old(self).canvas && *final(undo) == *old(undo)
            }),
            final(self).canvas.width == old(self).canvas.width,
            final(self).canvas.height == old(self).canvas.height,
            old(self).canvas.wf() ==> final(self).canvas.wf(),
            final(self).current_layer == old(self).current_layer,
    {
        if index < self.canvas.pixels.len() {
            let old_name = self.canvas.pixels[index].name.clone();
            let visible = self.canvas.pixels[index].visible;
            let opacity = self.canvas.pixels[index].opacity;
            let mode = self.canvas.pixels[index].mode;
            let ghost before = self.canvas.layers();
            let ghost old_pixels = self.canvas.pixels@;
            let record = UndoRecord::ModifyLayer {
                index,
                old_visible: visible,
                old_opacity: opacity,
                old_name,
                old_mode: mode,
                new_visible: visible,
                new_opacity: opacity,
                new_name: name.clone(),
                new_mode: mode,
            };
            self.canvas.pixels[index].name = name;
            let ghost rec = record;
            undo.push_undo(record);
            proof {
                assert(self.canvas.layers() =~= before.update(index as int, with_properties(before[index as int], visible, opacity, name@, mode)));
                assert(layers_after(self.canvas.layers(), rec, true) =~= before);
                assert(layers_after(before, rec, false) =~= self.canvas.layers());
                if undo.max_undo > 0 {
                    assert(undo.undo_stack@.last() == rec);
                }
                assert forall|l: int| 0 <= l < self.canvas.pixels@.len() implies (#[trigger] self.canvas.pixels@[l]).pixels@.len() == old_pixels[l].pixels@.len() by {}
            }
        }
    }

    fn set_properties(
        &mut self,
        index: usize,
        visible: bool,
        opacity: u8,
        name: String,
        mode: LayerMode,
        undo: &mut UndoHistory,
    )
        requires
            index < old(self).canvas.pixels@.len(),
            name@ == old(self).canvas.pixels@[index as int].name@,
        ensures
            final(self).next_layer_number == old(self).next_layer_number,
            ({
                let before = old(self).canvas.layers();
                &&& final(self).canvas.layers() == before.update(
                    index as int,
                    with_properties(before[index as int], visible, opacity, before[index as int].name, mode),
                )
                &&& final(self).canvas.dirty_rect@.len() == 0
                &&& edit_recorded(*old(undo), *final(undo), before, final(self).canvas.layers())
                    &&& modify_recorded(*old(undo), *final(undo), index as int)
            }),
            final(self).canvas.width == old(self).canvas.width,
            final(self).canvas.height == old(self).canvas.height,
            old(self).canvas.wf() ==> final(self).canvas.wf(),
            final(self).current_layer == old(self).current_layer,
    {
        let ghost before = self.canvas.layers();
        let ghost old_pixels = self.canvas.pixels@;
        let old_visible = self.canvas.pixels[index].visible;
        let old_opacity = self.canvas.pixels[index].opacity;
        let old_mode = self.canvas.pixels[index].mode;
        let old_name = self.canvas.pixels[index].name.clone();
        self.canvas.pixels[index].visible = visible;
        self.canvas.pixels[index].opacity = opacity;
        self.canvas.pixels[index].mode = mode;
        let record = UndoRecord::ModifyLayer {
            index,
            old_visible,
            old_opacity,
            old_name,
            old_mode,
            new_visible: visible,
            new_opacity: opacity,
            new_name: name,
            new_mode: mode,
        };
        let ghost rec = record;
        undo.push_undo(record);
        self.canvas.dirty_rect.request_full_blend();
        proof {
            assert(self.canvas.layers() =~= before.update(index as int, with_properties(before[index as int], visible, opacity, before[index as int].name, mode)));
            assert(layers_after(self.canvas.layers(), rec, true) =~= before);
            assert(layers_after(before, rec, false) =~= self.canvas.layers());
            if undo.max_undo > 0 {
                assert(undo.undo_stack@.last() == rec);
            }
            assert forall|l: int| 0 <= l < self.canvas.pixels@.len() implies (#[trigger] self.canvas.pixels@[l]).pixels@.len() == old_pixels[l].pixels@.len() by {}
        }
    }
}

} // verus!
