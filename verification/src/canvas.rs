//! Core canvas and layer types, the tool and render-state enums, and the
//! dirty-region bookkeeping that drives partial re-blending.

use vstd::prelude::*;

use crate::pixel::Color32;

verus! {

/// How a layer is composited relative to the layers below it.
#[derive(Clone, Copy, Debug, PartialEq, Eq, Structural)]
pub enum LayerMode {
    /// Standard alpha-over blend.
    Normal,
    /// The layer's alpha is clipped by its base layer's alpha.
    ClippedDown,
    /// The layer's alpha modulates the accumulated alpha; its colour is not drawn.
    MaskedDown,
}

/// Axis-aligned bounding box of a modified region, inclusive on both ends.
#[derive(Clone, Copy, Debug, PartialEq, Eq, Structural)]
pub struct DirtyRect {
    /// Minimum column index (inclusive).
    pub min_x: u32,
    /// Minimum row index (inclusive).
    pub min_y: u32,
    /// Maximum column index (inclusive).
    pub max_x: u32,
    /// Maximum row index (inclusive).
    pub max_y: u32,
}

pub open spec fn min_u32(a: u32, b: u32) -> u32 {
    if a <= b {
        a
    } else {
        b
    }
}

pub open spec fn max_u32(a: u32, b: u32) -> u32 {
    if a >= b {
        a
    } else {
        b
    }
}

/// The empty rectangle: it expands to exactly the first point it is extended by.
pub open spec fn empty_rect() -> DirtyRect {
    DirtyRect { min_x: u32::MAX, min_y: u32::MAX, max_x: 0, max_y: 0 }
}

/// The smallest rectangle holding the bounds of both `a` and `b`.
pub open spec fn union_spec(a: DirtyRect, b: DirtyRect) -> DirtyRect {
    DirtyRect {
        min_x: min_u32(a.min_x, b.min_x),
        min_y: min_u32(a.min_y, b.min_y),
        max_x: max_u32(a.max_x, b.max_x),
        max_y: max_u32(a.max_y, b.max_y),
    }
}

/// A rectangle covers no pixels when either dimension is inverted.
pub open spec fn is_empty_spec(r: DirtyRect) -> bool {
    r.min_x > r.max_x || r.min_y > r.max_y
}

/// `outer` has bounds at least as wide as `inner` on every side.
pub open spec fn rect_contains(outer: DirtyRect, inner: DirtyRect) -> bool {
    outer.min_x <= inner.min_x && outer.min_y <= inner.min_y && inner.max_x <= outer.max_x
        && inner.max_y <= outer.max_y
}

impl DirtyRect {
    /// Create a `DirtyRect` with the given bounds.
    pub fn new(min_x: u32, min_y: u32, max_x: u32, max_y: u32) -> (r: DirtyRect)
        ensures
            r == (DirtyRect { min_x, min_y, max_x, max_y }),
    {
        DirtyRect { min_x, min_y, max_x, max_y }
    }

    /// Create an empty rect that expands on the first `extend` call.
    pub fn empty() -> (r: DirtyRect)
        ensures
            r == empty_rect(),
    {
        DirtyRect { min_x: u32::MAX, min_y: u32::MAX, max_x: 0, max_y: 0 }
    }

    /// Expand the rect to include `(x, y)`.
    pub fn extend(&mut self, x: u32, y: u32)
        ensures
            *final(self) == union_spec(*old(self), DirtyRect { min_x: x, min_y: y, max_x: x, max_y: y }),
    {
        if x < self.min_x {
            self.min_x = x;
        }
        if y < self.min_y {
            self.min_y = y;
        }
        if x > self.max_x {
            self.max_x = x;
        }
        if y > self.max_y {
            self.max_y = y;
        }
    }

    /// Merge with another rect.
    pub fn union(&self, other: &DirtyRect) -> (r: DirtyRect)
        ensures
            r == union_spec(*self, *other),
    {
        DirtyRect {
            min_x: if self.min_x <= other.min_x { self.min_x } else { other.min_x },
            min_y: if self.min_y <= other.min_y { self.min_y } else { other.min_y },
            max_x: if self.max_x >= other.max_x { self.max_x } else { other.max_x },
            max_y: if self.max_y >= other.max_y { self.max_y } else { other.max_y },
        }
    }

    /// Returns `true` when the rect covers no pixels (either dimension is inverted).
    pub fn is_empty(&self) -> (b: bool)
        ensures
            b == is_empty_spec(*self),
    {
        self.min_x > self.max_x || self.min_y > self.max_y
    }

    /// Number of columns in the rect, or `0` if empty.
    pub fn width(&self) -> (w: u32)
        requires
            !is_empty_spec(*self) ==> self.max_x - self.min_x < u32::MAX,
        ensures
            w == if is_empty_spec(*self) {
                0
            } else {
                self.max_x - self.min_x + 1
            },
    {
        if self.is_empty() {
            0
        } else {
            self.max_x - self.min_x + 1
        }
    }

    /// Number of rows in the rect, or `0` if empty.
    pub fn height(&self) -> (h: u32)
        requires
            !is_empty_spec(*self) ==> self.max_y - self.min_y < u32::MAX,
        ensures
            h == if is_empty_spec(*self) {
                0
            } else {
                self.max_y - self.min_y + 1
            },
    {
        if self.is_empty() {
            0
        } else {
            self.max_y - self.min_y + 1
        }
    }
}

impl Default for DirtyRect {
    /// The zero rect: it covers the single pixel at the origin.
    fn default() -> (r: DirtyRect)
        ensures
            r == (DirtyRect { min_x: 0, min_y: 0, max_x: 0, max_y: 0 }),
    {
        DirtyRect { min_x: 0, min_y: 0, max_x: 0, max_y: 0 }
    }
}

/// Gap (in pixels) within which two dirty rects are merged.
pub const DIRTY_RECT_PROXIMITY: u32 = 16;

/// Maximum number of dirty rects before all are merged into one bounding box.
pub const DIRTY_RECT_MAX_COUNT: usize = 8;

pub open spec fn sat_sub(a: u32, b: u32) -> u32 {
    if a >= b {
        (a - b) as u32
    } else {
        0
    }
}

pub open spec fn sat_add(a: u32, b: u32) -> u32 {
    if a + b <= u32::MAX {
        (a + b) as u32
    } else {
        u32::MAX
    }
}

/// `a`, grown by `proximity` on every side (saturating), meets `b`.
pub open spec fn overlap_or_touch_spec(a: DirtyRect, b: DirtyRect, proximity: u32) -> bool {
    !(sat_add(a.max_x, proximity) < b.min_x || sat_sub(a.min_x, proximity) > b.max_x || sat_add(
        a.max_y,
        proximity,
    ) < b.min_y || sat_sub(a.min_y, proximity) > b.max_y)
}

/// Returns `true` if two dirty rects overlap or are within `proximity` pixels.
fn rects_overlap_or_touch(a: &DirtyRect, b: &DirtyRect, proximity: u32) -> (t: bool)
    ensures
        t == overlap_or_touch_spec(*a, *b, proximity),
{
    let a_min_x = a.min_x.saturating_sub(proximity);
    let a_min_y = a.min_y.saturating_sub(proximity);
    let a_max_x = a.max_x.saturating_add(proximity);
    let a_max_y = a.max_y.saturating_add(proximity);
    !(a_max_x < b.min_x || a_min_x > b.max_x || a_max_y < b.min_y || a_min_y > b.max_y)
}

/// The bounding box of all rects of `s`, starting from the empty rect.
pub open spec fn union_all(s: Seq<DirtyRect>) -> DirtyRect
    decreases s.len(),
{
    if s.len() == 0 {
        empty_rect()
    } else {
        union_spec(union_all(s.drop_last()), s.last())
    }
}

proof fn lemma_union_all_contains(s: Seq<DirtyRect>, j: int)
    requires
        0 <= j < s.len(),
    ensures
        rect_contains(union_all(s), s[j]),
    decreases s.len(),
{
    if j < s.len() - 1 {
        lemma_union_all_contains(s.drop_last(), j);
    }
}

proof fn lemma_union_all_within(s: Seq<DirtyRect>, b: DirtyRect)
    requires
        forall|j: int| 0 <= j < s.len() ==> rect_contains(b, #[trigger] s[j]),
    ensures
        rect_contains(b, union_all(s)),
    decreases s.len(),
{
    if s.len() > 0 {
        lemma_union_all_within(s.drop_last(), b);
        assert(rect_contains(b, s[s.len() - 1]));
    }
}

/// Some rect of `s` contains `r`.
pub open spec fn covered_by(s: Seq<DirtyRect>, r: DirtyRect) -> bool {
    exists|j: int| 0 <= j < s.len() && rect_contains(#[trigger] s[j], r)
}

/// A list of dirty rectangles that tracks each dirty region individually,
/// merging overlapping or proximate rects.  When the count exceeds
/// [`DIRTY_RECT_MAX_COUNT`], all rects are merged into one bounding box.
/// An empty list asks for a full re-blend.
#[derive(Debug)]
pub struct DirtyRectList {
    rects: Vec<DirtyRect>,
}

impl View for DirtyRectList {
    type V = Seq<DirtyRect>;

    closed spec fn view(&self) -> Seq<DirtyRect> {
        self.rects@
    }
}

impl DirtyRectList {
    /// The list holds at most [`DIRTY_RECT_MAX_COUNT`] rects, none empty.
    pub open spec fn wf(&self) -> bool {
        &&& self@.len() <= DIRTY_RECT_MAX_COUNT
        &&& forall|j: int| 0 <= j < self@.len() ==> !is_empty_spec(#[trigger] self@[j])
    }

    /// Create an empty list.
    pub fn new() -> (l: DirtyRectList)
        ensures
            l@ == Seq::<DirtyRect>::empty(),
            l.wf(),
    {
        DirtyRectList { rects: Vec::new() }
    }

    /// Add a dirty rect, merging it with every tracked rect that overlaps it
    /// or lies within [`DIRTY_RECT_PROXIMITY`] pixels of it (growing as it
    /// merges).  If the count then exceeds [`DIRTY_RECT_MAX_COUNT`], all
    /// rects are merged into one.  An empty rect is ignored.  Every rect
    /// the list then holds lies within the bounding box of the old rects
    /// and `rect`.
    pub fn add(&mut self, rect: DirtyRect)
        requires
            old(self).wf(),
        ensures
            final(self).wf(),
            is_empty_spec(rect) ==> final(self)@ == old(self)@,
            !is_empty_spec(rect) ==> {
                &&& final(self)@.len() > 0
                &&& rect_contains(final(self)@.last(), rect)
                &&& forall|j: int|
                    0 <= j < old(self)@.len() ==> covered_by(final(self)@, #[trigger] old(self)@[j])
                &&& final(self)@.len() > 1 ==> forall|j: int|
                    0 <= j < final(self)@.len() - 1 ==> old(self)@.contains(#[trigger] final(self)@[j])
                &&& (old(self)@.len() < DIRTY_RECT_MAX_COUNT && forall|j: int|
                    0 <= j < old(self)@.len() ==> !overlap_or_touch_spec(
                        #[trigger] old(self)@[j],
                        rect,
                        DIRTY_RECT_PROXIMITY,
                    )) ==> final(self)@ == old(self)@.push(rect)
                &&& forall|j: int|
                    0 <= j < final(self)@.len() ==> rect_contains(
                        union_all(old(self)@.push(rect)),
                        #[trigger] final(self)@[j],
                    )
                &&& (old(self)@.len() == 1 && overlap_or_touch_spec(old(self)@[0], rect, DIRTY_RECT_PROXIMITY))
                    ==> final(self)@ == seq![union_spec(rect, old(self)@[0])]
            },
    {
        if rect.is_empty() {
            return;
        }
        let ghost old_rects = self.rects@;
        let ghost bound = union_all(old_rects.push(rect));
        proof {
            lemma_union_all_contains(old_rects.push(rect), old_rects.len() as int);
            assert forall|j: int| 0 <= j < old_rects.len() implies rect_contains(bound, #[trigger] old_rects[j]) by {
                lemma_union_all_contains(old_rects.push(rect), j);
                assert(old_rects.push(rect)[j] == old_rects[j]);
            }
        }
        let mut merged = rect;
        let mut i: usize = 0;
        while i < self.rects.len()
            invariant
                i <= self.rects@.len(),
                self.rects@.len() <= old_rects.len(),
                old_rects.len() <= DIRTY_RECT_MAX_COUNT,
                !is_empty_spec(rect),
                rect_contains(merged, rect),
                !is_empty_spec(merged),
                forall|j: int|
                    0 <= j < self.rects@.len() ==> old_rects.contains(#[trigger] self.rects@[j]),
                forall|j: int|
                    0 <= j < old_rects.len() ==> rect_contains(merged, #[trigger] old_rects[j])
                        || covered_by(self.rects@, old_rects[j]),
                forall|j: int| 0 <= j < old_rects.len() ==> !is_empty_spec(#[trigger] old_rects[j]),
                (forall|j: int|
                    0 <= j < old_rects.len() ==> !overlap_or_touch_spec(
                        #[trigger] old_rects[j],
                        rect,
                        DIRTY_RECT_PROXIMITY,
                    )) ==> merged == rect && self.rects@ == old_rects,
                bound == union_all(old_rects.push(rect)),
                forall|j: int| 0 <= j < old_rects.len() ==> rect_contains(bound, #[trigger] old_rects[j]),
                rect_contains(bound, merged),
                (old_rects.len() == 1 && overlap_or_touch_spec(old_rects[0], rect, DIRTY_RECT_PROXIMITY)) ==> i == 0
                    && ((self.rects@ == old_rects && merged == rect) || (self.rects@.len() == 0 && merged
                    == union_spec(rect, old_rects[0]))),
            decreases self.rects@.len() - i,
        {
            if rects_overlap_or_touch(&self.rects[i], &merged, DIRTY_RECT_PROXIMITY) {
                let ghost before = self.rects@;
                let ghost removed = self.rects@[i as int];
                let ghost old_merged = merged;
                merged = merged.union(&self.rects[i]);
                self.rects.swap_remove(i);
                proof {
                    assert(old_rects.contains(removed));
                    let k = choose|k: int| 0 <= k < old_rects.len() && old_rects[k] == removed;
                    assert(rect_contains(bound, old_rects[k]));
                    assert forall|j: int| 0 <= j < self.rects@.len() implies old_rects.contains(
                        #[trigger] self.rects@[j],
                    ) by {
                        if j == i {
                            assert(self.rects@[j] == before[before.len() - 1]);
                        } else {
                            assert(self.rects@[j] == before[j]);
                        }
                    }
                    assert forall|j: int| 0 <= j < old_rects.len() implies rect_contains(
                        merged,
                        #[trigger] old_rects[j],
                    ) || covered_by(self.rects@, old_rects[j]) by {
                        if !rect_contains(old_merged, old_rects[j]) {
                            let w = choose|w: int|
                                0 <= w < before.len() && rect_contains(
                                    #[trigger] before[w],
                                    old_rects[j],
                                );
                            if w == i {
                            } else if w == before.len() - 1 {
                                assert(self.rects@[i as int] == before[w]);
                            } else {
                                assert(self.rects@[w] == before[w]);
                            }
                        }
                    }
                    if forall|j: int|
                        0 <= j < old_rects.len() ==> !overlap_or_touch_spec(
                            #[trigger] old_rects[j],
                            rect,
                            DIRTY_RECT_PROXIMITY,
                        ) {
                        assert(old_rects[i as int] == before[i as int]);
                    }
                }
            } else {
                i = i + 1;
            }
        }
        let ghost before_push = self.rects@;
        self.rects.push(merged);
        proof {
            assert forall|j: int| 0 <= j < old_rects.len() implies covered_by(
                self.rects@,
                #[trigger] old_rects[j],
            ) by {
                if rect_contains(merged, old_rects[j]) {
                    assert(self.rects@[self.rects@.len() - 1] == merged);
                } else {
                    let w = choose|w: int|
                        0 <= w < before_push.len() && rect_contains(
                            #[trigger] before_push[w],
                            old_rects[j],
                        );
                    assert(self.rects@[w] == before_push[w]);
                }
            }
            assert forall|j: int| 0 <= j < self.rects@.len() implies !is_empty_spec(
                #[trigger] self.rects@[j],
            ) by {
                if j < before_push.len() {
                    assert(self.rects@[j] == before_push[j]);
                    assert(old_rects.contains(before_push[j]));
                }
            }
            assert forall|j: int| 0 <= j < self.rects@.len() - 1 implies old_rects.contains(
                #[trigger] self.rects@[j],
            ) by {
                assert(self.rects@[j] == before_push[j]);
            }
            assert forall|j: int| 0 <= j < self.rects@.len() implies rect_contains(
                bound,
                #[trigger] self.rects@[j],
            ) by {
                if j < self.rects@.len() - 1 {
                    assert(self.rects@[j] == before_push[j]);
                    assert(old_rects.contains(before_push[j]));
                    let k = choose|k: int| 0 <= k < old_rects.len() && old_rects[k] == before_push[j];
                    assert(rect_contains(bound, old_rects[k]));
                }
            }
        }
        if self.rects.len() > DIRTY_RECT_MAX_COUNT {
            let ghost before_merge = self.rects@;
            self.merge_all();
            proof {
                assert forall|j: int| 0 <= j < old_rects.len() implies covered_by(
                    self.rects@,
                    #[trigger] old_rects[j],
                ) by {
                    let w = choose|w: int|
                        0 <= w < before_merge.len() && rect_contains(
                            #[trigger] before_merge[w],
                            old_rects[j],
                        );
                    lemma_union_all_contains(before_merge, w);
                    assert(rect_contains(self.rects@[0], old_rects[j]));
                }
                lemma_union_all_contains(before_merge, before_merge.len() - 1);
                lemma_union_all_contains(before_merge, 0);
                lemma_union_all_within(before_merge, bound);
            }
        }
    }

    /// Merge all tracked rects into a single bounding box.
    pub fn merge_all(&mut self)
        ensures
            old(self)@.len() == 0 ==> final(self)@ == old(self)@,
            old(self)@.len() > 0 ==> final(self)@ == seq![union_all(old(self)@)],
    {
        if self.rects.len() == 0 {
            return;
        }
        let mut unified = DirtyRect::empty();
        let mut i: usize = 0;
        while i < self.rects.len()
            invariant
                i <= self.rects@.len(),
                unified == union_all(self.rects@.take(i as int)),
            decreases self.rects@.len() - i,
        {
            assert(self.rects@.take(i + 1).drop_last() =~= self.rects@.take(i as int));
            unified = unified.union(&self.rects[i]);
            i = i + 1;
        }
        assert(self.rects@.take(i as int) =~= self.rects@);
        self.rects.clear();
        self.rects.push(unified);
        assert(self.rects@ =~= seq![union_all(old(self)@)]);
    }

    /// Take all tracked rects and reset the list to empty.
    pub fn take_all(&mut self) -> (taken: Vec<DirtyRect>)
        ensures
            taken@ == old(self)@,
            final(self)@ == Seq::<DirtyRect>::empty(),
    {
        let taken = self.rects.clone();
        self.rects = Vec::new();
        taken
    }

    /// Returns `true` when no rects are tracked.
    pub fn is_empty(&self) -> (b: bool)
        ensures
            b == (self@.len() == 0),
    {
        self.rects.len() == 0
    }

    /// Clear all tracked rects.
    pub fn clear(&mut self)
        ensures
            final(self)@ == Seq::<DirtyRect>::empty(),
    {
        self.rects.clear();
    }

    /// Ask for a full re-blend on the next blend: an empty list means
    /// the whole canvas is re-composited.
    pub fn request_full_blend(&mut self)
        ensures
            final(self)@ == Seq::<DirtyRect>::empty(),
    {
        self.rects.clear();
    }
}

impl Default for DirtyRectList {
    fn default() -> (l: DirtyRectList)
        ensures
            l@ == Seq::<DirtyRect>::empty(),
    {
        DirtyRectList::new()
    }
}


/// Default canvas width in pixels.
pub const DEFAULT_WIDTH: u32 = 2000;
/// Default canvas height in pixels.
pub const DEFAULT_HEIGHT: u32 = 1500;

/// A single layer of pixels in the canvas.
#[derive(Debug)]
pub struct Layer {
    /// Premultiplied-alpha RGBA pixels in row-major order.
    pub pixels: Vec<Color32>,
    /// Display name.
    pub name: String,
    /// Whether the layer takes part in compositing.
    pub visible: bool,
    /// Per-layer opacity (0-255).
    pub opacity: u8,
    /// Compositing mode relative to the layers below.
    pub mode: LayerMode,
}

/// The abstract value of a layer.
pub struct LayerView {
    pub pixels: Seq<Color32>,
    pub name: Seq<char>,
    pub visible: bool,
    pub opacity: u8,
    pub mode: LayerMode,
}

impl View for Layer {
    type V = LayerView;

    open spec fn view(&self) -> LayerView {
        LayerView {
            pixels: self.pixels@,
            name: self.name@,
            visible: self.visible,
            opacity: self.opacity,
            mode: self.mode,
        }
    }
}

/// `n` copies of transparent black.
pub open spec fn transparent_pixels(n: nat) -> Seq<Color32> {
    Seq::new(n, |i: int| Color32 { r: 0, g: 0, b: 0, a: 0 })
}

/// A vector of `n` transparent pixels.
pub fn transparent_vec(n: usize) -> (v: Vec<Color32>)
    ensures
        v@ == transparent_pixels(n as nat),
{
    let mut v: Vec<Color32> = Vec::with_capacity(n);
    let mut i: usize = 0;
    while i < n
        invariant
            i <= n,
            v@ == transparent_pixels(i as nat),
        decreases n - i,
    {
        v.push(Color32::transparent());
        i = i + 1;
        assert(v@ =~= transparent_pixels(i as nat));
    }
    v
}

/// A copy of a pixel vector.
pub fn copy_pixels(v: &Vec<Color32>) -> (c: Vec<Color32>)
    ensures
        c@ == v@,
{
    let mut c: Vec<Color32> = Vec::with_capacity(v.len());
    let mut i: usize = 0;
    while i < v.len()
        invariant
            i <= v@.len(),
            c@ == v@.take(i as int),
        decreases v@.len() - i,
    {
        c.push(v[i]);
        i = i + 1;
        assert(c@ =~= v@.take(i as int));
    }
    assert(v@.take(i as int) =~= v@);
    c
}

impl Layer {
    /// A layer with the same pixels and properties.
    pub fn copy(&self) -> (l: Layer)
        ensures
            l@ == self@,
    {
        Layer {
            pixels: copy_pixels(&self.pixels),
            name: self.name.clone(),
            visible: self.visible,
            opacity: self.opacity,
            mode: self.mode,
        }
    }
}

impl Default for Layer {
    /// An empty, visible, fully opaque `Normal` layer named "Layer 1".
    fn default() -> (l: Layer)
        ensures
            l.pixels@.len() == 0,
            l.visible,
            l.opacity == 255,
            l.mode == LayerMode::Normal,
    {
        Layer {
            pixels: Vec::new(),
            name: String::from_str("Layer 1"),
            visible: true,
            opacity: 255,
            mode: LayerMode::Normal,
        }
    }
}

/// The core canvas data: layers (bottom first), dimensions, the blended
/// output buffer, pending dirty regions and a re-render request flag.
#[derive(Debug)]
pub struct Canvas {
    /// Ordered list of layers from bottom (index 0) to top.
    pub pixels: Vec<Layer>,
    /// Canvas height in pixels.
    pub height: u32,
    /// Canvas width in pixels.
    pub width: u32,
    /// Premultiplied-alpha output buffer holding the blended result of all
    /// layers (width x height x 4 bytes).
    pub output_rgba: Vec<u8>,
    /// Regions that changed since the last blend; empty means a full re-blend.
    pub dirty_rect: DirtyRectList,
    /// Flag to request a full re-render on the next frame.
    pub render_next_frame: bool,
}

impl Canvas {
    /// The abstract values of the layers, bottom first.
    pub open spec fn layers(&self) -> Seq<LayerView> {
        self.pixels@.map_values(|l: Layer| l@)
    }

    /// Every layer holds exactly `width * height` pixels and the dirty list
    /// is well formed.
    pub open spec fn wf(&self) -> bool {
        &&& self.width * self.height <= usize::MAX
        &&& forall|l: int|
            0 <= l < self.pixels@.len() ==> (#[trigger] self.pixels@[l]).pixels@.len()
                == self.width * self.height
        &&& self.dirty_rect.wf()
    }

    /// Create a new canvas with the given dimensions and a single
    /// transparent layer.
    pub fn new(width: u32, height: u32) -> (c: Canvas)
        requires
            width * height <= usize::MAX,
        ensures
            c.wf(),
            c.width == width,
            c.height == height,
            c.pixels@.len() == 1,
            c.pixels@[0].pixels@ == transparent_pixels((width * height) as nat),
            c.pixels@[0].visible,
            c.pixels@[0].opacity == 255,
            c.pixels@[0].mode == LayerMode::Normal,
            c.output_rgba@.len() == 0,
            c.dirty_rect@.len() == 0,
            c.render_next_frame,
    {
        let pixel_count = (width as usize) * (height as usize);
        let mut layer = Layer::default();
        layer.pixels = transparent_vec(pixel_count);
        let mut layers: Vec<Layer> = Vec::new();
        layers.push(layer);
        Canvas {
            pixels: layers,
            height,
            width,
            output_rgba: Vec::new(),
            dirty_rect: DirtyRectList::new(),
            render_next_frame: true,
        }
    }
}

impl Default for Canvas {
    /// A 2000 x 1500 canvas with a single transparent layer.
    fn default() -> (c: Canvas)
        ensures
            c.wf(),
            c.width == DEFAULT_WIDTH,
            c.height == DEFAULT_HEIGHT,
            c.pixels@.len() == 1,
            c.pixels@[0].pixels@ == transparent_pixels((DEFAULT_WIDTH * DEFAULT_HEIGHT) as nat),
    {
        Canvas::new(DEFAULT_WIDTH, DEFAULT_HEIGHT)
    }
}

/// The drawing tool currently selected in the UI.
#[derive(Clone, Copy, Debug, PartialEq, Eq, Structural)]
pub enum CurrentTool {
    /// Draw solid rectangles by dragging.
    Square,
    /// Draw solid circles by dragging.
    Circle,
    /// Erase by dragging a rectangular eraser.
    SquareEraser,
    /// Erase by dragging a circular eraser.
    CircleEraser,
    /// Flood-fill a contiguous region of similar colour.
    BucketFill,
    /// Stamp an external image onto the canvas.
    Stamp,
    /// Draw using a custom brush tip from the brush library.
    CustomBrush,
}

/// Desired rendering cadence: active wake for fast repaints, idle throttled
/// for slow repaints, or frozen when the viewport is unfocused.
#[derive(Clone, Copy, Debug, PartialEq, Eq)]
pub enum RenderState {
    /// Full rendering: the canvas redraws every frame for the given time.
    ActiveWake(std::time::Duration),
    /// Slow repainting: frames still run but canvas repainting is throttled.
    IdleThrottled,
    /// No rendering: the viewport is unfocused and GPU work is suspended.
    UnfocusedFrozen,
}

} // verus!
