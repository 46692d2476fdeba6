//! Premultiplied-alpha 8-bit RGBA pixels and the integer arithmetic used
//! to convert and composite them.

use vstd::prelude::*;

use crate::canvas::LayerMode;

verus! {

/// An 8-bit-per-channel RGBA colour.  Layer data holds premultiplied alpha.
#[derive(Clone, Copy, Debug, PartialEq, Eq, Structural)]
pub struct Color32 {
    pub r: u8,
    pub g: u8,
    pub b: u8,
    pub a: u8,
}

/// Number of bytes per pixel in RGBA output buffers.
pub const BYTES_PER_PIXEL: usize = 4;

pub open spec fn rgba(r: int, g: int, b: int, a: int) -> Color32 {
    Color32 { r: r as u8, g: g as u8, b: b as u8, a: a as u8 }
}

impl Color32 {
    /// Build a colour from premultiplied channel values.
    pub fn from_rgba_premultiplied(r: u8, g: u8, b: u8, a: u8) -> (c: Color32)
        ensures
            c == (Color32 { r, g, b, a }),
    {
        Color32 { r, g, b, a }
    }

    /// Fully transparent black.
    pub fn transparent() -> (c: Color32)
        ensures
            c == (Color32 { r: 0, g: 0, b: 0, a: 0 }),
    {
        Color32 { r: 0, g: 0, b: 0, a: 0 }
    }

    pub fn r(&self) -> (v: u8)
        ensures
            v == self.r,
    {
        self.r
    }

    pub fn g(&self) -> (v: u8)
        ensures
            v == self.g,
    {
        self.g
    }

    pub fn b(&self) -> (v: u8)
        ensures
            v == self.b,
    {
        self.b
    }

    pub fn a(&self) -> (v: u8)
        ensures
            v == self.a,
    {
        self.a
    }

    /// The four channels in `[r, g, b, a]` order.
    pub fn to_array(&self) -> (arr: [u8; 4])
        ensures
            arr@ == seq![self.r, self.g, self.b, self.a],
    {
        let arr = [self.r, self.g, self.b, self.a];
        assert(arr@ =~= seq![self.r, self.g, self.b, self.a]);
        arr
    }
}

/// `value * alpha / 255`, rounded, via the fixed-point form
/// `((value * alpha + 128) * 257) >> 16`.
pub open spec fn mul_div255(value: int, alpha: int) -> int {
    ((value * alpha + 128) * 257) / 65536
}

/// `value * factor / 256`, rounded: `(value * factor + 128) >> 8`.
pub open spec fn mul_shr8(value: int, factor: int) -> int {
    (value * factor + 128) / 256
}

proof fn lemma_mul_div255_bound(value: int, alpha: int)
    requires
        0 <= value <= 255,
        0 <= alpha <= 255,
    ensures
        0 <= mul_div255(value, alpha) <= 255,
        0 <= value * alpha <= 65025,
{
    assert(0 <= value * alpha <= 65025) by (nonlinear_arith)
        requires
            0 <= value <= 255,
            0 <= alpha <= 255,
    ;
}

proof fn lemma_mul_shr8_bound(value: int, factor: int)
    requires
        0 <= value <= 255,
        0 <= factor <= 255,
    ensures
        0 <= mul_shr8(value, factor) <= 254,
        0 <= value * factor <= 65025,
{
    assert(0 <= value * factor <= 65025) by (nonlinear_arith)
        requires
            0 <= value <= 255,
            0 <= factor <= 255,
    ;
}

fn mul_div255_u8(value: u8, alpha: u8) -> (out: u8)
    ensures
        out == mul_div255(value as int, alpha as int),
{
    proof {
        lemma_mul_div255_bound(value as int, alpha as int);
    }
    let product = (value as u32) * (alpha as u32);
    (((product + 128) * 257) / 65536) as u8
}

fn mul_shr8_u8(value: u8, factor: u8) -> (out: u8)
    ensures
        out == mul_shr8(value as int, factor as int),
{
    proof {
        lemma_mul_shr8_bound(value as int, factor as int);
    }
    let product = (value as u32) * (factor as u32);
    ((product + 128) / 256) as u8
}

/// `value * frac / 255`, rounded, in fixed point: with `p = value * frac
/// + 128`, `(p + p / 256) / 256`.
pub open spec fn mul_frac_round(value: int, frac: int) -> int {
    let p = value * frac + 128;
    (p + p / 256) / 256
}

/// The premultiplied colour of a straight-alpha colour: transparent black
/// when `a` is 0, the colour itself when `a` is 255, otherwise each colour
/// channel scaled by `a / 255` with [`mul_frac_round`].
pub open spec fn unmultiplied(r: u8, g: u8, b: u8, a: u8) -> Color32 {
    if a == 0 {
        Color32 { r: 0, g: 0, b: 0, a: 0 }
    } else if a == 255 {
        Color32 { r, g, b, a: 255 }
    } else {
        Color32 {
            r: mul_frac_round(r as int, a as int) as u8,
            g: mul_frac_round(g as int, a as int) as u8,
            b: mul_frac_round(b as int, a as int) as u8,
            a,
        }
    }
}

/// `ecolor::Color32::from_rgba_unmultiplied`: the premultiplied colour of
/// straight-alpha channels.  Per ecolor's source: alpha 0 gives
/// transparent black, alpha 255 the colour unchanged, any other alpha
/// scales each colour channel with its fixed-point `mul_frac_round`
/// (stated here as [`unmultiplied`]).
#[verifier::external_body]
pub(crate) fn from_rgba_unmultiplied(r: u8, g: u8, b: u8, a: u8) -> (c: Color32)
    ensures
        c == unmultiplied(r, g, b, a),
{
    let c = ecolor::Color32::from_rgba_unmultiplied(r, g, b, a);
    Color32 { r: c.r(), g: c.g(), b: c.b(), a: c.a() }
}

/// Straight-to-premultiplied conversion of [`premultiply`].
pub open spec fn premultiply_spec(c: Color32) -> Color32 {
    if c.a == 255 {
        c
    } else if c.a == 0 {
        Color32 { r: 0, g: 0, b: 0, a: 0 }
    } else {
        rgba(
            mul_div255(c.r as int, c.a as int),
            mul_div255(c.g as int, c.a as int),
            mul_div255(c.b as int, c.a as int),
            c.a as int,
        )
    }
}

/// Convert a straight-alpha colour to premultiplied alpha.
///
/// Fully opaque colours pass through unchanged; fully transparent colours
/// become transparent black; otherwise each colour channel becomes
/// `((value * alpha + 128) * 257) >> 16`.
pub fn premultiply(color: Color32) -> (out: Color32)
    ensures
        out == premultiply_spec(color),
{
    let alpha = color.a;
    if alpha == 255 {
        return color;
    }
    if alpha == 0 {
        return Color32::transparent();
    }
    Color32 {
        r: mul_div255_u8(color.r, alpha),
        g: mul_div255_u8(color.g, alpha),
        b: mul_div255_u8(color.b, alpha),
        a: alpha,
    }
}

/// `min(value * 255 / alpha, 255)`.
pub open spec fn unmul_channel(value: int, alpha: int) -> int {
    if value * 255 / alpha > 255 {
        255
    } else {
        value * 255 / alpha
    }
}

/// Premultiplied-to-straight conversion of [`unpremultiply`].
pub open spec fn unpremultiply_spec(c: Color32) -> Color32 {
    if c.a == 0 || c.a == 255 {
        c
    } else {
        rgba(
            unmul_channel(c.r as int, c.a as int),
            unmul_channel(c.g as int, c.a as int),
            unmul_channel(c.b as int, c.a as int),
            c.a as int,
        )
    }
}

fn unmul_channel_u8(value: u8, alpha: u8) -> (out: u8)
    requires
        alpha > 0,
    ensures
        out == unmul_channel(value as int, alpha as int),
{
    proof {
        lemma_mul_div255_bound(value as int, 255);
    }
    let scaled = (value as u32) * 255 / (alpha as u32);
    if scaled > 255 {
        255
    } else {
        scaled as u8
    }
}

/// Convert a premultiplied-alpha colour to straight alpha: the inverse of
/// [`premultiply`].  Fully opaque and fully transparent colours are returned
/// unchanged; otherwise each colour channel becomes
/// `min(value * 255 / alpha, 255)`.
pub fn unpremultiply(color: Color32) -> (out: Color32)
    ensures
        out == unpremultiply_spec(color),
{
    let alpha = color.a;
    if alpha == 0 || alpha == 255 {
        return color;
    }
    Color32 {
        r: unmul_channel_u8(color.r, alpha),
        g: unmul_channel_u8(color.g, alpha),
        b: unmul_channel_u8(color.b, alpha),
        a: alpha,
    }
}

proof fn lemma_channel_roundtrip(r: int, a: int)
    requires
        0 < a < 255,
        0 <= r <= a,
    ensures
        r - 1 <= mul_div255(unmul_channel(r, a), a) <= r,
{
    let u = r * 255 / a;
    assert(u * a <= 255 * r < u * a + a && 0 <= u <= 255) by (nonlinear_arith)
        requires
            0 < a < 255,
            0 <= r <= a,
            u == r * 255 / a,
    ;
    assert(unmul_channel(r, a) == u);
    let x = u * a;
    assert(255 * r - 253 <= x <= 255 * r);
    assert(r - 1 <= ((x + 128) * 257) / 65536 <= r) by (nonlinear_arith)
        requires
            255 * r - 253 <= x <= 255 * r,
            0 <= r <= 255,
    ;
}

/// Converting a premultiplied colour to straight alpha and back changes
/// each colour channel by at most one and keeps the alpha.
pub proof fn law_unpremultiply_roundtrip_close(c: Color32)
    requires
        c.r <= c.a,
        c.g <= c.a,
        c.b <= c.a,
    ensures
        ({
            let back = premultiply_spec(unpremultiply_spec(c));
            &&& back.a == c.a
            &&& c.r - 1 <= back.r <= c.r
            &&& c.g - 1 <= back.g <= c.g
            &&& c.b - 1 <= back.b <= c.b
        }),
{
    if 0 < c.a < 255 {
        lemma_channel_roundtrip(c.r as int, c.a as int);
        lemma_channel_roundtrip(c.g as int, c.a as int);
        lemma_channel_roundtrip(c.b as int, c.a as int);
    }
}

/// One channel of the premultiplied "over" operator, truncated to 8 bits:
/// `(source + ((destination * (255 - source_alpha) + 128) >> 8)) mod 256`.
pub open spec fn over_channel(destination: int, source: int, source_alpha: int) -> int {
    (source + mul_shr8(destination, 255 - source_alpha)) % 256
}

/// The premultiplied "source over destination" blend of [`alpha_blend`].
pub open spec fn alpha_blend_spec(destination: Color32, source: Color32) -> Color32 {
    rgba(
        over_channel(destination.r as int, source.r as int, source.a as int),
        over_channel(destination.g as int, source.g as int, source.a as int),
        over_channel(destination.b as int, source.b as int, source.a as int),
        over_channel(destination.a as int, source.a as int, source.a as int),
    )
}

fn over_channel_u8(destination: u8, source: u8, source_alpha: u8) -> (out: u8)
    ensures
        out == over_channel(destination as int, source as int, source_alpha as int),
{
    let blended = mul_shr8_u8(destination, 255 - source_alpha);
    (((source as u32) + (blended as u32)) % 256) as u8
}

/// Alpha-blend a premultiplied source pixel over a premultiplied destination.
///
/// Each channel is `source + ((destination * (255 - source_alpha) + 128) >> 8)`,
/// kept to its low 8 bits.
pub fn alpha_blend(destination: Color32, source: Color32) -> (out: Color32)
    ensures
        out == alpha_blend_spec(destination, source),
{
    Color32 {
        r: over_channel_u8(destination.r, source.r, source.a),
        g: over_channel_u8(destination.g, source.g, source.a),
        b: over_channel_u8(destination.b, source.b, source.a),
        a: over_channel_u8(destination.a, source.a, source.a),
    }
}

// ---------------------------------------------------------------------------
// Layer compositing
// ---------------------------------------------------------------------------

/// Per-layer information needed for compositing.
#[derive(Clone, Copy, Debug)]
pub struct LayerBlendInfo<'a> {
    /// Premultiplied-alpha RGBA pixels for this layer.
    pub pixels: &'a [Color32],
    /// Per-layer opacity (0-255).
    pub opacity: u8,
    /// Compositing mode relative to the layer below.
    pub mode: LayerMode,
}

/// The abstract value of a layer taking part in compositing.
pub struct BlendView {
    pub pixels: Seq<Color32>,
    pub opacity: u8,
    pub mode: LayerMode,
}

impl<'a> View for LayerBlendInfo<'a> {
    type V = BlendView;

    open spec fn view(&self) -> BlendView {
        BlendView { pixels: self.pixels@, opacity: self.opacity, mode: self.mode }
    }
}

/// The views of a slice of layer infos.
pub open spec fn blend_views(layers: Seq<LayerBlendInfo>) -> Seq<BlendView> {
    layers.map_values(|l: LayerBlendInfo| l@)
}

/// A clip source taken as its pixel sequence and opacity.
pub open spec fn clip_view(clip_source: Option<(&[Color32], u8)>) -> Option<(Seq<Color32>, u8)> {
    match clip_source {
        Some((px, op)) => Some((px@, op)),
        None => None,
    }
}

/// The colour stored at pixel `k` of an RGBA byte buffer.
pub open spec fn pixel_at(bytes: Seq<u8>, k: int) -> Color32 {
    Color32 { r: bytes[4 * k], g: bytes[4 * k + 1], b: bytes[4 * k + 2], a: bytes[4 * k + 3] }
}

/// An alpha value scaled by a layer opacity (identity at full opacity).
pub open spec fn scale_alpha_spec(alpha: u8, opacity: u8) -> u8 {
    if opacity == 255 {
        alpha
    } else {
        mul_div255(alpha as int, opacity as int) as u8
    }
}

/// A pixel scaled channel-wise by an opacity with the `* 257 >> 16` rounding.
pub open spec fn scale_pixel_opacity_spec(p: Color32, opacity: u8) -> Color32 {
    if opacity == 255 {
        p
    } else {
        rgba(
            mul_div255(p.r as int, opacity as int),
            mul_div255(p.g as int, opacity as int),
            mul_div255(p.b as int, opacity as int),
            mul_div255(p.a as int, opacity as int),
        )
    }
}

/// A pixel scaled channel-wise by a factor with the `>> 8` rounding.
pub open spec fn scale_pixel_shr8_spec(p: Color32, factor: u8) -> Color32 {
    rgba(
        mul_shr8(p.r as int, factor as int),
        mul_shr8(p.g as int, factor as int),
        mul_shr8(p.b as int, factor as int),
        mul_shr8(p.a as int, factor as int),
    )
}

/// The effect of one layer pixel `p` on the accumulated pixel `acc`.
///
/// `clip` is the scaled base alpha of a clipped layer.  `vector_path` selects
/// the rounding used by the four-pixel body of a range, which scales layer
/// opacity with `>> 8` instead of `* 257 >> 16`.
pub open spec fn layer_step_spec(
    acc: Color32,
    p: Color32,
    opacity: u8,
    mode: LayerMode,
    clip: Option<u8>,
    vector_path: bool,
) -> Color32 {
    match mode {
        LayerMode::MaskedDown => Color32 {
            r: acc.r,
            g: acc.g,
            b: acc.b,
            a: mul_shr8(acc.a as int, scale_alpha_spec(p.a, opacity) as int) as u8,
        },
        _ => {
            let scaled = if vector_path && opacity != 255 {
                scale_pixel_shr8_spec(p, opacity)
            } else {
                scale_pixel_opacity_spec(p, opacity)
            };
            let clipped = match clip {
                Some(f) => scale_pixel_shr8_spec(scaled, f),
                None => scaled,
            };
            alpha_blend_spec(acc, clipped)
        },
    }
}

/// The scaled base alpha that clips pixel `j`, when there is a clip source.
pub open spec fn clip_at(clip_source: Option<(Seq<Color32>, u8)>, j: int) -> Option<u8> {
    match clip_source {
        Some((px, op)) => Some(scale_alpha_spec(px[j].a, op)),
        None => None,
    }
}

/// How a pixel range processes pixel `k`.
#[derive(Clone, Copy)]
pub enum Pass {
    /// Once, with the scalar rounding.
    Scalar,
    /// Once, with the four-pixel-body rounding.
    Vector,
}

pub open spec fn round_up4(x: int) -> int {
    (x + 3) / 4 * 4
}

pub open spec fn round_down4(x: int) -> int {
    x / 4 * 4
}

/// How a range `[start, end)` processes pixel `k` (for `start <= k < end`).
pub open spec fn pass_at(start: int, end: int, k: int) -> Pass {
    if round_up4(start) <= k < round_down4(end) {
        Pass::Vector
    } else {
        Pass::Scalar
    }
}

/// One layer applied to accumulated pixel `acc` at position `k`.
pub open spec fn layer_pass_spec(
    acc: Color32,
    info: BlendView,
    clip_source: Option<(Seq<Color32>, u8)>,
    k: int,
    pass: Pass,
) -> Color32 {
    let p = info.pixels[k];
    let clip = clip_at(clip_source, k);
    match pass {
        Pass::Scalar => layer_step_spec(acc, p, info.opacity, info.mode, clip, false),
        Pass::Vector => layer_step_spec(acc, p, info.opacity, info.mode, clip, true),
    }
}

/// Index of the nearest layer below `i` that is not `ClippedDown` (0 if none).
pub open spec fn unclipped_below(layers: Seq<BlendView>, i: int) -> int
    decreases i,
{
    if i <= 0 {
        0
    } else if layers[i - 1].mode != LayerMode::ClippedDown {
        i - 1
    } else {
        unclipped_below(layers, i - 1)
    }
}

/// The base layer of layer `i`: for a `ClippedDown` layer the nearest
/// non-clipped layer below it (0 if none), otherwise the layer itself.
pub open spec fn base_index(layers: Seq<BlendView>, i: int) -> int {
    if layers[i].mode == LayerMode::ClippedDown {
        unclipped_below(layers, i)
    } else {
        i
    }
}

/// The clip source of layer `i` inside a layer stack.
pub open spec fn stack_clip_source(layers: Seq<BlendView>, i: int) -> Option<(Seq<Color32>, u8)> {
    if layers[i].mode == LayerMode::ClippedDown {
        let b = layers[base_index(layers, i)];
        Some((b.pixels, b.opacity))
    } else {
        None
    }
}

/// Pixel `k` after layers `0..m` of the stack are applied to `acc`, each
/// processed as `pass` says.
pub open spec fn composite_spec(
    layers: Seq<BlendView>,
    m: int,
    k: int,
    acc: Color32,
    pass: Pass,
) -> Color32
    decreases m,
{
    if m <= 0 {
        acc
    } else {
        layer_pass_spec(
            composite_spec(layers, m - 1, k, acc, pass),
            layers[m - 1],
            stack_clip_source(layers, m - 1),
            k,
            pass,
        )
    }
}

/// An opaque value scaled by an opacity is that opacity.
proof fn lemma_scale_opaque(o: u8)
    ensures
        scale_alpha_spec(255, o) == o,
{
    if o != 255 {
        let x = (255 * o + 128) * 257;
        assert(x == 65536 * o + (32896 - o));
        vstd::arithmetic::div_mod::lemma_fundamental_div_mod_converse(x, 65536, o as int, 32896 - o);
    }
}

/// Scaling a value by an opacity never raises it, a transparent value
/// stays transparent, and opacity 0 gives 0.
proof fn lemma_scale_bounds(a: u8, o: u8)
    ensures
        scale_alpha_spec(a, o) <= a,
        a == 0 ==> scale_alpha_spec(a, o) == 0,
        o == 0 ==> scale_alpha_spec(a, o) == 0,
{
    if o != 255 {
        let x = (a * o + 128) * 257;
        let y = (255 * a + 128) * 257;
        assert(a * o <= 255 * a) by (nonlinear_arith)
            requires
                a <= 255,
                o <= 255,
        ;
        assert(y == 65536 * a + (32896 - a));
        vstd::arithmetic::div_mod::lemma_fundamental_div_mod_converse(y, 65536, a as int, 32896 - a);
        vstd::arithmetic::div_mod::lemma_div_is_ordered(x, y, 65536);
        if a == 0 || o == 0 {
            assert(a * o == 0) by (nonlinear_arith)
                requires
                    a == 0 || o == 0,
            ;
            vstd::arithmetic::div_mod::lemma_fundamental_div_mod_converse(x, 65536, 0, 32896);
        }
    }
}

/// A `MaskedDown` layer keeps the colour channels of the pixels below it
/// and multiplies their alpha by its own pixel's alpha scaled by the
/// layer's opacity: a mask layer at opacity 0, or a transparent mask
/// pixel, clears the alpha, and an opaque mask pixel over an opaque pixel
/// leaves alpha `(255 * opacity + 128) >> 8` (128 at opacity 128).  The
/// mask never raises the alpha.
pub proof fn law_mask_scales_alpha_by_opacity(
    acc: Color32,
    p: Color32,
    opacity: u8,
    clip: Option<u8>,
    vector_path: bool,
)
    ensures
        ({
            let r = layer_step_spec(acc, p, opacity, LayerMode::MaskedDown, clip, vector_path);
            &&& r.r == acc.r
            &&& r.g == acc.g
            &&& r.b == acc.b
            &&& r.a <= acc.a
            &&& opacity == 0 ==> r.a == 0
            &&& p.a == 0 ==> r.a == 0
            &&& (acc.a == 255 && p.a == 255) ==> r.a == (255 * opacity + 128) / 256
        }),
{
    let f = scale_alpha_spec(p.a, opacity);
    lemma_scale_bounds(p.a, opacity);
    lemma_scale_opaque(opacity);
    assert(acc.a * f <= acc.a * 255) by (nonlinear_arith)
        requires
            f <= 255,
            acc.a <= 255,
    ;
    assert(mul_shr8(acc.a as int, f as int) <= acc.a) by (nonlinear_arith)
        requires
            acc.a * f <= acc.a * 255,
            acc.a <= 255,
    ;
    assert(0 <= mul_shr8(acc.a as int, f as int)) by (nonlinear_arith)
        requires
            f >= 0,
            acc.a >= 0,
    ;
    if f == 0 {
        assert(acc.a * f == 0) by (nonlinear_arith)
            requires
                f == 0,
        ;
    }
}

/// Blending over a fully transparent pixel gives the source, blending an
/// opaque source gives the source, and the result's alpha is never below
/// the source's.
pub proof fn law_alpha_blend_over(d: Color32, s: Color32)
    ensures
        alpha_blend_spec(Color32 { r: 0, g: 0, b: 0, a: 0 }, s) == s,
        s.a == 255 ==> alpha_blend_spec(d, s) == s,
        s.a <= alpha_blend_spec(d, s).a,
{
    assert(mul_shr8(0, 255 - s.a) == 0);
    if s.a == 255 {
        assert(mul_shr8(d.r as int, 0) == 0);
        assert(mul_shr8(d.g as int, 0) == 0);
        assert(mul_shr8(d.b as int, 0) == 0);
        assert(mul_shr8(d.a as int, 0) == 0);
    }
    let t = mul_shr8(d.a as int, 255 - s.a);
    assert(0 <= d.a * (255 - s.a) <= 255 * (255 - s.a)) by (nonlinear_arith)
        requires
            d.a <= 255,
            s.a <= 255,
    ;
    assert(0 <= t <= 255 - s.a) by (nonlinear_arith)
        requires
            t == (d.a * (255 - s.a) + 128) / 256,
            0 <= d.a * (255 - s.a) <= 255 * (255 - s.a),
            s.a <= 255,
    ;
}

/// A `Normal` or `ClippedDown` layer at opacity 0 draws nothing of its
/// own (the pixel comes out as if a fully transparent pixel were blended
/// over the one below), and an opaque pixel of an unclipped `Normal` layer
/// at full opacity replaces the one below.
pub proof fn law_layer_opacity_extremes(acc: Color32, p: Color32, mode: LayerMode, clip: Option<u8>, vector_path: bool)
    ensures
        mode != LayerMode::MaskedDown ==> layer_step_spec(acc, p, 0, mode, clip, vector_path) == alpha_blend_spec(
            acc,
            Color32 { r: 0, g: 0, b: 0, a: 0 },
        ),
        p.a == 255 ==> layer_step_spec(acc, p, 255, LayerMode::Normal, None, vector_path) == p,
{
    let z = Color32 { r: 0, g: 0, b: 0, a: 0 };
    assert(scale_pixel_shr8_spec(p, 0) == z);
    assert(scale_pixel_shr8_spec(z, 0) == z);
    if let Some(f) = clip {
        assert(mul_shr8(0, f as int) == 0);
        assert(scale_pixel_shr8_spec(z, f) == z);
    }
    assert(scale_pixel_opacity_spec(p, 0) == z);
    if p.a == 255 {
        assert(mul_shr8(acc.r as int, 0) == 0);
        assert(mul_shr8(acc.g as int, 0) == 0);
        assert(mul_shr8(acc.b as int, 0) == 0);
        assert(mul_shr8(acc.a as int, 0) == 0);
        assert(alpha_blend_spec(acc, p) == p);
    }
}

/// The pixels of a stack whose top layer is a `MaskedDown` layer at
/// opacity 0 have no alpha, and keep the colour channels the layers below
/// give them.
pub proof fn law_invisible_mask_clears_alpha(layers: Seq<BlendView>, m: int, k: int, acc: Color32, pass: Pass)
    requires
        1 <= m <= layers.len(),
        layers[m - 1].mode == LayerMode::MaskedDown,
        layers[m - 1].opacity == 0,
    ensures
        composite_spec(layers, m, k, acc, pass).a == 0,
        composite_spec(layers, m, k, acc, pass).r == composite_spec(layers, m - 1, k, acc, pass).r,
        composite_spec(layers, m, k, acc, pass).g == composite_spec(layers, m - 1, k, acc, pass).g,
        composite_spec(layers, m, k, acc, pass).b == composite_spec(layers, m - 1, k, acc, pass).b,
{
    let below = composite_spec(layers, m - 1, k, acc, pass);
    let clip = clip_at(stack_clip_source(layers, m - 1), k);
    law_mask_scales_alpha_by_opacity(below, layers[m - 1].pixels[k], 0, clip, false);
    law_mask_scales_alpha_by_opacity(below, layers[m - 1].pixels[k], 0, clip, true);
}

/// The clip factor of a clipped layer at a pixel is the base layer's alpha
/// there scaled by the base layer's opacity: never above the base alpha,
/// 0 where the base is transparent or the base layer has opacity 0, and
/// the base layer's opacity where the base is opaque.
pub proof fn law_clip_factor_scales_base_alpha(base_pixels: Seq<Color32>, base_opacity: u8, j: int)
    ensures
        clip_at(Some((base_pixels, base_opacity)), j) matches Some(f) && {
            &&& f <= base_pixels[j].a
            &&& base_opacity == 0 ==> f == 0
            &&& base_pixels[j].a == 0 ==> f == 0
            &&& base_pixels[j].a == 255 ==> f == base_opacity
        },
{
    lemma_scale_bounds(base_pixels[j].a, base_opacity);
    if base_pixels[j].a == 255 {
        lemma_scale_opaque(base_opacity);
    }
}

/// A clipped layer whose base layer has opacity 0 draws nothing of its
/// own: the pixel comes out as if a fully transparent pixel were blended
/// over what the layers below give.
pub proof fn law_clip_to_invisible_base_is_transparent(
    layers: Seq<BlendView>,
    m: int,
    k: int,
    acc: Color32,
    pass: Pass,
)
    requires
        1 <= m <= layers.len(),
        layers[m - 1].mode == LayerMode::ClippedDown,
        layers[base_index(layers, m - 1)].opacity == 0,
    ensures
        composite_spec(layers, m, k, acc, pass) == alpha_blend_spec(
            composite_spec(layers, m - 1, k, acc, pass),
            Color32 { r: 0, g: 0, b: 0, a: 0 },
        ),
{
    let b = layers[base_index(layers, m - 1)];
    law_clip_factor_scales_base_alpha(b.pixels, 0, k);
    assert(clip_at(stack_clip_source(layers, m - 1), k) == Some(0u8));
}

/// With every layer at full opacity, compositing a pixel gives the same
/// colour whichever rounding path it takes; so inside its rectangle a
/// region blend over a transparent output ([`blend_region`]) gives what a
/// full blend ([`blend_layers`]) gives.
pub proof fn law_region_matches_full_at_full_opacity(
    layers: Seq<BlendView>,
    m: int,
    k: int,
    acc: Color32,
    p1: Pass,
    p2: Pass,
)
    requires
        m <= layers.len(),
        forall|i: int| 0 <= i < m ==> (#[trigger] layers[i]).opacity == 255,
    ensures
        composite_spec(layers, m, k, acc, p1) == composite_spec(layers, m, k, acc, p2),
    decreases m,
{
    if m > 0 {
        law_region_matches_full_at_full_opacity(layers, m - 1, k, acc, p1, p2);
        assert(layers[m - 1].opacity == 255);
    }
}

/// Scale a single alpha value (0-255) by opacity (0-255).
fn scale_alpha(alpha: u8, opacity: u8) -> (out: u8)
    ensures
        out == scale_alpha_spec(alpha, opacity),
{
    if opacity == 255 {
        return alpha;
    }
    mul_div255_u8(alpha, opacity)
}

/// Scale a premultiplied pixel by opacity with `* 257 >> 16` rounding.
fn scale_pixel_opacity(pixel: Color32, opacity: u8) -> (out: Color32)
    ensures
        out == scale_pixel_opacity_spec(pixel, opacity),
{
    if opacity == 255 {
        return pixel;
    }
    Color32 {
        r: mul_div255_u8(pixel.r, opacity),
        g: mul_div255_u8(pixel.g, opacity),
        b: mul_div255_u8(pixel.b, opacity),
        a: mul_div255_u8(pixel.a, opacity),
    }
}

/// Scale a pixel channel-wise by a factor with `>> 8` rounding.
fn scale_pixel_shr8(pixel: Color32, factor: u8) -> (out: Color32)
    ensures
        out == scale_pixel_shr8_spec(pixel, factor),
{
    Color32 {
        r: mul_shr8_u8(pixel.r, factor),
        g: mul_shr8_u8(pixel.g, factor),
        b: mul_shr8_u8(pixel.b, factor),
        a: mul_shr8_u8(pixel.a, factor),
    }
}

fn layer_step(
    acc: Color32,
    p: Color32,
    opacity: u8,
    mode: LayerMode,
    clip: Option<u8>,
    vector_path: bool,
) -> (out: Color32)
    ensures
        out == layer_step_spec(acc, p, opacity, mode, clip, vector_path),
{
    match mode {
        LayerMode::MaskedDown => {
            let mask_a = scale_alpha(p.a, opacity);
            Color32 { r: acc.r, g: acc.g, b: acc.b, a: mul_shr8_u8(acc.a, mask_a) }
        },
        _ => {
            let scaled = if vector_path && opacity != 255 {
                scale_pixel_shr8(p, opacity)
            } else {
                scale_pixel_opacity(p, opacity)
            };
            let clipped = match clip {
                Some(f) => scale_pixel_shr8(scaled, f),
                None => scaled,
            };
            alpha_blend(acc, clipped)
        },
    }
}

fn read_pixel(output: &Vec<u8>, k: usize) -> (c: Color32)
    requires
        4 * k + 4 <= output.len(),
    ensures
        c == pixel_at(output@, k as int),
{
    let i = 4 * k;
    Color32 { r: output[i], g: output[i + 1], b: output[i + 2], a: output[i + 3] }
}

fn write_pixel(output: &mut Vec<u8>, k: usize, c: Color32)
    requires
        4 * k + 4 <= old(output).len(),
    ensures
        final(output)@.len() == old(output)@.len(),
        pixel_at(final(output)@, k as int) == c,
        forall|j: int|
            0 <= j && 4 * j + 4 <= old(output)@.len() && j != k ==> #[trigger] pixel_at(
                final(output)@,
                j,
            ) == pixel_at(old(output)@, j),
        forall|i: int|
            0 <= i < old(output)@.len() && !(4 * k <= i < 4 * k + 4) ==> #[trigger] final(output)@[i] == old(
                output,
            )@[i],
{
    let i = 4 * k;
    output.set(i, c.r);
    output.set(i + 1, c.g);
    output.set(i + 2, c.b);
    output.set(i + 3, c.a);
}

/// Set every pixel of the rectangle `[min_x, max_x] x [min_y, max_y]` of
/// an RGBA buffer `width` pixels wide to transparent black.
pub fn clear_rect(output: &mut Vec<u8>, width: u32, min_x: u32, min_y: u32, max_x: u32, max_y: u32)
    requires
        min_x <= max_x < width,
        min_y <= max_y,
        4 * (max_y * width + max_x + 1) <= old(output)@.len(),
    ensures
        final(output)@.len() == old(output)@.len(),
        forall|k: int|
            0 <= k && 4 * k + 4 <= old(output)@.len() ==> #[trigger] pixel_at(final(output)@, k) == if region_contains(
                width as int,
                min_x as int,
                min_y as int,
                max_x as int,
                max_y as int,
                k,
            ) {
                Color32 { r: 0, g: 0, b: 0, a: 0 }
            } else {
                pixel_at(old(output)@, k)
            },
{
    let ghost initial = output@;
    let ghost w = width as int;
    let transparent = Color32 { r: 0, g: 0, b: 0, a: 0 };
    let width_usize = width as usize;
    let olen = output.len();
    let mut y: u32 = min_y;
    loop
        invariant_except_break
            min_y <= y <= max_y,
            min_x <= max_x < width,
            w == width as int,
            width_usize == width,
            olen == initial.len(),
            4 * (max_y * w + max_x + 1) <= initial.len(),
            output@.len() == initial.len(),
            forall|k: int|
                0 <= k && 4 * k + 4 <= initial.len() ==> #[trigger] pixel_at(output@, k) == if region_contains(
                    w,
                    min_x as int,
                    min_y as int,
                    max_x as int,
                    y - 1,
                    k,
                ) {
                    transparent
                } else {
                    pixel_at(initial, k)
                },
        ensures
            output@.len() == initial.len(),
            forall|k: int|
                0 <= k && 4 * k + 4 <= initial.len() ==> #[trigger] pixel_at(output@, k) == if region_contains(
                    w,
                    min_x as int,
                    min_y as int,
                    max_x as int,
                    max_y as int,
                    k,
                ) {
                    transparent
                } else {
                    pixel_at(initial, k)
                },
        decreases max_y - y,
    {
        proof {
            assert(y * w + max_x + 1 <= max_y * w + max_x + 1) by (nonlinear_arith)
                requires
                    y <= max_y,
                    0 < w,
            ;
            assert(0 <= y * w) by (nonlinear_arith)
                requires
                    0 <= y,
                    0 < w,
            ;
        }
        let row = (y as usize) * width_usize;
        let mut x: u32 = min_x;
        loop
            invariant_except_break
                min_x <= x <= max_x,
                min_x <= max_x < width,
                min_y <= y <= max_y,
                w == width as int,
                row == y * w,
                olen == initial.len(),
                row + max_x + 1 <= max_y * w + max_x + 1,
                4 * (max_y * w + max_x + 1) <= initial.len(),
                output@.len() == initial.len(),
                forall|k: int|
                    0 <= k && 4 * k + 4 <= initial.len() ==> #[trigger] pixel_at(output@, k) == if region_contains(
                        w,
                        min_x as int,
                        min_y as int,
                        max_x as int,
                        y - 1,
                        k,
                    ) || (k / w == y && min_x <= k % w < x) {
                        transparent
                    } else {
                        pixel_at(initial, k)
                    },
            ensures
                output@.len() == initial.len(),
                forall|k: int|
                    0 <= k && 4 * k + 4 <= initial.len() ==> #[trigger] pixel_at(output@, k) == if region_contains(
                        w,
                        min_x as int,
                        min_y as int,
                        max_x as int,
                        y as int,
                        k,
                    ) {
                        transparent
                    } else {
                        pixel_at(initial, k)
                    },
            decreases max_x - x,
        {
            let ghost before = output@;
            let idx = row + x as usize;
            write_pixel(output, idx, transparent);
            proof {
                crate::tools::square_brush::lemma_box_position(w, y as int, x as int);
                assert forall|k: int| 0 <= k && 4 * k + 4 <= initial.len() implies #[trigger] pixel_at(output@, k)
                    == if region_contains(w, min_x as int, min_y as int, max_x as int, y - 1, k) || (k / w == y
                    && min_x <= k % w < x + 1) {
                    transparent
                } else {
                    pixel_at(initial, k)
                } by {
                    vstd::arithmetic::div_mod::lemma_fundamental_div_mod(k, w);
                    vstd::arithmetic::mul::lemma_mul_is_commutative(w, y as int);
                    if k != idx {
                        assert(pixel_at(output@, k) == pixel_at(before, k));
                        assert(!(k / w == y && k % w == x));
                    }
                }
            }
            if x == max_x {
                break;
            }
            x = x + 1;
        }
        if y == max_y {
            break;
        }
        y = y + 1;
    }
}

/// Apply one layer to the pixels `[from, to)` of the accumulator, each once,
/// with the rounding that `vector_path` selects.
fn apply_range(
    output: &mut Vec<u8>,
    info: &LayerBlendInfo,
    clip_source: Option<(&[Color32], u8)>,
    from: usize,
    to: usize,
    vector_path: bool,
)
    requires
        from <= to,
        4 * to <= old(output)@.len(),
        to <= info.pixels@.len(),
        clip_source matches Some((px, op)) ==> to <= px@.len(),
    ensures
        final(output)@.len() == old(output)@.len(),
        forall|j: int|
            from <= j < to ==> #[trigger] pixel_at(final(output)@, j) == layer_step_spec(
                pixel_at(old(output)@, j),
                info.pixels@[j],
                info.opacity,
                info.mode,
                clip_at(clip_view(clip_source), j),
                vector_path,
            ),
        forall|j: int|
            0 <= j && 4 * j + 4 <= old(output)@.len() && !(from <= j < to) ==> #[trigger] pixel_at(
                final(output)@,
                j,
            ) == pixel_at(old(output)@, j),
        forall|i: int|
            0 <= i < old(output)@.len() && !(4 * from <= i < 4 * to) ==> #[trigger] final(output)@[i] == old(
                output,
            )@[i],
{
    let ghost initial = output@;
    let mut k = from;
    while k < to
        invariant
            from <= k <= to,
            4 * to <= initial.len(),
            to <= info.pixels@.len(),
            clip_source matches Some((px, op)) ==> to <= px@.len(),
            output@.len() == initial.len(),
            forall|j: int|
                from <= j < k ==> #[trigger] pixel_at(output@, j) == layer_step_spec(
                    pixel_at(initial, j),
                    info.pixels@[j],
                    info.opacity,
                    info.mode,
                    clip_at(clip_view(clip_source), j),
                    vector_path,
                ),
            forall|j: int|
                0 <= j && 4 * j + 4 <= initial.len() && !(from <= j < k) ==> #[trigger] pixel_at(
                    output@,
                    j,
                ) == pixel_at(initial, j),
            forall|i: int| 0 <= i < initial.len() && !(4 * from <= i < 4 * k) ==> #[trigger] output@[i] == initial[i],
        decreases to - k,
    {
        let clip = match clip_source {
            Some((base_pixels, base_opacity)) => Some(scale_alpha(base_pixels[k].a, base_opacity)),
            None => None,
        };
        let acc = read_pixel(output, k);
        let blended = layer_step(acc, info.pixels[k], info.opacity, info.mode, clip, vector_path);
        write_pixel(output, k, blended);
        k = k + 1;
    }
}

/// The clip source that [`apply_single_layer`] derives from a layer and its base.
pub open spec fn clip_source_of<'a>(
    info: LayerBlendInfo<'a>,
    base: Option<&LayerBlendInfo<'a>>,
) -> Option<(Seq<Color32>, u8)> {
    match base {
        Some(b) => if info.mode == LayerMode::ClippedDown {
            Some((b.pixels@, b.opacity))
        } else {
            None
        },
        None => None,
    }
}

/// Blend (or mask) a single layer over the pixel range
/// `[pixel_start, pixel_start + pixel_count)` of the accumulator.
///
/// The range is processed as a scalar head up to the first multiple of
/// four, a four-pixel body up to the last multiple of four, and a scalar
/// tail; [`pass_at`] says how that treats each pixel.
pub fn apply_single_layer<'a>(
    output: &mut Vec<u8>,
    info: &LayerBlendInfo<'a>,
    base: Option<&LayerBlendInfo<'a>>,
    pixel_start: usize,
    pixel_count: usize,
)
    requires
        pixel_start + pixel_count <= info.pixels@.len(),
        4 * (pixel_start + pixel_count) <= old(output)@.len(),
        base matches Some(b) ==> pixel_start + pixel_count <= b.pixels@.len(),
    ensures
        final(output)@.len() == old(output)@.len(),
        forall|j: int|
            pixel_start <= j < pixel_start + pixel_count ==> #[trigger] pixel_at(
                final(output)@,
                j,
            ) == layer_pass_spec(
                pixel_at(old(output)@, j),
                info@,
                clip_source_of(*info, base),
                j,
                pass_at(pixel_start as int, pixel_start + pixel_count, j),
            ),
        forall|j: int|
            0 <= j && 4 * j + 4 <= old(output)@.len() && !(pixel_start <= j < pixel_start
                + pixel_count) ==> #[trigger] pixel_at(final(output)@, j) == pixel_at(
                old(output)@,
                j,
            ),
        forall|i: int|
            0 <= i < old(output)@.len() && !(4 * pixel_start <= i < 4 * (pixel_start + pixel_count))
                ==> #[trigger] final(output)@[i] == old(output)@[i],
{
    let ghost initial = output@;
    let output_len = output.len();
    assert(4 * (pixel_start + pixel_count) <= output_len);
    let pixel_end = pixel_start + pixel_count;
    let clip_base: Option<(&[Color32], u8)> = match base {
        Some(base_info) => if info.mode == LayerMode::ClippedDown {
            Some((base_info.pixels, base_info.opacity))
        } else {
            None
        },
        None => None,
    };
    let aligned_start = (pixel_start + 3) / 4 * 4;
    let head_end = if aligned_start < pixel_end {
        aligned_start
    } else {
        pixel_end
    };
    apply_range(output, info, clip_base, pixel_start, head_end, false);
    let ghost after_head = output@;
    let aligned_end = pixel_end / 4 * 4;
    if aligned_start < aligned_end {
        apply_range(output, info, clip_base, aligned_start, aligned_end, true);
    }
    let ghost after_body = output@;
    let tail_start = if aligned_end > head_end {
        aligned_end
    } else {
        head_end
    };
    apply_range(output, info, clip_base, tail_start, pixel_end, false);
    assert forall|j: int| pixel_start <= j < pixel_end implies #[trigger] pixel_at(output@, j)
        == layer_pass_spec(
        pixel_at(initial, j),
        info@,
        clip_source_of(*info, base),
        j,
        pass_at(pixel_start as int, pixel_end as int, j),
    ) by {
        lemma_pass_partition(pixel_start as int, pixel_end as int, j);
        assert(pixel_at(after_head, j) == pixel_at(after_head, j));
        assert(pixel_at(after_body, j) == pixel_at(after_body, j));
    }
}

/// Compute the base layer index for each layer: for a `ClippedDown` layer
/// the nearest layer below it whose mode is not `ClippedDown` (0 if none);
/// for other layers the layer's own index.
fn compute_base_indices(layers: &[LayerBlendInfo]) -> (bases: Vec<usize>)
    ensures
        bases@.len() == layers@.len(),
        forall|i: int| 0 <= i < layers@.len() ==> #[trigger] bases@[i] == base_index(blend_views(layers@), i),
{
    let mut bases: Vec<usize> = Vec::new();
    let mut current_base: usize = 0;
    let mut i: usize = 0;
    while i < layers.len()
        invariant
            i <= layers@.len(),
            bases@.len() == i,
            current_base == unclipped_below(blend_views(layers@), i as int),
            forall|j: int| 0 <= j < i ==> #[trigger] bases@[j] == base_index(blend_views(layers@), j),
        decreases layers@.len() - i,
    {
        if layers[i].mode == LayerMode::ClippedDown {
            bases.push(current_base);
        } else {
            current_base = i;
            bases.push(i);
        }
        i = i + 1;
    }
    bases
}

/// Composite premultiplied layers (bottom to top) into an RGBA byte buffer
/// that starts transparent.
///
/// Pixel `k` of the output is [`composite_spec`] of the whole stack over
/// transparent black; pixels below the last multiple of four take the
/// four-pixel-body rounding, the rest the scalar rounding.
pub fn blend_layers(layers: &[LayerBlendInfo], output: &mut Vec<u8>)
    requires
        layers@.len() > 0,
        forall|i: int|
            0 <= i < layers@.len() ==> (#[trigger] layers@[i]).pixels@.len()
                == layers@[0].pixels@.len(),
        old(output)@.len() == layers@[0].pixels@.len() * BYTES_PER_PIXEL,
    ensures
        final(output)@.len() == old(output)@.len(),
        forall|k: int|
            0 <= k < layers@[0].pixels@.len() ==> #[trigger] pixel_at(final(output)@, k)
                == composite_spec(
                blend_views(layers@),
                layers@.len() as int,
                k,
                Color32 { r: 0, g: 0, b: 0, a: 0 },
                pass_at(0, layers@[0].pixels@.len() as int, k),
            ),
{
    let pixel_count = layers[0].pixels.len();
    let ghost n = pixel_count as int;
    let ghost transparent = Color32 { r: 0, g: 0, b: 0, a: 0 };
    let byte_count = output.len();
    let mut z: usize = 0;
    while z < byte_count
        invariant
            output@.len() == byte_count,
            byte_count == 4 * n,
            z <= byte_count,
            forall|b: int| 0 <= b < z ==> output@[b] == 0u8,
        decreases byte_count - z,
    {
        output.set(z, 0);
        z = z + 1;
    }
    let bases = compute_base_indices(layers);
    let mut i: usize = 0;
    while i < layers.len()
        invariant
            i <= layers@.len(),
            bases@.len() == layers@.len(),
            forall|l: int| 0 <= l < layers@.len() ==> #[trigger] bases@[l] == base_index(blend_views(layers@), l),
            forall|l: int|
                0 <= l < layers@.len() ==> (#[trigger] layers@[l]).pixels@.len() == n,
            output@.len() == 4 * n,
            pixel_count == n,
            forall|k: int|
                0 <= k < n ==> #[trigger] pixel_at(output@, k) == composite_spec(
                    blend_views(layers@),
                    i as int,
                    k,
                    transparent,
                    pass_at(0, n, k),
                ),
        decreases layers@.len() - i,
    {
        let base_slot = bases[i];
        proof {
            lemma_base_index_bounds(blend_views(layers@), i as int);
        }
        let base = if layers[i].mode == LayerMode::ClippedDown {
            Some(&layers[base_slot])
        } else {
            None
        };
        let ghost before = output@;
        apply_single_layer(output, &layers[i], base, 0, pixel_count);
        assert forall|k: int| 0 <= k < n implies #[trigger] pixel_at(output@, k) == composite_spec(
            blend_views(layers@),
            i + 1,
            k,
            transparent,
            pass_at(0, n, k),
        ) by {
            assert(pixel_at(before, k) == composite_spec(blend_views(layers@), i as int, k, transparent, pass_at(0, n, k)));
            assert(clip_source_of(layers@[i as int], base) == stack_clip_source(blend_views(layers@), i as int));
            assert(blend_views(layers@)[i as int] == layers@[i as int]@);
        }
        i = i + 1;
    }
}

/// How the head `[s, min(round_up4(s), e))`, the body
/// `[round_up4(s), round_down4(e))` and the tail `[max(round_down4(e), s), e)`
/// cover a pixel `j` of `[s, e)`.
#[verifier::spinoff_prover]
#[verifier::rlimit(40)]
proof fn lemma_pass_partition(s: int, e: int, j: int)
    requires
        0 <= s <= j < e,
    ensures
        ({
            let a = round_up4(s);
            let head_end = if a < e { a } else { e };
            let b = round_down4(e);
            let tail_start = if b > head_end { b } else { head_end };
            let in_head = s <= j < head_end;
            let in_body = a < b && a <= j < b;
            let in_tail = tail_start <= j < e;
            &&& pass_at(s, e, j) == Pass::Vector ==> !in_head && in_body && !in_tail
            &&& pass_at(s, e, j) == Pass::Scalar ==> !in_body && (in_head != in_tail)
        }),
{
    let a = round_up4(s);
    let b = round_down4(e);
    assert(s <= a < s + 4);
    assert(e - 4 < b <= e);
    assert(a % 4 == 0 && b % 4 == 0);
    if s % 4 == 0 {
        assert(a == s);
    } else {
        assert(a == (s / 4) * 4 + 4);
    }
}

proof fn lemma_unclipped_below_bounds(layers: Seq<BlendView>, i: int)
    requires
        0 <= i,
    ensures
        0 <= unclipped_below(layers, i) <= i,
        i > 0 ==> unclipped_below(layers, i) < i,
    decreases i,
{
    if i > 0 {
        lemma_unclipped_below_bounds(layers, i - 1);
    }
}

proof fn lemma_base_index_bounds(layers: Seq<BlendView>, i: int)
    requires
        0 <= i < layers.len(),
    ensures
        0 <= base_index(layers, i) <= i,
{
    lemma_unclipped_below_bounds(layers, i);
}

/// Whether pixel `k` lies in the inclusive rectangle `[min_x, max_x] x
/// [min_y, max_y]` of a canvas `width` pixels wide.
pub open spec fn region_contains(
    width: int,
    min_x: int,
    min_y: int,
    max_x: int,
    max_y: int,
    k: int,
) -> bool {
    width > 0 && min_y <= k / width <= max_y && min_x <= k % width <= max_x
}

/// How [`blend_region`] processes pixel `k`: its row is one range
/// `[row * width + min_x, row * width + max_x + 1)`.
pub open spec fn region_pass(width: int, min_x: int, max_x: int, k: int) -> Pass {
    pass_at((k / width) * width + min_x, (k / width) * width + max_x + 1, k)
}

proof fn lemma_row_position(y: int, w: int, x: int)
    requires
        w > 0,
        0 <= x < w,
        0 <= y,
    ensures
        (y * w + x) / w == y,
        (y * w + x) % w == x,
{
    vstd::arithmetic::div_mod::lemma_fundamental_div_mod_converse(y * w + x, w, y, x);
}

proof fn lemma_row_bound(y: int, max_y: int, w: int)
    requires
        0 <= y <= max_y,
        w > 0,
    ensures
        y * w <= max_y * w,
        (y + 1) * w == y * w + w,
{
    vstd::arithmetic::mul::lemma_mul_inequality(y, max_y, w);
    vstd::arithmetic::mul::lemma_mul_is_distributive_add_other_way(w, y, 1);
}

/// Blend only the pixels of the inclusive rectangle `[min_x, max_x] x
/// [min_y, max_y]` over the existing contents of `output`, row by row.
///
/// Each pixel of the rectangle becomes [`composite_spec`] of the whole
/// stack over its previous value (with the rounding [`region_pass`] gives);
/// every other pixel is unchanged.  With no layers nothing changes.
pub fn blend_region(
    layers: &[LayerBlendInfo],
    output: &mut Vec<u8>,
    canvas_width: u32,
    min_x: u32,
    min_y: u32,
    max_x: u32,
    max_y: u32,
)
    requires
        layers@.len() > 0 && min_y <= max_y && min_x <= max_x ==> {
            &&& max_x < canvas_width
            &&& 4 * (max_y * canvas_width + max_x + 1) <= old(output)@.len()
            &&& forall|l: int|
                0 <= l < layers@.len() ==> max_y * canvas_width + max_x + 1 <= (
                #[trigger] layers@[l]).pixels@.len()
        },
    ensures
        layers@.len() == 0 || min_y > max_y || min_x > max_x ==> final(output)@ == old(output)@,
        final(output)@.len() == old(output)@.len(),
        forall|k: int|
            0 <= k && 4 * k + 4 <= old(output)@.len() ==> #[trigger] pixel_at(final(output)@, k)
                == if region_contains(
                canvas_width as int,
                min_x as int,
                min_y as int,
                max_x as int,
                max_y as int,
                k,
            ) {
                composite_spec(
                    blend_views(layers@),
                    layers@.len() as int,
                    k,
                    pixel_at(old(output)@, k),
                    region_pass(canvas_width as int, min_x as int, max_x as int, k),
                )
            } else {
                pixel_at(old(output)@, k)
            },
{
    let ghost initial = output@;
    let ghost w = canvas_width as int;
    if layers.len() == 0 {
        return;
    }
    if min_y > max_y || min_x > max_x {
        assert forall|k: int| 0 <= k && 4 * k + 4 <= initial.len() implies !region_contains(
            w,
            min_x as int,
            min_y as int,
            max_x as int,
            max_y as int,
            k,
        ) by {}
        return;
    }
    let output_len = output.len();
    let width = canvas_width as usize;
    let base_indices = compute_base_indices(layers);
    let pixel_count = (max_x - min_x + 1) as usize;
    let mut y: u32 = min_y;
    loop
        invariant_except_break
            w == canvas_width as int,
            min_y <= y <= max_y,
            min_x <= max_x < canvas_width,
            width == w,
            pixel_count == max_x - min_x + 1,
            output_len == initial.len(),
            4 * (max_y * w + max_x + 1) <= output_len,
            forall|l: int|
                0 <= l < layers@.len() ==> max_y * w + max_x + 1 <= (
                #[trigger] layers@[l]).pixels@.len(),
            base_indices@.len() == layers@.len(),
            forall|l: int|
                0 <= l < layers@.len() ==> #[trigger] base_indices@[l] == base_index(blend_views(layers@), l),
            output@.len() == initial.len(),
            forall|k: int|
                0 <= k && 4 * k + 4 <= initial.len() ==> #[trigger] pixel_at(output@, k) == if (
                region_contains(w, min_x as int, min_y as int, max_x as int, y - 1, k)) {
                    composite_spec(
                        blend_views(layers@),
                        layers@.len() as int,
                        k,
                        pixel_at(initial, k),
                        region_pass(w, min_x as int, max_x as int, k),
                    )
                } else {
                    pixel_at(initial, k)
                },
        ensures
            output@.len() == initial.len(),
            forall|k: int|
                0 <= k && 4 * k + 4 <= initial.len() ==> #[trigger] pixel_at(output@, k) == if (
                region_contains(w, min_x as int, min_y as int, max_x as int, max_y as int, k)) {
                    composite_spec(
                        blend_views(layers@),
                        layers@.len() as int,
                        k,
                        pixel_at(initial, k),
                        region_pass(w, min_x as int, max_x as int, k),
                    )
                } else {
                    pixel_at(initial, k)
                },
        decreases max_y - y,
    {
        proof {
            lemma_row_bound(y as int, max_y as int, w);
        }
        let row_start = (y as usize) * width + min_x as usize;
        let ghost row_end = row_start + pixel_count;
        let ghost before_row = output@;
        let mut i: usize = 0;
        while i < layers.len()
            invariant
                i <= layers@.len(),
                row_end == row_start + pixel_count,
                row_start == y * w + min_x,
                row_end <= max_y * w + max_x + 1,
                4 * row_end <= initial.len(),
                forall|l: int|
                    0 <= l < layers@.len() ==> max_y * w + max_x + 1 <= (
                    #[trigger] layers@[l]).pixels@.len(),
                base_indices@.len() == layers@.len(),
                forall|l: int|
                    0 <= l < layers@.len() ==> #[trigger] base_indices@[l] == base_index(
                        blend_views(layers@),
                        l,
                    ),
                output@.len() == initial.len(),
                forall|k: int|
                    0 <= k && 4 * k + 4 <= initial.len() ==> #[trigger] pixel_at(output@, k) == if (
                    row_start <= k < row_end) {
                        composite_spec(
                            blend_views(layers@),
                            i as int,
                            k,
                            pixel_at(before_row, k),
                            pass_at(row_start as int, row_end, k),
                        )
                    } else {
                        pixel_at(before_row, k)
                    },
            decreases layers@.len() - i,
        {
            let base_slot = base_indices[i];
            proof {
                lemma_base_index_bounds(blend_views(layers@), i as int);
            }
            let base = if layers[i].mode == LayerMode::ClippedDown {
                Some(&layers[base_slot])
            } else {
                None
            };
            let ghost before = output@;
            apply_single_layer(output, &layers[i], base, row_start, pixel_count);
            assert forall|k: int| 0 <= k && 4 * k + 4 <= initial.len() implies #[trigger] pixel_at(
                output@,
                k,
            ) == if (row_start <= k < row_end) {
                composite_spec(
                    blend_views(layers@),
                    i + 1,
                    k,
                    pixel_at(before_row, k),
                    pass_at(row_start as int, row_end, k),
                )
            } else {
                pixel_at(before_row, k)
            } by {
                assert(pixel_at(before, k) == pixel_at(before, k));
                assert(clip_source_of(layers@[i as int], base) == stack_clip_source(
                    blend_views(layers@),
                    i as int,
                ));
                assert(blend_views(layers@)[i as int] == layers@[i as int]@);
            }
            i = i + 1;
        }
        assert forall|k: int| 0 <= k && 4 * k + 4 <= initial.len() implies #[trigger] pixel_at(
            output@,
            k,
        ) == if (region_contains(w, min_x as int, min_y as int, max_x as int, y as int, k)) {
            composite_spec(
                blend_views(layers@),
                layers@.len() as int,
                k,
                pixel_at(initial, k),
                region_pass(w, min_x as int, max_x as int, k),
            )
        } else {
            pixel_at(initial, k)
        } by {
            assert(pixel_at(before_row, k) == pixel_at(before_row, k));
            if row_start <= k < row_end {
                lemma_row_position(y as int, w, k - y * w);
            } else {
                if region_contains(w, min_x as int, min_y as int, max_x as int, y as int, k) {
                    let q = k / w;
                    let r = k % w;
                    vstd::arithmetic::div_mod::lemma_fundamental_div_mod(k, w);
                    assert(k == w * q + r);
                    vstd::arithmetic::mul::lemma_mul_is_commutative(w, q);
                    assert(q != y);
                }
            }
        }
        if y == max_y {
            break;
        }
        y = y + 1;
    }
}

} // verus!
