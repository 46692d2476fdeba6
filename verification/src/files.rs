//! Canvas files and image export: compressing and decompressing canvas
//! data (zstd for `.splattercanvas`, xz for `.splatterarchive`), checking
//! a loaded canvas, and the pixel conversions of image import and export.

use vstd::prelude::*;

use crate::canvas::Canvas;
use crate::canvas::DirtyRectList;
use crate::canvas::Layer;
use crate::canvas::LayerView;
use crate::document::append_decimal;
use crate::document::decimal;
use crate::pixel::unmultiplied;
use crate::pixel::unpremultiply;
use crate::pixel::unpremultiply_spec;
use crate::pixel::from_rgba_unmultiplied;
use crate::pixel::Color32;
use crate::tools::brush_parsers::decode_image_rgba8;
use crate::tools::brush_parsers::decoded_rgba8;

verus! {

/// zstd compression level of canvas files.
pub const COMPRESSION_LEVEL: i32 = 10;
/// xz preset of archive files (maximum compression).
pub const XZ_COMPRESSION_PRESET: u32 = 9;
/// Largest decompressed canvas data accepted (512 MiB).
pub const MAX_DECOMPRESSED_BYTES: u64 = 536870912;
/// JPEG export quality.
pub const JPEG_QUALITY: u8 = 100;

/// What `zstd::stream::decode_all` gives for `bytes`: the decompressed
/// bytes, or `None` when it fails.
pub uninterp spec fn zstd_decoded(bytes: Seq<u8>) -> Option<Seq<u8>>;

/// What reading an `xz2::read::XzDecoder` over `bytes` to the end gives:
/// the decompressed bytes, or `None` when it fails.
pub uninterp spec fn xz_decoded(bytes: Seq<u8>) -> Option<Seq<u8>>;

/// The zstd frame `zstd::stream::encode_all` writes for `bytes` at
/// `level` when it succeeds: a function of the two alone.
pub uninterp spec fn zstd_encoded(bytes: Seq<u8>, level: i32) -> Seq<u8>;

/// The xz stream an `xz2::write::XzEncoder` at `preset` writes for `bytes`
/// when it succeeds: a function of the two alone.
pub uninterp spec fn xz_encoded(bytes: Seq<u8>, preset: u32) -> Seq<u8>;

/// `zstd::stream::encode_all` at `level`: the result is named
/// [`zstd_encoded`]; zstd compression is lossless, so decompressing it
/// gives back `data`.  Whether it succeeds depends on the memory zstd
/// gets, so that is not stated.
#[verifier::external_body]
fn zstd_encode(data: &[u8], level: i32) -> (r: Result<Vec<u8>, String>)
    ensures
        r matches Ok(out) ==> out@ == zstd_encoded(data@, level) && zstd_decoded(out@) == Some(data@),
{
    match zstd::stream::encode_all(data, level) {
        Ok(out) => Ok(out),
        Err(e) => Err(format!("{e}")),
    }
}

/// `zstd::stream::decode_all`: the result is named [`zstd_decoded`].
#[verifier::external_body]
fn zstd_decode(data: &[u8]) -> (r: Result<Vec<u8>, String>)
    ensures
        match r {
            Ok(out) => zstd_decoded(data@) == Some(out@),
            Err(_) => zstd_decoded(data@) is None,
        },
{
    match zstd::stream::decode_all(data) {
        Ok(out) => Ok(out),
        Err(e) => Err(format!("{e}")),
    }
}

/// `xz2::write::XzEncoder` at `preset` (liblzma's presets are 0 to 9;
/// `XzEncoder::new` panics on any other), written and finished into a
/// vector: the result is named [`xz_encoded`]; xz compression is
/// lossless, so decompressing it gives back `data`.  Whether it succeeds
/// depends on the memory liblzma gets, so that is not stated.
#[verifier::external_body]
fn xz_encode(data: &[u8], preset: u32) -> (r: Result<Vec<u8>, String>)
    requires
        preset <= 9,
    ensures
        r matches Ok(out) ==> out@ == xz_encoded(data@, preset) && xz_decoded(out@) == Some(data@),
{
    let mut encoder = xz2::write::XzEncoder::new(Vec::new(), preset);
    match std::io::Write::write_all(&mut encoder, data) {
        Ok(()) => {},
        Err(e) => return Err(format!("{e}")),
    }
    match encoder.finish() {
        Ok(out) => Ok(out),
        Err(e) => Err(format!("{e}")),
    }
}

/// An `xz2::read::XzDecoder` over `data` read to the end: the result is
/// named [`xz_decoded`].
#[verifier::external_body]
fn xz_decode(data: &[u8]) -> (r: Result<Vec<u8>, String>)
    ensures
        match r {
            Ok(out) => xz_decoded(data@) == Some(out@),
            Err(_) => xz_decoded(data@) is None,
        },
{
    let mut decoder = xz2::read::XzDecoder::new(data);
    let mut out = Vec::new();
    match std::io::Read::read_to_end(&mut decoder, &mut out) {
        Ok(_) => Ok(out),
        Err(e) => Err(format!("{e}")),
    }
}

/// Which compression a canvas file uses.
#[derive(Clone, Copy, Debug, PartialEq, Eq, Structural)]
pub enum Compression {
    /// zstd, for `.splattercanvas` files.
    Zstd,
    /// xz, for `.splatterarchive` files.
    Xz,
}

/// What decompressing `bytes` gives.
pub open spec fn decoded(kind: Compression, bytes: Seq<u8>) -> Option<Seq<u8>> {
    match kind {
        Compression::Zstd => zstd_decoded(bytes),
        Compression::Xz => xz_decoded(bytes),
    }
}

/// What compressing `bytes` gives when it succeeds: zstd at
/// [`COMPRESSION_LEVEL`] or xz at [`XZ_COMPRESSION_PRESET`].
pub open spec fn encoded(kind: Compression, bytes: Seq<u8>) -> Seq<u8> {
    match kind {
        Compression::Zstd => zstd_encoded(bytes, COMPRESSION_LEVEL),
        Compression::Xz => xz_encoded(bytes, XZ_COMPRESSION_PRESET),
    }
}

/// Compress serialized canvas data ([`encoded`]); decompressing the
/// result gives the data back.  Whether the compressor succeeds depends on
/// the memory it gets, so that is not stated; its error's message is
/// passed on.
pub fn compress_canvas_data(data: &[u8], kind: Compression) -> (r: Result<Vec<u8>, String>)
    ensures
        r matches Ok(out) ==> out@ == encoded(kind, data@) && decoded(kind, out@) == Some(data@),
{
    match kind {
        Compression::Zstd => zstd_encode(data, COMPRESSION_LEVEL),
        Compression::Xz => xz_encode(data, XZ_COMPRESSION_PRESET),
    }
}

/// The message of decompressed data over the size limit.
pub open spec fn too_large_message() -> Seq<char> {
    "decompressed data exceeds "@ + decimal(MAX_DECOMPRESSED_BYTES as nat) + " bytes"@
}

/// Decompressed data accepted from compressed `bytes`: within the size
/// limit and exactly what decompression gives.
pub open spec fn accepted_data(kind: Compression, bytes: Seq<u8>, out: Seq<u8>) -> bool {
    out.len() <= MAX_DECOMPRESSED_BYTES && decoded(kind, bytes) == Some(out)
}

/// Decompress canvas data, refusing more than [`MAX_DECOMPRESSED_BYTES`]
/// bytes with "decompressed data exceeds 536870912 bytes".
pub fn decompress_canvas_data(data: &[u8], kind: Compression) -> (r: Result<Vec<u8>, String>)
    ensures
        r is Ok <==> (decoded(kind, data@) matches Some(full) && full.len() <= MAX_DECOMPRESSED_BYTES),
        r matches Ok(out) ==> accepted_data(kind, data@, out@),
        (decoded(kind, data@) matches Some(full) && full.len() > MAX_DECOMPRESSED_BYTES) ==> (r matches Err(
            e,
        ) && e@ == too_large_message()),
{
    let full = match kind {
        Compression::Zstd => zstd_decode(data),
        Compression::Xz => xz_decode(data),
    };
    match full {
        Err(e) => Err(e),
        Ok(out) => {
            if (out.len() as u64) > MAX_DECOMPRESSED_BYTES {
                let mut msg = String::from_str("decompressed data exceeds ");
                append_decimal(&mut msg, 536870912);
                msg.append(" bytes");
                Err(msg)
            } else {
                Ok(out)
            }
        },
    }
}

/// Decompressing what [`compress_canvas_data`] produced gives back the
/// data, when it is within the size limit.
pub proof fn law_compression_roundtrip(kind: Compression, data: Seq<u8>, compressed: Seq<u8>, out: Seq<u8>)
    requires
        decoded(kind, compressed) == Some(data),
        accepted_data(kind, compressed, out),
    ensures
        out == data,
{
}

/// `w * h` as a `usize`, saturating at `usize::MAX`.
pub open spec fn expected_pixels(w: u32, h: u32) -> int {
    if w * h <= usize::MAX {
        w * h
    } else {
        usize::MAX as int
    }
}

/// The index of the first layer from `i` on whose pixel count is not
/// `expected`, if any.
pub open spec fn first_bad_layer(layers: Seq<LayerView>, expected: int, i: int) -> Option<int>
    decreases layers.len() - i,
{
    if i < 0 || i >= layers.len() {
        None
    } else if layers[i].pixels.len() != expected {
        Some(i)
    } else {
        first_bad_layer(layers, expected, i + 1)
    }
}

/// Why a loaded canvas is refused, or `None` when it is sound: zero
/// dimensions, or a layer whose pixel count is not `width * height`.
pub open spec fn canvas_error(c: Canvas) -> Option<Seq<char>> {
    if c.width == 0 || c.height == 0 {
        Some("invalid canvas dimensions: "@ + decimal(c.width as nat) + "x"@ + decimal(c.height as nat))
    } else {
        let e = expected_pixels(c.width, c.height);
        match first_bad_layer(c.layers(), e, 0) {
            Some(i) => Some(
                "layer "@ + decimal(i as nat) + ": expected "@ + decimal(e as nat) + " pixels, got "@ + decimal(
                    c.layers()[i].pixels.len(),
                ),
            ),
            None => None,
        }
    }
}

/// Check a deserialized canvas and ask for a full re-blend of it.
pub fn check_loaded_canvas(loaded: Canvas) -> (r: Result<Canvas, String>)
    ensures
        match r {
            Err(e) => canvas_error(loaded) == Some(e@),
            Ok(c) => {
                &&& canvas_error(loaded) is None
                &&& c.layers() == loaded.layers()
                &&& c.width == loaded.width
                &&& c.height == loaded.height
                &&& c.output_rgba@ == loaded.output_rgba@
                &&& c.render_next_frame == loaded.render_next_frame
                &&& c.dirty_rect@.len() == 0
            },
        },
{
    let mut canvas = loaded;
    let ghost start = canvas;
    if canvas.width == 0 || canvas.height == 0 {
        let mut msg = String::from_str("invalid canvas dimensions: ");
        append_decimal(&mut msg, canvas.width as usize);
        msg.append("x");
        append_decimal(&mut msg, canvas.height as usize);
        return Err(msg);
    }
    let expected = (canvas.width as usize).checked_mul(canvas.height as usize).unwrap_or(usize::MAX);
    let n = canvas.pixels.len();
    let mut i: usize = 0;
    while i < n
        invariant
            canvas == start,
            start == loaded,
            canvas.width > 0,
            canvas.height > 0,
            n == canvas.pixels@.len(),
            expected == expected_pixels(canvas.width, canvas.height),
            i <= n,
            first_bad_layer(canvas.layers(), expected as int, 0) == first_bad_layer(
                canvas.layers(),
                expected as int,
                i as int,
            ),
        decreases n - i,
    {
        let len = canvas.pixels[i].pixels.len();
        if len != expected {
            let mut msg = String::from_str("layer ");
            append_decimal(&mut msg, i);
            msg.append(": expected ");
            append_decimal(&mut msg, expected);
            msg.append(" pixels, got ");
            append_decimal(&mut msg, len);
            proof {
                assert(canvas.layers()[i as int].pixels.len() == len);
                assert(first_bad_layer(canvas.layers(), expected as int, i as int) == Some(i as int));
                assert(msg@ == "layer "@ + decimal(i as nat) + ": expected "@ + decimal(expected as nat)
                    + " pixels, got "@ + decimal(len as nat));
            }
            return Err(msg);
        }
        i = i + 1;
    }
    canvas.dirty_rect.request_full_blend();
    proof {
        assert(canvas.layers() =~= start.layers());
    }
    Ok(canvas)
}

/// The exported RGBA of premultiplied pixel `c`: for JPEG, composited over
/// white (each colour channel plus `255 - alpha`, saturating) and opaque;
/// otherwise converted to straight alpha.
pub open spec fn export_pixel(c: Color32, jpeg: bool) -> Color32 {
    if jpeg {
        let inv = 255 - c.a;
        Color32 {
            r: if c.r + inv > 255 { 255 } else { (c.r + inv) as u8 },
            g: if c.g + inv > 255 { 255 } else { (c.g + inv) as u8 },
            b: if c.b + inv > 255 { 255 } else { (c.b + inv) as u8 },
            a: 255,
        }
    } else {
        unpremultiply_spec(c)
    }
}

/// An exported pixel: for JPEG it is opaque, a transparent pixel comes out
/// white and an opaque one as it is; otherwise it keeps its alpha, and
/// transparent and opaque pixels come out as they are.
pub proof fn law_export_pixel(c: Color32)
    ensures
        export_pixel(c, true).a == 255,
        c.a == 0 && c.r == 0 && c.g == 0 && c.b == 0 ==> export_pixel(c, true) == (Color32 {
            r: 255,
            g: 255,
            b: 255,
            a: 255,
        }),
        c.a == 255 ==> export_pixel(c, true) == c,
        export_pixel(c, false).a == c.a,
        c.a == 0 || c.a == 255 ==> export_pixel(c, false) == c,
{
}

/// Pixel `i` of a flattened premultiplied RGBA buffer.
pub open spec fn rgba_at(d: Seq<u8>, i: int) -> Color32 {
    Color32 { r: d[4 * i], g: d[4 * i + 1], b: d[4 * i + 2], a: d[4 * i + 3] }
}

/// Convert a flattened premultiplied RGBA buffer of `width * height`
/// pixels to the RGBA bytes an image file holds ([`export_pixel`]); an
/// image without pixels is refused.
pub fn export_pixels(premultiplied_rgba: &[u8], width: u32, height: u32, jpeg: bool) -> (r: Result<Vec<u8>, String>)
    requires
        width * height <= u32::MAX,
        premultiplied_rgba@.len() % 4 == 0,
        premultiplied_rgba@.len() >= width * height * 4,
    ensures
        width * height == 0 <==> r is Err,
        r matches Err(e) ==> e@ == "cannot export an image with zero pixels"@,
        r matches Ok(out) ==> {
            &&& out@.len() == width * height * 4
            &&& forall|i: int|
                0 <= i < width * height ==> #[trigger] rgba_at(out@, i) == export_pixel(
                    rgba_at(premultiplied_rgba@, i),
                    jpeg,
                )
        },
{
    let total = (width * height) as usize;
    if total == 0 {
        return Err(String::from_str("cannot export an image with zero pixels"));
    }
    let ghost d = premultiplied_rgba@;
    let dlen = premultiplied_rgba.len();
    let mut out: Vec<u8> = Vec::new();
    let mut i: usize = 0;
    while i < total
        invariant
            d == premultiplied_rgba@,
            dlen == d.len(),
            total == width * height,
            d.len() >= total * 4,
            i <= total,
            out@.len() == 4 * i,
            forall|k: int| 0 <= k < i ==> #[trigger] rgba_at(out@, k) == export_pixel(rgba_at(d, k), jpeg),
        decreases total - i,
    {
        let base = 4 * i;
        let c = Color32 {
            r: premultiplied_rgba[base],
            g: premultiplied_rgba[base + 1],
            b: premultiplied_rgba[base + 2],
            a: premultiplied_rgba[base + 3],
        };
        let p = if jpeg {
            let inv = 255 - c.a;
            Color32 {
                r: if c.r as u16 + inv as u16 > 255 { 255 } else { c.r + inv },
                g: if c.g as u16 + inv as u16 > 255 { 255 } else { c.g + inv },
                b: if c.b as u16 + inv as u16 > 255 { 255 } else { c.b + inv },
                a: 255,
            }
        } else {
            unpremultiply(c)
        };
        let ghost before = out@;
        out.push(p.r);
        out.push(p.g);
        out.push(p.b);
        out.push(p.a);
        proof {
            assert forall|k: int| 0 <= k < i + 1 implies #[trigger] rgba_at(out@, k) == export_pixel(
                rgba_at(d, k),
                jpeg,
            ) by {
                if k < i {
                    assert(rgba_at(out@, k) == rgba_at(before, k));
                }
            }
        }
        i = i + 1;
    }
    Ok(out)
}

/// The RGB bytes of RGBA bytes: every fourth byte dropped.
pub fn rgba_to_rgb(rgba: &Vec<u8>) -> (rgb: Vec<u8>)
    requires
        rgba@.len() % 4 == 0,
    ensures
        rgb@.len() == rgba@.len() / 4 * 3,
        forall|i: int|
            0 <= i < rgba@.len() / 4 ==> {
                &&& #[trigger] rgb@[3 * i] == rgba@[4 * i]
                &&& rgb@[3 * i + 1] == rgba@[4 * i + 1]
                &&& rgb@[3 * i + 2] == rgba@[4 * i + 2]
            },
{
    let rlen = rgba.len();
    let n = rlen / 4;
    let mut rgb: Vec<u8> = Vec::new();
    let mut i: usize = 0;
    while i < n
        invariant
            rlen == rgba@.len(),
            n == rgba@.len() / 4,
            rgba@.len() % 4 == 0,
            i <= n,
            rgb@.len() == 3 * i,
            forall|k: int|
                0 <= k < i ==> {
                    &&& #[trigger] rgb@[3 * k] == rgba@[4 * k]
                    &&& rgb@[3 * k + 1] == rgba@[4 * k + 1]
                    &&& rgb@[3 * k + 2] == rgba@[4 * k + 2]
                },
        decreases n - i,
    {
        let ghost before = rgb@;
        rgb.push(rgba[4 * i]);
        rgb.push(rgba[4 * i + 1]);
        rgb.push(rgba[4 * i + 2]);
        proof {
            assert forall|k: int| 0 <= k < i + 1 implies {
                &&& #[trigger] rgb@[3 * k] == rgba@[4 * k]
                &&& rgb@[3 * k + 1] == rgba@[4 * k + 1]
                &&& rgb@[3 * k + 2] == rgba@[4 * k + 2]
            } by {
                if k < i {
                    assert(rgb@[3 * k] == before[3 * k]);
                    assert(rgb@[3 * k + 1] == before[3 * k + 1]);
                    assert(rgb@[3 * k + 2] == before[3 * k + 2]);
                }
            }
        }
        i = i + 1;
    }
    rgb
}

/// The 16-bit samples of 8-bit ones, scaled to the full 16-bit range:
/// each value times 257, so 0 stays 0 and 255 becomes 65535.
pub fn widen_to_u16(bytes: &Vec<u8>) -> (wide: Vec<u16>)
    ensures
        wide@.len() == bytes@.len(),
        forall|i: int| 0 <= i < bytes@.len() ==> #[trigger] wide@[i] == bytes@[i] * 257,
{
    let mut wide: Vec<u16> = Vec::new();
    let mut i: usize = 0;
    while i < bytes.len()
        invariant
            i <= bytes@.len(),
            wide@.len() == i,
            forall|k: int| 0 <= k < i ==> #[trigger] wide@[k] == bytes@[k] * 257,
        decreases bytes@.len() - i,
    {
        wide.push(bytes[i] as u16 * 257);
        i = i + 1;
    }
    wide
}

/// The canvas of an image file's bytes, decoded in the format their
/// content shows ([`decoded_rgba8`]): one layer of the image's pixels,
/// each premultiplied once ([`imported_pixel`]), at the image's size, with
/// a full re-blend requested; the decoder's message when it fails.
pub fn canvas_from_image_bytes(data: &[u8]) -> (r: Result<Canvas, String>)
    ensures
        match decoded_rgba8(data@) {
            Ok((w, h, px)) => r matches Ok(c) && {
                &&& c.width == w
                &&& c.height == h
                &&& c.pixels@.len() == 1
                &&& c.pixels@[0].pixels@.len() == w * h
                &&& forall|i: int| 0 <= i < w * h ==> #[trigger] c.pixels@[0].pixels@[i] == imported_pixel(px, i)
                &&& c.pixels@[0].visible
                &&& c.pixels@[0].opacity == 255
                &&& c.dirty_rect@.len() == 0
            },
            Err(e) => r matches Err(m) && m@ == e,
        },
{
    match decode_image_rgba8(data) {
        Ok((w, h, px)) => Ok(canvas_from_rgba(w, h, &px)),
        Err(e) => Err(e),
    }
}

/// Pixel `i` of an imported straight-alpha RGBA image, converted to
/// premultiplied alpha.
pub open spec fn imported_pixel(d: Seq<u8>, i: int) -> Color32 {
    unmultiplied(d[4 * i], d[4 * i + 1], d[4 * i + 2], d[4 * i + 3])
}

/// A single-layer canvas of an imported image, from its decoded RGBA
/// bytes: the layer's pixels are [`imported_pixel`]s, and a full re-blend
/// is requested.
pub fn canvas_from_rgba(width: u32, height: u32, rgba: &Vec<u8>) -> (c: Canvas)
    requires
        rgba@.len() == width * height * 4,
    ensures
        c.width == width,
        c.height == height,
        c.pixels@.len() == 1,
        c.pixels@[0].pixels@.len() == width * height,
        forall|i: int| 0 <= i < width * height ==> #[trigger] c.pixels@[0].pixels@[i] == imported_pixel(rgba@, i),
        c.pixels@[0].visible,
        c.pixels@[0].opacity == 255,
        c.dirty_rect@.len() == 0,
        c.output_rgba@.len() == 0,
{
    let blen = rgba.len();
    let count = blen / 4;
    let mut pixels: Vec<Color32> = Vec::new();
    let mut i: usize = 0;
    while i < count
        invariant
            count == width * height,
            blen == rgba@.len(),
            rgba@.len() == width * height * 4,
            i <= count,
            pixels@.len() == i,
            forall|k: int| 0 <= k < i ==> #[trigger] pixels@[k] == imported_pixel(rgba@, k),
        decreases count - i,
    {
        let base = 4 * i;
        pixels.push(from_rgba_unmultiplied(rgba[base], rgba[base + 1], rgba[base + 2], rgba[base + 3]));
        i = i + 1;
    }
    let mut layer = Layer::default();
    layer.pixels = pixels;
    let mut layers: Vec<Layer> = Vec::new();
    layers.push(layer);
    let mut dirty_rect = DirtyRectList::new();
    dirty_rect.request_full_blend();
    Canvas { pixels: layers, height, width, output_rgba: Vec::new(), dirty_rect, render_next_frame: true }
}

} // verus!
