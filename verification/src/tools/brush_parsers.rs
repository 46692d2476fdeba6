//! Brush file formats: GIMP brushes (.gbr), the block structure of
//! Photoshop brushes (.abr), and the brush tips decoded from them.

use vstd::prelude::*;

use crate::document::append_decimal;
use crate::document::decimal;
use crate::pixel::from_rgba_unmultiplied;
use crate::pixel::unmultiplied;
use crate::pixel::Color32;

verus! {

/// A parsed brush tip ready for the brush library.
#[derive(Debug)]
pub struct BrushTip {
    /// Display name (file stem or ABR internal name).
    pub name: String,
    /// Premultiplied-alpha pixel data, row-major.
    pub pixels: Vec<Color32>,
    /// Width in pixels.
    pub width: u32,
    /// Height in pixels.
    pub height: u32,
    /// Spacing as a percentage (0 to 100); 25 when unknown.
    pub spacing: u8,
}

/// The big-endian 32-bit value of `d[i..i + 4]`.
pub open spec fn be32(d: Seq<u8>, i: int) -> int {
    d[i] * 16777216 + d[i + 1] * 65536 + d[i + 2] * 256 + d[i + 3]
}

/// The big-endian 16-bit value of `d[i..i + 2]`.
pub open spec fn be16(d: Seq<u8>, i: int) -> int {
    d[i] * 256 + d[i + 1]
}

/// `d[i..i + 4]` holds the four bytes `m`.
pub open spec fn quad_is(d: Seq<u8>, i: int, m: Seq<u8>) -> bool {
    d[i] == m[0] && d[i + 1] == m[1] && d[i + 2] == m[2] && d[i + 3] == m[3]
}

fn read_be32(d: &[u8], i: usize) -> (v: u32)
    requires
        i + 4 <= d@.len(),
    ensures
        v == be32(d@, i as int),
{
    (d[i] as u32) * 16777216 + (d[i + 1] as u32) * 65536 + (d[i + 2] as u32) * 256 + (d[i + 3] as u32)
}

fn read_be16(d: &[u8], i: usize) -> (v: u16)
    requires
        i + 2 <= d@.len(),
    ensures
        v == be16(d@, i as int),
{
    (d[i] as u16) * 256 + (d[i + 1] as u16)
}

fn quad_matches(d: &[u8], i: usize, m0: u8, m1: u8, m2: u8, m3: u8) -> (b: bool)
    requires
        i + 4 <= d@.len(),
    ensures
        b == quad_is(d@, i as int, seq![m0, m1, m2, m3]),
{
    d[i] == m0 && d[i + 1] == m1 && d[i + 2] == m2 && d[i + 3] == m3
}

/// "GIMP"
pub open spec fn gimp_magic() -> Seq<u8> {
    seq![71u8, 73u8, 77u8, 80u8]
}

/// "2.1 " and "2.0 ", the textual version fields of version-2 brushes.
pub open spec fn gbr_text_v21() -> Seq<u8> {
    seq![50u8, 46u8, 49u8, 32u8]
}

pub open spec fn gbr_text_v20() -> Seq<u8> {
    seq![50u8, 46u8, 48u8, 32u8]
}

/// The brush is version 2: numeric version 2, or the text "2.1 " or "2.0 ".
pub open spec fn gbr_v2(d: Seq<u8>) -> bool {
    be32(d, 4) == 2 || quad_is(d, 4, gbr_text_v21()) || quad_is(d, 4, gbr_text_v20())
}

/// Offset of the pixel data: after the 24-byte version-2 header or the
/// 20-byte version-1 header.
pub open spec fn gbr_offset(d: Seq<u8>) -> int {
    if gbr_v2(d) {
        24
    } else {
        20
    }
}

/// Spacing: the version-2 field capped at 100, else 25.
pub open spec fn gbr_spacing(d: Seq<u8>) -> u8 {
    if gbr_v2(d) {
        if be32(d, 20) < 100 {
            be32(d, 20) as u8
        } else {
            100
        }
    } else {
        25
    }
}

/// The error a GIMP brush is rejected with, checked in this order, or
/// `None` when it is well formed.
pub open spec fn gbr_error(d: Seq<u8>) -> Option<Seq<char>> {
    if d.len() < 20 {
        Some("GBR file too short"@)
    } else if !quad_is(d, 0, gimp_magic()) {
        Some("Invalid GBR magic bytes"@)
    } else if !(be32(d, 4) == 1 || gbr_v2(d)) {
        Some("Unsupported GBR version: "@ + decimal(be32(d, 4) as nat))
    } else if be32(d, 8) == 0 || be32(d, 12) == 0 {
        Some("GBR has zero dimensions"@)
    } else if be32(d, 16) != 1 && be32(d, 16) != 4 {
        Some("Unsupported GBR bpp: "@ + decimal(be32(d, 16) as nat) + " (must be 1 or 4)"@)
    } else if gbr_v2(d) && d.len() < 24 {
        Some("GBR v2 file too short for spacing field"@)
    } else if d.len() - gbr_offset(d) < be32(d, 8) * be32(d, 12) * be32(d, 16) {
        Some("GBR pixel data truncated"@)
    } else {
        None
    }
}

/// Pixel `i` of a well-formed brush: a grey level as white with that
/// alpha, or straight RGBA, both premultiplied.
pub open spec fn gbr_pixel(d: Seq<u8>, i: int) -> Color32 {
    let off = gbr_offset(d);
    if be32(d, 16) == 1 {
        unmultiplied(255, 255, 255, d[off + i])
    } else {
        unmultiplied(d[off + 4 * i], d[off + 4 * i + 1], d[off + 4 * i + 2], d[off + 4 * i + 3])
    }
}

pub proof fn lemma_be32_bound(d: Seq<u8>, i: int)
    requires
        0 <= i,
        i + 4 <= d.len(),
    ensures
        0 <= be32(d, i) <= u32::MAX,
{
}

/// `tip` holds the dimensions, spacing and pixels of the well-formed
/// GIMP brush `d`.
pub open spec fn gbr_tip(d: Seq<u8>, tip: BrushTip) -> bool {
    &&& tip.width == be32(d, 8)
    &&& tip.height == be32(d, 12)
    &&& tip.spacing == gbr_spacing(d)
    &&& tip.pixels@.len() == be32(d, 8) * be32(d, 12)
    &&& forall|i: int| 0 <= i < tip.pixels@.len() ==> #[trigger] tip.pixels@[i] == gbr_pixel(d, i)
}

/// Parse a GIMP Brush (.gbr) file: one brush tip.
///
/// Versions 1 (20-byte header) and 2 (24-byte header with a spacing
/// field) are accepted; pixels are grey (1 byte, white with that alpha)
/// or straight RGBA (4 bytes), converted to premultiplied alpha.  The
/// checks and their messages are those of [`gbr_error`].
pub fn parse_gbr(data: &[u8]) -> (r: Result<Vec<BrushTip>, String>)
    ensures
        match r {
            Err(e) => gbr_error(data@) == Some(e@),
            Ok(tips) => {
                &&& gbr_error(data@) is None
                &&& tips@.len() == 1
                &&& tips@[0].name@ == Seq::<char>::empty()
                &&& gbr_tip(data@, tips@[0])
            },
        },
{
    let ghost d = data@;
    if data.len() < 20 {
        return Err(String::from_str("GBR file too short"));
    }
    if !quad_matches(data, 0, 71, 73, 77, 80) {
        return Err(String::from_str("Invalid GBR magic bytes"));
    }
    let version_int = read_be32(data, 4);
    let is_v2 = version_int == 2 || quad_matches(data, 4, 50, 46, 49, 32) || quad_matches(data, 4, 50, 46, 48, 32);
    let is_v1 = version_int == 1;
    if !is_v1 && !is_v2 {
        let mut msg = String::from_str("Unsupported GBR version: ");
        append_decimal(&mut msg, version_int as usize);
        return Err(msg);
    }
    let width = read_be32(data, 8);
    let height = read_be32(data, 12);
    let bpp = read_be32(data, 16);
    if width == 0 || height == 0 {
        return Err(String::from_str("GBR has zero dimensions"));
    }
    if bpp != 1 && bpp != 4 {
        let mut msg = String::from_str("Unsupported GBR bpp: ");
        append_decimal(&mut msg, bpp as usize);
        msg.append(" (must be 1 or 4)");
        return Err(msg);
    }
    let spacing: u8;
    let pixel_offset: usize;
    if is_v2 {
        if data.len() < 24 {
            return Err(String::from_str("GBR v2 file too short for spacing field"));
        }
        let spacing_val = read_be32(data, 20);
        spacing = if spacing_val < 100 { spacing_val as u8 } else { 100 };
        pixel_offset = 24;
    } else {
        spacing = 25;
        pixel_offset = 20;
    }
    proof {
        assert(width * height * bpp <= 0xffff_ffff * 0xffff_ffff * 4) by (nonlinear_arith)
            requires
                width <= 0xffff_ffff,
                height <= 0xffff_ffff,
                bpp <= 4,
        ;
        assert((width as u128) * (height as u128) <= 0xffff_ffff * 0xffff_ffff) by (nonlinear_arith)
            requires
                width <= 0xffff_ffff,
                height <= 0xffff_ffff,
        ;
    }
    let expected_bytes: u128 = (width as u128) * (height as u128) * (bpp as u128);
    if ((data.len() - pixel_offset) as u128) < expected_bytes {
        return Err(String::from_str("GBR pixel data truncated"));
    }
    proof {
        assert(width * height <= width * height * bpp) by (nonlinear_arith)
            requires
                bpp >= 1,
                width >= 0,
                height >= 0,
        ;
        assert(width * height * bpp <= data.len());
    }
    let expected_pixels = (width as usize) * (height as usize);
    let dlen = data.len();
    let mut pixels: Vec<Color32> = Vec::new();
    let mut i: usize = 0;
    while i < expected_pixels
        invariant
            d == data@,
            dlen == d.len(),
            gbr_error(d) is None,
            pixel_offset == gbr_offset(d),
            bpp == be32(d, 16),
            bpp == 1 || bpp == 4,
            expected_pixels == width * height,
            pixel_offset + expected_pixels * bpp <= d.len(),
            i <= expected_pixels,
            pixels@.len() == i,
            forall|k: int| 0 <= k < i ==> #[trigger] pixels@[k] == gbr_pixel(d, k),
        decreases expected_pixels - i,
    {
        if bpp == 1 {
            proof {
                assert(expected_pixels * bpp == expected_pixels) by (nonlinear_arith)
                    requires
                        bpp == 1,
                ;
            }
            let gray = data[pixel_offset + i];
            pixels.push(from_rgba_unmultiplied(255, 255, 255, gray));
        } else {
            proof {
                assert(4 * i + 4 <= expected_pixels * bpp) by (nonlinear_arith)
                    requires
                        i < expected_pixels,
                        bpp == 4,
                ;
            }
            let base = pixel_offset + 4 * i;
            pixels.push(from_rgba_unmultiplied(data[base], data[base + 1], data[base + 2], data[base + 3]));
        }
        i = i + 1;
    }
    let mut tips: Vec<BrushTip> = Vec::new();
    tips.push(BrushTip { name: String::new(), pixels, width, height, spacing });
    Ok(tips)
}

/// "8BPB", the signature of a Photoshop brush file.
pub open spec fn abr_magic() -> Seq<u8> {
    seq![56u8, 66u8, 80u8, 66u8]
}

/// "8BIM", the signature of a Photoshop brush subblock.
pub open spec fn block_sig() -> Seq<u8> {
    seq![56u8, 66u8, 73u8, 77u8]
}

/// At most this many subblocks are examined.
pub const ABR_MAX_SUBBLOCKS: usize = 1000;

/// The kind of brush a Photoshop brush subblock holds.
#[derive(Clone, Copy, Debug, PartialEq, Eq, Structural)]
pub enum AbrBlockKind {
    /// An embedded image (subblock type 1).
    Sampled,
    /// A parametric shape (subblock type 2).
    Computed,
}

/// A subblock of a Photoshop brush file that holds a brush: its kind and
/// where its payload lies in the file.
#[derive(Clone, Copy, Debug, PartialEq, Eq, Structural)]
pub struct AbrBlock {
    pub kind: AbrBlockKind,
    /// Offset of the payload, just after the 14-byte subblock header.
    pub payload_start: u64,
    /// Size of the payload as the header gives it.
    pub size: u64,
}

/// Size of the file header for a given version.
pub open spec fn abr_header_size(version: int) -> int {
    if version >= 8 {
        16
    } else {
        14
    }
}

/// The error a Photoshop brush file is rejected with before its
/// subblocks are examined, or `None`.
pub open spec fn abr_header_error(d: Seq<u8>) -> Option<Seq<char>> {
    if d.len() < 14 {
        Some("ABR file too short"@)
    } else if !quad_is(d, 0, abr_magic()) {
        Some("Invalid ABR magic bytes"@)
    } else if !(6 <= be16(d, 4) <= 10) {
        Some("Unsupported ABR version: "@ + decimal(be16(d, 4) as nat) + " (only 6\u{2013}10 supported)"@)
    } else if abr_header_size(be16(d, 4)) >= d.len() {
        Some("ABR header extends beyond file"@)
    } else {
        None
    }
}

/// The brush subblocks from `offset` on, the `count`-th subblock being at
/// `offset`: each 14-byte header holds a signature, a 16-bit type and a
/// 32-bit payload size, and the next subblock follows the payload padded
/// to even length.  Signed subblocks of type 1 or 2 with a payload are
/// kept.  The scan stops when a header would pass the end of the file or
/// after [`ABR_MAX_SUBBLOCKS`] subblocks.
pub open spec fn abr_scan(d: Seq<u8>, offset: int, count: int) -> Seq<AbrBlock>
    decreases 1000 - count,
{
    if offset + 14 > d.len() || count >= 1000 || count < 0 || offset < 0 {
        Seq::empty()
    } else {
        let ty = be16(d, offset + 4);
        let size = be32(d, offset + 6);
        let rest = abr_scan(d, offset + 14 + size + size % 2, count + 1);
        if quad_is(d, offset, block_sig()) && size > 0 && (ty == 1 || ty == 2) {
            seq![
                AbrBlock {
                    kind: if ty == 1 {
                        AbrBlockKind::Sampled
                    } else {
                        AbrBlockKind::Computed
                    },
                    payload_start: (offset + 14) as u64,
                    size: size as u64,
                },
            ] + rest
        } else {
            rest
        }
    }
}

/// Check a Photoshop brush (.abr) file's header and list its brush
/// subblocks, with the file's version.
///
/// Versions 6 to 10 are accepted; the header is 16 bytes from version 8
/// on, 14 before.  Errors are those of [`abr_header_error`]; the blocks
/// are those of [`abr_scan`].
pub fn abr_blocks(data: &[u8]) -> (r: Result<(u16, Vec<AbrBlock>), String>)
    ensures
        match r {
            Err(e) => abr_header_error(data@) == Some(e@),
            Ok((version, blocks)) => {
                &&& abr_header_error(data@) is None
                &&& version == be16(data@, 4)
                &&& blocks@ == abr_scan(data@, abr_header_size(version as int), 0)
            },
        },
{
    let ghost d = data@;
    if data.len() < 14 {
        return Err(String::from_str("ABR file too short"));
    }
    if !quad_matches(data, 0, 56, 66, 80, 66) {
        return Err(String::from_str("Invalid ABR magic bytes"));
    }
    let version = read_be16(data, 4);
    if !(6 <= version && version <= 10) {
        let mut msg = String::from_str("Unsupported ABR version: ");
        append_decimal(&mut msg, version as usize);
        msg.append(" (only 6\u{2013}10 supported)");
        return Err(msg);
    }
    let header_size: u128 = if version >= 8 { 16 } else { 14 };
    let dlen = data.len();
    let len = dlen as u128;
    if header_size >= len {
        return Err(String::from_str("ABR header extends beyond file"));
    }
    let mut blocks: Vec<AbrBlock> = Vec::new();
    let mut offset: u128 = header_size;
    let mut scan_count: usize = 0;
    proof {
        assert(blocks@ + abr_scan(d, offset as int, 0) =~= abr_scan(d, offset as int, 0));
    }
    loop
        invariant
            d == data@,
            len == d.len(),
            dlen == d.len(),
            scan_count <= ABR_MAX_SUBBLOCKS,
            offset <= len + scan_count * 0x2_0000_0000,
            blocks@ + abr_scan(d, offset as int, scan_count as int) == abr_scan(d, header_size as int, 0),
            header_size == abr_header_size(version as int),
        ensures
            blocks@ == abr_scan(d, header_size as int, 0),
        decreases ABR_MAX_SUBBLOCKS - scan_count,
    {
        if scan_count >= ABR_MAX_SUBBLOCKS || offset > len || len - offset < 14 {
            proof {
                assert(abr_scan(d, offset as int, scan_count as int) == Seq::<AbrBlock>::empty());
                assert(blocks@ + Seq::<AbrBlock>::empty() =~= blocks@);
            }
            break;
        }
        assert(offset + 14 <= data@.len());
        let at = offset as usize;
        let is_sig = quad_matches(data, at, 56, 66, 73, 77);
        let block_type = read_be16(data, at + 4);
        let block_size = read_be32(data, at + 6) as u128;
        let ghost rest = abr_scan(d, (offset + 14 + block_size + block_size % 2) as int, scan_count + 1);
        if is_sig && block_size > 0 && (block_type == 1 || block_type == 2) {
            let kind = if block_type == 1 { AbrBlockKind::Sampled } else { AbrBlockKind::Computed };
            let ghost before = blocks@;
            blocks.push(AbrBlock { kind, payload_start: (offset + 14) as u64, size: block_size as u64 });
            proof {
                assert(blocks@ + rest =~= before + (seq![blocks@.last()] + rest));
            }
        }
        offset = offset + 14 + block_size + block_size % 2;
        scan_count = scan_count + 1;
    }
    assert(abr_header_error(d) is None);
    assert(blocks@ == abr_scan(d, abr_header_size(version as int), 0));
    Ok((version, blocks))
}

/// The tips collected from a Photoshop brush file, or an error when there
/// are none.
pub fn finish_abr(tips: Vec<BrushTip>) -> (r: Result<Vec<BrushTip>, String>)
    ensures
        match r {
            Err(e) => tips@.len() == 0 && e@ == "No usable brush tips found in ABR file"@,
            Ok(t) => tips@.len() > 0 && t@ == tips@,
        },
{
    if tips.len() == 0 {
        Err(String::from_str("No usable brush tips found in ABR file"))
    } else {
        Ok(tips)
    }
}

/// The parameters of a computed (parametric) Photoshop brush.
#[derive(Clone, Copy, Debug, PartialEq, Eq, Structural)]
pub struct ComputedParams {
    /// Diameter in pixels, at least 1.
    pub diameter: u32,
    /// Hardness, 0 to 16383 for 0 to 100%.
    pub hardness: u16,
    /// Roundness, 0 to 16383 for 0 to 100%.
    pub roundness: u16,
    /// Angle in degrees, below 360.
    pub angle: u16,
    /// Spacing as a percentage, 1 to 100.
    pub spacing: u16,
    /// Shape: 0 round, 1 square, 2 diamond, 3 capped round.
    pub shape: u16,
}

/// The parameters before any tag is read.
pub open spec fn default_computed() -> ComputedParams {
    ComputedParams { diameter: 64, hardness: 16383, roundness: 16383, angle: 0, spacing: 25, shape: 0 }
}

pub open spec fn tag_diam() -> Seq<u8> {
    seq![100u8, 105u8, 97u8, 109u8]
}

pub open spec fn tag_hrad() -> Seq<u8> {
    seq![104u8, 114u8, 97u8, 100u8]
}

pub open spec fn tag_rond() -> Seq<u8> {
    seq![114u8, 111u8, 110u8, 100u8]
}

pub open spec fn tag_angl() -> Seq<u8> {
    seq![97u8, 110u8, 103u8, 108u8]
}

pub open spec fn tag_spac() -> Seq<u8> {
    seq![115u8, 112u8, 97u8, 99u8]
}

pub open spec fn tag_shpe() -> Seq<u8> {
    seq![115u8, 104u8, 112u8, 101u8]
}

/// `p` with the tag at `at` holding 16-bit value `val` applied.
pub open spec fn apply_tag(p: ComputedParams, d: Seq<u8>, at: int, val: int) -> ComputedParams {
    if quad_is(d, at, tag_diam()) {
        ComputedParams { diameter: if val < 1 { 1 } else { val as u32 }, ..p }
    } else if quad_is(d, at, tag_hrad()) {
        ComputedParams { hardness: if val < 16383 { val as u16 } else { 16383 }, ..p }
    } else if quad_is(d, at, tag_rond()) {
        ComputedParams { roundness: if val < 16383 { val as u16 } else { 16383 }, ..p }
    } else if quad_is(d, at, tag_angl()) {
        ComputedParams { angle: (val % 360) as u16, ..p }
    } else if quad_is(d, at, tag_spac()) {
        ComputedParams { spacing: if val < 1 { 1 } else if val < 100 { val as u16 } else { 100 }, ..p }
    } else if quad_is(d, at, tag_shpe()) {
        ComputedParams { shape: if val < 3 { val as u16 } else { 3 }, ..p }
    } else {
        p
    }
}

/// The parameters after reading the tags from `offset` on: each tag is a
/// 4-byte name, a 32-bit length and a payload padded to even length; a
/// tag whose payload holds at least 2 bytes sets its parameter from the
/// payload's first 16-bit value.  Reading stops at a tag whose payload
/// would pass the end of the data.
pub open spec fn computed_from(d: Seq<u8>, offset: int, p: ComputedParams) -> ComputedParams
    decreases d.len() - offset,
{
    if offset < 0 || offset + 8 > d.len() {
        p
    } else {
        proof {
            lemma_be32_bound(d, offset + 4);
        }
        let tag_len = be32(d, offset + 4);
        let inner = offset + 8;
        if inner + tag_len > d.len() {
            p
        } else {
            let next = inner + tag_len + tag_len % 2;
            let q = if tag_len < 2 {
                p
            } else {
                apply_tag(p, d, offset, be16(d, inner))
            };
            if next + 8 > d.len() {
                q
            } else {
                computed_from(d, next, q)
            }
        }
    }
}

/// The pixels of a GIMP brush keep the file's alpha.  A grey brush (one
/// byte per pixel) is white with that alpha: a 255 byte is opaque white,
/// a 0 byte transparent.  An RGBA brush stores red, green, blue, alpha in
/// that order, and an opaque RGBA pixel comes out as stored.
pub proof fn law_gbr_pixel_channels(d: Seq<u8>, i: int)
    ensures
        ({
            let off = gbr_offset(d);
            let px = gbr_pixel(d, i);
            &&& be32(d, 16) == 1 ==> {
                &&& px.a == d[off + i]
                &&& d[off + i] == 255 ==> px == (Color32 { r: 255, g: 255, b: 255, a: 255 })
                &&& d[off + i] == 0 ==> px == (Color32 { r: 0, g: 0, b: 0, a: 0 })
            }
            &&& be32(d, 16) != 1 ==> {
                &&& px.a == d[off + 4 * i + 3]
                &&& d[off + 4 * i + 3] == 255 ==> px == (Color32 {
                    r: d[off + 4 * i],
                    g: d[off + 4 * i + 1],
                    b: d[off + 4 * i + 2],
                    a: 255,
                })
            }
        }),
{
}

/// Raw Photoshop pixels are stored blue, green, red, alpha: the alpha is
/// kept, and an opaque pixel comes out with its red and blue bytes
/// swapped back into place.
pub proof fn law_bgra_pixel_channels(d: Seq<u8>, i: int)
    ensures
        bgra_pixel(d, i).a == d[4 * i + 3],
        d[4 * i + 3] == 255 ==> bgra_pixel(d, i) == (Color32 { r: d[4 * i + 2], g: d[4 * i + 1], b: d[4 * i], a: 255 }),
{
}

/// A payload that holds one tag `name` with a 2-byte payload `hi, lo`.
pub open spec fn single_tag(name: Seq<u8>, hi: u8, lo: u8) -> Seq<u8> {
    name + seq![0u8, 0u8, 0u8, 2u8, hi, lo]
}

/// A payload of one tag gives the defaults with that tag applied.
proof fn lemma_single_tag(name: Seq<u8>, hi: u8, lo: u8)
    requires
        name.len() == 4,
    ensures
        computed_from(single_tag(name, hi, lo), 0, default_computed()) == apply_tag(
            default_computed(),
            single_tag(name, hi, lo),
            0,
            hi * 256 + lo,
        ),
{
    let d = single_tag(name, hi, lo);
    assert(d.len() == 10);
    assert(d[4] == 0u8 && d[5] == 0u8 && d[6] == 0u8 && d[7] == 2u8 && d[8] == hi && d[9] == lo);
    assert(be32(d, 4) == 2);
    assert(be16(d, 8) == hi * 256 + lo);
}

/// A computed brush payload holding a single tag with the 16-bit value
/// `v = hi * 256 + lo` sets that tag's parameter and keeps the defaults
/// (diameter 64, hardness and roundness 16383, angle 0, spacing 25, shape
/// 0) for the others: `hrad` sets the hardness to `v` up to 16383, `rond`
/// the roundness to `v` up to 16383, `diam` the diameter to `v` but at
/// least 1, `angl` the angle to `v` modulo 360, `spac` the spacing to `v`
/// kept within 1 to 100, `shpe` the shape to `v` up to 3.
pub proof fn law_single_tag_sets_its_parameter(hi: u8, lo: u8)
    ensures
        ({
            let v = hi * 256 + lo;
            let d = default_computed();
            &&& computed_from(single_tag(tag_hrad(), hi, lo), 0, d) == (ComputedParams {
                hardness: if v <= 16383 { v as u16 } else { 16383u16 },
                ..d
            })
            &&& computed_from(single_tag(tag_rond(), hi, lo), 0, d) == (ComputedParams {
                roundness: if v <= 16383 { v as u16 } else { 16383u16 },
                ..d
            })
            &&& computed_from(single_tag(tag_diam(), hi, lo), 0, d) == (ComputedParams {
                diameter: if v >= 1 { v as u32 } else { 1u32 },
                ..d
            })
            &&& computed_from(single_tag(tag_angl(), hi, lo), 0, d) == (ComputedParams {
                angle: (v % 360) as u16,
                ..d
            })
            &&& computed_from(single_tag(tag_spac(), hi, lo), 0, d) == (ComputedParams {
                spacing: if v > 100 { 100u16 } else if v >= 1 { v as u16 } else { 1u16 },
                ..d
            })
            &&& computed_from(single_tag(tag_shpe(), hi, lo), 0, d) == (ComputedParams {
                shape: if v <= 3 { v as u16 } else { 3u16 },
                ..d
            })
        }),
{
    lemma_single_tag(tag_hrad(), hi, lo);
    lemma_single_tag(tag_rond(), hi, lo);
    lemma_single_tag(tag_diam(), hi, lo);
    lemma_single_tag(tag_angl(), hi, lo);
    lemma_single_tag(tag_spac(), hi, lo);
    lemma_single_tag(tag_shpe(), hi, lo);
}

/// Read the parameters of a computed brush from its subblock payload.
pub fn parse_computed_params(data: &[u8]) -> (p: ComputedParams)
    ensures
        p == computed_from(data@, 0, default_computed()),
{
    let ghost d = data@;
    let mut p = ComputedParams {
        diameter: 64,
        hardness: 16383,
        roundness: 16383,
        angle: 0,
        spacing: 25,
        shape: 0,
    };
    let dlen = data.len();
    let len = dlen as u128;
    let mut offset: u128 = 0;
    while offset + 8 <= len
        invariant
            d == data@,
            len == d.len(),
            dlen == d.len(),
            offset <= len + 0x2_0000_0000,
            computed_from(d, offset as int, p) == computed_from(d, 0, default_computed()),
        ensures
            p == computed_from(d, 0, default_computed()),
        decreases len + 0x2_0000_0000 - offset,
    {
        proof {
            lemma_be32_bound(d, offset + 4);
        }
        let at = offset as usize;
        let tag_len = read_be32(data, at + 4) as u128;
        let inner = offset + 8;
        if inner + tag_len > len {
            break;
        }
        let ghost p0 = p;
        if tag_len >= 2 {
            let val = read_be16(data, inner as usize);
            if quad_matches(data, at, 100, 105, 97, 109) {
                p.diameter = if val < 1 { 1 } else { val as u32 };
            } else if quad_matches(data, at, 104, 114, 97, 100) {
                p.hardness = if val < 16383 { val } else { 16383 };
            } else if quad_matches(data, at, 114, 111, 110, 100) {
                p.roundness = if val < 16383 { val } else { 16383 };
            } else if quad_matches(data, at, 97, 110, 103, 108) {
                p.angle = val % 360;
            } else if quad_matches(data, at, 115, 112, 97, 99) {
                p.spacing = if val > 100 { 100 } else if val < 1 { 1 } else { val };
            } else if quad_matches(data, at, 115, 104, 112, 101) {
                p.shape = if val < 3 { val } else { 3 };
            }
        }
        proof {
            assert(p == if tag_len < 2 {
                p0
            } else {
                apply_tag(p0, d, offset as int, be16(d, inner as int))
            });
        }
        offset = inner + tag_len + tag_len % 2;
    }
    p
}

/// The payload ranges, relative to a sampled subblock's payload, that may
/// hold its embedded image, in the order they are tried, from `offset` on:
/// an extended tag ("8BIM", a 4-byte type and a 32-bit length) or a simple
/// tag (4-byte name and 32-bit length) each offer their payload when it
/// lies within the block and the data; payloads are padded to even length.
pub open spec fn sampled_ranges(d: Seq<u8>, block_size: int, offset: int) -> Seq<(u64, u64)>
    decreases block_size - offset,
{
    if offset < 0 || offset + 8 > block_size || offset + 8 > d.len() {
        Seq::empty()
    } else if quad_is(d, offset, block_sig()) && offset + 12 <= block_size && offset + 12 <= d.len() {
        proof {
            lemma_be32_bound(d, offset + 8);
        }
        let ext_len = be32(d, offset + 8);
        let start = offset + 12;
        let next = start + ext_len + ext_len % 2;
        let rest = if next + 8 > block_size {
            Seq::empty()
        } else {
            sampled_ranges(d, block_size, next)
        };
        if start + ext_len <= block_size && start + ext_len <= d.len() {
            seq![(start as u64, ext_len as u64)] + rest
        } else {
            rest
        }
    } else {
        proof {
            lemma_be32_bound(d, offset + 4);
        }
        let tag_len = be32(d, offset + 4);
        let start = offset + 8;
        let next = start + tag_len + tag_len % 2;
        let rest = if next + 8 > block_size {
            Seq::empty()
        } else {
            sampled_ranges(d, block_size, next)
        };
        if start + tag_len <= block_size && start + tag_len <= d.len() {
            seq![(start as u64, tag_len as u64)] + rest
        } else {
            rest
        }
    }
}

/// The candidate image ranges of a sampled subblock's payload
/// ([`sampled_ranges`]), or `None` when the payload is shorter than the
/// block size.
pub fn sampled_candidates(data: &[u8], block_size: u64) -> (r: Option<Vec<(u64, u64)>>)
    ensures
        match r {
            None => data@.len() < block_size,
            Some(v) => data@.len() >= block_size && v@ == sampled_ranges(data@, block_size as int, 0),
        },
{
    let ghost d = data@;
    let dlen = data.len();
    let len = dlen as u128;
    let bs = block_size as u128;
    if len < bs {
        return None;
    }
    let mut out: Vec<(u64, u64)> = Vec::new();
    let mut offset: u128 = 0;
    proof {
        assert(out@ + sampled_ranges(d, bs as int, 0) =~= sampled_ranges(d, bs as int, 0));
    }
    while offset + 8 <= bs
        invariant
            d == data@,
            len == d.len(),
            bs == block_size,
            bs <= len,
            dlen == d.len(),
            out@ + sampled_ranges(d, bs as int, offset as int) == sampled_ranges(d, bs as int, 0),
            offset <= bs + 0x2_0000_0000,
        ensures
            out@ == sampled_ranges(d, bs as int, 0),
        decreases bs + 0x2_0000_0000 - offset,
    {
        if offset + 8 > len {
            assert(out@ + Seq::<(u64, u64)>::empty() =~= out@);
            break;
        }
        let at = offset as usize;
        let ghost before = out@;
        if quad_matches(data, at, 56, 66, 73, 77) && offset + 12 <= bs && offset + 12 <= len {
            let ext_len = read_be32(data, at + 8) as u128;
            let start = offset + 12;
            let ghost rest = sampled_ranges(d, bs as int, (start + ext_len + ext_len % 2) as int);
            if start + ext_len <= bs && start + ext_len <= len {
                out.push((start as u64, ext_len as u64));
                proof {
                    assert(out@ + rest =~= before + (seq![(start as u64, ext_len as u64)] + rest));
                }
            }
            offset = start + ext_len + ext_len % 2;
        } else {
            let tag_len = read_be32(data, at + 4) as u128;
            let start = offset + 8;
            let ghost rest = sampled_ranges(d, bs as int, (start + tag_len + tag_len % 2) as int);
            if start + tag_len <= bs && start + tag_len <= len {
                out.push((start as u64, tag_len as u64));
                proof {
                    assert(out@ + rest =~= before + (seq![(start as u64, tag_len as u64)] + rest));
                }
            }
            offset = start + tag_len + tag_len % 2;
        }
    }
    Some(out)
}

/// PNG's 8-byte signature.
pub open spec fn png_signature() -> Seq<u8> {
    seq![137u8, 80u8, 78u8, 71u8, 13u8, 10u8, 26u8, 10u8]
}

/// The data is longer than 8 bytes and starts with the PNG signature.
pub fn has_png_signature(data: &[u8]) -> (b: bool)
    ensures
        b == (data@.len() > 8 && data@.subrange(0, 8) == png_signature()),
{
    if data.len() <= 8 {
        return false;
    }
    let b = data[0] == 137 && data[1] == 80 && data[2] == 78 && data[3] == 71 && data[4] == 13 && data[5]
        == 10 && data[6] == 26 && data[7] == 10;
    proof {
        if b {
            assert(data@.subrange(0, 8) =~= png_signature());
        } else {
            if data@.subrange(0, 8) == png_signature() {
                assert(data@.subrange(0, 8)[0] == data@[0]);
                assert(data@.subrange(0, 8)[1] == data@[1]);
                assert(data@.subrange(0, 8)[2] == data@[2]);
                assert(data@.subrange(0, 8)[3] == data@[3]);
                assert(data@.subrange(0, 8)[4] == data@[4]);
                assert(data@.subrange(0, 8)[5] == data@[5]);
                assert(data@.subrange(0, 8)[6] == data@[6]);
                assert(data@.subrange(0, 8)[7] == data@[7]);
            }
        }
    }
    b
}

/// A raw image of `byte_count` bytes is plausible: whole 4-byte pixels, at
/// least 4 of them and at most 256 x 256.
pub fn is_raw_image_size_plausible(byte_count: usize) -> (b: bool)
    ensures
        b == (byte_count % 4 == 0 && byte_count >= 16 && byte_count <= 256 * 256 * 4),
{
    byte_count % 4 == 0 && byte_count >= 16 && byte_count <= 256 * 256 * 4
}

/// The names of the tips of one brush file: the file stem for a single
/// tip, otherwise the stem, an underscore and the tip's index.
pub open spec fn tip_name(stem: Seq<char>, count: nat, i: nat) -> Seq<char> {
    if count == 1 {
        stem
    } else {
        stem + seq!['_'] + decimal(i)
    }
}

/// Name the tips parsed from one brush file after its stem (see
/// [`tip_name`]), keeping everything else.
pub fn name_tips(tips: &mut Vec<BrushTip>, stem: &str)
    ensures
        final(tips)@.len() == old(tips)@.len(),
        forall|i: int|
            0 <= i < old(tips)@.len() ==> {
                &&& (#[trigger] final(tips)@[i]).name@ == tip_name(stem@, old(tips)@.len(), i as nat)
                &&& final(tips)@[i].pixels == old(tips)@[i].pixels
                &&& final(tips)@[i].width == old(tips)@[i].width
                &&& final(tips)@[i].height == old(tips)@[i].height
                &&& final(tips)@[i].spacing == old(tips)@[i].spacing
            },
{
    let ghost start = tips@;
    let n = tips.len();
    let mut i: usize = 0;
    while i < n
        invariant
            n == start.len(),
            tips@.len() == n,
            i <= n,
            forall|k: int|
                0 <= k < n ==> {
                    &&& (#[trigger] tips@[k]).name@ == if k < i {
                        tip_name(stem@, n as nat, k as nat)
                    } else {
                        start[k].name@
                    }
                    &&& tips@[k].pixels == start[k].pixels
                    &&& tips@[k].width == start[k].width
                    &&& tips@[k].height == start[k].height
                    &&& tips@[k].spacing == start[k].spacing
                },
        decreases n - i,
    {
        let mut name = String::from_str(stem);
        if n != 1 {
            name.append("_");
            proof {
                reveal_strlit("_");
            }
            append_decimal(&mut name, i);
        }
        let ghost name_view = name@;
        tips[i].name = name;
        proof {
            assert(tips@[i as int].name@ == name_view);
        }
        i = i + 1;
    }
}

/// What `image::load_from_memory` decodes from `bytes`, as an RGBA8
/// buffer: width, height and row-major RGBA bytes, or the error's message.
pub uninterp spec fn decoded_rgba8(bytes: Seq<u8>) -> Result<(u32, u32, Seq<u8>), Seq<char>>;

/// `image::load_from_memory` followed by `DynamicImage::to_rgba8`: decode
/// an image in a format guessed from its bytes and convert it to 8-bit
/// RGBA.  The result is named [`decoded_rgba8`]; an RGBA8 buffer holds 4
/// bytes per pixel, so its length is `width * height * 4`.
#[verifier::external_body]
pub(crate) fn decode_image_rgba8(data: &[u8]) -> (r: Result<(u32, u32, Vec<u8>), String>)
    ensures
        match r {
            Ok((w, h, px)) => {
                &&& decoded_rgba8(data@) == Ok::<(u32, u32, Seq<u8>), Seq<char>>((w, h, px@))
                &&& px@.len() == w * h * 4
            },
            Err(e) => decoded_rgba8(data@) == Err::<(u32, u32, Seq<u8>), Seq<char>>(e@),
        },
{
    match image::load_from_memory(data) {
        Ok(img) => {
            let rgba = img.to_rgba8();
            let (w, h) = rgba.dimensions();
            Ok((w, h, rgba.into_raw()))
        },
        Err(e) => Err(format!("{e}")),
    }
}

/// A brush tip from decoded straight-alpha RGBA bytes: each pixel
/// converted to premultiplied alpha, spacing 25, no name.
pub fn tip_from_rgba8(w: u32, h: u32, bytes: &Vec<u8>) -> (tip: BrushTip)
    requires
        bytes@.len() == w * h * 4,
    ensures
        tip.width == w,
        tip.height == h,
        tip.spacing == 25,
        tip.name@ == Seq::<char>::empty(),
        tip.pixels@.len() == w * h,
        forall|i: int|
            0 <= i < w * h ==> #[trigger] tip.pixels@[i] == unmultiplied(
                bytes@[4 * i],
                bytes@[4 * i + 1],
                bytes@[4 * i + 2],
                bytes@[4 * i + 3],
            ),
{
    let blen = bytes.len();
    let count = blen / 4;
    let mut pixels: Vec<Color32> = Vec::new();
    let mut i: usize = 0;
    while i < count
        invariant
            count == w * h,
            blen == bytes@.len(),
            bytes@.len() == w * h * 4,
            i <= count,
            pixels@.len() == i,
            forall|k: int|
                0 <= k < i ==> #[trigger] pixels@[k] == unmultiplied(
                    bytes@[4 * k],
                    bytes@[4 * k + 1],
                    bytes@[4 * k + 2],
                    bytes@[4 * k + 3],
                ),
        decreases count - i,
    {
        let base = 4 * i;
        pixels.push(from_rgba_unmultiplied(bytes[base], bytes[base + 1], bytes[base + 2], bytes[base + 3]));
        i = i + 1;
    }
    BrushTip { name: String::new(), pixels, width: w, height: h, spacing: 25 }
}

/// Decode an embedded PNG (or any image format the decoder recognises)
/// into a brush tip: the decoded RGBA pixels converted to premultiplied
/// alpha, spacing 25, no name.  A decoding failure gives "PNG decode
/// failed: " and the decoder's message.
pub fn decode_png_image(data: &[u8]) -> (r: Result<BrushTip, String>)
    ensures
        match decoded_rgba8(data@) {
            Ok((w, h, bytes)) => r matches Ok(tip) && {
                &&& tip.width == w
                &&& tip.height == h
                &&& tip.spacing == 25
                &&& tip.name@ == Seq::<char>::empty()
                &&& tip.pixels@.len() == w * h
                &&& forall|i: int|
                    0 <= i < w * h ==> #[trigger] tip.pixels@[i] == unmultiplied(
                        bytes[4 * i],
                        bytes[4 * i + 1],
                        bytes[4 * i + 2],
                        bytes[4 * i + 3],
                    )
            },
            Err(msg) => r matches Err(e) && e@ == "PNG decode failed: "@ + msg,
        },
{
    match decode_image_rgba8(data) {
        Err(msg) => {
            let mut e = String::from_str("PNG decode failed: ");
            e.append(msg.as_str());
            Err(e)
        },
        Ok((w, h, bytes)) => Ok(tip_from_rgba8(w, h, &bytes)),
    }
}

/// `k` is the integer nearest to the square root of `n`:
/// `(k - 1/2)^2 <= n < (k + 1/2)^2`.
pub open spec fn is_round_sqrt(n: int, k: int) -> bool {
    4 * (k * k) - 4 * k + 1 <= 4 * n < 4 * (k * k) + 4 * k + 1
}

/// The dimensions guessed for a raw image of `count` pixels: `w` the
/// rounded square root and `h` the rounded-up quotient when `w * h` is
/// exactly `count`, otherwise one row of `count` pixels.
pub open spec fn raw_dims_ok(count: int, w: int, h: int) -> bool {
    exists|k: int|
        #![trigger is_round_sqrt(count, k)]
        k >= 1 && is_round_sqrt(count, k) && if k * ((count + k - 1) / k) == count {
            w == k && h == (count + k - 1) / k
        } else {
            w == count && h == 1
        }
}

/// The dimensions of a raw image of `count` pixels (see [`raw_dims_ok`]).
fn raw_dims(count: usize) -> (r: (u32, u32))
    requires
        4 <= count <= 65536,
    ensures
        raw_dims_ok(count as int, r.0 as int, r.1 as int),
{
    let c = count as u64;
    let k = crate::tools::circle_brush::isqrt_u64(c);
    proof {
        assert(k <= 256) by (nonlinear_arith)
            requires
                k * k <= c,
                c <= 65536,
        ;
    }
    let w: u64 = if c > k * k + k { k + 1 } else { k };
    proof {
        if c > k * k + k {
            assert(w * w == k * k + 2 * k + 1) by (nonlinear_arith)
                requires
                    w == k + 1,
            ;
            assert((k + 1) * (k + 1) == k * k + 2 * k + 1) by (nonlinear_arith);
            assert(is_round_sqrt(c as int, w as int));
        } else {
            assert(is_round_sqrt(c as int, w as int)) by (nonlinear_arith)
                requires
                    k * k <= c <= k * k + k,
                    w == k,
                    c >= 4,
                    k >= 0,
            ;
        }
        assert(w >= 1) by (nonlinear_arith)
            requires
                k * k <= c < (k + 1) * (k + 1),
                c >= 4,
                w >= k,
        ;
    }
    let h: u64 = (c + w - 1) / w;
    proof {
        assert(h <= c) by (nonlinear_arith)
            requires
                h as int == (c + w - 1) as int / (w as int),
                w >= 1,
                c >= 1,
        ;
        assert(w * h <= 65536 * 65536) by (nonlinear_arith)
            requires
                w <= 257,
                h <= c,
                c <= 65536,
        ;
    }
    if w * h == c {
        (w as u32, h as u32)
    } else {
        (c as u32, 1)
    }
}

/// Pixel `i` of raw BGRA data: straight-alpha blue, green, red, alpha,
/// premultiplied.
pub open spec fn bgra_pixel(d: Seq<u8>, i: int) -> Color32 {
    unmultiplied(d[4 * i + 2], d[4 * i + 1], d[4 * i], d[4 * i + 3])
}

/// A brush tip from raw BGRA pixels (Photoshop's native byte order),
/// with dimensions guessed by [`raw_dims_ok`] and spacing 25.
pub fn decode_raw_bgra(data: &[u8]) -> (tip: BrushTip)
    requires
        data@.len() % 4 == 0,
        16 <= data@.len() <= 256 * 256 * 4,
    ensures
        raw_dims_ok((data@.len() / 4) as int, tip.width as int, tip.height as int),
        tip.spacing == 25,
        tip.name@ == Seq::<char>::empty(),
        tip.pixels@.len() == data@.len() / 4,
        forall|i: int| 0 <= i < data@.len() / 4 ==> #[trigger] tip.pixels@[i] == bgra_pixel(data@, i),
{
    let count = data.len() / 4;
    let (w, h) = raw_dims(count);
    let mut pixels: Vec<Color32> = Vec::new();
    let mut i: usize = 0;
    while i < count
        invariant
            count == data@.len() / 4,
            data@.len() % 4 == 0,
            data@.len() <= 256 * 256 * 4,
            i <= count,
            pixels@.len() == i,
            forall|k: int| 0 <= k < i ==> #[trigger] pixels@[k] == bgra_pixel(data@, k),
        decreases count - i,
    {
        let base = 4 * i;
        pixels.push(from_rgba_unmultiplied(data[base + 2], data[base + 1], data[base], data[base + 3]));
        i = i + 1;
    }
    BrushTip { name: String::new(), pixels, width: w, height: h, spacing: 25 }
}

/// Embedded image bytes decode to a tip: a PNG the decoder accepts, or
/// (without the PNG signature) a plausible raw BGRA buffer.
pub open spec fn embedded_decodes(b: Seq<u8>) -> bool {
    if b.len() > 8 && b.subrange(0, 8) == png_signature() {
        decoded_rgba8(b) is Ok
    } else {
        b.len() % 4 == 0 && 16 <= b.len() <= 256 * 256 * 4
    }
}

/// `tip` is the tip decoded from embedded image bytes `b`.
pub open spec fn embedded_tip(b: Seq<u8>, tip: BrushTip) -> bool {
    &&& tip.spacing == 25
    &&& tip.name@ == Seq::<char>::empty()
    &&& if b.len() > 8 && b.subrange(0, 8) == png_signature() {
        match decoded_rgba8(b) {
            Ok((w, h, bytes)) => {
                &&& tip.width == w
                &&& tip.height == h
                &&& tip.pixels@.len() == w * h
                &&& forall|i: int|
                    0 <= i < w * h ==> #[trigger] tip.pixels@[i] == unmultiplied(
                        bytes[4 * i],
                        bytes[4 * i + 1],
                        bytes[4 * i + 2],
                        bytes[4 * i + 3],
                    )
            },
            Err(_) => false,
        }
    } else {
        &&& raw_dims_ok((b.len() / 4) as int, tip.width as int, tip.height as int)
        &&& tip.pixels@.len() == b.len() / 4
        &&& forall|i: int| 0 <= i < b.len() / 4 ==> #[trigger] tip.pixels@[i] == bgra_pixel(b, i)
    }
}

/// A tip holds one pixel for each position of its `width` by `height` grid.
pub open spec fn tip_sized(t: BrushTip) -> bool {
    t.pixels@.len() == t.width * t.height
}

/// An embedded tip is sized.
proof fn lemma_embedded_tip_sized(b: Seq<u8>, tip: BrushTip)
    requires
        embedded_tip(b, tip),
    ensures
        tip_sized(tip),
{
    if !(b.len() > 8 && b.subrange(0, 8) == png_signature()) {
        let count = (b.len() / 4) as int;
        let k = choose|k: int|
            #![trigger is_round_sqrt(count, k)]
            k >= 1 && is_round_sqrt(count, k) && if k * ((count + k - 1) / k) == count {
                tip.width == k && tip.height == (count + k - 1) / k
            } else {
                tip.width == count && tip.height == 1
            };
        if k * ((count + k - 1) / k) == count {
            assert(tip.width * tip.height == k * ((count + k - 1) / k));
        } else {
            assert(tip.width * tip.height == count * 1);
        }
    }
}

/// Decode embedded image data as PNG or, failing the PNG signature, as
/// raw BGRA; anything else is "Unknown embedded image format".
pub fn decode_embedded_image(data: &[u8]) -> (r: Result<BrushTip, String>)
    ensures
        embedded_decodes(data@) ==> (r matches Ok(tip) && embedded_tip(data@, tip)),
        !embedded_decodes(data@) ==> r is Err,
{
    if has_png_signature(data) {
        return decode_png_image(data);
    }
    if data.len() >= 4 && is_raw_image_size_plausible(data.len()) {
        return Ok(decode_raw_bgra(data));
    }
    Err(String::from_str("Unknown embedded image format"))
}

/// The bytes of range `r` of `d`.
pub open spec fn range_bytes(d: Seq<u8>, r: (u64, u64)) -> Seq<u8> {
    d.subrange(r.0 as int, r.0 + r.1)
}

/// Extract a sampled brush tip from a sampled subblock's payload: the
/// first candidate range ([`sampled_ranges`]) whose bytes decode
/// ([`embedded_decodes`]), or none; an error when the payload is shorter
/// than the block size.
pub fn parse_abr_sampled(data: &[u8], block_size: u64) -> (r: Result<Option<BrushTip>, String>)
    ensures
        data@.len() < block_size <==> r is Err,
        r matches Err(e) ==> e@ == "ABR sampled data truncated"@,
        r matches Ok(found) ==> {
            let ranges = sampled_ranges(data@, block_size as int, 0);
            match found {
                None => forall|j: int| 0 <= j < ranges.len() ==> !embedded_decodes(range_bytes(data@, #[trigger] ranges[j])),
                Some(tip) => exists|j: int|
                    0 <= j < ranges.len() && embedded_decodes(range_bytes(data@, #[trigger] ranges[j]))
                        && embedded_tip(range_bytes(data@, ranges[j]), tip) && forall|i: int|
                        0 <= i < j ==> !embedded_decodes(range_bytes(data@, #[trigger] ranges[i])),
            }
        },
{
    let candidates = match sampled_candidates(data, block_size) {
        None => {
            return Err(String::from_str("ABR sampled data truncated"));
        },
        Some(v) => v,
    };
    let ghost ranges = candidates@;
    proof {
        lemma_sampled_ranges_in(data@, block_size as int, 0);
    }
    let dlen = data.len();
    let n = candidates.len();
    let mut j: usize = 0;
    while j < n
        invariant
            n == ranges.len(),
            dlen == data@.len(),
            data@.len() >= block_size,
            candidates@ == ranges,
            ranges == sampled_ranges(data@, block_size as int, 0),
            j <= n,
            forall|i: int|
                0 <= i < ranges.len() ==> (#[trigger] ranges[i]).0 + ranges[i].1 <= data@.len(),
            forall|i: int| 0 <= i < j ==> !embedded_decodes(range_bytes(data@, #[trigger] ranges[i])),
        decreases n - j,
    {
        let (start, len) = candidates[j];
        let bytes = slice_range(data, start as usize, (start + len) as usize);
        match decode_embedded_image(bytes) {
            Ok(tip) => {
                proof {
                    assert(bytes@ == range_bytes(data@, ranges[j as int]));
                }
                return Ok(Some(tip));
            },
            Err(_) => {
                proof {
                    assert(bytes@ == range_bytes(data@, ranges[j as int]));
                }
            },
        }
        j = j + 1;
    }
    Ok(None)
}

proof fn lemma_sampled_ranges_in(d: Seq<u8>, block_size: int, offset: int)
    ensures
        forall|i: int|
            0 <= i < sampled_ranges(d, block_size, offset).len() ==> (#[trigger] sampled_ranges(
                d,
                block_size,
                offset,
            )[i]).0 + sampled_ranges(d, block_size, offset)[i].1 <= d.len(),
    decreases block_size - offset,
{
    let all = sampled_ranges(d, block_size, offset);
    if offset < 0 || offset + 8 > block_size || offset + 8 > d.len() {
    } else {
        let is_ext = quad_is(d, offset, block_sig()) && offset + 12 <= block_size && offset + 12 <= d.len();
        if is_ext {
            lemma_be32_bound(d, offset + 8);
        }
        lemma_be32_bound(d, offset + 4);
        let len = if is_ext {
            be32(d, offset + 8)
        } else {
            be32(d, offset + 4)
        };
        let start = if is_ext {
            offset + 12
        } else {
            offset + 8
        };
        let next = start + len + len % 2;
        let rest = if next + 8 > block_size {
            Seq::<(u64, u64)>::empty()
        } else {
            sampled_ranges(d, block_size, next)
        };
        if next + 8 <= block_size {
            lemma_sampled_ranges_in(d, block_size, next);
        }
        if start + len <= block_size && start + len <= d.len() {
            assert(all == seq![(start as u64, len as u64)] + rest);
            assert forall|i: int| 0 <= i < all.len() implies (#[trigger] all[i]).0 + all[i].1 <= d.len() by {
                if i > 0 {
                    assert(all[i] == rest[i - 1]);
                }
            }
        } else {
            assert(all == rest);
        }
    }
}

/// What parsing a sampled subblock's `payload` of `size` bytes finds: no
/// tip when the payload is truncated or no candidate decodes, otherwise
/// the tip of the first candidate that decodes.
pub open spec fn sampled_found(payload: Seq<u8>, size: int, found: Option<BrushTip>) -> bool {
    let ranges = sampled_ranges(payload, size, 0);
    if payload.len() < size {
        found is None
    } else {
        match found {
            None => forall|j: int| 0 <= j < ranges.len() ==> !embedded_decodes(range_bytes(payload, #[trigger] ranges[j])),
            Some(tip) => exists|j: int|
                0 <= j < ranges.len() && embedded_decodes(range_bytes(payload, #[trigger] ranges[j]))
                    && embedded_tip(range_bytes(payload, ranges[j]), tip) && forall|i: int|
                    0 <= i < j ==> !embedded_decodes(range_bytes(payload, #[trigger] ranges[i])),
        }
    }
}

/// What subblock `b` of file `d` contributes: the tip found in a sampled
/// payload, or the tip `rasterise` gives for a computed payload's
/// parameters.
pub open spec fn block_outcome<F: Fn(ComputedParams) -> BrushTip>(
    d: Seq<u8>,
    b: AbrBlock,
    rasterise: F,
    out: Option<BrushTip>,
) -> bool {
    let payload = d.subrange(b.payload_start as int, d.len() as int);
    match b.kind {
        AbrBlockKind::Sampled => sampled_found(payload, b.size as int, out),
        AbrBlockKind::Computed => out matches Some(tip) && call_ensures(
            rasterise,
            (computed_from(payload, 0, default_computed()),),
            tip,
        ),
    }
}

/// The tips among `outs`, in order.
pub open spec fn found_tips(outs: Seq<Option<BrushTip>>) -> Seq<BrushTip>
    decreases outs.len(),
{
    if outs.len() == 0 {
        Seq::empty()
    } else {
        let rest = found_tips(outs.drop_last());
        match outs.last() {
            Some(t) => rest.push(t),
            None => rest,
        }
    }
}

proof fn lemma_scan_payloads(d: Seq<u8>, offset: int, count: int)
    ensures
        forall|j: int|
            0 <= j < abr_scan(d, offset, count).len() ==> (#[trigger] abr_scan(d, offset, count)[j]).payload_start
                <= d.len(),
    decreases 1000 - count,
{
    if !(offset + 14 > d.len() || count >= 1000 || count < 0 || offset < 0) {
        let size = be32(d, offset + 6);
        lemma_scan_payloads(d, offset + 14 + size + size % 2, count + 1);
    }
}

/// Parse a Photoshop brush (.abr) file: every sampled subblock whose
/// embedded image decodes gives its tip, every computed subblock gives the
/// tip `rasterise` draws from its parameters, in file order.  The header
/// errors are those of [`abr_header_error`]; a file with no usable tip is
/// an error.
pub fn parse_abr<F: Fn(ComputedParams) -> BrushTip>(data: &[u8], rasterise: F) -> (r: Result<
    Vec<BrushTip>,
    String,
>)
    requires
        forall|p: ComputedParams| call_requires(rasterise, (p,)),
    ensures
        abr_header_error(data@) matches Some(e) ==> r matches Err(m) && m@ == e,
        abr_header_error(data@) is None ==> exists|outs: Seq<Option<BrushTip>>|
            #![trigger found_tips(outs)]
            {
                let blocks = abr_scan(data@, abr_header_size(be16(data@, 4)), 0);
                &&& outs.len() == blocks.len()
                &&& forall|j: int| 0 <= j < blocks.len() ==> block_outcome(data@, #[trigger] blocks[j], rasterise, outs[j])
                &&& if found_tips(outs).len() == 0 {
                    r matches Err(m) && m@ == "No usable brush tips found in ABR file"@
                } else {
                    r matches Ok(tips) && tips@ == found_tips(outs)
                }
            },
        (forall|p: ComputedParams, t: BrushTip| call_ensures(rasterise, (p,), t) ==> tip_sized(t)) ==> (r matches Ok(
            tips,
        ) ==> forall|i: int| 0 <= i < tips@.len() ==> tip_sized(#[trigger] tips@[i])),
{
    let ghost d = data@;
    let ghost sized_out = forall|p: ComputedParams, t: BrushTip| call_ensures(rasterise, (p,), t) ==> tip_sized(t);
    let blocks = match abr_blocks(data) {
        Err(e) => {
            return Err(e);
        },
        Ok((_version, blocks)) => blocks,
    };
    proof {
        lemma_scan_payloads(d, abr_header_size(be16(d, 4)), 0);
    }
    let mut tips: Vec<BrushTip> = Vec::new();
    let ghost mut outs: Seq<Option<BrushTip>> = Seq::empty();
    let n = blocks.len();
    let mut i: usize = 0;
    while i < n
        invariant
            d == data@,
            n == blocks@.len(),
            blocks@ == abr_scan(d, abr_header_size(be16(d, 4)), 0),
            forall|j: int| 0 <= j < blocks@.len() ==> (#[trigger] blocks@[j]).payload_start <= d.len(),
            forall|p: ComputedParams| call_requires(rasterise, (p,)),
            i <= n,
            outs.len() == i,
            forall|j: int| 0 <= j < i ==> block_outcome(d, #[trigger] blocks@[j], rasterise, outs[j]),
            tips@ == found_tips(outs),
            sized_out == forall|p: ComputedParams, t: BrushTip| call_ensures(rasterise, (p,), t) ==> tip_sized(t),
            sized_out ==> forall|k: int| 0 <= k < tips@.len() ==> tip_sized(#[trigger] tips@[k]),
        decreases n - i,
    {
        let b = blocks[i];
        assert(b == blocks@[i as int]);
        let payload = slice_range(data, b.payload_start as usize, data.len());
        let ghost before = outs;
        match b.kind {
            AbrBlockKind::Sampled => {
                match parse_abr_sampled(payload, b.size) {
                    Ok(Some(tip)) => {
                        let ghost t = tip;
                        proof {
                            let ranges = sampled_ranges(payload@, b.size as int, 0);
                            let j = choose|j: int|
                                0 <= j < ranges.len() && embedded_decodes(range_bytes(payload@, #[trigger] ranges[j]))
                                    && embedded_tip(range_bytes(payload@, ranges[j]), t) && forall|i: int|
                                    0 <= i < j ==> !embedded_decodes(range_bytes(payload@, #[trigger] ranges[i]));
                            lemma_embedded_tip_sized(range_bytes(payload@, ranges[j]), t);
                        }
                        tips.push(tip);
                        proof {
                            outs = outs.push(Some(t));
                        }
                    },
                    _ => {
                        proof {
                            outs = outs.push(None);
                        }
                    },
                }
            },
            AbrBlockKind::Computed => {
                let params = parse_computed_params(payload);
                let tip = rasterise(params);
                let ghost t = tip;
                tips.push(tip);
                proof {
                    outs = outs.push(Some(t));
                }
            },
        }
        proof {
            assert(outs.drop_last() == before);
            assert forall|j: int| 0 <= j < i + 1 implies block_outcome(d, #[trigger] blocks@[j], rasterise, outs[j]) by {
                if j < i {
                    assert(outs[j] == before[j]);
                }
            }
        }
        i = i + 1;
    }
    assert(outs.len() == blocks@.len());
    finish_abr(tips)
}

/// `named` are `tips` renamed after the brush file's `stem`
/// ([`tip_name`]), everything else kept.
pub open spec fn tips_named(named: Seq<BrushTip>, tips: Seq<BrushTip>, stem: Seq<char>) -> bool {
    &&& named.len() == tips.len()
    &&& forall|i: int|
        0 <= i < tips.len() ==> {
            &&& (#[trigger] named[i]).name@ == tip_name(stem, tips.len(), i as nat)
            &&& named[i].pixels == tips[i].pixels
            &&& named[i].width == tips[i].width
            &&& named[i].height == tips[i].height
            &&& named[i].spacing == tips[i].spacing
        }
}

/// Parse the bytes of a brush file by its lower-case extension (`gbr`
/// or `abr`, any other is refused) and name its tips after the file's
/// `stem` ([`tip_name`]).  Computed Photoshop brushes are drawn by
/// `rasterise`.
pub fn parse_brush_data<F: Fn(ComputedParams) -> BrushTip>(
    ext: &str,
    stem: &str,
    data: &[u8],
    rasterise: F,
) -> (r: Result<Vec<BrushTip>, String>)
    requires
        forall|p: ComputedParams| call_requires(rasterise, (p,)),
    ensures
        ext@ == "gbr"@ ==> match r {
            Err(e) => gbr_error(data@) == Some(e@),
            Ok(tips) => {
                &&& gbr_error(data@) is None
                &&& tips@.len() == 1
                &&& tips@[0].name@ == stem@
                &&& gbr_tip(data@, tips@[0])
            },
        },
        ext@ == "abr"@ ==> {
            &&& abr_header_error(data@) matches Some(e) ==> r matches Err(m) && m@ == e
            &&& abr_header_error(data@) is None ==> exists|outs: Seq<Option<BrushTip>>|
                #![trigger found_tips(outs)]
                {
                    let blocks = abr_scan(data@, abr_header_size(be16(data@, 4)), 0);
                    &&& outs.len() == blocks.len()
                    &&& forall|j: int|
                        0 <= j < blocks.len() ==> block_outcome(data@, #[trigger] blocks[j], rasterise, outs[j])
                    &&& if found_tips(outs).len() == 0 {
                        r matches Err(m) && m@ == "No usable brush tips found in ABR file"@
                    } else {
                        r matches Ok(tips) && tips_named(tips@, found_tips(outs), stem@)
                    }
                }
        },
        ext@ != "gbr"@ && ext@ != "abr"@ ==> (r matches Err(m) && m@ == "Unsupported brush format: ."@ + ext@),
        ext@ == "abr"@ && (forall|p: ComputedParams, t: BrushTip| call_ensures(rasterise, (p,), t) ==> tip_sized(t))
            ==> (r matches Ok(tips) ==> forall|i: int| 0 <= i < tips@.len() ==> tip_sized(#[trigger] tips@[i])),
{
    proof {
        reveal_strlit("gbr");
        reveal_strlit("abr");
    }
    if str_is(ext, "gbr") {
        let parsed = parse_gbr(data);
        let r = name_parsed(parsed, stem);
        proof {
            assert(ext@ != "abr"@) by {
                assert(ext@[0] == 'g');
            }
            if r is Ok {
                assert(tip_name(stem@, 1, 0) == stem@);
            }
        }
        r
    } else if str_is(ext, "abr") {
        let parsed = parse_abr(data, rasterise);
        let r = name_parsed(parsed, stem);
        proof {
            if abr_header_error(data@) is None {
                let blocks = abr_scan(data@, abr_header_size(be16(data@, 4)), 0);
                let outs = choose|outs: Seq<Option<BrushTip>>|
                    #![trigger found_tips(outs)]
                    {
                        &&& outs.len() == blocks.len()
                        &&& forall|j: int|
                            0 <= j < blocks.len() ==> block_outcome(data@, #[trigger] blocks[j], rasterise, outs[j])
                        &&& if found_tips(outs).len() == 0 {
                            parsed matches Err(m) && m@ == "No usable brush tips found in ABR file"@
                        } else {
                            parsed matches Ok(tips) && tips@ == found_tips(outs)
                        }
                    };
                if found_tips(outs).len() > 0 {
                    assert(r matches Ok(tips) && tips_named(tips@, found_tips(outs), stem@));
                }
            }
        }
        r
    } else {
        let mut msg = String::from_str("Unsupported brush format: .");
        msg.append(ext);
        Err(msg)
    }
}

/// The result of parsing one brush file with its tips named after the
/// file's `stem`; an error is passed on.
fn name_parsed(parsed: Result<Vec<BrushTip>, String>, stem: &str) -> (r: Result<Vec<BrushTip>, String>)
    ensures
        parsed matches Err(e) ==> r matches Err(m) && m@ == e@,
        parsed matches Ok(tips) ==> r matches Ok(named) && tips_named(named@, tips@, stem@),
{
    match parsed {
        Err(e) => Err(e),
        Ok(tips) => {
            let mut tips = tips;
            name_tips(&mut tips, stem);
            Ok(tips)
        },
    }
}

/// Whether `s` is `t`.
fn str_is(s: &str, t: &str) -> (b: bool)
    ensures
        b == (s@ == t@),
{
    let n = s.unicode_len();
    if n != t.unicode_len() {
        return false;
    }
    let mut i: usize = 0;
    while i < n
        invariant
            n == s@.len(),
            n == t@.len(),
            i <= n,
            forall|k: int| 0 <= k < i ==> s@[k] == t@[k],
        decreases n - i,
    {
        if s.get_char(i) != t.get_char(i) {
            return false;
        }
        i = i + 1;
    }
    assert(s@ =~= t@);
    true
}

/// `data[start..end]`.
fn slice_range(data: &[u8], start: usize, end: usize) -> (s: &[u8])
    requires
        start <= end <= data@.len(),
    ensures
        s@ == data@.subrange(start as int, end as int),
{
    &data[start..end]
}

} // verus!
