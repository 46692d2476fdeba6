//! Encoding the exported pixels of a canvas as an image file's bytes,
//! with the encoders of the `image` crate.  The caller converts the
//! blended canvas first (`files::export_pixels`), and writes the bytes.

use vstd::prelude::*;

use crate::app_state::ExportFormat;
use crate::files::rgba_to_rgb;
use crate::files::widen_to_u16;
use crate::files::JPEG_QUALITY;

verus! {

/// The bytes or the error message of an encoder's outcome.
pub open spec fn bytes_result(r: Result<Vec<u8>, String>) -> Result<Seq<u8>, Seq<char>> {
    match r {
        Ok(v) => Ok(v@),
        Err(e) => Err(e@),
    }
}

/// What `image::codecs::png::PngEncoder::write_image` writes for 8-bit
/// RGBA pixels of a `width` by `height` image, or its error's message.
pub uninterp spec fn png_encoded(rgba: Seq<u8>, width: u32, height: u32) -> Result<Seq<u8>, Seq<char>>;

/// What `image::codecs::jpeg::JpegEncoder` at `quality` writes for 8-bit
/// RGB pixels, or its error's message.
pub uninterp spec fn jpeg_encoded(rgb: Seq<u8>, width: u32, height: u32, quality: u8) -> Result<Seq<u8>, Seq<char>>;

/// What the lossless `image::codecs::webp::WebPEncoder` writes for 8-bit
/// RGBA pixels, or its error's message.
pub uninterp spec fn webp_encoded(rgba: Seq<u8>, width: u32, height: u32) -> Result<Seq<u8>, Seq<char>>;

/// What `image::codecs::gif::GifEncoder` writes for one frame of 8-bit
/// RGBA pixels, or its error's message.
pub uninterp spec fn gif_encoded(rgba: Seq<u8>, width: u32, height: u32) -> Result<Seq<u8>, Seq<char>>;

/// What `image::codecs::tiff::TiffEncoder` writes for 8-bit RGBA pixels,
/// or its error's message.
pub uninterp spec fn tiff_encoded(rgba: Seq<u8>, width: u32, height: u32) -> Result<Seq<u8>, Seq<char>>;

/// What `image::codecs::tga::TgaEncoder` writes for 8-bit RGBA pixels,
/// or its error's message.
pub uninterp spec fn tga_encoded(rgba: Seq<u8>, width: u32, height: u32) -> Result<Seq<u8>, Seq<char>>;

/// What `image::codecs::ico::IcoEncoder` writes for 8-bit RGBA pixels,
/// or its error's message.
pub uninterp spec fn ico_encoded(rgba: Seq<u8>, width: u32, height: u32) -> Result<Seq<u8>, Seq<char>>;

/// What `image::codecs::pnm::PnmEncoder` writes for 8-bit RGBA pixels,
/// or its error's message.
pub uninterp spec fn pnm_encoded(rgba: Seq<u8>, width: u32, height: u32) -> Result<Seq<u8>, Seq<char>>;

/// What `image::codecs::qoi::QoiEncoder` writes for 8-bit RGBA pixels,
/// or its error's message.
pub uninterp spec fn qoi_encoded(rgba: Seq<u8>, width: u32, height: u32) -> Result<Seq<u8>, Seq<char>>;

/// What `image::codecs::openexr::OpenExrEncoder` writes for 8-bit RGBA
/// pixels, or its error's message.
pub uninterp spec fn exr_encoded(rgba: Seq<u8>, width: u32, height: u32) -> Result<Seq<u8>, Seq<char>>;

/// What `image::codecs::farbfeld::FarbfeldEncoder` writes for 16-bit RGBA
/// samples, or its error's message.
pub uninterp spec fn farbfeld_encoded(samples: Seq<u16>, width: u32, height: u32) -> Result<Seq<u8>, Seq<char>>;

/// `image::codecs::png::PngEncoder::write_image` into memory; it panics
/// unless the buffer holds 4 bytes for each pixel.
#[verifier::external_body]
fn encode_png(rgba: &[u8], width: u32, height: u32) -> (r: Result<Vec<u8>, String>)
    requires
        rgba@.len() == 4 * width * height,
    ensures
        bytes_result(r) == png_encoded(rgba@, width, height),
{
    let mut out = Vec::new();
    let encoder = image::codecs::png::PngEncoder::new(&mut out);
    match image::ImageEncoder::write_image(encoder, rgba, width, height, image::ExtendedColorType::Rgba8) {
        Ok(()) => Ok(out),
        Err(e) => Err(format!("{e}")),
    }
}

/// `image::codecs::jpeg::JpegEncoder::new_with_quality` and `write_image`
/// on RGB pixels into memory; it panics unless the buffer holds 3 bytes
/// for each pixel (the quality is clamped to 1 to 100).
#[verifier::external_body]
fn encode_jpeg(rgb: &[u8], width: u32, height: u32, quality: u8) -> (r: Result<Vec<u8>, String>)
    requires
        rgb@.len() == 3 * width * height,
    ensures
        bytes_result(r) == jpeg_encoded(rgb@, width, height, quality),
{
    let mut out = Vec::new();
    let encoder = image::codecs::jpeg::JpegEncoder::new_with_quality(&mut out, quality);
    match image::ImageEncoder::write_image(encoder, rgb, width, height, image::ExtendedColorType::Rgb8) {
        Ok(()) => Ok(out),
        Err(e) => Err(format!("{e}")),
    }
}

/// `image::codecs::webp::WebPEncoder::new_lossless` and `write_image` into
/// memory; it panics unless the buffer holds 4 bytes for each pixel.
#[verifier::external_body]
fn encode_webp(rgba: &[u8], width: u32, height: u32) -> (r: Result<Vec<u8>, String>)
    requires
        rgba@.len() == 4 * width * height,
    ensures
        bytes_result(r) == webp_encoded(rgba@, width, height),
{
    let mut out = Vec::new();
    let encoder = image::codecs::webp::WebPEncoder::new_lossless(&mut out);
    match image::ImageEncoder::write_image(encoder, rgba, width, height, image::ExtendedColorType::Rgba8) {
        Ok(()) => Ok(out),
        Err(e) => Err(format!("{e}")),
    }
}

/// `image::codecs::gif::GifEncoder::write_image` into memory: one frame,
/// written out when the encoder is dropped; it panics unless the buffer
/// holds 4 bytes for each pixel.
#[verifier::external_body]
fn encode_gif(rgba: &[u8], width: u32, height: u32) -> (r: Result<Vec<u8>, String>)
    requires
        rgba@.len() == 4 * width * height,
    ensures
        bytes_result(r) == gif_encoded(rgba@, width, height),
{
    let mut out = Vec::new();
    let encoder = image::codecs::gif::GifEncoder::new(&mut out);
    match image::ImageEncoder::write_image(encoder, rgba, width, height, image::ExtendedColorType::Rgba8) {
        Ok(()) => Ok(out),
        Err(e) => Err(format!("{e}")),
    }
}

/// `image::codecs::tiff::TiffEncoder::write_image` into a seekable
/// in-memory buffer; it panics unless the buffer holds 4 bytes for each
/// pixel.
#[verifier::external_body]
fn encode_tiff(rgba: &[u8], width: u32, height: u32) -> (r: Result<Vec<u8>, String>)
    requires
        rgba@.len() == 4 * width * height,
    ensures
        bytes_result(r) == tiff_encoded(rgba@, width, height),
{
    let mut out = Vec::new();
    let encoder = image::codecs::tiff::TiffEncoder::new(std::io::Cursor::new(&mut out));
    match image::ImageEncoder::write_image(encoder, rgba, width, height, image::ExtendedColorType::Rgba8) {
        Ok(()) => Ok(out),
        Err(e) => Err(format!("{e}")),
    }
}

/// `image::codecs::tga::TgaEncoder::write_image` into memory; it panics
/// unless the buffer holds 4 bytes for each pixel.
#[verifier::external_body]
fn encode_tga(rgba: &[u8], width: u32, height: u32) -> (r: Result<Vec<u8>, String>)
    requires
        rgba@.len() == 4 * width * height,
    ensures
        bytes_result(r) == tga_encoded(rgba@, width, height),
{
    let mut out = Vec::new();
    let encoder = image::codecs::tga::TgaEncoder::new(&mut out);
    match image::ImageEncoder::write_image(encoder, rgba, width, height, image::ExtendedColorType::Rgba8) {
        Ok(()) => Ok(out),
        Err(e) => Err(format!("{e}")),
    }
}

/// `image::codecs::ico::IcoEncoder::write_image` into memory; it panics
/// unless the buffer holds 4 bytes for each pixel.
#[verifier::external_body]
fn encode_ico(rgba: &[u8], width: u32, height: u32) -> (r: Result<Vec<u8>, String>)
    requires
        rgba@.len() == 4 * width * height,
    ensures
        bytes_result(r) == ico_encoded(rgba@, width, height),
{
    let mut out = Vec::new();
    let encoder = image::codecs::ico::IcoEncoder::new(&mut out);
    match image::ImageEncoder::write_image(encoder, rgba, width, height, image::ExtendedColorType::Rgba8) {
        Ok(()) => Ok(out),
        Err(e) => Err(format!("{e}")),
    }
}

/// `image::codecs::pnm::PnmEncoder::write_image` into memory; it panics
/// unless the buffer holds 4 bytes for each pixel.
#[verifier::external_body]
fn encode_pnm(rgba: &[u8], width: u32, height: u32) -> (r: Result<Vec<u8>, String>)
    requires
        rgba@.len() == 4 * width * height,
    ensures
        bytes_result(r) == pnm_encoded(rgba@, width, height),
{
    let mut out = Vec::new();
    let encoder = image::codecs::pnm::PnmEncoder::new(&mut out);
    match image::ImageEncoder::write_image(encoder, rgba, width, height, image::ExtendedColorType::Rgba8) {
        Ok(()) => Ok(out),
        Err(e) => Err(format!("{e}")),
    }
}

/// `image::codecs::qoi::QoiEncoder::write_image` into memory; it panics
/// unless the buffer holds 4 bytes for each pixel.
#[verifier::external_body]
fn encode_qoi(rgba: &[u8], width: u32, height: u32) -> (r: Result<Vec<u8>, String>)
    requires
        rgba@.len() == 4 * width * height,
    ensures
        bytes_result(r) == qoi_encoded(rgba@, width, height),
{
    let mut out = Vec::new();
    let encoder = image::codecs::qoi::QoiEncoder::new(&mut out);
    match image::ImageEncoder::write_image(encoder, rgba, width, height, image::ExtendedColorType::Rgba8) {
        Ok(()) => Ok(out),
        Err(e) => Err(format!("{e}")),
    }
}

/// `image::codecs::openexr::OpenExrEncoder::write_image` into a seekable
/// in-memory buffer; it panics unless the buffer holds 4 bytes for each
/// pixel.
#[verifier::external_body]
fn encode_exr(rgba: &[u8], width: u32, height: u32) -> (r: Result<Vec<u8>, String>)
    requires
        rgba@.len() == 4 * width * height,
    ensures
        bytes_result(r) == exr_encoded(rgba@, width, height),
{
    let mut out = Vec::new();
    let encoder = image::codecs::openexr::OpenExrEncoder::new(std::io::Cursor::new(&mut out));
    match image::ImageEncoder::write_image(encoder, rgba, width, height, image::ExtendedColorType::Rgba8) {
        Ok(()) => Ok(out),
        Err(e) => Err(format!("{e}")),
    }
}

/// `image::codecs::farbfeld::FarbfeldEncoder::write_image` on 16-bit
/// samples, handed over as native-endian bytes; it panics unless there
/// are 4 samples for each pixel.
#[verifier::external_body]
fn encode_farbfeld(samples: &[u16], width: u32, height: u32) -> (r: Result<Vec<u8>, String>)
    requires
        samples@.len() == 4 * width * height,
    ensures
        bytes_result(r) == farbfeld_encoded(samples@, width, height),
{
    let bytes: Vec<u8> = samples.iter().flat_map(|v| v.to_ne_bytes()).collect();
    let mut out = Vec::new();
    let encoder = image::codecs::farbfeld::FarbfeldEncoder::new(&mut out);
    match image::ImageEncoder::write_image(encoder, &bytes, width, height, image::ExtendedColorType::Rgba16) {
        Ok(()) => Ok(out),
        Err(e) => Err(format!("{e}")),
    }
}

/// Whether `out` is a file that `image::codecs::avif::AvifEncoder` can
/// write for 8-bit RGBA pixels of a `width` by `height` image.  A relation,
/// not a result: rav1e splits the work into as many tiles as the machine
/// has threads, so which of such files comes out depends on the machine.
pub uninterp spec fn avif_written(rgba: Seq<u8>, width: u32, height: u32, out: Seq<u8>) -> bool;

/// `image::codecs::avif::AvifEncoder::write_image` into memory; it panics
/// unless the buffer holds 4 bytes for each pixel.  Bytes it writes are
/// an AVIF file of these pixels ([`avif_written`]); which file depends on
/// the machine's thread count, so they are not named, and when it fails
/// nothing is stated of its message.
#[verifier::external_body]
fn encode_avif(rgba: &[u8], width: u32, height: u32) -> (r: Result<Vec<u8>, String>)
    requires
        rgba@.len() == 4 * width * height,
    ensures
        r matches Ok(out) ==> avif_written(rgba@, width, height, out@),
{
    let mut out = Vec::new();
    let encoder = image::codecs::avif::AvifEncoder::new(&mut out);
    match image::ImageEncoder::write_image(encoder, rgba, width, height, image::ExtendedColorType::Rgba8) {
        Ok(()) => Ok(out),
        Err(e) => Err(format!("{e}")),
    }
}

/// The RGB bytes of RGBA bytes: every fourth byte dropped.
pub open spec fn rgb_of(rgba: Seq<u8>) -> Seq<u8> {
    Seq::new((rgba.len() / 4 * 3) as nat, |j: int| rgba[4 * (j / 3) + j % 3])
}

/// The 16-bit samples of 8-bit ones, each times 257.
pub open spec fn widened(rgba: Seq<u8>) -> Seq<u16> {
    Seq::new(rgba.len(), |i: int| (rgba[i] * 257) as u16)
}

/// What an export in `format` writes for the exported RGBA pixels `rgba`
/// of a `width` by `height` image: JPEG gets the RGB bytes at
/// [`JPEG_QUALITY`], Farbfeld the samples widened to 16 bits, the other
/// formats the RGBA bytes.  `None` for AVIF, whose bytes are not named
/// (they are only related to the pixels, [`avif_written`]), and for HDR,
/// which takes floating-point samples.
pub open spec fn export_encoded(format: ExportFormat, rgba: Seq<u8>, width: u32, height: u32) -> Option<
    Result<Seq<u8>, Seq<char>>,
> {
    match format {
        ExportFormat::Png => Some(png_encoded(rgba, width, height)),
        ExportFormat::Jpeg => Some(jpeg_encoded(rgb_of(rgba), width, height, JPEG_QUALITY)),
        ExportFormat::WebP => Some(webp_encoded(rgba, width, height)),
        ExportFormat::Gif => Some(gif_encoded(rgba, width, height)),
        ExportFormat::Tiff => Some(tiff_encoded(rgba, width, height)),
        ExportFormat::Tga => Some(tga_encoded(rgba, width, height)),
        ExportFormat::Ico => Some(ico_encoded(rgba, width, height)),
        ExportFormat::Pnm => Some(pnm_encoded(rgba, width, height)),
        ExportFormat::Qoi => Some(qoi_encoded(rgba, width, height)),
        ExportFormat::OpenExr => Some(exr_encoded(rgba, width, height)),
        ExportFormat::Farbfeld => Some(farbfeld_encoded(widened(rgba), width, height)),
        ExportFormat::Avif => None,
        ExportFormat::Hdr => None,
    }
}

/// Encode the exported RGBA pixels of a `width` by `height` image as a
/// file in `format` ([`export_encoded`]).  HDR takes floating-point
/// samples, which the caller converts and encodes itself.
pub fn encode_export_image(format: ExportFormat, rgba: &Vec<u8>, width: u32, height: u32) -> (r: Result<
    Vec<u8>,
    String,
>)
    requires
        rgba@.len() == 4 * width * height,
        format != ExportFormat::Hdr,
    ensures
        export_encoded(format, rgba@, width, height) matches Some(e) ==> bytes_result(r) == e,
        format == ExportFormat::Avif ==> (r matches Ok(out) ==> avif_written(rgba@, width, height, out@)),
{
    match format {
        ExportFormat::Png => encode_png(rgba.as_slice(), width, height),
        ExportFormat::Jpeg => {
            proof {
                let n: int = width * height;
                assert(4 * width * height == 4 * n && 3 * width * height == 3 * n) by (nonlinear_arith)
                    requires
                        n == width * height,
                ;
                vstd::arithmetic::div_mod::lemma_div_multiples_vanish(n, 4);
                vstd::arithmetic::div_mod::lemma_mod_multiples_basic(n, 4);
                assert(rgba@.len() % 4 == 0 && rgba@.len() / 4 * 3 == 3 * width * height);
            }
            let rgb = rgba_to_rgb(rgba);
            proof {
                lemma_rgb_of(rgba@, rgb@);
            }
            encode_jpeg(rgb.as_slice(), width, height, JPEG_QUALITY)
        },
        ExportFormat::WebP => encode_webp(rgba.as_slice(), width, height),
        ExportFormat::Gif => encode_gif(rgba.as_slice(), width, height),
        ExportFormat::Tiff => encode_tiff(rgba.as_slice(), width, height),
        ExportFormat::Tga => encode_tga(rgba.as_slice(), width, height),
        ExportFormat::Ico => encode_ico(rgba.as_slice(), width, height),
        ExportFormat::Pnm => encode_pnm(rgba.as_slice(), width, height),
        ExportFormat::Qoi => encode_qoi(rgba.as_slice(), width, height),
        ExportFormat::OpenExr => encode_exr(rgba.as_slice(), width, height),
        ExportFormat::Farbfeld => {
            let wide = widen_to_u16(rgba);
            proof {
                assert(wide@ =~= widened(rgba@));
            }
            encode_farbfeld(wide.as_slice(), width, height)
        },
        ExportFormat::Avif => encode_avif(rgba.as_slice(), width, height),
        // Shut out by the precondition.
        ExportFormat::Hdr => Err(String::new()),
    }
}

/// Bytes that keep the first three of every four bytes of `rgba`, in
/// order, are [`rgb_of`] `rgba`.
proof fn lemma_rgb_of(rgba: Seq<u8>, rgb: Seq<u8>)
    requires
        rgba.len() % 4 == 0,
        rgb.len() == rgba.len() / 4 * 3,
        forall|i: int|
            0 <= i < rgba.len() / 4 ==> {
                &&& #[trigger] rgb[3 * i] == rgba[4 * i]
                &&& rgb[3 * i + 1] == rgba[4 * i + 1]
                &&& rgb[3 * i + 2] == rgba[4 * i + 2]
            },
    ensures
        rgb == rgb_of(rgba),
{
    assert forall|j: int| 0 <= j < rgb.len() implies rgb[j] == rgb_of(rgba)[j] by {
        let k = j / 3;
        let m = j % 3;
        assert(j == 3 * k + m && 0 <= m < 3) by (nonlinear_arith)
            requires
                k == j / 3,
                m == j % 3,
                0 <= j,
        ;
        assert(0 <= k < rgba.len() / 4) by (nonlinear_arith)
            requires
                k == j / 3,
                0 <= j < rgba.len() / 4 * 3,
        ;
        assert(rgb[3 * k] == rgba[4 * k]);
    }
    assert(rgb =~= rgb_of(rgba));
}

} // verus!
