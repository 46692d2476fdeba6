//! Brush and fill tool implementations.

/// Shared span helpers and visited-pixel run capture.
pub mod brush_common;
/// Midpoint-circle brush tool.
pub mod circle_brush;
/// Rectangular brush tool.
pub mod square_brush;
/// The digital line walked by the line-drawing brushes.
pub mod line;
/// Pencil brush, the freehand disc brush.
pub mod pencil;
/// Scanline flood fill.
pub mod bucket_fill;
/// The region a flood fill covers.
pub mod fill_region;
/// Placing sampled stamp images.
pub mod stamp_brush;
/// GIMP and Photoshop brush file formats.
pub mod brush_parsers;
