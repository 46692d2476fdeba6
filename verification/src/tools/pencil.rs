//! Pencil brush: the primary freehand brush, painting discs exactly as the
//! circle brush does.

use vstd::prelude::*;

use crate::canvas::Canvas;
use crate::pixel::Color32;
use crate::tools::circle_brush::circle_line_stroke;
use crate::tools::circle_brush::clamp_to_last;
use crate::tools::circle_brush::disc_stroke;
use crate::tools::circle_brush::draw_circle;
use crate::tools::circle_brush::draw_circle_line;
use crate::tools::line::LINE_COORD_LIMIT;
use crate::undo::UndoRecord;

verus! {

/// Stamp a filled disc on the current layer, capturing before-pixels for
/// undo; the same stroke as [`draw_circle`].
pub fn draw_pencil(
    center_x: u32,
    center_y: u32,
    radius: u32,
    canvas: &mut Canvas,
    color: Color32,
    layer: usize,
    alpha_overlay: bool,
) -> (record: UndoRecord)
    requires
        old(canvas).wf(),
        old(canvas).width * old(canvas).height <= u32::MAX,
        radius > 0 && old(canvas).width > 0 && old(canvas).height > 0 ==> {
            &&& layer < old(canvas).pixels@.len()
            &&& clamp_to_last(center_x, old(canvas).width) + radius <= u32::MAX
            &&& clamp_to_last(center_y, old(canvas).height) + radius <= u32::MAX
        },
    ensures
        disc_stroke(*old(canvas), *final(canvas), record, center_x, center_y, radius, color, layer, alpha_overlay),
{
    draw_circle(center_x, center_y, radius, canvas, color, layer, alpha_overlay)
}

/// Draw a pencil line between two points and return an undo record; the
/// same stroke as [`draw_circle_line`].
pub fn draw_pencil_line(
    start_x: u32,
    start_y: u32,
    end_x: u32,
    end_y: u32,
    geo_radius: u32,
    canvas: &mut Canvas,
    color: Color32,
    layer: usize,
    visited: &mut Vec<u32>,
    stamp: u32,
    alpha_overlay: bool,
    drag_processed: &mut Vec<u32>,
    drag_stamp_value: u32,
) -> (record: UndoRecord)
    requires
        old(canvas).wf(),
        0 < old(canvas).width < 0x8000_0000,
        0 < old(canvas).height < 0x8000_0000,
        old(canvas).width * old(canvas).height <= u32::MAX,
        layer < old(canvas).pixels@.len(),
        old(canvas).width * old(canvas).height <= old(visited)@.len(),
        alpha_overlay ==> old(canvas).width * old(canvas).height <= old(drag_processed)@.len(),
        start_x < LINE_COORD_LIMIT,
        start_y < LINE_COORD_LIMIT,
        end_x < LINE_COORD_LIMIT,
        end_y < LINE_COORD_LIMIT,
        geo_radius < LINE_COORD_LIMIT,
        geo_radius > 0 ==> {
            &&& start_x < old(canvas).width + geo_radius
            &&& end_x < old(canvas).width + geo_radius
            &&& start_y < old(canvas).height + geo_radius
            &&& end_y < old(canvas).height + geo_radius
        },
    ensures
        circle_line_stroke(
            *old(canvas),
            *final(canvas),
            record,
            old(visited)@,
            final(visited)@,
            old(drag_processed)@,
            final(drag_processed)@,
            start_x,
            start_y,
            end_x,
            end_y,
            geo_radius,
            color,
            layer,
            stamp,
            alpha_overlay,
            drag_stamp_value,
        ),
{
    draw_circle_line(
        start_x,
        start_y,
        end_x,
        end_y,
        geo_radius,
        canvas,
        color,
        layer,
        visited,
        stamp,
        alpha_overlay,
        drag_processed,
        drag_stamp_value,
    )
}

} // verus!
