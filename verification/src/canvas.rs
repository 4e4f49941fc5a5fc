//! The UI canvas: the entities drawing happens on, and the coordinate
//! change from window space to canvas space, in whole pixels.

use vstd::prelude::*;

verus! {

/// The entities of one UI canvas, by their ids: the root node and the
/// background and foreground layers drawn onto it.
#[derive(Clone, Copy, PartialEq, Eq, Structural, Debug)]
pub struct AppUiCanvasEntityMap {
    pub root: u64,
    pub fg: u64,
    pub bg: u64,
}

/// Marker for the canvas root entity.
#[derive(Clone, Copy, PartialEq, Eq, Structural, Debug)]
pub struct AppUiCanvas;

/// Largest coordinate magnitude the conversion accepts; generous for any
/// window while keeping the arithmetic in bounds.
pub const MAX_CANVAS_COORD: i64 = 0x8000_0000;

/// Converts a window position (origin in the top-left corner, y growing
/// downward) to a canvas position (origin in the window's centre, y
/// growing upward).
pub fn to_canvas_pos(win_w: i64, win_h: i64, window_x: i64, window_y: i64) -> (r: (i64, i64))
    requires
        0 <= win_w <= MAX_CANVAS_COORD,
        0 <= win_h <= MAX_CANVAS_COORD,
        -MAX_CANVAS_COORD <= window_x <= MAX_CANVAS_COORD,
        -MAX_CANVAS_COORD <= window_y <= MAX_CANVAS_COORD,
    ensures
        r.0 == window_x - win_w / 2,
        r.1 == win_h / 2 - window_y,
{
    (window_x - win_w / 2, win_h / 2 - window_y)
}

} // verus!
