//! Slider state for the settings UI: the value a slider holds, and how a
//! click on its bar moves it. The drawing layer renders the bar and
//! reports positions in whole pixels; the decisions live here.

use crate::canvas::AppUiCanvasEntityMap;
use vstd::prelude::*;

verus! {

/// Width of a slider's bar in pixels: five times the 36-pixel font size.
pub const SLIDER_BAR_W: i64 = 180;

/// One slider: the settings key it controls, its current value (0 to 100),
/// and the canvas it is drawn on.
#[derive(Debug)]
pub struct Slider {
    pub target: String,
    pub value: u8,
    pub canvas_em: AppUiCanvasEntityMap,
}

/// Marker for the text entity showing a slider's value.
#[derive(Clone, Copy, PartialEq, Eq, Structural, Debug)]
pub struct SliderText;

/// Announcement that a slider moved: which settings key, and to what value.
#[derive(Debug)]
pub struct SliderChangedEvent {
    pub target: String,
    pub value: u8,
}

/// The value a click at `cursor_x` sets, for a bar starting at
/// `bar_start_x`: the clicked fraction of the bar, clamped to 0 to 100.
pub open spec fn slider_value_at(cursor_x: int, bar_start_x: int) -> int {
    let dx = cursor_x - bar_start_x;
    if dx <= 0 {
        0
    } else if dx * 100 / (SLIDER_BAR_W as int) > 100 {
        100
    } else {
        dx * 100 / (SLIDER_BAR_W as int)
    }
}

/// Builds the state of a fresh slider for the settings key `target`,
/// starting at `init_value`, on the given canvas.
pub fn build_slider_ui(canvas_em: AppUiCanvasEntityMap, target: &str, init_value: u8) -> (s:
    Slider)
    ensures
        s.target@ == target@,
        s.value == init_value,
        s.canvas_em == canvas_em,
{
    Slider { target: target.to_owned(), value: init_value, canvas_em }
}

/// Applies a click on a slider's bar: the value becomes the clicked
/// fraction of the bar, clamped to 0 to 100, and the change is announced
/// as an event for the settings layer.
pub fn handle_slider_mouse_clicking(slider: &mut Slider, cursor_x: i64, bar_start_x: i64) -> (ev:
    SliderChangedEvent)
    requires
        -0x8000_0000 <= cursor_x <= 0x8000_0000,
        -0x8000_0000 <= bar_start_x <= 0x8000_0000,
    ensures
        final(slider).value as int == slider_value_at(cursor_x as int, bar_start_x as int),
        final(slider).target@ == old(slider).target@,
        final(slider).canvas_em == old(slider).canvas_em,
        ev.value == final(slider).value,
        ev.target@ == old(slider).target@,
{
    let dx = cursor_x - bar_start_x;
    let v: i64 = if dx <= 0 {
        0
    } else {
        let raw = dx * 100 / SLIDER_BAR_W;
        if raw > 100 {
            100
        } else {
            raw
        }
    };
    slider.value = v as u8;
    SliderChangedEvent { target: slider.target.clone(), value: slider.value }
}

} // verus!
