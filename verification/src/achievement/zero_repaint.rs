//! The "Fauvism" achievement: finish the drawing without repainting.

use crate::achievement::AchievementProgressUi;
use vstd::prelude::*;

verus! {

pub struct AchievementDef;

impl AchievementDef {
    pub fn code(&self) -> (r: &str)
        ensures
            r@ == "zero_repaint"@,
    {
        "zero_repaint"
    }

    pub fn name(&self) -> (r: &str)
        ensures
            r@ == "Fauvism"@,
    {
        "Fauvism"
    }

    pub fn description(&self) -> (r: String)
        ensures
            r@ == "Finish the drawing without using the repaint"@,
    {
        "Finish the drawing without using the repaint".to_owned()
    }

    /// Checks a run's repaint count: done only at zero.
    pub fn check_done(&self, repaint_count: u32) -> (r: (u32, u32, bool))
        ensures
            r.0 == repaint_count,
            r.1 == 0,
            r.2 == (repaint_count == 0),
    {
        (repaint_count, 0, repaint_count == 0)
    }

    pub fn progress_ui(&self) -> (r: AchievementProgressUi)
        ensures
            r == AchievementProgressUi::Dots,
    {
        AchievementProgressUi::Dots
    }
}

} // verus!
