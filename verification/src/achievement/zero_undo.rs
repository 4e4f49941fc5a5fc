//! The "Expressionism" achievement: finish the drawing without undoing.

use crate::achievement::AchievementProgressUi;
use vstd::prelude::*;

verus! {

pub struct AchievementDef;

impl AchievementDef {
    pub fn code(&self) -> (r: &str)
        ensures
            r@ == "zero_undo"@,
    {
        "zero_undo"
    }

    pub fn name(&self) -> (r: &str)
        ensures
            r@ == "Expressionism"@,
    {
        "Expressionism"
    }

    pub fn description(&self) -> (r: String)
        ensures
            r@ == "Finish the drawing without using the undo"@,
    {
        "Finish the drawing without using the undo".to_owned()
    }

    /// Checks a run's undo count: done only at zero.
    pub fn check_done(&self, undo_count: u32) -> (r: (u32, u32, bool))
        ensures
            r.0 == undo_count,
            r.1 == 0,
            r.2 == (undo_count == 0),
    {
        (undo_count, 0, undo_count == 0)
    }

    pub fn progress_ui(&self) -> (r: AchievementProgressUi)
        ensures
            r == AchievementProgressUi::Dots,
    {
        AchievementProgressUi::Dots
    }
}

} // verus!
