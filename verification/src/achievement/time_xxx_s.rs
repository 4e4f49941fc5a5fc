//! The "Cubism" achievement: finish the drawing within ten seconds.

use crate::achievement::AchievementProgressUi;
use vstd::prelude::*;

verus! {

pub struct AchievementDef;

impl AchievementDef {
    pub fn code(&self) -> (r: &str)
        ensures
            r@ == "time_xxx_s"@,
    {
        "time_xxx_s"
    }

    pub fn name(&self) -> (r: &str)
        ensures
            r@ == "Cubism"@,
    {
        "Cubism"
    }

    pub fn description(&self) -> (r: String)
        ensures
            r@ == "Use only 10s to complete the drawing"@,
    {
        "Use only 10s to complete the drawing".to_owned()
    }

    /// Checks a run's elapsed time in centiseconds: done strictly under
    /// the 1000-centisecond mark.
    pub fn check_done(&self, time: u32) -> (r: (u32, u32, bool))
        ensures
            r.0 == time,
            r.1 == 1000,
            r.2 == (time < 1000),
    {
        (time, 1000, time < 1000)
    }

    pub fn progress_ui(&self) -> (r: AchievementProgressUi)
        ensures
            r == AchievementProgressUi::Bar,
    {
        AchievementProgressUi::Bar
    }
}

} // verus!
