//! The "Impressionism" achievement: reach the full match score.

use crate::achievement::AchievementProgressUi;
use vstd::prelude::*;

verus! {

pub struct AchievementDef;

impl AchievementDef {
    pub fn code(&self) -> (r: &str)
        ensures
            r@ == "perfact_match"@,
    {
        "perfact_match"
    }

    pub fn name(&self) -> (r: &str)
        ensures
            r@ == "Impressionism"@,
    {
        "Impressionism"
    }

    pub fn description(&self) -> (r: String)
        ensures
            r@ == "Get the 100% perfect match."@,
    {
        "Get the 100% perfect match.".to_owned()
    }

    /// Checks a run's match points: done exactly at the full 1000.
    pub fn check_done(&self, match_point: u32) -> (r: (u32, u32, bool))
        ensures
            r.0 == match_point,
            r.1 == 1000,
            r.2 == (match_point == 1000),
    {
        (match_point, 1000, match_point == 1000)
    }

    pub fn progress_ui(&self) -> (r: AchievementProgressUi)
        ensures
            r == AchievementProgressUi::Bar,
    {
        AchievementProgressUi::Bar
    }
}

} // verus!
