//! Achievement definitions: for each one, its identity, its target, and
//! the check of a finished run's numbers against that target. Colors and
//! widgets for showing them belong to the drawing layer.

pub mod perfect_match;
pub mod time_xxx_s;
pub mod zero_repaint;
pub mod zero_undo;

use vstd::prelude::*;

verus! {

/// How an achievement's progress is displayed.
#[derive(Clone, Copy, PartialEq, Eq, Structural, Debug)]
pub enum AchievementProgressUi {
    Bar,
    Dots,
}

} // verus!
