//! The effort levels of tasks, as they are written in the task sheet.
use vstd::prelude::*;

verus! {

pub const EASY: u8 = 2;

pub const MODERATE: u8 = 3;

/// From this effort on, a task is not followed by another hard task on the
/// next day.
pub const HARD: u8 = 5;

pub const EXTREME: u8 = 8;

} // verus!
