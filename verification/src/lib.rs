//! Scheduling of recurring cleaning tasks over a calendar year.
//!
//! The library holds the rules of the scheduler: which tasks may be done on
//! a day, which one is picked, how the history of completed tasks and the
//! holidays are taken into account, and how the rows read from the task
//! spreadsheet are checked.
pub mod calendar;
pub mod effort;
pub mod generator;
pub mod laws;
pub mod loader;
pub mod order;
pub mod schedule;
pub mod slack;
pub mod task;
pub mod text;
