//! Greedy work scheduling on a single timeline.
//!
//! Tasks carry a volume of work, a deadline, a priority and dependencies;
//! plans are blocks of time that are already taken. The scheduler walks a
//! cursor through a window of time, ranks the tasks by the product of the
//! registered heuristics, and hands the best one the next free slot.
//!
//! Instants are whole seconds since the Unix epoch, durations are whole
//! seconds, and every ranking decision is taken in exact arithmetic.

pub mod allocators;
pub mod calendar;
pub mod config;
pub mod dependencies;
pub mod group_by;
pub mod heuristics;
pub mod interval;
pub mod natural;
pub mod plans;
pub mod recurrence;
pub mod schedule;
pub mod scheduler;
pub mod tasks;
pub mod text;
