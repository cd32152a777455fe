//! Priority-driven appointment scheduling on a single doctor's calendar.
//!
//! Times are local wall-clock instants, counted in whole seconds from
//! 1970-01-01 00:00 (see `clock`).

pub mod calendar;
pub mod clock;
pub mod ids;
pub mod models;
pub mod scheduler;
pub mod text;
pub mod laws;
