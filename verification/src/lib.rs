//! A small spaced-repetition task scheduler.
//!
//! Tasks live in a line-oriented text file, one task per line:
//! `<name> [@YYYY-MM-DD] #<interval>`. Each review pushes a task's due
//! date forward by an interval that grows or shrinks, either along a
//! user-supplied ladder of allowed values or geometrically.

pub mod commands;
pub mod date;
pub mod spacedtask;
pub mod store;
pub mod text;
pub mod util;

pub use commands::add;
pub use commands::add_unscheduled;
pub use commands::due;
pub use commands::try_add;
pub use date::add_days;
pub use date::today;
pub use date::Date;
pub use spacedtask::Config;
pub use spacedtask::SpacedTask;
pub use store::parse_task;
pub use store::parse_tasks;
pub use store::render_tasks;
pub use store::ParseError;
pub use util::next_larger_interval;
pub use util::next_smaller_interval;
pub use util::parse_intervals;
