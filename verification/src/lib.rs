//! A small task-list engine: an ordered collection of text tasks with a
//! completion flag, bulk-selected through a compact 1-based range pattern
//! such as `1-5,8,10-12`.
//!
//! The crate is split into the pattern language (`pattern`), the resolution
//! of parsed ranges against a concrete collection (`select`), and the
//! mutation operations themselves (`mutate`).

pub mod laws;
pub mod mutate;
pub mod pattern;
pub mod select;
pub mod task;

pub use mutate::add_task;
pub use mutate::change_task_status;
pub use mutate::remove_all;
pub use mutate::remove_completed_tasks;
pub use mutate::remove_tasks;
pub use pattern::parse_pattern;
pub use pattern::Error;
pub use pattern::Span;
pub use select::validate_range;
pub use task::Task;
pub use task::TaskStatus;
