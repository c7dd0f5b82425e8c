//! Turning a build description into tasks, deciding which tasks must run, and ordering them.

pub mod task;
pub mod build_task;
pub mod rebuilder;
pub mod tracking_rebuilder;
pub mod scheduler;
