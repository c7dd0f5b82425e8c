//! A clone of the ninja build system: a lexer and parser for `.ninja` files, build descriptions
//! turned into keys and tasks, an mtime based rebuilder and the state machine of a topological
//! scheduler.

pub mod parse;
pub mod builder;
pub mod desc;
pub mod tasks;
pub mod paths;
pub mod metrics;
pub mod config;
pub mod line_lexer;
pub mod driver;
