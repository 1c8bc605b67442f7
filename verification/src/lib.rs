//! A personal time-tracking library: named tasks with start/end timestamps
//! and tags, kept in an identifier-keyed store that loads from and saves to
//! a single file through a plain-text encoding.

pub mod args;
pub mod codec;
pub mod numeral;
pub mod pretty;
pub mod store;
pub mod task;
pub mod time;
