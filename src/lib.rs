//! In-place editing of `KEY=value` configuration files.
//!
//! The whole file is held as one byte buffer. An index maps each key to the
//! byte offsets of its line and of its value inside that buffer, and the
//! mutators splice the buffer while keeping every indexed offset correct.

pub mod line;
pub mod index;
pub mod environment;
pub mod laws;
