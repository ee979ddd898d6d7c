//! Finding and changing snippet files.

pub mod aliases;
pub mod editor;
pub mod remove;
pub mod survivors;
pub mod target;
