//! What is shown on screen.

pub mod help;
pub mod highlight;
pub mod layout;
pub mod lists;
pub mod preview;
pub mod rows;
pub mod screen;
pub mod tags;
