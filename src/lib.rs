//! Rendering of a directory hierarchy as a tree diagram with connector
//! glyphs, plus a trailing count of directories and files.

pub mod model;
pub mod order;
pub mod text;
pub mod render;
pub mod laws;
