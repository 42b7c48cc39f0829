//! What a node sends, and how it is read.
pub mod note;
