//! Converts a Movable Type export into Markdown documents with front matter.
pub mod markdown;
pub mod movable_type;
