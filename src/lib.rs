//! Turns an e-reader's clippings export into per-book Markdown documents.

pub mod args;
pub mod book;
pub mod clipping;
pub mod parse;
pub mod shelf;
pub mod text;
pub mod timestamp;
pub mod traits;
