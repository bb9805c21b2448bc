//! Safe HTML parsing and conversion to CommonMark-flavored Markdown.
//!
//! The parser turns a raw HTML string into a tree of [`structs::Node`]
//! values, tolerating and diagnosing malformed input; the renderer walks
//! the finished tree and emits Markdown text. Both phases are pure: their
//! results are pinned down, node for node and character for character, by
//! the specification functions that their contracts refer to. The
//! `roundtrip` module proves that writing a well-formed tree back out as
//! HTML and parsing it again yields an equivalent tree.

pub mod chars;
pub mod parser;
pub mod roundtrip;
pub mod structs;
pub mod to_md;
