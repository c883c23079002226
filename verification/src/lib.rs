//! Resolution and concatenation of text files.
//!
//! The library turns input tokens (file names, directories, and simple
//! wildcard patterns) into ordered lists of file paths over a snapshot of a
//! directory tree, decodes file contents through a fixed cascade of character
//! encodings, and joins the decoded texts into one output string.

pub mod concat;
pub mod decode;
pub mod fstree;
pub mod pattern;
pub mod resolve;
pub mod sorting;
