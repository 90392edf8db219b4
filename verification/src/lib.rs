//! Keeps the text of an edited document and its syntax tree in step, extracts
//! the prose of the document as clean text with a map back to its bytes, and
//! turns suggestions made against the clean text into edits of the document.

pub mod buffer;
pub mod cache;
pub mod document;
pub mod engine;
pub mod node_util;
pub mod syntax_tree;
pub mod validator;
