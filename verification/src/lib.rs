//! presse: compress and merge PDF documents.
//!
//! The library holds the decisions of the tool: where outputs go, which
//! images of a document are re-encoded and how, how a page for an image is
//! laid out, and how documents are merged. Reading and writing files, and the
//! command line, live in the program around it.

pub mod cli;
pub mod pdf;

pub use cli::args::{resolve_merge_path_output, resolve_press_path_output, Cli, Commands};
