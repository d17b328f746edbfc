//! Resolution of a source tree into module declarations: a tokenizer and a
//! fixed-table grammar validator for the textual invocation form, and the
//! filter, path and declaration rules applied to the files of a directory.

pub mod compose;
pub mod config;
pub mod error;
pub mod filter;
pub mod invocation;
pub mod models;
pub mod modules;
pub mod nesting;
pub mod output;
pub mod pattern;
pub mod positional;
pub mod resolve;
pub mod scan;
pub mod text;
pub mod walk;
