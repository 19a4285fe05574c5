//! A file-watching build runner: configuration parsing, an in-memory file
//! tree, the command line, and the decisions of the watch daemon, with
//! their contracts.
pub mod text;
pub mod fpath;
pub mod tree_laws;
pub mod parse;
pub mod cond;
pub mod conf;
pub mod fxn;
pub mod daemon;
pub mod helper;
