//! treecat: a directory tree plus selected file contents rendered as clean text.
//!
//! The verified library holds the selection rules, the path and size
//! parsing, the tree assembly and the rendering; the program around it
//! walks the file system, reads files and talks to the terminal.

pub mod text;
pub mod paths;
pub mod config;
pub mod size;
pub mod lang;
pub mod classify;
pub mod fswalk;
pub mod order;
pub mod globs;
pub mod filter;
pub mod render;
pub mod run;
pub mod settings;
pub mod assemble;
