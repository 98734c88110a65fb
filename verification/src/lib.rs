//! Verified core logic of a small set of command-line tools: an environment
//! variable manager, a recursive line search and a directory tree viewer.

pub mod text;
pub mod sort;
pub mod envvars;
pub mod size;
pub mod search;
pub mod tree;
