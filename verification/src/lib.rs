//! Library behind the `bush` directory-tree printer.

pub mod cli;
pub mod color;
pub mod config;
pub mod exit;
pub mod filter;
pub mod format;
pub mod format_meta;
pub mod text;
pub mod tree;
pub mod tree_equiv;
pub mod walker;
