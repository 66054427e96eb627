//! Island: profile resolution, context precedence and workspace planning for
//! a Landlock-based sandboxing tool.
pub mod text;
pub mod path;
pub mod context;
pub mod config;
pub mod resolved;
pub mod lock;
pub mod envmap;
pub mod pathset;
pub mod elf_utils;
pub mod dependency_tree;
pub mod workspace;
