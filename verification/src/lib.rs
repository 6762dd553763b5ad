//! Compacts the output of `git` commands so that less of it reaches a
//! language model, and decides which `git` runs a request needs.

pub mod text;
pub mod filters;
pub mod commands;
