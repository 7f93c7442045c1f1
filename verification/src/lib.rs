//! Marker-aware detection of reclaimable build directories, and the state of
//! the interactive list that presents them.

pub mod text;
pub mod rules;
pub mod config;
pub mod order;
pub mod model;
pub mod scanner;
pub mod tui;
pub mod delete;
pub mod guard;
pub mod cli;
