//! Finds the build-output directories of Cargo projects in a directory tree
//! and decides which of them are to be deleted.

pub mod driver;
pub mod entry;
pub mod listing;
pub mod model;
pub mod progress;
pub mod project;
pub mod sweep;
pub mod theorems;
pub mod tree;
