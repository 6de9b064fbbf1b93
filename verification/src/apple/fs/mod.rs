//! Apple file-system compression wrappers.

pub mod blocks;
pub mod decmpfs;
