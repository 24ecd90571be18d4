//! Reproducible shuffling of image files and their greedy packing into
//! numbered folders of bounded file count and byte size.

pub mod rng;
pub mod plan;
pub mod shuffle;
pub mod names;
pub mod args;
pub mod cli;
