//! Duplicating parts of a function body.

pub mod local_block_cloning;
