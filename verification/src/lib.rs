//! Disk space analysis: the scanned tree, its pruning and report rows, size
//! texts, the largest files, and the steps and accounting of deletions.
use vstd::prelude::*;

pub mod text;
pub mod fmt_util;
pub mod order;
pub mod tree;
pub mod scan;
pub mod delete;
pub mod render;
pub mod listing;
pub mod paths;
