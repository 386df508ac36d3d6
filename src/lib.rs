//! Partitioning of an indexed alignment archive into one archive per sample,
//! where each record is attributed to a sample by its cell barcode tag.
//!
//! The library holds the decisions of the split and merge pipeline: which
//! sample a record goes to, how per-region partial archives are gathered and
//! in which order they are concatenated, and how failures are reported.
//! Reading and writing archives is left to the caller.
use vstd::prelude::*;

pub mod barcodes;
pub mod merge;
pub mod model;
pub mod report;
pub mod split;
