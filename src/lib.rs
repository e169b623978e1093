//! Stacked-branch bookkeeping: per-branch dependency records, the acyclic
//! dependency graph built from them, and the rebase planning that keeps a
//! branch in sync with the branch it depends on.
use vstd::prelude::*;

pub mod cli;
pub mod dag;
pub mod edit;
pub mod graph;
pub mod log;
pub mod reconcile;
pub mod state;
