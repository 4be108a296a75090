//! Verified core of the Nexa media library manager: file naming, conflict
//! resolution, natural ordering, search queries, the metadata dialog, the
//! library view's bookkeeping, and release signing.
use vstd::prelude::*;

pub mod text;
pub mod paths;
pub mod models;
pub mod file_helpers;
pub mod natural;
pub mod query;
pub mod display;
pub mod modal;
pub mod config;
pub mod media;
pub mod library;
pub mod texture_cache;
pub mod sorting;
pub mod layout;
pub mod detail;
pub mod workflow;
pub mod release;
pub mod selection;

verus! {
} // verus!
