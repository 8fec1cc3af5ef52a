//! Tracker: a local-first time tracker whose record logic, merge rules and
//! sync-boundary checks are stated and proved with Verus.

pub mod cli;
pub mod error;
pub mod merge;
pub mod model;
pub mod payload;
pub mod records;
pub mod sorting;
pub mod sync;
pub mod tailscale;
pub mod text;
pub mod time;
pub mod urls;
