//! Management of read-only, copy-on-write filesystem snapshots.
//!
//! The crate turns a timestamp and a suffix into a sortable snapshot
//! identifier and back ([`codec`]), rebuilds a chronologically ordered view
//! of a snapshot directory from its entry names ([`index`]), and decides
//! which snapshots survive a pruning pass, either by count or by a tiered
//! retention policy with independent hourly, daily, weekly, monthly and
//! yearly caps ([`retention`]).  [`config`] holds the per-subvolume
//! settings those decisions read, and [`action`] assembles the plans that
//! a caller executes against the snapshot backend.

pub mod action;
pub mod codec;
pub mod config;
pub mod index;
pub mod retention;
pub mod time;
pub mod util;
