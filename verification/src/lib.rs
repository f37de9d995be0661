//! Carries recorded hunk ownership forward onto a freshly computed diff.
//!
//! Every uncommitted hunk of a working tree can be claimed by at most one
//! stack. Whenever the diff is recomputed, the previously recorded claims
//! have to be fitted onto hunks whose boundaries may have moved. This crate
//! holds that fitting, together with the contracts that pin it down.

pub mod donors;
pub mod foreign;
pub mod laws;
pub mod merge;
pub mod model;
pub mod reconcile;
pub mod split;
