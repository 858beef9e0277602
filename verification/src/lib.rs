//! Version resolution and reconciliation for SDKMAN candidates.
//!
//! The crate turns the listing that `sdk list` prints into an ordered list of
//! version identifiers, selects versions with pattern rules, and derives the
//! install, uninstall and default actions that bring a candidate in line with
//! its rules.

pub mod text;
pub mod pattern;
pub mod rules;
pub mod versions;
pub mod reconcile;
pub mod sdkman;
