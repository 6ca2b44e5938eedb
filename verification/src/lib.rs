//! Reconciles a local artifact repository against a remote one.
//!
//! The library derives structured artifact coordinates from filesystem
//! paths, filters out snapshot versions and excluded groups, decides
//! which locally present artifacts are missing from a remote repository,
//! and orders the missing entries deterministically for packaging.

pub mod dependency;
pub mod reconcile;
pub mod scan;
pub mod strutil;
