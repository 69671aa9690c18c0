//! Resolves configuration properties from two remote key/value sources into a
//! single flat namespace, turns dotted keys into a nested template document,
//! and plans idempotent, backup-rotating writes of rendered output.
//!
//! The crate verifies the data-reconciliation logic: the property map and its
//! merge precedence, the deterministic flat-to-nested model builder, and the
//! hash-diff write planner. Remote transport, template rendering and file
//! system effects live outside this crate and hand plain values in and out.

pub mod aggregate;
pub mod model;
pub mod order;
pub mod output;
pub mod props;
