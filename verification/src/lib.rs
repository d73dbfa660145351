//! A presence-to-role reconciliation engine.
//!
//! A declarative rule set maps each group's activity names to tags (roles).
//! The engine watches presence events, debounces them per subject, computes
//! the tags to add and remove against the subject's currently held tags, and
//! plans the rate-limited calls that apply the difference.

pub mod commands;
pub mod config;
pub mod csv_format;
pub mod debounce;
pub mod github;
pub mod pager;
pub mod rate_gate;
pub mod reconcile;
pub mod rules;
pub mod store;
pub mod text;
