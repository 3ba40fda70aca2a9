//! Dependency-aware planning logic: plan validation, critical chains,
//! parallel groups, bulk plan assembly, plan edits, templates, sprint and
//! schedule decisions, and the structured error report, each specified and
//! verified with Verus.

pub mod text;
pub mod error;
pub mod paths;
pub mod plan;
pub mod kinds;
pub mod graph;
pub mod validate;
pub mod parallel;
pub mod chain;
pub mod velocity;
pub mod dates;
pub mod bulk;
pub mod templates;
pub mod edits;
pub mod schedule;
pub mod sprint;
pub mod analysis;
pub mod intake;
pub mod impact;
