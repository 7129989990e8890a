//! Verified core of a consequence simulator for welfare rule changes:
//! rule dependency ordering, dirty propagation, citizen lookup and the
//! integer aggregations behind totals, segments, geography and rankings.
//!
//! Money amounts are a type parameter of the containers here; the
//! arithmetic on them lives with the caller.

pub mod batch;
pub mod borger_store;
pub mod borger_view;
pub mod dependency_graph;
pub mod error;
pub mod eval_context;
pub mod geo;
pub mod rule_engine;
pub mod rules;
pub mod scenario;
pub mod types;
