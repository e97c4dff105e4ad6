//! Worker-side execution harness for a URN-addressed dataflow runtime.
//!
//! A bundle of work arrives as a descriptor naming transforms that are wired
//! together by shared channel identifiers.  The harness resolves the
//! descriptor into a dependency-ordered operator graph, drives the graph
//! through a strict start/process/finish lifecycle, resolves serialization
//! strategies (coders) from URN trees through a registry, and manages a pool
//! of external worker endpoints.

pub mod coders;
pub mod errors;
pub mod impulse;
pub mod lex;
pub mod operators;
pub mod proto;
pub mod pvalue;
pub mod registry;
pub mod sdk_worker;
pub mod urns;
pub mod worker_pool;
