//! A hierarchical delegation registry: a forest of lease records in which a
//! root grant can be subdivided into child grants, each child constrained to
//! inherit and narrow the terms of its parent, with explicit two-party
//! acceptance, activation state, cancellation, and paginated tree inspection.
//!
//! The registry keeps its state in an explicit store passed around by the
//! caller; authorization is an injected predicate ([`types::AuthGate`]) and
//! every successful mutation appends one event to a log, so the engine is a
//! pure, synchronous state machine.

pub mod auction;
pub mod escrow;
pub mod laws;
pub mod oracle;
pub mod registry;
pub mod traversal;
pub mod types;
