//! Backend-agnostic memory-policy primitives shared across memory-store
//! adapters: content-hash dedup, metadata envelopes, scope matching,
//! retention decisions, reconciliation and a lexical in-memory store.

pub mod dedup;
pub mod error;
pub mod inmem;
pub mod metadata;
pub mod pieces;
pub mod reconcile;
pub mod retention;
pub mod retention_laws;
pub mod scope;
pub mod text;

pub use error::PolicyError;
pub use inmem::{Episode, InMemoryStore, LexicalHit};
pub use metadata::{FrameKind, FrameMetadata};
pub use reconcile::{DuplicateResolver, ExactHashResolver, ReconcileOp};
pub use retention::{
    RetentionCandidate, RetentionDecision, RetentionPolicy, RetentionReport, RetentionRule,
};
pub use scope::{normalize_scope, scope_matches, scope_path, Scope};
