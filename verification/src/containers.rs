//! Distributed containers with concurrent access protocols.
pub mod queue;
