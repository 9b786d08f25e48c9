//! An in-memory message broker: named append-only topic logs with
//! offset-addressed consumption, per-offset reader reference counts that
//! make reclamation of consumed history safe, and a newline-delimited
//! framing layer over raw byte streams.

pub mod errors;
pub mod event_orchestrator;
pub mod queue;
pub mod stream_processor;
