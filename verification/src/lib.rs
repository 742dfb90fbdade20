//! Orchestration core of a consensus-layer node.
//!
//! The crate gathers the pieces of the node's run-time layer that are pure
//! logic: the committee-subnet subscription tracker kept by the networking
//! subsystem, the error classification at the API boundary, the unbounded
//! channel abstraction that all components exchange messages over, the
//! fork-choice controller boundary (payload-status and block ingestion
//! ordering), and the supervisor's wiring and first-completion-wins race
//! policy. The surrounding process — sockets, storage, cryptography, the
//! asynchronous runtime — lives outside and hands these functions plain
//! values.

pub mod api_error;
pub mod channel;
pub mod controller;
pub mod subscriptions;
pub mod supervisor;
