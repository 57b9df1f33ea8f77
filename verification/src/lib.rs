//! Verified core of a multi-device task-list synchronizer.
//!
//! The library covers credential and session management, per-user task
//! state with last-writer-wins replacement, live-connection bookkeeping
//! with broadcast fan-out, the per-connection protocol decisions, and the
//! JSON wire codec.  The unverified server around it only moves bytes.
use vstd::prelude::*;

pub mod auth;
pub mod codec;
pub mod kvseq;
pub mod registry;
pub mod store;
pub mod sync;
pub mod tasks;

verus! {

/// Process configuration for the server built around this library.
pub struct Env {
    pub port: u16,
    pub host: String,
    pub cookie_secret: String,
}

} // verus!
