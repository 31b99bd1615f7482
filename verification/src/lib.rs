//! A single-node, in-memory key-value server core speaking a line-oriented,
//! length-prefixed wire protocol.
//!
//! The crate holds the protocol codec, the typed keyspace with expiration
//! metadata, the command model and its parser, and the reply shaping; the
//! surrounding I/O (sockets, tasks) lives outside the verified core.

use vstd::prelude::*;

pub mod cmd;
pub mod data_store;
pub mod laws;
pub mod numbers;
pub mod protocol_handler;
pub mod text;

verus! {

/// Default address the accompanying server binary binds to.
pub const DEFAULT_HOST: &'static str = "127.0.0.1";

/// Default TCP port the accompanying server binary binds to.
pub const DEFAULT_PORT: u16 = 6666;

/// Milliseconds between two runs of the expiration sampler.
pub const KEY_EXPIRY_DELAY_MS: u64 = 100;

/// How many keys with an expiry one sampler round examines.
pub const KEY_EXPIRY_NUM_KEYS_TO_CHECK: usize = 20;

} // verus!
