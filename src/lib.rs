//! Block-paced transaction dispatch: the decisions of a load generator that sends a
//! pre-generated sequence of transaction intents to an RPC endpoint, a batch per
//! new block, and records what was sent.
//!
//! - `nonce`: per-sender next-nonce table, advanced optimistically.
//! - `gas`: gas-limit buckets by function selector, their cache, and the per-position
//!   gas price escalation.
//! - `spammer`: the control loop's state, which resolves each intent into
//!   transactions ready to sign.
//! - `schedule`: how the generated intents are cut into per-block batches.
//! - `cache`: the buffer of completed dispatches and its flush protocol.
//! - `drain`: the state machine that ends a run by flushing what is left.
pub mod types;
pub mod nonce;
pub mod gas;
pub mod cache;
pub mod drain;
pub mod schedule;
pub mod spammer;
