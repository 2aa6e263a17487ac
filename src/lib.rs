//! Trust-quorum bootstrap state machine for a rack of peers.
//!
//! The library is synchronous and driven by explicit events: API calls,
//! inbound messages and clock ticks. Each event returns an `Output` telling
//! the driver what to persist and which messages to send.
//!
//! `fsm` holds the per-peer state machine, `request_manager` the tracking of
//! exchanges in flight, `messages` the wire vocabulary, `secret` the share
//! and secret types, and `laws` the properties proved across calls. `update`
//! and `authz` hold the artifact and authorization types that the rest of
//! the control plane shares.

pub mod secret;
pub mod messages;
pub mod request_manager;
pub mod fsm;
pub mod laws;
pub mod update;
pub mod authz;
