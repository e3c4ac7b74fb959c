//! An in-memory time-series store served over a compact binary protocol.
//!
//! The crate holds the logic of the service: the storage engine
//! ([`timeseries`], [`engine`]), the wire codec ([`protocol`]) and the
//! per-connection framing state machine ([`server`]). Sockets and the event
//! loop live outside the crate and drive these pieces with plain values.

pub mod protocol;
pub mod timeseries;
pub mod engine;
pub mod server;
