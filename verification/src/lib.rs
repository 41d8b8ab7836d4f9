//! Typed client core for the Transmission BitTorrent daemon's JSON-RPC
//! protocol: request/response envelope types, their wire encoding and
//! decoding, and the two-phase session-token handshake, all verified.
//!
//! The wire contract this crate states and proves is the canonical text of
//! each envelope and payload: no whitespace, no escape sequences, payload
//! members in a fixed canonical order. The response envelope itself is
//! accepted in either member order — `result` first or, as the server
//! commonly answers, `arguments` first. Both codecs are exact against this
//! contract in both directions; a body that spells the same content in yet
//! another way is rejected as a decode error rather than accepted loosely.

pub mod client;
pub mod codec;
pub mod numbers;
pub mod request;
pub mod response;
pub mod strutil;
pub mod types;
