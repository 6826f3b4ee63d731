//! A binary wire protocol for remote procedure calls between two processes.
//!
//! - `vql`: 32-bit integers as variable-length quantities of one to five
//!   bytes.
//! - `packets`: the values that travel, and their projection as text.
//! - `wire`: what bytes a packet is written as and what reading bytes gives,
//!   with the laws that tie the two together.
//! - `encode`, `decode`: writing packets, and reading them without recursion
//!   and in pieces.
//! - `requests`: the request, response and event messages, each a header
//!   packet and for some types a body packet behind it.
//! - `json`: the JSON text in object packets.
//! - `error_data`: the error of a failed call as a JSON object.
//! - `rpc`: ids for calls, and the interface of a channel.
//! - `error`: the failures.
//!
//! Nothing here touches a stream: bytes come in as slices and go out into
//! vectors.

pub mod decode;
pub mod encode;
pub mod error;
pub mod error_data;
pub mod json;
pub mod packets;
pub mod requests;
pub mod rpc;
pub mod vql;
pub mod wire;
