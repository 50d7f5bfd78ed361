//! Server side of a schema-negotiating RPC handshake over a byte-stream
//! transport, wire-compatible with the Avro IPC handshake protocol.
//!
//! The crate is organised leaf to root:
//! - [`codec`]: the Avro binary primitives (zig-zag varints, length-prefixed
//!   byte runs, UTF-8 strings, fixed-size fields) with spec-level encoders
//!   and decoders;
//! - [`handshake`]: the two handshake record types and their schema-driven
//!   binary encoding, with the round-trip proofs;
//! - [`frame`]: the 4-byte big-endian length framing of one message;
//! - [`server`]: the per-connection match state machine and the shared
//!   protocol cache;
//! - [`daemon`]: the plain daemon identity and configuration records.

pub mod codec;
pub mod daemon;
pub mod frame;
pub mod handshake;
pub mod server;
