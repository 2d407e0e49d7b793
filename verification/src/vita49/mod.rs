//! Minimal VITA 49.0 (VRT) IF Data Packet framing and forwarding.
//!
//! Interleaved 16-bit I/Q samples (sc16) are framed as IF Data Packets, parsed
//! back, walked in files of concatenated packets, and forwarded to a consumer
//! whose absence is not fatal.

pub mod cursor;
pub mod forwarder;
pub mod packet;
pub mod wire_laws;

pub use cursor::PacketCursor;
pub use forwarder::{ForwardAction, SendOutcome, SendReport, Vita49Forwarder};
pub use packet::{build_packet, frame, parse, timestamp_fields, Packet, ParseError, TimestampMath};
