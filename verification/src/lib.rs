//! Verified logic of a VITA 49 radio signal chain: packet framing and parsing,
//! forwarding policy, continuity tracking, decimating channelizer, tone
//! measurement, metrics and the services built from them.

pub mod algebra;
pub mod bytes;
pub mod calls;
pub mod capture;
pub mod config;
pub mod dsp;
pub mod http;
pub mod ieee;
pub mod message;
pub mod metrics;
pub mod service;
pub mod text;
pub mod transitions;
pub mod vectors;
pub mod vita49;
