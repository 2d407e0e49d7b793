//! The services built from the signal chain.

pub mod channelizer;
pub mod history;
pub mod laws;
pub mod output;
pub mod promises;
pub mod replay;
pub mod sink;
pub mod sink_laws;

pub use channelizer::{
    is_deployable, ChainMath, ChannelizerService, CounterOverflow, GapRecord, PacketOutcome, Report,
    ServiceConfig, ServiceMath, MEASURE_BLOCK, OUTPUT_PACKET_SAMPLES,
};
pub use output::{CollectingSink, OutputSink};
