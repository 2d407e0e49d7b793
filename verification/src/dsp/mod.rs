//! Signal processing: continuity tracking, mixing, filtering, decimation and
//! spectral measurement.

pub mod decimator;
pub mod determined;
pub mod fft;
pub mod filter;
pub mod fir;
pub mod fma;
pub mod fourier;
pub mod gaps;
pub mod iq;
pub mod nco;
pub mod plan;
pub mod plan_laws;
pub mod signal_laws;
pub mod tone;
pub mod tone_laws;

pub use decimator::Channelizer;
pub use fft::fft_in_place;
pub use filter::FirDecimator;
pub use fir::{estimate_taps, kaiser_beta, kaiser_lowpass};
pub use fma::{
    fmaf, fused_multiply_add_8lane, fused_multiply_add_kernel, fused_multiply_add_kernel_with_offset,
};
pub use gaps::{GapMarker, GapTracker};
pub use iq::{envelope, iq_to_sc16, mean_power, power_dbfs, sc16_to_iq, Iq};
pub use nco::Nco;
pub use plan::{plan_stages, PlanError, StagePlan};
pub use tone::{envelope_tone_hz, estimate_frequency, estimate_frequency_keeping_dc};
