//! Configuration values and the rules that they have to meet.

use vstd::prelude::*;
use crate::dsp::fir::FilterDesignMath;
use crate::dsp::plan::{decimation_ratio, plan_request, PlanError, PlanMath, PlanRequest, StagePlan};
#[allow(unused_imports)]
use crate::dsp::plan::{is_planned, is_ratio, planned, stages_within};
use crate::ieee::Real64;
use crate::message::{render, NumberText, Part};
#[allow(unused_imports)]
use crate::message::reads_as;

verus! {

/// Which device to open.
#[derive(Debug, Clone)]
pub struct DeviceConfig {
    /// Device arguments; empty for default discovery.
    pub device_args: String,
}

/// How to tune the receiver.
#[derive(Debug, Clone)]
pub struct RfConfig {
    /// Center frequency in Hz.
    pub center_freq: Real64,
    /// Sample rate in Hz.
    pub sample_rate: Real64,
    /// Receive gain in dB.
    pub rx_gain: Real64,
    /// Antenna port.
    pub antenna: String,
    /// Bandwidth in Hz.
    pub bandwidth: Real64,
}

/// Where to send packets.
#[derive(Debug, Clone)]
pub struct ForwardingConfig {
    /// Destination host.
    pub vita49_dest_host: String,
    /// Destination port.
    pub vita49_dest_port: u16,
}

/// Which channel to isolate.
#[derive(Debug, Clone, Copy, PartialEq, Eq, Structural)]
pub struct ChannelConfig {
    /// Channel centre relative to the wideband centre, in Hz.
    pub offset_hz: Real64,
    /// Rate of the narrowband output, in Hz.
    pub output_rate_hz: Real64,
    /// Half-width of the channel, in Hz; a default follows from the output rate.
    pub passband_hz: Option<Real64>,
    /// Attenuation target in dB.
    pub stopband_db: Real64,
    /// Longest filter that is accepted.
    pub max_taps: usize,
}

/// A service configuration.
#[derive(Debug, Clone)]
pub struct Config {
    /// Which device to open.
    pub device: DeviceConfig,
    /// How to tune it.
    pub rf: RfConfig,
    /// Where to send packets.
    pub forwarding: ForwardingConfig,
    /// Which channel to isolate, for the services that need one.
    pub channel: Option<ChannelConfig>,
}

/// The antenna port that is used where none is given.
pub fn default_antenna() -> (s: String)
    ensures
        s@ == "RX2"@,
{
    "RX2".to_owned()
}

/// Which rule a configuration breaks.
#[derive(Debug, Clone, Copy, PartialEq, Eq, Structural)]
pub enum ConfigError {
    /// The center frequency is not positive.
    CenterFreq(Real64),
    /// The sample rate is not positive.
    SampleRate(Real64),
    /// The bandwidth is not positive.
    Bandwidth(Real64),
    /// The destination port is zero.
    DestPort,
}

/// A broken rule in words.
pub open spec fn config_error_parts(e: ConfigError) -> Seq<Part> {
    match e {
        ConfigError::CenterFreq(v) => seq![
            Part::Text("center_freq must be positive (Hz), got "),
            Part::Number(v),
        ],
        ConfigError::SampleRate(v) => seq![
            Part::Text("sample_rate must be positive (Hz), got "),
            Part::Number(v),
        ],
        ConfigError::Bandwidth(v) => seq![
            Part::Text("bandwidth must be positive (Hz), got "),
            Part::Number(v),
        ],
        ConfigError::DestPort => seq![Part::Text("vita49_dest_port must be non-zero")],
    }
}

impl ConfigError {
    /// The error in words, with numbers written out by `n`.
    pub fn message<N: NumberText>(&self, n: &N) -> (s: String)
        ensures
            reads_as(*n, config_error_parts(*self), s@),
    {
        let parts = match self {
            ConfigError::CenterFreq(v) => vec![
                Part::Text("center_freq must be positive (Hz), got "),
                Part::Number(*v),
            ],
            ConfigError::SampleRate(v) => vec![
                Part::Text("sample_rate must be positive (Hz), got "),
                Part::Number(*v),
            ],
            ConfigError::Bandwidth(v) => vec![
                Part::Text("bandwidth must be positive (Hz), got "),
                Part::Number(*v),
            ],
            ConfigError::DestPort => vec![Part::Text("vita49_dest_port must be non-zero")],
        };
        assert(parts@ =~= config_error_parts(*self));
        render(&parts, n)
    }
}

/// The first rule that a configuration breaks, if any. Frequencies and rates have
/// to be positive, which NaN is not.
pub open spec fn broken_rule(c: Config) -> Option<ConfigError> {
    let zero = Real64 { bits: 0 };
    if !zero.less(c.rf.center_freq) {
        Some(ConfigError::CenterFreq(c.rf.center_freq))
    } else if !zero.less(c.rf.sample_rate) {
        Some(ConfigError::SampleRate(c.rf.sample_rate))
    } else if !zero.less(c.rf.bandwidth) {
        Some(ConfigError::Bandwidth(c.rf.bandwidth))
    } else if c.forwarding.vita49_dest_port == 0 {
        Some(ConfigError::DestPort)
    } else {
        None
    }
}

impl Config {
    /// Hold a configuration to the rules.
    pub fn validate(&self) -> (r: Result<(), ConfigError>)
        ensures
            match r {
                Ok(()) => broken_rule(*self) is None,
                Err(e) => broken_rule(*self) == Some(e),
            },
    {
        let zero = Real64 { bits: 0 };
        if !zero.lt(self.rf.center_freq) {
            return Err(ConfigError::CenterFreq(self.rf.center_freq));
        }
        if !zero.lt(self.rf.sample_rate) {
            return Err(ConfigError::SampleRate(self.rf.sample_rate));
        }
        if !zero.lt(self.rf.bandwidth) {
            return Err(ConfigError::Bandwidth(self.rf.bandwidth));
        }
        if self.forwarding.vita49_dest_port == 0 {
            return Err(ConfigError::DestPort);
        }
        Ok(())
    }
}

/// Floating-point arithmetic behind a channel's defaults.
pub trait ChannelMath {
    /// `0.4 * output_rate`.
    fn default_passband(&self, output_rate: Real64) -> Real64;
}

/// `p` is the half-width of the channel.
pub open spec fn is_passband<M: ChannelMath>(m: M, c: ChannelConfig, p: Real64) -> bool {
    match c.passband_hz {
        Some(v) => p == v,
        None => call_ensures(M::default_passband, (&m, c.output_rate_hz), p),
    }
}

/// `s` is the stopband edge of the channel: half the output rate.
pub open spec fn is_stopband<M: PlanMath>(m: M, c: ChannelConfig, s: Real64) -> bool {
    call_ensures(M::nyquist, (&m, c.output_rate_hz), s)
}

/// `req` asks for a cascade that isolates the channel.
pub open spec fn is_request<M: ChannelMath + PlanMath>(
    m: M,
    c: ChannelConfig,
    input_rate: Real64,
    req: PlanRequest,
) -> bool {
    &&& req.input_rate == input_rate
    &&& req.output_rate == c.output_rate_hz
    &&& is_passband(m, c, req.passband_hz)
    &&& is_stopband(m, c, req.stopband_hz)
    &&& req.stopband_db == c.stopband_db
    &&& req.max_taps == c.max_taps
}

impl ChannelConfig {
    /// Half-width of the channel in Hz.
    pub fn passband<M: ChannelMath>(&self, m: &M) -> (p: Real64)
        ensures
            is_passband(*m, *self, p),
    {
        match self.passband_hz {
            Some(v) => v,
            None => m.default_passband(self.output_rate_hz),
        }
    }

    /// Stopband edge of the channel in Hz.
    pub fn stopband<M: PlanMath>(&self, m: &M) -> (s: Real64)
        ensures
            is_stopband(*m, *self, s),
    {
        m.nyquist(self.output_rate_hz)
    }

    /// What the channel asks of a cascade.
    pub fn request<M: ChannelMath + PlanMath>(&self, input_rate: Real64, m: &M) -> (req: PlanRequest)
        ensures
            is_request(*m, *self, input_rate, req),
    {
        PlanRequest {
            input_rate,
            output_rate: self.output_rate_hz,
            passband_hz: self.passband(m),
            stopband_hz: self.stopband(m),
            stopband_db: self.stopband_db,
            max_taps: self.max_taps,
        }
    }

    /// Plan the cascade that isolates the channel.
    pub fn plan<M: ChannelMath + PlanMath + FilterDesignMath>(
        &self,
        input_rate: Real64,
        m: &M,
    ) -> (r: Result<Vec<StagePlan>, PlanError>)
        ensures
            exists|req: PlanRequest| #[trigger]
                is_request(*m, *self, input_rate, req) && is_planned(*m, req, planned(r)) && (
                r matches Ok(stages) ==> stages_within(req, stages@)),
    {
        let req = self.request(input_rate, m);
        assert(is_request(*m, *self, input_rate, req));
        plan_request(&req, m)
    }

    /// Total decimation from `input_rate` to the channel's output rate.
    pub fn decimation<M: ChannelMath + PlanMath>(&self, input_rate: Real64, m: &M) -> (r: Result<
        usize,
        PlanError,
    >)
        ensures
            exists|req: PlanRequest| #[trigger]
                is_request(*m, *self, input_rate, req) && is_ratio(*m, req, r),
    {
        let req = self.request(input_rate, m);
        assert(is_request(*m, *self, input_rate, req));
        decimation_ratio(&req, m)
    }
}

/// A configuration is valid exactly when its center frequency, sample rate and
/// bandwidth are positive and its port is not zero; otherwise the first of these
/// that fails is named, with its value.
pub proof fn valid_means_positive_and_reachable(c: Config)
    ensures
        ({
            let zero = Real64 { bits: 0 };
            let tuned = zero.less(c.rf.center_freq);
            let sampled = zero.less(c.rf.sample_rate);
            let wide = zero.less(c.rf.bandwidth);
            &&& broken_rule(c) is None <==> tuned && sampled && wide && c.forwarding.vita49_dest_port
                != 0
            &&& !tuned ==> broken_rule(c) == Some(ConfigError::CenterFreq(c.rf.center_freq))
            &&& tuned && !sampled ==> broken_rule(c) == Some(ConfigError::SampleRate(c.rf.sample_rate))
            &&& tuned && sampled && !wide ==> broken_rule(c) == Some(
                ConfigError::Bandwidth(c.rf.bandwidth),
            )
            &&& tuned && sampled && wide && c.forwarding.vita49_dest_port == 0 ==> broken_rule(c)
                == Some(ConfigError::DestPort)
        }),
{
}

/// A channel is what was configured: its own edge, or two fifths of its rate where
/// none is given, and half its rate to stop at.
pub proof fn requests_ask_for_the_configured_channel<M: ChannelMath + PlanMath>(
    m: M,
    c: ChannelConfig,
    input_rate: Real64,
    req: PlanRequest,
)
    requires
        is_request(m, c, input_rate, req),
    ensures
        req.input_rate == input_rate,
        req.output_rate == c.output_rate_hz,
        c.passband_hz matches Some(p) ==> req.passband_hz == p,
        c.passband_hz is None ==> call_ensures(
            M::default_passband,
            (&m, c.output_rate_hz),
            req.passband_hz,
        ),
        call_ensures(M::nyquist, (&m, c.output_rate_hz), req.stopband_hz),
        req.stopband_db == c.stopband_db,
        req.max_taps == c.max_taps,
{
}

} // verus!
