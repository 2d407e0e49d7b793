//! Counters and gauges of a service, and their text exposition.
//!
//! Gauges start unset, which is not the same as zero: zero decibels is full
//! scale, so an unset level would be read as a maximal measurement.

use vstd::prelude::*;
use crate::ieee::Real32;
use crate::text::push_decimal;
#[allow(unused_imports)]
use crate::text::decimal;

verus! {

/// A quiet NaN in single precision: not measured yet.
pub const UNSET_BITS: u32 = 0x7FC0_0000;

/// Writes single-precision numbers out.
pub trait GaugeText {
    /// The shortest notation that reads back as `v`.
    fn gauge_text(&self, v: Real32) -> String;
}

/// `s` is what `n` gives for `v` written out.
pub open spec fn gauge_text_gives<N: GaugeText>(n: N, v: Real32, s: Seq<char>) -> bool {
    exists|w: String| #[trigger] call_ensures(N::gauge_text, (&n, v), w) && s == w@
}

/// A measured value and its notation.
#[derive(Debug, Clone)]
struct Gauge {
    value: Real32,
    text: String,
}

/// What a gauge holds.
#[verifier::ext_equal]
pub struct GaugeState {
    /// The value.
    pub value: Real32,
    /// Its notation.
    pub text: Seq<char>,
}

impl GaugeState {
    /// Nothing measured yet.
    pub open spec fn unset() -> GaugeState {
        GaugeState { value: Real32 { bits: UNSET_BITS }, text: seq![] }
    }

    /// What is shown of it: the value if it is a finite number, `NaN` otherwise.
    pub open spec fn shown(self) -> Seq<char> {
        if self.value.finite() {
            self.text
        } else {
            "NaN"@
        }
    }
}

impl Gauge {
    spec fn state(&self) -> GaugeState {
        GaugeState { value: self.value, text: self.text@ }
    }

    fn unset() -> (g: Gauge)
        ensures
            g.state() == GaugeState::unset(),
    {
        let g = Gauge { value: Real32 { bits: UNSET_BITS }, text: String::new() };
        assert(g.state() =~= GaugeState::unset());
        g
    }

    fn of<N: GaugeText>(v: Real32, n: &N) -> (g: Gauge)
        ensures
            g.state().value == v,
            gauge_text_gives(*n, v, g.state().text),
    {
        let text = n.gauge_text(v);
        assert(call_ensures(N::gauge_text, (n, v), text));
        Gauge { value: v, text }
    }
}

/// Counters and gauges of one service. Counters wrap around.
#[derive(Debug, Clone)]
pub struct Metrics {
    packets_received: u64,
    packets_dropped: u64,
    seq_gaps: u64,
    gap_samples: u64,
    samples_in: u64,
    samples_out: u64,
    output_power_dbfs: Gauge,
    peak_offset_hz: Gauge,
    input_power_dbfs: Gauge,
}

/// What the counters and gauges stand at.
#[verifier::ext_equal]
pub struct MetricsState {
    /// Packets received.
    pub packets_received: u64,
    /// Packets that could not be delivered.
    pub packets_dropped: u64,
    /// Forward discontinuities.
    pub seq_gaps: u64,
    /// Samples lost to them.
    pub gap_samples: u64,
    /// Wideband samples consumed.
    pub samples_in: u64,
    /// Narrowband samples produced.
    pub samples_out: u64,
    /// Level of the channel output.
    pub output_power_dbfs: GaugeState,
    /// Offset of the strongest component in the channel.
    pub peak_offset_hz: GaugeState,
    /// Level of the wideband input.
    pub input_power_dbfs: GaugeState,
}

impl MetricsState {
    /// Nothing counted, nothing measured.
    pub open spec fn start() -> MetricsState {
        MetricsState {
            packets_received: 0,
            packets_dropped: 0,
            seq_gaps: 0,
            gap_samples: 0,
            samples_in: 0,
            samples_out: 0,
            output_power_dbfs: GaugeState::unset(),
            peak_offset_hz: GaugeState::unset(),
            input_power_dbfs: GaugeState::unset(),
        }
    }

    /// One more packet received.
    pub open spec fn received(self) -> MetricsState {
        MetricsState { packets_received: self.packets_received.wrapping_add(1), ..self }
    }

    /// So many more packets dropped.
    pub open spec fn dropped(self, n: u64) -> MetricsState {
        MetricsState { packets_dropped: self.packets_dropped.wrapping_add(n), ..self }
    }

    /// One more discontinuity.
    pub open spec fn gap(self, missing_samples: u64) -> MetricsState {
        MetricsState {
            seq_gaps: self.seq_gaps.wrapping_add(1),
            gap_samples: self.gap_samples.wrapping_add(missing_samples),
            ..self
        }
    }

    /// So many more samples consumed and produced.
    pub open spec fn counted(self, input: u64, output: u64) -> MetricsState {
        MetricsState {
            samples_in: self.samples_in.wrapping_add(input),
            samples_out: self.samples_out.wrapping_add(output),
            ..self
        }
    }
}

/// The two comment lines that stand before a value.
pub open spec fn heading(prefix: Seq<char>, name: Seq<char>, help: Seq<char>, kind: Seq<char>) -> Seq<
    char,
> {
    "# HELP "@ + prefix + "_"@ + name + " "@ + help + "\n"@ + "# TYPE "@ + prefix + "_"@ + name + " "@
        + kind + "\n"@
}

/// A value with its comment lines.
pub open spec fn entry(
    prefix: Seq<char>,
    name: Seq<char>,
    help: Seq<char>,
    kind: Seq<char>,
    value: Seq<char>,
) -> Seq<char> {
    heading(prefix, name, help, kind) + prefix + "_"@ + name + " "@ + value + "\n"@
}

/// A counter with its comment lines.
pub open spec fn counter_entry(prefix: Seq<char>, name: Seq<char>, help: Seq<char>, value: u64) -> Seq<
    char,
> {
    entry(prefix, name, help, "counter"@, decimal(value as nat))
}

/// A gauge with its comment lines.
pub open spec fn gauge_entry(
    prefix: Seq<char>,
    name: Seq<char>,
    help: Seq<char>,
    g: GaugeState,
) -> Seq<char> {
    entry(prefix, name, help, "gauge"@, g.shown())
}

/// The text exposition: six counters and three gauges.
pub open spec fn exposition(m: MetricsState, prefix: Seq<char>) -> Seq<char> {
    counter_entry(
        prefix,
        "vita49_packets_received_total"@,
        "VITA49 packets received from upstream"@,
        m.packets_received,
    ) + counter_entry(
        prefix,
        "vita49_packets_dropped_total"@,
        "VITA49 packets that could not be delivered downstream"@,
        m.packets_dropped,
    ) + counter_entry(
        prefix,
        "vita49_seq_gaps_total"@,
        "Forward discontinuities detected in the upstream sample counter"@,
        m.seq_gaps,
    ) + counter_entry(
        prefix,
        "vita49_gap_samples_total"@,
        "Samples lost to those discontinuities"@,
        m.gap_samples,
    ) + counter_entry(
        prefix,
        "samples_in_total"@,
        "Wideband samples consumed"@,
        m.samples_in,
    ) + counter_entry(
        prefix,
        "samples_out_total"@,
        "Narrowband samples produced"@,
        m.samples_out,
    ) + gauge_entry(
        prefix,
        "input_power_dbfs"@,
        "Wideband input mean power (0 dBFS = full-scale complex)"@,
        m.input_power_dbfs,
    ) + gauge_entry(
        prefix,
        "output_power_dbfs"@,
        "Channel output mean power, after filter settling"@,
        m.output_power_dbfs,
    ) + gauge_entry(
        prefix,
        "peak_offset_hz"@,
        "Offset of the strongest component in the channel, including its carrier (0 Hz = centred on the signal; an AM sideband is NOT reported here)"@,
        m.peak_offset_hz,
    )
}

/// Append a value with its comment lines.
fn push_entry(out: &mut String, prefix: &str, name: &str, help: &str, kind: &str, value: &str)
    ensures
        final(out)@ == old(out)@ + entry(prefix@, name@, help@, kind@, value@),
{
    out.append("# HELP ");
    out.append(prefix);
    out.append("_");
    out.append(name);
    out.append(" ");
    out.append(help);
    out.append("\n");
    out.append("# TYPE ");
    out.append(prefix);
    out.append("_");
    out.append(name);
    out.append(" ");
    out.append(kind);
    out.append("\n");
    out.append(prefix);
    out.append("_");
    out.append(name);
    out.append(" ");
    out.append(value);
    out.append("\n");
    assert(out@ =~= old(out)@ + entry(prefix@, name@, help@, kind@, value@));
}

/// Append a counter with its comment lines.
fn push_counter(out: &mut String, prefix: &str, name: &str, help: &str, value: u64)
    ensures
        final(out)@ == old(out)@ + counter_entry(prefix@, name@, help@, value),
{
    let mut digits = String::new();
    push_decimal(&mut digits, value);
    assert(digits@ =~= decimal(value as nat));
    push_entry(out, prefix, name, help, "counter", digits.as_str());
}

/// Append a gauge with its comment lines.
fn push_gauge(out: &mut String, prefix: &str, name: &str, help: &str, g: &Gauge)
    ensures
        final(out)@ == old(out)@ + gauge_entry(prefix@, name@, help@, g.state()),
{
    if g.value.is_finite() {
        push_entry(out, prefix, name, help, "gauge", g.text.as_str());
    } else {
        push_entry(out, prefix, name, help, "gauge", "NaN");
    }
}

impl Metrics {
    /// What the counters and gauges stand at.
    pub closed spec fn state(&self) -> MetricsState {
        MetricsState {
            packets_received: self.packets_received,
            packets_dropped: self.packets_dropped,
            seq_gaps: self.seq_gaps,
            gap_samples: self.gap_samples,
            samples_in: self.samples_in,
            samples_out: self.samples_out,
            output_power_dbfs: self.output_power_dbfs.state(),
            peak_offset_hz: self.peak_offset_hz.state(),
            input_power_dbfs: self.input_power_dbfs.state(),
        }
    }

    /// Nothing counted, nothing measured.
    pub fn new() -> (m: Self)
        ensures
            m.state() == MetricsState::start(),
    {
        Metrics {
            packets_received: 0,
            packets_dropped: 0,
            seq_gaps: 0,
            gap_samples: 0,
            samples_in: 0,
            samples_out: 0,
            output_power_dbfs: Gauge::unset(),
            peak_offset_hz: Gauge::unset(),
            input_power_dbfs: Gauge::unset(),
        }
    }

    /// Count one packet received.
    pub fn record_packet_received(&mut self)
        ensures
            final(self).state() == old(self).state().received(),
    {
        self.packets_received = self.packets_received.wrapping_add(1);
    }

    /// Count `n` packets dropped.
    pub fn record_packets_dropped(&mut self, n: u64)
        ensures
            final(self).state() == old(self).state().dropped(n),
    {
        self.packets_dropped = self.packets_dropped.wrapping_add(n);
    }

    /// Count one discontinuity and the samples lost to it.
    pub fn record_gap(&mut self, missing_samples: u64)
        ensures
            final(self).state() == old(self).state().gap(missing_samples),
    {
        self.seq_gaps = self.seq_gaps.wrapping_add(1);
        self.gap_samples = self.gap_samples.wrapping_add(missing_samples);
    }

    /// Count samples consumed and produced.
    pub fn record_samples(&mut self, input: u64, output: u64)
        ensures
            final(self).state() == old(self).state().counted(input, output),
    {
        self.samples_in = self.samples_in.wrapping_add(input);
        self.samples_out = self.samples_out.wrapping_add(output);
    }

    /// Set the level of the channel output.
    pub fn set_output_power_dbfs<N: GaugeText>(&mut self, v: Real32, n: &N)
        ensures
            final(self).state().output_power_dbfs.value == v,
            gauge_text_gives(*n, v, final(self).state().output_power_dbfs.text),
            final(self).state() == (MetricsState {
                output_power_dbfs: final(self).state().output_power_dbfs,
                ..old(self).state()
            }),
    {
        self.output_power_dbfs = Gauge::of(v, n);
    }

    /// Set the level of the wideband input.
    pub fn set_input_power_dbfs<N: GaugeText>(&mut self, v: Real32, n: &N)
        ensures
            final(self).state().input_power_dbfs.value == v,
            gauge_text_gives(*n, v, final(self).state().input_power_dbfs.text),
            final(self).state() == (MetricsState {
                input_power_dbfs: final(self).state().input_power_dbfs,
                ..old(self).state()
            }),
    {
        self.input_power_dbfs = Gauge::of(v, n);
    }

    /// Set the offset of the strongest component in the channel.
    pub fn set_peak_offset_hz<N: GaugeText>(&mut self, v: Real32, n: &N)
        ensures
            final(self).state().peak_offset_hz.value == v,
            gauge_text_gives(*n, v, final(self).state().peak_offset_hz.text),
            final(self).state() == (MetricsState {
                peak_offset_hz: final(self).state().peak_offset_hz,
                ..old(self).state()
            }),
    {
        self.peak_offset_hz = Gauge::of(v, n);
    }

    /// Packets received.
    pub fn packets_received(&self) -> (n: u64)
        ensures
            n == self.state().packets_received,
    {
        self.packets_received
    }

    /// Packets that could not be delivered.
    pub fn packets_dropped(&self) -> (n: u64)
        ensures
            n == self.state().packets_dropped,
    {
        self.packets_dropped
    }

    /// Forward discontinuities.
    pub fn seq_gaps(&self) -> (n: u64)
        ensures
            n == self.state().seq_gaps,
    {
        self.seq_gaps
    }

    /// Samples lost to discontinuities.
    pub fn gap_samples(&self) -> (n: u64)
        ensures
            n == self.state().gap_samples,
    {
        self.gap_samples
    }

    /// Wideband samples consumed.
    pub fn samples_in(&self) -> (n: u64)
        ensures
            n == self.state().samples_in,
    {
        self.samples_in
    }

    /// Narrowband samples produced.
    pub fn samples_out(&self) -> (n: u64)
        ensures
            n == self.state().samples_out,
    {
        self.samples_out
    }

    /// Level of the channel output.
    pub fn output_power_dbfs(&self) -> (v: Real32)
        ensures
            v == self.state().output_power_dbfs.value,
    {
        self.output_power_dbfs.value
    }

    /// Offset of the strongest component in the channel.
    pub fn peak_offset_hz(&self) -> (v: Real32)
        ensures
            v == self.state().peak_offset_hz.value,
    {
        self.peak_offset_hz.value
    }

    /// Level of the wideband input.
    pub fn input_power_dbfs(&self) -> (v: Real32)
        ensures
            v == self.state().input_power_dbfs.value,
    {
        self.input_power_dbfs.value
    }

    /// Text exposition. `prefix` namespaces the names per service, so that two
    /// services never collide.
    pub fn render(&self, prefix: &str) -> (s: String)
        ensures
            s@ == exposition(self.state(), prefix@),
    {
        let mut s = String::new();
        push_counter(
            &mut s,
            prefix,
            "vita49_packets_received_total",
            "VITA49 packets received from upstream",
            self.packets_received,
        );
        push_counter(
            &mut s,
            prefix,
            "vita49_packets_dropped_total",
            "VITA49 packets that could not be delivered downstream",
            self.packets_dropped,
        );
        push_counter(
            &mut s,
            prefix,
            "vita49_seq_gaps_total",
            "Forward discontinuities detected in the upstream sample counter",
            self.seq_gaps,
        );
        push_counter(
            &mut s,
            prefix,
            "vita49_gap_samples_total",
            "Samples lost to those discontinuities",
            self.gap_samples,
        );
        push_counter(&mut s, prefix, "samples_in_total", "Wideband samples consumed", self.samples_in);
        push_counter(
            &mut s,
            prefix,
            "samples_out_total",
            "Narrowband samples produced",
            self.samples_out,
        );
        push_gauge(
            &mut s,
            prefix,
            "input_power_dbfs",
            "Wideband input mean power (0 dBFS = full-scale complex)",
            &self.input_power_dbfs,
        );
        push_gauge(
            &mut s,
            prefix,
            "output_power_dbfs",
            "Channel output mean power, after filter settling",
            &self.output_power_dbfs,
        );
        push_gauge(
            &mut s,
            prefix,
            "peak_offset_hz",
            "Offset of the strongest component in the channel, including its carrier (0 Hz = centred on the signal; an AM sideband is NOT reported here)",
            &self.peak_offset_hz,
        );
        assert(s@ =~= exposition(self.state(), prefix@));
        s
    }
}

impl Default for Metrics {
    fn default() -> (m: Self)
        ensures
            m.state() == MetricsState::start(),
    {
        Metrics::new()
    }
}

/// A gauge that was never set is shown as `NaN`, not as a number.
pub proof fn unset_gauges_show_nan()
    ensures
        GaugeState::unset().shown() == "NaN"@,
{
}

/// Each counter and gauge stands on a line of its own that starts with the
/// prefix, and the comment lines before it name the same metric.
pub proof fn entries_are_namespaced(
    prefix: Seq<char>,
    name: Seq<char>,
    help: Seq<char>,
    kind: Seq<char>,
    value: Seq<char>,
)
    ensures
        entry(prefix, name, help, kind, value) == heading(prefix, name, help, kind) + (prefix + "_"@
            + name + " "@ + value + "\n"@),
        ("# HELP "@ + prefix + "_"@).is_prefix_of(entry(prefix, name, help, kind, value)),
{
    assert(entry(prefix, name, help, kind, value) =~= heading(prefix, name, help, kind) + (prefix
        + "_"@ + name + " "@ + value + "\n"@));
    assert(("# HELP "@ + prefix + "_"@).is_prefix_of(entry(prefix, name, help, kind, value)));
}

/// `part` stands somewhere in `text`.
pub open spec fn stands_in(part: Seq<char>, text: Seq<char>) -> bool {
    exists|at: int|
        0 <= at <= text.len() - part.len() && #[trigger] text.subrange(at, at + part.len()) == part
}

proof fn lemma_stands_left(part: Seq<char>, a: Seq<char>, b: Seq<char>)
    requires
        stands_in(part, a),
    ensures
        stands_in(part, a + b),
{
    let at = choose|at: int|
        0 <= at <= a.len() - part.len() && #[trigger] a.subrange(at, at + part.len()) == part;
    assert((a + b).subrange(at, at + part.len()) =~= a.subrange(at, at + part.len()));
}

proof fn lemma_stands_right(part: Seq<char>, a: Seq<char>, b: Seq<char>)
    requires
        stands_in(part, b),
    ensures
        stands_in(part, a + b),
{
    let at = choose|at: int|
        0 <= at <= b.len() - part.len() && #[trigger] b.subrange(at, at + part.len()) == part;
    let to = a.len() + at;
    assert((a + b).subrange(to, to + part.len()) =~= b.subrange(at, at + part.len()));
}

/// The line that gives the value of a metric.
pub open spec fn value_line(prefix: Seq<char>, name: Seq<char>, value: Seq<char>) -> Seq<char> {
    prefix + "_"@ + name + " "@ + value + "\n"@
}

proof fn lemma_entry_line(
    prefix: Seq<char>,
    name: Seq<char>,
    help: Seq<char>,
    kind: Seq<char>,
    value: Seq<char>,
)
    ensures
        stands_in(value_line(prefix, name, value), entry(prefix, name, help, kind, value)),
{
    entries_are_namespaced(prefix, name, help, kind, value);
    let line = value_line(prefix, name, value);
    assert(line.subrange(0, 0int + line.len()) =~= line);
    assert(stands_in(line, line));
    lemma_stands_right(line, heading(prefix, name, help, kind), line);
    assert(prefix + "_"@ + name + " "@ + value + "\n"@ =~= line);
}

/// Every counter and gauge stands in the exposition under its own name, with its
/// own value.
pub proof fn every_metric_is_exposed_under_its_name(m: MetricsState, prefix: Seq<char>)
    ensures
        ({
            let text = exposition(m, prefix);
            &&& stands_in(
                value_line(
                    prefix,
                    "vita49_packets_received_total"@,
                    decimal(m.packets_received as nat),
                ),
                text,
            )
            &&& stands_in(
                value_line(
                    prefix,
                    "vita49_packets_dropped_total"@,
                    decimal(m.packets_dropped as nat),
                ),
                text,
            )
            &&& stands_in(
                value_line(prefix, "vita49_seq_gaps_total"@, decimal(m.seq_gaps as nat)),
                text,
            )
            &&& stands_in(
                value_line(prefix, "vita49_gap_samples_total"@, decimal(m.gap_samples as nat)),
                text,
            )
            &&& stands_in(value_line(prefix, "samples_in_total"@, decimal(m.samples_in as nat)), text)
            &&& stands_in(value_line(prefix, "samples_out_total"@, decimal(m.samples_out as nat)), text)
            &&& stands_in(value_line(prefix, "input_power_dbfs"@, m.input_power_dbfs.shown()), text)
            &&& stands_in(value_line(prefix, "output_power_dbfs"@, m.output_power_dbfs.shown()), text)
            &&& stands_in(value_line(prefix, "peak_offset_hz"@, m.peak_offset_hz.shown()), text)
        }),
{
    let c = "counter"@;
    let g = "gauge"@;
    let h1 = "VITA49 packets received from upstream"@;
    let h2 = "VITA49 packets that could not be delivered downstream"@;
    let h3 = "Forward discontinuities detected in the upstream sample counter"@;
    let h4 = "Samples lost to those discontinuities"@;
    let h5 = "Wideband samples consumed"@;
    let h6 = "Narrowband samples produced"@;
    let h7 = "Wideband input mean power (0 dBFS = full-scale complex)"@;
    let h8 = "Channel output mean power, after filter settling"@;
    let h9 =
        "Offset of the strongest component in the channel, including its carrier (0 Hz = centred on the signal; an AM sideband is NOT reported here)"@;
    let n1 = "vita49_packets_received_total"@;
    let n2 = "vita49_packets_dropped_total"@;
    let n3 = "vita49_seq_gaps_total"@;
    let n4 = "vita49_gap_samples_total"@;
    let n5 = "samples_in_total"@;
    let n6 = "samples_out_total"@;
    let n7 = "input_power_dbfs"@;
    let n8 = "output_power_dbfs"@;
    let n9 = "peak_offset_hz"@;
    let v1 = decimal(m.packets_received as nat);
    let v2 = decimal(m.packets_dropped as nat);
    let v3 = decimal(m.seq_gaps as nat);
    let v4 = decimal(m.gap_samples as nat);
    let v5 = decimal(m.samples_in as nat);
    let v6 = decimal(m.samples_out as nat);
    let v7 = m.input_power_dbfs.shown();
    let v8 = m.output_power_dbfs.shown();
    let v9 = m.peak_offset_hz.shown();
    let e1 = entry(prefix, n1, h1, c, v1);
    let e2 = entry(prefix, n2, h2, c, v2);
    let e3 = entry(prefix, n3, h3, c, v3);
    let e4 = entry(prefix, n4, h4, c, v4);
    let e5 = entry(prefix, n5, h5, c, v5);
    let e6 = entry(prefix, n6, h6, c, v6);
    let e7 = entry(prefix, n7, h7, g, v7);
    let e8 = entry(prefix, n8, h8, g, v8);
    let e9 = entry(prefix, n9, h9, g, v9);
    let t2 = e1 + e2;
    let t3 = t2 + e3;
    let t4 = t3 + e4;
    let t5 = t4 + e5;
    let t6 = t5 + e6;
    let t7 = t6 + e7;
    let t8 = t7 + e8;
    let t9 = t8 + e9;
    assert(exposition(m, prefix) == t9);
    lemma_entry_line(prefix, n1, h1, c, v1);
    lemma_entry_line(prefix, n2, h2, c, v2);
    lemma_entry_line(prefix, n3, h3, c, v3);
    lemma_entry_line(prefix, n4, h4, c, v4);
    lemma_entry_line(prefix, n5, h5, c, v5);
    lemma_entry_line(prefix, n6, h6, c, v6);
    lemma_entry_line(prefix, n7, h7, g, v7);
    lemma_entry_line(prefix, n8, h8, g, v8);
    lemma_entry_line(prefix, n9, h9, g, v9);
    let l1 = value_line(prefix, n1, v1);
    let l2 = value_line(prefix, n2, v2);
    let l3 = value_line(prefix, n3, v3);
    let l4 = value_line(prefix, n4, v4);
    let l5 = value_line(prefix, n5, v5);
    let l6 = value_line(prefix, n6, v6);
    let l7 = value_line(prefix, n7, v7);
    let l8 = value_line(prefix, n8, v8);
    let l9 = value_line(prefix, n9, v9);
    lemma_stands_left(l1, e1, e2);
    lemma_stands_right(l2, e1, e2);
    lemma_stands_left(l1, t2, e3);
    lemma_stands_left(l2, t2, e3);
    lemma_stands_right(l3, t2, e3);
    lemma_stands_left(l1, t3, e4);
    lemma_stands_left(l2, t3, e4);
    lemma_stands_left(l3, t3, e4);
    lemma_stands_right(l4, t3, e4);
    lemma_stands_left(l1, t4, e5);
    lemma_stands_left(l2, t4, e5);
    lemma_stands_left(l3, t4, e5);
    lemma_stands_left(l4, t4, e5);
    lemma_stands_right(l5, t4, e5);
    lemma_stands_left(l1, t5, e6);
    lemma_stands_left(l2, t5, e6);
    lemma_stands_left(l3, t5, e6);
    lemma_stands_left(l4, t5, e6);
    lemma_stands_left(l5, t5, e6);
    lemma_stands_right(l6, t5, e6);
    lemma_stands_left(l1, t6, e7);
    lemma_stands_left(l2, t6, e7);
    lemma_stands_left(l3, t6, e7);
    lemma_stands_left(l4, t6, e7);
    lemma_stands_left(l5, t6, e7);
    lemma_stands_left(l6, t6, e7);
    lemma_stands_right(l7, t6, e7);
    lemma_stands_left(l1, t7, e8);
    lemma_stands_left(l2, t7, e8);
    lemma_stands_left(l3, t7, e8);
    lemma_stands_left(l4, t7, e8);
    lemma_stands_left(l5, t7, e8);
    lemma_stands_left(l6, t7, e8);
    lemma_stands_left(l7, t7, e8);
    lemma_stands_right(l8, t7, e8);
    lemma_stands_left(l1, t8, e9);
    lemma_stands_left(l2, t8, e9);
    lemma_stands_left(l3, t8, e9);
    lemma_stands_left(l4, t8, e9);
    lemma_stands_left(l5, t8, e9);
    lemma_stands_left(l6, t8, e9);
    lemma_stands_left(l7, t8, e9);
    lemma_stands_left(l8, t8, e9);
    lemma_stands_right(l9, t8, e9);
}

/// A gauge is shown as its notation where it was measured, and never as a number
/// where it was not; counters count up by what was recorded, modulo `2^64`, and
/// each recording leaves the other counters alone.
pub proof fn recordings_touch_their_own_counters(
    m: MetricsState,
    g: GaugeState,
    n: u64,
    k: u64,
)
    ensures
        g.value.finite() ==> g.shown() == g.text,
        !g.value.finite() ==> g.shown() == "NaN"@,
        m.received().packets_received == (m.packets_received + 1) % 0x1_0000_0000_0000_0000,
        m.received().packets_dropped == m.packets_dropped,
        m.received().samples_in == m.samples_in,
        m.dropped(n).packets_dropped == (m.packets_dropped + n) % 0x1_0000_0000_0000_0000,
        m.dropped(n).packets_received == m.packets_received,
        m.dropped(n).seq_gaps == m.seq_gaps,
        m.gap(n).seq_gaps == (m.seq_gaps + 1) % 0x1_0000_0000_0000_0000,
        m.gap(n).gap_samples == (m.gap_samples + n) % 0x1_0000_0000_0000_0000,
        m.gap(n).packets_dropped == m.packets_dropped,
        m.counted(n, k).samples_in == (m.samples_in + n) % 0x1_0000_0000_0000_0000,
        m.counted(n, k).samples_out == (m.samples_out + k) % 0x1_0000_0000_0000_0000,
        m.counted(n, k).packets_received == m.packets_received,
{
}

} // verus!
