//! The capture side: what a receiver delivers, turned into packets.

use vstd::prelude::*;
use crate::ieee::Real64;

verus! {

/// Most samples read from the receiver at once.
pub const SAMPLES_PER_READ: usize = 2048;

/// Information about a discovered device.
#[derive(Debug)]
pub struct DeviceInfo {
    /// Motherboard name.
    pub mboard_name: String,
    /// Number of receive channels.
    pub num_rx_channels: usize,
}

/// Interleaved components of complex samples.
pub open spec fn interleaved(samples: Seq<(i16, i16)>) -> Seq<i16> {
    Seq::new(
        2 * samples.len(),
        |k: int|
            if k % 2 == 0 {
                samples[k / 2].0
            } else {
                samples[k / 2].1
            },
    )
}

/// What one read of the receiver gave: the first `received` samples of the
/// buffer, interleaved, and the time of the first of them, which is zero where
/// the receiver does not tell. `None` where nothing was received.
pub fn batch(buf: &[(i16, i16)], received: usize, time: Option<Real64>) -> (r: Option<
    (Real64, Vec<i16>),
>)
    ensures
        match r {
            None => received == 0,
            Some((ts, samples)) => {
                &&& received > 0
                &&& ts == time.unwrap_or(Real64 { bits: 0 })
                &&& samples@ == interleaved(
                    buf@.take(
                        if received < buf@.len() {
                            received as int
                        } else {
                            buf@.len() as int
                        },
                    ),
                )
            },
        },
{
    if received == 0 {
        return None;
    }
    let n: usize = if received < buf.len() {
        received
    } else {
        buf.len()
    };
    let ts = match time {
        Some(t) => t,
        None => Real64 { bits: 0 },
    };
    let mut samples: Vec<i16> = Vec::new();
    let mut k: usize = 0;
    while k < n
        invariant
            k <= n <= buf@.len(),
            samples@ == interleaved(buf@.take(k as int)),
        decreases n - k,
    {
        let c: (i16, i16) = buf[k];
        samples.push(c.0);
        samples.push(c.1);
        k = k + 1;
        assert(samples@ =~= interleaved(buf@.take(k as int)));
    }
    Some((ts, samples))
}

/// Stream identifier of a capture: the center frequency in whole Hz times a
/// thousand, modulo `2^32`.
pub fn stream_id(center_freq: Real64) -> (id: u32)
    ensures
        id == (center_freq.cast_unsigned(u32::MAX as nat) * 1000) % 0x1_0000_0000,
{
    let hz: u64 = center_freq.as_u32() as u64;
    ((hz * 1000) % 0x1_0000_0000) as u32
}

/// Sample `k` of a read gives its in-phase component at place `2 * k` and its
/// quadrature component right behind it.
pub proof fn reads_are_interleaved_pair_by_pair(samples: Seq<(i16, i16)>, k: int)
    requires
        0 <= k < samples.len(),
    ensures
        interleaved(samples).len() == 2 * samples.len(),
        interleaved(samples)[2 * k] == samples[k].0,
        interleaved(samples)[2 * k + 1] == samples[k].1,
{
    assert((2 * k) / 2 == k);
    assert((2 * k + 1) / 2 == k);
}

/// Stream identifiers tell center frequencies apart to the hertz, as far as the
/// identifier goes: a thousand to the hertz, modulo `2^32`.
pub proof fn identifiers_count_a_thousand_to_the_hertz(center_freq: Real64, id: u32)
    requires
        call_ensures(stream_id, (center_freq,), id),
    ensures
        (1000 * center_freq.cast_unsigned(u32::MAX as nat) - id) % 0x1_0000_0000 == 0,
{
}

} // verus!
