//! Numerically controlled oscillator and the complex mixer that selects a
//! channel.
//!
//! The oscillator's phase is state that persists across input blocks; it is
//! never reset at a packet boundary.

use vstd::prelude::*;
use crate::ieee::{Real32, Real64};
use super::iq::Iq;

verus! {

/// One full turn in radians, in double precision.
pub const TAU_BITS: u64 = 0x4019_21FB_5444_2D18;

/// Floating-point arithmetic of the oscillator.
pub trait OscillatorMath {
    /// `TAU * offset_hz / sample_rate`, reduced to a single non-negative turn.
    fn phase_step(&self, offset_hz: Real64, sample_rate: Real64) -> Real64;

    /// `(cos(phase), -sin(phase))` in single precision.
    fn phasor(&self, phase: Real64) -> (Real32, Real32);

    /// `phase + step`.
    fn advance(&self, phase: Real64, step: Real64) -> Real64;

    /// `phase - TAU`.
    fn unwind(&self, phase: Real64) -> Real64;

    /// The complex product of `s` and the phasor `(c, ms)`.
    fn rotate(&self, s: Iq, c: Real32, ms: Real32) -> Iq;
}

/// `step` is what `m` gives for the phase advance per sample.
pub open spec fn phase_step_gives<M: OscillatorMath>(
    m: M,
    offset_hz: Real64,
    sample_rate: Real64,
    step: Real64,
) -> bool {
    call_ensures(M::phase_step, (&m, offset_hz, sample_rate), step)
}

/// `ph` is what `m` gives for the phasor at `phase`.
pub open spec fn phasor_gives<M: OscillatorMath>(m: M, phase: Real64, ph: (Real32, Real32)) -> bool {
    call_ensures(M::phasor, (&m, phase), ph)
}

/// `next` is what `m` gives for `phase` advanced by `step`.
pub open spec fn advance_gives<M: OscillatorMath>(
    m: M,
    phase: Real64,
    step: Real64,
    next: Real64,
) -> bool {
    call_ensures(M::advance, (&m, phase, step), next)
}

/// `next` is what `m` gives for `phase` less one turn.
pub open spec fn unwind_gives<M: OscillatorMath>(m: M, phase: Real64, next: Real64) -> bool {
    call_ensures(M::unwind, (&m, phase), next)
}

/// `y` is what `m` gives for `s` rotated by `ph`.
pub open spec fn rotate_gives<M: OscillatorMath>(m: M, s: Iq, ph: (Real32, Real32), y: Iq) -> bool {
    call_ensures(M::rotate, (&m, s, ph.0, ph.1), y)
}

/// The state of an oscillator.
pub struct Oscillation {
    /// Current phase in radians.
    pub phase: Real64,
    /// Phase advance per sample.
    pub step: Real64,
}

/// `next` is the phase one sample after `s`: a full turn is taken off as soon as
/// it is reached.
pub open spec fn phase_follows<M: OscillatorMath>(m: M, s: Oscillation, next: Real64) -> bool {
    exists|raw: Real64| #[trigger]
        advance_gives(m, s.phase, s.step, raw) && if (Real64 { bits: TAU_BITS }).at_most(raw) {
            unwind_gives(m, raw, next)
        } else {
            next == raw
        }
}

/// Mixing `x` in state `s` gives `y` and leaves state `t`.
pub open spec fn mixes<M: OscillatorMath>(m: M, s: Oscillation, x: Iq, t: Oscillation, y: Iq) -> bool {
    &&& t.step == s.step
    &&& phase_follows(m, s, t.phase)
    &&& exists|ph: (Real32, Real32)| #[trigger] phasor_gives(m, s.phase, ph) && rotate_gives(m, x, ph, y)
}

/// `s` is the state of a new oscillator for the given offset and rate.
pub open spec fn is_initial<M: OscillatorMath>(
    m: M,
    offset_hz: Real64,
    sample_rate: Real64,
    s: Oscillation,
) -> bool {
    &&& s.phase.bits == 0
    &&& if (Real64 { bits: 0 }).less(sample_rate) {
        phase_step_gives(m, offset_hz, sample_rate, s.step)
    } else {
        s.step.bits == 0
    }
}

/// Complex oscillator that shifts a channel to the centre.
pub struct Nco {
    phase: Real64,
    phase_inc: Real64,
}

impl Nco {
    /// The state that contracts speak of.
    pub closed spec fn state(&self) -> Oscillation {
        Oscillation { phase: self.phase, step: self.phase_inc }
    }

    /// An oscillator that shifts `offset_hz`, which may be negative, to zero. A
    /// sample rate that is not positive gives one that stands still.
    pub fn new<M: OscillatorMath>(offset_hz: Real64, sample_rate: Real64, m: &M) -> (n: Self)
        ensures
            is_initial(*m, offset_hz, sample_rate, n.state()),
    {
        let zero = Real64 { bits: 0 };
        let phase_inc = if zero.lt(sample_rate) {
            m.phase_step(offset_hz, sample_rate)
        } else {
            zero
        };
        Nco { phase: zero, phase_inc }
    }

    /// Advance one sample and return the phasor of the sample left behind.
    pub fn next_phasor<M: OscillatorMath>(&mut self, m: &M) -> (ph: (Real32, Real32))
        ensures
            phasor_gives(*m, old(self).state().phase, ph),
            final(self).state().step == old(self).state().step,
            phase_follows(*m, old(self).state(), final(self).state().phase),
    {
        let ghost before = self.state();
        let ph = m.phasor(self.phase);
        let raw = m.advance(self.phase, self.phase_inc);
        assert(advance_gives(*m, before.phase, before.step, raw));
        let tau = Real64 { bits: TAU_BITS };
        if tau.le(raw) {
            self.phase = m.unwind(raw);
            assert(unwind_gives(*m, raw, self.phase));
        } else {
            self.phase = raw;
        }
        ph
    }

    /// Mix one sample: rotate it by the phasor, shifting the offset to zero.
    pub fn mix<M: OscillatorMath>(&mut self, s: Iq, m: &M) -> (y: Iq)
        ensures
            mixes(*m, old(self).state(), s, final(self).state(), y),
    {
        let ph = self.next_phasor(m);
        let y = m.rotate(s, ph.0, ph.1);
        assert(rotate_gives(*m, s, ph, y));
        y
    }

    /// Current phase in radians.
    pub fn phase(&self) -> (p: Real64)
        ensures
            p == self.state().phase,
    {
        self.phase
    }
}

/// `states` are the states of an oscillator that mixes `xs` into `ys`, from
/// before the first sample to after the last.
pub open spec fn mixes_through<M: OscillatorMath>(
    m: M,
    states: Seq<Oscillation>,
    xs: Seq<Iq>,
    ys: Seq<Iq>,
) -> bool {
    &&& states.len() == xs.len() + 1
    &&& ys.len() == xs.len()
    &&& forall|k: int|
        0 <= k < xs.len() ==> #[trigger] mixes(m, states[k], xs[k], states[k + 1], ys[k])
}

/// Block boundaries do not matter: mixing one block and going on with another
/// from where the first ended is mixing both at once.
pub proof fn mixing_ignores_block_boundaries<M: OscillatorMath>(
    m: M,
    first: Seq<Oscillation>,
    xs: Seq<Iq>,
    ys: Seq<Iq>,
    second: Seq<Oscillation>,
    more_xs: Seq<Iq>,
    more_ys: Seq<Iq>,
)
    requires
        mixes_through(m, first, xs, ys),
        mixes_through(m, second, more_xs, more_ys),
        second[0] == first.last(),
    ensures
        mixes_through(m, first.drop_last() + second, xs + more_xs, ys + more_ys),
{
    let states = first.drop_last() + second;
    assert forall|k: int| 0 <= k < xs.len() + more_xs.len() implies #[trigger] mixes(
        m,
        states[k],
        (xs + more_xs)[k],
        states[k + 1],
        (ys + more_ys)[k],
    ) by {
        if k < xs.len() {
            assert(mixes(m, first[k], xs[k], first[k + 1], ys[k]));
        } else {
            let j = k - xs.len();
            assert(mixes(m, second[j], more_xs[j], second[j + 1], more_ys[j]));
        }
    }
}

/// The angle lies in one turn: not below zero, and below a full turn.
pub open spec fn within_turn(p: Real64) -> bool {
    (Real64 { bits: 0 }).at_most(p) && p.less(Real64 { bits: TAU_BITS })
}

/// Within one turn, advancing does not go below zero, and taking a full turn off
/// an angle that has reached it leads back into the turn.
pub open spec fn turns_are_right<M: OscillatorMath>(m: M) -> bool {
    forall|phase: Real64, step: Real64, raw: Real64|
        within_turn(phase) && within_turn(step) && #[trigger] advance_gives(m, phase, step, raw) ==> {
            &&& (Real64 { bits: 0 }).at_most(raw)
            &&& forall|next: Real64|
                (Real64 { bits: TAU_BITS }).at_most(raw) && #[trigger] unwind_gives(m, raw, next)
                    ==> within_turn(next)
        }
}

/// The phase does not drift: however many samples are mixed, it stays within one
/// turn, where the arithmetic is right within one.
pub proof fn the_phase_stays_within_one_turn<M: OscillatorMath>(
    m: M,
    states: Seq<Oscillation>,
    xs: Seq<Iq>,
    ys: Seq<Iq>,
    k: int,
)
    requires
        turns_are_right(m),
        mixes_through(m, states, xs, ys),
        within_turn(states[0].phase),
        within_turn(states[0].step),
        0 <= k <= xs.len(),
    ensures
        within_turn(states[k].phase),
        states[k].step == states[0].step,
    decreases k,
{
    if k > 0 {
        let j = k - 1;
        the_phase_stays_within_one_turn(m, states, xs, ys, j);
        assert(mixes(m, states[j], xs[j], states[j + 1], ys[j]));
        let raw = choose|raw: Real64| #[trigger]
            advance_gives(m, states[j].phase, states[j].step, raw) && if (Real64 {
                bits: TAU_BITS,
            }).at_most(raw) {
                unwind_gives(m, raw, states[k].phase)
            } else {
                states[k].phase == raw
            };
        assert((Real64 { bits: 0 }).at_most(raw));
    }
}

/// A new oscillator starts within one turn, where its step was reduced to one.
pub proof fn oscillators_start_within_one_turn<M: OscillatorMath>(
    m: M,
    offset_hz: Real64,
    sample_rate: Real64,
    s: Oscillation,
)
    requires
        is_initial(m, offset_hz, sample_rate, s),
        forall|step: Real64| #[trigger]
            phase_step_gives(m, offset_hz, sample_rate, step) ==> within_turn(step),
    ensures
        within_turn(s.phase),
        within_turn(s.step),
{
}

} // verus!
