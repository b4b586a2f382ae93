//! Simulated annealing: one current candidate, replaced by a neighbour when
//! the neighbour is fitter or the Metropolis criterion accepts it, with the
//! temperature cooled after every step.

use vstd::prelude::*;
use crate::candidate::{Candidate, SaCandidate, RATE_SCALE};
use crate::fitness::Fitness;

verus! {

/// Temperatures are given in units of `1 / TEMPERATURE_SCALE` of a fitness unit.
pub const TEMPERATURE_SCALE: u64 = 1_000_000;

/// Why an annealing schedule could not be set up.
#[derive(Clone, Copy, Debug, PartialEq, Eq, Structural)]
pub enum SaError {
    /// A temperature of zero.
    InvalidTemperature,
    /// A cooling rate of zero, or of one or more.
    InvalidCoolingRate,
}

/// The annealing schedule: a temperature and the factor, out of
/// `RATE_SCALE`, that multiplies it after every step.
pub struct SimulatedAnnealing {
    temperature: u64,
    cooling_rate: u32,
}

/// Whether a step moves to the neighbour: always when the neighbour is
/// strictly fitter, and otherwise when the Metropolis criterion accepts it.
pub open spec fn moves_to_neighbour(current: Fitness, neighbour: Fitness, metropolis_accepts: bool) -> bool {
    neighbour.beats(current) || metropolis_accepts
}

/// The temperature after one cooling.
pub open spec fn cooled(temperature: u64, cooling_rate: u32) -> u64 {
    (temperature as nat * cooling_rate as nat / RATE_SCALE as nat) as u64
}

impl SimulatedAnnealing {
    /// The current temperature.
    pub closed spec fn temperature_now(&self) -> u64 {
        self.temperature
    }

    /// The cooling rate.
    pub closed spec fn rate(&self) -> u32 {
        self.cooling_rate
    }

    /// A schedule that starts at `temperature` and is multiplied by
    /// `cooling_rate / RATE_SCALE` after every step.
    pub fn new(temperature: u64, cooling_rate: u32) -> (r: Result<SimulatedAnnealing, SaError>)
        ensures
            temperature == 0 ==> r == Err::<SimulatedAnnealing, SaError>(SaError::InvalidTemperature),
            temperature > 0 && (cooling_rate == 0 || cooling_rate >= RATE_SCALE) ==> r == Err::<
                SimulatedAnnealing,
                SaError,
            >(SaError::InvalidCoolingRate),
            temperature > 0 && 0 < cooling_rate < RATE_SCALE ==> (r matches Ok(sa)
                && sa.temperature_now() == temperature && sa.rate() == cooling_rate),
    {
        if temperature == 0 {
            return Err(SaError::InvalidTemperature);
        }
        if cooling_rate == 0 || cooling_rate >= RATE_SCALE {
            return Err(SaError::InvalidCoolingRate);
        }
        Ok(SimulatedAnnealing { temperature, cooling_rate })
    }

    /// The current temperature.
    pub fn temperature(&self) -> (r: u64)
        ensures
            r == self.temperature_now(),
    {
        self.temperature
    }

    /// The cooling rate.
    pub fn cooling_rate(&self) -> (r: u32)
        ensures
            r == self.rate(),
    {
        self.cooling_rate
    }

    /// Multiplies the temperature by the cooling rate, rounding down.
    pub fn cool(&mut self)
        requires
            old(self).rate() < RATE_SCALE,
        ensures
            final(self).temperature_now() == cooled(old(self).temperature_now(), old(self).rate()),
            final(self).temperature_now() <= old(self).temperature_now(),
            final(self).rate() == old(self).rate(),
    {
        let t = self.temperature as u128;
        let c = self.cooling_rate as u128;
        assert(t * c <= 0x1_0000_0000_0000_0000 * 1_000_000) by (nonlinear_arith)
            requires t <= u64::MAX, c <= 1_000_000;
        assert(t * c <= t * (RATE_SCALE as u128)) by (nonlinear_arith)
            requires c <= RATE_SCALE;
        proof {
            vstd::arithmetic::div_mod::lemma_div_is_ordered(
                (t * c) as int,
                (t * (RATE_SCALE as u128)) as int,
                RATE_SCALE as int,
            );
            vstd::arithmetic::div_mod::lemma_div_by_multiple(t as int, RATE_SCALE as int);
        }
        self.temperature = (t * c / (RATE_SCALE as u128)) as u64;
    }

    /// Whether a step moves from a candidate of fitness `current` to a
    /// neighbour of fitness `neighbour`.
    pub fn accepts(current: Fitness, neighbour: Fitness, metropolis_accepts: bool) -> (r: bool)
        ensures
            r == moves_to_neighbour(current, neighbour, metropolis_accepts),
    {
        neighbour.exceeds(&current) || metropolis_accepts
    }

    /// One step: keeps the neighbour if it is strictly fitter, or else if the
    /// Metropolis criterion (a draw below `exp(-delta / temperature)`, made
    /// by the caller) accepts it; then cools, whatever was decided.
    pub fn step<P, T: SaCandidate<P>>(&mut self, current: T, neighbour: T, metropolis_accepts: bool) -> (r: T)
        requires
            old(self).rate() < RATE_SCALE,
        ensures
            r == if moves_to_neighbour(current.cached_fitness(), neighbour.cached_fitness(), metropolis_accepts) {
                neighbour
            } else {
                current
            },
            neighbour.cached_fitness().beats(current.cached_fitness()) ==> r == neighbour,
            final(self).temperature_now() == cooled(old(self).temperature_now(), old(self).rate()),
            final(self).rate() == old(self).rate(),
    {
        let moved = SimulatedAnnealing::accepts(current.get_fitness(), neighbour.get_fitness(), metropolis_accepts);
        self.cool();
        if moved {
            neighbour
        } else {
            current
        }
    }
}

} // verus!
