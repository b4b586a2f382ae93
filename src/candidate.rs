//! What a problem representation offers the optimisers. `P` is the problem
//! instance that the candidates of a run share (for a tour, the locations).

use vstd::prelude::*;
use rand::rngs::StdRng;
use crate::fitness::Fitness;

verus! {

/// Mutation rates and other probabilities are given in parts of `RATE_SCALE`.
pub const RATE_SCALE: u32 = 1_000_000;

/// A candidate solution of a problem instance of type `P`, with a cached fitness.
pub trait Candidate<P>: Sized {
    /// The problem instance is one that candidates can be built for.
    spec fn admits(p: &P) -> bool;

    /// Whether the problem instance is one that candidates can be built for.
    fn admits_problem(p: &P) -> (r: bool)
        ensures
            r == Self::admits(p),
    ;

    /// The representation is a valid solution of `p`.
    spec fn valid_for(&self, p: &P) -> bool;

    /// The fitness held in the candidate's cache.
    spec fn cached_fitness(&self) -> Fitness;

    /// The fitness of the candidate's representation in `p`.
    spec fn fitness_in(&self, p: &P) -> Fitness;

    /// The two candidates hold the same representation.
    spec fn same_representation(&self, other: Self) -> bool;

    /// The cached fitness.
    fn get_fitness(&self) -> (r: Fitness)
        ensures
            r == self.cached_fitness(),
    ;

    /// Recomputes the cached fitness from the representation, which stays as it is.
    fn self_calculate_fitness(&mut self, p: &P)
        requires
            old(self).valid_for(p),
        ensures
            final(self).valid_for(p),
            final(self).same_representation(*old(self)),
            final(self).fitness_in(p) == old(self).fitness_in(p),
            final(self).cached_fitness() == final(self).fitness_in(p),
    ;

    /// Whether the representation is valid for `p` and the cache is up to date.
    fn is_sound_for(&self, p: &P) -> (r: bool)
        ensures
            r == (self.valid_for(p) && self.cached_fitness() == self.fitness_in(p)),
    ;

    /// A copy of the candidate: the same representation and cached fitness.
    fn duplicate(&self) -> (r: Self)
        ensures
            r.cached_fitness() == self.cached_fitness(),
            r.same_representation(*self),
            forall|p: &P| #[trigger] r.valid_for(p) == self.valid_for(p),
            forall|p: &P| #[trigger] r.fitness_in(p) == self.fitness_in(p),
    ;

    /// A candidate drawn at random, with its fitness computed.
    fn new_random(p: &P, rng: &mut StdRng) -> (r: Self)
        ensures
            r.valid_for(p),
            r.cached_fitness() == r.fitness_in(p),
    ;
}

/// The representation is valid and the cached fitness is its fitness.
pub open spec fn is_sound<P, T: Candidate<P>>(c: T, p: &P) -> bool {
    c.valid_for(p) && c.cached_fitness() == c.fitness_in(p)
}

/// Recomputing the fitness twice in a row, with no change in between, gives
/// the same fitness both times: each call leaves the representation's fitness
/// as it was and caches it.
pub proof fn lemma_recalculation_idempotent<P, T: Candidate<P>>(before: T, once: T, twice: T, p: &P)
    requires
        before.valid_for(p),
        once.valid_for(p),
        once.fitness_in(p) == before.fitness_in(p),
        once.cached_fitness() == once.fitness_in(p),
        twice.fitness_in(p) == once.fitness_in(p),
        twice.cached_fitness() == twice.fitness_in(p),
    ensures
        twice.cached_fitness() == once.cached_fitness(),
        once.cached_fitness() == before.fitness_in(p),
{
}

/// What a candidate offers the genetic algorithm.
pub trait GaCandidate<P>: Candidate<P> {
    /// The representation is one that crossover makes from `a` and `b`.
    spec fn child_of(&self, a: Self, b: Self) -> bool;

    /// The representation is one that a mutation makes from `before`'s.
    spec fn mutant_of(&self, before: Self) -> bool;

    /// Mutates the representation, each mutation with probability
    /// `mutation_rate / RATE_SCALE`. The cached fitness is left as it was.
    fn mutate(&mut self, p: &P, mutation_rate: u32, rng: &mut StdRng)
        requires
            old(self).valid_for(p),
            mutation_rate <= RATE_SCALE,
        ensures
            final(self).valid_for(p),
            final(self).mutant_of(*old(self)),
    ;

    /// Mutates each part of the representation independently with
    /// probability `mutation_rate / RATE_SCALE`. The cached fitness is left as
    /// it was.
    fn mutate_per_gene(&mut self, p: &P, mutation_rate: u32, rng: &mut StdRng)
        requires
            old(self).valid_for(p),
            mutation_rate <= RATE_SCALE,
        ensures
            final(self).valid_for(p),
            final(self).mutant_of(*old(self)),
    ;

    /// A child of `self` and `other`, whose fitness is yet to be computed.
    fn crossover(&self, other: &Self, p: &P, rng: &mut StdRng) -> (r: Self)
        requires
            self.valid_for(p),
            other.valid_for(p),
        ensures
            r.valid_for(p),
            r.child_of(*self, *other),
    ;
}

/// What a candidate offers simulated annealing.
pub trait SaCandidate<P>: Candidate<P> {
    /// A neighbour of the candidate, with its fitness computed.
    fn get_neighbour(&self, p: &P, rng: &mut StdRng) -> (r: Self)
        requires
            is_sound(*self, p),
        ensures
            is_sound(r, p),
    ;
}

} // verus!
