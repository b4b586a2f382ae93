//! The travelling salesman problem as a candidate representation: a tour is
//! a permutation of the indices of a shared list of locations, and its
//! fitness is the reciprocal of its closed length.

use vstd::prelude::*;
use rand::rngs::StdRng;
use crate::candidate::{Candidate, GaCandidate, SaCandidate, RATE_SCALE};
use crate::fitness::Fitness;
use crate::geometry::{
    closed_length, lemma_partial_length_bound, stops_in_range, tour_length, SQRT_LIMIT,
};
use crate::permutation::{
    check_permutation, cycle_crossover, cycle_crossover_child, identity_tour, is_permutation,
    lemma_rearranged_permutation, lemma_reverse_permutation, lemma_swap_permutation,
    order_crossover, order_crossover_child, reverse_segment, reversed_segment, swap_stops,
    swapped,
};
use crate::random::{below, chance, shuffle};

verus! {

/// Why a tour could not be built.
#[derive(Clone, Copy, Debug, PartialEq, Eq, Structural)]
pub enum TspError {
    /// Fewer than two locations were given.
    TooFewCities,
    /// The tour does not visit every location exactly once.
    NotAPermutation,
}

/// The fitness of a closed tour through `cities`.
pub open spec fn tour_fitness(cities: Seq<(u32, u32)>, tour: Seq<usize>) -> Fitness {
    Fitness { cost: closed_length(cities, tour) as u128 }
}

/// Of two tours through the same locations, the strictly shorter one has the
/// strictly higher fitness.
pub proof fn lemma_shorter_tour_fitter(cities: Seq<(u32, u32)>, shorter: Seq<usize>, longer: Seq<usize>)
    requires
        shorter.len() <= usize::MAX,
        longer.len() <= usize::MAX,
        closed_length(cities, shorter) < closed_length(cities, longer),
    ensures
        tour_fitness(cities, shorter).beats(tour_fitness(cities, longer)),
{
    lemma_partial_length_bound(cities, shorter, shorter.len() as int);
    lemma_partial_length_bound(cities, longer, longer.len() as int);
    assert(longer.len() * SQRT_LIMIT <= u128::MAX) by (nonlinear_arith)
        requires longer.len() <= 0xffff_ffff_ffff_ffff;
}

/// A tour through a list of locations, with its cached fitness.
#[derive(Clone, Debug)]
pub struct TspCandidate {
    tour: Vec<usize>,
    fitness: Fitness,
}

/// The two moves that make a neighbour of a tour.
#[derive(Clone, Copy, Debug, PartialEq, Eq, Structural)]
pub enum NeighbourMethod {
    /// Exchange the stops at two positions.
    Swap,
    /// Reverse the stops between two positions.
    Invert,
}

/// The tour that `method` makes of `s` at positions `i` and `j`, taken in
/// increasing order.
pub open spec fn neighbour_tour(s: Seq<usize>, method: NeighbourMethod, i: int, j: int) -> Seq<usize> {
    let lo = if i <= j { i } else { j };
    let hi = if i <= j { j } else { i };
    match method {
        NeighbourMethod::Swap => swapped(s, lo, hi),
        NeighbourMethod::Invert => reversed_segment(s, lo, hi),
    }
}

impl NeighbourMethod {
    fn get_random(rng: &mut StdRng) -> NeighbourMethod {
        if below(rng, 2) == 0 {
            NeighbourMethod::Swap
        } else {
            NeighbourMethod::Invert
        }
    }
}

/// A permutation of `0..n` stops only at locations below `n`.
proof fn lemma_permutation_in_range(cities: Seq<(u32, u32)>, tour: Seq<usize>)
    requires
        is_permutation(tour, cities.len()),
    ensures
        stops_in_range(cities, tour),
{
}

/// Two distinct positions below `n`, the first the smaller.
fn distinct_positions(n: usize, rng: &mut StdRng) -> (r: (usize, usize))
    requires
        n >= 2,
    ensures
        r.0 < r.1 < n,
{
    let a = below(rng, n);
    let b = below(rng, n - 1);
    let b = if b >= a { b + 1 } else { b };
    if a < b { (a, b) } else { (b, a) }
}

impl TspCandidate {
    /// The stops of the tour, in order.
    pub closed spec fn stops(&self) -> Seq<usize> {
        self.tour@
    }

    /// The cached fitness.
    pub closed spec fn cached(&self) -> Fitness {
        self.fitness
    }

    /// A candidate with the tour `tour` through `cities` and its fitness.
    pub fn new(cities: &Vec<(u32, u32)>, tour: Vec<usize>) -> (r: Result<TspCandidate, TspError>)
        ensures
            cities@.len() < 2 ==> r == Err::<TspCandidate, TspError>(TspError::TooFewCities),
            cities@.len() >= 2 && !is_permutation(tour@, cities@.len()) ==> r == Err::<
                TspCandidate,
                TspError,
            >(TspError::NotAPermutation),
            cities@.len() >= 2 && is_permutation(tour@, cities@.len()) ==> (r matches Ok(c) && c.stops()
                == tour@ && c.cached() == tour_fitness(cities@, tour@)),
    {
        if cities.len() < 2 {
            return Err(TspError::TooFewCities);
        }
        if !check_permutation(&tour, cities.len()) {
            return Err(TspError::NotAPermutation);
        }
        let fitness = TspCandidate::calculate_fitness(cities, &tour);
        Ok(TspCandidate { tour, fitness })
    }

    /// A candidate with a tour through `cities` in random order, and its fitness.
    pub fn new_shuffle(cities: &Vec<(u32, u32)>, rng: &mut StdRng) -> (r: Result<TspCandidate, TspError>)
        ensures
            cities@.len() < 2 <==> r == Err::<TspCandidate, TspError>(TspError::TooFewCities),
            cities@.len() >= 2 ==> r is Ok,
            r matches Ok(c) ==> (is_permutation(c.stops(), cities@.len()) && c.cached()
                == tour_fitness(cities@, c.stops())),
    {
        if cities.len() < 2 {
            return Err(TspError::TooFewCities);
        }
        Ok(TspCandidate::shuffled(cities, rng))
    }

    fn shuffled(cities: &Vec<(u32, u32)>, rng: &mut StdRng) -> (r: TspCandidate)
        ensures
            is_permutation(r.stops(), cities@.len()),
            r.cached() == tour_fitness(cities@, r.stops()),
    {
        let mut tour = identity_tour(cities.len());
        let ghost before = tour@;
        shuffle(&mut tour, rng);
        proof {
            lemma_rearranged_permutation(before, tour@, cities@.len());
        }
        let fitness = TspCandidate::calculate_fitness(cities, &tour);
        TspCandidate { tour, fitness }
    }

    /// A candidate with the tour `tour` whose fitness is still to be
    /// computed; until then it holds the lowest fitness there is.
    pub fn new_without_fitness(tour: Vec<usize>) -> (r: TspCandidate)
        ensures
            r.stops() == tour@,
            r.cached() == (Fitness { cost: u128::MAX }),
    {
        TspCandidate { tour, fitness: Fitness { cost: u128::MAX } }
    }

    /// The stops of the tour.
    pub fn get_chromosome(&self) -> (r: &Vec<usize>)
        ensures
            r@ == self.stops(),
    {
        &self.tour
    }

    /// The neighbour that `method` makes at positions `i` and `j`, with its
    /// fitness computed.
    pub fn neighbour_by(&self, cities: &Vec<(u32, u32)>, method: NeighbourMethod, i: usize, j: usize) -> (r: TspCandidate)
        requires
            is_permutation(self.stops(), cities@.len()),
            i < self.stops().len(),
            j < self.stops().len(),
        ensures
            r.stops() == neighbour_tour(self.stops(), method, i as int, j as int),
            r.cached() == tour_fitness(cities@, r.stops()),
            is_permutation(r.stops(), cities@.len()),
    {
        let (lo, hi) = if i <= j { (i, j) } else { (j, i) };
        let mut tour = self.tour.clone();
        assert(tour@ =~= self.tour@);
        match method {
            NeighbourMethod::Swap => {
                proof {
                    lemma_swap_permutation(tour@, cities@.len(), lo as int, hi as int);
                }
                swap_stops(&mut tour, lo, hi);
            },
            NeighbourMethod::Invert => {
                proof {
                    lemma_reverse_permutation(tour@, cities@.len(), lo as int, hi as int);
                }
                reverse_segment(&mut tour, lo, hi);
            },
        }
        let fitness = TspCandidate::calculate_fitness(cities, &tour);
        TspCandidate { tour, fitness }
    }

    /// The location of the tour's `index`-th stop.
    pub fn stop_location(&self, cities: &Vec<(u32, u32)>, index: usize) -> (r: (u32, u32))
        requires
            is_permutation(self.stops(), cities@.len()),
            index < self.stops().len(),
        ensures
            r == cities@[self.stops()[index as int] as int],
    {
        cities[self.tour[index]]
    }

    /// The fitness of the closed tour `tour` through `cities`.
    pub fn calculate_fitness(cities: &Vec<(u32, u32)>, tour: &Vec<usize>) -> (r: Fitness)
        requires
            stops_in_range(cities@, tour@),
        ensures
            r == tour_fitness(cities@, tour@),
    {
        Fitness { cost: tour_length(cities, tour) }
    }

    /// Cycle crossover from a position drawn at random: the child takes this
    /// tour's stops on the cycle through that position, and `other`'s elsewhere.
    /// Its fitness is yet to be computed.
    pub fn cycle_crossover(&self, other: &TspCandidate, rng: &mut StdRng) -> (r: TspCandidate)
        requires
            is_permutation(self.stops(), self.stops().len()),
            is_permutation(other.stops(), self.stops().len()),
        ensures
            is_permutation(r.stops(), self.stops().len()),
            self.stops().len() > 0 ==> exists|start: int|
                0 <= start < self.stops().len() && r.stops() == cycle_crossover_child(
                    self.stops(),
                    other.stops(),
                    start,
                ),
    {
        let n = self.tour.len();
        if n == 0 {
            return TspCandidate::new_without_fitness(Vec::new());
        }
        let start = below(rng, n);
        let child = cycle_crossover(&self.tour, &other.tour, start);
        TspCandidate::new_without_fitness(child)
    }

    /// Mutates per stop: each position, with probability
    /// `mutation_rate / RATE_SCALE`, exchanges its stop with that of a
    /// position drawn at random. The cached fitness is left as it was.
    pub fn mutate_per_stop(&mut self, mutation_rate: u32, rng: &mut StdRng)
        requires
            mutation_rate <= RATE_SCALE,
        ensures
            final(self).stops().to_multiset() == old(self).stops().to_multiset(),
            final(self).cached() == old(self).cached(),
            mutation_rate == 0 ==> final(self).stops() == old(self).stops(),
    {
        let n = self.tour.len();
        let mut i: usize = 0;
        while i < n
            invariant
                n == self.tour@.len(),
                mutation_rate <= RATE_SCALE,
                i <= n,
                self.tour@.to_multiset() == old(self).tour@.to_multiset(),
                self.fitness == old(self).fitness,
                mutation_rate == 0 ==> self.tour@ == old(self).tour@,
            decreases n - i,
        {
            if chance(rng, mutation_rate, RATE_SCALE) {
                let j = below(rng, n);
                let ghost before = self.tour@;
                swap_stops(&mut self.tour, i, j);
                proof {
                    lemma_swap_multiset(before, i as int, j as int);
                }
            }
            i = i + 1;
        }
    }
}

/// Exchanging two values keeps the multiset of a sequence.
proof fn lemma_swap_multiset(s: Seq<usize>, i: int, j: int)
    requires
        0 <= i < s.len(),
        0 <= j < s.len(),
    ensures
        swapped(s, i, j).to_multiset() == s.to_multiset(),
{
    broadcast use vstd::seq_lib::group_to_multiset_ensures;
    broadcast use vstd::multiset::group_multiset_axioms;

    let t = s.update(i, s[j]);
    assert(t.to_multiset() == s.to_multiset().remove(s[i]).insert(s[j]));
    assert(swapped(s, i, j).to_multiset() == t.to_multiset().remove(t[j]).insert(s[i]));
    if i == j {
        assert(swapped(s, i, j) =~= s);
    } else {
        assert(t[j] == s[j]);
        assert(swapped(s, i, j).to_multiset() =~= s.to_multiset());
    }
}

impl Candidate<Vec<(u32, u32)>> for TspCandidate {
    /// A tour needs at least two locations.
    open spec fn admits(p: &Vec<(u32, u32)>) -> bool {
        p@.len() >= 2
    }

    fn admits_problem(p: &Vec<(u32, u32)>) -> (r: bool) {
        p.len() >= 2
    }

    open spec fn valid_for(&self, p: &Vec<(u32, u32)>) -> bool {
        is_permutation(self.stops(), p@.len())
    }

    open spec fn cached_fitness(&self) -> Fitness {
        self.cached()
    }

    open spec fn fitness_in(&self, p: &Vec<(u32, u32)>) -> Fitness {
        tour_fitness(p@, self.stops())
    }

    open spec fn same_representation(&self, other: TspCandidate) -> bool {
        self.stops() == other.stops()
    }

    fn get_fitness(&self) -> (r: Fitness) {
        self.fitness
    }

    fn self_calculate_fitness(&mut self, p: &Vec<(u32, u32)>)
        ensures
            final(self).stops() == old(self).stops(),
            final(self).cached() == tour_fitness(p@, old(self).stops()),
    {
        proof {
            lemma_permutation_in_range(p@, self.tour@);
        }
        self.fitness = TspCandidate::calculate_fitness(p, &self.tour);
    }

    fn is_sound_for(&self, p: &Vec<(u32, u32)>) -> (r: bool) {
        if !check_permutation(&self.tour, p.len()) {
            return false;
        }
        TspCandidate::calculate_fitness(p, &self.tour) == self.fitness
    }

    fn duplicate(&self) -> (r: TspCandidate)
        ensures
            r.stops() == self.stops(),
    {
        let tour = self.tour.clone();
        assert(tour@ =~= self.tour@);
        TspCandidate { tour, fitness: self.fitness }
    }

    fn new_random(p: &Vec<(u32, u32)>, rng: &mut StdRng) -> (r: TspCandidate) {
        TspCandidate::shuffled(p, rng)
    }
}

impl GaCandidate<Vec<(u32, u32)>> for TspCandidate {
    /// Order crossover of `a` and `b` at some cut points; a tour of fewer than
    /// two stops is passed on as it is.
    open spec fn child_of(&self, a: TspCandidate, b: TspCandidate) -> bool {
        if a.stops().len() >= 2 {
            exists|i: int, j: int|
                0 <= i < j < a.stops().len() && self.stops() == order_crossover_child(
                    a.stops(),
                    b.stops(),
                    i,
                    j,
                )
        } else {
            self.stops() == a.stops()
        }
    }

    /// A rearrangement of the stops of `before`.
    open spec fn mutant_of(&self, before: TspCandidate) -> bool {
        self.stops().to_multiset() == before.stops().to_multiset()
    }

    /// With probability `mutation_rate / RATE_SCALE`, exchanges the stops at
    /// two distinct positions drawn at random.
    fn mutate(&mut self, p: &Vec<(u32, u32)>, mutation_rate: u32, rng: &mut StdRng)
        ensures
            final(self).cached() == old(self).cached(),
            final(self).stops() == old(self).stops() || exists|i: int, j: int|
                0 <= i < j < old(self).stops().len() && final(self).stops() == swapped(
                    old(self).stops(),
                    i,
                    j,
                ),
            mutation_rate == 0 ==> final(self).stops() == old(self).stops(),
            mutation_rate == RATE_SCALE && old(self).stops().len() >= 2 ==> exists|i: int, j: int|
                0 <= i < j < old(self).stops().len() && final(self).stops() == swapped(
                    old(self).stops(),
                    i,
                    j,
                ),
    {
        let n = self.tour.len();
        let ghost before = self.tour@;
        if n >= 2 && chance(rng, mutation_rate, RATE_SCALE) {
            let (i, j) = distinct_positions(n, rng);
            proof {
                lemma_swap_permutation(self.tour@, p@.len(), i as int, j as int);
            }
            swap_stops(&mut self.tour, i, j);
            proof {
                lemma_swap_multiset(before, i as int, j as int);
            }
        }
    }

    /// Each position, with probability `mutation_rate / RATE_SCALE`,
    /// exchanges its stop with that of a position drawn at random.
    fn mutate_per_gene(&mut self, p: &Vec<(u32, u32)>, mutation_rate: u32, rng: &mut StdRng) {
        let ghost before = self.stops();
        self.mutate_per_stop(mutation_rate, rng);
        proof {
            lemma_rearranged_permutation(before, self.stops(), p@.len());
        }
    }

    /// Order crossover at two distinct cut points drawn at random.
    fn crossover(&self, other: &TspCandidate, p: &Vec<(u32, u32)>, rng: &mut StdRng) -> (r: TspCandidate)
        ensures
            r.cached() == (Fitness { cost: u128::MAX }),
            self.stops().len() >= 2 ==> exists|i: int, j: int|
                0 <= i < j < self.stops().len() && r.stops() == order_crossover_child(
                    self.stops(),
                    other.stops(),
                    i,
                    j,
                ),
    {
        let n = self.tour.len();
        if n < 2 {
            let tour = self.tour.clone();
            assert(tour@ =~= self.tour@);
            return TspCandidate::new_without_fitness(tour);
        }
        let (i, j) = distinct_positions(n, rng);
        let child = order_crossover(&self.tour, &other.tour, i, j);
        TspCandidate::new_without_fitness(child)
    }
}

impl SaCandidate<Vec<(u32, u32)>> for TspCandidate {
    /// Exchanges two stops, or reverses the segment between two positions;
    /// the move and the positions are drawn at random.
    fn get_neighbour(&self, p: &Vec<(u32, u32)>, rng: &mut StdRng) -> (r: TspCandidate)
        ensures
            self.stops().len() > 0 ==> exists|method: NeighbourMethod, i: int, j: int|
                0 <= i < self.stops().len() && 0 <= j < self.stops().len() && r.stops()
                    == neighbour_tour(self.stops(), method, i, j),
    {
        let n = self.tour.len();
        if n == 0 {
            return self.duplicate();
        }
        let method = NeighbourMethod::get_random(rng);
        let i = below(rng, n);
        let j = below(rng, n);
        self.neighbour_by(p, method, i, j)
    }
}

} // verus!
