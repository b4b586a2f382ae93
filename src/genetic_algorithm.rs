//! The generational genetic algorithm: each step sorts the population by
//! fitness, records the best candidates, selects parents and replaces the
//! population with their offspring and the elite.

use vstd::prelude::*;
use rand::rngs::StdRng;
use crate::candidate::{is_sound, Candidate, GaCandidate, RATE_SCALE};
use crate::fitness::Fitness;
use crate::random::below;
use crate::selection::{
    all_sound, copy_of, copy_of_member, fittest_copies, leads_with_fittest, lemma_copies_sound,
    lemma_first_is_fittest, lemma_rearranged_sound, rearranged_copies, roulette_wheel_selection,
    sort_by_fitness, sorted_by_fitness, tournament_selection, truncation_selection,
    SelectionMethod,
};

verus! {

/// The probability, out of `RATE_SCALE`, that the fittest entrant wins a tournament.
pub const BEST_PICK_PROBABILITY: u32 = 800_000;

/// How the population is rebuilt from the parents.
#[derive(Clone, Copy, Debug, PartialEq, Eq, Structural)]
pub enum Repopulation {
    /// The elite, and offspring for every other place.
    Explorative,
    /// The elite, offspring for the places the parents leave, the parents
    /// themselves after one mutation, and random candidates for what is left.
    Exploitative,
}

/// Which mutation offspring undergo.
#[derive(Clone, Copy, Debug, PartialEq, Eq, Structural)]
pub enum MutationKind {
    /// One mutation of the whole candidate, with the mutation rate.
    PerIndividual,
    /// A mutation of each part independently, with the mutation rate.
    PerGene,
}

/// The settings of a run. Rates and fractions are parts of `RATE_SCALE`.
#[derive(Clone, Copy, Debug, PartialEq, Eq, Structural)]
pub struct GaConfig {
    pub mutation_rate: u32,
    pub selection_fraction: u32,
    pub elitism_fraction: u32,
    pub selection_method: SelectionMethod,
    pub repopulation: Repopulation,
    pub mutation: MutationKind,
    /// When a generation brings no improvement, its best member is replaced by
    /// the best candidate found so far.
    pub reinject_best: bool,
}

/// Why a genetic algorithm could not be set up.
#[derive(Clone, Copy, Debug, PartialEq, Eq, Structural)]
pub enum GaError {
    /// Fewer than two candidates.
    PopulationTooSmall,
    /// A mutation rate above one.
    InvalidMutationRate,
    /// A selection fraction above one.
    InvalidSelectionFraction,
    /// An elitism fraction above the selection fraction.
    ElitismAboveSelection,
    /// The selection fraction selects no parent at all.
    NoParents,
    /// A tournament of fewer than two, or of more than the population.
    InvalidTournamentSize,
    /// A problem instance that admits no candidates, such as too few locations.
    DegenerateProblem,
    /// A candidate that is not a valid solution or whose fitness is stale.
    UnsoundCandidate,
}

/// The number of members that a fraction of a population of `n` makes, rounded down.
pub open spec fn share(n: nat, fraction: u32) -> nat {
    n * (fraction as nat) / (RATE_SCALE as nat)
}

/// The first setting of `c` that a population of `n` does not admit, if any.
pub open spec fn config_error(c: GaConfig, n: nat) -> Option<GaError> {
    if n < 2 {
        Some(GaError::PopulationTooSmall)
    } else if c.mutation_rate > RATE_SCALE {
        Some(GaError::InvalidMutationRate)
    } else if c.selection_fraction > RATE_SCALE {
        Some(GaError::InvalidSelectionFraction)
    } else if c.elitism_fraction > c.selection_fraction {
        Some(GaError::ElitismAboveSelection)
    } else if share(n, c.selection_fraction) == 0 {
        Some(GaError::NoParents)
    } else if (match c.selection_method {
        SelectionMethod::Tournament(k) => k < 2 || k > n,
        _ => false,
    }) {
        Some(GaError::InvalidTournamentSize)
    } else {
        None
    }
}

/// The share of a population that a fraction makes, and its bounds.
proof fn lemma_share(n: nat, small: u32, large: u32)
    requires
        small <= large <= RATE_SCALE,
    ensures
        share(n, small) <= share(n, large) <= n,
{
    assert(n * (small as nat) <= n * (large as nat)) by (nonlinear_arith)
        requires small <= large;
    assert(n * (large as nat) <= n * (RATE_SCALE as nat)) by (nonlinear_arith)
        requires large <= RATE_SCALE;
    vstd::arithmetic::div_mod::lemma_div_is_ordered(
        n * (small as nat) as int,
        n * (large as nat) as int,
        RATE_SCALE as int,
    );
    vstd::arithmetic::div_mod::lemma_div_is_ordered(
        n * (large as nat) as int,
        n * (RATE_SCALE as nat) as int,
        RATE_SCALE as int,
    );
    vstd::arithmetic::div_mod::lemma_div_by_multiple(n as int, RATE_SCALE as int);
}

/// The number of members that `fraction` of a population of `n` makes.
fn share_of(n: usize, fraction: u32) -> (r: usize)
    requires
        fraction <= RATE_SCALE,
    ensures
        r == share(n as nat, fraction),
{
    proof {
        lemma_share(n as nat, fraction, fraction);
        assert(n * (fraction as nat) <= 0x1_0000_0000_0000_0000 * 1_000_000) by (nonlinear_arith)
            requires n <= usize::MAX, fraction <= 1_000_000;
    }
    ((n as u128) * (fraction as u128) / (RATE_SCALE as u128)) as usize
}

/// A genetic algorithm over candidates of type `T` for a problem of type `P`.
pub struct GA<T, P> {
    problem: P,
    population: Vec<T>,
    population_size: usize,
    config: GaConfig,
    selection_target: usize,
    elitism_target: usize,
    best: T,
    current_best: T,
    generation: u64,
}

impl<P, T: GaCandidate<P>> GA<T, P> {
    /// The current population.
    pub closed spec fn members(&self) -> Seq<T> {
        self.population@
    }

    /// The problem instance.
    pub closed spec fn instance(&self) -> P {
        self.problem
    }

    /// The settings of the run.
    pub closed spec fn settings(&self) -> GaConfig {
        self.config
    }

    /// The best candidate found so far.
    pub closed spec fn best_found(&self) -> T {
        self.best
    }

    /// The best member of the latest sorted generation.
    pub closed spec fn latest_best(&self) -> T {
        self.current_best
    }

    /// The number of generations run.
    pub closed spec fn generations(&self) -> u64 {
        self.generation
    }

    /// The population size, the selection target and the elite size.
    pub closed spec fn sizes(&self) -> (nat, nat, nat) {
        (self.population_size as nat, self.selection_target as nat, self.elitism_target as nat)
    }

    /// The state of the algorithm is consistent: the settings are admitted,
    /// the population has its size, and every candidate kept is sound.
    pub open spec fn wf(&self) -> bool {
        &&& config_error(self.settings(), self.sizes().0) is None
        &&& self.members().len() == self.sizes().0
        &&& self.sizes().1 == share(self.sizes().0, self.settings().selection_fraction)
        &&& self.sizes().2 == share(self.sizes().0, self.settings().elitism_fraction)
        &&& self.sizes().2 <= self.sizes().1 <= self.sizes().0
        &&& all_sound::<P, T>(self.members(), &self.instance())
        &&& is_sound(self.best_found(), &self.instance())
        &&& is_sound(self.latest_best(), &self.instance())
    }

    /// Sets up a run on `problem` from an initial population.
    pub fn new(problem: P, population: Vec<T>, config: GaConfig) -> (r: Result<GA<T, P>, GaError>)
        ensures
            config_error(config, population@.len()) matches Some(e) ==> r == Err::<GA<T, P>, GaError>(e),
            config_error(config, population@.len()) is None && !T::admits(&problem) ==> r == Err::<
                GA<T, P>,
                GaError,
            >(GaError::DegenerateProblem),
            config_error(config, population@.len()) is None && T::admits(&problem) && !all_sound::<
                P,
                T,
            >(population@, &problem) ==> r == Err::<GA<T, P>, GaError>(GaError::UnsoundCandidate),
            config_error(config, population@.len()) is None && T::admits(&problem) && all_sound::<
                P,
                T,
            >(population@, &problem) ==> (r matches Ok(ga) && ga.wf() && ga.members() == population@ && ga.instance() == problem
                && ga.settings() == config && ga.generations() == 0
                && forall|i: int| 0 <= i < population@.len() ==> ga.best_found().cached_fitness().at_least(
                    #[trigger] population@[i].cached_fitness(),
                )),
    {
        let n = population.len();
        if n < 2 {
            return Err(GaError::PopulationTooSmall);
        }
        if config.mutation_rate > RATE_SCALE {
            return Err(GaError::InvalidMutationRate);
        }
        if config.selection_fraction > RATE_SCALE {
            return Err(GaError::InvalidSelectionFraction);
        }
        if config.elitism_fraction > config.selection_fraction {
            return Err(GaError::ElitismAboveSelection);
        }
        let selection_target = share_of(n, config.selection_fraction);
        let elitism_target = share_of(n, config.elitism_fraction);
        proof {
            lemma_share(n as nat, config.elitism_fraction, config.selection_fraction);
        }
        if selection_target == 0 {
            return Err(GaError::NoParents);
        }
        match config.selection_method {
            SelectionMethod::Tournament(k) => {
                if k < 2 || k > n {
                    return Err(GaError::InvalidTournamentSize);
                }
            },
            _ => {},
        }
        if !T::admits_problem(&problem) {
            return Err(GaError::DegenerateProblem);
        }
        let mut i: usize = 0;
        let mut best_index: usize = 0;
        while i < n
            invariant
                n == population@.len(),
                config_error(config, n as nat) is None,
                T::admits(&problem),
                i <= n,
                best_index < n,
                all_sound::<P, T>(population@.subrange(0, i as int), &problem),
                forall|m: int| 0 <= m < i ==> population@[best_index as int].cached_fitness().at_least(
                    #[trigger] population@[m].cached_fitness(),
                ),
            decreases n - i,
        {
            if !population[i].is_sound_for(&problem) {
                assert(!is_sound(population@[i as int], &problem));
                return Err(GaError::UnsoundCandidate);
            }
            assert(population@.subrange(0, i + 1)[i as int] == population@[i as int]);
            if population[i].get_fitness().exceeds(&population[best_index].get_fitness()) {
                best_index = i;
            }
            i = i + 1;
        }
        assert(population@.subrange(0, n as int) =~= population@);
        let best = population[best_index].duplicate();
        let current_best = population[best_index].duplicate();
        Ok(GA {
            problem,
            population,
            population_size: n,
            config,
            selection_target,
            elitism_target,
            best,
            current_best,
            generation: 0,
        })
    }

    /// Sets up a run on `problem` with `population_size` random candidates.
    pub fn populate(problem: P, population_size: usize, config: GaConfig, rng: &mut StdRng) -> (r: Result<
        GA<T, P>,
        GaError,
    >)
        ensures
            config_error(config, population_size as nat) matches Some(e) ==> r == Err::<GA<T, P>, GaError>(e),
            config_error(config, population_size as nat) is None && !T::admits(&problem) ==> r == Err::<
                GA<T, P>,
                GaError,
            >(GaError::DegenerateProblem),
            config_error(config, population_size as nat) is None && T::admits(&problem) ==> (r matches Ok(ga) && ga.wf()
                && ga.members().len() == population_size && ga.instance() == problem && ga.settings()
                == config && ga.generations() == 0 && forall|i: int|
                0 <= i < population_size ==> ga.best_found().cached_fitness().at_least(
                    #[trigger] ga.members()[i].cached_fitness(),
                )),
    {
        if population_size < 2 {
            return Err(GaError::PopulationTooSmall);
        }
        let mut population: Vec<T> = Vec::new();
        while population.len() < population_size
            invariant
                population@.len() <= population_size,
                all_sound::<P, T>(population@, &problem),
            decreases population_size - population@.len(),
        {
            let candidate = T::new_random(&problem, rng);
            let ghost before = population@;
            population.push(candidate);
            assert(forall|i: int| 0 <= i < before.len() ==> population@[i] == before[i]);
        }
        GA::new(problem, population, config)
    }

    /// Chooses parents from the population, which is sorted by fitness, with
    /// the configured method: the selection target of them, each a copy of a
    /// member. Truncation takes the first members, the fittest; a tournament
    /// selection starts with copies of the fittest members.
    pub fn select(&self, rng: &mut StdRng) -> (r: Vec<T>)
        requires
            self.wf(),
            sorted_by_fitness::<P, T>(self.members()),
        ensures
            r@.len() == self.sizes().1,
            forall|i: int| 0 <= i < r@.len() ==> copy_of_member::<P, T>(#[trigger] r@[i], self.members()),
            self.settings().selection_method is Truncation ==> forall|i: int|
                0 <= i < r@.len() ==> copy_of::<P, T>(#[trigger] r@[i], self.members()[i]),
            self.settings().selection_method is Tournament ==> leads_with_fittest::<P, T>(
                r@,
                self.members(),
                self.sizes().2,
            ),
            self.settings().selection_method is Tournament && 0 < self.sizes().2 ==> forall|j: int|
                0 <= j < self.members().len() ==> r@[0].cached_fitness().at_least(
                    (#[trigger] self.members()[j]).cached_fitness(),
                ),
    {
        match self.config.selection_method {
            SelectionMethod::Tournament(k) => tournament_selection(
                k,
                self.selection_target,
                &self.population,
                BEST_PICK_PROBABILITY,
                self.elitism_target,
                rng,
            ),
            SelectionMethod::RouletteWheel => roulette_wheel_selection(
                &self.population,
                self.selection_target,
                rng,
            ),
            SelectionMethod::Truncation => {
                let r = truncation_selection(&self.population, self.selection_target);
                assert forall|i: int| 0 <= i < r@.len() implies copy_of_member::<P, T>(#[trigger] r@[i], self.population@) by {
                    assert(copy_of::<P, T>(r@[i], self.population@[i]));
                }
                r
            },
        }
    }

    /// Replaces the population: first copies of the fittest parents (the
    /// elite), then offspring of parents drawn uniformly at random, crossed
    /// over, mutated and with their fitness computed. An exploitative
    /// repopulation makes offspring only for the places the parents leave,
    /// then takes back the parents, each after one certain mutation, and
    /// fills what is left with random candidates.
    pub fn repopulate(&mut self, parents: Vec<T>, rng: &mut StdRng)
        requires
            old(self).wf(),
            parents@.len() == old(self).sizes().1,
            all_sound::<P, T>(parents@, &old(self).instance()),
        ensures
            final(self).wf(),
            final(self).instance() == old(self).instance(),
            final(self).settings() == old(self).settings(),
            final(self).sizes() == old(self).sizes(),
            final(self).best_found() == old(self).best_found(),
            final(self).latest_best() == old(self).latest_best(),
            final(self).generations() == old(self).generations(),
            leads_with_fittest::<P, T>(final(self).members(), parents@, final(self).sizes().2),
            0 < final(self).sizes().2 ==> forall|j: int|
                0 <= j < parents@.len() ==> final(self).members()[0].cached_fitness().at_least(
                    (#[trigger] parents@[j]).cached_fitness(),
                ),
            forall|i: int|
                final(self).sizes().2 <= i < offspring_end(final(self).settings(), final(self).sizes())
                    ==> bred_from::<P, T>(#[trigger] final(self).members()[i], parents@),
            final(self).settings().repopulation is Exploitative ==> forall|i: int|
                offspring_end(final(self).settings(), final(self).sizes()) <= i < final(self).sizes().0
                    && i < offspring_end(final(self).settings(), final(self).sizes()) + parents@.len()
                    ==> reinserted_parent::<P, T>(
                    #[trigger] final(self).members()[i],
                    parents@[i - offspring_end(final(self).settings(), final(self).sizes())],
                ),
    {
        let ghost problem = self.problem;
        let pop = self.population_size;
        let elite = self.elitism_target;
        let mut next = fittest_copies(&parents, elite);
        let ghost elite_copies = next@;
        proof {
            lemma_copies_sound::<P, T>(next@, parents@, &problem);
        }
        let end: usize = match self.config.repopulation {
            Repopulation::Explorative => pop,
            Repopulation::Exploitative => elite + (pop - self.selection_target),
        };
        assert(end == offspring_end(self.config, self.sizes()));
        while next.len() < end
            invariant
                self.wf(),
                self.problem == problem,
                pop == self.population_size,
                elite == self.elitism_target,
                elite <= end <= pop,
                elite <= next@.len() <= end,
                0 < parents@.len(),
                all_sound::<P, T>(parents@, &problem),
                all_sound::<P, T>(next@, &problem),
                elite_copies.len() == elite,
                forall|i: int| 0 <= i < elite ==> next@[i] == elite_copies[i],
                forall|i: int|
                    elite <= i < next@.len() ==> bred_from::<P, T>(#[trigger] next@[i], parents@),
            decreases end - next@.len(),
        {
            let child = offspring(&self.problem, &parents, self.config, rng);
            let ghost before = next@;
            next.push(child);
            assert(forall|i: int| 0 <= i < before.len() ==> next@[i] == before[i]);
        }
        if self.config.repopulation == Repopulation::Exploitative {
            let mut k: usize = 0;
            while k < parents.len() && next.len() < pop
                invariant
                    self.wf(),
                    self.problem == problem,
                    pop == self.population_size,
                    elite == self.elitism_target,
                    elite <= end <= pop,
                    next@.len() == end + k,
                    next@.len() <= pop,
                    k <= parents@.len(),
                    all_sound::<P, T>(parents@, &problem),
                    all_sound::<P, T>(next@, &problem),
                    elite_copies.len() == elite,
                forall|i: int| 0 <= i < elite ==> next@[i] == elite_copies[i],
                    forall|i: int|
                        elite <= i < end ==> bred_from::<P, T>(#[trigger] next@[i], parents@),
                    forall|i: int|
                        end <= i < next@.len() ==> reinserted_parent::<P, T>(
                            #[trigger] next@[i],
                            parents@[i - end],
                        ),
                decreases parents@.len() - k,
            {
                let mut parent = parents[k].duplicate();
                let ghost copied = parent;
                assert(is_sound(parents@[k as int], &problem));
                parent.mutate(&self.problem, RATE_SCALE, rng);
                let ghost mutated = parent;
                parent.self_calculate_fitness(&self.problem);
                assert(reinserted_parent::<P, T>(parent, parents@[k as int])) by {
                    assert(copied.same_representation(parents@[k as int]));
                    assert(mutated.mutant_of(copied));
                }
                let ghost before = next@;
                next.push(parent);
                assert(forall|i: int| 0 <= i < before.len() ==> next@[i] == before[i]);
                k = k + 1;
            }
            while next.len() < pop
                invariant
                    self.wf(),
                    self.problem == problem,
                    pop == self.population_size,
                    elite == self.elitism_target,
                    elite <= end <= next@.len() <= pop,
                    next@.len() >= end + parents@.len() || next@.len() == pop,
                    all_sound::<P, T>(next@, &problem),
                    elite_copies.len() == elite,
                forall|i: int| 0 <= i < elite ==> next@[i] == elite_copies[i],
                    forall|i: int|
                        elite <= i < end ==> bred_from::<P, T>(#[trigger] next@[i], parents@),
                    forall|i: int|
                        end <= i < next@.len() && i < end + parents@.len() ==> reinserted_parent::<P, T>(
                            #[trigger] next@[i],
                            parents@[i - end],
                        ),
                decreases pop - next@.len(),
            {
                let fresh = T::new_random(&self.problem, rng);
                let ghost before = next@;
                next.push(fresh);
                assert(forall|i: int| 0 <= i < before.len() ==> next@[i] == before[i]);
            }
        }
        proof {
            lemma_leads_prefix::<P, T>(next@, elite_copies, parents@, elite as nat);
        }
        self.population = next;
    }

    /// Runs one generation: sorts the population by fitness, records its best
    /// member and, if it is fitter, makes it the best found so far (otherwise,
    /// when so configured, puts the best found so far in its place), selects
    /// parents and repopulates. With an elite and truncation or tournament
    /// selection, the first member of the new population is at least as fit
    /// as every member of the old one.
    pub fn step(&mut self, rng: &mut StdRng)
        requires
            old(self).wf(),
        ensures
            final(self).wf(),
            final(self).instance() == old(self).instance(),
            final(self).settings() == old(self).settings(),
            final(self).sizes() == old(self).sizes(),
            final(self).members().len() == old(self).members().len(),
            final(self).best_found().cached_fitness().at_least(old(self).best_found().cached_fitness()),
            forall|j: int|
                0 <= j < old(self).members().len() ==> final(self).best_found().cached_fitness().at_least(
                    (#[trigger] old(self).members()[j]).cached_fitness(),
                ),
            forall|j: int|
                0 <= j < old(self).members().len() ==> final(self).latest_best().cached_fitness().at_least(
                    (#[trigger] old(self).members()[j]).cached_fitness(),
                ),
            copy_of_member::<P, T>(final(self).latest_best(), old(self).members()),
            0 < old(self).sizes().2 && !(old(self).settings().selection_method is RouletteWheel)
                ==> forall|j: int|
                0 <= j < old(self).members().len() ==> final(self).members()[0].cached_fitness().at_least(
                    (#[trigger] old(self).members()[j]).cached_fitness(),
                ),
            final(self).generations() == if old(self).generations() < u64::MAX {
                old(self).generations() + 1
            } else {
                old(self).generations() as int
            },
    {
        let ghost problem = self.problem;
        let mut population: Vec<T> = Vec::new();
        std::mem::swap(&mut population, &mut self.population);
        let ghost unsorted = population@;
        let mut sorted = sort_by_fitness::<P, T>(population);
        proof {
            lemma_rearranged_sound::<P, T>(sorted@, unsorted, &problem);
            lemma_first_is_fittest::<P, T>(sorted@, unsorted);
        }
        let top = sorted[0].duplicate();
        assert(copy_of::<P, T>(top, sorted@[0]));
        proof {
            lemma_rearranged_copy_member::<P, T>(top, sorted@, unsorted);
        }
        if top.get_fitness().exceeds(&self.best.get_fitness()) {
            self.best = sorted[0].duplicate();
        } else if self.config.reinject_best {
            let ghost before = sorted@;
            let kept = self.best.duplicate();
            sorted.set(0, kept);
            assert forall|a: int, b: int| 0 <= a < b < sorted@.len() implies (#[trigger] sorted@[a]).cached_fitness().at_least(
                (#[trigger] sorted@[b]).cached_fitness(),
            ) by {
                if a == 0 {
                    assert(before[0].cached_fitness().at_least(before[b].cached_fitness()));
                } else {
                    assert(sorted@[a] == before[a]);
                }
            }
            assert forall|i: int| 0 <= i < sorted@.len() implies is_sound(#[trigger] sorted@[i], &problem) by {
                if i != 0 {
                    assert(sorted@[i] == before[i]);
                } else {
                    assert(kept.valid_for(&problem) == self.best.valid_for(&problem));
                    assert(kept.fitness_in(&problem) == self.best.fitness_in(&problem));
                }
            }
        }
        let ghost leader = sorted@[0];
        assert(forall|j: int|
            0 <= j < unsorted.len() ==> leader.cached_fitness().at_least(
                (#[trigger] unsorted[j]).cached_fitness(),
            ));
        self.current_best = top;
        self.population = sorted;
        let parents = self.select(rng);
        proof {
            lemma_copies_sound::<P, T>(parents@, self.population@, &problem);
            if 0 < self.elitism_target && !(self.config.selection_method is RouletteWheel) {
                assert(parents@[0].cached_fitness().at_least(leader.cached_fitness())) by {
                    if self.config.selection_method is Truncation {
                        assert(copy_of::<P, T>(parents@[0], self.population@[0]));
                    }
                }
            }
        }
        self.repopulate(parents, rng);
        if self.generation < u64::MAX {
            self.generation = self.generation + 1;
        }
    }

    /// Runs `generations` generations.
    pub fn run(&mut self, generations: u64, rng: &mut StdRng)
        requires
            old(self).wf(),
        ensures
            final(self).wf(),
            final(self).instance() == old(self).instance(),
            final(self).settings() == old(self).settings(),
            final(self).sizes() == old(self).sizes(),
            final(self).best_found().cached_fitness().at_least(old(self).best_found().cached_fitness()),
            0 < generations ==> forall|j: int|
                0 <= j < old(self).members().len() ==> final(self).best_found().cached_fitness().at_least(
                    (#[trigger] old(self).members()[j]).cached_fitness(),
                ),
            final(self).generations() == if old(self).generations() + generations <= u64::MAX {
                old(self).generations() + generations
            } else {
                u64::MAX as int
            },
    {
        let mut g: u64 = 0;
        while g < generations
            invariant
                g <= generations,
                g == 0 ==> self.members() == old(self).members(),
                self.wf(),
                self.instance() == old(self).instance(),
                self.settings() == old(self).settings(),
                self.sizes() == old(self).sizes(),
                self.best_found().cached_fitness().at_least(old(self).best_found().cached_fitness()),
                0 < g ==> forall|j: int|
                    0 <= j < old(self).members().len() ==> self.best_found().cached_fitness().at_least(
                        (#[trigger] old(self).members()[j]).cached_fitness(),
                    ),
                self.generations() == if old(self).generations() + g <= u64::MAX {
                    old(self).generations() + g
                } else {
                    u64::MAX as int
                },
            decreases generations - g,
        {
            self.step(rng);
            g = g + 1;
        }
    }

    /// A copy of the fittest member of the current population.
    pub fn best(&self) -> (r: T)
        requires
            self.wf(),
        ensures
            copy_of_member::<P, T>(r, self.members()),
            forall|j: int|
                0 <= j < self.members().len() ==> r.cached_fitness().at_least(
                    (#[trigger] self.members()[j]).cached_fitness(),
                ),
            is_sound(r, &self.instance()),
    {
        let n = self.population.len();
        let mut best_index: usize = 0;
        let mut i: usize = 1;
        while i < n
            invariant
                n == self.population@.len(),
                0 < n,
                1 <= i <= n,
                best_index < n,
                forall|m: int| 0 <= m < i ==> self.population@[best_index as int].cached_fitness().at_least(
                    #[trigger] self.population@[m].cached_fitness(),
                ),
            decreases n - i,
        {
            if self.population[i].get_fitness().exceeds(&self.population[best_index].get_fitness()) {
                best_index = i;
            }
            i = i + 1;
        }
        let r = self.population[best_index].duplicate();
        assert(copy_of::<P, T>(r, self.population@[best_index as int]));
        assert(is_sound(self.population@[best_index as int], &self.problem));
        r
    }

    /// A copy of the best candidate found so far.
    pub fn best_ever(&self) -> (r: T)
        requires
            self.wf(),
        ensures
            copy_of::<P, T>(r, self.best_found()),
            is_sound(r, &self.instance()),
    {
        self.best.duplicate()
    }

    /// The current population.
    pub fn population(&self) -> (r: &Vec<T>)
        ensures
            r@ == self.members(),
    {
        &self.population
    }

    /// A copy of the best member of the latest sorted generation.
    pub fn current_best(&self) -> (r: T)
        ensures
            copy_of::<P, T>(r, self.latest_best()),
    {
        self.current_best.duplicate()
    }

    /// The fitness of the best candidate found so far.
    pub fn best_fitness(&self) -> (r: Fitness)
        ensures
            r == self.best_found().cached_fitness(),
    {
        self.best.get_fitness()
    }

    /// The number of generations run.
    pub fn get_iteration(&self) -> (r: u64)
        ensures
            r == self.generations(),
    {
        self.generation
    }

    /// The problem instance.
    pub fn problem(&self) -> (r: &P)
        ensures
            *r == self.instance(),
    {
        &self.problem
    }

    /// The population size.
    pub fn population_size(&self) -> (r: usize)
        ensures
            r == self.sizes().0,
    {
        self.population_size
    }

    /// The number of parents selected each generation.
    pub fn selection_target(&self) -> (r: usize)
        ensures
            r == self.sizes().1,
    {
        self.selection_target
    }

    /// The number of elite members carried over each generation.
    pub fn elitism_target(&self) -> (r: usize)
        ensures
            r == self.sizes().2,
    {
        self.elitism_target
    }
}

/// `m` holds a mutation of a crossover of `a` and `b`.
pub open spec fn offspring_of<P, T: GaCandidate<P>>(m: T, a: T, b: T) -> bool {
    exists|c: T, d: T|
        #![trigger c.child_of(a, b), d.mutant_of(c)]
        c.child_of(a, b) && d.mutant_of(c) && m.same_representation(d)
}

/// `m` is an offspring of two members of `parents`.
pub open spec fn bred_from<P, T: GaCandidate<P>>(m: T, parents: Seq<T>) -> bool {
    exists|a: int, b: int|
        0 <= a < parents.len() && 0 <= b < parents.len() && #[trigger] offspring_of::<P, T>(
            m,
            parents[a],
            parents[b],
        )
}

/// `m` holds a mutation of the representation of `parent`.
pub open spec fn reinserted_parent<P, T: GaCandidate<P>>(m: T, parent: T) -> bool {
    exists|c: T, d: T|
        #![trigger c.same_representation(parent), d.mutant_of(c)]
        c.same_representation(parent) && d.mutant_of(c) && m.same_representation(d)
}

/// The position after the last offspring in a repopulated population.
pub open spec fn offspring_end(c: GaConfig, sizes: (nat, nat, nat)) -> nat {
    match c.repopulation {
        Repopulation::Explorative => sizes.0,
        Repopulation::Exploitative => (sizes.2 + (sizes.0 - sizes.1)) as nat,
    }
}

/// An offspring of two parents drawn uniformly at random: crossed over,
/// mutated as configured, and with its fitness computed.
fn offspring<P, T: GaCandidate<P>>(problem: &P, parents: &Vec<T>, config: GaConfig, rng: &mut StdRng) -> (r: T)
    requires
        0 < parents@.len(),
        all_sound::<P, T>(parents@, problem),
        config.mutation_rate <= RATE_SCALE,
    ensures
        is_sound(r, problem),
        bred_from::<P, T>(r, parents@),
{
    let a = below(rng, parents.len());
    let b = below(rng, parents.len());
    assert(is_sound(parents@[a as int], problem));
    assert(is_sound(parents@[b as int], problem));
    let mut child = parents[a].crossover(&parents[b], problem, rng);
    let ghost crossed = child;
    match config.mutation {
        MutationKind::PerIndividual => child.mutate(problem, config.mutation_rate, rng),
        MutationKind::PerGene => child.mutate_per_gene(problem, config.mutation_rate, rng),
    }
    let ghost mutated = child;
    child.self_calculate_fitness(problem);
    assert(offspring_of::<P, T>(child, parents@[a as int], parents@[b as int])) by {
        assert(crossed.child_of(parents@[a as int], parents@[b as int]));
        assert(mutated.mutant_of(crossed));
    }
    child
}

/// A sequence that begins as one leading with the fittest members leads
/// with them too.
proof fn lemma_leads_prefix<P, T: Candidate<P>>(r2: Seq<T>, r: Seq<T>, s: Seq<T>, e: nat)
    requires
        leads_with_fittest::<P, T>(r, s, e),
        e <= r.len(),
        e <= r2.len(),
        forall|i: int| 0 <= i < e ==> r2[i] == r[i],
    ensures
        leads_with_fittest::<P, T>(r2, s, e),
{
    let ranked = choose|ranked: Seq<T>|
        #![trigger rearranged_copies::<P, T>(ranked, s)]
        ranked.len() == s.len() && sorted_by_fitness::<P, T>(ranked) && rearranged_copies::<P, T>(
            ranked,
            s,
        ) && forall|i: int| 0 <= i < e ==> copy_of::<P, T>(#[trigger] r[i], ranked[i]);
    assert forall|i: int| 0 <= i < e implies copy_of::<P, T>(#[trigger] r2[i], ranked[i]) by {
        assert(r2[i] == r[i]);
        assert(copy_of::<P, T>(r[i], ranked[i]));
    }
}

/// A copy of the first member of a rearrangement is a copy of a member.
proof fn lemma_rearranged_copy_member<P, T: Candidate<P>>(c: T, sorted: Seq<T>, unsorted: Seq<T>)
    requires
        sorted.to_multiset() == unsorted.to_multiset(),
        0 < sorted.len(),
        copy_of::<P, T>(c, sorted[0]),
    ensures
        copy_of_member::<P, T>(c, unsorted),
{
    broadcast use vstd::seq_lib::group_to_multiset_ensures;

    assert(sorted.contains(sorted[0]));
    assert(sorted.to_multiset().count(sorted[0]) > 0);
    assert(unsorted.to_multiset().count(sorted[0]) > 0);
    assert(unsorted.contains(sorted[0]));
    let m = choose|m: int| 0 <= m < unsorted.len() && unsorted[m] == sorted[0];
    assert(copy_of::<P, T>(c, unsorted[m]));
}

} // verus!
