use metaheuristics::candidate::{Candidate, SaCandidate, RATE_SCALE};
use metaheuristics::genetic_algorithm::{GaConfig, GaError, MutationKind, Repopulation, GA};
use metaheuristics::selection::{
    fittest_copies, pick_rank, roulette_wheel_selection, selection_weights, sort_by_fitness,
    tournament_selection, tournament_winner,
    truncation_selection, SelectionMethod,
};
use metaheuristics::simulated_annealing::{SaError, SimulatedAnnealing};
use metaheuristics::tsp::TspCandidate;
use rand::rngs::StdRng;
use rand::SeedableRng;

fn five_cities() -> Vec<(u32, u32)> {
    vec![(0, 0), (10, 0), (10, 10), (0, 10), (5, 5)]
}

fn config(method: SelectionMethod) -> GaConfig {
    GaConfig {
        mutation_rate: 100_000,
        selection_fraction: 500_000,
        elitism_fraction: 100_000,
        selection_method: method,
        repopulation: Repopulation::Explorative,
        mutation: MutationKind::PerIndividual,
        reinject_best: false,
    }
}

fn population(cities: &Vec<(u32, u32)>, size: usize, rng: &mut StdRng) -> Vec<TspCandidate> {
    (0..size).map(|_| TspCandidate::new_shuffle(cities, rng).unwrap()).collect()
}

fn costs(v: &[TspCandidate]) -> Vec<u128> {
    v.iter().map(|c| c.get_fitness().cost).collect()
}

fn visits_each_once(tour: &[usize], n: usize) -> bool {
    let mut sorted = tour.to_vec();
    sorted.sort();
    sorted == (0..n).collect::<Vec<usize>>()
}

fn fixed_population(cities: &Vec<(u32, u32)>) -> Vec<TspCandidate> {
    vec![
        TspCandidate::new(cities, vec![0, 2, 1, 3, 4]).unwrap(),
        TspCandidate::new(cities, vec![0, 1, 2, 3, 4]).unwrap(),
        TspCandidate::new(cities, vec![0, 1, 4, 2, 3]).unwrap(),
        TspCandidate::new(cities, vec![4, 0, 2, 1, 3]).unwrap(),
    ]
}

#[test]
fn sort_puts_fittest_first() {
    let cities = five_cities();
    let pop = fixed_population(&cities);
    let before = costs(&pop);
    let sorted = sort_by_fitness(pop);
    let after = costs(&sorted);
    let mut expected = before.clone();
    expected.sort();
    assert_eq!(after, expected);
}

#[test]
fn truncation_takes_the_front() {
    let cities = five_cities();
    let sorted = sort_by_fitness(fixed_population(&cities));
    let chosen = truncation_selection(&sorted, 2);
    assert_eq!(costs(&chosen), costs(&sorted[..2]));
    assert_eq!(truncation_selection(&sorted, 0).len(), 0);
}

#[test]
fn tournament_keeps_the_elite() {
    let cities = five_cities();
    let sorted = sort_by_fitness(fixed_population(&cities));
    let mut rng = StdRng::seed_from_u64(21);
    let chosen = tournament_selection(2, 6, &sorted, 800_000, 2, &mut rng);
    assert_eq!(chosen.len(), 6);
    assert_eq!(costs(&chosen[..2]), costs(&sorted[..2]));
    let all = costs(&sorted);
    for c in &chosen {
        assert!(all.contains(&c.get_fitness().cost));
    }
}

#[test]
fn tournament_with_certain_best_pick_takes_the_best_entrant() {
    let cities = five_cities();
    let sorted = sort_by_fitness(fixed_population(&cities));
    let mut rng = StdRng::seed_from_u64(2);
    // with every member in the tournament many times, the fittest is drawn
    let chosen = tournament_selection(64, 3, &sorted, RATE_SCALE, 0, &mut rng);
    for c in &chosen {
        assert_eq!(c.get_fitness().cost, sorted[0].get_fitness().cost);
    }
}

#[test]
fn ranks_picked_by_draws() {
    assert_eq!(pick_rank(3, 800_000, 0), 0);
    assert_eq!(pick_rank(3, 800_000, 799_999), 0);
    assert_eq!(pick_rank(3, 800_000, 800_000), 1);
    assert_eq!(pick_rank(3, 800_000, 959_999), 1);
    assert_eq!(pick_rank(3, 800_000, 960_000), 2);
    assert_eq!(pick_rank(3, 800_000, 999_999), 2);
    assert_eq!(pick_rank(1, 0, 999_999), 0);
    assert_eq!(pick_rank(4, RATE_SCALE, 999_999), 0);
}

#[test]
fn roulette_draws_in_proportion_to_fitness() {
    // one member with a zero-length tour has all the weight
    let cities = vec![(3, 3), (3, 3), (3, 3)];
    let far = vec![(0, 0), (u32::MAX, u32::MAX), (0, u32::MAX)];
    let best = TspCandidate::new(&cities, vec![0, 1, 2]).unwrap();
    let mut pop = vec![best];
    let mut rng = StdRng::seed_from_u64(9);
    for _ in 0..3 {
        let mut c = TspCandidate::new_without_fitness(vec![2, 1, 0]);
        c.self_calculate_fitness(&far);
        pop.push(c);
    }
    let chosen = roulette_wheel_selection(&pop, 20, &mut rng);
    assert_eq!(chosen.len(), 20);
    for c in &chosen {
        assert_eq!(c.get_fitness().cost, 0);
    }
}

#[test]
fn roulette_weights_are_reciprocal_to_cost() {
    let cities = vec![(0, 0), (3, 4)];
    let coincident = vec![(1, 1), (1, 1)];
    let a = TspCandidate::new(&cities, vec![0, 1]).unwrap();
    let b = TspCandidate::new(&coincident, vec![1, 0]).unwrap();
    assert_eq!(a.get_fitness().cost, 10_000);
    let weights = selection_weights(&vec![a, b]);
    assert_eq!(weights, vec![(u64::MAX / 2) / 10_000, u64::MAX / 2]);
}

#[test]
fn roulette_with_all_weights_zero_draws_uniformly() {
    let far = vec![(0, 0), (u32::MAX, u32::MAX), (0, u32::MAX)];
    let pop: Vec<TspCandidate> = (0..4)
        .map(|_| TspCandidate::new(&far, vec![0, 1, 2]).unwrap())
        .collect();
    let mut rng = StdRng::seed_from_u64(4);
    let chosen = roulette_wheel_selection(&pop, 7, &mut rng);
    assert_eq!(chosen.len(), 7);
}

#[test]
fn ga_configuration_errors() {
    let cities = five_cities();
    let mut rng = StdRng::seed_from_u64(1);
    let pop = population(&cities, 10, &mut rng);
    let one = population(&cities, 1, &mut rng);
    let base = config(SelectionMethod::Truncation);
    assert_eq!(GA::new(cities.clone(), one, base).err(), Some(GaError::PopulationTooSmall));
    let mut c = base;
    c.mutation_rate = RATE_SCALE + 1;
    assert_eq!(GA::new(cities.clone(), pop.clone(), c).err(), Some(GaError::InvalidMutationRate));
    let mut c = base;
    c.selection_fraction = RATE_SCALE + 1;
    c.elitism_fraction = 0;
    assert_eq!(GA::new(cities.clone(), pop.clone(), c).err(), Some(GaError::InvalidSelectionFraction));
    let mut c = base;
    c.elitism_fraction = 600_000;
    assert_eq!(GA::new(cities.clone(), pop.clone(), c).err(), Some(GaError::ElitismAboveSelection));
    let mut c = base;
    c.selection_fraction = 50_000;
    c.elitism_fraction = 0;
    assert_eq!(GA::new(cities.clone(), pop.clone(), c).err(), Some(GaError::NoParents));
    let c = config(SelectionMethod::Tournament(11));
    assert_eq!(GA::new(cities.clone(), pop.clone(), c).err(), Some(GaError::InvalidTournamentSize));
    let c = config(SelectionMethod::Tournament(1));
    assert_eq!(GA::new(cities.clone(), pop.clone(), c).err(), Some(GaError::InvalidTournamentSize));
    let mut stale = pop.clone();
    stale[3] = TspCandidate::new_without_fitness(vec![0, 1, 2, 3, 4]);
    assert_eq!(GA::new(cities.clone(), stale, base).err(), Some(GaError::UnsoundCandidate));
    let other_cities = vec![(0, 0), (1, 1)];
    assert_eq!(GA::new(other_cities, pop.clone(), base).err(), Some(GaError::UnsoundCandidate));
    assert_eq!(GA::new(vec![(0, 0)], pop.clone(), base).err(), Some(GaError::DegenerateProblem));
    let ga = GA::new(cities.clone(), pop, base).unwrap();
    assert_eq!(ga.population_size(), 10);
    assert_eq!(ga.selection_target(), 5);
    assert_eq!(ga.elitism_target(), 1);
    assert_eq!(ga.get_iteration(), 0);
}

#[test]
fn ga_five_city_scenario() {
    let cities = five_cities();
    let mut rng = StdRng::seed_from_u64(2024);
    let pop = population(&cities, 50, &mut rng);
    let mut ga = GA::new(cities.clone(), pop, config(SelectionMethod::Truncation)).unwrap();
    let initial = ga.best_fitness();
    for _ in 0..200 {
        ga.step(&mut rng);
    }
    let best = ga.best();
    assert!(!initial.exceeds(&ga.best_fitness()));
    assert!(visits_each_once(best.get_chromosome(), 5));
    assert_eq!(ga.get_iteration(), 200);
    // the shortest closed tour round the square with its centre
    assert_eq!(ga.best_fitness().cost, TspCandidate::new(&cities, vec![0, 1, 2, 3, 4]).unwrap().get_fitness().cost);
}

#[test]
fn ga_best_never_regresses_under_every_setting() {
    let cities: Vec<(u32, u32)> = (0..10).map(|i| ((i * 37) % 50, (i * 91) % 47)).collect();
    let methods = [
        SelectionMethod::Truncation,
        SelectionMethod::RouletteWheel,
        SelectionMethod::Tournament(3),
    ];
    let mut rng = StdRng::seed_from_u64(77);
    for method in methods {
        for repopulation in [Repopulation::Explorative, Repopulation::Exploitative] {
            for mutation in [MutationKind::PerIndividual, MutationKind::PerGene] {
                for reinject_best in [false, true] {
                    let mut c = config(method);
                    c.repopulation = repopulation;
                    c.mutation = mutation;
                    c.reinject_best = reinject_best;
                    let pop = population(&cities, 20, &mut rng);
                    let mut ga = GA::new(cities.clone(), pop, c).unwrap();
                    let mut previous = ga.best_fitness();
                    for _ in 0..15 {
                        ga.step(&mut rng);
                        assert!(!previous.exceeds(&ga.best_fitness()));
                        previous = ga.best_fitness();
                        assert_eq!(ga.population().len(), 20);
                        for member in ga.population() {
                            assert!(member.is_sound_for(&cities));
                        }
                        assert!(ga.best().is_sound_for(&cities));
                    }
                }
            }
        }
    }
}

#[test]
fn ga_run_counts_generations() {
    let cities = five_cities();
    let mut rng = StdRng::seed_from_u64(8);
    let pop = population(&cities, 12, &mut rng);
    let mut ga = GA::new(cities.clone(), pop, config(SelectionMethod::RouletteWheel)).unwrap();
    let before = ga.best_fitness();
    ga.run(5, &mut rng);
    assert_eq!(ga.get_iteration(), 5);
    assert!(!before.exceeds(&ga.best_fitness()));
    assert!(!ga.current_best().get_fitness().exceeds(&ga.best_fitness()));
}

#[test]
fn ga_populate_draws_a_sound_population() {
    let cities = five_cities();
    let mut rng = StdRng::seed_from_u64(31);
    let ga: GA<TspCandidate, Vec<(u32, u32)>> =
        GA::populate(cities.clone(), 30, config(SelectionMethod::Tournament(4)), &mut rng).unwrap();
    assert_eq!(ga.population().len(), 30);
    for member in ga.population() {
        assert!(member.is_sound_for(&cities));
        assert!(!member.get_fitness().exceeds(&ga.best_fitness()));
    }
    let too_small: Result<GA<TspCandidate, Vec<(u32, u32)>>, GaError> =
        GA::populate(cities.clone(), 1, config(SelectionMethod::Truncation), &mut rng);
    assert_eq!(too_small.err(), Some(GaError::PopulationTooSmall));
    let no_cities: Result<GA<TspCandidate, Vec<(u32, u32)>>, GaError> =
        GA::populate(vec![], 4, config(SelectionMethod::Truncation), &mut rng);
    assert_eq!(no_cities.err(), Some(GaError::DegenerateProblem));
    let big_tournament: Result<GA<TspCandidate, Vec<(u32, u32)>>, GaError> =
        GA::populate(cities, 3, config(SelectionMethod::Tournament(4)), &mut rng);
    assert_eq!(big_tournament.err(), Some(GaError::InvalidTournamentSize));
}

#[test]
fn sa_configuration_errors() {
    assert_eq!(SimulatedAnnealing::new(0, 950_000).err(), Some(SaError::InvalidTemperature));
    assert_eq!(SimulatedAnnealing::new(1, 0).err(), Some(SaError::InvalidCoolingRate));
    assert_eq!(SimulatedAnnealing::new(1, RATE_SCALE).err(), Some(SaError::InvalidCoolingRate));
    let sa = SimulatedAnnealing::new(1_500_000, 950_000).unwrap();
    assert_eq!(sa.temperature(), 1_500_000);
    assert_eq!(sa.cooling_rate(), 950_000);
}

#[test]
fn sa_always_takes_a_fitter_neighbour() {
    let cities = five_cities();
    let worse = TspCandidate::new(&cities, vec![0, 2, 1, 3, 4]).unwrap();
    let better = TspCandidate::new(&cities, vec![0, 1, 2, 3, 4]).unwrap();
    let mut sa = SimulatedAnnealing::new(1, 500_000).unwrap();
    for accept in [false, true] {
        let r = sa.step(worse.clone(), better.clone(), accept);
        assert_eq!(r.get_chromosome(), better.get_chromosome());
    }
}

#[test]
fn sa_takes_a_worse_neighbour_only_when_metropolis_accepts() {
    let cities = five_cities();
    let worse = TspCandidate::new(&cities, vec![0, 2, 1, 3, 4]).unwrap();
    let better = TspCandidate::new(&cities, vec![0, 1, 2, 3, 4]).unwrap();
    let mut sa = SimulatedAnnealing::new(1_000_000, 950_000).unwrap();
    let kept = sa.step(better.clone(), worse.clone(), false);
    assert_eq!(kept.get_chromosome(), better.get_chromosome());
    assert_eq!(sa.temperature(), 950_000);
    let moved = sa.step(better.clone(), worse.clone(), true);
    assert_eq!(moved.get_chromosome(), worse.get_chromosome());
    assert_eq!(sa.temperature(), 902_500);
    let same = sa.step(better.clone(), better.clone(), false);
    assert_eq!(same.get_chromosome(), better.get_chromosome());
}

#[test]
fn sa_cools_every_step() {
    let mut sa = SimulatedAnnealing::new(10, 500_000).unwrap();
    sa.cool();
    assert_eq!(sa.temperature(), 5);
    sa.cool();
    assert_eq!(sa.temperature(), 2);
    sa.cool();
    sa.cool();
    assert_eq!(sa.temperature(), 0);
    assert!(SimulatedAnnealing::accepts(
        metaheuristics::fitness::Fitness::from_cost(5),
        metaheuristics::fitness::Fitness::from_cost(4),
        false
    ));
    assert!(!SimulatedAnnealing::accepts(
        metaheuristics::fitness::Fitness::from_cost(4),
        metaheuristics::fitness::Fitness::from_cost(4),
        false
    ));
}

#[test]
fn sa_walk_stays_sound() {
    let cities = five_cities();
    let mut rng = StdRng::seed_from_u64(13);
    let mut current = TspCandidate::new_shuffle(&cities, &mut rng).unwrap();
    let mut sa = SimulatedAnnealing::new(1_500_000, 990_000).unwrap();
    for _ in 0..200 {
        let neighbour = current.get_neighbour(&cities, &mut rng);
        current = sa.step(current, neighbour, false);
        assert!(current.is_sound_for(&cities));
    }
}

#[test]
fn tournament_elite_is_the_fittest_of_an_unsorted_population() {
    let cities = five_cities();
    let weaker = TspCandidate::new(&cities, vec![0, 2, 1, 3, 4]).unwrap();
    let fitter = TspCandidate::new(&cities, vec![0, 1, 2, 3, 4]).unwrap();
    let pop = vec![weaker.clone(), fitter.clone()];
    let mut rng = StdRng::seed_from_u64(6);
    let chosen = tournament_selection(2, 2, &pop, 800_000, 1, &mut rng);
    assert_eq!(chosen[0].get_chromosome(), fitter.get_chromosome());
    let elite = fittest_copies(&fixed_population(&cities), 3);
    let mut expected = costs(&fixed_population(&cities));
    expected.sort();
    assert_eq!(costs(&elite), expected[..3].to_vec());
}

#[test]
fn tournament_winner_follows_the_draw() {
    let cities = five_cities();
    let pop = fixed_population(&cities);
    let sorted_costs = {
        let mut c = costs(&pop);
        c.sort();
        c
    };
    let drawn = vec![0, 1, 2, 3];
    // ranks 0, 1, 2 and the last for draws below 0.8, 0.96, 0.992 and above
    assert_eq!(tournament_winner(&pop, &drawn, 800_000, 0).get_fitness().cost, sorted_costs[0]);
    assert_eq!(tournament_winner(&pop, &drawn, 800_000, 900_000).get_fitness().cost, sorted_costs[1]);
    assert_eq!(tournament_winner(&pop, &drawn, 800_000, 970_000).get_fitness().cost, sorted_costs[2]);
    assert_eq!(tournament_winner(&pop, &drawn, 800_000, 999_999).get_fitness().cost, sorted_costs[3]);
    let twice = vec![2, 2];
    assert_eq!(tournament_winner(&pop, &twice, 800_000, 999_999).get_chromosome(), pop[2].get_chromosome());
}

#[test]
fn ga_best_is_the_fittest_current_member() {
    let cities = five_cities();
    let mut rng = StdRng::seed_from_u64(12);
    let pop = population(&cities, 16, &mut rng);
    let mut ga = GA::new(cities.clone(), pop, config(SelectionMethod::RouletteWheel)).unwrap();
    for _ in 0..3 {
        ga.step(&mut rng);
        let best = ga.best();
        for member in ga.population() {
            assert!(!member.get_fitness().exceeds(&best.get_fitness()));
        }
        assert!(best.is_sound_for(&cities));
        assert!(!best.get_fitness().exceeds(&ga.best_ever().get_fitness()));
        assert_eq!(ga.best_ever().get_fitness(), ga.best_fitness());
    }
}

#[test]
fn ga_elite_keeps_the_fittest_member() {
    let cities: Vec<(u32, u32)> = (0..8).map(|i| ((i * 29) % 31, (i * 17) % 23)).collect();
    let mut rng = StdRng::seed_from_u64(55);
    for method in [SelectionMethod::Truncation, SelectionMethod::Tournament(3)] {
        let pop = population(&cities, 20, &mut rng);
        let mut ga = GA::new(cities.clone(), pop, config(method)).unwrap();
        for _ in 0..10 {
            let before = ga.best();
            ga.step(&mut rng);
            assert!(!before.get_fitness().exceeds(&ga.population()[0].get_fitness()));
        }
    }
}

#[test]
fn ga_run_saturates_the_generation_count() {
    let cities = five_cities();
    let mut rng = StdRng::seed_from_u64(3);
    let pop = population(&cities, 6, &mut rng);
    let mut ga = GA::new(cities.clone(), pop, config(SelectionMethod::Truncation)).unwrap();
    let first_best = ga.best();
    ga.run(0, &mut rng);
    assert_eq!(ga.get_iteration(), 0);
    ga.run(3, &mut rng);
    assert_eq!(ga.get_iteration(), 3);
    assert!(!first_best.get_fitness().exceeds(&ga.best_fitness()));
}

#[test]
fn exploitative_repopulation_fills_the_population() {
    let cities = five_cities();
    let mut rng = StdRng::seed_from_u64(44);
    let pop = population(&cities, 10, &mut rng);
    let mut c = config(SelectionMethod::Truncation);
    c.repopulation = Repopulation::Exploitative;
    let mut ga = GA::new(cities.clone(), pop, c).unwrap();
    let parents: Vec<TspCandidate> = ga.population()[..5].to_vec();
    ga.repopulate(parents.clone(), &mut rng);
    assert_eq!(ga.population().len(), 10);
    for member in ga.population() {
        assert!(member.is_sound_for(&cities));
    }
    // elite of one, offspring for the five places the parents leave, then the
    // first four parents back after one mutation each
    let mut fittest = costs(&parents);
    fittest.sort();
    assert_eq!(ga.population()[0].get_fitness().cost, fittest[0]);
    for k in 0..4 {
        let mut a = ga.population()[6 + k].get_chromosome().clone();
        let mut b = parents[k].get_chromosome().clone();
        a.sort();
        b.sort();
        assert_eq!(a, b);
    }
}
