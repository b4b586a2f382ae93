use metaheuristics::candidate::{Candidate, GaCandidate, SaCandidate, RATE_SCALE};
use metaheuristics::fitness::Fitness;
use metaheuristics::geometry::{isqrt, location_distance, tour_length};
use metaheuristics::permutation::{
    check_permutation, cycle_crossover, identity_tour, order_crossover, reverse_segment, swap_stops,
};
use metaheuristics::tsp::{NeighbourMethod, TspCandidate, TspError};
use rand::rngs::StdRng;
use rand::SeedableRng;

fn square() -> Vec<(u32, u32)> {
    vec![(0, 0), (10, 0), (10, 10), (0, 10)]
}

fn is_perm(v: &[usize], n: usize) -> bool {
    let mut seen = vec![false; n];
    if v.len() != n {
        return false;
    }
    for &x in v {
        if x >= n || seen[x] {
            return false;
        }
        seen[x] = true;
    }
    true
}

#[test]
fn order_crossover_example() {
    let a = vec![0, 1, 2, 3, 4];
    let b = vec![4, 3, 2, 1, 0];
    let child = order_crossover(&a, &b, 1, 3);
    assert_eq!(child, vec![4, 1, 2, 3, 0]);
}

#[test]
fn order_crossover_whole_and_tail_segments() {
    let a = vec![2, 0, 4, 1, 3];
    let b = vec![3, 4, 0, 2, 1];
    assert_eq!(order_crossover(&a, &b, 0, 5), a);
    assert_eq!(order_crossover(&a, &b, 3, 5), vec![4, 0, 2, 1, 3]);
    assert_eq!(order_crossover(&a, &b, 0, 1), vec![2, 3, 4, 0, 1]);
}

#[test]
fn swap_and_reverse_moves() {
    let mut v = vec![0, 1, 2, 3, 4, 5];
    swap_stops(&mut v, 1, 4);
    assert_eq!(v, vec![0, 4, 2, 3, 1, 5]);
    reverse_segment(&mut v, 1, 4);
    assert_eq!(v, vec![0, 1, 3, 2, 4, 5]);
    reverse_segment(&mut v, 2, 2);
    assert_eq!(v, vec![0, 1, 3, 2, 4, 5]);
}

#[test]
fn permutation_check() {
    assert!(check_permutation(&vec![2, 0, 1], 3));
    assert!(!check_permutation(&vec![2, 0, 0], 3));
    assert!(!check_permutation(&vec![2, 0, 3], 3));
    assert!(!check_permutation(&vec![0, 1], 3));
    assert!(check_permutation(&vec![], 0));
    assert_eq!(identity_tour(4), vec![0, 1, 2, 3]);
}

#[test]
fn integer_square_roots() {
    assert_eq!(isqrt(0), 0);
    assert_eq!(isqrt(1), 1);
    assert_eq!(isqrt(15), 3);
    assert_eq!(isqrt(16), 4);
    assert_eq!(isqrt(2_000_000), 1414);
}

#[test]
fn fixed_point_distances() {
    assert_eq!(location_distance((0, 0), (3, 4)), 5000);
    assert_eq!(location_distance((3, 4), (0, 0)), 5000);
    assert_eq!(location_distance((0, 0), (1, 1)), 1414);
    assert_eq!(location_distance((7, 7), (7, 7)), 0);
    assert_eq!(location_distance((0, 0), (u32::MAX, 0)), 4_294_967_295_000);
}

#[test]
fn closed_tour_length() {
    let cities = square();
    assert_eq!(tour_length(&cities, &vec![0, 1, 2, 3]), 40_000);
    // two diagonals of 14142 and two sides of 10000
    assert_eq!(tour_length(&cities, &vec![0, 2, 1, 3]), 48_284);
    assert_eq!(tour_length(&vec![(1, 1)], &vec![0]), 0);
}

#[test]
fn shorter_tour_has_higher_fitness() {
    let cities = square();
    let short = TspCandidate::new(&cities, vec![0, 1, 2, 3]).unwrap();
    let long = TspCandidate::new(&cities, vec![0, 2, 1, 3]).unwrap();
    assert!(short.get_fitness().exceeds(&long.get_fitness()));
    assert!(!long.get_fitness().exceeds(&short.get_fitness()));
    assert_eq!(short.get_fitness(), Fitness::from_cost(40_000));
}

#[test]
fn fitness_of_coincident_points_is_the_greatest() {
    let cities = vec![(5, 5), (5, 5)];
    let c = TspCandidate::new(&cities, vec![1, 0]).unwrap();
    assert_eq!(c.get_fitness().cost, 0);
    assert!(c.get_fitness().exceeds(&Fitness::from_cost(1)));
    assert_eq!(c.get_fitness().selection_weight(77), 77);
}

#[test]
fn selection_weights() {
    assert_eq!(Fitness::from_cost(4).selection_weight(10), 2);
    assert_eq!(Fitness::from_cost(11).selection_weight(10), 0);
    assert_eq!(Fitness::from_cost(10).selection_weight(10), 1);
}

#[test]
fn new_rejects_too_few_cities() {
    assert_eq!(TspCandidate::new(&vec![(1, 2)], vec![0]).err(), Some(TspError::TooFewCities));
    let mut rng = StdRng::seed_from_u64(1);
    assert_eq!(TspCandidate::new_shuffle(&vec![], &mut rng).err(), Some(TspError::TooFewCities));
}

#[test]
fn new_rejects_non_permutations() {
    let cities = square();
    assert_eq!(TspCandidate::new(&cities, vec![0, 1, 1, 3]).err(), Some(TspError::NotAPermutation));
    assert_eq!(TspCandidate::new(&cities, vec![0, 1, 2, 4]).err(), Some(TspError::NotAPermutation));
    assert_eq!(TspCandidate::new(&cities, vec![0, 1, 2]).err(), Some(TspError::NotAPermutation));
}

#[test]
fn shuffled_candidates_are_sound_permutations() {
    let cities: Vec<(u32, u32)> = (0..30).map(|i| (i * 7 % 31, i * 13 % 29)).collect();
    let mut rng = StdRng::seed_from_u64(7);
    let mut moved = false;
    for _ in 0..5 {
        let c = TspCandidate::new_shuffle(&cities, &mut rng).unwrap();
        assert!(is_perm(c.get_chromosome(), 30));
        assert!(c.is_sound_for(&cities));
        if *c.get_chromosome() != identity_tour(30) {
            moved = true;
        }
    }
    assert!(moved);
}

#[test]
fn recalculating_fitness_twice_gives_the_same_value() {
    let cities = square();
    let mut c = TspCandidate::new_without_fitness(vec![0, 2, 1, 3]);
    assert!(!c.is_sound_for(&cities));
    c.self_calculate_fitness(&cities);
    let first = c.get_fitness();
    c.self_calculate_fitness(&cities);
    assert_eq!(c.get_fitness(), first);
    assert_eq!(first.cost, 48_284);
    assert!(c.is_sound_for(&cities));
}

#[test]
fn crossover_and_mutation_keep_permutations() {
    let cities: Vec<(u32, u32)> = (0..12).map(|i| (i * 3, (i * i) % 17)).collect();
    let mut rng = StdRng::seed_from_u64(11);
    for _ in 0..50 {
        let a = TspCandidate::new_shuffle(&cities, &mut rng).unwrap();
        let b = TspCandidate::new_shuffle(&cities, &mut rng).unwrap();
        let mut child = a.crossover(&b, &cities, &mut rng);
        assert!(is_perm(child.get_chromosome(), 12));
        child.mutate(&cities, RATE_SCALE / 2, &mut rng);
        assert!(is_perm(child.get_chromosome(), 12));
        child.mutate_per_gene(&cities, RATE_SCALE / 3, &mut rng);
        assert!(is_perm(child.get_chromosome(), 12));
        child.self_calculate_fitness(&cities);
        assert!(child.is_sound_for(&cities));
    }
}

#[test]
fn certain_mutation_swaps_two_stops() {
    let cities = vec![(0, 0), (1, 0)];
    let mut rng = StdRng::seed_from_u64(3);
    let mut c = TspCandidate::new(&cities, vec![0, 1]).unwrap();
    c.mutate(&cities, RATE_SCALE, &mut rng);
    assert_eq!(*c.get_chromosome(), vec![1, 0]);
    c.mutate(&cities, 0, &mut rng);
    assert_eq!(*c.get_chromosome(), vec![1, 0]);
    c.mutate_per_stop(0, &mut rng);
    assert_eq!(*c.get_chromosome(), vec![1, 0]);
}

#[test]
fn neighbours_are_sound_permutations() {
    let cities: Vec<(u32, u32)> = (0..9).map(|i| (i * 5 % 11, i * 2)).collect();
    let mut rng = StdRng::seed_from_u64(5);
    let mut c = TspCandidate::new_shuffle(&cities, &mut rng).unwrap();
    for _ in 0..100 {
        c = c.get_neighbour(&cities, &mut rng);
        assert!(is_perm(c.get_chromosome(), 9));
        assert!(c.is_sound_for(&cities));
    }
}

#[test]
fn cycle_crossover_example() {
    let a = vec![0, 1, 2, 3, 4, 5, 6, 7];
    let b = vec![7, 2, 1, 0, 4, 6, 5, 3];
    // the cycle through position 0: 0 -> 7 -> 3 -> 0
    assert_eq!(cycle_crossover(&a, &b, 0), vec![0, 2, 1, 3, 4, 6, 5, 7]);
    // the cycle through position 1: 1 -> 2 -> 1
    assert_eq!(cycle_crossover(&a, &b, 1), vec![7, 1, 2, 0, 4, 6, 5, 3]);
    // position 4 is a cycle of its own
    assert_eq!(cycle_crossover(&a, &b, 4), b);
}

#[test]
fn cycle_crossover_keeps_permutations() {
    let cities: Vec<(u32, u32)> = (0..15).map(|i| (i, i * i % 7)).collect();
    let mut rng = StdRng::seed_from_u64(19);
    for _ in 0..50 {
        let a = TspCandidate::new_shuffle(&cities, &mut rng).unwrap();
        let b = TspCandidate::new_shuffle(&cities, &mut rng).unwrap();
        let child = a.cycle_crossover(&b, &mut rng);
        assert!(is_perm(child.get_chromosome(), 15));
        for (i, &stop) in child.get_chromosome().iter().enumerate() {
            assert!(stop == a.get_chromosome()[i] || stop == b.get_chromosome()[i]);
        }
    }
}

#[test]
fn stop_locations_follow_the_tour() {
    let cities = square();
    let c = TspCandidate::new(&cities, vec![2, 0, 3, 1]).unwrap();
    assert_eq!(c.stop_location(&cities, 0), (10, 10));
    assert_eq!(c.stop_location(&cities, 3), (10, 0));
}

#[test]
fn neighbours_by_method_and_positions() {
    let cities = vec![(0, 0), (10, 0), (10, 10), (0, 10), (5, 5)];
    let c = TspCandidate::new(&cities, vec![0, 1, 2, 3, 4]).unwrap();
    let swapped = c.neighbour_by(&cities, NeighbourMethod::Swap, 3, 1);
    assert_eq!(*swapped.get_chromosome(), vec![0, 3, 2, 1, 4]);
    assert!(swapped.is_sound_for(&cities));
    let inverted = c.neighbour_by(&cities, NeighbourMethod::Invert, 4, 1);
    assert_eq!(*inverted.get_chromosome(), vec![0, 4, 3, 2, 1]);
    assert!(inverted.is_sound_for(&cities));
}

#[test]
fn shuffle_succeeds_with_two_cities() {
    let mut rng = StdRng::seed_from_u64(2);
    let c = TspCandidate::new_shuffle(&vec![(0, 0), (3, 4)], &mut rng).unwrap();
    assert_eq!(c.get_fitness().cost, 10_000);
}
