//! A metaheuristic optimisation library: a genetic algorithm and simulated
//! annealing, generic over a candidate abstraction, with the travelling
//! salesman problem as the worked instance.

pub mod random;
pub mod geometry;
pub mod permutation;
pub mod fitness;
pub mod candidate;
pub mod tsp;
pub mod selection;
pub mod genetic_algorithm;
pub mod simulated_annealing;
