//! Ordering a population by fitness and the three ways of choosing parents
//! from it: truncation, tournament and roulette wheel.

use vstd::prelude::*;
use vstd::seq_lib::group_to_multiset_ensures;
use rand::rngs::StdRng;
use crate::candidate::{is_sound, Candidate, RATE_SCALE};
use crate::random::{alias_sample, alias_table, below};

verus! {

/// How parents are chosen from a population.
#[derive(Clone, Copy, Debug, PartialEq, Eq, Structural)]
pub enum SelectionMethod {
    /// Tournaments of the given size, with replacement.
    Tournament(usize),
    /// Draws with replacement, with probability proportional to fitness.
    RouletteWheel,
    /// The fittest members.
    Truncation,
}

/// `a` holds the same representation and cached fitness as `b`.
pub open spec fn copy_of<P, T: Candidate<P>>(a: T, b: T) -> bool {
    &&& a.cached_fitness() == b.cached_fitness()
    &&& forall|p: &P| #[trigger] a.valid_for(p) == b.valid_for(p)
    &&& forall|p: &P| #[trigger] a.fitness_in(p) == b.fitness_in(p)
}

/// `a` is a copy of some member of `s`.
pub open spec fn copy_of_member<P, T: Candidate<P>>(a: T, s: Seq<T>) -> bool {
    exists|j: int| 0 <= j < s.len() && copy_of::<P, T>(a, #[trigger] s[j])
}

/// Every member of `s` is sound for `p`.
pub open spec fn all_sound<P, T: Candidate<P>>(s: Seq<T>, p: &P) -> bool {
    forall|i: int| 0 <= i < s.len() ==> is_sound(#[trigger] s[i], p)
}

/// The members of `s` come in order of fitness, the fittest first.
pub open spec fn sorted_by_fitness<P, T: Candidate<P>>(s: Seq<T>) -> bool {
    forall|i: int, j: int|
        0 <= i < j < s.len() ==> (#[trigger] s[i]).cached_fitness().at_least(
            (#[trigger] s[j]).cached_fitness(),
        )
}

/// Copies of sound candidates are sound.
pub proof fn lemma_copies_sound<P, T: Candidate<P>>(r: Seq<T>, s: Seq<T>, p: &P)
    requires
        all_sound::<P, T>(s, p),
        forall|i: int| 0 <= i < r.len() ==> copy_of_member::<P, T>(#[trigger] r[i], s),
    ensures
        all_sound::<P, T>(r, p),
{
    assert forall|i: int| 0 <= i < r.len() implies is_sound(#[trigger] r[i], p) by {
        assert(copy_of_member::<P, T>(r[i], s));
        let j = choose|j: int| 0 <= j < s.len() && copy_of::<P, T>(r[i], #[trigger] s[j]);
        assert(is_sound(s[j], p));
        assert(r[i].valid_for(p) == s[j].valid_for(p));
        assert(r[i].fitness_in(p) == s[j].fitness_in(p));
    }
}

/// A rearrangement of sound candidates holds sound candidates.
pub proof fn lemma_rearranged_sound<P, T: Candidate<P>>(r: Seq<T>, s: Seq<T>, p: &P)
    requires
        all_sound::<P, T>(s, p),
        r.to_multiset() == s.to_multiset(),
    ensures
        all_sound::<P, T>(r, p),
        r.len() == s.len(),
{
    broadcast use group_to_multiset_ensures;

    assert(r.len() == r.to_multiset().len());
    assert(s.len() == s.to_multiset().len());
    assert forall|i: int| 0 <= i < r.len() implies is_sound(#[trigger] r[i], p) by {
        assert(r.contains(r[i]));
        assert(r.to_multiset().count(r[i]) > 0);
        assert(s.to_multiset().count(r[i]) > 0);
        assert(s.contains(r[i]));
    }
}

/// The population rearranged so that the fittest members come first.
pub fn sort_by_fitness<P, T: Candidate<P>>(population: Vec<T>) -> (r: Vec<T>)
    ensures
        r@.to_multiset() == population@.to_multiset(),
        r@.len() == population@.len(),
        sorted_by_fitness::<P, T>(r@),
{
    broadcast use group_to_multiset_ensures;

    let ghost unsorted = population@;
    let mut rest = population;
    let mut sorted: Vec<T> = Vec::new();
    while rest.len() > 0
        invariant
            sorted@.to_multiset().add(rest@.to_multiset()) == unsorted.to_multiset(),
            sorted_by_fitness::<P, T>(sorted@),
            forall|a: int, b: int|
                0 <= a < sorted@.len() && 0 <= b < rest@.len() ==> (#[trigger] sorted@[a]).cached_fitness().at_least(
                    (#[trigger] rest@[b]).cached_fitness(),
                ),
        decreases rest@.len(),
    {
        let mut best: usize = 0;
        let mut best_fitness = rest[0].get_fitness();
        let mut k: usize = 1;
        while k < rest.len()
            invariant
                0 < rest@.len(),
                best < k <= rest@.len(),
                best_fitness == rest@[best as int].cached_fitness(),
                forall|m: int| 0 <= m < k ==> best_fitness.at_least(#[trigger] rest@[m].cached_fitness()),
            decreases rest@.len() - k,
        {
            let f = rest[k].get_fitness();
            if f.exceeds(&best_fitness) {
                best = k;
                best_fitness = f;
            }
            k = k + 1;
        }
        let ghost before_rest = rest@;
        let ghost before_sorted = sorted@;
        let chosen = rest.remove(best);
        sorted.push(chosen);
        proof {
            broadcast use vstd::multiset::group_multiset_axioms;
            assert(rest@ == before_rest.remove(best as int));
            vstd::seq_lib::to_multiset_remove(before_rest, best as int);
            vstd::seq_lib::to_multiset_build(before_sorted, chosen);
            assert(before_rest.remove(best as int).to_multiset() == before_rest.to_multiset().remove(
                chosen,
            ));
            assert(sorted@ == before_sorted.push(chosen));
            assert(before_sorted.push(chosen).to_multiset() == before_sorted.to_multiset().insert(
                chosen,
            ));
            assert(before_rest.to_multiset().count(chosen) > 0) by {
                assert(before_rest[best as int] == chosen);
                assert(before_rest.contains(chosen));
                vstd::seq_lib::to_multiset_contains(before_rest, chosen);
            }
            assert(sorted@.to_multiset().add(rest@.to_multiset()) =~= unsorted.to_multiset());
            assert forall|a: int, b: int|
                0 <= a < sorted@.len() && 0 <= b < rest@.len() implies (#[trigger] sorted@[a]).cached_fitness().at_least(
                    (#[trigger] rest@[b]).cached_fitness(),
                ) by {
                let ob = if b < best { b } else { b + 1 };
                assert(rest@[b] == before_rest[ob]);
                if a < before_sorted.len() {
                    assert(sorted@[a] == before_sorted[a]);
                }
            }
            assert forall|a: int, b: int| 0 <= a < b < sorted@.len() implies (#[trigger] sorted@[a]).cached_fitness().at_least(
                (#[trigger] sorted@[b]).cached_fitness(),
            ) by {
                if b < before_sorted.len() {
                    assert(sorted@[a] == before_sorted[a]);
                    assert(sorted@[b] == before_sorted[b]);
                } else {
                    assert(sorted@[a] == before_sorted[a]);
                    assert(before_rest[best as int] == chosen);
                }
            }
        }
    }
    assert(rest@.to_multiset().len() == 0);
    assert(sorted@.to_multiset() =~= unsorted.to_multiset()) by {
        broadcast use vstd::multiset::group_multiset_axioms;
        assert(rest@ =~= Seq::<T>::empty());
    }
    assert(sorted@.len() == sorted@.to_multiset().len());
    assert(unsorted.len() == unsorted.to_multiset().len());
    sorted
}

/// The first `target` members of the population; on a population sorted by
/// fitness, its `target` fittest members.
pub fn truncation_selection<P, T: Candidate<P>>(population: &Vec<T>, target: usize) -> (r: Vec<T>)
    requires
        target <= population@.len(),
    ensures
        r@.len() == target,
        forall|i: int| 0 <= i < target ==> copy_of::<P, T>(#[trigger] r@[i], population@[i]),
{
    let mut r: Vec<T> = Vec::new();
    let mut i: usize = 0;
    while i < target
        invariant
            i <= target <= population@.len(),
            r@.len() == i,
            forall|m: int| 0 <= m < i ==> copy_of::<P, T>(#[trigger] r@[m], population@[m]),
        decreases target - i,
    {
        r.push(population[i].duplicate());
        i = i + 1;
    }
    r
}

/// The share of draws, out of `RATE_SCALE`, that pass over the first `i`
/// ranks when each rank is taken with probability `p / RATE_SCALE`.
pub open spec fn passed_over(p: nat, i: nat) -> nat
    decreases i,
{
    if i == 0 {
        RATE_SCALE as nat
    } else {
        passed_over(p, (i - 1) as nat) * ((RATE_SCALE - p) as nat) / (RATE_SCALE as nat)
    }
}

/// The rank, from `i` on, that a draw `u` of `0..RATE_SCALE` picks among `k`
/// ranks: the first whose cumulative probability exceeds the draw, and the
/// last if none does.
pub open spec fn picked_rank(k: nat, p: nat, u: nat, i: nat) -> nat
    decreases k - i,
{
    if i + 1 >= k {
        i
    } else if u + passed_over(p, i + 1) < RATE_SCALE {
        i
    } else {
        picked_rank(k, p, u, i + 1)
    }
}

/// The rank picked by the draw `u`, where the best of `k` ranks is taken with
/// probability `p / RATE_SCALE` and each next one with that share of what is
/// left.
pub fn pick_rank(k: usize, p: u32, u: u32) -> (r: usize)
    requires
        0 < k,
        p <= RATE_SCALE,
        u < RATE_SCALE,
    ensures
        r == picked_rank(k as nat, p as nat, u as nat, 0),
        r < k,
{
    let mut i: usize = 0;
    let mut rest: u64 = RATE_SCALE as u64;
    loop
        invariant
            0 < k,
            i < k,
            p <= RATE_SCALE,
            rest == passed_over(p as nat, i as nat),
            rest <= RATE_SCALE,
            picked_rank(k as nat, p as nat, u as nat, 0) == picked_rank(k as nat, p as nat, u as nat, i as nat),
        decreases k - i,
    {
        let keep: u64 = (RATE_SCALE - p) as u64;
        assert(rest * keep <= 1_000_000 * 1_000_000) by (nonlinear_arith)
            requires rest <= 1_000_000, keep <= 1_000_000;
        let product: u64 = rest * keep;
        let next: u64 = product / (RATE_SCALE as u64);
        proof {
            vstd::arithmetic::div_mod::lemma_div_is_ordered(
                product as int,
                (RATE_SCALE * RATE_SCALE) as int,
                RATE_SCALE as int,
            );
            vstd::arithmetic::div_mod::lemma_div_by_multiple(RATE_SCALE as int, RATE_SCALE as int);
        }
        if i + 1 >= k || (u as u64) + next < RATE_SCALE as u64 {
            return i;
        }
        rest = next;
        i = i + 1;
    }
}

/// Copies of the members of `v`.
fn duplicate_all<P, T: Candidate<P>>(v: &Vec<T>) -> (r: Vec<T>)
    ensures
        r@.len() == v@.len(),
        forall|i: int| 0 <= i < v@.len() ==> copy_of::<P, T>(#[trigger] r@[i], v@[i]),
{
    let mut r: Vec<T> = Vec::new();
    let mut i: usize = 0;
    while i < v.len()
        invariant
            i <= v@.len(),
            r@.len() == i,
            forall|m: int| 0 <= m < i ==> copy_of::<P, T>(#[trigger] r@[m], v@[m]),
        decreases v@.len() - i,
    {
        r.push(v[i].duplicate());
        i = i + 1;
    }
    r
}

/// A member of a rearrangement of copies is a copy of a member.
proof fn lemma_rearranged_copies<P, T: Candidate<P>>(r: Seq<T>, s: Seq<T>, pop: Seq<T>)
    requires
        r.to_multiset() == s.to_multiset(),
        forall|i: int| 0 <= i < s.len() ==> copy_of_member::<P, T>(#[trigger] s[i], pop),
    ensures
        forall|i: int| 0 <= i < r.len() ==> copy_of_member::<P, T>(#[trigger] r[i], pop),
{
    broadcast use group_to_multiset_ensures;

    assert forall|i: int| 0 <= i < r.len() implies copy_of_member::<P, T>(#[trigger] r[i], pop) by {
        assert(r.contains(r[i]));
        assert(r.to_multiset().count(r[i]) > 0);
        assert(s.to_multiset().count(r[i]) > 0);
        assert(s.contains(r[i]));
        let j = choose|j: int| 0 <= j < s.len() && s[j] == r[i];
        assert(copy_of_member::<P, T>(s[j], pop));
    }
}

/// `ranked` holds copies of the members of `s`, rearranged.
pub open spec fn rearranged_copies<P, T: Candidate<P>>(ranked: Seq<T>, s: Seq<T>) -> bool {
    exists|copies: Seq<T>|
        #![trigger copies.to_multiset()]
        copies.len() == s.len() && (forall|i: int|
            0 <= i < s.len() ==> copy_of::<P, T>(#[trigger] copies[i], s[i]))
            && ranked.to_multiset() == copies.to_multiset()
}

/// The first `e` members of `r` are copies of the `e` fittest members of
/// `s`, fittest first: of the members of `s` ranked by fitness.
pub open spec fn leads_with_fittest<P, T: Candidate<P>>(r: Seq<T>, s: Seq<T>, e: nat) -> bool {
    exists|ranked: Seq<T>|
        #![trigger rearranged_copies::<P, T>(ranked, s)]
        ranked.len() == s.len() && sorted_by_fitness::<P, T>(ranked) && rearranged_copies::<P, T>(
            ranked,
            s,
        ) && forall|i: int| 0 <= i < e ==> copy_of::<P, T>(#[trigger] r[i], ranked[i])
}

/// The first member of a population sorted by fitness is at least as fit as
/// every member.
pub proof fn lemma_first_is_fittest<P, T: Candidate<P>>(sorted: Seq<T>, unsorted: Seq<T>)
    requires
        sorted.to_multiset() == unsorted.to_multiset(),
        sorted_by_fitness::<P, T>(sorted),
        sorted.len() == unsorted.len(),
    ensures
        forall|j: int|
            0 <= j < unsorted.len() ==> sorted[0].cached_fitness().at_least(
                (#[trigger] unsorted[j]).cached_fitness(),
            ),
{
    broadcast use group_to_multiset_ensures;

    assert forall|j: int| 0 <= j < unsorted.len() implies sorted[0].cached_fitness().at_least(
        (#[trigger] unsorted[j]).cached_fitness(),
    ) by {
        assert(unsorted.contains(unsorted[j]));
        assert(unsorted.to_multiset().count(unsorted[j]) > 0);
        assert(sorted.to_multiset().count(unsorted[j]) > 0);
        assert(sorted.contains(unsorted[j]));
        let m = choose|m: int| 0 <= m < sorted.len() && sorted[m] == unsorted[j];
        if m > 0 {
            assert(sorted[0].cached_fitness().at_least(sorted[m].cached_fitness()));
        }
    }
}

/// When `r` leads with the fittest member of `s`, its first member is at
/// least as fit as every member of `s`.
pub proof fn lemma_leader_is_fittest<P, T: Candidate<P>>(r: Seq<T>, s: Seq<T>, e: nat)
    requires
        leads_with_fittest::<P, T>(r, s, e),
        0 < e,
        0 < s.len(),
    ensures
        forall|j: int|
            0 <= j < s.len() ==> r[0].cached_fitness().at_least((#[trigger] s[j]).cached_fitness()),
{
    let ranked = choose|ranked: Seq<T>|
        #![trigger rearranged_copies::<P, T>(ranked, s)]
        ranked.len() == s.len() && sorted_by_fitness::<P, T>(ranked) && rearranged_copies::<P, T>(
            ranked,
            s,
        ) && forall|i: int| 0 <= i < e ==> copy_of::<P, T>(#[trigger] r[i], ranked[i]);
    let copies = choose|copies: Seq<T>|
        #![trigger copies.to_multiset()]
        copies.len() == s.len() && (forall|i: int|
            0 <= i < s.len() ==> copy_of::<P, T>(#[trigger] copies[i], s[i]))
            && ranked.to_multiset() == copies.to_multiset();
    lemma_first_is_fittest::<P, T>(ranked, copies);
    assert(copy_of::<P, T>(r[0], ranked[0]));
    assert forall|j: int| 0 <= j < s.len() implies r[0].cached_fitness().at_least(
        (#[trigger] s[j]).cached_fitness(),
    ) by {
        assert(copy_of::<P, T>(copies[j], s[j]));
        assert(ranked[0].cached_fitness().at_least(copies[j].cached_fitness()));
    }
}

/// Copies of the `e` fittest members of `s`, fittest first.
pub fn fittest_copies<P, T: Candidate<P>>(s: &Vec<T>, e: usize) -> (r: Vec<T>)
    requires
        e <= s@.len(),
    ensures
        r@.len() == e,
        leads_with_fittest::<P, T>(r@, s@, e as nat),
        forall|i: int| 0 <= i < e ==> copy_of_member::<P, T>(#[trigger] r@[i], s@),
        0 < e ==> forall|j: int|
            0 <= j < s@.len() ==> r@[0].cached_fitness().at_least((#[trigger] s@[j]).cached_fitness()),
{
    let copies = duplicate_all(s);
    let ranked = sort_by_fitness::<P, T>(copies);
    let r = truncation_selection(&ranked, e);
    proof {
        assert forall|i: int| 0 <= i < copies@.len() implies copy_of_member::<P, T>(#[trigger] copies@[i], s@) by {
            assert(copy_of::<P, T>(copies@[i], s@[i]));
        }
        lemma_rearranged_copies::<P, T>(ranked@, copies@, s@);
        assert(rearranged_copies::<P, T>(ranked@, s@));
        assert forall|i: int| 0 <= i < e implies copy_of_member::<P, T>(#[trigger] r@[i], s@) by {
            assert(copy_of::<P, T>(r@[i], ranked@[i]));
            assert(copy_of_member::<P, T>(ranked@[i], s@));
            let j = choose|j: int| 0 <= j < s@.len() && copy_of::<P, T>(ranked@[i], #[trigger] s@[j]);
            assert(copy_of::<P, T>(r@[i], s@[j]));
        }
        if 0 < e {
            lemma_leader_is_fittest::<P, T>(r@, s@, e as nat);
        }
    }
    r
}

/// The entrants of a tournament: the members at the drawn positions.
pub open spec fn entrants<T>(population: Seq<T>, drawn: Seq<usize>) -> Seq<T> {
    drawn.map_values(|d: usize| population[d as int])
}

/// The winner of one tournament among the members at the positions `drawn`:
/// the entrants ranked by fitness, the rank picked by the draw `draw` of
/// `0..RATE_SCALE`, where the fittest is picked with probability
/// `best_pick_probability / RATE_SCALE`, the next with that share of the rest,
/// and so on, the last taking what is left.
pub fn tournament_winner<P, T: Candidate<P>>(
    population: &Vec<T>,
    drawn: &Vec<usize>,
    best_pick_probability: u32,
    draw: u32,
) -> (r: T)
    requires
        0 < drawn@.len(),
        forall|m: int| 0 <= m < drawn@.len() ==> (#[trigger] drawn@[m]) < population@.len(),
        best_pick_probability <= RATE_SCALE,
        draw < RATE_SCALE,
    ensures
        exists|ranked: Seq<T>|
            #![trigger rearranged_copies::<P, T>(ranked, entrants(population@, drawn@))]
            ranked.len() == drawn@.len() && sorted_by_fitness::<P, T>(ranked)
                && rearranged_copies::<P, T>(ranked, entrants(population@, drawn@))
                && copy_of::<P, T>(
                r,
                ranked[picked_rank(drawn@.len(), best_pick_probability as nat, draw as nat, 0) as int],
            ),
        copy_of_member::<P, T>(r, population@),
{
    let k = drawn.len();
    let ghost entered = entrants(population@, drawn@);
    let mut copies: Vec<T> = Vec::new();
    let mut m: usize = 0;
    while m < k
        invariant
            m <= k,
            k == drawn@.len(),
            entered == entrants(population@, drawn@),
            forall|i: int| 0 <= i < drawn@.len() ==> (#[trigger] drawn@[i]) < population@.len(),
            copies@.len() == m,
            forall|i: int| 0 <= i < m ==> copy_of::<P, T>(#[trigger] copies@[i], entered[i]),
        decreases k - m,
    {
        let entrant = population[drawn[m]].duplicate();
        let ghost before = copies@;
        copies.push(entrant);
        assert(forall|i: int| 0 <= i < before.len() ==> copies@[i] == before[i]);
        m = m + 1;
    }
    let ranked = sort_by_fitness::<P, T>(copies);
    let rank = pick_rank(k, best_pick_probability, draw);
    let winner = ranked[rank].duplicate();
    proof {
        assert(rearranged_copies::<P, T>(ranked@, entered));
        assert forall|i: int| 0 <= i < copies@.len() implies copy_of_member::<P, T>(#[trigger] copies@[i], population@) by {
            assert(copy_of::<P, T>(copies@[i], entered[i]));
            assert(copy_of::<P, T>(copies@[i], population@[drawn@[i] as int]));
        }
        lemma_rearranged_copies::<P, T>(ranked@, copies@, population@);
        assert(copy_of_member::<P, T>(ranked@[rank as int], population@));
        let j = choose|j: int| 0 <= j < population@.len() && copy_of::<P, T>(ranked@[rank as int], #[trigger] population@[j]);
        assert(copy_of::<P, T>(winner, population@[j]));
    }
    winner
}

/// Tournament selection. Copies of the `elitism_count` fittest members come
/// first, unconditionally; each other parent wins a tournament of `k` members
/// drawn uniformly with replacement (see `tournament_winner`).
pub fn tournament_selection<P, T: Candidate<P>>(
    k: usize,
    selection_target: usize,
    population: &Vec<T>,
    best_pick_probability: u32,
    elitism_count: usize,
    rng: &mut StdRng,
) -> (r: Vec<T>)
    requires
        0 < k,
        0 < population@.len(),
        elitism_count <= selection_target,
        elitism_count <= population@.len(),
        best_pick_probability <= RATE_SCALE,
    ensures
        r@.len() == selection_target,
        leads_with_fittest::<P, T>(r@, population@, elitism_count as nat),
        0 < elitism_count ==> forall|j: int|
            0 <= j < population@.len() ==> r@[0].cached_fitness().at_least(
                (#[trigger] population@[j]).cached_fitness(),
            ),
        forall|i: int| 0 <= i < selection_target ==> copy_of_member::<P, T>(#[trigger] r@[i], population@),
{
    let n = population.len();
    let mut selected = fittest_copies(population, elitism_count);
    let ghost elite = selected@;
    while selected.len() < selection_target
        invariant
            0 < k,
            n == population@.len(),
            0 < n,
            best_pick_probability <= RATE_SCALE,
            elitism_count <= selected@.len() <= selection_target,
            elite.len() == elitism_count,
            forall|i: int| 0 <= i < elitism_count ==> selected@[i] == elite[i],
            forall|i: int| 0 <= i < selected@.len() ==> copy_of_member::<P, T>(#[trigger] selected@[i], population@),
        decreases selection_target - selected@.len(),
    {
        let mut drawn: Vec<usize> = Vec::new();
        let mut m: usize = 0;
        while m < k
            invariant
                m <= k,
                n == population@.len(),
                0 < n,
                drawn@.len() == m,
                forall|i: int| 0 <= i < m ==> (#[trigger] drawn@[i]) < n,
            decreases k - m,
        {
            drawn.push(below(rng, n));
            m = m + 1;
        }
        let draw = below(rng, RATE_SCALE as usize) as u32;
        let winner = tournament_winner(population, &drawn, best_pick_probability, draw);
        let ghost before = selected@;
        selected.push(winner);
        assert(forall|i: int| 0 <= i < before.len() ==> selected@[i] == before[i]);
    }
    proof {
        assert forall|i: int| 0 <= i < elitism_count implies #[trigger] selected@[i] == elite[i] by {}
        let ranked = choose|ranked: Seq<T>|
            #![trigger rearranged_copies::<P, T>(ranked, population@)]
            ranked.len() == population@.len() && sorted_by_fitness::<P, T>(ranked)
                && rearranged_copies::<P, T>(ranked, population@) && forall|i: int|
                0 <= i < elitism_count ==> copy_of::<P, T>(#[trigger] elite[i], ranked[i]);
        assert forall|i: int| 0 <= i < elitism_count implies copy_of::<P, T>(#[trigger] selected@[i], ranked[i]) by {
            assert(selected@[i] == elite[i]);
            assert(copy_of::<P, T>(elite[i], ranked[i]));
        }
        if 0 < elitism_count {
            assert(selected@[0] == elite[0]);
        }
    }
    selected
}

/// The weight of a fitness on the roulette wheel of a population of `n`:
/// `(u64::MAX / n) / cost`, rounded down, and `u64::MAX / n` for a zero cost.
/// No weight exceeds `u64::MAX / n`, so the weights of the wheel add up
/// without overflow.
pub open spec fn roulette_weight(f: crate::fitness::Fitness, n: nat) -> int {
    let scale = u64::MAX as int / n as int;
    if f.cost == 0 {
        scale
    } else {
        scale / f.cost as int
    }
}

/// The roulette-wheel weight of every member of the population.
pub fn selection_weights<P, T: Candidate<P>>(population: &Vec<T>) -> (r: Vec<u64>)
    requires
        0 < population@.len(),
    ensures
        r@.len() == population@.len(),
        forall|i: int|
            0 <= i < r@.len() ==> #[trigger] r@[i] == roulette_weight(
                population@[i].cached_fitness(),
                population@.len(),
            ),
        forall|i: int| 0 <= i < r@.len() ==> #[trigger] r@[i] <= u64::MAX / (population@.len() as u64),
{
    let n = population.len();
    let scale: u64 = u64::MAX / (n as u64);
    let mut weights: Vec<u64> = Vec::new();
    let mut i: usize = 0;
    while i < n
        invariant
            n == population@.len(),
            0 < n,
            scale == u64::MAX / (n as u64),
            i <= n,
            weights@.len() == i,
            forall|m: int|
                0 <= m < i ==> #[trigger] weights@[m] == roulette_weight(
                    population@[m].cached_fitness(),
                    n as nat,
                ),
            forall|m: int| 0 <= m < i ==> #[trigger] weights@[m] <= scale,
        decreases n - i,
    {
        weights.push(population[i].get_fitness().selection_weight(scale));
        i = i + 1;
    }
    weights
}

/// Roulette-wheel selection: `target` draws with replacement, each member
/// drawn with probability proportional to its weight on the wheel. When every
/// weight is zero the draws are uniform.
pub fn roulette_wheel_selection<P, T: Candidate<P>>(population: &Vec<T>, target: usize, rng: &mut StdRng) -> (r: Vec<T>)
    requires
        0 < population@.len(),
    ensures
        r@.len() == target,
        forall|i: int| 0 <= i < target ==> copy_of_member::<P, T>(#[trigger] r@[i], population@),
{
    let n = population.len();
    let weights = selection_weights(population);
    let table = alias_table(weights);
    let mut selected: Vec<T> = Vec::new();
    while selected.len() < target
        invariant
            n == population@.len(),
            0 < n,
            selected@.len() <= target,
            table matches Ok(t) ==> crate::random::alias_weights(t).len() == n,
            forall|m: int| 0 <= m < selected@.len() ==> copy_of_member::<P, T>(#[trigger] selected@[m], population@),
        decreases target - selected@.len(),
    {
        let index = match &table {
            Ok(t) => alias_sample(t, rng),
            Err(_) => below(rng, n),
        };
        let chosen = population[index].duplicate();
        assert(copy_of::<P, T>(chosen, population@[index as int]));
        let ghost before = selected@;
        selected.push(chosen);
        assert(forall|m: int| 0 <= m < before.len() ==> selected@[m] == before[m]);
    }
    selected
}

} // verus!
