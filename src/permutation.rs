//! Tours as permutations of location indices, and the moves on them that
//! keep them permutations: swapping two stops, reversing a segment, and
//! order crossover of two parents.

use vstd::multiset::Multiset;
use vstd::prelude::*;
use vstd::seq_lib::{group_seq_properties, group_to_multiset_ensures, lemma_multiset_commutative};
use vstd::set_lib::{lemma_subset_equality, range_set_properties, FiniteRange};

verus! {

/// `s` visits each of `0..n` exactly once.
pub open spec fn is_permutation(s: Seq<usize>, n: nat) -> bool {
    &&& s.len() == n
    &&& s.no_duplicates()
    &&& forall|i: int| 0 <= i < s.len() ==> (#[trigger] s[i]) < n
}

/// A permutation of `0..n` holds every value below `n`.
pub proof fn lemma_permutation_contains_all(s: Seq<usize>, n: nat)
    requires
        is_permutation(s, n),
        n <= usize::MAX,
    ensures
        forall|x: usize| x < n ==> s.contains(x),
{
    broadcast use group_seq_properties;
    broadcast use vstd::set::group_set_axioms;
    broadcast use vstd::seq_lib::seq_to_set_is_finite;

    let range = <usize as FiniteRange>::range_set(0, n as usize);
    range_set_properties::<usize>(0, n as usize);
    s.unique_seq_to_set();
    assert(s.to_set().subset_of(range)) by {
        assert forall|x: usize| s.to_set().contains(x) implies range.contains(x) by {
            let k = choose|k: int| 0 <= k < s.len() && s[k] == x;
        }
    }
    lemma_subset_equality(s.to_set(), range);
    assert forall|x: usize| x < n implies s.contains(x) by {
        assert(range.contains(x));
        assert(s.to_set().contains(x));
    }
}

/// Rearranging a permutation of `0..n` gives a permutation of `0..n`.
pub proof fn lemma_rearranged_permutation(s: Seq<usize>, t: Seq<usize>, n: nat)
    requires
        is_permutation(s, n),
        t.to_multiset() == s.to_multiset(),
    ensures
        is_permutation(t, n),
{
    broadcast use group_to_multiset_ensures;
    broadcast use vstd::multiset::group_multiset_axioms;

    assert(t.len() == t.to_multiset().len());
    assert(s.len() == s.to_multiset().len());
    s.lemma_multiset_has_no_duplicates();
    t.lemma_multiset_has_no_duplicates_conv();
    assert forall|i: int| 0 <= i < t.len() implies (#[trigger] t[i]) < n by {
        assert(t.contains(t[i]));
        assert(t.to_multiset().count(t[i]) > 0);
        assert(s.to_multiset().count(t[i]) > 0);
        assert(s.contains(t[i]));
        let k = choose|k: int| 0 <= k < s.len() && s[k] == t[i];
    }
}

/// The stops `0, 1, ..., n - 1` in order.
pub fn identity_tour(n: usize) -> (r: Vec<usize>)
    ensures
        r@ == Seq::new(n as nat, |k: int| k as usize),
        is_permutation(r@, n as nat),
{
    let mut r: Vec<usize> = Vec::new();
    let mut k: usize = 0;
    while k < n
        invariant
            k <= n,
            r@ == Seq::new(k as nat, |m: int| m as usize),
        decreases n - k,
    {
        r.push(k);
        k = k + 1;
        assert(r@ =~= Seq::new(k as nat, |m: int| m as usize));
    }
    r
}

/// `s` with the values at `i` and `j` exchanged.
pub open spec fn swapped(s: Seq<usize>, i: int, j: int) -> Seq<usize> {
    s.update(i, s[j]).update(j, s[i])
}

/// Exchanging two stops keeps a permutation a permutation.
pub proof fn lemma_swap_permutation(s: Seq<usize>, n: nat, i: int, j: int)
    requires
        is_permutation(s, n),
        0 <= i < s.len(),
        0 <= j < s.len(),
    ensures
        is_permutation(swapped(s, i, j), n),
{
    let t = swapped(s, i, j);
    assert forall|a: int, b: int| 0 <= a < t.len() && 0 <= b < t.len() && a != b implies t[a]
        != t[b] by {
        let sa = if a == i { j } else if a == j { i } else { a };
        let sb = if b == i { j } else if b == j { i } else { b };
        assert(t[a] == s[sa]);
        assert(t[b] == s[sb]);
    }
}

/// Exchanges the stops at positions `i` and `j`.
pub fn swap_stops(v: &mut Vec<usize>, i: usize, j: usize)
    requires
        i < old(v)@.len(),
        j < old(v)@.len(),
    ensures
        final(v)@ == swapped(old(v)@, i as int, j as int),
{
    let a = v[i];
    let b = v[j];
    v.set(i, b);
    v.set(j, a);
}

/// `s` with the segment `i..=j` in reverse order.
pub open spec fn reversed_segment(s: Seq<usize>, i: int, j: int) -> Seq<usize> {
    Seq::new(s.len(), |k: int| if i <= k <= j { s[i + j - k] } else { s[k] })
}

/// Reversing a segment keeps a permutation a permutation.
pub proof fn lemma_reverse_permutation(s: Seq<usize>, n: nat, i: int, j: int)
    requires
        is_permutation(s, n),
        0 <= i <= j < s.len(),
    ensures
        is_permutation(reversed_segment(s, i, j), n),
{
    let t = reversed_segment(s, i, j);
    assert forall|a: int, b: int| 0 <= a < t.len() && 0 <= b < t.len() && a != b implies t[a]
        != t[b] by {
        let sa = if i <= a <= j { i + j - a } else { a };
        let sb = if i <= b <= j { i + j - b } else { b };
        assert(t[a] == s[sa]);
        assert(t[b] == s[sb]);
    }
    assert forall|k: int| 0 <= k < t.len() implies (#[trigger] t[k]) < n by {
        let sk = if i <= k <= j { i + j - k } else { k };
        assert(t[k] == s[sk]);
    }
}

/// Reverses the order of the stops at positions `i..=j`.
pub fn reverse_segment(v: &mut Vec<usize>, i: usize, j: usize)
    requires
        i <= j < old(v)@.len(),
    ensures
        final(v)@ == reversed_segment(old(v)@, i as int, j as int),
{
    let ghost s = v@;
    let mut lo = i;
    let mut hi = j;
    while lo < hi
        invariant
            i <= lo,
            hi <= j < s.len(),
            lo + hi == i + j,
            lo <= hi + 1,
            v@.len() == s.len(),
            forall|k: int|
                0 <= k < s.len() ==> #[trigger] v@[k] == if (i <= k < lo || hi < k <= j) {
                    s[i + j - k]
                } else {
                    s[k]
                },
        decreases hi + 1 - lo,
    {
        swap_stops(v, lo, hi);
        lo = lo + 1;
        hi = hi - 1;
    }
    assert forall|k: int| 0 <= k < s.len() implies #[trigger] v@[k] == reversed_segment(
        s,
        i as int,
        j as int,
    )[k] by {
        if lo <= k <= hi {
            assert(k == i + j - k);
        }
    }
    assert(v@ =~= reversed_segment(s, i as int, j as int));
}

/// The stops of `p2`, in its order, that do not occur in `p1[i..j]`.
pub open spec fn unused_stops(p1: Seq<usize>, p2: Seq<usize>, i: int, j: int) -> Seq<usize> {
    p2.filter(outside_segment(p1, i, j))
}

/// The stops that do not occur in `p1[i..j]`.
pub open spec fn outside_segment(p1: Seq<usize>, i: int, j: int) -> spec_fn(usize) -> bool {
    |x: usize| !p1.subrange(i, j).contains(x)
}

/// The child of order crossover with cut points `i < j`: it holds
/// `p1[i..j]` at positions `i..j`, and the stops of `p2` that are not in that
/// segment, in `p2`'s order, at positions `0..i` and then `j..`.
pub open spec fn order_crossover_child(p1: Seq<usize>, p2: Seq<usize>, i: int, j: int) -> Seq<
    usize,
> {
    let rest = unused_stops(p1, p2, i, j);
    rest.take(i) + p1.subrange(i, j) + rest.skip(i)
}

/// The stops of two permutations of `0..n` that are left over after taking
/// out the segment `i..j` of the first number `n - (j - i)`, and placing them
/// around that segment gives a permutation of `0..n`.
pub proof fn lemma_order_crossover_permutation(p1: Seq<usize>, p2: Seq<usize>, n: nat, i: int, j: int)
    requires
        is_permutation(p1, n),
        is_permutation(p2, n),
        n <= usize::MAX,
        0 <= i < j <= n,
    ensures
        unused_stops(p1, p2, i, j).len() == n - (j - i),
        is_permutation(order_crossover_child(p1, p2, i, j), n),
{
    broadcast use group_seq_properties;
    broadcast use vstd::seq_lib::group_filter_ensures;
    broadcast use vstd::seq_lib::seq_to_set_is_finite;
    broadcast use vstd::set::group_set_axioms;

    let seg = p1.subrange(i, j);
    let pred = outside_segment(p1, i, j);
    let rest = p2.filter(pred);
    assert(rest == unused_stops(p1, p2, i, j));
    let c = rest + seg;
    lemma_permutation_contains_all(p2, n);
    // every value of `rest` is a value of `p2` outside the segment
    assert forall|a: int| 0 <= a < rest.len() implies p2.contains(#[trigger] rest[a]) && !seg.contains(
        rest[a],
    ) by {
        assert(rest.contains(rest[a]));
        p2.lemma_filter_contains_rev(pred, rest[a]);
    }
    lemma_filter_no_duplicates(p2, pred);
    assert(c.no_duplicates()) by {
        assert forall|a: int, b: int| 0 <= a < c.len() && 0 <= b < c.len() && a != b implies c[a]
            != c[b] by {
            if a < rest.len() && b >= rest.len() {
                assert(seg.contains(c[b]));
            } else if b < rest.len() && a >= rest.len() {
                assert(seg.contains(c[a]));
            } else if a >= rest.len() && b >= rest.len() {
                assert(c[a] == p1[i + a - rest.len()]);
                assert(c[b] == p1[i + b - rest.len()]);
            }
        }
    }
    let range = <usize as FiniteRange>::range_set(0, n as usize);
    range_set_properties::<usize>(0, n as usize);
    assert(c.to_set() =~= range) by {
        assert forall|x: usize| c.to_set().contains(x) implies range.contains(x) by {
            let k = choose|k: int| 0 <= k < c.len() && c[k] == x;
            if k < rest.len() {
                let m = choose|m: int| 0 <= m < p2.len() && p2[m] == x;
            } else {
                assert(x == p1[i + k - rest.len()]);
            }
        }
        assert forall|x: usize| range.contains(x) implies c.to_set().contains(x) by {
            assert(p2.contains(x));
            if seg.contains(x) {
                let k = choose|k: int| 0 <= k < seg.len() && seg[k] == x;
                assert(c[rest.len() + k] == x);
            } else {
                let m = choose|m: int| 0 <= m < p2.len() && p2[m] == x;
                assert(pred(p2[m]));
                assert(rest.contains(x));
                let k = choose|k: int| 0 <= k < rest.len() && rest[k] == x;
                assert(c[k] == x);
            }
        }
    }
    c.unique_seq_to_set();
    assert(is_permutation(c, n)) by {
        assert forall|k: int| 0 <= k < c.len() implies (#[trigger] c[k]) < n by {
            assert(c.to_set().contains(c[k]));
        }
    }
    let child = order_crossover_child(p1, p2, i, j);
    assert(child.to_multiset() == c.to_multiset()) by {
        broadcast use vstd::multiset::group_multiset_axioms;

        let front = rest.take(i);
        let back = rest.skip(i);
        assert(rest =~= front + back);
        lemma_multiset_commutative(front, back);
        lemma_multiset_commutative(front, seg);
        lemma_multiset_commutative(front + seg, back);
        lemma_multiset_commutative(rest, seg);
        assert(child == front + seg + back);
        assert(child.to_multiset() =~= c.to_multiset());
    }
    lemma_rearranged_permutation(c, child, n);
}

/// Keeping the values of a sequence without duplicates that meet a predicate
/// gives a sequence without duplicates.
proof fn lemma_filter_no_duplicates(s: Seq<usize>, pred: spec_fn(usize) -> bool)
    requires
        s.no_duplicates(),
    ensures
        s.filter(pred).no_duplicates(),
    decreases s.len(),
{
    broadcast use group_seq_properties;

    if s.len() > 0 {
        let init = s.drop_last();
        let last = s.last();
        assert(s =~= init.push(last));
        assert(init.no_duplicates());
        lemma_filter_no_duplicates(init, pred);
        init.lemma_filter_push(last, pred);
        if init.filter(pred).contains(last) {
            init.lemma_filter_contains_rev(pred, last);
        }
    }
}

/// Order crossover of two permutations with cut points `i < j`: the child
/// keeps `p1[i..j]` in place and fills the other positions, from the front and
/// skipping over the segment, with the remaining stops in `p2`'s order.
pub fn order_crossover(p1: &Vec<usize>, p2: &Vec<usize>, i: usize, j: usize) -> (r: Vec<usize>)
    requires
        is_permutation(p1@, p1@.len()),
        is_permutation(p2@, p1@.len()),
        i < j <= p1@.len(),
    ensures
        r@ == order_crossover_child(p1@, p2@, i as int, j as int),
        is_permutation(r@, p1@.len()),
{
    broadcast use group_seq_properties;

    let n = p1.len();
    let ghost seg = p1@.subrange(i as int, j as int);
    let ghost pred = outside_segment(p1@, i as int, j as int);
    let mut in_segment: Vec<bool> = Vec::new();
    let mut k: usize = 0;
    while k < n
        invariant
            k <= n,
            in_segment@.len() == k,
            forall|m: int| 0 <= m < k ==> !(#[trigger] in_segment@[m]),
        decreases n - k,
    {
        in_segment.push(false);
        k = k + 1;
    }
    k = i;
    while k < j
        invariant
            n == p1@.len(),
            is_permutation(p1@, n as nat),
            i <= k <= j <= n,
            in_segment@.len() == n,
            forall|x: usize| x < n ==> #[trigger] in_segment@[x as int] == p1@.subrange(i as int, k as int).contains(x),
        decreases j - k,
    {
        let ghost before = in_segment@;
        assert(p1@.subrange(i as int, k + 1) =~= p1@.subrange(i as int, k as int).push(p1@[k as int]));
        let stop = p1[k];
        in_segment.set(stop, true);
        assert forall|x: usize| x < n implies #[trigger] in_segment@[x as int] == p1@.subrange(
            i as int,
            k + 1,
        ).contains(x) by {
            if x != stop {
                assert(in_segment@[x as int] == before[x as int]);
                if p1@.subrange(i as int, k + 1).contains(x) {
                    let m = choose|m: int| 0 <= m < k + 1 - i && #[trigger] p1@.subrange(i as int, k + 1)[m] == x;
                    assert(p1@.subrange(i as int, k as int)[m] == x);
                }
            } else {
                assert(p1@.subrange(i as int, k + 1)[k - i] == x);
            }
        }
        k = k + 1;
    }
    assert(p1@.subrange(i as int, j as int) == seg);
    let mut rest: Vec<usize> = Vec::new();
    k = 0;
    while k < n
        invariant
            n == p1@.len(),
            is_permutation(p2@, n as nat),
            k <= n,
            in_segment@.len() == n,
            forall|x: usize| x < n ==> #[trigger] in_segment@[x as int] == seg.contains(x),
            pred == outside_segment(p1@, i as int, j as int),
            seg == p1@.subrange(i as int, j as int),
            i < j <= n,
            rest@ == p2@.take(k as int).filter(pred),
        decreases n - k,
    {
        let stop = p2[k];
        assert(p2@.take(k + 1) =~= p2@.take(k as int).push(stop));
        proof {
            p2@.take(k as int).lemma_filter_push(stop, pred);
        }
        assert(pred(stop) == !seg.contains(stop));
        if !in_segment[stop] {
            rest.push(stop);
        }
        k = k + 1;
    }
    assert(p2@.take(n as int) =~= p2@);
    proof {
        lemma_order_crossover_permutation(p1@, p2@, n as nat, i as int, j as int);
    }
    let ghost target = order_crossover_child(p1@, p2@, i as int, j as int);
    let mut child: Vec<usize> = Vec::new();
    k = 0;
    while k < i
        invariant
            k <= i <= rest@.len(),
            child@ == rest@.take(k as int),
        decreases i - k,
    {
        child.push(rest[k]);
        k = k + 1;
        assert(child@ =~= rest@.take(k as int));
    }
    k = i;
    while k < j
        invariant
            i <= k <= j <= n,
            n == p1@.len(),
            child@ == rest@.take(i as int) + p1@.subrange(i as int, k as int),
        decreases j - k,
    {
        child.push(p1[k]);
        k = k + 1;
        assert(child@ =~= rest@.take(i as int) + p1@.subrange(i as int, k as int));
    }
    k = i;
    while k < rest.len()
        invariant
            i <= k <= rest@.len(),
            i < j <= n,
            n == p1@.len(),
            child@ == rest@.take(i as int) + p1@.subrange(i as int, j as int) + rest@.subrange(i as int, k as int),
        decreases rest@.len() - k,
    {
        child.push(rest[k]);
        k = k + 1;
        assert(child@ =~= rest@.take(i as int) + p1@.subrange(i as int, j as int) + rest@.subrange(i as int, k as int));
    }
    assert(child@ =~= target);
    child
}

/// Whether `v` visits each of `0..n` exactly once.
pub fn check_permutation(v: &Vec<usize>, n: usize) -> (r: bool)
    ensures
        r == is_permutation(v@, n as nat),
{
    broadcast use group_seq_properties;

    if v.len() != n {
        return false;
    }
    let mut seen: Vec<bool> = Vec::new();
    let mut k: usize = 0;
    while k < n
        invariant
            k <= n,
            seen@.len() == k,
            forall|m: int| 0 <= m < k ==> !(#[trigger] seen@[m]),
        decreases n - k,
    {
        seen.push(false);
        k = k + 1;
    }
    k = 0;
    while k < n
        invariant
            k <= n,
            v@.len() == n,
            seen@.len() == n,
            v@.take(k as int).no_duplicates(),
            forall|m: int| 0 <= m < k ==> (#[trigger] v@[m]) < n,
            forall|x: usize| x < n ==> #[trigger] seen@[x as int] == v@.take(k as int).contains(x),
        decreases n - k,
    {
        let x = v[k];
        if x >= n {
            return false;
        }
        if seen[x] {
            let ghost m = choose|m: int| 0 <= m < k && #[trigger] v@.take(k as int)[m] == x;
            assert(v@[m] == v@[k as int]);
            return false;
        }
        let ghost before = seen@;
        seen.set(x, true);
        assert(v@.take(k + 1) =~= v@.take(k as int).push(x));
        assert forall|y: usize| y < n implies #[trigger] seen@[y as int] == v@.take(k + 1).contains(y) by {
            if y != x {
                assert(seen@[y as int] == before[y as int]);
            } else {
                assert(v@.take(k + 1)[k as int] == x);
            }
        }
        k = k + 1;
    }
    assert(v@.take(n as int) =~= v@);
    true
}

/// The position in `p1` of the stop at position `i` of `p2`.
pub open spec fn cycle_successor(p1: Seq<usize>, p2: Seq<usize>, i: int) -> int {
    choose|j: int| 0 <= j < p1.len() && p1[j] == p2[i]
}

/// The position reached from `start` after `t` steps of `cycle_successor`.
pub open spec fn cycle_walk(p1: Seq<usize>, p2: Seq<usize>, start: int, t: nat) -> int
    decreases t,
{
    if t == 0 {
        start
    } else {
        cycle_successor(p1, p2, cycle_walk(p1, p2, start, (t - 1) as nat))
    }
}

/// Position `i` lies on the cycle through `start`.
pub open spec fn on_cycle(p1: Seq<usize>, p2: Seq<usize>, start: int, i: int) -> bool {
    exists|t: nat| cycle_walk(p1, p2, start, t) == i
}

/// The child of cycle crossover from position `start`: the positions on the
/// cycle through `start` hold `p1`'s stops, the others `p2`'s.
pub open spec fn cycle_crossover_child(p1: Seq<usize>, p2: Seq<usize>, start: int) -> Seq<usize> {
    Seq::new(p1.len(), |i: int| if on_cycle(p1, p2, start, i) { p1[i] } else { p2[i] })
}

/// On two permutations the successor of a position is the position in `p1`
/// of `p2`'s stop there, and distinct positions have distinct successors.
proof fn lemma_cycle_successor(p1: Seq<usize>, p2: Seq<usize>, n: nat)
    requires
        is_permutation(p1, n),
        is_permutation(p2, n),
        n <= usize::MAX,
    ensures
        forall|i: int|
            0 <= i < n ==> 0 <= #[trigger] cycle_successor(p1, p2, i) < n && p1[cycle_successor(
                p1,
                p2,
                i,
            )] == p2[i],
        forall|i: int, j: int|
            0 <= i < n && 0 <= j < n && i != j ==> #[trigger] cycle_successor(p1, p2, i)
                != #[trigger] cycle_successor(p1, p2, j),
{
    lemma_permutation_contains_all(p1, n);
    assert forall|i: int| 0 <= i < n implies 0 <= #[trigger] cycle_successor(p1, p2, i) < n && p1[cycle_successor(
        p1,
        p2,
        i,
    )] == p2[i] by {
        assert(p1.contains(p2[i]));
    }
}

/// Cycle crossover from position `start`: follows the cycle that alternates
/// between the two parents' positions until it closes, takes `p1`'s stops on
/// it and `p2`'s elsewhere.
pub fn cycle_crossover(p1: &Vec<usize>, p2: &Vec<usize>, start: usize) -> (r: Vec<usize>)
    requires
        is_permutation(p1@, p1@.len()),
        is_permutation(p2@, p1@.len()),
        start < p1@.len(),
    ensures
        r@ == cycle_crossover_child(p1@, p2@, start as int),
        is_permutation(r@, p1@.len()),
{
    let n = p1.len();
    proof {
        lemma_cycle_successor(p1@, p2@, n as nat);
    }
    // the position of each stop in `p1`
    let mut position: Vec<usize> = Vec::new();
    let mut k: usize = 0;
    while k < n
        invariant
            k <= n,
            position@.len() == k,
        decreases n - k,
    {
        position.push(0);
        k = k + 1;
    }
    k = 0;
    while k < n
        invariant
            k <= n,
            n == p1@.len(),
            is_permutation(p1@, n as nat),
            position@.len() == n,
            forall|m: int| 0 <= m < k ==> #[trigger] position@[p1@[m] as int] == m,
        decreases n - k,
    {
        let ghost before = position@;
        position.set(p1[k], k);
        assert forall|m: int| 0 <= m < k + 1 implies #[trigger] position@[p1@[m] as int] == m by {
            if m < k {
                assert(p1@[m] != p1@[k as int]);
                assert(position@[p1@[m] as int] == before[p1@[m] as int]);
            }
        }
        k = k + 1;
    }
    let mut visited: Vec<bool> = Vec::new();
    k = 0;
    while k < n
        invariant
            k <= n,
            visited@.len() == k,
            forall|m: int| 0 <= m < k ==> !(#[trigger] visited@[m]),
        decreases n - k,
    {
        visited.push(false);
        k = k + 1;
    }
    let ghost mut path: Seq<int> = seq![start as int];
    let ghost unvisited = visited@;
    visited.set(start, true);
    assert forall|i: int| 0 <= i < n implies (#[trigger] visited@[i] <==> path.contains(i)) by {
        if i == start {
            assert(path[0] == i);
        } else {
            assert(visited@[i] == unvisited[i]);
        }
    }
    let mut current = start;
    loop
        invariant
            n == p1@.len(),
            is_permutation(p1@, n as nat),
            is_permutation(p2@, n as nat),
            position@.len() == n,
            forall|m: int| 0 <= m < n ==> #[trigger] position@[p1@[m] as int] == m,
            visited@.len() == n,
            0 < path.len() <= n,
            current < n,
            current == path.last(),
            path.no_duplicates(),
            forall|t: int| 0 <= t < path.len() ==> #[trigger] path[t] == cycle_walk(p1@, p2@, start as int, t as nat),
            forall|t: int| 0 <= t < path.len() ==> 0 <= #[trigger] path[t] < n,
            forall|i: int| 0 <= i < n ==> (#[trigger] visited@[i] <==> path.contains(i)),
        ensures
            path.contains(cycle_successor(p1@, p2@, path.last())),
        decreases n - path.len(),
    {
        let next = position[p2[current]];
        assert(p1@.contains(p2@[current as int])) by {
            lemma_permutation_contains_all(p1@, n as nat);
        }
        assert(next as int == cycle_successor(p1@, p2@, current as int)) by {
            let j = cycle_successor(p1@, p2@, current as int);
            assert(position@[p1@[j] as int] == j);
        }
        if visited[next] {
            break;
        }
        let ghost old_path = path;
        let ghost old_visited = visited@;
        proof {
            assert(cycle_walk(p1@, p2@, start as int, path.len()) == next as int);
            path = path.push(next as int);
            assert(!old_path.contains(next as int));
            assert forall|t: int| 0 <= t < path.len() implies 0 <= #[trigger] path[t] < n by {
                if t < old_path.len() {
                    assert(path[t] == old_path[t]);
                }
            }
            lemma_distinct_positions_bound(path, n as int);
        }
        visited.set(next, true);
        assert forall|i: int| 0 <= i < n implies (#[trigger] visited@[i] <==> path.contains(i)) by {
            if i == next {
                assert(path[path.len() - 1] == i);
            } else {
                assert(visited@[i] == old_visited[i]);
                if path.contains(i) {
                    let t = choose|t: int| 0 <= t < path.len() && path[t] == i;
                    assert(old_path[t] == i);
                }
                if old_path.contains(i) {
                    let t = choose|t: int| 0 <= t < old_path.len() && old_path[t] == i;
                    assert(path[t] == i);
                }
            }
        }
        current = next;
    }
    proof {
        lemma_cycle_closes(p1@, p2@, n as nat, start as int, path);
    }
    let mut child: Vec<usize> = Vec::new();
    k = 0;
    while k < n
        invariant
            k <= n,
            n == p1@.len(),
            n == p2@.len(),
            visited@.len() == n,
            child@.len() == k,
            forall|m: int| 0 <= m < k ==> #[trigger] child@[m] == if visited@[m] { p1@[m] } else { p2@[m] },
        decreases n - k,
    {
        if visited[k] {
            child.push(p1[k]);
        } else {
            child.push(p2[k]);
        }
        k = k + 1;
    }
    proof {
        assert forall|i: int| 0 <= i < n implies (#[trigger] visited@[i] <==> on_cycle(p1@, p2@, start as int, i)) by {
            if visited@[i] {
                let t = choose|t: int| 0 <= t < path.len() && path[t] == i;
                assert(cycle_walk(p1@, p2@, start as int, t as nat) == i);
            }
            if on_cycle(p1@, p2@, start as int, i) {
                let t = choose|t: nat| cycle_walk(p1@, p2@, start as int, t) == i;
                lemma_walk_stays_on_path(p1@, p2@, start as int, path, t);
            }
        }
        assert(child@ =~= cycle_crossover_child(p1@, p2@, start as int));
        lemma_cycle_child_permutation(p1@, p2@, n as nat, start as int, path, visited@, child@);
    }
    child
}

/// Distinct positions below `n` number at most `n`.
proof fn lemma_distinct_positions_bound(s: Seq<int>, n: int)
    requires
        s.no_duplicates(),
        forall|t: int| 0 <= t < s.len() ==> 0 <= #[trigger] s[t] < n,
        0 <= n,
    ensures
        s.len() <= n,
{
    broadcast use vstd::seq_lib::seq_to_set_is_finite;

    s.unique_seq_to_set();
    vstd::set_lib::lemma_int_range(0, n);
    assert(s.to_set().subset_of(vstd::set_lib::set_int_range(0, n))) by {
        assert forall|x: int| s.to_set().contains(x) implies vstd::set_lib::set_int_range(0, n).contains(x) by {
            let t = choose|t: int| 0 <= t < s.len() && s[t] == x;
        }
    }
    vstd::set_lib::lemma_len_subset(s.to_set(), vstd::set_lib::set_int_range(0, n));
}

/// A walk of distinct positions whose next step would revisit one of them
/// returns to where it started.
proof fn lemma_cycle_closes(p1: Seq<usize>, p2: Seq<usize>, n: nat, start: int, path: Seq<int>)
    requires
        is_permutation(p1, n),
        is_permutation(p2, n),
        n <= usize::MAX,
        0 < path.len(),
        path.no_duplicates(),
        forall|t: int| 0 <= t < path.len() ==> #[trigger] path[t] == cycle_walk(p1, p2, start, t as nat),
        forall|t: int| 0 <= t < path.len() ==> 0 <= #[trigger] path[t] < n,
        path.contains(cycle_successor(p1, p2, path.last())),
    ensures
        cycle_successor(p1, p2, path.last()) == start,
        cycle_walk(p1, p2, start, path.len()) == start,
{
    lemma_cycle_successor(p1, p2, n);
    let last = path.last();
    let next = cycle_successor(p1, p2, last);
    let k = choose|k: int| 0 <= k < path.len() && path[k] == next;
    if k > 0 {
        assert(path[k] == cycle_successor(p1, p2, path[k - 1]));
        assert(path[k - 1] == last);
        assert(path[path.len() - 1] == last);
    }
    assert(path[0] == start);
}

/// Every position that the walk reaches is on its first round.
proof fn lemma_walk_stays_on_path(p1: Seq<usize>, p2: Seq<usize>, start: int, path: Seq<int>, t: nat)
    requires
        0 < path.len(),
        forall|m: int| 0 <= m < path.len() ==> #[trigger] path[m] == cycle_walk(p1, p2, start, m as nat),
        cycle_walk(p1, p2, start, path.len()) == start,
    ensures
        path.contains(cycle_walk(p1, p2, start, t)),
    decreases t,
{
    if t < path.len() {
        assert(path[t as int] == cycle_walk(p1, p2, start, t));
    } else {
        lemma_walk_shift(p1, p2, start, path.len(), (t - path.len()) as nat);
        lemma_walk_stays_on_path(p1, p2, start, path, (t - path.len()) as nat);
    }
}

/// After a walk returns to its start it repeats itself.
proof fn lemma_walk_shift(p1: Seq<usize>, p2: Seq<usize>, start: int, period: nat, t: nat)
    requires
        cycle_walk(p1, p2, start, period) == start,
    ensures
        cycle_walk(p1, p2, start, period + t) == cycle_walk(p1, p2, start, t),
    decreases t,
{
    if t > 0 {
        lemma_walk_shift(p1, p2, start, period, (t - 1) as nat);
        assert(cycle_walk(p1, p2, start, period + t) == cycle_successor(
            p1,
            p2,
            cycle_walk(p1, p2, start, (period + t - 1) as nat),
        ));
    }
}

/// Taking `p1`'s stops on a closed cycle and `p2`'s elsewhere gives a permutation.
proof fn lemma_cycle_child_permutation(
    p1: Seq<usize>,
    p2: Seq<usize>,
    n: nat,
    start: int,
    path: Seq<int>,
    visited: Seq<bool>,
    child: Seq<usize>,
)
    requires
        is_permutation(p1, n),
        is_permutation(p2, n),
        n <= usize::MAX,
        0 < path.len(),
        path[0] == start,
        forall|t: int| 0 <= t < path.len() ==> 0 <= #[trigger] path[t] < n,
        forall|t: int|
            0 < t < path.len() ==> #[trigger] path[t] == cycle_successor(p1, p2, path[t - 1]),
        cycle_successor(p1, p2, path.last()) == start,
        visited.len() == n,
        forall|i: int| 0 <= i < n ==> (#[trigger] visited[i] <==> path.contains(i)),
        child.len() == n,
        forall|i: int| 0 <= i < n ==> #[trigger] child[i] == if visited[i] { p1[i] } else { p2[i] },
    ensures
        is_permutation(child, n),
{
    lemma_cycle_successor(p1, p2, n);
    // every stop of `p1` on the cycle is a stop of `p2` on the cycle
    assert forall|a: int| 0 <= a < n && visited[a] implies exists|c: int|
        0 <= c < n && visited[c] && #[trigger] p2[c] == p1[a] by {
        let t = choose|t: int| 0 <= t < path.len() && path[t] == a;
        let c = if t == 0 { path.last() } else { path[t - 1] };
        assert(path.contains(c));
        assert(cycle_successor(p1, p2, c) == a);
        assert(p2[c] == p1[a]);
    }
    assert forall|a: int, b: int| 0 <= a < child.len() && 0 <= b < child.len() && a != b implies child[a]
        != child[b] by {
        if visited[a] && !visited[b] {
            let c = choose|c: int| 0 <= c < n && visited[c] && #[trigger] p2[c] == p1[a];
            assert(c != b);
        } else if !visited[a] && visited[b] {
            let c = choose|c: int| 0 <= c < n && visited[c] && #[trigger] p2[c] == p1[b];
            assert(c != a);
        }
    }
}

} // verus!
