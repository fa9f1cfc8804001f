//! The length of a closed tour, and the laws it obeys.

use vstd::prelude::*;
use crate::node::{
    Node, dist, distance, distance_to_self_is_zero, distance_is_symmetric,
    distance_triangle_inequality,
};

verus! {

/// `f(0) + f(1) + ... + f(n - 1)`.
pub open spec fn sum_to(f: spec_fn(int) -> nat, n: int) -> nat
    decreases n,
{
    if n <= 0 {
        0
    } else {
        sum_to(f, n - 1) + f(n - 1)
    }
}

/// The edge that leaves position `i`: to the next node, or from the last
/// node back to the first.
pub open spec fn edge(s: Seq<Node>, i: int) -> nat {
    if i + 1 < s.len() {
        dist(s[i], s[i + 1])
    } else {
        dist(s[i], s[0])
    }
}

/// Length of the closed tour that visits `s` in order and returns to its start.
pub open spec fn tour_len(s: Seq<Node>) -> nat {
    sum_to(|i: int| edge(s, i), s.len() as int)
}

/// The tour started at position `k` instead of position 0.
pub open spec fn rotate(s: Seq<Node>, k: int) -> Seq<Node> {
    s.subrange(k, s.len() as int) + s.subrange(0, k)
}

/// Length of the closed tour through `tour` in order, back to the first node.
pub fn tour_length(tour: &Vec<Node>) -> (r: u128)
    ensures
        r as nat == tour_len(tour@),
        r <= tour@.len() * 0x2_0000_0000,
{
    let n = tour.len();
    let mut total: u128 = 0;
    let mut i: usize = 0;
    while i < n
        invariant
            n == tour.len(),
            i <= n,
            total as nat == sum_to(|k: int| edge(tour@, k), i as int),
            total <= i * 0x2_0000_0000,
        decreases n - i,
    {
        let j: usize = if i + 1 < n { i + 1 } else { 0 };
        let d = distance(&tour[i], &tour[j]);
        total = total + d as u128;
        i = i + 1;
    }
    total
}

proof fn lemma_sum_ext(f: spec_fn(int) -> nat, g: spec_fn(int) -> nat, n: int)
    requires
        forall|i: int| 0 <= i < n ==> #[trigger] f(i) == g(i),
    ensures
        sum_to(f, n) == sum_to(g, n),
    decreases n,
{
    if n > 0 {
        lemma_sum_ext(f, g, n - 1);
    }
}

proof fn lemma_sum_peel_front(f: spec_fn(int) -> nat, n: int)
    requires
        n >= 0,
    ensures
        sum_to(f, n + 1) == f(0) + sum_to(|i: int| f(i + 1), n),
    decreases n,
{
    let g = |i: int| f(i + 1);
    if n > 0 {
        lemma_sum_peel_front(f, n - 1);
        assert(sum_to(g, n) == sum_to(g, n - 1) + g(n - 1));
    } else {
        assert(sum_to(f, 1) == sum_to(f, 0) + f(0));
    }
}

proof fn lemma_sum_reverse(f: spec_fn(int) -> nat, n: int)
    requires
        n >= 0,
    ensures
        sum_to(|i: int| f(n - 1 - i), n) == sum_to(f, n),
    decreases n,
{
    if n > 0 {
        let g = |i: int| f(n - 1 - i);
        let h = |j: int| f(j + 1);
        lemma_sum_reverse(h, n - 1);
        lemma_sum_ext(g, |i: int| h(n - 2 - i), n - 1);
        lemma_sum_peel_front(f, n - 1);
    }
}

/// A tour of no node or of a single node has length zero.
pub proof fn short_tour_has_zero_length(s: Seq<Node>)
    requires
        s.len() <= 1,
    ensures
        tour_len(s) == 0,
{
    if s.len() == 1 {
        distance_to_self_is_zero(s[0]);
        let f = |i: int| edge(s, i);
        assert(f(0) == 0);
        assert(sum_to(f, 1) == sum_to(f, 0) + f(0));
    }
}

/// A tour of two nodes goes there and back: twice the distance between them.
pub proof fn two_node_tour_is_there_and_back(s: Seq<Node>)
    requires
        s.len() == 2,
    ensures
        tour_len(s) == 2 * dist(s[0], s[1]),
{
    distance_is_symmetric(s[1], s[0]);
    let f = |i: int| edge(s, i);
    assert(sum_to(f, 2) == sum_to(f, 1) + f(1));
    assert(sum_to(f, 1) == sum_to(f, 0) + f(0));
}

/// The edges from position `i` to position `j` are no shorter than the
/// direct way between them.
proof fn lemma_path_at_least_direct(s: Seq<Node>, i: int, j: int)
    requires
        0 <= i <= j < s.len(),
    ensures
        sum_to(|k: int| edge(s, k), j) >= sum_to(|k: int| edge(s, k), i) + dist(s[i], s[j]),
    decreases j - i,
{
    let f = |k: int| edge(s, k);
    if j == i {
        distance_to_self_is_zero(s[i]);
    } else {
        lemma_path_at_least_direct(s, i, j - 1);
        assert(sum_to(f, j) == sum_to(f, j - 1) + f(j - 1));
        assert(f(j - 1) == dist(s[j - 1], s[j]));
        distance_triangle_inequality(s[i], s[j - 1], s[j]);
    }
}

/// A closed tour is at least twice as long as the distance between any two
/// of its nodes: it goes from one to the other and back.
pub proof fn tour_at_least_twice_any_distance(s: Seq<Node>, i: int, j: int)
    requires
        0 <= i < s.len(),
        0 <= j < s.len(),
    ensures
        tour_len(s) >= 2 * dist(s[i], s[j]),
{
    if i > j {
        lemma_tour_at_least_twice(s, j, i);
        distance_is_symmetric(s[i], s[j]);
    } else {
        lemma_tour_at_least_twice(s, i, j);
    }
}

proof fn lemma_tour_at_least_twice(s: Seq<Node>, i: int, j: int)
    requires
        0 <= i <= j < s.len(),
    ensures
        tour_len(s) >= 2 * dist(s[i], s[j]),
{
    let n = s.len() as int;
    let f = |k: int| edge(s, k);
    // from i forward to j
    lemma_path_at_least_direct(s, i, j);
    // from j forward to the last node, back to the first, then on to i
    lemma_path_at_least_direct(s, j, n - 1);
    lemma_path_at_least_direct(s, 0, i);
    assert(sum_to(f, n) == sum_to(f, n - 1) + f(n - 1));
    assert(f(n - 1) == dist(s[n - 1], s[0]));
    assert(sum_to(f, 0) == 0);
    distance_triangle_inequality(s[j], s[n - 1], s[0]);
    distance_triangle_inequality(s[j], s[0], s[i]);
    distance_is_symmetric(s[j], s[i]);
}

proof fn lemma_rotate_one(s: Seq<Node>)
    requires
        s.len() >= 1,
    ensures
        tour_len(rotate(s, 1)) == tour_len(s),
{
    let n = s.len() as int;
    let r = rotate(s, 1);
    if n == 1 {
        assert(r =~= s);
    } else {
        let er = |i: int| edge(r, i);
        let es = |i: int| edge(s, i);
        assert forall|i: int| 0 <= i < n - 1 implies #[trigger] er(i) == es(i + 1) by {
            assert(r[i] == s[i + 1]);
            if i + 1 < n - 1 {
                assert(r[i + 1] == s[i + 2]);
            } else {
                assert(r[i + 1] == s[0]);
            }
        }
        assert(er(n - 1) == es(0)) by {
            assert(r[n - 1] == s[0]);
            assert(r[0] == s[1]);
        }
        lemma_sum_ext(er, |i: int| es(i + 1), n - 1);
        lemma_sum_peel_front(es, n - 1);
    }
}

/// Starting a tour at another of its nodes leaves its length unchanged.
pub proof fn tour_length_rotation_invariant(s: Seq<Node>, k: int)
    requires
        0 <= k <= s.len(),
    ensures
        tour_len(rotate(s, k)) == tour_len(s),
    decreases k,
{
    if k == 0 {
        assert(rotate(s, 0) =~= s);
    } else {
        tour_length_rotation_invariant(s, k - 1);
        let t = rotate(s, k - 1);
        lemma_rotate_one(t);
        assert(rotate(t, 1) =~= rotate(s, k));
    }
}

/// Walking a tour backwards leaves its length unchanged.
pub proof fn tour_length_reversal_invariant(s: Seq<Node>)
    ensures
        tour_len(s.reverse()) == tour_len(s),
{
    let n = s.len() as int;
    if n > 0 {
        let r = s.reverse();
        let er = |i: int| edge(r, i);
        let es = |i: int| edge(s, i);
        assert forall|i: int| 0 <= i < n - 1 implies #[trigger] er(i) == es(n - 2 - i) by {
            distance_is_symmetric(s[n - 1 - i], s[n - 2 - i]);
        }
        assert(er(n - 1) == es(n - 1)) by {
            distance_is_symmetric(s[0], s[n - 1]);
        }
        lemma_sum_ext(er, |i: int| es(n - 1 - 1 - i), n - 1);
        lemma_sum_reverse(es, n - 1);
    }
}

} // verus!
