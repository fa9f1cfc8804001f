//! Exhaustive search over every ordering of the nodes.

use vstd::prelude::*;
use itertools::Itertools;
use crate::node::Node;
use crate::tour::{tour_len, tour_length};

verus! {

/// The orderings of `0..n` in the order in which they are enumerated.
pub uninterp spec fn orderings_of(n: nat) -> Seq<Seq<usize>>;

/// `n!`
pub open spec fn factorial(n: nat) -> nat
    decreases n,
{
    if n == 0 {
        1
    } else {
        n * factorial((n - 1) as nat)
    }
}

/// `p` lists each of `0..n` exactly once.
pub open spec fn is_ordering(p: Seq<usize>, n: nat) -> bool {
    &&& p.len() == n
    &&& p.no_duplicates()
    &&& forall|i: int| 0 <= i < n ==> #[trigger] p[i] < n
}

/// The nodes of `nodes` taken in the order of the positions in `p`.
pub open spec fn arrange(nodes: Seq<Node>, p: Seq<usize>) -> Seq<Node> {
    Seq::new(p.len(), |i: int| nodes[p[i] as int])
}

/// Tour length of each ordering.
pub open spec fn lengths(nodes: Seq<Node>, orders: Seq<Seq<usize>>) -> Seq<nat> {
    Seq::new(orders.len(), |i: int| tour_len(arrange(nodes, orders[i])))
}

/// Each value of `lens` that is strictly below all the values before it.
pub open spec fn running_best(lens: Seq<nat>) -> Seq<nat>
    decreases lens.len(),
{
    if lens.len() == 0 {
        Seq::empty()
    } else {
        let h = running_best(lens.drop_last());
        if h.len() == 0 || lens.last() < h.last() {
            h.push(lens.last())
        } else {
            h
        }
    }
}

/// Every position in every ordering names a node.
pub open spec fn orders_in_range(orders: Seq<Seq<usize>>, n: nat) -> bool {
    forall|i: int, j: int|
        0 <= i < orders.len() && 0 <= j < orders[i].len() ==> #[trigger] orders[i][j] < n
}

/// Relies on itertools::Itertools::permutations: over `0..n` with `k = n` it
/// yields every ordering of `0..n` once, `n!` in all, in an order fixed by `n`.
#[verifier::external_body]
fn all_orderings(n: usize) -> (r: Vec<Vec<usize>>)
    ensures
        r.deep_view() == orderings_of(n as nat),
        r@.len() == factorial(n as nat),
        forall|i: int| 0 <= i < r.len() ==> is_ordering(#[trigger] r@[i]@, n as nat),
        forall|p: Seq<usize>|
            is_ordering(p, n as nat) ==> exists|i: int| 0 <= i < r.len() && #[trigger] r@[i]@ == p,
{
    (0..n).permutations(n).collect()
}

fn arrange_nodes(nodes: &Vec<Node>, order: &Vec<usize>) -> (r: Vec<Node>)
    requires
        forall|j: int| 0 <= j < order.len() ==> #[trigger] order@[j] < nodes.len(),
    ensures
        r@ == arrange(nodes@, order@),
{
    let mut r: Vec<Node> = Vec::new();
    let mut j: usize = 0;
    while j < order.len()
        invariant
            j <= order.len(),
            forall|t: int| 0 <= t < order.len() ==> #[trigger] order@[t] < nodes.len(),
            r@ =~= arrange(nodes@, order@.subrange(0, j as int)),
        decreases order.len() - j,
    {
        r.push(nodes[order[j]]);
        j = j + 1;
    }
    assert(order@.subrange(0, j as int) =~= order@);
    r
}

/// The lengths, in enumeration order, of the tours that improve strictly on
/// every tour before them in `orders`.
pub fn history_over(nodes: &Vec<Node>, orders: &Vec<Vec<usize>>) -> (h: Vec<u128>)
    requires
        orders_in_range(orders.deep_view(), nodes.len() as nat),
    ensures
        h@.map_values(|v: u128| v as nat) == running_best(lengths(nodes@, orders.deep_view())),
        forall|i: int, j: int| 0 <= i < j < h.len() ==> h@[j] < h@[i],
        orders.len() == 0 <==> h.len() == 0,
        h.len() <= orders.len(),
        forall|k: int| 0 <= k < h.len() ==> exists|i: int| 0 <= i < orders.len() &&
            #[trigger] h@[k] == lengths(nodes@, orders.deep_view())[i],
        orders.len() > 0 ==> {
            &&& forall|i: int| 0 <= i < orders.len() ==>
                h@.last() <= #[trigger] lengths(nodes@, orders.deep_view())[i]
            &&& exists|i: int| 0 <= i < orders.len() &&
                h@.last() == #[trigger] lengths(nodes@, orders.deep_view())[i]
        },
{
    let ghost lens = lengths(nodes@, orders.deep_view());
    let mut h: Vec<u128> = Vec::new();
    let mut i: usize = 0;
    while i < orders.len()
        invariant
            i <= orders.len(),
            lens == lengths(nodes@, orders.deep_view()),
            orders_in_range(orders.deep_view(), nodes.len() as nat),
            h@.map_values(|v: u128| v as nat) == running_best(lens.subrange(0, i as int)),
            forall|a: int, b: int| 0 <= a < b < h.len() ==> h@[b] < h@[a],
            i == 0 <==> h.len() == 0,
            h.len() <= i,
            forall|k: int| 0 <= k < h.len() ==> exists|m: int| 0 <= m < i && #[trigger] h@[k] == lens[m],
            i > 0 ==> forall|m: int| 0 <= m < i ==> h@.last() <= #[trigger] lens[m],
            i > 0 ==> exists|m: int| 0 <= m < i && h@.last() == #[trigger] lens[m],
        decreases orders.len() - i,
    {
        assert(orders.deep_view()[i as int] == orders@[i as int]@);
        let tour = arrange_nodes(nodes, &orders[i]);
        let len = tour_length(&tour);
        assert(len == lens[i as int]);
        let ghost old_h = h@;
        assert(lens.subrange(0, i + 1).drop_last() =~= lens.subrange(0, i as int));
        if h.len() == 0 || len < h[h.len() - 1] {
            h.push(len);
            assert(h@.map_values(|v: u128| v as nat) =~= old_h.map_values(|v: u128| v as nat).push(
                len as nat,
            ));
            assert(h@.last() == lens[i as int]);
            assert forall|k: int| 0 <= k < h.len() implies exists|m: int| 0 <= m < i + 1 && #[trigger] h@[k] == lens[m] by {
                if k < h.len() - 1 {
                    assert(h@[k] == old_h[k]);
                    let m = choose|m: int| 0 <= m < i && #[trigger] old_h[k] == lens[m];
                } else {
                    assert(h@[k] == lens[i as int]);
                }
            }
        }
        i = i + 1;
    }
    assert(lens.subrange(0, i as int) =~= lens);
    h
}

/// Searches every ordering of `nodes` and returns the length of each tour
/// that improves strictly on all the tours before it; the last entry is the
/// length of a shortest tour. No node gives no entry.
pub fn brute_force(nodes: &Vec<Node>) -> (h: Vec<u128>)
    ensures
        nodes.len() == 0 ==> h.len() == 0,
        nodes.len() > 0 ==> h@.map_values(|v: u128| v as nat) == running_best(
            lengths(nodes@, orderings_of(nodes.len() as nat)),
        ),
        forall|i: int, j: int| 0 <= i < j < h.len() ==> h@[j] < h@[i],
        nodes.len() > 0 ==> {
            &&& orderings_of(nodes.len() as nat).len() == factorial(nodes.len() as nat)
            &&& forall|i: int| 0 <= i < orderings_of(nodes.len() as nat).len() ==>
                is_ordering(#[trigger] orderings_of(nodes.len() as nat)[i], nodes.len() as nat)
            &&& h.len() <= factorial(nodes.len() as nat)
            &&& forall|k: int| 0 <= k < h.len() ==> exists|p: Seq<usize>| is_ordering(p, nodes.len() as nat)
                && #[trigger] h@[k] == tour_len(arrange(nodes@, p))
            &&& h.len() > 0
            &&& forall|p: Seq<usize>| is_ordering(p, nodes.len() as nat) ==>
                h@.last() <= #[trigger] tour_len(arrange(nodes@, p))
            &&& exists|p: Seq<usize>| is_ordering(p, nodes.len() as nat) &&
                h@.last() == #[trigger] tour_len(arrange(nodes@, p))
        },
{
    let n = nodes.len();
    if n == 0 {
        return Vec::new();
    }
    let orders = all_orderings(n);
    let ghost ov = orders.deep_view();
    proof {
        assert forall|i: int, j: int|
            0 <= i < ov.len() && 0 <= j < ov[i].len() implies #[trigger] ov[i][j] < n by {
            assert(ov[i] == orders@[i]@);
            assert(is_ordering(orders@[i]@, n as nat));
        }
        assert(is_ordering(Seq::new(n as nat, |i: int| i as usize), n as nat));
    }
    let h = history_over(nodes, &orders);
    proof {
        let lens = lengths(nodes@, ov);
        assert forall|p: Seq<usize>| is_ordering(p, n as nat) implies
            h@.last() <= #[trigger] tour_len(arrange(nodes@, p)) by {
            let i = choose|i: int| 0 <= i < orders.len() && #[trigger] orders@[i]@ == p;
            assert(ov[i] == p);
            assert(h@.last() <= lens[i]);
        }
        let m = choose|m: int| 0 <= m < orders.len() && h@.last() == #[trigger] lens[m];
        assert(ov[m] == orders@[m]@);
        assert(is_ordering(orders@[m]@, n as nat));
        assert(h@.last() == tour_len(arrange(nodes@, ov[m])));
        assert forall|i: int| 0 <= i < ov.len() implies is_ordering(#[trigger] ov[i], n as nat) by {
            assert(ov[i] == orders@[i]@);
            assert(is_ordering(orders@[i]@, n as nat));
        }
        assert forall|k: int| 0 <= k < h.len() implies exists|p: Seq<usize>| is_ordering(p, n as nat)
            && #[trigger] h@[k] == tour_len(arrange(nodes@, p)) by {
            let i = choose|i: int| 0 <= i < orders.len() && #[trigger] h@[k] == lens[i];
            assert(ov[i] == orders@[i]@);
            assert(is_ordering(orders@[i]@, n as nat));
            assert(h@[k] == tour_len(arrange(nodes@, ov[i])));
        }
    }
    h
}

} // verus!
