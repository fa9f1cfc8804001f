//! Greedy construction: always travel to the closest node not yet visited.

use vstd::prelude::*;
use vstd::seq_lib::{group_to_multiset_ensures, to_multiset_update, to_multiset_remove};
use crate::node::{Node, dist, distance, copy_nodes};

verus! {

broadcast use {group_to_multiset_ensures, vstd::multiset::group_multiset_axioms};

/// Each step of `s` goes to a node at least as close as every node visited later.
pub open spec fn is_greedy(s: Seq<Node>) -> bool {
    forall|k: int, j: int|
        0 <= k && k + 1 <= j < s.len() ==> #[trigger] dist(s[k], s[k + 1]) <= #[trigger] dist(s[k], s[j])
}

/// Position `i` of `pool` holds a node closest to `from`, and every earlier
/// position holds one strictly farther.
pub open spec fn is_first_closest(pool: Seq<Node>, from: Node, i: int) -> bool {
    &&& 0 <= i < pool.len()
    &&& forall|m: int| 0 <= m < pool.len() ==> dist(from, pool[i]) <= #[trigger] dist(from, pool[m])
    &&& forall|m: int| 0 <= m < i ==> dist(from, pool[i]) < #[trigger] dist(from, pool[m])
}

pub open spec fn first_closest(pool: Seq<Node>, from: Node) -> int {
    choose|i: int| is_first_closest(pool, from, i)
}

/// The tour that goes on from `built` through the nodes of `pool`: each step
/// takes the first closest node of the pool, whose place is then filled by
/// the pool's last node.
pub open spec fn continue_tour(pool: Seq<Node>, built: Seq<Node>) -> Seq<Node>
    decreases pool.len(),
{
    if pool.len() == 0 || built.len() == 0 {
        built
    } else {
        let i = first_closest(pool, built.last());
        if 0 <= i < pool.len() {
            continue_tour(pool.update(i, pool.last()).drop_last(), built.push(pool[i]))
        } else {
            built
        }
    }
}

/// The nearest-neighbour tour of `nodes`, started from its last node.
pub open spec fn nearest_tour(nodes: Seq<Node>) -> Seq<Node> {
    if nodes.len() == 0 {
        nodes
    } else {
        continue_tour(nodes.drop_last(), seq![nodes.last()])
    }
}

proof fn lemma_first_closest_unique(pool: Seq<Node>, from: Node, i: int)
    requires
        is_first_closest(pool, from, i),
    ensures
        first_closest(pool, from) == i,
{
    let j = first_closest(pool, from);
    assert(is_first_closest(pool, from, j));
    if j < i {
        assert(dist(from, pool[i]) < dist(from, pool[j]));
    } else if j > i {
        assert(dist(from, pool[j]) < dist(from, pool[i]));
    }
}

/// Removing the element at `i` by moving the last one into its place keeps
/// every other element.
proof fn lemma_swap_remove(s: Seq<Node>, i: int)
    requires
        0 <= i < s.len(),
    ensures
        s.update(i, s.last()).drop_last().to_multiset() =~= s.to_multiset().remove(s[i]),
        forall|x: Node| #[trigger] s.update(i, s.last()).drop_last().contains(x) ==> s.contains(x),
{
    let u = s.update(i, s.last());
    to_multiset_update(s, i, s.last());
    to_multiset_remove(u, u.len() - 1);
    assert(u.remove(u.len() - 1) =~= u.drop_last());
    assert(u.last() == s.last());
    assert forall|x: Node| #[trigger] u.drop_last().contains(x) implies s.contains(x) by {
        let p = choose|p: int| 0 <= p < u.drop_last().len() && u.drop_last()[p] == x;
        if p == i {
            assert(s[s.len() - 1] == x);
        } else {
            assert(s[p] == x);
        }
    }
}

/// Builds a tour from the last node of `nodes`, moving each time to the
/// closest node not yet visited (the first one found among equally close ones).
pub fn nearest_neighbor(nodes: &Vec<Node>) -> (r: Vec<Node>)
    ensures
        r@.to_multiset() == nodes@.to_multiset(),
        r@ == nearest_tour(nodes@),
        r@.len() == nodes@.len(),
        nodes@.len() > 0 ==> r@[0] == nodes@.last(),
        is_greedy(r@),
{
    let mut built: Vec<Node> = Vec::new();
    let n = nodes.len();
    if n == 0 {
        assert(built@.to_multiset() =~= nodes@.to_multiset());
        assert(built@ =~= nodes@);
        return built;
    }
    let mut left = copy_nodes(nodes);
    let first = left[n - 1];
    let ghost l0 = left@;
    let _ = left.pop();
    proof {
        to_multiset_remove(l0, l0.len() - 1);
        assert(l0.remove(l0.len() - 1) =~= left@);
    }
    built.push(first);
    assert(built@ =~= seq![nodes@.last()]);
    assert(built@.to_multiset().add(left@.to_multiset()) =~= nodes@.to_multiset());
    while left.len() > 0
        invariant
            built@.len() >= 1,
            built@.len() + left@.len() == n,
            n == nodes@.len(),
            built@[0] == nodes@.last(),
            continue_tour(left@, built@) == nearest_tour(nodes@),
            built@.to_multiset().add(left@.to_multiset()) == nodes@.to_multiset(),
            is_greedy(built@),
            forall|k: int, x: Node|
                0 <= k < built@.len() - 1 && #[trigger] left@.contains(x) ==> dist(built@[k], built@[k + 1]) <= #[trigger] dist(built@[k], x),
        decreases left.len(),
    {
        let last = built[built.len() - 1];
        let mut best: usize = 0;
        let mut best_d = distance(&last, &left[0]);
        let mut i: usize = 1;
        while i < left.len()
            invariant
                1 <= i <= left@.len(),
                best < left@.len(),
                best_d as nat == dist(last, left@[best as int]),
                forall|m: int| 0 <= m < i ==> best_d <= #[trigger] dist(last, left@[m]),
                forall|m: int| 0 <= m < best ==> best_d < #[trigger] dist(last, left@[m]),
            decreases left.len() - i,
        {
            let d = distance(&last, &left[i]);
            if d < best_d {
                best_d = d;
                best = i;
            }
            i = i + 1;
        }
        let ghost old_left = left@;
        let ghost old_built = built@;
        proof {
            assert(is_first_closest(left@, last, best as int));
            lemma_first_closest_unique(left@, last, best as int);
        }
        let chosen = left.swap_remove(best);
        built.push(chosen);
        proof {
            lemma_swap_remove(old_left, best as int);
            assert(old_left.contains(chosen));
            assert(built@.to_multiset() =~= old_built.to_multiset().insert(chosen));
            assert(built@.to_multiset().add(left@.to_multiset()) =~= nodes@.to_multiset());
            let b = built@;
            let lk = old_built.len() - 1;
            assert forall|k: int, j: int|
                0 <= k && k + 1 <= j < b.len() implies #[trigger] dist(b[k], b[k + 1]) <= #[trigger] dist(b[k], b[j]) by {
                assert(b[k] == old_built[k]);
                if j < old_built.len() {
                    assert(b[k + 1] == old_built[k + 1]);
                    assert(b[j] == old_built[j]);
                } else if k < lk {
                    assert(b[k + 1] == old_built[k + 1]);
                    assert(old_left.contains(b[j]));
                }
            }
            assert forall|k: int, x: Node|
                0 <= k < b.len() - 1 && #[trigger] left@.contains(x) implies dist(b[k], b[k + 1]) <= #[trigger] dist(b[k], x) by {
                assert(old_left.contains(x));
                assert(b[k] == old_built[k]);
                if k < lk {
                    assert(b[k + 1] == old_built[k + 1]);
                } else {
                    let m = choose|m: int| 0 <= m < old_left.len() && old_left[m] == x;
                    assert(best_d <= dist(last, old_left[m]));
                }
            }
        }
    }
    assert(left@ =~= Seq::<Node>::empty());
    assert(continue_tour(left@, built@) == built@);
    assert(built@.to_multiset() =~= nodes@.to_multiset());
    built
}

} // verus!
