//! Points of an instance and the distance between them.
//!
//! Coordinates are fixed-point integers (a caller working on the unit square
//! scales by a constant of its choice). The distance is the Euclidean distance
//! rounded up to a whole number of units, which keeps the triangle
//! inequality exact.

use vstd::prelude::*;

verus! {

/// The largest square of a coordinate difference is below 2^64, so the sum
/// of two squares stays below this bound.
pub open spec fn sq_bound() -> nat {
    0x4_0000_0000_0000_0000
}

/// A point of the instance. Its identity is `id` alone: coordinates are payload.
#[derive(Clone, Copy, Debug)]
pub struct Node {
    pub id: usize,
    pub x: i32,
    pub y: i32,
}

impl Node {
    pub fn new(id: usize, x: i32, y: i32) -> (r: Node)
        ensures
            r.id == id,
            r.x == x,
            r.y == y,
    {
        Node { id, x, y }
    }

    /// The key that identifies a node; two nodes are the same node exactly
    /// when their keys agree.
    pub fn key(&self) -> (r: usize)
        ensures
            r == self.id,
    {
        self.id
    }
}

/// Squared Euclidean distance.
pub open spec fn sq_dist(a: Node, b: Node) -> nat {
    ((b.x - a.x) * (b.x - a.x) + (b.y - a.y) * (b.y - a.y)) as nat
}

/// `r` is the least whole number whose square is at least `n`.
pub open spec fn is_root(n: nat, r: nat) -> bool {
    n <= r * r && (r == 0 || (r - 1) * (r - 1) < n)
}

pub open spec fn root(n: nat) -> nat {
    choose|r: nat| is_root(n, r)
}

/// Euclidean distance, rounded up.
pub open spec fn dist(a: Node, b: Node) -> nat {
    root(sq_dist(a, b))
}

proof fn lemma_root_unique(n: nat, r: nat)
    requires
        is_root(n, r),
    ensures
        root(n) == r,
{
    assert(exists|t: nat| is_root(n, t));
    let s = root(n);
    if s < r {
        assert(s * s <= (r - 1) * (r - 1)) by (nonlinear_arith)
            requires
                s + 1 <= r,
        ;
    } else if s > r {
        assert(r * r <= (s - 1) * (s - 1)) by (nonlinear_arith)
            requires
                r + 1 <= s,
        ;
    }
}

/// The rounded-up root of `n` is at most any `m` whose square reaches `n`.
proof fn lemma_root_least(n: nat, m: nat)
    requires
        exists|t: nat| is_root(n, t),
        n <= m * m,
    ensures
        root(n) <= m,
{
    let s = root(n);
    if s > m {
        assert(m * m <= (s - 1) * (s - 1)) by (nonlinear_arith)
            requires
                m + 1 <= s,
        ;
    }
}

/// Integer square root, rounded up, by bisection.
fn isqrt(n: u128) -> (r: u64)
    requires
        n < sq_bound(),
    ensures
        is_root(n as nat, r as nat),
        r <= 0x2_0000_0000,
{
    if n == 0 {
        return 0;
    }
    let mut lo: u128 = 0;
    let mut hi: u128 = 0x2_0000_0000;
    assert(hi * hi == sq_bound()) by (nonlinear_arith)
        requires
            hi == 0x2_0000_0000,
    ;
    while hi - lo > 1
        invariant
            lo < hi <= 0x2_0000_0000,
            lo * lo < n,
            n <= hi * hi,
        decreases hi - lo,
    {
        let mid: u128 = lo + (hi - lo) / 2;
        assert(mid * mid < sq_bound()) by (nonlinear_arith)
            requires
                mid < 0x2_0000_0000,
        ;
        if mid * mid < n {
            lo = mid;
        } else {
            hi = mid;
        }
    }
    hi as u64
}

/// Absolute difference of two coordinates, and its square.
proof fn lemma_square_of_abs(d: int, ad: int)
    requires
        ad == d || ad == -d,
    ensures
        ad * ad == d * d,
{
    assert(ad * ad == d * d) by (nonlinear_arith)
        requires
            ad == d || ad == -d,
    ;
}

/// Euclidean distance between two nodes, rounded up.
pub fn distance(a: &Node, b: &Node) -> (r: u64)
    ensures
        r as nat == dist(*a, *b),
        r <= 0x2_0000_0000,
{
    let dx: i64 = (b.x as i64) - (a.x as i64);
    let dy: i64 = (b.y as i64) - (a.y as i64);
    let ax: u64 = if dx >= 0 { dx as u64 } else { (-dx) as u64 };
    let ay: u64 = if dy >= 0 { dy as u64 } else { (-dy) as u64 };
    proof {
        lemma_square_of_abs(dx as int, ax as int);
        lemma_square_of_abs(dy as int, ay as int);
        assert(ax * ax <= 0x1_0000_0000_0000_0000) by (nonlinear_arith)
            requires
                ax <= 0x1_0000_0000,
        ;
        assert(ay * ay <= 0x1_0000_0000_0000_0000) by (nonlinear_arith)
            requires
                ay <= 0x1_0000_0000,
        ;
    }
    let sq: u128 = (ax as u128) * (ax as u128) + (ay as u128) * (ay as u128);
    let r = isqrt(sq);
    proof {
        lemma_root_unique(sq as nat, r as nat);
    }
    r
}

/// A copy of a node sequence, element for element.
pub(crate) fn copy_nodes(nodes: &Vec<Node>) -> (r: Vec<Node>)
    ensures
        r@ == nodes@,
{
    let mut r: Vec<Node> = Vec::new();
    let mut i: usize = 0;
    while i < nodes.len()
        invariant
            i <= nodes.len(),
            r@ == nodes@.subrange(0, i as int),
        decreases nodes.len() - i,
    {
        r.push(nodes[i]);
        i = i + 1;
    }
    assert(r@ =~= nodes@);
    r
}

/// No two nodes of `s` share an id.
pub open spec fn ids_distinct(s: Seq<Node>) -> bool {
    forall|a: int, b: int| 0 <= a < s.len() && 0 <= b < s.len() && a != b ==> #[trigger] s[a].id != #[trigger] s[b].id
}

/// A rearrangement of nodes with distinct ids has distinct ids too, and
/// omits none of them.
pub proof fn rearrangement_keeps_ids(s: Seq<Node>, r: Seq<Node>)
    requires
        ids_distinct(s),
        r.to_multiset() == s.to_multiset(),
    ensures
        ids_distinct(r),
        r.len() == s.len(),
        forall|k: int| 0 <= k < s.len() ==> r.contains(#[trigger] s[k]),
{
    broadcast use {vstd::seq_lib::group_to_multiset_ensures, vstd::multiset::group_multiset_axioms};
    assert forall|a: int, b: int| 0 <= a < s.len() && 0 <= b < s.len() && a != b implies s[a] != s[b] by {
        assert(s[a].id != s[b].id);
    }
    assert(s.no_duplicates());
    vstd::seq_lib::to_multiset_len(s);
    vstd::seq_lib::to_multiset_len(r);
    s.lemma_multiset_has_no_duplicates();
    r.lemma_multiset_has_no_duplicates_conv();
    assert forall|a: int, b: int| 0 <= a < r.len() && 0 <= b < r.len() && a != b implies #[trigger] r[a].id != #[trigger] r[b].id by {
        assert(r.to_multiset().count(r[a]) > 0);
        assert(r.to_multiset().count(r[b]) > 0);
        assert(s.contains(r[a]));
        assert(s.contains(r[b]));
        let p = choose|p: int| 0 <= p < s.len() && s[p] == r[a];
        let q = choose|q: int| 0 <= q < s.len() && s[q] == r[b];
        assert(r[a] != r[b]);
    }
    assert forall|k: int| 0 <= k < s.len() implies r.contains(#[trigger] s[k]) by {
        assert(s.to_multiset().count(s[k]) > 0);
        assert(r.contains(s[k]));
    }
}

/// A node lies at distance zero from itself.
pub proof fn distance_to_self_is_zero(a: Node)
    ensures
        dist(a, a) == 0,
{
    assert(sq_dist(a, a) == 0);
    assert(is_root(0, 0)) by (nonlinear_arith);
    lemma_root_unique(0, 0);
}

proof fn lemma_root_exists(n: nat)
    ensures
        exists|t: nat| is_root(n, t),
    decreases n,
{
    if n == 0 {
        assert(is_root(0, 0)) by (nonlinear_arith);
    } else {
        lemma_root_exists((n - 1) as nat);
        let t = root((n - 1) as nat);
        if n <= t * t {
            assert(is_root(n, t)) by (nonlinear_arith)
                requires
                    n - 1 <= t * t,
                    t == 0 || (t - 1) * (t - 1) < n - 1,
                    n <= t * t,
            ;
        } else {
            assert(is_root(n, t + 1)) by (nonlinear_arith)
                requires
                    n - 1 <= t * t,
                    t * t < n,
            ;
        }
    }
}

proof fn lemma_square_product(x: int, y: int)
    ensures
        (x * x) * (y * y) == (x * y) * (x * y),
{
    vstd::arithmetic::mul::lemma_mul_is_associative(x * x, y, y);
    vstd::arithmetic::mul::lemma_mul_is_associative(x, x, y);
    vstd::arithmetic::mul::lemma_mul_is_commutative(x, y);
    vstd::arithmetic::mul::lemma_mul_is_associative(x, y, x);
    vstd::arithmetic::mul::lemma_mul_is_associative(x * y, x, y);
}

/// In the plane, `u . v <= |u| |v|` whenever `|u| <= p` and `|v| <= q`.
proof fn lemma_dot_bound(u1: int, u2: int, v1: int, v2: int, p: nat, q: nat)
    requires
        u1 * u1 + u2 * u2 <= p * p,
        v1 * v1 + v2 * v2 <= q * q,
    ensures
        u1 * v1 + u2 * v2 <= p * q,
{
    let d = u1 * v1 + u2 * v2;
    let e11 = u1 * v1;
    let e12 = u1 * v2;
    let e21 = u2 * v1;
    let e22 = u2 * v2;
    let sa = u1 * u1;
    let sb = u2 * u2;
    let sc = v1 * v1;
    let sd = v2 * v2;
    assert((sa + sb) * (sc + sd) == sa * sc + sa * sd + sb * sc + sb * sd) by (nonlinear_arith);
    lemma_square_product(u1, v1);
    lemma_square_product(u1, v2);
    lemma_square_product(u2, v1);
    lemma_square_product(u2, v2);
    assert(e11 * e22 == e12 * e21) by (nonlinear_arith)
        requires
            e11 == u1 * v1,
            e12 == u1 * v2,
            e21 == u2 * v1,
            e22 == u2 * v2,
    ;
    assert(d * d == e11 * e11 + 2 * (e11 * e22) + e22 * e22) by (nonlinear_arith)
        requires
            d == e11 + e22,
    ;
    assert((e12 - e21) * (e12 - e21) == e12 * e12 - 2 * (e12 * e21) + e21 * e21)
        by (nonlinear_arith);
    assert((e12 - e21) * (e12 - e21) >= 0) by (nonlinear_arith);
    assert(u1 * u1 + u2 * u2 >= 0) by (nonlinear_arith);
    assert(v1 * v1 + v2 * v2 >= 0) by (nonlinear_arith);
    assert((u1 * u1 + u2 * u2) * (v1 * v1 + v2 * v2) <= (p * p) * (q * q)) by (nonlinear_arith)
        requires
            0 <= u1 * u1 + u2 * u2 <= p * p,
            0 <= v1 * v1 + v2 * v2 <= q * q,
    ;
    if d > p * q {
        assert(d * d > (p * q) * (p * q)) by (nonlinear_arith)
            requires
                d > p * q,
                p * q >= 0,
        ;
        assert((p * q) * (p * q) == (p * p) * (q * q)) by (nonlinear_arith);
    }
}

/// No detour through a third node is shorter than the direct way.
pub proof fn distance_triangle_inequality(a: Node, b: Node, c: Node)
    ensures
        dist(a, c) <= dist(a, b) + dist(b, c),
{
    let p = dist(a, b);
    let q = dist(b, c);
    lemma_root_exists(sq_dist(a, b));
    lemma_root_exists(sq_dist(b, c));
    lemma_root_exists(sq_dist(a, c));
    let u1 = b.x - a.x;
    let u2 = b.y - a.y;
    let v1 = c.x - b.x;
    let v2 = c.y - b.y;
    assert(u1 * u1 + u2 * u2 <= p * p);
    assert(v1 * v1 + v2 * v2 <= q * q);
    lemma_dot_bound(u1, u2, v1, v2, p, q);
    assert((u1 + v1) * (u1 + v1) + (u2 + v2) * (u2 + v2) <= (p + q) * (p + q)) by (nonlinear_arith)
        requires
            u1 * u1 + u2 * u2 <= p * p,
            v1 * v1 + v2 * v2 <= q * q,
            u1 * v1 + u2 * v2 <= p * q,
    ;
    let w1 = c.x - a.x;
    let w2 = c.y - a.y;
    assert(w1 == u1 + v1 && w2 == u2 + v2);
    assert(w1 * w1 + w2 * w2 >= 0) by (nonlinear_arith);
    assert(w1 * w1 + w2 * w2 <= (p + q) * (p + q));
    assert(sq_dist(a, c) == w1 * w1 + w2 * w2);
    lemma_root_least(sq_dist(a, c), p + q);
}

/// The distance between two nodes does not depend on their order.
pub proof fn distance_is_symmetric(a: Node, b: Node)
    ensures
        dist(a, b) == dist(b, a),
{
    lemma_square_of_abs(b.x - a.x, a.x - b.x);
    lemma_square_of_abs(b.y - a.y, a.y - b.y);
    assert(sq_dist(a, b) == sq_dist(b, a));
}

} // verus!
