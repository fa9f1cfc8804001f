//! Simulated annealing: random swaps of two positions, kept when they
//! shorten the tour and, with a probability that falls as the temperature
//! cools, when they lengthen it.
//!
//! A worsening of `delta` is kept with probability `exp(-delta / temp)`.
//! With `u` uniform in `[0, 1)` that is the event `delta <= e * temp`, where
//! `e = -ln(u)` follows the unit exponential law. Each step therefore carries
//! `e` as a fixed-point draw in units of `1 / DRAW_SCALE`, and acceptance is
//! decided in integers.

use vstd::prelude::*;
use vstd::seq_lib::{group_to_multiset_ensures, to_multiset_update};
use rand::Rng;
use crate::node::{Node, copy_nodes};
use crate::tour::{tour_len, tour_length, short_tour_has_zero_length};

verus! {

broadcast use {group_to_multiset_ensures, vstd::multiset::group_multiset_axioms};

/// Units of a draw per unit of the exponential law.
pub const DRAW_SCALE: u64 = 1_000_000;

/// Temperature schedule: the start temperature (in distance units), and the
/// cooling factor `cooling_num / cooling_den` applied after every iteration.
#[derive(Clone, Copy, Debug)]
pub struct AnnealConfig {
    pub start_temp: u64,
    pub cooling_num: u64,
    pub cooling_den: u64,
}

/// One iteration: the two positions to swap and the draw that decides
/// whether a worsening swap is kept.
#[derive(Clone, Copy, Debug)]
pub struct AnnealStep {
    pub first: usize,
    pub second: usize,
    pub draw: u64,
}

/// Configurations that the optimizer refuses.
#[derive(Clone, Copy, Debug, PartialEq, Eq)]
pub enum AnnealError {
    /// The cooling factor is zero, above one, or has a zero denominator.
    InvalidCooling,
    /// No iteration was asked for.
    NoIterations,
    /// A step names a position outside the tour, or the same position twice.
    InvalidSwap,
}

/// The cooling factor lies in `(0, 1]`.
pub open spec fn cooling_ok(cfg: AnnealConfig) -> bool {
    0 < cfg.cooling_num <= cfg.cooling_den
}

/// Temperature during iteration `i`, rounded down at every cooling. It has no
/// floor: once it reaches zero, only swaps that do not lengthen the tour are kept.
pub open spec fn temp_at(cfg: AnnealConfig, i: nat) -> nat
    decreases i,
{
    if i == 0 {
        cfg.start_temp as nat
    } else {
        (temp_at(cfg, (i - 1) as nat) * cfg.cooling_num / (cfg.cooling_den as int)) as nat
    }
}

/// Two distinct positions of a tour of `n` nodes.
pub open spec fn step_ok(st: AnnealStep, n: nat) -> bool {
    st.first < n && st.second < n && st.first != st.second
}

pub open spec fn steps_ok(steps: Seq<AnnealStep>, n: nat) -> bool {
    forall|i: int| 0 <= i < steps.len() ==> step_ok(#[trigger] steps[i], n)
}

/// `s` with the nodes at positions `a` and `b` exchanged.
pub open spec fn swapped(s: Seq<Node>, a: int, b: int) -> Seq<Node> {
    s.update(a, s[b]).update(b, s[a])
}

/// A swap from length `cur` to length `new` is kept.
pub open spec fn accepts(cur: nat, new: nat, draw: nat, temp: nat) -> bool {
    new <= cur || (new - cur) * (DRAW_SCALE as nat) <= draw * temp
}

/// The tour and its length after the first `i` steps.
pub open spec fn anneal_state(nodes: Seq<Node>, cfg: AnnealConfig, steps: Seq<AnnealStep>, i: nat) -> (Seq<Node>, nat)
    decreases i,
{
    if i == 0 {
        (nodes, tour_len(nodes))
    } else {
        let prev = anneal_state(nodes, cfg, steps, (i - 1) as nat);
        let st = steps[i - 1];
        let cand = swapped(prev.0, st.first as int, st.second as int);
        if accepts(prev.1, tour_len(cand), st.draw as nat, temp_at(cfg, (i - 1) as nat)) {
            (cand, tour_len(cand))
        } else {
            prev
        }
    }
}

/// The error reported for a configuration, in order of precedence.
pub open spec fn anneal_error(cfg: AnnealConfig, steps: Seq<AnnealStep>, n: nat) -> Option<AnnealError> {
    if !cooling_ok(cfg) {
        Some(AnnealError::InvalidCooling)
    } else if steps.len() == 0 {
        Some(AnnealError::NoIterations)
    } else if n >= 2 && !steps_ok(steps, n) {
        Some(AnnealError::InvalidSwap)
    } else {
        None
    }
}

/// `t` and `h` are the tour and the history of lengths of a run of `steps`.
/// A tour of fewer than two nodes has no swap to make and stays as it is.
pub open spec fn run_matches(
    nodes: Seq<Node>,
    cfg: AnnealConfig,
    steps: Seq<AnnealStep>,
    t: Seq<Node>,
    h: Seq<u128>,
) -> bool {
    &&& h.len() == steps.len() + 1
    &&& t.to_multiset() == nodes.to_multiset()
    &&& nodes.len() < 2 ==> t == nodes && forall|i: int| 0 <= i < h.len() ==> #[trigger] h[i] == tour_len(nodes)
    &&& nodes.len() >= 2 ==> {
        &&& t == anneal_state(nodes, cfg, steps, steps.len()).0
        &&& forall|i: int| 0 <= i < h.len() ==> #[trigger] h[i] == anneal_state(nodes, cfg, steps, i as nat).1
    }
    &&& cfg.start_temp == 0 ==> forall|i: int, j: int| 0 <= i <= j < h.len() ==> h[j] <= h[i]
}

proof fn lemma_swap_keeps_nodes(s: Seq<Node>, a: int, b: int)
    requires
        0 <= a < s.len(),
        0 <= b < s.len(),
    ensures
        swapped(s, a, b).to_multiset() =~= s.to_multiset(),
{
    let s1 = s.update(a, s[b]);
    to_multiset_update(s, a, s[b]);
    to_multiset_update(s1, b, s[a]);
    assert(s.to_multiset().count(s[a]) > 0);
    if a == b {
        assert(s1 =~= s);
        assert(swapped(s, a, b) =~= s);
    } else {
        assert(s1[b] == s[b]);
    }
}

fn swap_positions(v: &mut Vec<Node>, a: usize, b: usize)
    requires
        a < old(v).len(),
        b < old(v).len(),
    ensures
        final(v)@ == swapped(old(v)@, a as int, b as int),
{
    let x = v[a];
    let y = v[b];
    v[a] = y;
    v[b] = x;
}

/// Runs one annealing iteration per element of `steps`, from the tour
/// `nodes`. Returns the final tour and the history of tour lengths: the
/// length before each iteration, then the final length.
pub fn anneal_steps(nodes: &Vec<Node>, cfg: &AnnealConfig, steps: &Vec<AnnealStep>) -> (r: Result<
    (Vec<Node>, Vec<u128>),
    AnnealError,
>)
    ensures
        r is Err <==> anneal_error(*cfg, steps@, nodes.len() as nat) is Some,
        r is Err ==> Some(r->Err_0) == anneal_error(*cfg, steps@, nodes.len() as nat),
        r is Ok ==> run_matches(nodes@, *cfg, steps@, r->Ok_0.0@, r->Ok_0.1@),
{
    let n = nodes.len();
    if !(0 < cfg.cooling_num && cfg.cooling_num <= cfg.cooling_den) {
        return Err(AnnealError::InvalidCooling);
    }
    if steps.len() == 0 {
        return Err(AnnealError::NoIterations);
    }
    let mut tour = copy_nodes(nodes);
    let mut cur = tour_length(&tour);
    let mut hist: Vec<u128> = Vec::new();
    if n < 2 {
        hist.push(cur);
        let mut i: usize = 0;
        while i < steps.len()
            invariant
                i <= steps.len(),
                hist.len() == i + 1,
                cur == tour_len(nodes@),
                forall|k: int| 0 <= k <= i ==> #[trigger] hist@[k] == tour_len(nodes@),
            decreases steps.len() - i,
        {
            hist.push(cur);
            i = i + 1;
        }
        proof {
            short_tour_has_zero_length(nodes@);
        }
        return Ok((tour, hist));
    }
    let mut k: usize = 0;
    while k < steps.len()
        invariant
            k <= steps.len(),
            steps.len() > 0,
            n == nodes.len(),
            n >= 2,
            cooling_ok(*cfg),
            forall|m: int| 0 <= m < k ==> step_ok(#[trigger] steps@[m], n as nat),
        decreases steps.len() - k,
    {
        if !(steps[k].first < n && steps[k].second < n && steps[k].first != steps[k].second) {
            assert(!step_ok(steps@[k as int], n as nat));
            return Err(AnnealError::InvalidSwap);
        }
        k = k + 1;
    }
    let ghost st = steps@;
    let mut temp: u64 = cfg.start_temp;
    let mut i: usize = 0;
    while i < steps.len()
        invariant
            n == nodes.len(),
            n >= 2,
            st == steps@,
            steps_ok(st, n as nat),
            cooling_ok(*cfg),
            i <= steps.len(),
            tour@.len() == n,
            tour@ == anneal_state(nodes@, *cfg, st, i as nat).0,
            cur as nat == anneal_state(nodes@, *cfg, st, i as nat).1,
            cur as nat == tour_len(tour@),
            cur <= n * 0x2_0000_0000,
            temp as nat == temp_at(*cfg, i as nat),
            tour@.to_multiset() == nodes@.to_multiset(),
            hist.len() == i,
            forall|m: int| 0 <= m < i ==> #[trigger] hist@[m] == anneal_state(nodes@, *cfg, st, m as nat).1,
            cfg.start_temp == 0 ==> temp == 0,
            cfg.start_temp == 0 ==> forall|a: int, b: int| 0 <= a <= b < i ==> hist@[b] <= hist@[a],
            cfg.start_temp == 0 && i > 0 ==> cur <= hist@[i - 1],
        decreases steps.len() - i,
    {
        hist.push(cur);
        let s = steps[i];
        assert(step_ok(st[i as int], n as nat));
        let ghost before = tour@;
        swap_positions(&mut tour, s.first, s.second);
        proof {
            lemma_swap_keeps_nodes(before, s.first as int, s.second as int);
        }
        let new = tour_length(&tour);
        let keep = if new <= cur {
            true
        } else {
            let up: u128 = new - cur;
            assert(up * 1_000_000 <= n * 0x2_0000_0000 * 1_000_000) by (nonlinear_arith)
                requires
                    up <= n * 0x2_0000_0000,
            ;
            assert(s.draw as u128 * temp as u128 <= 0xffff_ffff_ffff_ffff * 0xffff_ffff_ffff_ffff)
                by (nonlinear_arith);
            up * (DRAW_SCALE as u128) <= (s.draw as u128) * (temp as u128)
        };
        if keep {
            cur = new;
        } else {
            swap_positions(&mut tour, s.first, s.second);
            assert(tour@ =~= before);
        }
        assert(temp as u128 * cfg.cooling_num as u128 <= 0xffff_ffff_ffff_ffff * 0xffff_ffff_ffff_ffff)
            by (nonlinear_arith);
        let prod: u128 = (temp as u128) * (cfg.cooling_num as u128);
        let cooled: u128 = prod / (cfg.cooling_den as u128);
        proof {
            let t = temp as int;
            let c = cfg.cooling_num as int;
            let d = cfg.cooling_den as int;
            assert(t * c <= t * d) by (nonlinear_arith)
                requires
                    t >= 0,
                    c <= d,
            ;
            vstd::arithmetic::div_mod::lemma_div_is_ordered(t * c, t * d, d);
            vstd::arithmetic::div_mod::lemma_div_multiples_vanish(t, d);
        }
        temp = cooled as u64;
        i = i + 1;
    }
    hist.push(cur);
    Ok((tour, hist))
}

/// Relies on rand::Rng::gen_range on the thread-local generator: a value in
/// `0..n`. It panics on an empty range, which `n > 0` rules out.
#[verifier::external_body]
fn random_below(n: usize) -> (r: usize)
    requires
        n > 0,
    ensures
        r < n,
{
    rand::thread_rng().gen_range(0..n)
}

/// Two distinct random positions of a tour of `n` nodes; every pair is
/// equally likely.
fn random_pair(n: usize) -> (r: (usize, usize))
    requires
        n >= 2,
    ensures
        r.0 < n,
        r.1 < n,
        r.0 != r.1,
{
    let a = random_below(n);
    let c = random_below(n - 1);
    let b = if c >= a { c + 1 } else { c };
    (a, b)
}

/// Anneals `nodes` for one iteration per element of `draws`, swapping two
/// distinct random positions at each one. The tour that comes back is always
/// a rearrangement of `nodes`, and the history has one entry more than
/// there are iterations.
pub fn simulated_annealing(nodes: &Vec<Node>, cfg: &AnnealConfig, draws: &Vec<u64>) -> (r: Result<
    (Vec<Node>, Vec<u128>),
    AnnealError,
>)
    ensures
        r is Err <==> (!cooling_ok(*cfg) || draws.len() == 0),
        r is Err ==> r->Err_0 == (if !cooling_ok(*cfg) {
            AnnealError::InvalidCooling
        } else {
            AnnealError::NoIterations
        }),
        r is Ok ==> exists|steps: Seq<AnnealStep>|
            {
                &&& steps.len() == draws.len()
                &&& forall|i: int| 0 <= i < steps.len() ==> (#[trigger] steps[i]).draw == draws@[i]
                &&& nodes.len() >= 2 ==> steps_ok(steps, nodes.len() as nat)
                &&& run_matches(nodes@, *cfg, steps, r->Ok_0.0@, r->Ok_0.1@)
            },
{
    let n = nodes.len();
    let mut steps: Vec<AnnealStep> = Vec::new();
    let mut i: usize = 0;
    while i < draws.len()
        invariant
            i <= draws.len(),
            steps.len() == i,
            forall|m: int| 0 <= m < i ==> (#[trigger] steps@[m]).draw == draws@[m],
            n == nodes.len(),
            n >= 2 ==> forall|m: int| 0 <= m < i ==> step_ok(#[trigger] steps@[m], n as nat),
        decreases draws.len() - i,
    {
        let (a, b) = if n >= 2 { random_pair(n) } else { (0, 0) };
        steps.push(AnnealStep { first: a, second: b, draw: draws[i] });
        i = i + 1;
    }
    let r = anneal_steps(nodes, cfg, &steps);
    assert(n >= 2 ==> steps_ok(steps@, n as nat));
    r
}

} // verus!
