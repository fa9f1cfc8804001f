use tsp::anneal::{anneal_steps, simulated_annealing, AnnealConfig, AnnealError, AnnealStep, DRAW_SCALE};
use tsp::brute::{brute_force, history_over};
use tsp::nearest::nearest_neighbor;
use tsp::node::{distance, Node};
use tsp::tour::tour_length;

const S: i32 = 1_000_000;

fn unit_square() -> Vec<Node> {
    vec![
        Node::new(0, 0, 0),
        Node::new(1, S, 0),
        Node::new(2, S, S),
        Node::new(3, 0, S),
    ]
}

fn sample_nodes() -> Vec<Node> {
    vec![
        Node::new(0, 120, 830),
        Node::new(1, 910, 40),
        Node::new(2, 450, 470),
        Node::new(3, 30, 200),
        Node::new(4, 700, 990),
        Node::new(5, 610, 300),
    ]
}

fn sorted_ids(nodes: &[Node]) -> Vec<usize> {
    let mut ids: Vec<usize> = nodes.iter().map(|n| n.key()).collect();
    ids.sort();
    ids
}

fn all_orders(n: usize) -> Vec<Vec<usize>> {
    if n == 0 {
        return vec![vec![]];
    }
    let mut out = Vec::new();
    for rest in all_orders(n - 1) {
        for pos in 0..=rest.len() {
            let mut p = rest.clone();
            p.insert(pos, n - 1);
            out.push(p);
        }
    }
    out
}

fn arranged(nodes: &[Node], order: &[usize]) -> Vec<Node> {
    order.iter().map(|&i| nodes[i]).collect()
}

#[test]
fn distance_is_rounded_up_euclidean() {
    assert_eq!(distance(&Node::new(0, 0, 0), &Node::new(1, 3, 4)), 5);
    assert_eq!(distance(&Node::new(0, 0, 0), &Node::new(1, 1, 1)), 2);
    assert_eq!(distance(&Node::new(0, 0, 0), &Node::new(1, S, S)), 1_414_214);
    assert_eq!(distance(&Node::new(0, -3, 7), &Node::new(1, 2, -5)), 13);
}

#[test]
fn distance_extreme_coordinates() {
    let a = Node::new(0, i32::MIN, i32::MIN);
    let b = Node::new(1, i32::MAX, i32::MAX);
    // (2^32 - 1) * sqrt(2), rounded up
    assert_eq!(distance(&a, &b), 6_074_000_999);
}

#[test]
fn distance_triangle_inequality_on_a_line() {
    let a = Node::new(0, 0, 0);
    let b = Node::new(1, 2, 2);
    let c = Node::new(2, 4, 4);
    assert_eq!(distance(&a, &b), 3);
    assert_eq!(distance(&b, &c), 3);
    assert_eq!(distance(&a, &c), 6);
    assert!(distance(&a, &c) <= distance(&a, &b) + distance(&b, &c));
    let tour = vec![a, b, c];
    assert!(tour_length(&tour) >= 2 * distance(&a, &c) as u128);
}

#[test]
fn distance_to_self_and_symmetry() {
    let a = Node::new(0, 17, -40);
    let b = Node::new(1, -9, 31);
    assert_eq!(distance(&a, &a), 0);
    assert_eq!(distance(&a, &b), distance(&b, &a));
}

#[test]
fn tour_length_of_empty_and_single() {
    assert_eq!(tour_length(&vec![]), 0);
    assert_eq!(tour_length(&vec![Node::new(0, 5, 9)]), 0);
}

#[test]
fn tour_length_closes_the_loop() {
    assert_eq!(tour_length(&unit_square()), 4_000_000);
    let two = vec![Node::new(0, 0, 0), Node::new(1, 3, 4)];
    assert_eq!(tour_length(&two), 10);
    let crossed = vec![
        Node::new(0, 0, 0),
        Node::new(2, S, S),
        Node::new(1, S, 0),
        Node::new(3, 0, S),
    ];
    assert_eq!(tour_length(&crossed), 2 * 1_414_214 + 2_000_000);
}

#[test]
fn tour_length_rotation_and_reversal() {
    let nodes = sample_nodes();
    let base = tour_length(&nodes);
    for k in 0..nodes.len() {
        let mut rotated = nodes[k..].to_vec();
        rotated.extend_from_slice(&nodes[..k]);
        assert_eq!(tour_length(&rotated), base);
    }
    let mut reversed = nodes.clone();
    reversed.reverse();
    assert_eq!(tour_length(&reversed), base);
}

#[test]
fn nearest_neighbor_empty() {
    assert!(nearest_neighbor(&vec![]).is_empty());
}

#[test]
fn nearest_neighbor_two_nodes() {
    let nodes = vec![Node::new(0, 0, 0), Node::new(1, 300, 400)];
    let tour = nearest_neighbor(&nodes);
    assert_eq!(sorted_ids(&tour), vec![0, 1]);
    assert_eq!(tour_length(&tour), 2 * distance(&nodes[0], &nodes[1]) as u128);
}

#[test]
fn nearest_neighbor_starts_at_last_and_goes_greedy() {
    let nodes = vec![
        Node::new(0, 0, 0),
        Node::new(1, 10, 0),
        Node::new(2, 3, 0),
        Node::new(3, 7, 0),
    ];
    let ids: Vec<usize> = nearest_neighbor(&nodes).iter().map(|n| n.key()).collect();
    assert_eq!(ids, vec![3, 1, 2, 0]);
}

#[test]
fn nearest_neighbor_unit_square_order() {
    let ids: Vec<usize> = nearest_neighbor(&unit_square()).iter().map(|n| n.key()).collect();
    assert_eq!(ids, vec![3, 0, 1, 2]);
}

#[test]
fn nearest_neighbor_takes_first_of_equally_close() {
    let nodes = vec![
        Node::new(0, 0, 0),
        Node::new(1, S, 0),
        Node::new(2, 3 * S, 0),
        Node::new(3, 2 * S, 0),
    ];
    let tour = nearest_neighbor(&nodes);
    let ids: Vec<usize> = tour.iter().map(|n| n.key()).collect();
    assert_eq!(ids, vec![3, 1, 0, 2]);
    assert_eq!(tour_length(&tour), 6_000_000);
    let again: Vec<usize> = nearest_neighbor(&nodes).iter().map(|n| n.key()).collect();
    assert_eq!(again, ids);
}

#[test]
fn nearest_neighbor_unit_square_from_every_corner() {
    let square = unit_square();
    for k in 0..4 {
        let mut nodes = square[k..].to_vec();
        nodes.extend_from_slice(&square[..k]);
        let tour = nearest_neighbor(&nodes);
        assert_eq!(tour[0].key(), nodes[3].key());
        assert_eq!(tour_length(&tour), 4_000_000);
    }
}

#[test]
fn nearest_neighbor_is_a_permutation() {
    let nodes = sample_nodes();
    let tour = nearest_neighbor(&nodes);
    assert_eq!(tour.len(), nodes.len());
    assert_eq!(sorted_ids(&tour), vec![0, 1, 2, 3, 4, 5]);
}

#[test]
fn brute_force_empty() {
    assert!(brute_force(&vec![]).is_empty());
}

#[test]
fn brute_force_single_node() {
    assert_eq!(brute_force(&vec![Node::new(0, 4, 4)]), vec![0]);
}

#[test]
fn brute_force_right_triangle() {
    let nodes = vec![Node::new(0, 0, 0), Node::new(1, 3, 0), Node::new(2, 0, 4)];
    assert_eq!(brute_force(&nodes), vec![12]);
}

#[test]
fn brute_force_unit_square() {
    let history = brute_force(&unit_square());
    assert_eq!(*history.last().unwrap(), 4_000_000);
    // the first ordering enumerated is the input order, already optimal
    assert_eq!(history, vec![4_000_000]);
}

#[test]
fn brute_force_finds_the_optimum() {
    let nodes = sample_nodes();
    let history = brute_force(&nodes);
    let best = all_orders(nodes.len())
        .iter()
        .map(|p| tour_length(&arranged(&nodes, p)))
        .min()
        .unwrap();
    assert_eq!(*history.last().unwrap(), best);
    assert_eq!(history[0], tour_length(&nodes));
    for w in history.windows(2) {
        assert!(w[1] < w[0]);
    }
}

#[test]
fn history_over_keeps_strict_improvements() {
    let nodes = unit_square();
    let orders = vec![
        vec![0, 2, 1, 3],
        vec![0, 1, 3, 2],
        vec![0, 1, 2, 3],
        vec![1, 0, 2, 3],
        vec![3, 2, 1, 0],
    ];
    let crossed = 2 * 1_414_214 + 2_000_000;
    assert_eq!(history_over(&nodes, &orders), vec![crossed, 4_000_000]);
    assert!(history_over(&nodes, &vec![]).is_empty());
}

fn cfg(start_temp: u64, num: u64, den: u64) -> AnnealConfig {
    AnnealConfig { start_temp, cooling_num: num, cooling_den: den }
}

fn step(first: usize, second: usize, draw: u64) -> AnnealStep {
    AnnealStep { first, second, draw }
}

#[test]
fn anneal_steps_errors() {
    let nodes = unit_square();
    let steps = vec![step(0, 1, 0)];
    assert_eq!(anneal_steps(&nodes, &cfg(10, 0, 1), &steps).unwrap_err(), AnnealError::InvalidCooling);
    assert_eq!(anneal_steps(&nodes, &cfg(10, 3, 2), &steps).unwrap_err(), AnnealError::InvalidCooling);
    assert_eq!(anneal_steps(&nodes, &cfg(10, 1, 0), &steps).unwrap_err(), AnnealError::InvalidCooling);
    assert_eq!(anneal_steps(&nodes, &cfg(10, 1, 2), &vec![]).unwrap_err(), AnnealError::NoIterations);
    assert_eq!(
        anneal_steps(&nodes, &cfg(10, 1, 2), &vec![step(0, 1, 0), step(2, 2, 0)]).unwrap_err(),
        AnnealError::InvalidSwap
    );
    assert_eq!(
        anneal_steps(&nodes, &cfg(10, 1, 2), &vec![step(0, 4, 0)]).unwrap_err(),
        AnnealError::InvalidSwap
    );
}

#[test]
fn anneal_steps_acceptance_and_cooling() {
    let s: i32 = 1000;
    let nodes = vec![
        Node::new(0, 0, 0),
        Node::new(1, s, 0),
        Node::new(2, s, s),
        Node::new(3, 0, s),
    ];
    // a worsening of 830 at temperature 1000 is kept when draw * 1000 >= 830 * DRAW_SCALE
    let steps = vec![
        step(1, 2, 830 * DRAW_SCALE / 1000),
        step(1, 2, 0),
        step(1, 2, 830 * DRAW_SCALE / 250 - 1),
    ];
    let (tour, history) = anneal_steps(&nodes, &cfg(1000, 1, 2), &steps).unwrap();
    assert_eq!(history, vec![4000, 4830, 4000, 4000]);
    let ids: Vec<usize> = tour.iter().map(|n| n.key()).collect();
    assert_eq!(ids, vec![0, 1, 2, 3]);

    let steps = vec![step(1, 2, 830 * DRAW_SCALE / 1000 - 1)];
    let (_, history) = anneal_steps(&nodes, &cfg(1000, 1, 2), &steps).unwrap();
    assert_eq!(history, vec![4000, 4000]);
}

#[test]
fn anneal_steps_short_tours_are_left_alone() {
    let one = vec![Node::new(7, 1, 1)];
    let (tour, history) = anneal_steps(&one, &cfg(3, 88, 100), &vec![step(5, 5, 9); 3]).unwrap();
    assert_eq!(tour.len(), 1);
    assert_eq!(tour[0].key(), 7);
    assert_eq!(history, vec![0, 0, 0, 0]);
}

#[test]
fn simulated_annealing_empty() {
    let (tour, history) = simulated_annealing(&vec![], &cfg(3_000_000, 88, 100), &vec![5; 10]).unwrap();
    assert!(tour.is_empty());
    assert_eq!(history, vec![0; 11]);
}

#[test]
fn simulated_annealing_two_nodes() {
    let nodes = vec![Node::new(0, 0, 0), Node::new(1, 3, 4)];
    let (tour, history) = simulated_annealing(&nodes, &cfg(3, 88, 100), &vec![1; 20]).unwrap();
    assert_eq!(sorted_ids(&tour), vec![0, 1]);
    assert_eq!(history, vec![10; 21]);
}

#[test]
fn simulated_annealing_errors() {
    let nodes = unit_square();
    assert_eq!(
        simulated_annealing(&nodes, &cfg(3, 0, 100), &vec![1]).unwrap_err(),
        AnnealError::InvalidCooling
    );
    assert_eq!(
        simulated_annealing(&nodes, &cfg(3, 88, 100), &vec![]).unwrap_err(),
        AnnealError::NoIterations
    );
}

#[test]
fn simulated_annealing_cold_start_is_greedy() {
    let crossed = vec![
        Node::new(0, 0, 0),
        Node::new(2, S, S),
        Node::new(1, S, 0),
        Node::new(3, 0, S),
    ];
    let draws = vec![u64::MAX; 300];
    let (tour, history) = simulated_annealing(&crossed, &cfg(0, 88, 100), &draws).unwrap();
    assert_eq!(history.len(), 301);
    for w in history.windows(2) {
        assert!(w[1] <= w[0]);
    }
    assert_eq!(sorted_ids(&tour), vec![0, 1, 2, 3]);
    assert_eq!(tour_length(&tour), 4_000_000);
    assert_eq!(*history.last().unwrap(), 4_000_000);
}

#[test]
fn simulated_annealing_is_a_permutation() {
    let nodes = sample_nodes();
    let draws: Vec<u64> = (0..500u64).map(|i| (i * 7919) % 3_000_000).collect();
    let (tour, history) = simulated_annealing(&nodes, &cfg(300, 88, 100), &draws).unwrap();
    assert_eq!(history.len(), 501);
    assert_eq!(history[0], tour_length(&nodes));
    assert_eq!(*history.last().unwrap(), tour_length(&tour));
    assert_eq!(sorted_ids(&tour), vec![0, 1, 2, 3, 4, 5]);
}
