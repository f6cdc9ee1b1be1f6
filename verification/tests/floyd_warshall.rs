//! Tests for the Floyd-Warshall relaxation engine.
//!
//! Node labels are indices; the scenario graphs name their nodes in comments.

use floyd_warshall_alg::FloydWarshall;
use floyd_warshall_alg::FloydWarshallResult;
use floyd_warshall_alg::Graph;
use std::cmp::Ordering::Greater;
use std::cmp::Ordering::Less;

#[test]
fn new() {
    let _alg: FloydWarshall<i64> = FloydWarshall::new();
}

#[test]
fn new_customized() {
    let mul = Box::new(|x: f32, y: f32| x * y);
    let sharp_greater = Box::new(|x: f32, y: f32| x.partial_cmp(&y).unwrap_or(Less) == Greater);

    let _alg: FloydWarshall<f32, _, _> = FloydWarshall::new_customized(mul, sharp_greater);
}

#[test]
fn new_fully_customized() {
    let mul = Box::new(|x: f32, y: f32| x * y);
    let sharp_less = Box::new(|x: f32, y: f32| x.partial_cmp(&y).unwrap_or(Greater) == Less);
    let discard_loops = false;

    let _alg: FloydWarshall<f32, _, _> =
        FloydWarshall::new_fully_customized(mul, sharp_less, discard_loops);
}

/// The scenario graph with `f32` weights; nodes a=0, b=1, c=2, d=3, e=4,
/// f=5, g=6, h=7.
fn scenario_graph_f32() -> Graph<f32> {
    let w_a_b = 0.12;
    let w_a_c = 1.99;
    let w_b_c = 3.0;
    let w_a_d = 2.1;
    let w_a_e = 0.9;
    let w_a_f = 4.44;
    let w_a_g = 0.8;
    let w_g_f = 0.6;
    let w_a_h = 8.8;
    let w_f_h = 1.0;

    let mut graph: Graph<f32> = Graph::new(8);
    graph.add_edge(0, 1, w_a_b);
    graph.add_edge(0, 2, w_a_c);
    graph.add_edge(1, 2, w_b_c);
    graph.add_edge(0, 3, w_a_d);
    graph.add_edge(0, 4, w_a_e);
    graph.add_edge(0, 5, w_a_f);
    graph.add_edge(0, 6, w_a_g);
    graph.add_edge(6, 5, w_g_f);
    graph.add_edge(0, 7, w_a_h);
    graph.add_edge(5, 7, w_f_h);
    graph
}

#[test]
fn find_paths() {
    // The default configuration: combination by sum, acceptance by strict
    // less-than with incomparable values counting as not-better.
    let add = Box::new(|x: f32, y: f32| x + y);
    let sharp_less = Box::new(|x: f32, y: f32| x.partial_cmp(&y).unwrap_or(Greater) == Less);
    let alg: FloydWarshall<f32, _, _> = FloydWarshall::new_customized(add, sharp_less);

    let w_a_b = 0.12;
    let w_a_c = 1.99;
    let w_a_g = 0.8;
    let w_g_f = 0.6;
    let w_f_h = 1.0;

    let graph = scenario_graph_f32();
    let result = alg.find_paths(&graph);

    let path = result.path;
    let next = result.next;

    // Test that the initial `(a, b)` edge is still the shortest path.
    assert_eq!(path.edge_weight(0, 1), Some(w_a_b));
    assert_eq!(next.edge_weight(0, 1), Some(1));

    // Test that the initial `(a, c)` edge is still the shortest path.
    assert_eq!(path.edge_weight(0, 2), Some(w_a_c));
    assert_eq!(next.edge_weight(0, 2), Some(2));

    // Test that a shorter path was found for the `(a, f)` and it is through `g`.
    assert_eq!(path.edge_weight(0, 5), Some(w_a_g + w_g_f));
    assert_eq!(next.edge_weight(0, 5), Some(6));
    assert_eq!(next.edge_weight(6, 5), Some(5));

    // Test that a shorter path was found for the `(a, h)` and it is through `g` and `f`.
    assert_eq!(path.edge_weight(0, 7), Some(w_a_g + w_g_f + w_f_h));
    assert_eq!(next.edge_weight(0, 7), Some(6));
    assert_eq!(next.edge_weight(6, 7), Some(5));
    assert_eq!(next.edge_weight(5, 7), Some(7));
}

/// The scenario graph scaled to integers (weights in hundredths).
fn scenario_graph_i64() -> Graph<i64> {
    let mut graph: Graph<i64> = Graph::new(8);
    graph.add_edge(0, 1, 12);
    graph.add_edge(0, 2, 199);
    graph.add_edge(1, 2, 300);
    graph.add_edge(0, 3, 210);
    graph.add_edge(0, 4, 90);
    graph.add_edge(0, 5, 444);
    graph.add_edge(0, 6, 80);
    graph.add_edge(6, 5, 60);
    graph.add_edge(0, 7, 880);
    graph.add_edge(5, 7, 100);
    graph
}

#[test]
fn find_paths_default_configuration() {
    let alg: FloydWarshall<i64> = FloydWarshall::new();
    let graph = scenario_graph_i64();
    let result = alg.find_paths(&graph);

    assert_eq!(result.weight(0, 1), Some(12));
    assert_eq!(result.first_hop(0, 1), Some(1));
    assert_eq!(result.weight(0, 5), Some(140));
    assert_eq!(result.first_hop(0, 5), Some(6));
    assert_eq!(result.weight(0, 7), Some(240));
    assert_eq!(result.first_hop(0, 7), Some(6));
    assert_eq!(result.first_hop(6, 7), Some(5));
    assert_eq!(result.first_hop(5, 7), Some(7));
    // Unreachable pairs stay absent.
    assert_eq!(result.weight(1, 0), None);
    assert_eq!(result.first_hop(1, 0), None);
}

#[test]
fn empty_graph_yields_empty_result() {
    let alg: FloydWarshall<i64> = FloydWarshall::new();
    let graph: Graph<i64> = Graph::new(0);
    let result = alg.find_paths(&graph);

    assert_eq!(result.path.node_count(), 0);
    assert_eq!(result.next.node_count(), 0);
    assert_eq!(result.weight(0, 0), None);
    assert_eq!(result.first_hop(0, 0), None);
    assert_eq!(result.weight(3, 5), None);
    assert_eq!(result.first_hop(3, 5), None);
}

#[test]
fn loop_exclusion_with_discarded_loops() {
    let alg: FloydWarshall<i64> = FloydWarshall::new();
    let mut graph: Graph<i64> = Graph::new(2);
    graph.add_edge(0, 1, 2);
    graph.add_edge(1, 0, 3);
    let result = alg.find_paths(&graph);

    // A round trip exists, but with loops discarded no self-loop is recorded.
    assert_eq!(result.weight(0, 1), Some(2));
    assert_eq!(result.weight(1, 0), Some(3));
    assert_eq!(result.weight(0, 0), None);
    assert_eq!(result.first_hop(0, 0), None);
    assert_eq!(result.weight(1, 1), None);
    assert_eq!(result.first_hop(1, 1), None);
}

#[test]
fn loops_kept_when_not_discarded() {
    let add = Box::new(|x: i64, y: i64| x + y);
    let sharp_less = Box::new(|x: i64, y: i64| x < y);
    let alg: FloydWarshall<i64, _, _> =
        FloydWarshall::new_fully_customized(add, sharp_less, false);
    let mut graph: Graph<i64> = Graph::new(2);
    graph.add_edge(0, 1, 2);
    graph.add_edge(1, 0, 3);
    let result = alg.find_paths(&graph);

    // With loops kept, the round trips become recorded self-loop paths.
    assert_eq!(result.weight(0, 0), Some(5));
    assert_eq!(result.first_hop(0, 0), Some(1));
    assert_eq!(result.weight(1, 1), Some(5));
    assert_eq!(result.first_hop(1, 1), Some(0));
}

#[test]
fn determinism_two_runs_agree() {
    let alg: FloydWarshall<i64> = FloydWarshall::new();
    let first: FloydWarshallResult<i64> = alg.find_paths(&scenario_graph_i64());
    let second: FloydWarshallResult<i64> = alg.find_paths(&scenario_graph_i64());

    for i in 0..8 {
        for j in 0..8 {
            assert_eq!(first.weight(i, j), second.weight(i, j));
            assert_eq!(first.first_hop(i, j), second.first_hop(i, j));
        }
    }
}

#[test]
fn optimality_no_improving_triple_remains() {
    let alg: FloydWarshall<i64> = FloydWarshall::new();
    let result = alg.find_paths(&scenario_graph_i64());

    for i in 0..8 {
        for j in 0..8 {
            for k in 0..8 {
                let left = result.weight(i, k);
                let right = result.weight(k, j);
                let stored = result.weight(i, j);
                if let (Some(l), Some(r), Some(s)) = (left, right, stored) {
                    assert!(!(l + r < s), "improving triple left at ({i}, {j}) via {k}");
                }
            }
        }
    }
}

#[test]
fn monotonic_improvement_replaces_direct_edge() {
    let alg: FloydWarshall<i64> = FloydWarshall::new();
    let result = alg.find_paths(&scenario_graph_i64());

    // The direct a-f edge (444) was superseded by an accepted (strictly
    // smaller) value, never by a worse one.
    assert!(result.weight(0, 5) == Some(140));
    assert!(140 < 444);
}

#[test]
fn reconstruction_follows_first_hops() {
    let alg: FloydWarshall<i64> = FloydWarshall::new();
    let result = alg.find_paths(&scenario_graph_i64());

    // a -> h goes a, g, f, h: within n - 1 steps, no node twice.
    let walk = result.reconstruct_path(0, 7);
    assert_eq!(walk, Some(vec![0, 6, 5, 7]));

    assert_eq!(result.reconstruct_path(0, 5), Some(vec![0, 6, 5]));
    assert_eq!(result.reconstruct_path(0, 1), Some(vec![0, 1]));
    // Unreachable pairs reconstruct to nothing.
    assert_eq!(result.reconstruct_path(1, 0), None);
}

#[test]
fn widest_path_with_custom_operator() {
    // Bottleneck problem: combine by minimum, accept strictly larger
    // capacities.
    let min = Box::new(|x: i64, y: i64| if x < y { x } else { y });
    let sharp_greater = Box::new(|x: i64, y: i64| x > y);
    let alg: FloydWarshall<i64, _, _> = FloydWarshall::new_customized(min, sharp_greater);

    let mut graph: Graph<i64> = Graph::new(3);
    graph.add_edge(0, 1, 10);
    graph.add_edge(1, 2, 5);
    graph.add_edge(0, 2, 3);
    let result = alg.find_paths(&graph);

    // The widest route 0 -> 2 goes through 1: capacity min(10, 5) = 5 > 3.
    assert_eq!(result.weight(0, 2), Some(5));
    assert_eq!(result.first_hop(0, 2), Some(1));
    assert_eq!(result.reconstruct_path(0, 2), Some(vec![0, 1, 2]));
}

#[test]
fn saturating_default_sum() {
    let alg: FloydWarshall<i64> = FloydWarshall::new();
    let mut graph: Graph<i64> = Graph::new(3);
    graph.add_edge(0, 1, i64::MAX - 1);
    graph.add_edge(1, 2, i64::MAX - 1);
    let result = alg.find_paths(&graph);

    // The default sum saturates instead of overflowing.
    assert_eq!(result.weight(0, 2), Some(i64::MAX));
}
