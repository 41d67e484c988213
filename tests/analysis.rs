use graph_distance::centrality::closeness_centrality;
use graph_distance::degree::{degree_counts, degree_distribution};
use graph_distance::frequency::{frequency_scores, path_frequency_centrality};
use graph_distance::graph::Graph;
use graph_distance::loader::{add_edge_line, parse_edge_line, split_tokens, LabelTable};
use graph_distance::matrix::build_matrix;
use graph_distance::path::UNREACHABLE;
use graph_distance::sampling::{average_distance, generate_random_graph, tally_pairs, DistanceSample};
use graph_distance::summary::{max_distance, median_distance, median_of};
use rand::rngs::StdRng;
use rand::SeedableRng;

const A: usize = 0;
const B: usize = 1;
const C: usize = 2;
const D: usize = 3;

fn graph_of(edges: &[(usize, usize)]) -> Graph {
    let mut g = Graph::new();
    for &(s, t) in edges {
        g.add_edge(s, t);
    }
    g
}

fn paired_chain() -> Graph {
    graph_of(&[(A, B), (B, A), (B, C), (C, B)])
}

fn two_components() -> Graph {
    graph_of(&[(A, B), (B, A), (C, D), (D, C)])
}

fn median_value(m: Option<(usize, usize)>) -> f64 {
    match m {
        None => 0.0,
        Some((lo, hi)) => (lo as f64 + hi as f64) / 2.0,
    }
}

fn mean(s: DistanceSample) -> f64 {
    if s.counted == 0 {
        0.0
    } else {
        s.total as f64 / s.counted as f64
    }
}

fn sorted_histogram(g: &Graph) -> Vec<(usize, usize)> {
    let mut h: Vec<(usize, usize)> = degree_distribution(g).into_iter().collect();
    h.sort();
    h
}

#[test]
fn test_bfs_distance_simple() {
    let graph = graph_of(&[(A, B), (B, A), (B, C), (C, B)]);

    let distance = graph.bfs_distance(A, C);

    assert_eq!(distance, 2);
}

#[test]
fn test_bfs_distance_not_connected() {
    let graph = graph_of(&[(A, B), (B, A), (C, D), (D, C)]);

    let distance = graph.bfs_distance(A, C);

    assert_eq!(distance, usize::max_value());
}

#[test]
fn distance_to_itself_is_zero() {
    let g = paired_chain();
    for u in 0..5 {
        assert_eq!(g.bfs_distance(u, u), 0);
    }
    assert_eq!(Graph::new().bfs_distance(7, 7), 0);
}

#[test]
fn breadth_first_finds_the_shortest_route() {
    // A long detour is pushed before the direct edge: a last-in-first-out
    // search would report 3 here.
    let g = graph_of(&[(0, 1), (1, 2), (2, 3), (0, 3)]);
    assert_eq!(g.bfs_distance(0, 3), 1);
    assert_eq!(g.bfs_distance(0, 2), 2);
    assert_eq!(g.bfs_distance(3, 0), UNREACHABLE);
}

#[test]
fn disjoint_components_are_unreachable() {
    let g = two_components();
    assert_eq!(g.bfs_distance(A, C), UNREACHABLE);
    assert_eq!(g.bfs_distance(D, B), UNREACHABLE);
    assert_eq!(g.bfs_distance(A, B), 1);
}

#[test]
fn unknown_ids_reach_nothing() {
    let g = paired_chain();
    assert_eq!(g.bfs_distance(9, A), UNREACHABLE);
    assert_eq!(g.bfs_distance(A, 9), UNREACHABLE);
}

#[test]
fn target_only_nodes_are_reached_but_not_keys() {
    let g = graph_of(&[(0, 1)]);
    assert_eq!(g.bfs_distance(0, 1), 1);
    assert_eq!(g.keys(), vec![0]);
    assert!(!g.is_key(1));
    assert_eq!(sorted_histogram(&g), vec![(1, 1)]);
}

#[test]
fn matrix_agrees_with_path_finder() {
    let graphs = vec![
        paired_chain(),
        two_components(),
        graph_of(&[(0, 1), (1, 2), (2, 3), (0, 3), (3, 3), (2, 0)]),
    ];
    for g in graphs {
        let ks = g.keys();
        let rows = build_matrix(&g, &ks);
        for (i, &a) in ks.iter().enumerate() {
            for (j, &b) in ks.iter().enumerate() {
                assert_eq!(rows[i][j], g.bfs_distance(a, b));
            }
        }
    }
}

#[test]
fn median_of_even_and_odd_counts() {
    assert_eq!(median_value(median_of(vec![1, 2, 3, 4])), 2.5);
    assert_eq!(median_value(median_of(vec![1, 2, 3])), 2.0);
    assert_eq!(median_of(vec![]), None);
}

#[test]
fn median_sorts_its_input() {
    assert_eq!(median_of(vec![4, 1, 3, 2]), Some((2, 3)));
    assert_eq!(median_of(vec![9, 1, 5]), Some((5, 5)));
}

#[test]
fn histogram_sums_to_node_count() {
    let g = graph_of(&[(0, 1), (0, 2), (0, 2), (1, 1), (3, 0), (5, 4)]);
    let h = degree_distribution(&g);
    let total: usize = h.values().sum();
    assert_eq!(total, g.keys().len());
    assert_eq!(degree_counts(&g), vec![(3, 1), (1, 3)]);
    assert_eq!(sorted_histogram(&g), vec![(1, 3), (3, 1)]);
}

#[test]
fn empty_graph_statistics() {
    let g = Graph::new();
    assert!(degree_distribution(&g).is_empty());
    assert_eq!(max_distance(&g), 0);
    assert_eq!(median_distance(&g), None);
    assert!(closeness_centrality(&g).is_empty());
    let mut rng = StdRng::seed_from_u64(1);
    assert_eq!(mean(average_distance(&g, &mut rng, 10)), 0.0);
}

#[test]
fn sampling_with_no_samples_is_zero() {
    let g = paired_chain();
    let mut rng = StdRng::seed_from_u64(7);
    let s = average_distance(&g, &mut rng, 0);
    assert_eq!(s, DistanceSample { total: 0, counted: 0 });
    assert_eq!(mean(s), 0.0);
}

#[test]
fn sampling_a_disconnected_graph_is_zero() {
    let mut g = Graph::new();
    for u in 0..4 {
        g.add_node(u);
    }
    g.add_edge(2, 2);
    let mut rng = StdRng::seed_from_u64(3);
    let s = average_distance(&g, &mut rng, 500);
    assert_eq!(s.counted, 0);
    assert_eq!(mean(s), 0.0);
}

#[test]
fn sampling_a_pair_finds_distance_one() {
    let g = graph_of(&[(A, B), (B, A)]);
    let mut rng = StdRng::seed_from_u64(11);
    let s = average_distance(&g, &mut rng, 200);
    assert!(s.counted > 0);
    assert!(s.counted <= 200);
    assert_eq!(s.total, s.counted as u128);
    assert_eq!(mean(s), 1.0);
}

#[test]
fn closeness_of_isolated_node_is_zero() {
    let mut g = paired_chain();
    g.add_node(D);
    let c = closeness_centrality(&g);
    let d = c.iter().find(|x| x.node == D).unwrap();
    assert_eq!(d.reached, 0);
    let score = if d.reached == 0 { 0.0 } else { d.reached as f64 / d.total_distance as f64 };
    assert_eq!(score, 0.0);
}

#[test]
fn closeness_of_paired_chain() {
    let c = closeness_centrality(&paired_chain());
    assert_eq!(c.len(), 3);
    assert_eq!((c[0].node, c[0].reached, c[0].total_distance), (A, 2, 3));
    assert_eq!((c[1].node, c[1].reached, c[1].total_distance), (B, 2, 2));
    assert_eq!((c[2].node, c[2].reached, c[2].total_distance), (C, 2, 3));
}

#[test]
fn paired_chain_scenario() {
    let g = paired_chain();
    assert_eq!(g.bfs_distance(A, C), 2);
    assert_eq!(g.bfs_distance(C, A), 2);
    assert_eq!(max_distance(&g), 2);
    assert_eq!(median_value(median_distance(&g)), 1.0);
    assert_eq!(sorted_histogram(&g), vec![(1, 2), (2, 1)]);
}

#[test]
fn max_distance_ignores_unreachable_pairs() {
    assert_eq!(max_distance(&two_components()), 1);
    let g = graph_of(&[(0, 1), (1, 2), (2, 3), (3, 4), (4, 0)]);
    assert_eq!(max_distance(&g), 4);
}

#[test]
fn self_loop_keeps_zero_diagonal() {
    let g = graph_of(&[(0, 0), (0, 1), (1, 0)]);
    let ks = g.keys();
    let rows = build_matrix(&g, &ks);
    assert_eq!(rows[0][0], 0);
    assert_eq!(rows[0][1], 1);
    assert_eq!(median_distance(&g), Some((1, 1)));
}

#[test]
fn random_graph_shape() {
    let mut rng = StdRng::seed_from_u64(5);
    let g = generate_random_graph(50, &mut rng);
    assert_eq!(g.num_ids(), 50);
    assert_eq!(g.keys().len(), 50);
    let mut degrees = std::collections::HashSet::new();
    for u in 0..50 {
        let d = g.out_degree(u);
        assert!((1..=5).contains(&d));
        degrees.insert(d);
        for v in g.neighbors(u) {
            assert!(v < 50);
        }
    }
    assert!(degrees.len() > 1);
}

#[test]
fn from_lists_makes_every_position_a_key() {
    let g = Graph::from_lists(vec![vec![1], vec![], vec![0, 0]]);
    assert_eq!(g.keys(), vec![0, 1, 2]);
    assert_eq!(g.neighbors(2), vec![0, 0]);
    assert_eq!(g.bfs_distance(2, 1), 2);
    assert_eq!(sorted_histogram(&g), vec![(0, 1), (1, 1), (2, 1)]);
}

#[test]
fn path_frequency_of_single_edge() {
    let g = graph_of(&[(A, B)]);
    assert_eq!(g.record_paths(), vec![vec![A, B]]);
    assert_eq!(path_frequency_centrality(&g), vec![(A, 100)]);
}

#[test]
fn path_frequency_of_paired_chain() {
    let g = paired_chain();
    let paths = g.record_paths();
    assert_eq!(
        paths,
        vec![vec![A, B], vec![A, B, C], vec![B, A], vec![B, C], vec![C, B], vec![C, B, A]]
    );
    assert_eq!(path_frequency_centrality(&g), vec![(A, 66), (B, 100), (C, 66)]);
}

#[test]
fn path_frequency_without_paths_is_zero() {
    let mut g = Graph::new();
    g.add_node(A);
    g.add_node(B);
    assert!(g.record_paths().is_empty());
    assert_eq!(path_frequency_centrality(&g), vec![(A, 0), (B, 0)]);
}

#[test]
fn frequency_scores_round_down() {
    let paths = vec![vec![0, 1], vec![1, 2], vec![2, 0]];
    assert_eq!(frequency_scores(&vec![0, 1, 2, 3], &paths), vec![(0, 66), (1, 66), (2, 66), (3, 0)]);
}

fn bytes(s: &str) -> Vec<char> {
    s.chars().collect()
}

#[test]
fn edge_lines_take_the_first_two_tokens() {
    assert_eq!(parse_edge_line(&bytes("A B")), Some((bytes("A"), bytes("B"))));
    assert_eq!(parse_edge_line(&bytes("  x\ty  z\r")), Some((bytes("x"), bytes("y"))));
    assert_eq!(parse_edge_line(&bytes("lonely")), None);
    assert_eq!(parse_edge_line(&bytes("   ")), None);
    assert_eq!(parse_edge_line(&bytes("")), None);
    assert_eq!(split_tokens(&bytes(" ab  c d ")), vec![bytes("ab"), bytes("c"), bytes("d")]);
    assert_eq!(parse_edge_line(&bytes("p\u{a0}q\u{3000}r")), Some((bytes("p"), bytes("q"))));
    assert_eq!(split_tokens(&bytes("\u{2003}é\u{85}ü ")), vec![bytes("é"), bytes("ü")]);
}

#[test]
fn edge_list_builds_the_graph() {
    let mut g = Graph::new();
    let mut labels = LabelTable::new();
    for line in ["A B", "B A", "# note", "B C", "C B", ""] {
        add_edge_line(&mut g, &mut labels, &bytes(line));
    }
    assert_eq!(labels.len(), 5);
    assert_eq!(labels.label(0), bytes("A"));
    assert_eq!(labels.label(2), bytes("#"));
    assert_eq!(labels.label(3), bytes("note"));
    assert_eq!(labels.label(4), bytes("C"));
    assert_eq!(g.bfs_distance(0, 4), 2);
    assert_eq!(g.keys(), vec![0, 1, 2, 4]);
    assert!(!g.is_key(3));
    assert_eq!(g.neighbors(1), vec![0, 4]);
}

#[test]
fn interning_reuses_known_labels() {
    let mut labels = LabelTable::new();
    assert_eq!(labels.intern(&bytes("x")), 0);
    assert_eq!(labels.intern(&bytes("y")), 1);
    assert_eq!(labels.intern(&bytes("x")), 0);
    assert_eq!(labels.len(), 2);
}

#[test]
fn tally_records_each_drawn_pair() {
    let g = paired_chain();
    let pairs = vec![(A, C), (B, B), (C, A), (A, B), (A, D)];
    let s = tally_pairs(&g, &pairs);
    assert_eq!(s, DistanceSample { total: 5, counted: 3 });
    assert_eq!(mean(s), 5.0 / 3.0);
}

#[test]
fn test_average_distance() {
    let mut rng = StdRng::seed_from_u64(1000);
    let graph = generate_random_graph(1000, &mut rng);

    let sample_size = 4000;
    let avg_dist = mean(average_distance(&graph, &mut rng, sample_size));

    // shortest hop counts on a random graph of out-degree one to five
    assert!(avg_dist >= 1.0 && avg_dist <= 20.0);
}
