use subgraph_mining_trading::algorithms::find_triangles;
use subgraph_mining_trading::matcher::{chain_parts, clique_parts, star_parts, triangle_parts};
use subgraph_mining_trading::algorithms::find_stars;
use subgraph_mining_trading::gspan::{triangle_weights, GSpanMiner, MiningError};
use subgraph_mining_trading::matcher::{changes_between, same_symbols};
use subgraph_mining_trading::pattern::{DFSCode, Pattern, PatternNode, PatternSignal, PatternType};
use subgraph_mining_trading::types::{FinancialGraph, GraphType, Node};

fn w(x: f64) -> u64 {
    x.to_bits()
}

fn strings(v: &[&str]) -> Vec<String> {
    v.iter().map(|s| s.to_string()).collect()
}

fn create_test_graph() -> FinancialGraph {
    let mut graph = FinancialGraph::new(GraphType::Correlation);

    // Create a graph with triangles and a star
    let symbols = ["BTC", "ETH", "SOL", "AVAX", "MATIC"];
    for symbol in &symbols {
        graph.add_node(Node::new(symbol));
    }

    // Triangle: BTC-ETH-SOL
    graph.add_edge("BTC", "ETH", w(0.9));
    graph.add_edge("ETH", "SOL", w(0.85));
    graph.add_edge("BTC", "SOL", w(0.8));

    // Star: BTC as hub
    graph.add_edge("BTC", "AVAX", w(0.75));
    graph.add_edge("BTC", "MATIC", w(0.7));

    graph
}

#[test]
fn test_pattern_creation() {
    let triangle = Pattern::triangle();
    assert_eq!(triangle.node_count(), 3);
    assert_eq!(triangle.edge_count(), 3);
    assert_eq!(triangle.pattern_type, PatternType::Triangle);
}

#[test]
fn test_star_pattern() {
    let star = Pattern::star(4);
    assert_eq!(star.node_count(), 5); // 1 hub + 4 spokes
    assert_eq!(star.edge_count(), 4);
}

#[test]
fn test_clique_pattern() {
    let clique = Pattern::clique(4);
    assert_eq!(clique.node_count(), 4);
    assert_eq!(clique.edge_count(), 6); // 4*3/2 = 6
}

#[test]
fn test_chain_pattern() {
    let chain = Pattern::chain(5);
    assert_eq!(chain.node_count(), 5);
    assert_eq!(chain.edge_count(), 4);
}

#[test]
fn test_miner_creation() {
    let miner = GSpanMiner::new().min_support(3).max_size(5);

    assert_eq!(miner.support_threshold(), 3);
    assert_eq!(miner.size_limit(), 5);
}

#[test]
fn test_mine_patterns() {
    let graph = create_test_graph();
    let miner = GSpanMiner::new().min_support(1);

    let patterns = miner.mine(&graph).unwrap();
    assert!(!patterns.is_empty());

    // Should find at least the triangle
    let has_triangle = patterns.iter().any(|p| p.pattern_type == PatternType::Triangle);
    assert!(has_triangle);
}

#[test]
fn pattern_ids_and_shapes() {
    assert_eq!(Pattern::triangle().id, "triangle");
    assert_eq!(Pattern::star(3).id, "star_3");
    assert_eq!(Pattern::chain(12).id, "chain_12");
    let clique = Pattern::clique(5);
    assert_eq!(clique.id, "clique_5");
    assert_eq!(clique.edge_count(), 10);
    assert_eq!((clique.edges[9].from, clique.edges[9].to), (3, 4));
    assert_eq!(Pattern::chain(0).edge_count(), 0);
    let star = Pattern::star(2);
    assert_eq!((star.edges[1].from, star.edges[1].to), (0, 2));
}

#[test]
fn pattern_signals_follow_the_type() {
    assert_eq!(Pattern::triangle().trading_signal(), PatternSignal::Bullish);
    assert_eq!(Pattern::clique(4).trading_signal(), PatternSignal::Bullish);
    assert_eq!(Pattern::star(3).trading_signal(), PatternSignal::Neutral);
    assert!(PatternType::Triangle.is_bullish_signal());
    assert!(!PatternType::Chain.is_bullish_signal());
    assert_eq!(PatternType::Clique.name(), "clique");
}

#[test]
fn dfs_code_rightmost_path() {
    let mut code = DFSCode::new();
    code.add_edge(0, 1, 0, 0, 0);
    code.add_edge(1, 2, 0, 0, 0);
    code.add_edge(1, 3, 0, 0, 0);
    assert_eq!(code.rightmost_path(), vec![0, 1, 3]);
    let mut cyclic = DFSCode::new();
    cyclic.add_edge(0, 1, 0, 0, 0);
    cyclic.add_edge(1, 2, 0, 0, 0);
    cyclic.add_edge(2, 0, 0, 0, 0);
    cyclic.add_edge(0, 3, 0, 0, 0);
    assert_eq!(cyclic.rightmost_path(), vec![0, 3]);
    let mut closing = DFSCode::new();
    closing.add_edge(0, 1, 0, 0, 0);
    closing.add_edge(1, 2, 0, 0, 0);
    closing.add_edge(2, 0, 0, 0, 0);
    assert_eq!(closing.rightmost_path(), vec![0, 1, 2]);
    assert!(code.is_minimum());
    assert!(DFSCode::new().rightmost_path().is_empty());
    let node = PatternNode::new(7).with_label("hub");
    assert_eq!(node.label, Some("hub".to_string()));
}

#[test]
fn mine_counts_and_ranks_the_shapes() {
    let graph = create_test_graph();
    let patterns = GSpanMiner::new().min_support(1).mine(&graph).unwrap();
    // chains of 3: SOL-ETH-BTC-... every simple path of three symbols
    let supports: Vec<usize> = patterns.iter().map(|p| p.support).collect();
    for pair in supports.windows(2) {
        assert!(pair[0] >= pair[1]);
    }
    let triangle = patterns.iter().find(|p| p.pattern_type == PatternType::Triangle).unwrap();
    assert_eq!(triangle.support, 1);
    let star3 = patterns.iter().find(|p| p.id == "star_3").unwrap();
    assert_eq!(star3.support, 1);
    assert!(patterns.iter().all(|p| p.id != "star_5"));
    assert!(patterns.iter().all(|p| p.pattern_type != PatternType::Clique));
}

#[test]
fn mine_respects_the_pattern_limit_and_support() {
    let graph = create_test_graph();
    let limited = GSpanMiner::new().min_support(1).max_patterns(2).mine(&graph).unwrap();
    assert_eq!(limited.len(), 2);
    let strict = GSpanMiner::new().min_support(100).mine(&graph).unwrap();
    assert!(strict.is_empty());
}

#[test]
fn mining_an_empty_graph_fails() {
    let graph = FinancialGraph::new(GraphType::Correlation);
    assert_eq!(GSpanMiner::new().mine(&graph).unwrap_err(), MiningError::EmptyGraph);
    let none: Vec<FinancialGraph> = Vec::new();
    assert_eq!(GSpanMiner::new().mine_temporal(&none).unwrap_err(), MiningError::EmptyGraph);
    let some = vec![create_test_graph(), FinancialGraph::new(GraphType::Correlation)];
    assert_eq!(GSpanMiner::new().mine_temporal(&some).unwrap_err(), MiningError::EmptyGraph);
}

#[test]
fn mine_temporal_groups_by_hash() {
    let graphs = vec![create_test_graph(), create_test_graph()];
    let groups = GSpanMiner::new().min_support(1).mine_temporal(&graphs).unwrap();
    // every mined pattern has the same (empty) DFS code, so one group
    assert_eq!(groups.len(), 1);
    assert_eq!(groups[0].1, vec![true, true]);
    assert_eq!(Pattern::triangle().compute_hash(), Pattern::chain(3).compute_hash());
}

#[test]
fn triangle_weights_lists_each_edge() {
    let graph = create_test_graph();
    let triangles = find_triangles(&graph);
    let weights = triangle_weights(&graph, &triangles);
    assert_eq!(weights.len(), 3);
    let mut values: Vec<f64> = weights.iter().map(|b| f64::from_bits(*b)).collect();
    values.sort_by(|a, b| a.partial_cmp(b).unwrap());
    assert_eq!(values, vec![0.8, 0.85, 0.9]);
}

#[test]
fn changes_between_snapshots() {
    let old = vec![(PatternType::Triangle, strings(&["A", "B", "C"])), (PatternType::Star, strings(&["A", "B"]))];
    let new = vec![
        (PatternType::Triangle, strings(&["C", "A", "B"])),
        (PatternType::Triangle, strings(&["C", "D", "E"])),
        (PatternType::Clique, strings(&["A", "B"])),
    ];
    let (appeared, disappeared) = changes_between(&old, &new);
    assert_eq!(appeared, vec![1, 2]);
    assert_eq!(disappeared, vec![1]);
    let (a2, d2) = changes_between(&old, &old);
    assert!(a2.is_empty() && d2.is_empty());
}

#[test]
fn same_symbols_counts_repeats() {
    assert!(same_symbols(&strings(&["A", "B", "A"]), &strings(&["A", "A", "B"])));
    assert!(!same_symbols(&strings(&["A", "B", "B"]), &strings(&["A", "A", "B"])));
    assert!(!same_symbols(&strings(&["A"]), &strings(&["A", "A"])));
}

#[test]
fn triangle_parts_carry_the_edge_weights() {
    let graph = create_test_graph();
    let triangles = find_triangles(&graph);
    let parts = triangle_parts(&graph, &triangles);
    assert_eq!(parts.len(), 1);
    assert_eq!(parts[0].0.len(), 3);
    let mut weights: Vec<f64> = parts[0].1.iter().map(|b| f64::from_bits(*b)).collect();
    weights.sort_by(|a, b| a.partial_cmp(b).unwrap());
    assert_eq!(weights, vec![0.8, 0.85, 0.9]);
}

#[test]
fn star_parts_are_cut_to_the_pattern() {
    let graph = create_test_graph();
    let stars = find_stars(&graph, 3);
    assert_eq!(stars.len(), 1);
    let parts = star_parts(&graph, &stars, 4, 3);
    assert_eq!(parts[0].0.len(), 4);
    assert_eq!(parts[0].0[0], "BTC");
    assert_eq!(parts[0].1.len(), 3);
}

#[test]
fn chain_and_clique_parts() {
    let graph = create_test_graph();
    let chains = vec![strings(&["AVAX", "BTC", "SOL"])];
    let parts = chain_parts(&graph, &chains);
    assert_eq!(parts[0].0, strings(&["AVAX", "BTC", "SOL"]));
    assert_eq!(parts[0].1, vec![w(0.75), w(0.8)]);
    let cliques = vec![strings(&["BTC", "ETH", "SOL"]), strings(&["BTC", "AVAX"])];
    let parts = clique_parts(&graph, &cliques, 3);
    assert_eq!(parts.len(), 1);
    assert_eq!(parts[0].1, vec![w(0.9), w(0.8), w(0.85)]);
}

#[test]
fn mine_temporal_marks_and_ranks() {
    let mut other = FinancialGraph::new(GraphType::Correlation);
    other.add_node(Node::new("X"));
    let graphs = vec![other, create_test_graph()];
    let groups = GSpanMiner::new().min_support(1).mine_temporal(&graphs).unwrap();
    assert_eq!(groups.len(), 1);
    assert_eq!(groups[0].1, vec![false, true]);
}

#[test]
fn pattern_builders() {
    use_pattern_builders();
}

fn use_pattern_builders() {
    let p = Pattern::new("custom", PatternType::General).with_support(7);
    assert_eq!(p.support, 7);
    assert_eq!(p.id, "custom");
    let mut q = Pattern::new("q", PatternType::Edge);
    q.add_node(PatternNode::new(0));
    q.add_node(PatternNode::new(1));
    q.add_edge(subgraph_mining_trading::pattern::PatternEdge::new(0, 1).with_min_weight(w(0.5)));
    assert_eq!(q.node_count(), 2);
    assert_eq!(q.edges[0].min_weight, Some(w(0.5)));
    assert!(!DFSCode::default().is_minimum());
}

#[test]
fn mine_a_graph_with_a_self_loop() {
    let mut graph = create_test_graph();
    graph.add_edge("BTC", "BTC", w(1.0));
    let patterns = GSpanMiner::new().min_support(1).mine(&graph).unwrap();
    assert!(patterns.iter().all(|p| p.avg_weight == 0));
    let triangle = patterns.iter().find(|p| p.pattern_type == PatternType::Triangle).unwrap();
    assert_eq!(triangle.support, 1);
    let groups = GSpanMiner::new().min_support(1).mine_temporal(&[graph, create_test_graph()]).unwrap();
    assert_eq!(groups.len(), 1);
    assert_eq!(groups[0].1, vec![true, true]);
}

#[test]
fn minimum_dfs_codes() {
    let mut one = DFSCode::new();
    one.add_edge(0, 1, 1, 0, 0);
    assert!(!one.is_minimum());
    let mut least = DFSCode::new();
    least.add_edge(0, 1, 0, 0, 1);
    assert!(least.is_minimum());
    // a star centred on vertex 1: the code from a leaf is the least
    let mut from_leaf = DFSCode::new();
    from_leaf.add_edge(0, 1, 0, 0, 0);
    from_leaf.add_edge(1, 2, 0, 0, 0);
    from_leaf.add_edge(1, 3, 0, 0, 0);
    assert!(from_leaf.is_minimum());
    let mut from_centre = DFSCode::new();
    from_centre.add_edge(0, 1, 0, 0, 0);
    from_centre.add_edge(0, 2, 0, 0, 0);
    from_centre.add_edge(0, 3, 0, 0, 0);
    assert!(!from_centre.is_minimum());
    // a triangle: the backward edge closes it before anything else
    let mut triangle = DFSCode::new();
    triangle.add_edge(0, 1, 0, 0, 0);
    triangle.add_edge(1, 2, 0, 0, 0);
    triangle.add_edge(2, 0, 0, 0, 0);
    assert!(triangle.is_minimum());
    // not a DFS code of its own graph: the second entry starts nowhere
    let mut broken = DFSCode::new();
    broken.add_edge(0, 1, 0, 0, 0);
    broken.add_edge(5, 6, 0, 0, 0);
    assert!(!broken.is_minimum());
}

#[test]
fn mine_a_graph_with_one_way_links() {
    let mut graph = FinancialGraph::new(GraphType::Correlation);
    graph.add_node(Node::new("A"));
    graph.add_node(Node::new("B"));
    graph.add_edge("A", "B", w(0.5));
    graph.add_node(Node::new("A"));
    graph.add_edge("A", "A", w(0.5));
    let patterns = GSpanMiner::new().min_support(1).mine(&graph).unwrap();
    assert!(patterns.iter().all(|p| p.pattern_type != PatternType::Clique));
    let groups = GSpanMiner::new().min_support(1).mine_temporal(&[graph]).unwrap();
    assert!(groups.len() <= 1);
}
