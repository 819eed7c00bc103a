use subgraph_mining_trading::algorithms::{find_stars, find_triangles};
use subgraph_mining_trading::builder::{build_graph, check_window, BuilderError};
use subgraph_mining_trading::chains::find_chains;
use subgraph_mining_trading::cliques::find_cliques;
use subgraph_mining_trading::components::connected_components;
use subgraph_mining_trading::types::{Edge, EdgeType, FinancialGraph, GraphType, Node};

fn w(x: f64) -> u64 {
    x.to_bits()
}

fn create_test_graph() -> FinancialGraph {
    let mut graph = FinancialGraph::new(GraphType::Correlation);

    // Create a triangle + one extra node
    graph.add_node(Node::new("A"));
    graph.add_node(Node::new("B"));
    graph.add_node(Node::new("C"));
    graph.add_node(Node::new("D"));

    graph.add_edge("A", "B", w(0.9));
    graph.add_edge("B", "C", w(0.85));
    graph.add_edge("A", "C", w(0.8));
    graph.add_edge("C", "D", w(0.75));

    graph
}

fn graph_of(symbols: &[&str], edges: &[(&str, &str)]) -> FinancialGraph {
    let mut graph = FinancialGraph::new(GraphType::Correlation);
    for s in symbols {
        graph.add_node(Node::new(s));
    }
    for (a, b) in edges {
        graph.add_edge(a, b, w(0.5));
    }
    graph
}

fn strings(v: &[&str]) -> Vec<String> {
    v.iter().map(|s| s.to_string()).collect()
}

#[test]
fn test_node_creation() {
    let node = Node::new("BTCUSDT")
        .with_price(w(50000.0))
        .with_volume(w(1000000.0))
        .with_change(w(5.5));

    assert_eq!(node.symbol, "BTCUSDT");
    assert_eq!(f64::from_bits(node.price), 50000.0);
    assert_eq!(f64::from_bits(node.volume), 1000000.0);
    assert_eq!(f64::from_bits(node.change_24h), 5.5);
}

#[test]
fn test_graph_operations() {
    let mut graph = FinancialGraph::new(GraphType::Correlation);

    graph.add_node(Node::new("BTCUSDT"));
    graph.add_node(Node::new("ETHUSDT"));
    graph.add_node(Node::new("SOLUSDT"));

    graph.add_edge("BTCUSDT", "ETHUSDT", w(0.85));
    graph.add_edge("ETHUSDT", "SOLUSDT", w(0.75));

    assert_eq!(graph.node_count(), 3);
    assert_eq!(graph.edge_count(), 2);
    assert!(graph.has_edge("BTCUSDT", "ETHUSDT"));
    assert!(!graph.has_edge("BTCUSDT", "SOLUSDT"));

    let neighbors = graph.neighbors("ETHUSDT");
    assert_eq!(neighbors.len(), 2);
}

#[test]
fn test_find_triangles() {
    let graph = create_test_graph();
    let triangles = find_triangles(&graph);

    assert_eq!(triangles.len(), 1);
    // Should find A-B-C triangle
}

#[test]
fn test_find_stars() {
    let graph = create_test_graph();
    let stars = find_stars(&graph, 2);

    // C has 3 connections (A, B, D), so it's a star
    assert!(!stars.is_empty());
    assert!(stars.iter().any(|(hub, _)| hub == "C"));
}

#[test]
fn test_connected_components() {
    let graph = create_test_graph();
    let components = connected_components(&graph);

    // All nodes are connected
    assert_eq!(components.len(), 1);
    assert_eq!(components[0].len(), 4);
}

#[test]
fn add_edge_to_unknown_symbol_is_refused() {
    let mut graph = create_test_graph();
    assert_eq!(graph.add_edge("A", "Z", w(0.1)), None);
    assert_eq!(graph.edge_count(), 4);
    assert_eq!(graph.add_edge("A", "D", w(0.1)), Some(4));
}

#[test]
fn later_node_with_same_symbol_takes_the_name() {
    let mut graph = FinancialGraph::new(GraphType::Correlation);
    graph.add_node(Node::new("A"));
    graph.add_node(Node::new("B"));
    graph.add_edge("A", "B", w(0.5));
    let second = graph.add_node(Node::new("B").with_price(w(2.0)));
    assert_eq!(second, 2);
    assert_eq!(f64::from_bits(graph.get_node("B").unwrap().price), 2.0);
    // the edge still joins A to the first B node
    assert!(!graph.has_edge("A", "B"));
    assert_eq!(graph.neighbors("A"), strings(&["B"]));
    assert_eq!(graph.symbols().len(), 2);
}

#[test]
fn edge_weight_reads_back_the_weight() {
    let graph = create_test_graph();
    assert_eq!(graph.edge_weight("B", "A"), Some(w(0.9)));
    assert_eq!(graph.edge_weight("A", "D"), None);
    assert_eq!(graph.edges().len(), 4);
}

#[test]
fn triangles_of_a_four_clique() {
    let graph = graph_of(
        &["A", "B", "C", "D"],
        &[("A", "B"), ("A", "C"), ("A", "D"), ("B", "C"), ("B", "D"), ("C", "D")],
    );
    let triangles = find_triangles(&graph);
    assert_eq!(triangles.len(), 4);
    assert_eq!(triangles[0], ("A".to_string(), "B".to_string(), "C".to_string()));
}

#[test]
fn stars_most_connected_first() {
    let graph = graph_of(&["A", "B", "C", "D"], &[("A", "B"), ("B", "C"), ("B", "D")]);
    let stars = find_stars(&graph, 1);
    assert_eq!(stars.len(), 4);
    assert_eq!(stars[0].0, "B");
    assert_eq!(stars[0].1.len(), 3);
    let none = find_stars(&graph, 4);
    assert!(none.is_empty());
}

#[test]
fn components_largest_first_and_sorted() {
    let graph = graph_of(&["E", "A", "C", "B", "D"], &[("C", "B"), ("A", "D"), ("D", "C")]);
    let components = connected_components(&graph);
    assert_eq!(components.len(), 2);
    assert_eq!(components[0], strings(&["A", "B", "C", "D"]));
    assert_eq!(components[1], strings(&["E"]));
}

#[test]
fn chains_of_a_path() {
    let graph = graph_of(&["A", "B", "C", "D"], &[("A", "B"), ("B", "C"), ("C", "D")]);
    let chains = find_chains(&graph, 3);
    assert_eq!(chains.len(), 2);
    assert!(chains.contains(&strings(&["A", "B", "C"])));
    assert!(chains.contains(&strings(&["B", "C", "D"])));
    assert_eq!(find_chains(&graph, 4), vec![strings(&["A", "B", "C", "D"])]);
    assert!(find_chains(&graph, 1).is_empty());
    assert!(find_chains(&graph, 5).is_empty());
}

#[test]
fn cliques_are_the_maximal_ones() {
    // a four-clique A-B-C-D and a pendant edge D-E
    let graph = graph_of(
        &["A", "B", "C", "D", "E"],
        &[("A", "B"), ("A", "C"), ("A", "D"), ("B", "C"), ("B", "D"), ("C", "D"), ("D", "E")],
    );
    let mut cliques = find_cliques(&graph, 5);
    cliques.sort();
    assert_eq!(cliques, vec![strings(&["A", "B", "C", "D"]), strings(&["D", "E"])]);
}

#[test]
fn cliques_stop_at_the_size_limit() {
    let graph = graph_of(
        &["A", "B", "C", "D"],
        &[("A", "B"), ("A", "C"), ("A", "D"), ("B", "C"), ("B", "D"), ("C", "D")],
    );
    let cliques = find_cliques(&graph, 3);
    assert!(!cliques.is_empty());
    for c in &cliques {
        assert_eq!(c.len(), 3);
    }
    let isolated = graph_of(&["A", "B"], &[]);
    assert!(find_cliques(&isolated, 5).is_empty());
}

#[test]
fn check_window_reports_the_shortest_series() {
    assert!(matches!(check_window(&vec![], 24), Err(BuilderError::InsufficientData(1, 0))));
    assert!(matches!(check_window(&vec![30, 20, 40], 24), Err(BuilderError::InsufficientData(24, 20))));
    assert!(check_window(&vec![30, 24, 40], 24).is_ok());
}

#[test]
fn build_graph_links_the_kept_pairs() {
    let nodes = vec![Node::new("A"), Node::new("B"), Node::new("C")];
    let weights = vec![
        vec![w(1.0), w(0.9), w(0.1)],
        vec![w(0.9), w(1.0), w(0.8)],
        vec![w(0.1), w(0.8), w(1.0)],
    ];
    let keep = vec![vec![false, true, false], vec![true, false, true], vec![false, true, false]];
    let graph = build_graph(GraphType::Correlation, nodes, &weights, &keep, 24, w(0.7));
    assert_eq!(graph.node_count(), 3);
    assert_eq!(graph.edge_count(), 2);
    assert_eq!(graph.edge_weight("A", "B"), Some(w(0.9)));
    assert_eq!(graph.edge_weight("C", "B"), Some(w(0.8)));
    assert!(!graph.has_edge("A", "C"));
    assert_eq!(graph.window_size(), 24);
    assert_eq!(graph.threshold(), w(0.7));
}

#[test]
fn distinct_symbols() {
    let plain = create_test_graph();
    assert!(plain.has_distinct_symbols());
    let mut twice = create_test_graph();
    twice.add_node(Node::new("A"));
    assert!(!twice.has_distinct_symbols());
}

#[test]
fn cliques_of_size_one_with_a_self_link() {
    let mut graph = graph_of(&["A", "B", "C"], &[("A", "B"), ("B", "C"), ("A", "C")]);
    graph.add_edge("B", "B", w(1.0));
    let cliques = find_cliques(&graph, 1);
    assert_eq!(cliques, vec![strings(&["A"])]);
}

#[test]
fn links_read_the_same_both_ways() {
    let graph = create_test_graph();
    for a in ["A", "B", "C", "D", "Z"] {
        for b in ["A", "B", "C", "D", "Z"] {
            assert_eq!(graph.has_edge(a, b), graph.has_edge(b, a));
        }
    }
    assert!(graph.has_edge("D", "C"));
    assert!(graph.get_node("Z").is_none());
}

#[test]
fn node_and_edge_builders() {
    let node = Node::new("ETH").with_price(w(2.0)).with_sector("L1");
    assert_eq!(node.sector, Some("L1".to_string()));
    assert_eq!(f64::from_bits(node.price), 2.0);
    let edge = Edge::new("A", "B", w(0.5)).with_type(EdgeType::LeadLag);
    assert_eq!(edge.edge_type, EdgeType::LeadLag);
    assert_eq!((edge.from.as_str(), edge.to.as_str()), ("A", "B"));
    assert_eq!(Edge::new("A", "B", w(0.5)).edge_type, EdgeType::PositiveCorrelation);
}

#[test]
fn cloned_graph_keeps_nodes_and_edges() {
    let graph = create_test_graph();
    let copy = graph.clone();
    assert_eq!(copy.node_count(), 4);
    assert_eq!(copy.edges(), graph.edges());
    assert_eq!(copy.neighbors("C"), graph.neighbors("C"));
    let empty = FinancialGraph::default();
    assert_eq!(empty.node_count(), 0);
    assert_eq!(empty.graph_type(), GraphType::Correlation);
}

#[test]
fn neighborhood_links_count_linked_neighbor_pairs() {
    use_neighborhood_links();
}

fn use_neighborhood_links() {
    let graph = create_test_graph();
    let counts = subgraph_mining_trading::algorithms::neighborhood_links(&graph);
    // symbols in order A, B, C, D
    assert_eq!(counts, vec![(2, 1), (2, 1), (3, 1), (1, 0)]);
}

#[test]
fn test_graph_timestamp_kept_by_edits_and_clone() {
    let mut graph = FinancialGraph::new(GraphType::Correlation);
    let t = graph.timestamp();
    assert!(t > 1_600_000_000);
    graph.add_node(Node::new("A"));
    graph.add_node(Node::new("B"));
    graph.add_edge("A", "B", w(0.5));
    graph.set_window_size(20);
    graph.set_threshold(w(0.3));
    assert_eq!(graph.timestamp(), t);
    let copy = graph.clone();
    assert_eq!(copy.timestamp(), t);
}

#[test]
fn cliques_on_a_graph_with_a_self_loop() {
    let mut looped = create_test_graph();
    looped.add_edge("D", "D", w(1.0));
    let cliques = find_cliques(&looped, 5);
    assert_eq!(cliques, vec![vec!["A".to_string(), "B".to_string(), "C".to_string()]]);
}

#[test]
fn cliques_end_on_one_way_links_with_a_self_link() {
    // A, B, A again; A-B joins the first A, the self-loop the second
    let mut graph = FinancialGraph::new(GraphType::Correlation);
    graph.add_node(Node::new("A"));
    graph.add_node(Node::new("B"));
    graph.add_edge("A", "B", w(0.5));
    graph.add_node(Node::new("A"));
    graph.add_edge("A", "A", w(0.5));
    assert_eq!(find_cliques(&graph, 5), Vec::<Vec<String>>::new());
    // two nodes of each symbol: A's latest node links to an older A and B
    let mut twice = FinancialGraph::new(GraphType::Correlation);
    twice.add_node(Node::new("A"));
    twice.add_node(Node::new("A"));
    twice.add_node(Node::new("B"));
    twice.add_node(Node::new("B"));
    twice.add_edge_idx(1, 0, w(0.5));
    twice.add_edge_idx(1, 2, w(0.5));
    let cliques = find_cliques(&twice, 5);
    assert!(cliques.iter().all(|c| c.len() >= 2 && c.len() <= 5));
}
