//! Core graph types for financial networks: assets as nodes, relationships
//! as weighted undirected edges, and a symbol index over the nodes.
//!
//! Real-valued quantities (prices, volumes, weights, thresholds) are carried
//! as the bit patterns of their IEEE-754 doubles: the library stores and
//! returns them unchanged, and arithmetic on them happens outside it.

use petgraph::graph::{DiGraph, UnGraph};
use std::collections::HashMap;
use vstd::prelude::*;

use crate::graph_store::{
    adjacent, graph_edges, last_edge, lemma_found_edge, lemma_neighbor_seq, store_edge_endpoints,
    store_edge_weight, store_find_edge, store_neighbors, found_edge, graph_nodes, neighbor_seq, store_add_edge, store_add_node, store_edge_count,
    store_new, store_node, store_node_count,
};
use crate::cliques::mutual_links;
use crate::components::kedge;
use crate::text::{owned, str_eq};

verus! {

/// Type of graph being constructed.
#[derive(Debug, Clone, Copy, PartialEq, Eq, Structural)]
pub enum GraphType {
    /// Undirected correlation network
    Correlation,
    /// Directed lead-lag network
    LeadLag,
    /// Order flow graph
    OrderFlow,
    /// Sector relationship graph
    Sector,
}

/// Type of edge relationship.
#[derive(Debug, Clone, Copy, PartialEq, Eq, Structural)]
pub enum EdgeType {
    /// Positive correlation
    PositiveCorrelation,
    /// Negative correlation
    NegativeCorrelation,
    /// Lead-lag (direction matters)
    LeadLag,
    /// Transaction flow
    Transaction,
    /// Sector membership
    SameSector,
}

/// The current Unix time in seconds (`chrono::Utc::now().timestamp()`).
/// Nothing is promised of the value: it depends on the clock.
#[verifier::external_body]
pub(crate) fn current_timestamp() -> (t: i64) {
    chrono::Utc::now().timestamp()
}

/// A node in the financial graph representing an asset.
#[derive(Debug)]
pub struct Node {
    /// Symbol/identifier (e.g., "BTCUSDT")
    pub symbol: String,
    /// Current price (IEEE-754 bits)
    pub price: u64,
    /// 24h volume (IEEE-754 bits)
    pub volume: u64,
    /// 24h price change percentage (IEEE-754 bits)
    pub change_24h: u64,
    /// Market cap, if available (IEEE-754 bits)
    pub market_cap: Option<u64>,
    /// Sector/category
    pub sector: Option<String>,
    /// Additional metadata
    pub metadata: HashMap<String, String>,
}

/// Two nodes hold the same data.
pub open spec fn same_node(a: Node, b: Node) -> bool {
    &&& a.symbol@ == b.symbol@
    &&& a.price == b.price
    &&& a.volume == b.volume
    &&& a.change_24h == b.change_24h
    &&& a.market_cap == b.market_cap
    &&& (a.sector is Some <==> b.sector is Some)
    &&& (a.sector is Some ==> a.sector->0@ == b.sector->0@)
    &&& a.metadata@ == b.metadata@
}

impl Clone for Node {
    fn clone(&self) -> (res: Self)
        ensures
            same_node(res, *self),
    {
        Node {
            symbol: self.symbol.clone(),
            price: self.price,
            volume: self.volume,
            change_24h: self.change_24h,
            market_cap: self.market_cap,
            sector: match &self.sector {
                Some(s) => Some(s.clone()),
                None => None,
            },
            metadata: self.metadata.clone(),
        }
    }
}

impl Node {
    /// Create a new node with zero price, volume and change (the bits of
    /// `0.0` are all zero), no market cap, no sector and no metadata.
    pub fn new(symbol: &str) -> (n: Self)
        ensures
            n.symbol@ == symbol@,
            n.price == 0,
            n.volume == 0,
            n.change_24h == 0,
            n.market_cap is None,
            n.sector is None,
            n.metadata@ == Map::<String, String>::empty(),
    {
        Node {
            symbol: owned(symbol),
            price: 0,
            volume: 0,
            change_24h: 0,
            market_cap: None,
            sector: None,
            metadata: HashMap::new(),
        }
    }

    /// Set price
    pub fn with_price(self, price: u64) -> (n: Self)
        ensures
            n == (Node { price, ..self }),
    {
        Node { price, ..self }
    }

    /// Set volume
    pub fn with_volume(self, volume: u64) -> (n: Self)
        ensures
            n == (Node { volume, ..self }),
    {
        Node { volume, ..self }
    }

    /// Set 24h change
    pub fn with_change(self, change: u64) -> (n: Self)
        ensures
            n == (Node { change_24h: change, ..self }),
    {
        Node { change_24h: change, ..self }
    }

    /// Set sector
    pub fn with_sector(self, sector: &str) -> (n: Self)
        ensures
            n.sector is Some,
            n.sector->0@ == sector@,
            n.symbol == self.symbol,
            n.price == self.price,
            n.volume == self.volume,
            n.change_24h == self.change_24h,
            n.market_cap == self.market_cap,
            n.metadata == self.metadata,
    {
        Node { sector: Some(owned(sector)), ..self }
    }
}

/// An edge in the financial graph representing a relationship.
#[derive(Debug, Clone)]
pub struct Edge {
    /// Source node symbol
    pub from: String,
    /// Target node symbol
    pub to: String,
    /// Edge weight (IEEE-754 bits of the correlation, volume, ...)
    pub weight: u64,
    /// Type of relationship
    pub edge_type: EdgeType,
    /// Timestamp when relationship was computed
    pub timestamp: i64,
}

impl Edge {
    /// Create a new positive-correlation edge stamped with the current time.
    pub fn new(from: &str, to: &str, weight: u64) -> (e: Self)
        ensures
            e.from@ == from@,
            e.to@ == to@,
            e.weight == weight,
            e.edge_type == EdgeType::PositiveCorrelation,
    {
        Edge {
            from: owned(from),
            to: owned(to),
            weight,
            edge_type: EdgeType::PositiveCorrelation,
            timestamp: current_timestamp(),
        }
    }

    /// Set edge type
    pub fn with_type(self, edge_type: EdgeType) -> (e: Self)
        ensures
            e == (Edge { edge_type, ..self }),
    {
        Edge { edge_type, ..self }
    }
}

// ---------------------------------------------------------------------
// The model of a graph: node symbols, the distinct symbols in order of
// first appearance, and the node that a symbol names (its latest node).
// ---------------------------------------------------------------------

/// The symbols of the nodes, by node index.
pub open spec fn syms_of(nodes: Seq<Node>) -> Seq<Seq<char>> {
    nodes.map_values(|n: Node| n.symbol@)
}

/// The distinct symbols of `s`, in order of first appearance.
pub open spec fn distinct_syms(s: Seq<Seq<char>>) -> Seq<Seq<char>>
    decreases s.len(),
{
    if s.len() == 0 {
        Seq::empty()
    } else {
        let d = distinct_syms(s.drop_last());
        if d.contains(s.last()) {
            d
        } else {
            d.push(s.last())
        }
    }
}

/// The last position of `x` in `s`, or -1.
pub open spec fn last_index(s: Seq<Seq<char>>, x: Seq<char>) -> int
    decreases s.len(),
{
    if s.len() == 0 {
        -1
    } else if s.last() == x {
        s.len() - 1
    } else {
        last_index(s.drop_last(), x)
    }
}

/// The distinct symbols have no duplicates and are the symbols of `s`.
pub proof fn lemma_distinct_syms(s: Seq<Seq<char>>)
    ensures
        distinct_syms(s).no_duplicates(),
        forall|x: Seq<char>| #[trigger] distinct_syms(s).contains(x) <==> s.contains(x),
    decreases s.len(),
{
    if s.len() > 0 {
        let t = s.drop_last();
        let d = distinct_syms(t);
        let l = s.last();
        lemma_distinct_syms(t);
        assert forall|x: Seq<char>| s.contains(x) <==> (t.contains(x) || x == l) by {
            if t.contains(x) {
                let i = choose|i: int| 0 <= i < t.len() && t[i] == x;
                assert(s[i] == x);
            }
            if s.contains(x) {
                let i = choose|i: int| 0 <= i < s.len() && s[i] == x;
                if i < s.len() - 1 {
                    assert(t[i] == x);
                }
            }
            if x == l {
                assert(s[s.len() - 1] == x);
            }
        }
        if !d.contains(l) {
            let dp = d.push(l);
            assert forall|x: Seq<char>| dp.contains(x) <==> (d.contains(x) || x == l) by {
                if d.contains(x) {
                    let i = choose|i: int| 0 <= i < d.len() && d[i] == x;
                    assert(dp[i] == x);
                }
                if dp.contains(x) {
                    let i = choose|i: int| 0 <= i < dp.len() && dp[i] == x;
                    if i < d.len() {
                        assert(d[i] == x);
                    }
                }
                if x == l {
                    assert(dp[d.len() as int] == l);
                }
            }
            assert(dp.no_duplicates()) by {
                assert forall|i: int, j: int|
                    0 <= i < dp.len() && 0 <= j < dp.len() && i != j implies dp[i] != dp[j] by {
                    if i < d.len() && j < d.len() {
                    } else if i < d.len() {
                        assert(d.contains(dp[i]));
                    } else {
                        assert(d.contains(dp[j]));
                    }
                }
            }
        }
    }
}

/// The distinct symbols after one more symbol.
pub proof fn lemma_distinct_syms_push(s: Seq<Seq<char>>, x: Seq<char>)
    ensures
        distinct_syms(s.push(x)) == (if s.contains(x) {
            distinct_syms(s)
        } else {
            distinct_syms(s).push(x)
        }),
{
    assert(s.push(x).drop_last() =~= s);
    lemma_distinct_syms(s);
}

/// `last_index` is the last position holding `x`, or -1 when none does.
pub proof fn lemma_last_index(s: Seq<Seq<char>>, x: Seq<char>)
    ensures
        -1 <= last_index(s, x) < s.len(),
        last_index(s, x) >= 0 <==> s.contains(x),
        last_index(s, x) >= 0 ==> s[last_index(s, x)] == x,
        forall|j: int| last_index(s, x) < j < s.len() ==> s[j] != x,
    decreases s.len(),
{
    if s.len() > 0 {
        lemma_last_index(s.drop_last(), x);
        if s.last() != x {
            if s.contains(x) {
                let i = choose|i: int| 0 <= i < s.len() && s[i] == x;
                assert(s.drop_last()[i] == x);
            }
            assert forall|j: int| last_index(s, x) < j < s.len() implies s[j] != x by {
                if j < s.len() - 1 {
                    assert(s.drop_last()[j] == s[j]);
                }
            }
        }
    }
}

/// The last position of `x` after one more symbol.
pub proof fn lemma_last_index_push(s: Seq<Seq<char>>, y: Seq<char>, x: Seq<char>)
    ensures
        last_index(s.push(y), x) == (if y == x {
            s.len() as int
        } else {
            last_index(s, x)
        }),
{
    assert(s.push(y).drop_last() =~= s);
}

/// Links are undirected: two symbols are linked one way exactly when they
/// are linked the other way.
pub proof fn law_links_undirected(g: FinancialGraph, a: Seq<char>, b: Seq<char>)
    ensures
        g.linked(a, b) == g.linked(b, a),
{
    if g.linked(a, b) {
        let e = choose|e: int|
            #![trigger g.edge_list()[e]]
            0 <= e < g.edge_list().len() && ((g.edge_list()[e].0 == g.index_of(a) && g.edge_list()[e].1 == g.index_of(b))
                || (g.edge_list()[e].0 == g.index_of(b) && g.edge_list()[e].1 == g.index_of(a)));
    }
    if g.linked(b, a) {
        let e = choose|e: int|
            #![trigger g.edge_list()[e]]
            0 <= e < g.edge_list().len() && ((g.edge_list()[e].0 == g.index_of(b) && g.edge_list()[e].1 == g.index_of(a))
                || (g.edge_list()[e].0 == g.index_of(a) && g.edge_list()[e].1 == g.index_of(b)));
    }
}

/// Distinct symbols are their own distinct list.
proof fn lemma_distinct_keys(s: Seq<Seq<char>>)
    requires
        s.no_duplicates(),
    ensures
        distinct_syms(s) == s,
    decreases s.len(),
{
    if s.len() > 0 {
        let t = s.drop_last();
        assert(t.no_duplicates());
        lemma_distinct_keys(t);
        lemma_distinct_syms(t);
        if t.contains(s.last()) {
            let i = choose|i: int| 0 <= i < t.len() && t[i] == s.last();
            assert(s[i] == s[s.len() - 1]);
        }
        assert(t.push(s.last()) =~= s);
    }
}

/// Main financial graph structure: an undirected `petgraph` graph whose
/// node weights are [`Node`]s and whose edge weights are IEEE-754 bit
/// patterns, with an index from each symbol to its latest node.
#[derive(Debug)]
pub struct FinancialGraph {
    graph: UnGraph<Node, u64>,
    directed_graph: Option<DiGraph<Node, u64>>,
    symbol_index: Vec<(String, usize)>,
    graph_type: GraphType,
    timestamp: i64,
    window_size: usize,
    threshold: u64,
}

impl FinancialGraph {
    #[verifier::type_invariant]
    spec fn inv(self) -> bool {
        let nodes = graph_nodes(self.graph);
        let edges = graph_edges(self.graph);
        let syms = syms_of(nodes);
        &&& nodes.len() <= u32::MAX
        &&& edges.len() <= u32::MAX
        &&& forall|e: int|
            #![trigger edges[e]]
            0 <= e < edges.len() ==> edges[e].0 < nodes.len() && edges[e].1 < nodes.len()
        &&& self.symbol_index@.len() == distinct_syms(syms).len()
        &&& forall|k: int|
            #![trigger self.symbol_index@[k]]
            0 <= k < self.symbol_index@.len() ==> self.symbol_index@[k].0@ == distinct_syms(
                syms,
            )[k] && self.symbol_index@[k].1 == last_index(syms, self.symbol_index@[k].0@)
    }

    /// The nodes, by node index.
    pub closed spec fn nodes(&self) -> Seq<Node> {
        graph_nodes(self.graph)
    }

    /// The edges `(source, target, weight)`, by edge index.
    pub closed spec fn edge_list(&self) -> Seq<(usize, usize, u64)> {
        graph_edges(self.graph)
    }

    /// The symbols of the nodes, by node index.
    pub open spec fn syms(&self) -> Seq<Seq<char>> {
        syms_of(self.nodes())
    }

    /// The distinct symbols, in order of first appearance.
    pub open spec fn keys(&self) -> Seq<Seq<char>> {
        distinct_syms(self.syms())
    }

    /// The node a symbol names: its latest node, or -1.
    pub open spec fn index_of(&self, s: Seq<char>) -> int {
        last_index(self.syms(), s)
    }

    /// The nodes named by `a` and `b` exist and are joined by an edge.
    pub open spec fn linked(&self, a: Seq<char>, b: Seq<char>) -> bool {
        &&& self.index_of(a) >= 0
        &&& self.index_of(b) >= 0
        &&& adjacent(self.edge_list(), self.index_of(a), self.index_of(b))
    }

    /// The symbols of the neighbors of the node named `s`, in the order
    /// `petgraph` yields them, repeated once per connecting edge.
    pub open spec fn neighbor_syms(&self, s: Seq<char>) -> Seq<Seq<char>> {
        if self.index_of(s) >= 0 {
            neighbor_seq(self.edge_list(), self.index_of(s)).map_values(
                |j: usize| self.syms()[j as int],
            )
        } else {
            Seq::empty()
        }
    }

    pub closed spec fn spec_graph_type(&self) -> GraphType {
        self.graph_type
    }

    pub closed spec fn spec_window_size(&self) -> usize {
        self.window_size
    }

    pub closed spec fn spec_threshold(&self) -> u64 {
        self.threshold
    }

    /// The Unix time (seconds) recorded when the graph was constructed.
    pub closed spec fn spec_timestamp(&self) -> i64 {
        self.timestamp
    }

    /// Facts about the symbol model of any graph: the distinct symbols
    /// have no duplicates and are the node symbols, and a symbol names a
    /// node exactly when some node carries it.
    pub proof fn lemma_keys(&self)
        ensures
            self.keys().no_duplicates(),
            forall|x: Seq<char>| #[trigger] self.keys().contains(x) <==> self.syms().contains(x),
            forall|x: Seq<char>|
                #![trigger self.index_of(x)]
                -1 <= self.index_of(x) < self.nodes().len() && (self.index_of(x) >= 0
                    <==> self.syms().contains(x)) && (self.index_of(x) >= 0 ==> self.syms()[self.index_of(x)] == x),
    {
        lemma_distinct_syms(self.syms());
        assert forall|x: Seq<char>|
            #![trigger self.index_of(x)]
            -1 <= self.index_of(x) < self.nodes().len() && (self.index_of(x) >= 0
                <==> self.syms().contains(x)) && (self.index_of(x) >= 0 ==> self.syms()[self.index_of(x)] == x) by {
            lemma_last_index(self.syms(), x);
        }
    }

    /// Create a new empty financial graph stamped with the current time.
    pub fn new(graph_type: GraphType) -> (g: Self)
        ensures
            g.nodes() == Seq::<Node>::empty(),
            g.edge_list() == Seq::<(usize, usize, u64)>::empty(),
            g.spec_graph_type() == graph_type,
            g.spec_window_size() == 0,
            g.spec_threshold() == 0,
    {
        let graph = store_new();
        proof {
            assert(syms_of(graph_nodes(graph)) =~= Seq::empty());
        }
        FinancialGraph {
            graph,
            directed_graph: None,
            symbol_index: Vec::new(),
            graph_type,
            timestamp: current_timestamp(),
            window_size: 0,
            threshold: 0,
        }
    }

    /// The position in the symbol index of the entry for `symbol`.
    fn find_key(&self, symbol: &str) -> (r: Option<usize>)
        ensures
            match r {
                Some(k) => k < self.symbol_index@.len() && self.symbol_index@[k as int].0@
                    == symbol@,
                None => !self.keys().contains(symbol@),
            },
    {
        proof {
            use_type_invariant(self);
        }
        let mut k: usize = 0;
        while k < self.symbol_index.len()
            invariant
                k <= self.symbol_index@.len(),
                self.symbol_index@.len() == self.keys().len(),
                forall|j: int|
                    0 <= j < self.symbol_index@.len() ==> self.symbol_index@[j].0@
                        == self.keys()[j],
                forall|j: int| 0 <= j < k ==> self.keys()[j] != symbol@,
            decreases self.symbol_index@.len() - k,
        {
            if str_eq(self.symbol_index[k].0.as_str(), symbol) {
                return Some(k);
            }
            k = k + 1;
        }
        None
    }

    /// The node index that `symbol` names, if any.
    pub fn lookup(&self, symbol: &str) -> (r: Option<usize>)
        ensures
            match r {
                Some(i) => i == self.index_of(symbol@) && i >= 0,
                None => self.index_of(symbol@) == -1,
            },
    {
        proof {
            use_type_invariant(self);
            self.lemma_keys();
        }
        match self.find_key(symbol) {
            Some(k) => Some(self.symbol_index[k].1),
            None => None,
        }
    }

    /// Add a node to the graph; its symbol now names it.  Returns its index.
    /// The node index space is `u32`, so at most `u32::MAX` nodes fit.
    pub fn add_node(&mut self, node: Node) -> (i: usize)
        requires
            old(self).nodes().len() < u32::MAX,
        ensures
            final(self).nodes() == old(self).nodes().push(node),
            final(self).index_of(node.symbol@) == i,
            final(self).edge_list() == old(self).edge_list(),
            final(self).spec_graph_type() == old(self).spec_graph_type(),
            final(self).spec_window_size() == old(self).spec_window_size(),
            final(self).spec_threshold() == old(self).spec_threshold(),
            final(self).spec_timestamp() == old(self).spec_timestamp(),
            i == old(self).nodes().len(),
    {
        proof {
            use_type_invariant(&*self);
        }
        let ghost old_syms = self.syms();
        let ghost x = node.symbol@;
        let found = self.find_key(node.symbol.as_str());
        let symbol = node.symbol.clone();
        let mut taken = FinancialGraph {
            graph: store_new(),
            directed_graph: None,
            symbol_index: Vec::new(),
            graph_type: self.graph_type,
            timestamp: self.timestamp,
            window_size: self.window_size,
            threshold: self.threshold,
        };
        proof {
            assert(syms_of(graph_nodes(taken.graph)) =~= Seq::empty());
        }
        std::mem::swap(self, &mut taken);
        let FinancialGraph {
            mut graph,
            directed_graph,
            mut symbol_index,
            graph_type,
            timestamp,
            window_size,
            threshold,
        } = taken;
        let i = store_add_node(&mut graph, node);
        proof {
            assert(syms_of(graph_nodes(graph)) =~= old_syms.push(x));
            lemma_distinct_syms_push(old_syms, x);
            lemma_distinct_syms(old_syms);
            assert forall|y: Seq<char>| #![auto] last_index(old_syms.push(x), y) == (if x == y {
                old_syms.len() as int
            } else {
                last_index(old_syms, y)
            }) by {
                lemma_last_index_push(old_syms, x, y);
            }
        }
        let ghost new_syms = old_syms.push(x);
        let ghost old_idx = symbol_index@;
        proof {
            assert(old_idx.len() == distinct_syms(old_syms).len());
            assert(forall|j: int|
                0 <= j < old_idx.len() ==> old_idx[j].0@ == distinct_syms(old_syms)[j]
                    && old_idx[j].1 == last_index(old_syms, old_idx[j].0@));
        }
        match found {
            Some(k) => {
                symbol_index.set(k, (symbol, i));
                proof {
                    let ks = distinct_syms(old_syms);
                    assert(ks[k as int] == x);
                    assert(ks.contains(x));
                    assert(old_syms.contains(x));
                    assert(distinct_syms(new_syms) == ks);
                    assert forall|j: int|
                        0 <= j < symbol_index@.len() implies #[trigger] symbol_index@[j].0@
                        == distinct_syms(new_syms)[j] && symbol_index@[j].1 == last_index(
                        new_syms,
                        symbol_index@[j].0@,
                    ) by {
                        if j != k {
                            assert(ks.no_duplicates());
                            assert(ks[j] != x);
                            assert(symbol_index@[j] == old_idx[j]);
                        }
                    }
                }
            },
            None => {
                symbol_index.push((symbol, i));
                proof {
                    let ks = distinct_syms(old_syms);
                    assert(!old_syms.contains(x));
                    assert(distinct_syms(new_syms) == ks.push(x));
                    assert forall|j: int|
                        0 <= j < symbol_index@.len() implies #[trigger] symbol_index@[j].0@
                        == distinct_syms(new_syms)[j] && symbol_index@[j].1 == last_index(
                        new_syms,
                        symbol_index@[j].0@,
                    ) by {
                        if j < old_idx.len() {
                            assert(symbol_index@[j] == old_idx[j]);
                            assert(ks.contains(ks[j]));
                            assert(ks[j] != x);
                        }
                    }
                }
            },
        }
        proof {
            assert(syms_of(graph_nodes(graph)) == new_syms);
        }
        *self = FinancialGraph {
            graph,
            directed_graph,
            symbol_index,
            graph_type,
            timestamp,
            window_size,
            threshold,
        };
        i
    }

    /// Add an edge between the nodes named `from` and `to`; `None` when
    /// either symbol names no node.  The edge index space is `u32`.
    pub fn add_edge(&mut self, from: &str, to: &str, weight: u64) -> (r: Option<usize>)
        requires
            old(self).edge_list().len() < u32::MAX,
        ensures
            old(self).index_of(from@) >= 0 && old(self).index_of(to@) >= 0 ==> {
                &&& r == Some(old(self).edge_list().len() as usize)
                &&& final(self).edge_list() == old(self).edge_list().push(
                    (
                        old(self).index_of(from@) as usize,
                        old(self).index_of(to@) as usize,
                        weight,
                    ),
                )
            },
            !(old(self).index_of(from@) >= 0 && old(self).index_of(to@) >= 0) ==> {
                &&& r is None
                &&& final(self).edge_list() == old(self).edge_list()
            },
            r is Some ==> {
                &&& final(self).weight_between(from@, to@) == Some(weight)
                &&& final(self).linked(from@, to@)
                &&& final(self).linked(to@, from@)
            },
            final(self).nodes() == old(self).nodes(),
            final(self).spec_graph_type() == old(self).spec_graph_type(),
            final(self).spec_window_size() == old(self).spec_window_size(),
            final(self).spec_threshold() == old(self).spec_threshold(),
            final(self).spec_timestamp() == old(self).spec_timestamp(),
    {
        proof {
            use_type_invariant(&*self);
            self.lemma_keys();
        }
        let a = match self.lookup(from) {
            Some(a) => a,
            None => return None,
        };
        let b = match self.lookup(to) {
            Some(b) => b,
            None => return None,
        };
        let e = self.add_edge_idx(a, b, weight);
        proof {
            let edges = self.edge_list();
            assert(edges[e as int] == (a, b, weight));
            assert(last_edge(edges, a as int, b as int) == e);
            assert(adjacent(edges, a as int, b as int));
            assert(adjacent(edges, b as int, a as int));
        }
        Some(e)
    }

    /// Add an edge between nodes `a` and `b` given by index.
    pub fn add_edge_idx(&mut self, a: usize, b: usize, weight: u64) -> (e: usize)
        requires
            a < old(self).nodes().len(),
            b < old(self).nodes().len(),
            old(self).edge_list().len() < u32::MAX,
        ensures
            final(self).edge_list() == old(self).edge_list().push((a, b, weight)),
            final(self).nodes() == old(self).nodes(),
            final(self).spec_graph_type() == old(self).spec_graph_type(),
            final(self).spec_window_size() == old(self).spec_window_size(),
            final(self).spec_threshold() == old(self).spec_threshold(),
            final(self).spec_timestamp() == old(self).spec_timestamp(),
            e == old(self).edge_list().len(),
    {
        proof {
            use_type_invariant(&*self);
        }
        store_add_edge(&mut self.graph, a, b, weight)
    }

    /// Get node by symbol.
    pub fn get_node(&self, symbol: &str) -> (r: Option<&Node>)
        ensures
            match r {
                Some(n) => self.index_of(symbol@) >= 0 && *n == self.nodes()[self.index_of(
                    symbol@,
                )],
                None => self.index_of(symbol@) == -1,
            },
    {
        proof {
            use_type_invariant(self);
            self.lemma_keys();
        }
        match self.lookup(symbol) {
            Some(i) => Some(store_node(&self.graph, i)),
            None => None,
        }
    }

    /// The symbol of node `i`.
    pub fn node_symbol(&self, i: usize) -> (s: &String)
        requires
            i < self.nodes().len(),
        ensures
            s@ == self.syms()[i as int],
    {
        proof {
            use_type_invariant(self);
        }
        &store_node(&self.graph, i).symbol
    }

    /// All distinct node symbols, each once, in order of first appearance.
    pub fn symbols(&self) -> (r: Vec<&String>)
        ensures
            r@.map_values(|s: &String| s@) == self.keys(),
    {
        proof {
            use_type_invariant(self);
        }
        let mut r: Vec<&String> = Vec::new();
        let mut k: usize = 0;
        while k < self.symbol_index.len()
            invariant
                k <= self.symbol_index@.len(),
                self.symbol_index@.len() == self.keys().len(),
                forall|j: int|
                    0 <= j < self.symbol_index@.len() ==> self.symbol_index@[j].0@
                        == self.keys()[j],
                r@.map_values(|s: &String| s@) == self.keys().take(k as int),
            decreases self.symbol_index@.len() - k,
        {
            let ghost prev = r@;
            r.push(&self.symbol_index[k].0);
            proof {
                assert(r@ == prev.push(&self.symbol_index@[k as int].0));
                assert(r@.map_values(|s: &String| s@) =~= prev.map_values(|s: &String| s@).push(
                    self.keys()[k as int],
                ));
                assert(self.keys().take(k + 1) =~= self.keys().take(k as int).push(
                    self.keys()[k as int],
                ));
            }
            k = k + 1;
        }
        proof {
            assert(self.keys().take(k as int) =~= self.keys());
        }
        r
    }

    /// The neighbors of node `a` as node indices, in `petgraph` order.
    pub fn neighbor_indices(&self, a: usize) -> (r: Vec<usize>)
        requires
            a < self.nodes().len(),
        ensures
            r@ == neighbor_seq(self.edge_list(), a as int),
            forall|k: int| 0 <= k < r@.len() ==> #[trigger] r@[k] < self.nodes().len(),
            forall|x: usize| #[trigger]
                r@.contains(x) <==> adjacent(self.edge_list(), a as int, x as int),
    {
        proof {
            use_type_invariant(self);
            lemma_neighbor_seq(self.edge_list(), a as int);
        }
        let r = store_neighbors(&self.graph, a);
        proof {
            assert forall|k: int| 0 <= k < r@.len() implies #[trigger] r@[k] < self.nodes().len() by {
                assert(r@.contains(r@[k]));
                let e = choose|e: int|
                    #![trigger self.edge_list()[e]]
                    0 <= e < self.edge_list().len() && ((self.edge_list()[e].0 == a
                        && self.edge_list()[e].1 == r@[k]) || (self.edge_list()[e].0 == r@[k]
                        && self.edge_list()[e].1 == a));
            }
        }
        r
    }

    /// Whether nodes `a` and `b` are joined by an edge.
    pub fn linked_idx(&self, a: usize, b: usize) -> (r: bool)
        requires
            a < self.nodes().len(),
            b < self.nodes().len(),
        ensures
            r == adjacent(self.edge_list(), a as int, b as int),
    {
        proof {
            use_type_invariant(self);
            lemma_found_edge(self.edge_list(), a as int, b as int);
        }
        store_find_edge(&self.graph, a, b).is_some()
    }

    /// Get neighbors of a node: the symbols of the nodes joined to the node
    /// `symbol` names, once per joining edge; empty for an unknown symbol.
    pub fn neighbors(&self, symbol: &str) -> (r: Vec<String>)
        ensures
            r@.map_values(|s: String| s@) == self.neighbor_syms(symbol@),
    {
        proof {
            use_type_invariant(self);
            self.lemma_keys();
        }
        let mut r: Vec<String> = Vec::new();
        match self.lookup(symbol) {
            None => {
                proof {
                    assert(r@.map_values(|s: String| s@) =~= self.neighbor_syms(symbol@));
                }
                r
            },
            Some(a) => {
                let idx = self.neighbor_indices(a);
                let ghost target = self.neighbor_syms(symbol@);
                let mut k: usize = 0;
                while k < idx.len()
                    invariant
                        k <= idx@.len(),
                        a < self.nodes().len(),
                        a == self.index_of(symbol@),
                        idx@ == neighbor_seq(self.edge_list(), a as int),
                        forall|j: int| 0 <= j < idx@.len() ==> #[trigger] idx@[j] < self.nodes().len(),
                        target == idx@.map_values(|j: usize| self.syms()[j as int]),
                        r@.map_values(|s: String| s@) == target.take(k as int),
                    decreases idx@.len() - k,
                {
                    let ghost prev = r@;
                    let s = self.node_symbol(idx[k]).clone();
                    r.push(s);
                    proof {
                        assert(r@.map_values(|s: String| s@) =~= prev.map_values(|s: String| s@).push(
                            target[k as int],
                        ));
                        assert(target.take(k + 1) =~= target.take(k as int).push(target[k as int]));
                    }
                    k = k + 1;
                }
                proof {
                    assert(target.take(k as int) =~= target);
                }
                r
            },
        }
    }

    /// With distinct symbols, position `p` neighbors position `q` exactly
    /// when an edge joins nodes `p` and `q`.
    proof fn lemma_distinct_kedge(&self, p: int, q: int)
        requires
            self.syms().no_duplicates(),
            self.keys() == self.syms(),
            forall|e: int|
                #![trigger self.edge_list()[e]]
                0 <= e < self.edge_list().len() ==> self.edge_list()[e].0 < self.nodes().len()
                    && self.edge_list()[e].1 < self.nodes().len(),
            0 <= p < self.syms().len(),
            0 <= q < self.syms().len(),
        ensures
            kedge(*self, p, q) == adjacent(self.edge_list(), p, q),
    {
        let syms = self.syms();
        let edges = self.edge_list();
        lemma_last_index(syms, syms[p]);
        let nb = neighbor_seq(edges, p);
        lemma_neighbor_seq(edges, p);
        let ns = self.neighbor_syms(syms[p]);
        assert(ns == nb.map_values(|j: usize| syms[j as int]));
        if ns.contains(syms[q]) {
            let t = choose|t: int| 0 <= t < ns.len() && ns[t] == syms[q];
            let x = nb[t];
            assert(nb.contains(x));
            assert(adjacent(edges, p, x as int));
            let e = choose|e: int|
                #![trigger edges[e]]
                0 <= e < edges.len() && ((edges[e].0 == p && edges[e].1 == x) || (edges[e].0 == x
                    && edges[e].1 == p));
            assert(x < syms.len());
            assert(syms[x as int] == syms[q]);
        }
        if adjacent(edges, p, q) {
            let qu = q as usize;
            assert(nb.contains(qu));
            let t = choose|t: int| 0 <= t < nb.len() && nb[t] == qu;
            assert(ns[t] == syms[q]);
        }
    }

    /// Whether no two nodes carry the same symbol.  Then every symbol
    /// names its own node, and links read the same either way.
    pub fn has_distinct_symbols(&self) -> (r: bool)
        ensures
            r == self.syms().no_duplicates(),
            r ==> mutual_links(*self),
    {
        proof {
            use_type_invariant(self);
        }
        let n = self.node_count();
        let mut i: usize = 0;
        while i < n
            invariant
                n == self.nodes().len(),
                i <= n,
                forall|a: int, b: int| 0 <= a < i && 0 <= b < n && a != b ==> self.syms()[a] != self.syms()[b],
            decreases n - i,
        {
            let mut j: usize = 0;
            while j < n
                invariant
                    n == self.nodes().len(),
                    i < n,
                    j <= n,
                    forall|a: int, b: int| 0 <= a < i && 0 <= b < n && a != b ==> self.syms()[a] != self.syms()[b],
                    forall|b: int| 0 <= b < j && i != b ==> self.syms()[i as int] != self.syms()[b],
                decreases n - j,
            {
                if j != i && str_eq(self.node_symbol(i).as_str(), self.node_symbol(j).as_str()) {
                    return false;
                }
                j = j + 1;
            }
            i = i + 1;
        }
        proof {
            let syms = self.syms();
            assert(syms.no_duplicates());
            lemma_distinct_keys(syms);
            assert forall|p: int, q: int|
                0 <= p < syms.len() && 0 <= q < syms.len() implies #[trigger] kedge(*self, p, q) == kedge(
                    *self,
                    q,
                    p,
                ) by {
                self.lemma_distinct_kedge(p, q);
                self.lemma_distinct_kedge(q, p);
            }
        }
        true
    }

    /// Check if an edge joins the nodes named `from` and `to`.
    pub fn has_edge(&self, from: &str, to: &str) -> (r: bool)
        ensures
            r == self.linked(from@, to@),
    {
        proof {
            self.lemma_keys();
        }
        match (self.lookup(from), self.lookup(to)) {
            (Some(a), Some(b)) => self.linked_idx(a, b),
            _ => false,
        }
    }

    /// The weight `edge_weight(from, to)` reports: that of the edge
    /// `find_edge` finds between the nodes the symbols name.
    pub open spec fn weight_between(&self, from: Seq<char>, to: Seq<char>) -> Option<u64> {
        if self.index_of(from) >= 0 && self.index_of(to) >= 0 {
            match found_edge(self.edge_list(), self.index_of(from), self.index_of(to)) {
                Some(e) => Some(self.edge_list()[e as int].2),
                None => None,
            }
        } else {
            None
        }
    }

    /// Get the weight of the edge between two nodes (IEEE-754 bits).
    pub fn edge_weight(&self, from: &str, to: &str) -> (r: Option<u64>)
        ensures
            r == self.weight_between(from@, to@),
    {
        proof {
            use_type_invariant(self);
            self.lemma_keys();
        }
        match (self.lookup(from), self.lookup(to)) {
            (Some(a), Some(b)) => {
                proof {
                    lemma_found_edge(self.edge_list(), a as int, b as int);
                }
                match store_find_edge(&self.graph, a, b) {
                    Some(e) => Some(store_edge_weight(&self.graph, e)),
                    None => None,
                }
            },
            _ => None,
        }
    }

    /// Get all edges as `(from, to, weight)` tuples, in edge index order.
    pub fn edges(&self) -> (r: Vec<(String, String, u64)>)
        ensures
            r@.len() == self.edge_list().len(),
            forall|i: int|
                #![trigger r@[i]]
                0 <= i < r@.len() ==> r@[i].0@ == self.syms()[self.edge_list()[i].0 as int]
                    && r@[i].1@ == self.syms()[self.edge_list()[i].1 as int] && r@[i].2
                    == self.edge_list()[i].2,
    {
        proof {
            use_type_invariant(self);
        }
        let mut r: Vec<(String, String, u64)> = Vec::new();
        let m = store_edge_count(&self.graph);
        let mut e: usize = 0;
        while e < m
            invariant
                m == self.edge_list().len(),
                m <= u32::MAX,
                e <= m,
                r@.len() == e,
                forall|i: int|
                    #![trigger self.edge_list()[i]]
                    0 <= i < self.edge_list().len() ==> self.edge_list()[i].0 < self.nodes().len()
                        && self.edge_list()[i].1 < self.nodes().len(),
                forall|i: int|
                    #![trigger r@[i]]
                    0 <= i < e ==> r@[i].0@ == self.syms()[self.edge_list()[i].0 as int]
                        && r@[i].1@ == self.syms()[self.edge_list()[i].1 as int] && r@[i].2
                        == self.edge_list()[i].2,
            decreases m - e,
        {
            let (a, b) = store_edge_endpoints(&self.graph, e);
            let w = store_edge_weight(&self.graph, e);
            proof {
                assert(self.edge_list()[e as int] == self.edge_list()[e as int]);
            }
            let from = self.node_symbol(a).clone();
            let to = self.node_symbol(b).clone();
            r.push((from, to, w));
            e = e + 1;
        }
        r
    }

    /// The graph type.
    pub fn graph_type(&self) -> (t: GraphType)
        ensures
            t == self.spec_graph_type(),
    {
        self.graph_type
    }

    /// Timestamp of graph construction.
    pub fn timestamp(&self) -> (t: i64)
        ensures
            t == self.spec_timestamp(),
    {
        self.timestamp
    }

    /// Number of time periods used to build the graph.
    pub fn window_size(&self) -> (w: usize)
        ensures
            w == self.spec_window_size(),
    {
        self.window_size
    }

    /// Correlation/weight threshold used (IEEE-754 bits).
    pub fn threshold(&self) -> (t: u64)
        ensures
            t == self.spec_threshold(),
    {
        self.threshold
    }

    /// Record the window size used to build the graph.
    pub fn set_window_size(&mut self, window_size: usize)
        ensures
            final(self).spec_window_size() == window_size,
            final(self).nodes() == old(self).nodes(),
            final(self).edge_list() == old(self).edge_list(),
            final(self).spec_graph_type() == old(self).spec_graph_type(),
            final(self).spec_threshold() == old(self).spec_threshold(),
            final(self).spec_timestamp() == old(self).spec_timestamp(),
    {
        proof {
            use_type_invariant(&*self);
        }
        self.window_size = window_size;
    }

    /// Record the threshold used to build the graph (IEEE-754 bits).
    pub fn set_threshold(&mut self, threshold: u64)
        ensures
            final(self).spec_threshold() == threshold,
            final(self).nodes() == old(self).nodes(),
            final(self).edge_list() == old(self).edge_list(),
            final(self).spec_graph_type() == old(self).spec_graph_type(),
            final(self).spec_window_size() == old(self).spec_window_size(),
            final(self).spec_timestamp() == old(self).spec_timestamp(),
    {
        proof {
            use_type_invariant(&*self);
        }
        self.threshold = threshold;
    }

    /// Number of nodes
    pub fn node_count(&self) -> (n: usize)
        ensures
            n == self.nodes().len(),
    {
        store_node_count(&self.graph)
    }

    /// Number of edges
    pub fn edge_count(&self) -> (n: usize)
        ensures
            n == self.edge_list().len(),
    {
        store_edge_count(&self.graph)
    }
}

impl Clone for FinancialGraph {
    /// A copy with the same nodes, edges, symbol index and settings.
    fn clone(&self) -> (res: Self)
        ensures
            res.nodes().len() == self.nodes().len(),
            forall|i: int|
                0 <= i < self.nodes().len() ==> same_node(#[trigger] res.nodes()[i], self.nodes()[i]),
            res.syms() == self.syms(),
            res.edge_list() == self.edge_list(),
            res.spec_graph_type() == self.spec_graph_type(),
            res.spec_window_size() == self.spec_window_size(),
            res.spec_threshold() == self.spec_threshold(),
            res.spec_timestamp() == self.spec_timestamp(),
    {
        proof {
            use_type_invariant(self);
        }
        let mut res = FinancialGraph::new(self.graph_type);
        proof {
            use_type_invariant(&res);
        }
        res.timestamp = self.timestamp;
        res.set_window_size(self.window_size);
        res.set_threshold(self.threshold);
        let n = store_node_count(&self.graph);
        let mut i: usize = 0;
        while i < n
            invariant
                n == self.nodes().len(),
                n <= u32::MAX,
                i <= n,
                res.nodes().len() == i,
                forall|j: int| 0 <= j < i ==> same_node(#[trigger] res.nodes()[j], self.nodes()[j]),
                res.edge_list() == Seq::<(usize, usize, u64)>::empty(),
                res.spec_graph_type() == self.spec_graph_type(),
                res.spec_window_size() == self.spec_window_size(),
                res.spec_threshold() == self.spec_threshold(),
                res.spec_timestamp() == self.spec_timestamp(),
            decreases n - i,
        {
            let node = store_node(&self.graph, i).clone();
            res.add_node(node);
            i = i + 1;
        }
        proof {
            assert(res.syms() =~= self.syms());
        }
        let m = store_edge_count(&self.graph);
        let mut e: usize = 0;
        while e < m
            invariant
                m == self.edge_list().len(),
                m <= u32::MAX,
                e <= m,
                res.nodes().len() == n,
                n == self.nodes().len(),
                forall|j: int| 0 <= j < n ==> same_node(#[trigger] res.nodes()[j], self.nodes()[j]),
                res.syms() == self.syms(),
                forall|j: int|
                    #![trigger self.edge_list()[j]]
                    0 <= j < self.edge_list().len() ==> self.edge_list()[j].0 < self.nodes().len()
                        && self.edge_list()[j].1 < self.nodes().len(),
                res.edge_list() == self.edge_list().take(e as int),
                res.spec_graph_type() == self.spec_graph_type(),
                res.spec_window_size() == self.spec_window_size(),
                res.spec_threshold() == self.spec_threshold(),
                res.spec_timestamp() == self.spec_timestamp(),
            decreases m - e,
        {
            let (a, b) = store_edge_endpoints(&self.graph, e);
            let w = store_edge_weight(&self.graph, e);
            proof {
                assert(self.edge_list()[e as int] == self.edge_list()[e as int]);
            }
            res.add_edge_idx(a, b, w);
            proof {
                assert(self.edge_list().take(e + 1) =~= self.edge_list().take(e as int).push(
                    self.edge_list()[e as int],
                ));
            }
            e = e + 1;
        }
        proof {
            assert(self.edge_list().take(m as int) =~= self.edge_list());
        }
        res
    }
}

impl Default for FinancialGraph {
    /// An empty correlation graph.
    fn default() -> (g: Self)
        ensures
            g.nodes() == Seq::<Node>::empty(),
            g.edge_list() == Seq::<(usize, usize, u64)>::empty(),
            g.spec_graph_type() == GraphType::Correlation,
    {
        Self::new(GraphType::Correlation)
    }
}

} // verus!
