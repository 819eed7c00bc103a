//! Pattern representation for subgraph mining: pattern kinds, abstract
//! nodes and edges, gSpan DFS codes, and the stock shapes (triangle, star,
//! chain, clique).

use std::collections::HashMap;
use vstd::prelude::*;

use crate::canonical::{canonical, search_codes};
use crate::text::{decimal, numbered, owned};

verus! {

/// Type of pattern structure.
#[derive(Debug, Clone, Copy, PartialEq, Eq, Hash, Structural)]
pub enum PatternType {
    /// Single edge (2 nodes)
    Edge,
    /// Triangle (3 nodes, all connected)
    Triangle,
    /// Star pattern (1 hub, multiple spokes)
    Star,
    /// Linear chain
    Chain,
    /// Clique (fully connected)
    Clique,
    /// General subgraph
    General,
}

/// The lower-case name of a pattern type.
pub open spec fn kind_name(t: PatternType) -> Seq<char> {
    match t {
        PatternType::Edge => "edge"@,
        PatternType::Triangle => "triangle"@,
        PatternType::Star => "star"@,
        PatternType::Chain => "chain"@,
        PatternType::Clique => "clique"@,
        PatternType::General => "general"@,
    }
}

/// The pattern types whose presence is read as bullish.
pub open spec fn bullish_type(t: PatternType) -> bool {
    t is Triangle || t is Clique
}

impl PatternType {
    /// Get pattern type name
    pub fn name(&self) -> (r: &'static str)
        ensures
            r@ == kind_name(*self),
    {
        match self {
            PatternType::Edge => "edge",
            PatternType::Triangle => "triangle",
            PatternType::Star => "star",
            PatternType::Chain => "chain",
            PatternType::Clique => "clique",
            PatternType::General => "general",
        }
    }

    /// Check if pattern is bullish
    pub fn is_bullish_signal(&self) -> (r: bool)
        ensures
            r == bullish_type(*self),
    {
        match self {
            PatternType::Triangle | PatternType::Clique => true,
            _ => false,
        }
    }
}

/// Node in a pattern (abstract, not tied to specific symbol).
#[derive(Debug, Clone)]
pub struct PatternNode {
    /// Node ID within pattern
    pub id: usize,
    /// Label (optional, for typed patterns)
    pub label: Option<String>,
}

impl PatternNode {
    pub fn new(id: usize) -> (n: Self)
        ensures
            n.id == id,
            n.label is None,
    {
        PatternNode { id, label: None }
    }

    pub fn with_label(self, label: &str) -> (n: Self)
        ensures
            n.id == self.id,
            n.label is Some,
            n.label->0@ == label@,
    {
        PatternNode { label: Some(owned(label)), ..self }
    }
}

/// Edge in a pattern.
#[derive(Debug, Clone)]
pub struct PatternEdge {
    /// Source node ID
    pub from: usize,
    /// Target node ID
    pub to: usize,
    /// Edge label/weight constraint (optional)
    pub label: Option<String>,
    /// Minimum weight threshold (IEEE-754 bits)
    pub min_weight: Option<u64>,
}

impl PatternEdge {
    pub fn new(from: usize, to: usize) -> (e: Self)
        ensures
            e.from == from,
            e.to == to,
            e.label is None,
            e.min_weight is None,
    {
        PatternEdge { from, to, label: None, min_weight: None }
    }

    pub fn with_min_weight(self, weight: u64) -> (e: Self)
        ensures
            e.from == self.from,
            e.to == self.to,
            e.label == self.label,
            e.min_weight == Some(weight),
    {
        PatternEdge { min_weight: Some(weight), ..self }
    }
}

/// One DFS-code entry: `(from, to, from_label, edge_label, to_label)`.
pub type DfsEntry = (usize, usize, i32, i32, i32);

/// DFS code for canonical pattern representation (gSpan).
#[derive(Debug, Clone, PartialEq, Eq, Hash)]
pub struct DFSCode {
    /// List of edges in DFS order
    pub edges: Vec<(usize, usize, i32, i32, i32)>,
}

/// The rightmost path read backwards.  Scanning the entries from the last
/// to the first and looking only at forward entries (`from < to`): the
/// first one met gives the rightmost vertex (its `to`) and the vertex it
/// was reached from; after that, each forward entry that reaches the
/// current vertex moves the walk to the vertex it came from.  Backward
/// entries are never part of the path.
pub open spec fn forward_walk(edges: Seq<DfsEntry>, cur: Option<usize>) -> Seq<usize>
    decreases edges.len(),
{
    if edges.len() == 0 {
        Seq::empty()
    } else {
        let e = edges.last();
        let rest = edges.drop_last();
        if e.0 < e.1 {
            match cur {
                None => seq![e.1, e.0] + forward_walk(rest, Some(e.0)),
                Some(c) => if e.1 == c {
                    seq![e.0] + forward_walk(rest, Some(e.0))
                } else {
                    forward_walk(rest, cur)
                },
            }
        } else {
            forward_walk(rest, cur)
        }
    }
}

/// The rightmost path of a DFS code: the vertices from the root to the
/// rightmost vertex along forward entries; empty when there is no
/// forward entry.
pub open spec fn rightmost_path_of(edges: Seq<DfsEntry>) -> Seq<usize> {
    forward_walk(edges, None).reverse()
}

impl DFSCode {
    pub fn new() -> (c: Self)
        ensures
            c.edges@ == Seq::<DfsEntry>::empty(),
    {
        DFSCode { edges: Vec::new() }
    }

    /// Add edge to DFS code
    pub fn add_edge(&mut self, from: usize, to: usize, from_label: i32, edge_label: i32, to_label: i32)
        ensures
            final(self).edges@ == old(self).edges@.push((from, to, from_label, edge_label, to_label)),
    {
        self.edges.push((from, to, from_label, edge_label, to_label));
    }

    /// A copy of the code.
    pub fn copy(&self) -> (c: Self)
        ensures
            c.edges@ == self.edges@,
    {
        let mut edges: Vec<DfsEntry> = Vec::new();
        let mut i: usize = 0;
        while i < self.edges.len()
            invariant
                i <= self.edges@.len(),
                edges@ == self.edges@.take(i as int),
            decreases self.edges@.len() - i,
        {
            edges.push(self.edges[i]);
            proof {
                assert(self.edges@.take(i + 1) =~= self.edges@.take(i as int).push(self.edges@[i as int]));
            }
            i = i + 1;
        }
        proof {
            assert(self.edges@.take(i as int) =~= self.edges@);
        }
        DFSCode { edges }
    }

    /// Check if this code is minimum (canonical): it is not empty, it is
    /// one of the DFS codes of the graph it describes, and no DFS code of
    /// that graph comes before it in gSpan's order.  The DFS codes are
    /// searched exhaustively.
    pub fn is_minimum(&self) -> (r: bool)
        ensures
            r == canonical(self.edges@),
    {
        if self.edges.len() == 0 {
            return false;
        }
        let (own, smaller) = search_codes(&self.edges);
        own && !smaller
    }

    /// Get rightmost path for extension: the vertices from the root to
    /// the rightmost vertex, along forward entries only.
    pub fn rightmost_path(&self) -> (path: Vec<usize>)
        ensures
            path@ == rightmost_path_of(self.edges@),
    {
        let n = self.edges.len();
        let ghost edges = self.edges@;
        let mut rev: Vec<usize> = Vec::new();
        let mut cur: Option<usize> = None;
        let mut k = n;
        proof {
            assert(edges.take(n as int) =~= edges);
        }
        while k > 0
            invariant
                n == edges.len(),
                edges == self.edges@,
                k <= n,
                rev@ + forward_walk(edges.take(k as int), cur) == forward_walk(edges, None),
            decreases k,
        {
            let ghost pre = edges.take(k as int);
            let e = self.edges[k - 1];
            proof {
                assert(pre.last() == e);
                assert(pre.drop_last() =~= edges.take(k - 1));
            }
            if e.0 < e.1 {
                match cur {
                    None => {
                        let ghost r0 = rev@;
                        rev.push(e.1);
                        rev.push(e.0);
                        proof {
                            assert(rev@ =~= r0 + seq![e.1, e.0]);
                            assert(r0 + (seq![e.1, e.0] + forward_walk(edges.take(k - 1), Some(e.0)))
                                =~= rev@ + forward_walk(edges.take(k - 1), Some(e.0)));
                        }
                        cur = Some(e.0);
                    },
                    Some(c) => {
                        if e.1 == c {
                            let ghost r0 = rev@;
                            rev.push(e.0);
                            proof {
                                assert(r0 + (seq![e.0] + forward_walk(edges.take(k - 1), Some(e.0)))
                                    =~= rev@ + forward_walk(edges.take(k - 1), Some(e.0)));
                            }
                            cur = Some(e.0);
                        }
                    },
                }
            }
            k = k - 1;
        }
        proof {
            assert(edges.take(0) =~= Seq::<DfsEntry>::empty());
            assert(rev@ =~= forward_walk(edges, None));
        }
        let mut path: Vec<usize> = Vec::new();
        let mut j = rev.len();
        while j > 0
            invariant
                j <= rev@.len(),
                path@ == rev@.subrange(j as int, rev@.len() as int).reverse(),
            decreases j,
        {
            path.push(rev[j - 1]);
            j = j - 1;
            proof {
                assert(path@ =~= rev@.subrange(j as int, rev@.len() as int).reverse());
            }
        }
        proof {
            assert(rev@.subrange(0, rev@.len() as int) =~= rev@);
        }
        path
    }
}

impl Default for DFSCode {
    fn default() -> (c: Self)
        ensures
            c.edges@ == Seq::<DfsEntry>::empty(),
    {
        Self::new()
    }
}

/// The hashes of a batch of DFS codes, list by list: each code is fed to
/// a fresh `std::collections::hash_map::DefaultHasher::new()` and the
/// hasher's `finish` is taken.  `std` documents that every hasher made by
/// `DefaultHasher::new` is the same within a run, so codes with equal
/// entries get equal hashes; nothing else is promised of the values.
#[verifier::external_body]
pub(crate) fn code_hashes(codes: &Vec<Vec<DFSCode>>) -> (hs: Vec<Vec<u64>>)
    ensures
        hs@.len() == codes@.len(),
        forall|i: int| 0 <= i < codes@.len() ==> #[trigger] hs@[i]@.len() == codes@[i]@.len(),
        forall|i1: int, j1: int, i2: int, j2: int|
            #![trigger hs@[i1]@[j1], hs@[i2]@[j2]]
            0 <= i1 < codes@.len() && 0 <= j1 < codes@[i1]@.len() && 0 <= i2 < codes@.len() && 0 <= j2
                < codes@[i2]@.len() && codes@[i1]@[j1].edges@ == codes@[i2]@[j2].edges@ ==> hs@[i1]@[j1]
                == hs@[i2]@[j2],
{
    let mut hs = Vec::new();
    for list in codes.iter() {
        let mut row = Vec::new();
        for code in list.iter() {
            let mut hasher = std::collections::hash_map::DefaultHasher::new();
            std::hash::Hash::hash(code, &mut hasher);
            row.push(std::hash::Hasher::finish(&hasher));
        }
        hs.push(row);
    }
    hs
}

/// Trading signal derived from pattern.
#[derive(Debug, Clone, Copy, PartialEq, Eq, Structural)]
pub enum PatternSignal {
    Bullish,
    Bearish,
    Neutral,
}

/// A mined subgraph pattern.
#[derive(Debug, Clone)]
pub struct Pattern {
    /// Unique pattern identifier
    pub id: String,
    /// Pattern type classification
    pub pattern_type: PatternType,
    /// Nodes in the pattern
    pub nodes: Vec<PatternNode>,
    /// Edges in the pattern
    pub edges: Vec<PatternEdge>,
    /// Canonical DFS code
    pub dfs_code: DFSCode,
    /// Support count (frequency)
    pub support: usize,
    /// Average weight of edges when matched (IEEE-754 bits)
    pub avg_weight: u64,
    /// Metadata
    pub metadata: HashMap<String, String>,
}

/// The `(from, to)` pairs of a pattern's edges, in order.
pub open spec fn edge_pairs(edges: Seq<PatternEdge>) -> Seq<(usize, usize)> {
    edges.map_values(|e: PatternEdge| (e.from, e.to))
}

/// Nodes `0..n`, each unlabelled.
pub open spec fn plain_nodes(nodes: Seq<PatternNode>, n: nat) -> bool {
    &&& nodes.len() == n
    &&& forall|i: int| 0 <= i < n ==> #[trigger] nodes[i].id == i && nodes[i].label is None
}

/// Edges without label or weight constraint.
pub open spec fn plain_edges(edges: Seq<PatternEdge>) -> bool {
    forall|i: int| 0 <= i < edges.len() ==> #[trigger] edges[i].label is None && edges[i].min_weight is None
}

/// Where row `i` of the lexicographically ordered pairs `(i, j)`,
/// `i < j < n`, begins: the number of pairs whose first node is below `i`.
pub open spec fn row_start(i: nat, n: nat) -> nat
    decreases i,
{
    if i == 0 {
        0
    } else {
        row_start((i - 1) as nat, n) + (n - i) as nat
    }
}

/// Position of the pair `(i, j)` among the lexicographically ordered pairs
/// below `n`.
pub open spec fn pair_pos(i: int, j: int, n: nat) -> int {
    row_start(i as nat, n) + (j - i - 1)
}

/// Closed form of `row_start`.
pub proof fn lemma_row_start(i: nat, n: nat)
    requires
        i <= n,
    ensures
        2 * row_start(i, n) == (i as int) * (2 * (n as int) - (i as int) - 1),
    decreases i,
{
    if i > 0 {
        lemma_row_start((i - 1) as nat, n);
        let a = row_start((i - 1) as nat, n) as int;
        let b = row_start(i, n) as int;
        let ii = i as int;
        let nn = n as int;
        assert(b == a + (nn - ii));
        assert(2 * b == ii * (2 * nn - ii - 1)) by (nonlinear_arith)
            requires
                2 * a == (ii - 1) * (2 * nn - (ii - 1) - 1),
                b == a + (nn - ii),
        ;
    } else {
        assert((i as int) * (2 * (n as int) - (i as int) - 1) == 0) by (nonlinear_arith)
            requires
                i == 0,
        ;
    }
}

/// An empty pattern with the given id and type.
pub open spec fn fresh(p: Pattern, id: Seq<char>, t: PatternType) -> bool {
    &&& p.id@ == id
    &&& p.pattern_type == t
    &&& p.dfs_code.edges@ == Seq::<DfsEntry>::empty()
    &&& p.support == 0
    &&& p.avg_weight == 0
    &&& p.metadata@ == Map::<String, String>::empty()
}

impl Pattern {
    /// Create a new pattern
    pub fn new(id: &str, pattern_type: PatternType) -> (p: Self)
        ensures
            fresh(p, id@, pattern_type),
            p.nodes@ == Seq::<PatternNode>::empty(),
            p.edges@ == Seq::<PatternEdge>::empty(),
    {
        Pattern {
            id: owned(id),
            pattern_type,
            nodes: Vec::new(),
            edges: Vec::new(),
            dfs_code: DFSCode::new(),
            support: 0,
            avg_weight: 0,
            metadata: HashMap::new(),
        }
    }

    /// Create a triangle pattern
    pub fn triangle() -> (p: Self)
        ensures
            fresh(p, "triangle"@, PatternType::Triangle),
            plain_nodes(p.nodes@, 3),
            plain_edges(p.edges@),
            edge_pairs(p.edges@) == seq![(0usize, 1usize), (1usize, 2usize), (0usize, 2usize)],
    {
        let mut pattern = Self::new("triangle", PatternType::Triangle);
        pattern.nodes = vec![PatternNode::new(0), PatternNode::new(1), PatternNode::new(2)];
        pattern.edges = vec![PatternEdge::new(0, 1), PatternEdge::new(1, 2), PatternEdge::new(0, 2)];
        proof {
            assert(edge_pairs(pattern.edges@) =~= seq![(0usize, 1usize), (1usize, 2usize), (0usize, 2usize)]);
        }
        pattern
    }

    /// Create a star pattern with specified number of spokes: hub 0 joined
    /// to spokes `1..=num_spokes`.
    pub fn star(num_spokes: usize) -> (p: Self)
        requires
            num_spokes < usize::MAX,
        ensures
            fresh(p, "star"@ + "_"@ + decimal(num_spokes as nat), PatternType::Star),
            plain_nodes(p.nodes@, (num_spokes + 1) as nat),
            plain_edges(p.edges@),
            edge_pairs(p.edges@) == Seq::new(num_spokes as nat, |k: int| (0usize, (k + 1) as usize)),
    {
        let id = numbered("star", num_spokes);
        let mut pattern = Self::new(id.as_str(), PatternType::Star);
        pattern.nodes.push(PatternNode::new(0));
        let mut i: usize = 1;
        while i <= num_spokes
            invariant
                1 <= i <= num_spokes + 1,
                num_spokes < usize::MAX,
                fresh(pattern, "star"@ + "_"@ + decimal(num_spokes as nat), PatternType::Star),
                plain_nodes(pattern.nodes@, i as nat),
                plain_edges(pattern.edges@),
                edge_pairs(pattern.edges@) == Seq::new((i - 1) as nat, |k: int| (0usize, (k + 1) as usize)),
            decreases num_spokes + 1 - i,
        {
            pattern.nodes.push(PatternNode::new(i));
            let ghost old_edges = pattern.edges@;
            pattern.edges.push(PatternEdge::new(0, i));
            proof {
                assert(edge_pairs(pattern.edges@) =~= edge_pairs(old_edges).push((0usize, i)));
                assert(edge_pairs(pattern.edges@) =~= Seq::new(i as nat, |k: int| (0usize, (k + 1) as usize)));
            }
            i = i + 1;
        }
        pattern
    }

    /// Create a chain pattern of specified length: nodes `0..length`, each
    /// joined to the next.
    pub fn chain(length: usize) -> (p: Self)
        ensures
            fresh(p, "chain"@ + "_"@ + decimal(length as nat), PatternType::Chain),
            plain_nodes(p.nodes@, length as nat),
            plain_edges(p.edges@),
            edge_pairs(p.edges@) == Seq::new(
                if length == 0 { 0nat } else { (length - 1) as nat },
                |k: int| (k as usize, (k + 1) as usize),
            ),
    {
        let id = numbered("chain", length);
        let mut pattern = Self::new(id.as_str(), PatternType::Chain);
        let mut i: usize = 0;
        while i < length
            invariant
                i <= length,
                fresh(pattern, "chain"@ + "_"@ + decimal(length as nat), PatternType::Chain),
                plain_nodes(pattern.nodes@, i as nat),
                plain_edges(pattern.edges@),
                edge_pairs(pattern.edges@) == Seq::new(
                    if i == 0 { 0nat } else { (i - 1) as nat },
                    |k: int| (k as usize, (k + 1) as usize),
                ),
            decreases length - i,
        {
            pattern.nodes.push(PatternNode::new(i));
            let ghost old_edges = pattern.edges@;
            if i > 0 {
                pattern.edges.push(PatternEdge::new(i - 1, i));
                proof {
                    assert(edge_pairs(pattern.edges@) =~= edge_pairs(old_edges).push(((i - 1) as usize, i)));
                }
            }
            proof {
                assert(edge_pairs(pattern.edges@) =~= Seq::new(
                    i as nat,
                    |k: int| (k as usize, (k + 1) as usize),
                ));
            }
            i = i + 1;
        }
        pattern
    }

    /// Create a clique pattern of specified size: nodes `0..size`, and one
    /// edge for each pair `i < j`, in lexicographic order of the pairs.
    pub fn clique(size: usize) -> (p: Self)
        ensures
            fresh(p, "clique"@ + "_"@ + decimal(size as nat), PatternType::Clique),
            plain_nodes(p.nodes@, size as nat),
            plain_edges(p.edges@),
            2 * p.edges@.len() == size * (size - 1),
            forall|i: int, j: int|
                0 <= i < j < size ==> #[trigger] edge_pairs(p.edges@)[pair_pos(i, j, size as nat)]
                    == (i as usize, j as usize),
    {
        let id = numbered("clique", size);
        let mut pattern = Self::new(id.as_str(), PatternType::Clique);
        let mut i: usize = 0;
        while i < size
            invariant
                i <= size,
                fresh(pattern, "clique"@ + "_"@ + decimal(size as nat), PatternType::Clique),
                plain_nodes(pattern.nodes@, i as nat),
                pattern.edges@ == Seq::<PatternEdge>::empty(),
            decreases size - i,
        {
            pattern.nodes.push(PatternNode::new(i));
            i = i + 1;
        }
        let ghost n = size as nat;
        let mut i: usize = 0;
        while i < size
            invariant
                i <= size,
                n == size,
                fresh(pattern, "clique"@ + "_"@ + decimal(size as nat), PatternType::Clique),
                plain_nodes(pattern.nodes@, n),
                plain_edges(pattern.edges@),
                pattern.edges@.len() == row_start(i as nat, n),
                forall|r: int, j: int|
                    0 <= r < i && r < j < size ==> #[trigger] edge_pairs(pattern.edges@)[pair_pos(r, j, n)]
                        == (r as usize, j as usize),
            decreases size - i,
        {
            let mut j: usize = i + 1;
            proof {
                lemma_row_start(i as nat, n);
            }
            while j < size
                invariant
                    i < size,
                    i + 1 <= j <= size,
                    n == size,
                    fresh(pattern, "clique"@ + "_"@ + decimal(size as nat), PatternType::Clique),
                    plain_nodes(pattern.nodes@, n),
                    plain_edges(pattern.edges@),
                    pattern.edges@.len() == row_start(i as nat, n) + (j - i - 1),
                    forall|r: int, k: int|
                        0 <= r < i && r < k < size ==> #[trigger] edge_pairs(pattern.edges@)[pair_pos(r, k, n)]
                            == (r as usize, k as usize),
                    forall|k: int|
                        i < k < j ==> #[trigger] edge_pairs(pattern.edges@)[pair_pos(i as int, k, n)]
                            == (i, k as usize),
                decreases size - j,
            {
                let ghost old_edges = pattern.edges@;
                pattern.edges.push(PatternEdge::new(i, j));
                proof {
                    assert(edge_pairs(pattern.edges@) =~= edge_pairs(old_edges).push((i, j)));
                    assert forall|r: int, k: int|
                        0 <= r < i && r < k < size implies #[trigger] edge_pairs(pattern.edges@)[pair_pos(r, k, n)]
                            == (r as usize, k as usize) by {
                        lemma_row_start_mono(r as nat, i as nat, n);
                        assert(pair_pos(r, k, n) < old_edges.len());
                    }
                }
                j = j + 1;
            }
            i = i + 1;
        }
        proof {
            lemma_row_start(n, n);
            assert(2 * pattern.edges@.len() == size * (size - 1)) by (nonlinear_arith)
                requires
                    2 * pattern.edges@.len() == (n as int) * (2 * (n as int) - (n as int) - 1),
                    n == size,
            ;
        }
        pattern
    }

    /// Number of nodes in pattern
    pub fn node_count(&self) -> (n: usize)
        ensures
            n == self.nodes@.len(),
    {
        self.nodes.len()
    }

    /// Number of edges in pattern
    pub fn edge_count(&self) -> (n: usize)
        ensures
            n == self.edges@.len(),
    {
        self.edges.len()
    }

    /// Add a node to the pattern
    pub fn add_node(&mut self, node: PatternNode)
        ensures
            final(self).nodes@ == old(self).nodes@.push(node),
            final(self).edges@ == old(self).edges@,
            final(self).pattern_type == old(self).pattern_type,
            final(self).support == old(self).support,
    {
        self.nodes.push(node);
    }

    /// Add an edge to the pattern
    pub fn add_edge(&mut self, edge: PatternEdge)
        ensures
            final(self).edges@ == old(self).edges@.push(edge),
            final(self).nodes@ == old(self).nodes@,
            final(self).pattern_type == old(self).pattern_type,
            final(self).support == old(self).support,
    {
        self.edges.push(edge);
    }

    /// Set support count
    pub fn with_support(self, support: usize) -> (p: Self)
        ensures
            p == (Pattern { support, ..self }),
    {
        Pattern { support, ..self }
    }

    /// Hash of the pattern's DFS code under `std`'s `DefaultHasher`.
    /// Nothing is promised of the value itself: the hasher's algorithm is
    /// unspecified and the bytes it is fed depend on the platform.
    pub fn compute_hash(&self) -> u64 {
        let mut one: Vec<DFSCode> = Vec::new();
        one.push(self.dfs_code.copy());
        let mut batch: Vec<Vec<DFSCode>> = Vec::new();
        batch.push(one);
        let hs = code_hashes(&batch);
        hs[0][0]
    }

    /// Get trading signal interpretation
    pub fn trading_signal(&self) -> (s: PatternSignal)
        ensures
            s == signal_of(self.pattern_type),
    {
        match self.pattern_type {
            PatternType::Triangle => PatternSignal::Bullish,
            PatternType::Clique => PatternSignal::Bullish,
            PatternType::Star => PatternSignal::Neutral,
            PatternType::Chain => PatternSignal::Neutral,
            PatternType::Edge => PatternSignal::Neutral,
            PatternType::General => PatternSignal::Neutral,
        }
    }
}

/// The signal a pattern of type `t` gives.
pub open spec fn signal_of(t: PatternType) -> PatternSignal {
    match t {
        PatternType::Triangle | PatternType::Clique => PatternSignal::Bullish,
        _ => PatternSignal::Neutral,
    }
}

/// A pattern reads as a bullish signal exactly when its type is bullish,
/// and no pattern reads as bearish.
pub proof fn law_signal_matches_type(t: PatternType)
    ensures
        (signal_of(t) == PatternSignal::Bullish) == bullish_type(t),
        signal_of(t) != PatternSignal::Bearish,
{
}

/// Later rows begin after earlier rows end.
pub proof fn lemma_row_start_mono(r: nat, i: nat, n: nat)
    requires
        r < i <= n,
    ensures
        row_start(r, n) + (n - r - 1) <= row_start(i, n),
    decreases i,
{
    if r + 1 < i {
        lemma_row_start_mono(r, (i - 1) as nat, n);
    }
}

} // verus!
