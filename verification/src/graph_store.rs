//! The undirected graph storage of `petgraph`, as the library sees it: a
//! sequence of node weights and a sequence of edges `(source, target,
//! weight)` in the order they were added.

use petgraph::graph::{EdgeIndex, Graph, NodeIndex, UnGraph};
use petgraph::{Directed, Undirected};
use vstd::prelude::*;

use crate::types::Node;

verus! {

#[verifier::external_type_specification]
#[verifier::external_body]
#[verifier::reject_recursive_types(N)]
#[verifier::reject_recursive_types(E)]
#[verifier::reject_recursive_types(Ty)]
#[verifier::reject_recursive_types(Ix)]
pub struct ExGraph<N, E, Ty, Ix>(Graph<N, E, Ty, Ix>);

#[verifier::external_type_specification]
#[verifier::external_body]
pub struct ExUndirected(Undirected);

#[verifier::external_type_specification]
#[verifier::external_body]
pub struct ExDirected(Directed);

/// The node weights held by an undirected graph, indexed by node index.
pub uninterp spec fn graph_nodes(g: UnGraph<Node, u64>) -> Seq<Node>;

/// The edges held by an undirected graph, indexed by edge index: source
/// node, target node and weight, in the order in which they were added.
pub uninterp spec fn graph_edges(g: UnGraph<Node, u64>) -> Seq<(usize, usize, u64)>;

/// Targets of the edges leaving `a`, most recently added first.
pub open spec fn out_nbrs(edges: Seq<(usize, usize, u64)>, a: int) -> Seq<usize>
    decreases edges.len(),
{
    if edges.len() == 0 {
        Seq::empty()
    } else {
        let e = edges.last();
        let rest = out_nbrs(edges.drop_last(), a);
        if e.0 == a {
            seq![e.1] + rest
        } else {
            rest
        }
    }
}

/// Sources of the edges entering `a` that are not self-loops, most recently
/// added first.
pub open spec fn in_nbrs(edges: Seq<(usize, usize, u64)>, a: int) -> Seq<usize>
    decreases edges.len(),
{
    if edges.len() == 0 {
        Seq::empty()
    } else {
        let e = edges.last();
        let rest = in_nbrs(edges.drop_last(), a);
        if e.1 == a && e.0 != a {
            seq![e.0] + rest
        } else {
            rest
        }
    }
}

/// The neighbors of `a` in the order `petgraph` walks them in an undirected
/// graph: first the outgoing edge list, then the incoming one.
pub open spec fn neighbor_seq(edges: Seq<(usize, usize, u64)>, a: int) -> Seq<usize> {
    out_nbrs(edges, a) + in_nbrs(edges, a)
}

/// Index of the most recently added edge from `a` to `b`, or -1.
pub open spec fn last_edge(edges: Seq<(usize, usize, u64)>, a: int, b: int) -> int
    decreases edges.len(),
{
    if edges.len() == 0 {
        -1
    } else if edges.last().0 == a && edges.last().1 == b {
        edges.len() - 1
    } else {
        last_edge(edges.drop_last(), a, b)
    }
}

/// The edge that an undirected `find_edge(a, b)` reports: the latest edge
/// stored as `a -> b`, else the latest stored as `b -> a`.
pub open spec fn found_edge(edges: Seq<(usize, usize, u64)>, a: int, b: int) -> Option<usize> {
    if last_edge(edges, a, b) >= 0 {
        Some(last_edge(edges, a, b) as usize)
    } else if last_edge(edges, b, a) >= 0 {
        Some(last_edge(edges, b, a) as usize)
    } else {
        None
    }
}

/// `a` and `b` are joined by an edge, in either direction.
pub open spec fn adjacent(edges: Seq<(usize, usize, u64)>, a: int, b: int) -> bool {
    exists|e: int|
        #![trigger edges[e]]
        0 <= e < edges.len() && ((edges[e].0 == a && edges[e].1 == b) || (edges[e].0 == b
            && edges[e].1 == a))
}

/// `last_edge` finds an edge from `a` to `b`, the latest one, exactly when there is one.
pub proof fn lemma_last_edge(edges: Seq<(usize, usize, u64)>, a: int, b: int)
    ensures
        -1 <= last_edge(edges, a, b) < edges.len(),
        last_edge(edges, a, b) >= 0 ==> edges[last_edge(edges, a, b)].0 == a && edges[last_edge(
            edges,
            a,
            b,
        )].1 == b,
        last_edge(edges, a, b) < 0 ==> forall|e: int|
            #![trigger edges[e]]
            0 <= e < edges.len() ==> !(edges[e].0 == a && edges[e].1 == b),
    decreases edges.len(),
{
    if edges.len() > 0 {
        lemma_last_edge(edges.drop_last(), a, b);
        assert forall|e: int| 0 <= e < edges.len() - 1 implies edges.drop_last()[e] == edges[e] by {}
    }
}

/// `find_edge` finds an edge exactly when the two nodes are adjacent, and
/// what it finds joins them.
pub proof fn lemma_found_edge(edges: Seq<(usize, usize, u64)>, a: int, b: int)
    requires
        edges.len() <= u32::MAX,
    ensures
        found_edge(edges, a, b) is Some <==> adjacent(edges, a, b),
        found_edge(edges, a, b) is Some ==> {
            let e = found_edge(edges, a, b)->0 as int;
            &&& 0 <= e < edges.len()
            &&& ((edges[e].0 == a && edges[e].1 == b) || (edges[e].0 == b && edges[e].1 == a))
        },
{
    lemma_last_edge(edges, a, b);
    lemma_last_edge(edges, b, a);
    if adjacent(edges, a, b) {
        let e = choose|e: int|
            #![trigger edges[e]]
            0 <= e < edges.len() && ((edges[e].0 == a && edges[e].1 == b) || (edges[e].0 == b
                && edges[e].1 == a));
        assert(edges[e] == edges[e]);
    }
    if found_edge(edges, a, b) is Some {
        let e = found_edge(edges, a, b)->0 as int;
        assert(edges[e] == edges[e]);
    }
}

/// The outgoing neighbors are exactly the targets of the edges leaving `a`.
pub proof fn lemma_out_nbrs(edges: Seq<(usize, usize, u64)>, a: int)
    ensures
        forall|x: usize|
            #[trigger] out_nbrs(edges, a).contains(x) <==> exists|e: int|
                #![trigger edges[e]]
                0 <= e < edges.len() && edges[e].0 == a && edges[e].1 == x,
    decreases edges.len(),
{
    if edges.len() > 0 {
        let t = edges.drop_last();
        lemma_out_nbrs(t, a);
        let l = edges.last();
        assert forall|x: usize| #[trigger] out_nbrs(edges, a).contains(x) <==> exists|e: int|
            #![trigger edges[e]]
            0 <= e < edges.len() && edges[e].0 == a && edges[e].1 == x by {
            let rest = out_nbrs(t, a);
            if l.0 == a {
                let o = seq![l.1] + rest;
                assert(out_nbrs(edges, a) == o);
                if o.contains(x) {
                    let i = choose|i: int| 0 <= i < o.len() && o[i] == x;
                    if i == 0 {
                        assert(edges[edges.len() - 1] == l);
                    } else {
                        assert(rest[i - 1] == x);
                        assert(rest.contains(x));
                        let e = choose|e: int|
                            #![trigger t[e]]
                            0 <= e < t.len() && t[e].0 == a && t[e].1 == x;
                        assert(edges[e] == t[e]);
                    }
                }
                if exists|e: int|
                    #![trigger edges[e]]
                    0 <= e < edges.len() && edges[e].0 == a && edges[e].1 == x {
                    let e = choose|e: int|
                        #![trigger edges[e]]
                        0 <= e < edges.len() && edges[e].0 == a && edges[e].1 == x;
                    if e == edges.len() - 1 {
                        assert(o[0] == x);
                    } else {
                        assert(t[e] == edges[e]);
                        assert(rest.contains(x));
                        let i = choose|i: int| 0 <= i < rest.len() && rest[i] == x;
                        assert(o[i + 1] == x);
                    }
                }
            } else {
                if rest.contains(x) {
                    let e = choose|e: int|
                        #![trigger t[e]]
                        0 <= e < t.len() && t[e].0 == a && t[e].1 == x;
                    assert(edges[e] == t[e]);
                }
                if exists|e: int|
                    #![trigger edges[e]]
                    0 <= e < edges.len() && edges[e].0 == a && edges[e].1 == x {
                    let e = choose|e: int|
                        #![trigger edges[e]]
                        0 <= e < edges.len() && edges[e].0 == a && edges[e].1 == x;
                    assert(t[e] == edges[e]);
                }
            }
        }
    }
}

/// The incoming neighbors are exactly the sources of the edges entering `a`, self-loops aside.
pub proof fn lemma_in_nbrs(edges: Seq<(usize, usize, u64)>, a: int)
    ensures
        forall|x: usize|
            #[trigger] in_nbrs(edges, a).contains(x) <==> exists|e: int|
                #![trigger edges[e]]
                0 <= e < edges.len() && edges[e].1 == a && edges[e].0 == x && x != a,
    decreases edges.len(),
{
    if edges.len() > 0 {
        let t = edges.drop_last();
        lemma_in_nbrs(t, a);
        let l = edges.last();
        assert forall|x: usize| #[trigger] in_nbrs(edges, a).contains(x) <==> exists|e: int|
            #![trigger edges[e]]
            0 <= e < edges.len() && edges[e].1 == a && edges[e].0 == x && x != a by {
            let rest = in_nbrs(t, a);
            if l.1 == a && l.0 != a {
                let o = seq![l.0] + rest;
                assert(in_nbrs(edges, a) == o);
                if o.contains(x) {
                    let i = choose|i: int| 0 <= i < o.len() && o[i] == x;
                    if i == 0 {
                        assert(edges[edges.len() - 1] == l);
                    } else {
                        assert(rest[i - 1] == x);
                        assert(rest.contains(x));
                        let e = choose|e: int|
                            #![trigger t[e]]
                            0 <= e < t.len() && t[e].1 == a && t[e].0 == x && x != a;
                        assert(edges[e] == t[e]);
                    }
                }
                if exists|e: int|
                    #![trigger edges[e]]
                    0 <= e < edges.len() && edges[e].1 == a && edges[e].0 == x && x != a {
                    let e = choose|e: int|
                        #![trigger edges[e]]
                        0 <= e < edges.len() && edges[e].1 == a && edges[e].0 == x && x != a;
                    if e == edges.len() - 1 {
                        assert(o[0] == x);
                    } else {
                        assert(t[e] == edges[e]);
                        assert(rest.contains(x));
                        let i = choose|i: int| 0 <= i < rest.len() && rest[i] == x;
                        assert(o[i + 1] == x);
                    }
                }
            } else {
                if rest.contains(x) {
                    let e = choose|e: int|
                        #![trigger t[e]]
                        0 <= e < t.len() && t[e].1 == a && t[e].0 == x && x != a;
                    assert(edges[e] == t[e]);
                }
                if exists|e: int|
                    #![trigger edges[e]]
                    0 <= e < edges.len() && edges[e].1 == a && edges[e].0 == x && x != a {
                    let e = choose|e: int|
                        #![trigger edges[e]]
                        0 <= e < edges.len() && edges[e].1 == a && edges[e].0 == x && x != a;
                    assert(t[e] == edges[e]);
                }
            }
        }
    }
}

/// The neighbors `petgraph` lists for `a` are exactly the nodes adjacent
/// to `a`.
pub proof fn lemma_neighbor_seq(edges: Seq<(usize, usize, u64)>, a: int)
    ensures
        forall|x: usize| #[trigger]
            neighbor_seq(edges, a).contains(x) <==> adjacent(edges, a, x as int),
{
    lemma_out_nbrs(edges, a);
    lemma_in_nbrs(edges, a);
    let o = out_nbrs(edges, a);
    let i = in_nbrs(edges, a);
    assert forall|x: usize| #[trigger]
        neighbor_seq(edges, a).contains(x) <==> adjacent(edges, a, x as int) by {
        let n = neighbor_seq(edges, a);
        if n.contains(x) {
            let k = choose|k: int| 0 <= k < n.len() && n[k] == x;
            if k < o.len() {
                assert(o[k] == x);
                assert(o.contains(x));
            } else {
                assert(i[k - o.len()] == x);
                assert(i.contains(x));
            }
        }
        if adjacent(edges, a, x as int) {
            let e = choose|e: int|
                #![trigger edges[e]]
                0 <= e < edges.len() && ((edges[e].0 == a && edges[e].1 == x) || (edges[e].0
                    == x && edges[e].1 == a));
            if edges[e].0 == a && edges[e].1 == x {
                assert(o.contains(x));
                let k = choose|k: int| 0 <= k < o.len() && o[k] == x;
                assert(n[k] == x);
            } else {
                assert(i.contains(x));
                let k = choose|k: int| 0 <= k < i.len() && i[k] == x;
                assert(n[o.len() + k] == x);
            }
        }
    }
}

/// `Graph::new_undirected`: an empty graph.
#[verifier::external_body]
pub(crate) fn store_new() -> (g: UnGraph<Node, u64>)
    ensures
        graph_nodes(g) == Seq::<Node>::empty(),
        graph_edges(g) == Seq::<(usize, usize, u64)>::empty(),
{
    Graph::new_undirected()
}

/// `Graph::add_node`: appends the weight and returns its index.  It panics
/// once the `u32` index space is exhausted, which `requires` rules out.
#[verifier::external_body]
pub(crate) fn store_add_node(g: &mut UnGraph<Node, u64>, w: Node) -> (i: usize)
    requires
        graph_nodes(*old(g)).len() < u32::MAX,
    ensures
        graph_nodes(*final(g)) == graph_nodes(*old(g)).push(w),
        graph_edges(*final(g)) == graph_edges(*old(g)),
        i == graph_nodes(*old(g)).len(),
    no_unwind
{
    g.add_node(w).index()
}

/// `Graph::add_edge`: appends the edge `a -> b` and returns its index.  It
/// panics on an index that is not a node, and once the `u32` edge index
/// space is exhausted; `requires` rules both out.
#[verifier::external_body]
pub(crate) fn store_add_edge(g: &mut UnGraph<Node, u64>, a: usize, b: usize, w: u64) -> (e: usize)
    requires
        a < graph_nodes(*old(g)).len(),
        b < graph_nodes(*old(g)).len(),
        graph_nodes(*old(g)).len() <= u32::MAX,
        graph_edges(*old(g)).len() < u32::MAX,
    ensures
        graph_nodes(*final(g)) == graph_nodes(*old(g)),
        graph_edges(*final(g)) == graph_edges(*old(g)).push((a, b, w)),
        e == graph_edges(*old(g)).len(),
    no_unwind
{
    g.add_edge(NodeIndex::new(a), NodeIndex::new(b), w).index()
}

/// `Graph::node_count`.
#[verifier::external_body]
pub(crate) fn store_node_count(g: &UnGraph<Node, u64>) -> (n: usize)
    ensures
        n == graph_nodes(*g).len(),
{
    g.node_count()
}

/// `Graph::edge_count`.
#[verifier::external_body]
pub(crate) fn store_edge_count(g: &UnGraph<Node, u64>) -> (n: usize)
    ensures
        n == graph_edges(*g).len(),
{
    g.edge_count()
}

/// Indexing a graph by a node index: the weight of node `i`.
#[verifier::external_body]
pub(crate) fn store_node(g: &UnGraph<Node, u64>, i: usize) -> (w: &Node)
    requires
        i < graph_nodes(*g).len(),
        graph_nodes(*g).len() <= u32::MAX,
    ensures
        *w == graph_nodes(*g)[i as int],
{
    &g[NodeIndex::new(i)]
}

/// `Graph::edge_endpoints` of an existing edge: its source and target.
#[verifier::external_body]
pub(crate) fn store_edge_endpoints(g: &UnGraph<Node, u64>, e: usize) -> (r: (usize, usize))
    requires
        e < graph_edges(*g).len(),
        graph_edges(*g).len() <= u32::MAX,
    ensures
        r.0 == graph_edges(*g)[e as int].0,
        r.1 == graph_edges(*g)[e as int].1,
{
    let (a, b) = g.edge_endpoints(EdgeIndex::new(e)).unwrap();
    (a.index(), b.index())
}

/// Indexing a graph by an edge index: the weight of edge `e`.
#[verifier::external_body]
pub(crate) fn store_edge_weight(g: &UnGraph<Node, u64>, e: usize) -> (w: u64)
    requires
        e < graph_edges(*g).len(),
        graph_edges(*g).len() <= u32::MAX,
    ensures
        w == graph_edges(*g)[e as int].2,
{
    g[EdgeIndex::new(e)]
}

/// `Graph::neighbors` of node `a`, as node indices, in the order the
/// iterator yields them: the targets of the edges leaving `a` (latest
/// first), then the sources of the edges entering `a` that are not
/// self-loops (latest first).
#[verifier::external_body]
pub(crate) fn store_neighbors(g: &UnGraph<Node, u64>, a: usize) -> (r: Vec<usize>)
    requires
        a < graph_nodes(*g).len(),
        graph_nodes(*g).len() <= u32::MAX,
    ensures
        r@ == neighbor_seq(graph_edges(*g), a as int),
{
    g.neighbors(NodeIndex::new(a)).map(|n| n.index()).collect()
}

/// `Graph::find_edge(a, b)` on an undirected graph: the latest edge stored
/// as `a -> b`, else the latest stored as `b -> a`, else `None`.
#[verifier::external_body]
pub(crate) fn store_find_edge(g: &UnGraph<Node, u64>, a: usize, b: usize) -> (r: Option<usize>)
    requires
        a < graph_nodes(*g).len(),
        b < graph_nodes(*g).len(),
        graph_nodes(*g).len() <= u32::MAX,
        graph_edges(*g).len() <= u32::MAX,
    ensures
        r == found_edge(graph_edges(*g), a as int, b as int),
{
    g.find_edge(NodeIndex::new(a), NodeIndex::new(b)).map(|e| e.index())
}

} // verus!
