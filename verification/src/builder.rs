//! Graph construction: the checks on the data a correlation network is
//! built from, and the assembly of the graph once the pairs to link are
//! known.

use vstd::prelude::*;

use crate::types::{last_index, syms_of, FinancialGraph, GraphType, Node};

verus! {

/// Errors that can occur during graph building.
#[derive(Debug, Clone)]
pub enum BuilderError {
    /// Insufficient data: need at least `.0` periods, got `.1`.
    InsufficientData(usize, usize),
    /// No valid returns computed.
    NoReturns,
    /// Symbol not found.
    SymbolNotFound(String),
    /// Computation error.
    ComputationError(String),
}

/// The smallest length, or `usize::MAX` for no lengths.
pub open spec fn shortest(lengths: Seq<usize>) -> usize
    decreases lengths.len(),
{
    if lengths.len() == 0 {
        usize::MAX
    } else {
        let rest = shortest(lengths.drop_last());
        if lengths.last() < rest {
            lengths.last()
        } else {
            rest
        }
    }
}

/// The shortest length is at most every length and, when there are
/// lengths, is one of them.
pub proof fn law_shortest_is_minimum(lengths: Seq<usize>)
    ensures
        forall|i: int| 0 <= i < lengths.len() ==> shortest(lengths) <= #[trigger] lengths[i],
        lengths.len() > 0 ==> exists|i: int| 0 <= i < lengths.len() && #[trigger] lengths[i] == shortest(lengths),
    decreases lengths.len(),
{
    if lengths.len() > 0 {
        let rest = lengths.drop_last();
        law_shortest_is_minimum(rest);
        assert forall|i: int| 0 <= i < lengths.len() implies shortest(lengths) <= #[trigger] lengths[i] by {
            if i < rest.len() {
                assert(rest[i] == lengths[i]);
            }
        }
        if rest.len() > 0 && shortest(lengths) != lengths.last() {
            let i = choose|i: int| 0 <= i < rest.len() && #[trigger] rest[i] == shortest(rest);
            assert(lengths[i] == rest[i]);
        }
        if shortest(lengths) == lengths.last() {
            assert(lengths[lengths.len() - 1] == shortest(lengths));
        }
    }
}

/// Check the series lengths a network is to be built from: there must be
/// at least one series (else insufficient data, needing 1 and having 0),
/// and the shortest must hold at least `window` periods (else
/// insufficient data, needing `window` and having the shortest length).
pub fn check_window(lengths: &Vec<usize>, window: usize) -> (r: Result<(), BuilderError>)
    ensures
        lengths@.len() == 0 ==> (r matches Err(BuilderError::InsufficientData(need, got)) && need == 1 && got
            == 0),
        lengths@.len() > 0 && shortest(lengths@) >= window ==> r is Ok,
        lengths@.len() > 0 && shortest(lengths@) < window ==> (r matches Err(
            BuilderError::InsufficientData(need, got),
        ) && need == window && got == shortest(lengths@)),
        lengths@.len() > 0 ==> (r is Err <==> exists|i: int| 0 <= i < lengths@.len() && #[trigger] lengths@[i] < window),
        lengths@.len() > 0 ==> (r matches Err(BuilderError::InsufficientData(need, got)) ==> need == window && (
        forall|i: int| 0 <= i < lengths@.len() ==> got <= #[trigger] lengths@[i]) && exists|i: int|
            0 <= i < lengths@.len() && #[trigger] lengths@[i] == got),
{
    proof {
        law_shortest_is_minimum(lengths@);
    }
    if lengths.len() == 0 {
        return Err(BuilderError::InsufficientData(1, 0));
    }
    let mut min = usize::MAX;
    let mut i: usize = 0;
    while i < lengths.len()
        invariant
            i <= lengths@.len(),
            min == shortest(lengths@.take(i as int)),
        decreases lengths@.len() - i,
    {
        proof {
            assert(lengths@.take(i + 1).drop_last() =~= lengths@.take(i as int));
            assert(lengths@.take(i + 1).last() == lengths@[i as int]);
        }
        if lengths[i] < min {
            min = lengths[i];
        }
        i = i + 1;
    }
    proof {
        assert(lengths@.take(i as int) =~= lengths@);
    }
    if min < window {
        return Err(BuilderError::InsufficientData(window, min));
    }
    Ok(())
}

/// The pairs `(i, j')`, `i < j' < j`, of row `i` to link, in order.
pub open spec fn row_pairs(keep: Seq<Vec<bool>>, i: int, j: int) -> Seq<(int, int)>
    decreases j - i,
{
    if j <= i + 1 {
        Seq::empty()
    } else {
        row_pairs(keep, i, j - 1) + if keep[i]@[j - 1] {
            seq![(i, j - 1)]
        } else {
            Seq::empty()
        }
    }
}

/// The pairs `i < j < n` to link in rows below `r`, row by row.
pub open spec fn kept_pairs(keep: Seq<Vec<bool>>, r: int, n: int) -> Seq<(int, int)>
    decreases r,
{
    if r <= 0 {
        Seq::empty()
    } else {
        kept_pairs(keep, r - 1, n) + row_pairs(keep, r - 1, n)
    }
}

/// The edge linking pair `p`: between the nodes the two symbols name
/// (their latest nodes), weighted by the pair's weight.
pub open spec fn pair_edge(nodes: Seq<Node>, weights: Seq<Vec<u64>>, p: (int, int)) -> (usize, usize, u64) {
    let syms = syms_of(nodes);
    (
        last_index(syms, syms[p.0]) as usize,
        last_index(syms, syms[p.1]) as usize,
        weights[p.0]@[p.1],
    )
}

/// Later ends of a row hold at least as many pairs.
proof fn lemma_row_pairs_grow(keep: Seq<Vec<bool>>, i: int, j: int, k: int)
    requires
        j <= k,
    ensures
        row_pairs(keep, i, j).len() <= row_pairs(keep, i, k).len(),
    decreases k - j,
{
    if j < k {
        lemma_row_pairs_grow(keep, i, j, k - 1);
    }
}

/// More rows hold at least as many pairs.
proof fn lemma_kept_pairs_grow(keep: Seq<Vec<bool>>, r: int, s: int, n: int)
    requires
        0 <= r <= s,
    ensures
        kept_pairs(keep, r, n).len() <= kept_pairs(keep, s, n).len(),
    decreases s - r,
{
    if r < s {
        lemma_kept_pairs_grow(keep, r, s - 1, n);
    }
}

/// Assemble a graph: add `nodes` in order, then for each pair `i < j` in
/// lexicographic order that `keep` marks, an edge between their symbols
/// weighted `weights[i][j]`.  Records the window size and the threshold
/// (IEEE-754 bits) it was built with.  The nodes and the kept pairs must
/// each fit `petgraph`'s `u32` indices (`petgraph` panics past them).
pub fn build_graph(
    graph_type: GraphType,
    nodes: Vec<Node>,
    weights: &Vec<Vec<u64>>,
    keep: &Vec<Vec<bool>>,
    window_size: usize,
    threshold: u64,
) -> (g: FinancialGraph)
    requires
        nodes@.len() <= u32::MAX,
        kept_pairs(keep@, nodes@.len() as int, nodes@.len() as int).len() <= u32::MAX,
        weights@.len() == nodes@.len(),
        keep@.len() == nodes@.len(),
        forall|i: int| 0 <= i < nodes@.len() ==> #[trigger] weights@[i]@.len() == nodes@.len(),
        forall|i: int| 0 <= i < nodes@.len() ==> #[trigger] keep@[i]@.len() == nodes@.len(),
    ensures
        g.nodes() == nodes@,
        g.edge_list() == kept_pairs(keep@, nodes@.len() as int, nodes@.len() as int).map_values(
            |p: (int, int)| pair_edge(nodes@, weights@, p),
        ),
        g.spec_graph_type() == graph_type,
        g.spec_window_size() == window_size,
        g.spec_threshold() == threshold,
{
    let ghost all = nodes@;
    let ghost nn = all.len() as int;
    let mut graph = FinancialGraph::new(graph_type);
    graph.set_window_size(window_size);
    graph.set_threshold(threshold);
    let n = nodes.len();
    let mut symbols: Vec<String> = Vec::new();
    let mut nodes = nodes;
    let mut k: usize = 0;
    while nodes.len() > 0
        invariant
            k + nodes@.len() == n,
            n == all.len(),
            n <= u32::MAX,
            nodes@ == all.skip(k as int),
            graph.nodes() == all.take(k as int),
            symbols@.len() == k,
            forall|t: int| 0 <= t < k ==> #[trigger] symbols@[t]@ == all[t].symbol@,
            graph.edge_list() == Seq::<(usize, usize, u64)>::empty(),
            graph.spec_graph_type() == graph_type,
            graph.spec_window_size() == window_size,
            graph.spec_threshold() == threshold,
        decreases nodes@.len(),
    {
        let node = nodes.remove(0);
        proof {
            assert(node == all[k as int]);
        }
        symbols.push(node.symbol.clone());
        graph.add_node(node);
        proof {
            assert(all.take(k + 1) =~= all.take(k as int).push(all[k as int]));
            assert(nodes@ =~= all.skip(k + 1));
        }
        k = k + 1;
    }
    proof {
        assert(all.take(k as int) =~= all);
    }
    let ghost f = |p: (int, int)| pair_edge(all, weights@, p);
    let ghost syms = syms_of(all);
    proof {
        assert forall|t: int| 0 <= t < n implies #[trigger] symbols@[t]@ == syms[t] by {}
        assert(kept_pairs(keep@, 0, nn).map_values(f) =~= Seq::<(usize, usize, u64)>::empty());
    }
    let mut i: usize = 0;
    while i < n
        invariant
            n == all.len(),
            nn == n,
            n <= u32::MAX,
            kept_pairs(keep@, nn, nn).len() <= u32::MAX,
            i <= n,
            graph.nodes() == all,
            syms == syms_of(all),
            symbols@.len() == n,
            forall|t: int| 0 <= t < n ==> #[trigger] symbols@[t]@ == syms[t],
            weights@.len() == n,
            keep@.len() == n,
            forall|t: int| 0 <= t < n ==> #[trigger] weights@[t]@.len() == n,
            forall|t: int| 0 <= t < n ==> #[trigger] keep@[t]@.len() == n,
            f == (|p: (int, int)| pair_edge(all, weights@, p)),
            graph.edge_list() == kept_pairs(keep@, i as int, nn).map_values(f),
            graph.spec_graph_type() == graph_type,
            graph.spec_window_size() == window_size,
            graph.spec_threshold() == threshold,
        decreases n - i,
    {
        let ghost base = kept_pairs(keep@, i as int, nn);
        let mut j: usize = i + 1;
        proof {
            assert(row_pairs(keep@, i as int, j as int) =~= Seq::<(int, int)>::empty());
            assert(base + row_pairs(keep@, i as int, j as int) =~= base);
        }
        while j < n
            invariant
                n == all.len(),
                nn == n,
                n <= u32::MAX,
                kept_pairs(keep@, nn, nn).len() <= u32::MAX,
                i < n,
                i + 1 <= j <= n,
                graph.nodes() == all,
                syms == syms_of(all),
                symbols@.len() == n,
                forall|t: int| 0 <= t < n ==> #[trigger] symbols@[t]@ == syms[t],
                weights@.len() == n,
                keep@.len() == n,
                forall|t: int| 0 <= t < n ==> #[trigger] weights@[t]@.len() == n,
                forall|t: int| 0 <= t < n ==> #[trigger] keep@[t]@.len() == n,
                f == (|p: (int, int)| pair_edge(all, weights@, p)),
                base == kept_pairs(keep@, i as int, nn),
                graph.edge_list() == (base + row_pairs(keep@, i as int, j as int)).map_values(f),
                graph.spec_graph_type() == graph_type,
                graph.spec_window_size() == window_size,
                graph.spec_threshold() == threshold,
            decreases n - j,
        {
            let ghost before = graph.edge_list();
            if keep[i][j] {
                proof {
                    assert(row_pairs(keep@, i as int, j + 1).len() == row_pairs(keep@, i as int, j as int).len() + 1);
                    lemma_row_pairs_grow(keep@, i as int, j + 1, nn);
                    lemma_kept_pairs_grow(keep@, i + 1, nn, nn);
                    assert(kept_pairs(keep@, i + 1, nn) == base + row_pairs(keep@, i as int, nn));
                    crate::types::lemma_last_index(syms, symbols@[i as int]@);
                    crate::types::lemma_last_index(syms, symbols@[j as int]@);
                    assert(syms.contains(syms[i as int]));
                    assert(syms.contains(syms[j as int]));
                }
                graph.add_edge(symbols[i].as_str(), symbols[j].as_str(), weights[i][j]);
                proof {
                    assert(row_pairs(keep@, i as int, j + 1) == row_pairs(keep@, i as int, j as int) + seq![
                        (i as int, j as int),
                    ]);
                    assert((base + row_pairs(keep@, i as int, j + 1)).map_values(f) =~= (base + row_pairs(
                        keep@,
                        i as int,
                        j as int,
                    )).map_values(f).push(f((i as int, j as int))));
                }
            } else {
                proof {
                    assert(row_pairs(keep@, i as int, j + 1) =~= row_pairs(keep@, i as int, j as int) + Seq::<
                        (int, int),
                    >::empty());
                    assert(row_pairs(keep@, i as int, j + 1) =~= row_pairs(keep@, i as int, j as int));
                }
            }
            j = j + 1;
        }
        proof {
            assert(kept_pairs(keep@, i + 1, nn) == base + row_pairs(keep@, i as int, nn));
        }
        i = i + 1;
    }
    graph
}

} // verus!
