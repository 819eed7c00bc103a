//! Connected components by depth-first search over the symbols of a graph.

use vstd::prelude::*;

use crate::algorithms::key_nodes;
use crate::graph_store::neighbor_seq;
use crate::sort::{keys_desc, lemma_sort_desc, lemma_sort_desc_map, sort_by_key_desc, sort_desc, sort_strings, strictly_sorted};
use crate::text::str_eq;
use crate::types::FinancialGraph;

verus! {

/// Position `q` among the distinct symbols is a neighbor of position `p`:
/// the symbol at `q` is among the neighbor symbols of the symbol at `p`.
pub open spec fn kedge(g: FinancialGraph, p: int, q: int) -> bool {
    g.neighbor_syms(g.keys()[p]).contains(g.keys()[q])
}

/// The neighbor relation between positions of the distinct symbols.
pub open spec fn key_rel(g: FinancialGraph) -> spec_fn(int, int) -> bool {
    |p: int, q: int| kedge(g, p, q)
}

/// A non-empty walk through positions below `n`, none in `avoid`, each
/// step along `e`.
pub open spec fn avoiding_walk(e: spec_fn(int, int) -> bool, n: int, avoid: Set<int>, w: Seq<int>) -> bool {
    &&& w.len() >= 1
    &&& forall|i: int| 0 <= i < w.len() ==> 0 <= #[trigger] w[i] < n && !avoid.contains(w[i])
    &&& forall|i: int| 0 <= i < w.len() - 1 ==> e(#[trigger] w[i], w[i + 1])
}

/// `x` can be reached from `s` by a walk avoiding `avoid`.
pub open spec fn reaches(e: spec_fn(int, int) -> bool, n: int, avoid: Set<int>, s: int, x: int) -> bool {
    exists|w: Seq<int>| #[trigger] avoiding_walk(e, n, avoid, w) && w[0] == s && w.last() == x
}

/// Everything reachable from `s` avoiding `avoid`.
pub open spec fn reach_set(e: spec_fn(int, int) -> bool, n: int, avoid: Set<int>, s: int) -> Set<int> {
    Set::new(|x: int| reaches(e, n, avoid, s, x))
}

/// The search over start positions `0..p` in order: the positions visited
/// so far and the components found, each the positions reachable from its
/// start without passing through an earlier component.
pub open spec fn explored(e: spec_fn(int, int) -> bool, n: int, p: nat) -> (Set<int>, Seq<Set<int>>)
    decreases p,
{
    if p == 0 {
        (Set::empty(), Seq::empty())
    } else {
        let prev = explored(e, n, (p - 1) as nat);
        let s = p - 1;
        if prev.0.contains(s) {
            prev
        } else {
            let c = reach_set(e, n, prev.0, s);
            (prev.0.union(c), prev.1.push(c))
        }
    }
}

/// Number of `false` entries.
pub open spec fn count_false(v: Seq<bool>) -> nat
    decreases v.len(),
{
    if v.len() == 0 {
        0
    } else {
        count_false(v.drop_last()) + if v.last() {
            0nat
        } else {
            1nat
        }
    }
}

proof fn lemma_count_false_update(v: Seq<bool>, c: int)
    requires
        0 <= c < v.len(),
        !v[c],
    ensures
        count_false(v.update(c, true)) + 1 == count_false(v),
    decreases v.len(),
{
    let u = v.update(c, true);
    if c < v.len() - 1 {
        assert(u.drop_last() =~= v.drop_last().update(c, true));
        lemma_count_false_update(v.drop_last(), c);
    } else {
        assert(u.drop_last() =~= v.drop_last());
    }
}

/// The positions `true` in `v`.
pub open spec fn marked(v: Seq<bool>) -> Set<int> {
    Set::new(|q: int| 0 <= q < v.len() && v[q])
}

/// The key position of every node: where its symbol stands among the
/// distinct symbols.
pub(crate) fn node_positions(graph: &FinancialGraph, keys: &Vec<&String>) -> (r: Vec<usize>)
    requires
        keys@.map_values(|s: &String| s@) == graph.keys(),
    ensures
        r@.len() == graph.nodes().len(),
        forall|j: int|
            0 <= j < r@.len() ==> #[trigger] r@[j] < graph.keys().len() && graph.keys()[r@[j] as int]
                == graph.syms()[j],
{
    proof {
        graph.lemma_keys();
    }
    let n = graph.node_count();
    let mut r: Vec<usize> = Vec::new();
    let mut j: usize = 0;
    while j < n
        invariant
            n == graph.nodes().len(),
            j <= n,
            r@.len() == j,
            keys@.map_values(|s: &String| s@) == graph.keys(),
            forall|x: Seq<char>| #[trigger] graph.keys().contains(x) <==> graph.syms().contains(x),
            forall|i: int|
                0 <= i < r@.len() ==> #[trigger] r@[i] < graph.keys().len() && graph.keys()[r@[i] as int]
                    == graph.syms()[i],
        decreases n - j,
    {
        let sym = graph.node_symbol(j);
        proof {
            assert(graph.syms()[j as int] == sym@);
            assert(graph.syms().contains(sym@));
            assert(graph.keys().contains(sym@));
        }
        let mut p: usize = 0;
        while p < keys.len() && !str_eq(keys[p].as_str(), sym.as_str())
            invariant
                p <= keys@.len(),
                keys@.map_values(|s: &String| s@) == graph.keys(),
                graph.keys().contains(sym@),
                forall|t: int| 0 <= t < p ==> graph.keys()[t] != sym@,
            decreases keys@.len() - p,
        {
            proof {
                assert(keys@.map_values(|s: &String| s@)[p as int] == keys@[p as int]@);
            }
            p = p + 1;
        }
        proof {
            if p == keys@.len() {
                let t = choose|t: int| 0 <= t < graph.keys().len() && graph.keys()[t] == sym@;
                assert(false);
            }
            assert(keys@.map_values(|s: &String| s@)[p as int] == keys@[p as int]@);
        }
        r.push(p);
        j = j + 1;
    }
    r
}

/// For every key position, the key positions of its neighbors.
pub(crate) fn key_adjacency(graph: &FinancialGraph, ids: &Vec<usize>, node_pos: &Vec<usize>) -> (adj: Vec<Vec<usize>>)
    requires
        ids@.len() == graph.keys().len(),
        forall|p: int|
            0 <= p < ids@.len() ==> #[trigger] ids@[p] == graph.index_of(graph.keys()[p]) && ids@[p]
                < graph.nodes().len(),
        node_pos@.len() == graph.nodes().len(),
        forall|j: int|
            0 <= j < node_pos@.len() ==> #[trigger] node_pos@[j] < graph.keys().len()
                && graph.keys()[node_pos@[j] as int] == graph.syms()[j],
    ensures
        adj@.len() == graph.keys().len(),
        forall|p: int, q: usize|
            0 <= p < adj@.len() && q < adj@.len() ==> (#[trigger] adj@[p]@.contains(q)
                <==> kedge(*graph, p, q as int)),
        forall|p: int, t: int|
            0 <= p < adj@.len() && 0 <= t < adj@[p]@.len() ==> #[trigger] adj@[p]@[t] < adj@.len(),
{
    proof {
        graph.lemma_keys();
    }
    let n = ids.len();
    let mut adj: Vec<Vec<usize>> = Vec::new();
    let mut p: usize = 0;
    while p < n
        invariant
            n == ids@.len(),
            ids@.len() == graph.keys().len(),
            forall|p: int|
                0 <= p < ids@.len() ==> #[trigger] ids@[p] == graph.index_of(graph.keys()[p]) && ids@[p]
                    < graph.nodes().len(),
            node_pos@.len() == graph.nodes().len(),
            forall|j: int|
                0 <= j < node_pos@.len() ==> #[trigger] node_pos@[j] < graph.keys().len()
                    && graph.keys()[node_pos@[j] as int] == graph.syms()[j],
            graph.keys().no_duplicates(),
            p <= n,
            adj@.len() == p,
            forall|a: int, q: usize|
                0 <= a < p && q < n ==> (#[trigger] adj@[a]@.contains(q) <==> kedge(
                    *graph,
                    a,
                    q as int,
                )),
            forall|a: int, t: int|
                0 <= a < p && 0 <= t < adj@[a]@.len() ==> #[trigger] adj@[a]@[t] < n,
        decreases n - p,
    {
        let nb = graph.neighbor_indices(ids[p]);
        let ghost ns = graph.neighbor_syms(graph.keys()[p as int]);
        proof {
            assert(ns == nb@.map_values(|j: usize| graph.syms()[j as int]));
        }
        let mut row: Vec<usize> = Vec::new();
        let mut t: usize = 0;
        while t < nb.len()
            invariant
                t <= nb@.len(),
                row@.len() == t,
                nb@ == neighbor_seq(graph.edge_list(), ids@[p as int] as int),
                forall|u: int| 0 <= u < nb@.len() ==> #[trigger] nb@[u] < graph.nodes().len(),
                node_pos@.len() == graph.nodes().len(),
                forall|j: int|
                    0 <= j < node_pos@.len() ==> #[trigger] node_pos@[j] < graph.keys().len()
                        && graph.keys()[node_pos@[j] as int] == graph.syms()[j],
                forall|u: int| 0 <= u < t ==> #[trigger] row@[u] == node_pos@[nb@[u] as int],
            decreases nb@.len() - t,
        {
            row.push(node_pos[nb[t]]);
            t = t + 1;
        }
        proof {
            assert forall|q: usize| q < n implies (#[trigger] row@.contains(q) <==> kedge(
                *graph,
                p as int,
                q as int,
            )) by {
                let k = graph.keys();
                if row@.contains(q) {
                    let u = choose|u: int| 0 <= u < row@.len() && row@[u] == q;
                    assert(ns[u] == graph.syms()[nb@[u] as int]);
                    assert(ns[u] == k[q as int]);
                }
                if kedge(*graph, p as int, q as int) {
                    let u = choose|u: int| 0 <= u < ns.len() && ns[u] == k[q as int];
                    assert(ns[u] == graph.syms()[nb@[u] as int]);
                    assert(k[row@[u] as int] == k[q as int]);
                    assert(row@[u] == q);
                }
            }
        }
        adj.push(row);
        p = p + 1;
    }
    adj
}

/// The adjacency lists describe `e` on positions below their count.
pub open spec fn describes(adj: Seq<Vec<usize>>, e: spec_fn(int, int) -> bool) -> bool {
    &&& forall|p: int, q: usize|
        0 <= p < adj.len() && q < adj.len() ==> (#[trigger] adj[p]@.contains(q) <==> e(p, q as int))
    &&& forall|p: int, t: int|
        0 <= p < adj.len() && 0 <= t < adj[p]@.len() ==> #[trigger] adj[p]@[t] < adj.len()
}

/// Walks that stay outside `avoid` and start in a set closed under `e`
/// outside `avoid` stay in that set.
proof fn lemma_closed_walk(
    e: spec_fn(int, int) -> bool,
    n: int,
    avoid: Set<int>,
    comp: Set<int>,
    w: Seq<int>,
    i: int,
)
    requires
        avoiding_walk(e, n, avoid, w),
        comp.contains(w[0]),
        forall|a: int, b: int|
            #![trigger comp.contains(a), e(a, b)]
            comp.contains(a) && 0 <= b < n && e(a, b) && !avoid.contains(b) ==> comp.contains(b),
        0 <= i < w.len(),
    ensures
        comp.contains(w[i]),
    decreases i,
{
    if i > 0 {
        lemma_closed_walk(e, n, avoid, comp, w, i - 1);
        assert(e(w[i - 1], w[i]));
        assert(0 <= w[i] < n && !avoid.contains(w[i]));
    }
}

/// A walk extended by one step along `e` to an allowed position.
proof fn lemma_extend_walk(e: spec_fn(int, int) -> bool, n: int, avoid: Set<int>, s: int, c: int, q: int)
    requires
        reaches(e, n, avoid, s, c),
        e(c, q),
        0 <= q < n,
        !avoid.contains(q),
    ensures
        reaches(e, n, avoid, s, q),
{
    let w = choose|w: Seq<int>| #[trigger] avoiding_walk(e, n, avoid, w) && w[0] == s && w.last() == c;
    let w2 = w.push(q);
    assert forall|i: int| 0 <= i < w2.len() implies 0 <= #[trigger] w2[i] < n && !avoid.contains(w2[i]) by {
        if i < w.len() {
            assert(w2[i] == w[i]);
        }
    }
    assert forall|i: int| 0 <= i < w2.len() - 1 implies e(#[trigger] w2[i], w2[i + 1]) by {
        if i < w.len() - 1 {
            assert(w2[i] == w[i] && w2[i + 1] == w[i + 1]);
        } else {
            assert(w2[i] == c && w2[i + 1] == q);
        }
    }
    assert(avoiding_walk(e, n, avoid, w2));
    assert(w2[0] == s && w2.last() == q);
}

/// Depth-first search from `s` over the unvisited positions: marks and
/// returns, in visiting order, every position reachable from `s` without
/// passing through a position marked before.
fn explore(adj: &Vec<Vec<usize>>, visited: &mut Vec<bool>, s: usize, Ghost(e): Ghost<spec_fn(int, int) -> bool>) -> (comp: Vec<usize>)
    requires
        describes(adj@, e),
        old(visited)@.len() == adj@.len(),
        s < adj@.len(),
        !old(visited)@[s as int],
    ensures
        final(visited)@.len() == adj@.len(),
        comp@.no_duplicates(),
        comp@.len() > 0,
        comp@[0] == s,
        forall|q: int| 0 <= q < comp@.len() ==> #[trigger] comp@[q] < adj@.len(),
        comp@.map_values(|q: usize| q as int).to_set() == reach_set(
            e,
            adj@.len() as int,
            marked(old(visited)@),
            s as int,
        ),
        marked(final(visited)@) == marked(old(visited)@).union(
            reach_set(e, adj@.len() as int, marked(old(visited)@), s as int),
        ),
{
    let nn = adj.len();
    let ghost n = adj@.len() as int;
    let ghost v0 = marked(visited@);
    let ghost target = reach_set(e, n, v0, s as int);
    let mut comp: Vec<usize> = Vec::new();
    let mut stack: Vec<usize> = Vec::new();
    stack.push(s);
    proof {
        let w = seq![s as int];
        assert(avoiding_walk(e, n, v0, w));
        assert(reaches(e, n, v0, s as int, s as int));
        assert(!v0.contains(s as int));
    }
    while stack.len() > 0
        invariant
            describes(adj@, e),
            n == adj@.len(),
            nn == n,
            visited@.len() == n,
            v0 == marked(old(visited)@),
            target == reach_set(e, n, v0, s as int),
            !v0.contains(s as int),
            forall|q: usize| q < n ==> (visited@[q as int] <==> (v0.contains(q as int) || #[trigger] comp@.contains(q))),
            forall|q: int| 0 <= q < n ==> (v0.contains(q) ==> visited@[q]),
            comp@.no_duplicates(),
            forall|q: int| 0 <= q < comp@.len() ==> #[trigger] comp@[q] < n && !v0.contains(comp@[q] as int),
            forall|q: int| 0 <= q < stack@.len() ==> #[trigger] stack@[q] < n,
            forall|x: usize| #[trigger] comp@.contains(x) ==> reaches(e, n, v0, s as int, x as int),
            forall|x: usize| #[trigger] stack@.contains(x) ==> reaches(e, n, v0, s as int, x as int),
            forall|w: usize, q: usize|
                #![trigger comp@.contains(w), e(w as int, q as int)]
                comp@.contains(w) && q < n && e(w as int, q as int) ==> visited@[q as int]
                    || stack@.contains(q),
            comp@.len() == 0 ==> stack@ == seq![s],
            comp@.len() > 0 ==> comp@[0] == s,
        decreases count_false(visited@), stack@.len(),
    {
        let ghost st = stack@;
        let c = stack.pop().unwrap();
        proof {
            assert(st == stack@.push(c));
            assert forall|x: usize| #[trigger] stack@.contains(x) implies st.contains(x) by {
                let k = choose|k: int| 0 <= k < stack@.len() && stack@[k] == x;
                assert(st[k] == x);
            }
            assert(st.contains(c)) by {
                assert(st[st.len() - 1] == c);
            }
            assert forall|x: usize| st.contains(x) && x != c implies #[trigger] stack@.contains(x) by {
                let k = choose|k: int| 0 <= k < st.len() && st[k] == x;
                assert(stack@[k] == x);
            }
        }
        if visited[c] {
            proof {
                if comp@.len() == 0 {
                    assert(st == seq![s]);
                    assert(c == s);
                    assert(!comp@.contains(s));
                }
            }
            continue;
        }
        let ghost before_comp = comp@;
        proof {
            lemma_count_false_update(visited@, c as int);
            assert(!v0.contains(c as int));
            assert(!comp@.contains(c));
        }
        visited.set(c, true);
        comp.push(c);
        proof {
            assert forall|x: usize| #[trigger] comp@.contains(x) implies x == c || before_comp.contains(x) by {
                let k = choose|k: int| 0 <= k < comp@.len() && comp@[k] == x;
                if k < before_comp.len() {
                    assert(before_comp[k] == x);
                }
            }
            assert forall|x: usize| before_comp.contains(x) implies #[trigger] comp@.contains(x) by {
                let k = choose|k: int| 0 <= k < before_comp.len() && before_comp[k] == x;
                assert(comp@[k] == x);
            }
            assert(comp@[comp@.len() - 1] == c);
        }
        let nb = &adj[c];
        let mut t: usize = 0;
        let ghost vis_now = visited@;
        let ghost comp_now = comp@;
        while t < nb.len()
            invariant
                visited@ == vis_now,
                comp@ == comp_now,
                forall|q: int| 0 <= q < n ==> (v0.contains(q) ==> visited@[q]),
                describes(adj@, e),
                n == adj@.len(),
                nn == n,
                c < n,
                *nb == adj@[c as int],
                visited@.len() == n,
                t <= nb@.len(),
                forall|q: int| 0 <= q < stack@.len() ==> #[trigger] stack@[q] < n,
                reaches(e, n, v0, s as int, c as int),
                forall|x: usize| #[trigger] stack@.contains(x) ==> reaches(e, n, v0, s as int, x as int),
                forall|q: usize| q < n ==> (visited@[q as int] <==> (v0.contains(q as int) || #[trigger] comp@.contains(q))),
                forall|u: int| 0 <= u < t ==> visited@[nb@[u] as int] || stack@.contains(#[trigger] nb@[u]),
                forall|x: usize| st.contains(x) && x != c ==> #[trigger] stack@.contains(x),
            decreases nb@.len() - t,
        {
            let q = nb[t];
            proof {
                assert(adj@[c as int]@[t as int] == q);
                assert(q < n);
            }
            if !visited[q] {
                let ghost before_stack = stack@;
                stack.push(q);
                proof {
                    assert(adj@[c as int]@.contains(q));
                    assert(e(c as int, q as int));
                    assert(!v0.contains(q as int));
                    lemma_extend_walk(e, n, v0, s as int, c as int, q as int);
                    assert forall|x: usize| #[trigger] stack@.contains(x) implies reaches(e, n, v0, s as int, x as int) by {
                        if x != q {
                            let k = choose|k: int| 0 <= k < stack@.len() && stack@[k] == x;
                            assert(before_stack[k] == x);
                            assert(before_stack.contains(x));
                        }
                    }
                    assert forall|x: usize| before_stack.contains(x) implies #[trigger] stack@.contains(x) by {
                        let k = choose|k: int| 0 <= k < before_stack.len() && before_stack[k] == x;
                        assert(stack@[k] == x);
                    }
                    assert(stack@[stack@.len() - 1] == q);
                    assert(stack@.contains(q));
                }
            }
            t = t + 1;
        }
        proof {
            assert forall|w: usize, q: usize|
                #![trigger comp@.contains(w), e(w as int, q as int)]
                comp@.contains(w) && q < n && e(w as int, q as int) implies visited@[q as int]
                    || stack@.contains(q) by {
                if w == c {
                    assert(adj@[c as int]@.contains(q));
                    let u = choose|u: int| 0 <= u < nb@.len() && nb@[u] == q;
                    assert(visited@[nb@[u] as int] || stack@.contains(nb@[u]));
                } else {
                    assert(before_comp.contains(w));
                    if !visited@[q as int] {
                        assert(st.contains(q));
                        assert(q != c);
                    }
                }
            }
        }
    }
    proof {
        assert(comp@.len() > 0);
        let cseq = comp@.map_values(|q: usize| q as int);
        let cset = cseq.to_set();
        assert forall|q: int| 0 <= q < comp@.len() implies #[trigger] cseq[q] == comp@[q] as int by {}
        assert forall|x: int| #[trigger] cset.contains(x) <==> target.contains(x) by {
            if cset.contains(x) {
                let k = choose|k: int| 0 <= k < cseq.len() && cseq[k] == x;
                assert(comp@.contains(comp@[k]));
            }
            if target.contains(x) {
                let w = choose|w: Seq<int>| #[trigger] avoiding_walk(e, n, v0, w) && w[0] == s && w.last() == x;
                assert(cset.contains(s as int)) by {
                    assert(cseq[0] == s as int);
                }
                assert forall|a: int, b: int|
                    #![trigger cset.contains(a), e(a, b)]
                    cset.contains(a) && 0 <= b < n && e(a, b) && !v0.contains(b) implies cset.contains(b) by {
                    let k = choose|k: int| 0 <= k < cseq.len() && cseq[k] == a;
                    assert(comp@.contains(comp@[k]));
                    assert(e(comp@[k] as int, (b as usize) as int));
                    assert(visited@[b]);
                    assert(comp@.contains(b as usize));
                    let k2 = choose|k2: int| 0 <= k2 < comp@.len() && comp@[k2] == b as usize;
                    assert(cseq[k2] == b);
                }
                lemma_closed_walk(e, n, v0, cset, w, w.len() - 1);
            }
        }
        assert(cset =~= target);
        assert forall|q: int| #[trigger] marked(visited@).contains(q) <==> v0.union(target).contains(q) by {
            if 0 <= q < n && visited@[q] && !v0.contains(q) {
                assert(comp@.contains(q as usize));
                let k = choose|k: int| 0 <= k < comp@.len() && comp@[k] == q as usize;
                assert(cseq[k] == q);
                assert(cset.contains(q));
            }
            if target.contains(q) {
                assert(cset.contains(q));
                let k = choose|k: int| 0 <= k < cseq.len() && cseq[k] == q;
                assert(comp@.contains(comp@[k]));
                assert(visited@[q]);
            }
            if v0.contains(q) {
                assert(0 <= q < old(visited)@.len());
            }
        }
        assert(marked(visited@) =~= v0.union(target));
    }
    comp
}

/// `u` lists, in strictly increasing order, the symbols at the positions
/// of `c`.
pub open spec fn sorted_names(u: Seq<Seq<char>>, c: Set<int>, k: Seq<Seq<char>>) -> bool {
    &&& strictly_sorted(u)
    &&& u.to_set() == c.map(|q: int| k[q])
}

/// The symbols of a component as the graph hands it out.
pub open spec fn names_view(c: Vec<String>) -> Seq<Seq<char>> {
    c@.map_values(|s: String| s@)
}

/// The size of a component.
pub open spec fn size_key(c: Vec<String>) -> int {
    c@.len() as int
}

fn size_of(c: &Vec<String>) -> (n: usize)
    ensures
        n == size_key(*c),
{
    c.len()
}

/// The components the search finds, in the order it finds them.
pub open spec fn found_components(g: FinancialGraph) -> Seq<Set<int>> {
    explored(|p: int, q: int| kedge(g, p, q), g.keys().len() as int, g.keys().len()).1
}

/// Find connected components in the graph by depth-first search from each
/// symbol in `symbols()` order that no earlier search reached.  Each
/// component lists its symbols in ascending order; the components come
/// largest first (a stable sort of the order they were found in).
pub fn connected_components(graph: &FinancialGraph) -> (out: Vec<Vec<String>>)
    ensures
        exists|u: Seq<Seq<Seq<char>>>|
            #![trigger u.len()]
            u.len() == found_components(*graph).len() && (forall|i: int|
                0 <= i < u.len() ==> sorted_names(
                    #[trigger] u[i],
                    found_components(*graph)[i],
                    graph.keys(),
                )) && out@.map_values(|c: Vec<String>| names_view(c)) == sort_desc(
                u,
                |l: Seq<Seq<char>>| l.len() as int,
            ),
{
    let (keys, ids) = key_nodes(graph);
    let node_pos = node_positions(graph, &keys);
    let adj = key_adjacency(graph, &ids, &node_pos);
    let n = keys.len();
    let ghost k = graph.keys();
    let ghost e = |p: int, q: int| kedge(*graph, p, q);
    proof {
        graph.lemma_keys();
        assert(describes(adj@, e));
    }
    let mut visited: Vec<bool> = Vec::new();
    let mut i: usize = 0;
    while i < n
        invariant
            i <= n,
            visited@.len() == i,
            forall|q: int| 0 <= q < i ==> !visited@[q],
        decreases n - i,
    {
        visited.push(false);
        i = i + 1;
    }
    proof {
        assert(marked(visited@) =~= Set::<int>::empty());
    }
    let mut comps: Vec<Vec<String>> = Vec::new();
    let ghost mut u: Seq<Seq<Seq<char>>> = Seq::empty();
    let mut p: usize = 0;
    while p < n
        invariant
            n == k.len(),
            k == graph.keys(),
            k.no_duplicates(),
            keys@.map_values(|s: &String| s@) == k,
            adj@.len() == n,
            describes(adj@, e),
            e == (|p: int, q: int| kedge(*graph, p, q)),
            visited@.len() == n,
            p <= n,
            marked(visited@) == explored(e, n as int, p as nat).0,
            u.len() == explored(e, n as int, p as nat).1.len(),
            forall|j: int|
                0 <= j < u.len() ==> sorted_names(#[trigger] u[j], explored(e, n as int, p as nat).1[j], k),
            comps@.map_values(|c: Vec<String>| names_view(c)) == u,
        decreases n - p,
    {
        let ghost prev = explored(e, n as int, p as nat);
        proof {
            assert(explored(e, n as int, (p + 1) as nat) == (if prev.0.contains(p as int) {
                prev
            } else {
                (prev.0.union(reach_set(e, n as int, prev.0, p as int)), prev.1.push(
                    reach_set(e, n as int, prev.0, p as int),
                ))
            }));
        }
        if visited[p] {
            proof {
                assert(marked(visited@).contains(p as int));
            }
            p = p + 1;
            continue;
        }
        proof {
            assert(!marked(visited@).contains(p as int));
        }
        let comp = explore(&adj, &mut visited, p, Ghost(e));
        let ghost c = reach_set(e, n as int, prev.0, p as int);
        let mut names: Vec<String> = Vec::new();
        let mut t: usize = 0;
        while t < comp.len()
            invariant
                t <= comp@.len(),
                names@.len() == t,
                n == k.len(),
                keys@.map_values(|s: &String| s@) == k,
                forall|q: int| 0 <= q < comp@.len() ==> #[trigger] comp@[q] < n,
                forall|q: int| 0 <= q < t ==> #[trigger] names@[q]@ == k[comp@[q] as int],
            decreases comp@.len() - t,
        {
            proof {
                assert(keys@.map_values(|s: &String| s@)[comp@[t as int] as int] == keys@[comp@[t as int] as int]@);
            }
            names.push(keys[comp[t]].clone());
            t = t + 1;
        }
        let ghost nv = names@.map_values(|s: String| s@);
        proof {
            assert forall|a: int, b: int| 0 <= a < nv.len() && 0 <= b < nv.len() && a != b implies nv[a] != nv[b] by {
                assert(nv[a] == k[comp@[a] as int]);
                assert(nv[b] == k[comp@[b] as int]);
                assert(comp@[a] != comp@[b]);
            }
        }
        let sorted = sort_strings(names);
        proof {
            let sv = sorted@.map_values(|s: String| s@);
            let cseq = comp@.map_values(|q: usize| q as int);
            sv.to_multiset_ensures();
            nv.to_multiset_ensures();
            assert forall|x: Seq<char>| #[trigger] sv.to_set().contains(x) <==> c.map(|q: int| k[q]).contains(x) by {
                assert(sv.contains(x) <==> nv.contains(x)) by {
                    assert(sv.to_multiset().count(x) == nv.to_multiset().count(x));
                }
                if nv.contains(x) {
                    let a = choose|a: int| 0 <= a < nv.len() && nv[a] == x;
                    assert(cseq[a] == comp@[a] as int);
                    assert(cseq.to_set().contains(comp@[a] as int));
                    assert(c.contains(comp@[a] as int));
                }
                if c.map(|q: int| k[q]).contains(x) {
                    let q = choose|q: int| c.contains(q) && k[q] == x;
                    assert(cseq.to_set().contains(q));
                    let a = choose|a: int| 0 <= a < cseq.len() && cseq[a] == q;
                    assert(nv[a] == k[comp@[a] as int]);
                }
            }
            assert(sv.to_set() =~= c.map(|q: int| k[q]));
            assert(sorted_names(sv, c, k));
        }
        let ghost before = comps@;
        comps.push(sorted);
        proof {
            let sv = sorted@.map_values(|s: String| s@);
            u = u.push(sv);
            assert(comps@.map_values(|c: Vec<String>| names_view(c)) =~= before.map_values(|c: Vec<String>| names_view(c)).push(sv));
            assert forall|j: int| 0 <= j < u.len() implies sorted_names(#[trigger] u[j], explored(e, n as int, (p + 1) as nat).1[j], k) by {
                if j < u.len() - 1 {
                    assert(explored(e, n as int, (p + 1) as nat).1[j] == prev.1[j]);
                }
            }
        }
        p = p + 1;
    }
    let ghost pre = comps@;
    let sorted = sort_by_key_desc(comps, size_of, Ghost(|c: Vec<String>| size_key(c)));
    proof {
        let ka = |c: Vec<String>| size_key(c);
        let kb = |l: Seq<Seq<char>>| l.len() as int;
        let f = |c: Vec<String>| names_view(c);
        assert forall|a: Vec<String>| #[trigger] ka(a) == kb(f(a)) by {}
        lemma_sort_desc_map(pre, ka, f, kb);
        assert(found_components(*graph) == explored(e, n as int, n as nat).1);
        assert(u.len() == found_components(*graph).len());
    }
    sorted
}


/// The search so far: the visited positions are those of the components
/// found, which lie below `n` and are pairwise disjoint, and every start
/// position tried is visited.
pub open spec fn explored_ok(e: spec_fn(int, int) -> bool, n: int, p: nat) -> bool {
    let (vis, cs) = explored(e, n, p);
    &&& forall|q: int| #[trigger] vis.contains(q) <==> exists|i: int| 0 <= i < cs.len() && #[trigger] cs[i].contains(q)
    &&& forall|i: int, q: int| 0 <= i < cs.len() && #[trigger] cs[i].contains(q) ==> 0 <= q < n
    &&& forall|i: int, j: int, q: int| 0 <= i < j < cs.len() && #[trigger] cs[i].contains(q) ==> !#[trigger] cs[j].contains(q)
    &&& forall|q: int| 0 <= q < p ==> #[trigger] vis.contains(q)
}

proof fn lemma_explored_ok(e: spec_fn(int, int) -> bool, n: int, p: nat)
    requires
        p <= n,
    ensures
        explored_ok(e, n, p),
    decreases p,
{
    if p > 0 {
        lemma_explored_ok(e, n, (p - 1) as nat);
        let prev = explored(e, n, (p - 1) as nat);
        let s = p - 1;
        if !prev.0.contains(s) {
            let c = reach_set(e, n, prev.0, s);
            let (vis, cs) = explored(e, n, p);
            assert(cs == prev.1.push(c));
            assert(vis == prev.0.union(c));
            assert forall|q: int| #[trigger] c.contains(q) implies 0 <= q < n && !prev.0.contains(q) by {
                let w = choose|w: Seq<int>| #[trigger] avoiding_walk(e, n, prev.0, w) && w[0] == s && w.last() == q;
                assert(w[w.len() - 1] == q);
            }
            assert(c.contains(s)) by {
                let w = seq![s];
                assert(avoiding_walk(e, n, prev.0, w));
            }
            assert forall|q: int| #[trigger] vis.contains(q) <==> exists|i: int| 0 <= i < cs.len() && #[trigger] cs[i].contains(q) by {
                if prev.0.contains(q) {
                    let i = choose|i: int| 0 <= i < prev.1.len() && #[trigger] prev.1[i].contains(q);
                    assert(cs[i] == prev.1[i]);
                }
                if c.contains(q) {
                    assert(cs[prev.1.len() as int] == c);
                }
                if exists|i: int| 0 <= i < cs.len() && #[trigger] cs[i].contains(q) {
                    let i = choose|i: int| 0 <= i < cs.len() && #[trigger] cs[i].contains(q);
                    if i < prev.1.len() {
                        assert(cs[i] == prev.1[i]);
                    }
                }
            }
            assert forall|i: int, q: int| 0 <= i < cs.len() && #[trigger] cs[i].contains(q) implies 0 <= q < n by {
                if i < prev.1.len() {
                    assert(cs[i] == prev.1[i]);
                }
            }
            assert forall|i: int, j: int, q: int| 0 <= i < j < cs.len() && #[trigger] cs[i].contains(q) implies !#[trigger] cs[j].contains(q) by {
                assert(cs[i] == prev.1[i]);
                if j < prev.1.len() {
                    assert(cs[j] == prev.1[j]);
                } else {
                    assert(prev.0.contains(q));
                }
            }
        }
    }
}

/// Position `q` lies in some component the search finds.
pub open spec fn in_component(g: FinancialGraph, q: int) -> bool {
    exists|i: int| 0 <= i < found_components(g).len() && #[trigger] found_components(g)[i].contains(q)
}

/// The connected components partition the symbols: every position among
/// the distinct symbols lies in exactly one component, and every
/// component is made of such positions.
pub proof fn law_components_partition(g: FinancialGraph)
    ensures
        forall|q: int| 0 <= q < g.keys().len() ==> #[trigger] in_component(g, q),
        forall|i: int, q: int|
            0 <= i < found_components(g).len() && #[trigger] found_components(g)[i].contains(q) ==> 0 <= q
                < g.keys().len(),
        forall|i: int, j: int, q: int|
            0 <= i < j < found_components(g).len() && #[trigger] found_components(g)[i].contains(q)
                ==> !#[trigger] found_components(g)[j].contains(q),
{
    let n = g.keys().len();
    let e = |p: int, q: int| kedge(g, p, q);
    lemma_explored_ok(e, n as int, n as nat);
    let (vis, cs) = explored(e, n as int, n as nat);
    assert(found_components(g) == cs);
    let fc = found_components(g);
    assert forall|q: int| 0 <= q < n implies #[trigger] in_component(g, q) by {
        assert(vis.contains(q));
        let i = choose|i: int| 0 <= i < cs.len() && #[trigger] cs[i].contains(q);
        assert(fc[i].contains(q));
    }
}
} // verus!
