//! Graph algorithms for pattern detection: triangles, stars, connected
//! components, chains and cliques, over the symbols of a graph.
//!
//! A symbol stands for the node it names (its latest node); two symbols
//! are linked when an edge joins their nodes.

use vstd::prelude::*;

use crate::graph_store::adjacent;
use crate::sort::{keys_desc, lemma_sort_desc, lemma_sort_desc_map, sort_by_key_desc, sort_desc};
use crate::types::FinancialGraph;

verus! {

/// The distinct symbols of `graph` and the node each names, by position.
pub fn key_nodes(graph: &FinancialGraph) -> (r: (Vec<&String>, Vec<usize>))
    ensures
        r.0@.map_values(|s: &String| s@) == graph.keys(),
        r.1@.len() == graph.keys().len(),
        forall|p: int|
            0 <= p < r.1@.len() ==> #[trigger] r.1@[p] == graph.index_of(graph.keys()[p])
                && r.1@[p] < graph.nodes().len(),
{
    let keys = graph.symbols();
    let mut ids: Vec<usize> = Vec::new();
    let mut p: usize = 0;
    proof {
        graph.lemma_keys();
    }
    while p < keys.len()
        invariant
            keys@.map_values(|s: &String| s@) == graph.keys(),
            p <= keys@.len(),
            ids@.len() == p,
            forall|q: int|
                0 <= q < p ==> #[trigger] ids@[q] == graph.index_of(graph.keys()[q]) && ids@[q]
                    < graph.nodes().len(),
            forall|x: Seq<char>| #[trigger] graph.keys().contains(x) <==> graph.syms().contains(x),
            forall|x: Seq<char>|
                #![trigger graph.index_of(x)]
                -1 <= graph.index_of(x) < graph.nodes().len() && (graph.index_of(x) >= 0
                    <==> graph.syms().contains(x)),
        decreases keys@.len() - p,
    {
        proof {
            assert(keys@.map_values(|s: &String| s@)[p as int] == keys@[p as int]@);
            assert(graph.keys().contains(keys@[p as int]@));
        }
        let i = graph.lookup(keys[p].as_str()).unwrap();
        ids.push(i);
        p = p + 1;
    }
    (keys, ids)
}

/// Positions `p < q < r` among the distinct symbols whose symbols are
/// pairwise linked.
pub open spec fn triangle_at(g: FinancialGraph, p: int, q: int, r: int) -> bool {
    &&& 0 <= p < q < r < g.keys().len()
    &&& pairwise_linked(g, p, q, r)
}

/// The symbols at positions `p`, `q`, `r` are pairwise linked.
#[verifier::opaque]
pub open spec fn pairwise_linked(g: FinancialGraph, p: int, q: int, r: int) -> bool {
    let k = g.keys();
    &&& g.linked(k[p], k[q])
    &&& g.linked(k[p], k[r])
    &&& g.linked(k[q], k[r])
}

/// Three symbols that stand at the positions of a triangle.
pub open spec fn is_triangle(g: FinancialGraph, t: (Seq<char>, Seq<char>, Seq<char>)) -> bool {
    exists|p: int, q: int, r: int| #[trigger] triangle_at(g, p, q, r) && keys_at(g, p, q, r) == t
}

/// The symbols of a triangle, as character sequences.
pub open spec fn triple_view(t: (String, String, String)) -> (Seq<char>, Seq<char>, Seq<char>) {
    (t.0@, t.1@, t.2@)
}

/// The symbols at three positions of the distinct symbols.
pub open spec fn keys_at(g: FinancialGraph, p: int, q: int, r: int) -> (Seq<char>, Seq<char>, Seq<char>) {
    (g.keys()[p], g.keys()[q], g.keys()[r])
}

/// `(p, q, r)` comes before `(i, j, k)` in lexicographic order.
pub open spec fn lex_before(p: int, q: int, r: int, i: int, j: int, k: int) -> bool {
    p < i || (p == i && (q < j || (q == j && r < k)))
}

/// `e` is a triangle that comes before the cursor `(i, j, m)`.
pub open spec fn found_before(g: FinancialGraph, e: (usize, usize, usize), i: int, j: int, m: int) -> bool {
    triangle_at(g, e.0 as int, e.1 as int, e.2 as int) && lex_before(
        e.0 as int,
        e.1 as int,
        e.2 as int,
        i,
        j,
        m,
    )
}

/// The triangle positions come in strictly increasing lexicographic order.
pub open spec fn positions_sorted(pos: Seq<(usize, usize, usize)>) -> bool {
    forall|a: int, b: int|
        0 <= a < b < pos.len() ==> lex_before(
            (#[trigger] pos[a]).0 as int,
            pos[a].1 as int,
            pos[a].2 as int,
            (#[trigger] pos[b]).0 as int,
            pos[b].1 as int,
            pos[b].2 as int,
        )
}

/// The position of a symbol among the distinct symbols.
pub open spec fn key_pos(g: FinancialGraph, s: Seq<char>) -> int {
    choose|p: int| 0 <= p < g.keys().len() && g.keys()[p] == s
}

/// The triangles come in lexicographic order of their symbols' positions
/// among the distinct symbols.
pub open spec fn triangles_in_order(g: FinancialGraph, out: Seq<(String, String, String)>) -> bool {
    forall|a: int, b: int|
        0 <= a < b < out.len() ==> lex_before(
            key_pos(g, (#[trigger] out[a]).0@),
            key_pos(g, out[a].1@),
            key_pos(g, out[a].2@),
            key_pos(g, (#[trigger] out[b]).0@),
            key_pos(g, out[b].1@),
            key_pos(g, out[b].2@),
        )
}

/// The positions of all triangles, each once, in order.
fn triangle_positions(graph: &FinancialGraph, ids: &Vec<usize>) -> (pos: Vec<(usize, usize, usize)>)
    requires
        ids@.len() == graph.keys().len(),
        forall|p: int|
            0 <= p < ids@.len() ==> #[trigger] ids@[p] == graph.index_of(graph.keys()[p])
                && ids@[p] < graph.nodes().len(),
    ensures
        pos@.no_duplicates(),
        forall|t: int|
            0 <= t < pos@.len() ==> triangle_at(
                *graph,
                (#[trigger] pos@[t]).0 as int,
                pos@[t].1 as int,
                pos@[t].2 as int,
            ),
        forall|p: int, q: int, r: int|
            #[trigger] triangle_at(*graph, p, q, r) ==> pos@.contains((p as usize, q as usize, r as usize)),
        positions_sorted(pos@),
{
    let n = ids.len();
    let ghost g = *graph;
    let mut pos: Vec<(usize, usize, usize)> = Vec::new();
    let mut i: usize = 0;
    while i < n
        invariant
            g == *graph,
            n == ids@.len(),
            ids@.len() == graph.keys().len(),
            forall|p: int|
                0 <= p < ids@.len() ==> #[trigger] ids@[p] == graph.index_of(graph.keys()[p])
                    && ids@[p] < graph.nodes().len(),
            i <= n,
            pos@.no_duplicates(),
            positions_sorted(pos@),
            forall|t: int| 0 <= t < pos@.len() ==> found_before(g, #[trigger] pos@[t], i as int, 0, 0),
            forall|p: int, q: int, r: int|
                #[trigger] triangle_at(g, p, q, r) && p < i ==> pos@.contains(
                    (p as usize, q as usize, r as usize),
                ),
        decreases n - i,
    {
        let mut j: usize = i + 1;
        while j < n
            invariant
                g == *graph,
                n == ids@.len(),
                ids@.len() == graph.keys().len(),
                forall|p: int|
                    0 <= p < ids@.len() ==> #[trigger] ids@[p] == graph.index_of(graph.keys()[p])
                        && ids@[p] < graph.nodes().len(),
                i < n,
                i + 1 <= j <= n,
                pos@.no_duplicates(),
                positions_sorted(pos@),
                forall|t: int|
                    0 <= t < pos@.len() ==> found_before(g, #[trigger] pos@[t], i as int, j as int, 0),
                forall|p: int, q: int, r: int|
                    #[trigger] triangle_at(g, p, q, r) && lex_before(p, q, r, i as int, j as int, 0)
                        ==> pos@.contains((p as usize, q as usize, r as usize)),
            decreases n - j,
        {
            if graph.linked_idx(ids[i], ids[j]) {
                let mut m: usize = j + 1;
                while m < n
                    invariant
                        g == *graph,
                        n == ids@.len(),
                        ids@.len() == graph.keys().len(),
                        forall|p: int|
                            0 <= p < ids@.len() ==> #[trigger] ids@[p] == graph.index_of(
                                graph.keys()[p],
                            ) && ids@[p] < graph.nodes().len(),
                        i < j < n,
                        j + 1 <= m <= n,
                        adjacent(graph.edge_list(), ids@[i as int] as int, ids@[j as int] as int),
                        pos@.no_duplicates(),
                        positions_sorted(pos@),
                        forall|t: int|
                            0 <= t < pos@.len() ==> found_before(
                                g,
                                #[trigger] pos@[t],
                                i as int,
                                j as int,
                                m as int,
                            ),
                        forall|p: int, q: int, r: int|
                            #[trigger] triangle_at(g, p, q, r) && lex_before(
                                p,
                                q,
                                r,
                                i as int,
                                j as int,
                                m as int,
                            ) ==> pos@.contains((p as usize, q as usize, r as usize)),
                    decreases n - m,
                {
                    if graph.linked_idx(ids[i], ids[m]) && graph.linked_idx(ids[j], ids[m]) {
                        let ghost old_pos = pos@;
                        pos.push((i, j, m));
                        proof {
                            reveal(pairwise_linked);
                            assert(triangle_at(g, i as int, j as int, m as int));
                            assert(!old_pos.contains((i, j, m)));
                            assert(pos@ =~= old_pos.push((i, j, m)));
                            assert forall|a: int, b: int| 0 <= a < b < pos@.len() implies lex_before(
                                (#[trigger] pos@[a]).0 as int,
                                pos@[a].1 as int,
                                pos@[a].2 as int,
                                (#[trigger] pos@[b]).0 as int,
                                pos@[b].1 as int,
                                pos@[b].2 as int,
                            ) by {
                                assert(pos@[a] == old_pos[a]);
                                if b < old_pos.len() {
                                    assert(pos@[b] == old_pos[b]);
                                } else {
                                    assert(found_before(g, old_pos[a], i as int, j as int, m as int));
                                }
                            }
                            assert forall|t: int| 0 <= t < pos@.len() implies found_before(
                                g,
                                #[trigger] pos@[t],
                                i as int,
                                j as int,
                                m + 1,
                            ) by {
                                if t < old_pos.len() {
                                    assert(pos@[t] == old_pos[t]);
                                }
                            }
                            assert forall|p: int, q: int, r: int|
                                #[trigger] triangle_at(g, p, q, r) && lex_before(
                                    p,
                                    q,
                                    r,
                                    i as int,
                                    j as int,
                                    m + 1,
                                ) implies pos@.contains((p as usize, q as usize, r as usize)) by {
                                if lex_before(p, q, r, i as int, j as int, m as int) {
                                    let t = choose|t: int|
                                        0 <= t < old_pos.len() && old_pos[t] == (
                                            p as usize,
                                            q as usize,
                                            r as usize,
                                        );
                                    assert(pos@[t] == old_pos[t]);
                                } else {
                                    assert(pos@[old_pos.len() as int] == (i, j, m));
                                }
                            }
                        }
                    } else {
                        proof {
                            assert forall|p: int, q: int, r: int|
                                #[trigger] triangle_at(g, p, q, r) && lex_before(
                                    p,
                                    q,
                                    r,
                                    i as int,
                                    j as int,
                                    m + 1,
                                ) implies pos@.contains((p as usize, q as usize, r as usize)) by {
                                if !lex_before(p, q, r, i as int, j as int, m as int) {
                                    assert(p == i && q == j && r == m);
                                    reveal(pairwise_linked);
                                }
                            }
                        }
                    }
                    m = m + 1;
                }
            }
            proof {
                assert forall|p: int, q: int, r: int|
                    #[trigger] triangle_at(g, p, q, r) && lex_before(p, q, r, i as int, j + 1, 0)
                        implies pos@.contains((p as usize, q as usize, r as usize)) by {
                    if !lex_before(p, q, r, i as int, j as int, 0) {
                        assert(p == i && q == j);
                        reveal(pairwise_linked);
                    }
                }
            }
            j = j + 1;
        }
        proof {
            assert forall|p: int, q: int, r: int|
                #[trigger] triangle_at(g, p, q, r) && p < i + 1 implies pos@.contains(
                    (p as usize, q as usize, r as usize),
                ) by {
                if p == i {
                    reveal(pairwise_linked);
                    assert(lex_before(p, q, r, i as int, j as int, 0));
                }
            }
        }
        i = i + 1;
    }
    pos
}

proof fn lemma_triangle_strings(
    g: FinancialGraph,
    k: Seq<Seq<char>>,
    pos: Seq<(usize, usize, usize)>,
    out: Seq<(String, String, String)>,
)
    requires
        k == g.keys(),
        k.len() <= usize::MAX,
        k.no_duplicates(),
        out.len() == pos.len(),
        pos.no_duplicates(),
        forall|u: int|
            0 <= u < pos.len() ==> triangle_at(
                g,
                (#[trigger] pos[u]).0 as int,
                pos[u].1 as int,
                pos[u].2 as int,
            ),
        forall|p: int, q: int, r: int|
            #[trigger] triangle_at(g, p, q, r) ==> pos.contains((p as usize, q as usize, r as usize)),
        forall|u: int|
            0 <= u < out.len() ==> triple_view(#[trigger] out[u]) == keys_at(
                g,
                pos[u].0 as int,
                pos[u].1 as int,
                pos[u].2 as int,
            ),
    ensures
        forall|t: int| 0 <= t < out.len() ==> is_triangle(g, triple_view(#[trigger] out[t])),
        forall|p: int, q: int, r: int|
            #[trigger] triangle_at(g, p, q, r) ==> exists|t: int|
                0 <= t < out.len() && triple_view(#[trigger] out[t]) == keys_at(g, p, q, r),
        out.map_values(|t: (String, String, String)| triple_view(t)).no_duplicates(),
{
    assert forall|p: int, q: int, r: int| #[trigger] triangle_at(g, p, q, r) implies exists|u: int|
        0 <= u < out.len() && triple_view(#[trigger] out[u]) == keys_at(g, p, q, r) by {
        assert(pos.contains((p as usize, q as usize, r as usize)));
        let u = choose|u: int| 0 <= u < pos.len() && pos[u] == (p as usize, q as usize, r as usize);
        assert(triple_view(out[u]) == keys_at(g, pos[u].0 as int, pos[u].1 as int, pos[u].2 as int));
    }
    assert forall|u: int| 0 <= u < out.len() implies is_triangle(g, triple_view(#[trigger] out[u])) by {
        let e = pos[u];
        assert(triangle_at(g, e.0 as int, e.1 as int, e.2 as int));
        assert(triple_view(out[u]) == keys_at(g, e.0 as int, e.1 as int, e.2 as int));
    }
    lemma_triangle_strings_distinct(g, k, pos, out);
}

proof fn lemma_triangle_strings_distinct(
    g: FinancialGraph,
    k: Seq<Seq<char>>,
    pos: Seq<(usize, usize, usize)>,
    out: Seq<(String, String, String)>,
)
    requires
        k == g.keys(),
        k.no_duplicates(),
        out.len() == pos.len(),
        pos.no_duplicates(),
        forall|u: int|
            0 <= u < pos.len() ==> triangle_at(
                g,
                (#[trigger] pos[u]).0 as int,
                pos[u].1 as int,
                pos[u].2 as int,
            ),
        forall|u: int|
            0 <= u < out.len() ==> triple_view(#[trigger] out[u]) == keys_at(
                g,
                pos[u].0 as int,
                pos[u].1 as int,
                pos[u].2 as int,
            ),
    ensures
        out.map_values(|t: (String, String, String)| triple_view(t)).no_duplicates(),
{
    let v = out.map_values(|t: (String, String, String)| triple_view(t));
    assert forall|a: int, b: int| 0 <= a < v.len() && 0 <= b < v.len() && a != b implies v[a] != v[b] by {
        let ea = pos[a];
        let eb = pos[b];
        assert(triangle_at(g, ea.0 as int, ea.1 as int, ea.2 as int));
        assert(triangle_at(g, eb.0 as int, eb.1 as int, eb.2 as int));
        assert(v[a] == triple_view(out[a]));
        assert(v[b] == triple_view(out[b]));
        if v[a] == v[b] {
            assert(k[ea.0 as int] == k[eb.0 as int]);
            assert(k[ea.1 as int] == k[eb.1 as int]);
            assert(k[ea.2 as int] == k[eb.2 as int]);
            assert(ea == eb);
        }
    }
}

/// Find all triangles (3-cliques) in the graph: every triple of distinct
/// symbols, taken in the order of `symbols()`, that are pairwise linked,
/// each once.
pub fn find_triangles(graph: &FinancialGraph) -> (out: Vec<(String, String, String)>)
    ensures
        forall|t: int| 0 <= t < out@.len() ==> is_triangle(*graph, triple_view(#[trigger] out@[t])),
        forall|p: int, q: int, r: int|
            #[trigger] triangle_at(*graph, p, q, r) ==> exists|t: int|
                0 <= t < out@.len() && triple_view(#[trigger] out@[t]) == keys_at(*graph, p, q, r),
        out@.map_values(|t: (String, String, String)| triple_view(t)).no_duplicates(),
        triangles_in_order(*graph, out@),
{
    let (keys, ids) = key_nodes(graph);
    let nk = keys.len();
    let pos = triangle_positions(graph, &ids);
    let ghost k = graph.keys();
    let ghost g = *graph;
    proof {
        graph.lemma_keys();
    }
    let mut out: Vec<(String, String, String)> = Vec::new();
    let mut t: usize = 0;
    while t < pos.len()
        invariant
            g == *graph,
            k == graph.keys(),
            keys@.map_values(|s: &String| s@) == k,
            t <= pos@.len(),
            out@.len() == t,
            forall|u: int|
                0 <= u < pos@.len() ==> triangle_at(
                    g,
                    (#[trigger] pos@[u]).0 as int,
                    pos@[u].1 as int,
                    pos@[u].2 as int,
                ),
            forall|u: int|
                0 <= u < t ==> triple_view(#[trigger] out@[u]) == keys_at(
                    g,
                    pos@[u].0 as int,
                    pos@[u].1 as int,
                    pos@[u].2 as int,
                ),
        decreases pos@.len() - t,
    {
        let (a, b, c) = pos[t];
        proof {
            assert(triangle_at(g, a as int, b as int, c as int));
            reveal(pairwise_linked);
            assert(keys@.map_values(|s: &String| s@)[a as int] == k[a as int]);
            assert(keys@.map_values(|s: &String| s@)[b as int] == k[b as int]);
            assert(keys@.map_values(|s: &String| s@)[c as int] == k[c as int]);
        }
        out.push((keys[a].clone(), keys[b].clone(), keys[c].clone()));
        t = t + 1;
    }
    proof {
        lemma_triangle_strings(*graph, keys@.map_values(|s: &String| s@), pos@, out@);
        assert forall|p: int| 0 <= p < k.len() implies #[trigger] key_pos(g, k[p]) == p by {
            let q = key_pos(g, k[p]);
            assert(0 <= q < k.len() && k[q] == k[p]);
        }
        assert forall|a: int, b: int| 0 <= a < b < out@.len() implies lex_before(
            key_pos(g, (#[trigger] out@[a]).0@),
            key_pos(g, out@[a].1@),
            key_pos(g, out@[a].2@),
            key_pos(g, (#[trigger] out@[b]).0@),
            key_pos(g, out@[b].1@),
            key_pos(g, out@[b].2@),
        ) by {
            let pa = pos@[a];
            let pb = pos@[b];
            assert(triangle_at(g, pa.0 as int, pa.1 as int, pa.2 as int));
            assert(triangle_at(g, pb.0 as int, pb.1 as int, pb.2 as int));
            assert(triple_view(out@[a]) == keys_at(g, pa.0 as int, pa.1 as int, pa.2 as int));
            assert(triple_view(out@[b]) == keys_at(g, pb.0 as int, pb.1 as int, pb.2 as int));
            assert(key_pos(g, k[pa.0 as int]) == pa.0 && key_pos(g, k[pa.1 as int]) == pa.1 && key_pos(g, k[pa.2 as int]) == pa.2);
            assert(key_pos(g, k[pb.0 as int]) == pb.0 && key_pos(g, k[pb.1 as int]) == pb.1 && key_pos(g, k[pb.2 as int]) == pb.2);
        }
    }
    out
}

/// A star as symbols: the hub and the symbols of its spokes.
pub open spec fn star_view(x: (String, Vec<String>)) -> (Seq<char>, Seq<Seq<char>>) {
    (x.0@, x.1@.map_values(|s: String| s@))
}

/// The hubs among `keys` with at least `min_spokes` spokes, in order,
/// each with the symbols of its neighbors.
pub open spec fn star_list(g: FinancialGraph, keys: Seq<Seq<char>>, min_spokes: nat) -> Seq<
    (Seq<char>, Seq<Seq<char>>),
>
    decreases keys.len(),
{
    if keys.len() == 0 {
        Seq::empty()
    } else {
        let rest = star_list(g, keys.drop_last(), min_spokes);
        let s = keys.last();
        if g.neighbor_syms(s).len() >= min_spokes {
            rest.push((s, g.neighbor_syms(s)))
        } else {
            rest
        }
    }
}

/// The number of spokes of a star.
pub open spec fn spoke_count(x: (Seq<char>, Seq<Seq<char>>)) -> int {
    x.1.len() as int
}

/// The number of spokes of a star as the graph hands it out.
pub open spec fn spokes_key(x: (String, Vec<String>)) -> int {
    x.1@.len() as int
}

fn spokes_of(x: &(String, Vec<String>)) -> (n: usize)
    ensures
        n == spokes_key(*x),
{
    x.1.len()
}

/// Find star patterns (hub with many connections): every symbol with at
/// least `min_spokes` neighbors, with its neighbors, most connected first
/// (a stable sort of the symbols in `symbols()` order).
pub fn find_stars(graph: &FinancialGraph, min_spokes: usize) -> (out: Vec<(String, Vec<String>)>)
    ensures
        out@.map_values(|x: (String, Vec<String>)| star_view(x)) == sort_desc(
            star_list(*graph, graph.keys(), min_spokes as nat),
            |x: (Seq<char>, Seq<Seq<char>>)| spoke_count(x),
        ),
        keys_desc(
            out@.map_values(|x: (String, Vec<String>)| star_view(x)),
            |x: (Seq<char>, Seq<Seq<char>>)| spoke_count(x),
        ),
{
    let keys = graph.symbols();
    let ghost k = graph.keys();
    let mut stars: Vec<(String, Vec<String>)> = Vec::new();
    let mut p: usize = 0;
    proof {
        assert(k.take(0) =~= Seq::<Seq<char>>::empty());
        assert(stars@.map_values(|x: (String, Vec<String>)| star_view(x)) =~= Seq::<
            (Seq<char>, Seq<Seq<char>>),
        >::empty());
    }
    while p < keys.len()
        invariant
            k == graph.keys(),
            keys@.map_values(|s: &String| s@) == k,
            p <= keys@.len(),
            stars@.map_values(|x: (String, Vec<String>)| star_view(x)) == star_list(
                *graph,
                k.take(p as int),
                min_spokes as nat,
            ),
        decreases keys@.len() - p,
    {
        let nbrs = graph.neighbors(keys[p].as_str());
        let ghost before = stars@;
        proof {
            assert(keys@.map_values(|s: &String| s@)[p as int] == keys@[p as int]@);
            assert(k.take(p + 1).drop_last() =~= k.take(p as int));
            assert(k.take(p + 1).last() == k[p as int]);
        }
        if nbrs.len() >= min_spokes {
            stars.push((keys[p].clone(), nbrs));
            proof {
                assert(stars@.map_values(|x: (String, Vec<String>)| star_view(x)) =~= before.map_values(
                    |x: (String, Vec<String>)| star_view(x),
                ).push(star_view(stars@[before.len() as int])));
            }
        }
        p = p + 1;
    }
    proof {
        assert(k.take(p as int) =~= k);
    }
    let ghost pre = stars@;
    let sorted = sort_by_key_desc(stars, spokes_of, Ghost(|x: (String, Vec<String>)| spokes_key(x)));
    proof {
        let ka = |x: (String, Vec<String>)| spokes_key(x);
        let kb = |x: (Seq<char>, Seq<Seq<char>>)| spoke_count(x);
        let f = |x: (String, Vec<String>)| star_view(x);
        assert forall|a: (String, Vec<String>)| #[trigger] ka(a) == kb(f(a)) by {
        }
        lemma_sort_desc_map(pre, ka, f, kb);
        lemma_sort_desc(pre.map_values(f), kb);
    }
    sorted
}


/// The pairs `(i, j')`, `i < j' < j`, of entries of `nb` whose symbols are
/// linked.
pub open spec fn row_links(g: FinancialGraph, nb: Seq<Seq<char>>, i: int, j: int) -> int
    decreases j - i,
{
    if j <= i + 1 {
        0
    } else {
        row_links(g, nb, i, j - 1) + if g.linked(nb[i], nb[j - 1]) {
            1int
        } else {
            0int
        }
    }
}

/// The pairs `i < j` of entries of `nb`, rows below `r`, whose symbols are
/// linked.
pub open spec fn pair_links(g: FinancialGraph, nb: Seq<Seq<char>>, r: int) -> int
    decreases r,
{
    if r <= 0 {
        0
    } else {
        pair_links(g, nb, r - 1) + row_links(g, nb, r - 1, nb.len() as int)
    }
}

proof fn lemma_row_links_bound(g: FinancialGraph, nb: Seq<Seq<char>>, i: int, j: int)
    ensures
        0 <= row_links(g, nb, i, j) <= if j > i + 1 { j - i - 1 } else { 0 },
    decreases j - i,
{
    if j > i + 1 {
        lemma_row_links_bound(g, nb, i, j - 1);
    }
}

/// For each symbol, in `symbols()` order: the number of its neighbors (one
/// per joining edge) and the number of pairs of those neighbors that are
/// linked, the counts behind the clustering coefficient.
pub fn neighborhood_links(graph: &FinancialGraph) -> (r: Vec<(usize, u128)>)
    ensures
        r@.len() == graph.keys().len(),
        forall|p: int|
            0 <= p < r@.len() ==> {
                let nb = graph.neighbor_syms(graph.keys()[p]);
                &&& (#[trigger] r@[p]).0 == nb.len()
                &&& r@[p].1 == pair_links(*graph, nb, nb.len() as int)
            },
{
    let keys = graph.symbols();
    let mut r: Vec<(usize, u128)> = Vec::new();
    let mut p: usize = 0;
    while p < keys.len()
        invariant
            keys@.map_values(|s: &String| s@) == graph.keys(),
            p <= keys@.len(),
            r@.len() == p,
            forall|q: int|
                0 <= q < p ==> {
                    let nb = graph.neighbor_syms(graph.keys()[q]);
                    &&& (#[trigger] r@[q]).0 == nb.len()
                    &&& r@[q].1 == pair_links(*graph, nb, nb.len() as int)
                },
        decreases keys@.len() - p,
    {
        proof {
            assert(keys@.map_values(|s: &String| s@)[p as int] == keys@[p as int]@);
        }
        let nb = graph.neighbors(keys[p].as_str());
        let ghost nv = nb@.map_values(|s: String| s@);
        let k = nb.len();
        let mut links: u128 = 0;
        let mut i: usize = 0;
        while i < k
            invariant
                k == nb@.len(),
                nv == nb@.map_values(|s: String| s@),
                i <= k,
                links == pair_links(*graph, nv, i as int),
                links <= i * k,
            decreases k - i,
        {
            let mut j: usize = i + 1;
            let ghost base = links;
            while j < k
                invariant
                    k == nb@.len(),
                    nv == nb@.map_values(|s: String| s@),
                    i < k,
                    i + 1 <= j <= k,
                    base == pair_links(*graph, nv, i as int),
                    base <= i * k,
                    links == base + row_links(*graph, nv, i as int, j as int),
                    links <= i * k + j,
                decreases k - j,
            {
                proof {
                    lemma_row_links_bound(*graph, nv, i as int, j as int);
                    assert(nv[i as int] == nb@[i as int]@ && nv[j as int] == nb@[j as int]@);
                    assert(i * k + j < u128::MAX) by (nonlinear_arith)
                        requires
                            i < k,
                            j < k,
                            k <= usize::MAX,
                    ;
                }
                if graph.has_edge(nb[i].as_str(), nb[j].as_str()) {
                    links = links + 1;
                }
                j = j + 1;
            }
            proof {
                assert(links <= (i + 1) * k) by (nonlinear_arith)
                    requires
                        links <= i * k + k,
                ;
            }
            i = i + 1;
        }
        r.push((k, links));
        proof {
            assert(nv == graph.neighbor_syms(graph.keys()[p as int]));
        }
        p = p + 1;
    }
    r
}
} // verus!
