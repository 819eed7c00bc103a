//! Chains: simple paths of a given number of symbols, each found once.

use vstd::prelude::*;

use crate::algorithms::key_nodes;
use crate::components::{describes, kedge, key_adjacency, key_rel, node_positions};
use crate::types::FinancialGraph;

verus! {

/// A walk along `e` through distinct positions below `n`.
pub open spec fn simple_walk(e: spec_fn(int, int) -> bool, n: int, w: Seq<usize>) -> bool {
    &&& w.len() >= 1
    &&& w.no_duplicates()
    &&& forall|i: int| 0 <= i < w.len() ==> #[trigger] w[i] < n
    &&& forall|i: int| 0 <= i < w.len() - 1 ==> e(#[trigger] w[i] as int, w[i + 1] as int)
}

/// A simple walk of exactly `len` positions.
pub open spec fn chain_ok(e: spec_fn(int, int) -> bool, n: int, len: nat, w: Seq<usize>) -> bool {
    simple_walk(e, n, w) && w.len() == len
}

/// A chain that `find_chains` reports: a simple walk of `len` positions,
/// kept in the orientation whose start comes first among the symbols when
/// both orientations are walks.
pub open spec fn kept_chain(e: spec_fn(int, int) -> bool, n: int, len: nat, w: Seq<usize>) -> bool {
    &&& chain_ok(e, n, len, w)
    &&& chain_ok(e, n, len, w.reverse()) ==> w[0] < w.last()
}

/// The views of a list of position vectors.
pub open spec fn views(v: Seq<Vec<usize>>) -> Seq<Seq<usize>> {
    v.map_values(|x: Vec<usize>| x@)
}

/// `w` continues `prefix` to a chain of `len` positions.
pub open spec fn extends(e: spec_fn(int, int) -> bool, n: int, prefix: Seq<usize>, len: nat, w: Seq<usize>) -> bool {
    chain_ok(e, n, len, w) && prefix.len() <= w.len() && w.take(prefix.len() as int) == prefix
}

/// Append every chain of `path.len() + remaining - 1` positions that
/// continues `path`, depth first.
fn extend_chains(
    adj: &Vec<Vec<usize>>,
    path: &mut Vec<usize>,
    on_path: &mut Vec<bool>,
    remaining: usize,
    out: &mut Vec<Vec<usize>>,
    Ghost(e): Ghost<spec_fn(int, int) -> bool>,
)
    requires
        describes(adj@, e),
        remaining >= 1,
        simple_walk(e, adj@.len() as int, old(path)@),
        old(on_path)@.len() == adj@.len(),
        forall|q: usize| q < adj@.len() ==> (old(on_path)@[q as int] <==> old(path)@.contains(q)),
    ensures
        final(path)@ == old(path)@,
        final(on_path)@ == old(on_path)@,
        old(out)@.len() <= final(out)@.len(),
        forall|i: int| 0 <= i < old(out)@.len() ==> #[trigger] final(out)@[i] == old(out)@[i],
        forall|i: int|
            old(out)@.len() <= i < final(out)@.len() ==> extends(
                e,
                adj@.len() as int,
                old(path)@,
                (old(path)@.len() + remaining - 1) as nat,
                (#[trigger] final(out)@[i])@,
            ),
        forall|w: Seq<usize>|
            #[trigger] extends(e, adj@.len() as int, old(path)@, (old(path)@.len() + remaining - 1) as nat, w)
                ==> views(final(out)@).contains(w),
    decreases remaining,
{
    let ghost n = adj@.len() as int;
    let ghost p0 = path@;
    let ghost len = (p0.len() + remaining - 1) as nat;
    if remaining == 1 {
        let copy = path.clone();
        out.push(copy);
        proof {
            assert(copy@ == p0);
            assert(p0.take(p0.len() as int) =~= p0);
            assert(views(out@)[out@.len() - 1] == p0);
            assert forall|w: Seq<usize>| #[trigger] extends(e, n, p0, len, w) implies views(out@).contains(w) by {
                assert(w =~= w.take(p0.len() as int));
            }
        }
        return;
    }
    let last = path[path.len() - 1];
    let nb = &adj[last];
    let mut t: usize = 0;
    while t < nb.len()
        invariant
            describes(adj@, e),
            n == adj@.len(),
            remaining >= 2,
            p0.len() >= 1,
            last == p0[p0.len() - 1],
            len == p0.len() + remaining - 1,
            *nb == adj@[last as int],
            path@ == p0,
            on_path@ == old(on_path)@,
            simple_walk(e, n, p0),
            p0 == old(path)@,
            on_path@.len() == n,
            forall|q: usize| q < n ==> (on_path@[q as int] <==> p0.contains(q)),
            t <= nb@.len(),
            old(out)@.len() <= out@.len(),
            forall|i: int| 0 <= i < old(out)@.len() ==> #[trigger] out@[i] == old(out)@[i],
            forall|i: int| old(out)@.len() <= i < out@.len() ==> extends(e, n, p0, len, (#[trigger] out@[i])@),
            forall|w: Seq<usize>|
                #[trigger] extends(e, n, p0, len, w) && nb@.subrange(0, t as int).contains(w[p0.len() as int])
                    ==> views(out@).contains(w),
        decreases nb@.len() - t,
    {
        let q = nb[t];
        proof {
            assert(adj@[last as int]@[t as int] == q);
            assert(q < n);
        }
        let ghost out_before = out@;
        if !on_path[q] {
            path.push(q);
            on_path.set(q, true);
            proof {
                assert(adj@[last as int]@.contains(q));
                assert(e(last as int, q as int));
                assert(!p0.contains(q));
                let np = p0.push(q);
                assert(np.no_duplicates()) by {
                    assert forall|a: int, b: int| 0 <= a < np.len() && 0 <= b < np.len() && a != b implies np[a] != np[b] by {
                        if a < p0.len() && b < p0.len() {
                        } else if a < p0.len() {
                            assert(p0.contains(np[a]));
                        } else {
                            assert(p0.contains(np[b]));
                        }
                    }
                }
                assert forall|i: int| 0 <= i < np.len() - 1 implies e(#[trigger] np[i] as int, np[i + 1] as int) by {
                    if i < p0.len() - 1 {
                        assert(np[i] == p0[i] && np[i + 1] == p0[i + 1]);
                    }
                }
                assert forall|x: usize| x < n implies (on_path@[x as int] <==> np.contains(x)) by {
                    if x == q {
                        assert(np[np.len() - 1] == q);
                    } else if p0.contains(x) {
                        let k = choose|k: int| 0 <= k < p0.len() && p0[k] == x;
                        assert(np[k] == x);
                    } else if np.contains(x) {
                        let k = choose|k: int| 0 <= k < np.len() && np[k] == x;
                        if k < p0.len() {
                            assert(p0[k] == x);
                        }
                    }
                }
                assert(simple_walk(e, n, np));
            }
            extend_chains(adj, path, on_path, remaining - 1, out, Ghost(e));
            path.pop();
            on_path.set(q, false);
            proof {
                let np = p0.push(q);
                assert(path@ =~= p0);
                assert(on_path@ =~= old(on_path)@);
                assert forall|i: int| old(out)@.len() <= i < out@.len() implies extends(e, n, p0, len, (#[trigger] out@[i])@) by {
                    if i >= out_before.len() {
                        let w = out@[i]@;
                        assert(len == (np.len() + (remaining - 1) - 1) as nat);
                        assert(extends(e, n, np, len, w));
                        assert(w.take(p0.len() as int) =~= np.take(p0.len() as int));
                        assert(np.take(p0.len() as int) =~= p0);
                    } else {
                        assert(out@[i] == out_before[i]);
                    }
                }
                assert forall|w: Seq<usize>|
                    #[trigger] extends(e, n, p0, len, w) && nb@.subrange(0, t + 1).contains(w[p0.len() as int])
                        implies views(out@).contains(w) by {
                    if nb@.subrange(0, t as int).contains(w[p0.len() as int]) {
                        assert(views(out_before).contains(w));
                        let k = choose|k: int| 0 <= k < out_before.len() && views(out_before)[k] == w;
                        assert(views(out@)[k] == w);
                    } else {
                        let sub = nb@.subrange(0, t + 1);
                        let k = choose|k: int| 0 <= k < t + 1 && sub[k] == w[p0.len() as int];
                        assert(k == t);
                        assert(w[p0.len() as int] == q);
                        assert(w.take(np.len() as int) =~= np) by {
                            assert forall|i: int| 0 <= i < np.len() implies w.take(np.len() as int)[i] == np[i] by {
                                if i < p0.len() {
                                    assert(w.take(p0.len() as int)[i] == p0[i]);
                                }
                            }
                        }
                        assert(len == (np.len() + (remaining - 1) - 1) as nat);
                        assert(extends(e, n, np, (np.len() + (remaining - 1) - 1) as nat, w));
                    }
                }
            }
        } else {
            proof {
                assert forall|w: Seq<usize>|
                    #[trigger] extends(e, n, p0, len, w) && nb@.subrange(0, t + 1).contains(w[p0.len() as int])
                        implies views(out@).contains(w) by {
                    if !nb@.subrange(0, t as int).contains(w[p0.len() as int]) {
                        let sub = nb@.subrange(0, t + 1);
                        let k = choose|k: int| 0 <= k < t + 1 && sub[k] == w[p0.len() as int];
                        assert(k == t);
                        assert(p0.contains(q));
                        let j = choose|j: int| 0 <= j < p0.len() && p0[j] == q;
                        assert(w.take(p0.len() as int)[j] == p0[j]);
                        assert(w[j] == w[p0.len() as int]);
                        assert(false);
                    } else {
                        let sub = nb@.subrange(0, t as int);
                        let k = choose|k: int| 0 <= k < t && sub[k] == w[p0.len() as int];
                        assert(nb@.subrange(0, t + 1)[k] == w[p0.len() as int]);
                    }
                }
            }
        }
        t = t + 1;
    }
    proof {
        assert forall|w: Seq<usize>| #[trigger] extends(e, n, p0, len, w) implies views(out@).contains(w) by {
            let q = w[p0.len() as int];
            assert(w.take(p0.len() as int)[p0.len() - 1] == p0[p0.len() - 1]);
            assert(e(w[p0.len() - 1] as int, w[p0.len() as int] as int));
            assert(q < n);
            assert(adj@[last as int]@.contains(q));
            assert(nb@.subrange(0, nb@.len() as int) =~= nb@);
        }
    }
}

fn same_walk(a: &Vec<usize>, b: &Vec<usize>) -> (r: bool)
    ensures
        r == (a@ == b@),
{
    if a.len() != b.len() {
        return false;
    }
    let mut i: usize = 0;
    while i < a.len()
        invariant
            a@.len() == b@.len(),
            i <= a@.len(),
            forall|j: int| 0 <= j < i ==> a@[j] == b@[j],
        decreases a@.len() - i,
    {
        if a[i] != b[i] {
            return false;
        }
        i = i + 1;
    }
    proof {
        assert(a@ =~= b@);
    }
    true
}

fn contains_walk(list: &Vec<Vec<usize>>, w: &Vec<usize>) -> (r: bool)
    ensures
        r == views(list@).contains(w@),
{
    let mut i: usize = 0;
    while i < list.len()
        invariant
            i <= list@.len(),
            forall|j: int| 0 <= j < i ==> views(list@)[j] != w@,
        decreases list@.len() - i,
    {
        if same_walk(&list[i], w) {
            proof {
                assert(views(list@)[i as int] == w@);
            }
            return true;
        }
        i = i + 1;
    }
    false
}

fn reversed(v: &Vec<usize>) -> (r: Vec<usize>)
    ensures
        r@ == v@.reverse(),
{
    let mut r: Vec<usize> = Vec::new();
    let mut i = v.len();
    while i > 0
        invariant
            i <= v@.len(),
            r@ == v@.subrange(i as int, v@.len() as int).reverse(),
        decreases i,
    {
        r.push(v[i - 1]);
        i = i - 1;
        proof {
            assert(r@ =~= v@.subrange(i as int, v@.len() as int).reverse());
        }
    }
    proof {
        assert(v@.subrange(0, v@.len() as int) =~= v@);
    }
    r
}

/// `w` first occurs in `g` at `j`, and its reverse does not occur before.
pub open spec fn first_unreversed(g: Seq<Seq<usize>>, w: Seq<usize>, j: int) -> bool {
    &&& 0 <= j < g.len()
    &&& g[j] == w
    &&& forall|i: int| 0 <= i < j ==> g[i] != w && g[i] != w.reverse()
}

/// The first position at or before `j` where `w` occurs in `g`.
proof fn first_occurrence(g: Seq<Seq<usize>>, w: Seq<usize>, j: int) -> (j0: int)
    requires
        0 <= j < g.len(),
        g[j] == w,
    ensures
        0 <= j0 <= j,
        g[j0] == w,
        forall|i: int| 0 <= i < j0 ==> g[i] != w,
    decreases j,
{
    if exists|i: int| 0 <= i < j && g[i] == w {
        let i = choose|i: int| 0 <= i < j && g[i] == w;
        first_occurrence(g, w, i)
    } else {
        j
    }
}

/// Keep, in order, each walk of `gen` whose walk and reverse were not kept
/// before.
fn dedup_walks(gen: &Vec<Vec<usize>>) -> (kept: Vec<Vec<usize>>)
    ensures
        views(kept@).no_duplicates(),
        forall|w: Seq<usize>|
            #[trigger] views(kept@).contains(w) <==> exists|j: int| first_unreversed(views(gen@), w, j),
{
    let ghost g = views(gen@);
    let mut kept: Vec<Vec<usize>> = Vec::new();
    let mut i: usize = 0;
    while i < gen.len()
        invariant
            g == views(gen@),
            i <= gen@.len(),
            views(kept@).no_duplicates(),
            forall|w: Seq<usize>|
                #[trigger] views(kept@).contains(w) <==> exists|j: int| j < i && first_unreversed(g, w, j),
        decreases gen@.len() - i,
    {
        let c = &gen[i];
        let r = reversed(c);
        let ghost cw = c@;
        proof {
            assert(g[i as int] == cw);
        }
        let has_c = contains_walk(&kept, c);
        let has_r = contains_walk(&kept, &r);
        let ghost before = views(kept@);
        let ghost fresh = forall|j: int| 0 <= j < i ==> g[j] != cw && g[j] != cw.reverse();
        proof {
            assert(cw.reverse().reverse() =~= cw);
            if !fresh {
                let j = choose|j: int| 0 <= j < i && !(g[j] != cw && g[j] != cw.reverse());
                if g[j] == cw {
                    let j0 = first_occurrence(g, cw, j);
                    if forall|j2: int| 0 <= j2 < j0 ==> g[j2] != cw.reverse() {
                        assert(first_unreversed(g, cw, j0));
                        assert(has_c);
                    } else {
                        let j1 = choose|j1: int| 0 <= j1 < j0 && g[j1] == cw.reverse();
                        let j2 = first_occurrence(g, cw.reverse(), j1);
                        assert(first_unreversed(g, cw.reverse(), j2));
                        assert(has_r);
                    }
                } else {
                    let j2 = first_occurrence(g, cw.reverse(), j);
                    if forall|j3: int| 0 <= j3 < j2 ==> g[j3] != cw {
                        assert(first_unreversed(g, cw.reverse(), j2));
                        assert(has_r);
                    } else {
                        let j3 = choose|j3: int| 0 <= j3 < j2 && g[j3] == cw;
                        let j0 = first_occurrence(g, cw, j3);
                        if forall|j4: int| 0 <= j4 < j0 ==> g[j4] != cw.reverse() {
                            assert(first_unreversed(g, cw, j0));
                            assert(has_c);
                        } else {
                            let j5 = choose|j5: int| 0 <= j5 < j0 && g[j5] == cw.reverse();
                            let j6 = first_occurrence(g, cw.reverse(), j5);
                            assert(first_unreversed(g, cw.reverse(), j6));
                            assert(has_r);
                        }
                    }
                }
            } else {
                if has_c {
                    let j = choose|j: int| j < i && first_unreversed(g, cw, j);
                    assert(g[j] == cw);
                }
                if has_r {
                    let j = choose|j: int| j < i && first_unreversed(g, cw.reverse(), j);
                    assert(g[j] == cw.reverse());
                }
            }
        }
        if !has_c && !has_r {
            kept.push(c.clone());
            proof {
                assert(views(kept@) =~= before.push(cw));
            }
        }
        proof {
            assert forall|w: Seq<usize>|
                #[trigger] views(kept@).contains(w) <==> exists|j: int| j < i + 1 && first_unreversed(g, w, j) by {
                if fresh && w == cw {
                    assert(first_unreversed(g, w, i as int));
                    assert(views(kept@)[views(kept@).len() - 1] == cw);
                }
                if views(kept@).contains(w) && !(fresh && w == cw) {
                    if fresh {
                        let k = choose|k: int| 0 <= k < views(kept@).len() && views(kept@)[k] == w;
                        if k < before.len() {
                            assert(before[k] == w);
                        }
                        assert(before.contains(w));
                    }
                }
                if exists|j: int| j < i + 1 && first_unreversed(g, w, j) {
                    let j = choose|j: int| j < i + 1 && first_unreversed(g, w, j);
                    if j < i {
                        assert(before.contains(w));
                        if fresh {
                            let k = choose|k: int| 0 <= k < before.len() && before[k] == w;
                            assert(views(kept@)[k] == w);
                        }
                    } else {
                        assert(w == cw);
                        assert(fresh);
                    }
                }
            }
            if fresh {
                assert forall|a: int, b: int|
                    0 <= a < views(kept@).len() && 0 <= b < views(kept@).len() && a != b implies views(kept@)[a]
                        != views(kept@)[b] by {
                    if a < before.len() && b < before.len() {
                        assert(views(kept@)[a] == before[a] && views(kept@)[b] == before[b]);
                    } else if a < before.len() {
                        assert(views(kept@)[a] == before[a]);
                        assert(before.contains(before[a]));
                    } else {
                        assert(views(kept@)[b] == before[b]);
                        assert(before.contains(before[b]));
                    }
                }
            }
        }
        i = i + 1;
    }
    kept
}

proof fn lemma_kept_chain(g: Seq<Seq<usize>>, e: spec_fn(int, int) -> bool, n: int, len: nat, w: Seq<usize>)
    requires
        len >= 2,
        forall|i: int| 0 <= i < g.len() ==> chain_ok(e, n, len, #[trigger] g[i]),
        forall|i: int, j: int| 0 <= i < j < g.len() ==> (#[trigger] g[i])[0] <= (#[trigger] g[j])[0],
        forall|v: Seq<usize>| #[trigger] chain_ok(e, n, len, v) ==> g.contains(v),
    ensures
        (exists|j: int| first_unreversed(g, w, j)) <==> kept_chain(e, n, len, w),
{
    if exists|j: int| first_unreversed(g, w, j) {
        let j = choose|j: int| first_unreversed(g, w, j);
        assert(chain_ok(e, n, len, g[j]));
        if chain_ok(e, n, len, w.reverse()) {
            assert(g.contains(w.reverse()));
            let j2 = choose|j2: int| 0 <= j2 < g.len() && g[j2] == w.reverse();
            assert(j2 >= j);
            if j2 > j {
                assert(g[j][0] <= g[j2][0]);
            }
            assert(w.reverse()[0] == w.last());
            assert(w[0] != w.last()) by {
                assert(w.no_duplicates());
                assert(w[0] == w[0]);
            }
        }
    }
    if kept_chain(e, n, len, w) {
        assert(g.contains(w));
        let j = choose|j: int| 0 <= j < g.len() && g[j] == w;
        let j0 = first_occurrence(g, w, j);
        assert forall|i: int| 0 <= i < j0 implies g[i] != w && g[i] != w.reverse() by {
            if g[i] == w.reverse() {
                assert(chain_ok(e, n, len, g[i]));
                assert(g[i][0] <= g[j0][0]);
                assert(w.reverse()[0] == w.last());
                assert(w[0] != w.last()) by {
                    assert(w.no_duplicates());
                }
            }
        }
        assert(first_unreversed(g, w, j0));
    }
}

/// The symbols of a chain as the graph hands it out.
pub open spec fn chain_view(c: Vec<String>) -> Seq<Seq<char>> {
    c@.map_values(|s: String| s@)
}

/// The symbols of each chain.
pub open spec fn chain_views(out: Seq<Vec<String>>) -> Seq<Seq<Seq<char>>> {
    out.map_values(|c: Vec<String>| chain_view(c))
}

/// `x` is the symbol sequence of a chain that `find_chains` reports.
pub open spec fn found_chain(g: FinancialGraph, len: nat, x: Seq<Seq<char>>) -> bool {
    exists|w: Seq<usize>|
        #[trigger] kept_chain(key_rel(g), g.keys().len() as int, len, w) && x
            == w.map_values(|q: usize| g.keys()[q as int])
}

/// Find chains (paths) of `length` symbols: every simple path through
/// `length` distinct symbols, each step from a symbol to one of its
/// neighbors, searched depth first from each symbol in `symbols()` order;
/// a path whose reverse is also a path is reported once, starting from
/// whichever end comes first among the symbols.
pub fn find_chains(graph: &FinancialGraph, length: usize) -> (out: Vec<Vec<String>>)
    ensures
        length < 2 ==> out@.len() == 0,
        length >= 2 ==> forall|x: Seq<Seq<char>>|
            #[trigger] chain_views(out@).contains(x) <==> found_chain(
                *graph,
                length as nat,
                x,
            ),
        chain_views(out@).no_duplicates(),
{
    if length < 2 {
        return Vec::new();
    }
    let (keys, ids) = key_nodes(graph);
    let node_pos = node_positions(graph, &keys);
    let adj = key_adjacency(graph, &ids, &node_pos);
    let n = keys.len();
    let ghost k = graph.keys();
    let ghost e = key_rel(*graph);
    let ghost len = length as nat;
    proof {
        graph.lemma_keys();
        assert(describes(adj@, e));
    }
    let mut on_path: Vec<bool> = Vec::new();
    let mut i: usize = 0;
    while i < n
        invariant
            i <= n,
            on_path@.len() == i,
            forall|q: int| 0 <= q < i ==> !on_path@[q],
        decreases n - i,
    {
        on_path.push(false);
        i = i + 1;
    }
    let mut gen: Vec<Vec<usize>> = Vec::new();
    let mut start: usize = 0;
    while start < n
        invariant
            n == adj@.len(),
            n == k.len(),
            describes(adj@, e),
            len == length,
            length >= 2,
            on_path@.len() == n,
            forall|q: int| 0 <= q < n ==> !on_path@[q],
            start <= n,
            forall|j: int| 0 <= j < gen@.len() ==> chain_ok(e, n as int, len, #[trigger] views(gen@)[j]),
            forall|a: int, b: int|
                0 <= a < b < gen@.len() ==> (#[trigger] views(gen@)[a])[0] <= (#[trigger] views(gen@)[b])[0],
            forall|j: int| 0 <= j < gen@.len() ==> (#[trigger] views(gen@)[j])[0] < start,
            forall|v: Seq<usize>| #[trigger] chain_ok(e, n as int, len, v) && v[0] < start ==> views(gen@).contains(v),
        decreases n - start,
    {
        let mut path: Vec<usize> = Vec::new();
        path.push(start);
        on_path.set(start, true);
        let ghost gen_before = views(gen@);
        proof {
            assert(path@ == seq![start]);
            assert forall|q: usize| q < n implies (on_path@[q as int] <==> path@.contains(q)) by {
                if q == start {
                    assert(path@[0] == start);
                }
            }
        }
        extend_chains(&adj, &mut path, &mut on_path, length, &mut gen, Ghost(e));
        on_path.set(start, false);
        proof {
            assert(on_path@ =~= on_path@);
            let p0 = seq![start];
            assert forall|j: int| 0 <= j < gen@.len() implies chain_ok(e, n as int, len, #[trigger] views(gen@)[j])
                && (#[trigger] views(gen@)[j])[0] < start + 1 by {
                if j < gen_before.len() {
                    assert(views(gen@)[j] == gen_before[j]);
                } else {
                    assert(extends(e, n as int, p0, len, views(gen@)[j]));
                    assert(views(gen@)[j].take(1)[0] == p0[0]);
                }
            }
            assert forall|a: int, b: int|
                0 <= a < b < gen@.len() implies (#[trigger] views(gen@)[a])[0] <= (#[trigger] views(gen@)[b])[0] by {
                if b < gen_before.len() {
                    assert(views(gen@)[a] == gen_before[a] && views(gen@)[b] == gen_before[b]);
                } else {
                    assert(extends(e, n as int, p0, len, views(gen@)[b]));
                    assert(views(gen@)[b].take(1)[0] == p0[0]);
                    if a < gen_before.len() {
                        assert(views(gen@)[a] == gen_before[a]);
                    } else {
                        assert(extends(e, n as int, p0, len, views(gen@)[a]));
                        assert(views(gen@)[a].take(1)[0] == p0[0]);
                    }
                }
            }
            assert forall|v: Seq<usize>| #[trigger] chain_ok(e, n as int, len, v) && v[0] < start + 1 implies views(
                gen@,
            ).contains(v) by {
                if v[0] < start {
                    let j = choose|j: int| 0 <= j < gen_before.len() && gen_before[j] == v;
                    assert(views(gen@)[j] == v);
                } else {
                    assert(v.take(1) =~= p0);
                    assert(extends(e, n as int, p0, (p0.len() + length - 1) as nat, v));
                }
            }
        }
        start = start + 1;
    }
    let kept = dedup_walks(&gen);
    let mut out: Vec<Vec<String>> = Vec::new();
    let mut t: usize = 0;
    while t < kept.len()
        invariant
            t <= kept@.len(),
            out@.len() == t,
            n == k.len(),
            keys@.map_values(|s: &String| s@) == k,
            forall|j: int| 0 <= j < gen@.len() ==> chain_ok(e, n as int, len, #[trigger] views(gen@)[j]),
            forall|w: Seq<usize>|
                #[trigger] views(kept@).contains(w) <==> exists|j: int| first_unreversed(views(gen@), w, j),
            forall|j: int|
                0 <= j < t ==> chain_view(#[trigger] out@[j]) == views(kept@)[j].map_values(|q: usize| k[q as int]),
        decreases kept@.len() - t,
    {
        let w = &kept[t];
        let ghost wv = w@;
        proof {
            assert(views(kept@)[t as int] == wv);
            assert(views(kept@).contains(wv));
            let j = choose|j: int| first_unreversed(views(gen@), wv, j);
            assert(chain_ok(e, n as int, len, views(gen@)[j]));
        }
        let mut names: Vec<String> = Vec::new();
        let mut m: usize = 0;
        while m < w.len()
            invariant
                m <= wv.len(),
                *w == kept@[t as int],
                wv == w@,
                names@.len() == m,
                n == k.len(),
                keys@.map_values(|s: &String| s@) == k,
                forall|q: int| 0 <= q < wv.len() ==> #[trigger] wv[q] < n,
                forall|q: int| 0 <= q < m ==> #[trigger] names@[q]@ == k[wv[q] as int],
            decreases wv.len() - m,
        {
            proof {
                assert(keys@.map_values(|s: &String| s@)[wv[m as int] as int] == keys@[wv[m as int] as int]@);
            }
            names.push(keys[w[m]].clone());
            m = m + 1;
        }
        proof {
            assert(chain_view(names) =~= wv.map_values(|q: usize| k[q as int]));
        }
        out.push(names);
        t = t + 1;
    }
    proof {
        let ov = chain_views(out@);
        let kv = views(kept@);
        assert forall|x: Seq<Seq<char>>| #[trigger] ov.contains(x) <==> found_chain(*graph, len, x) by {
            if ov.contains(x) {
                let j = choose|j: int| 0 <= j < ov.len() && ov[j] == x;
                assert(ov[j] == chain_view(out@[j]));
                assert(kv.contains(kv[j]));
                lemma_kept_chain(views(gen@), e, n as int, len, kv[j]);
                assert(kept_chain(e, n as int, len, kv[j]));
            }
            if found_chain(*graph, len, x) {
                let w = choose|w: Seq<usize>|
                    #[trigger] kept_chain(e, n as int, len, w) && x == w.map_values(|q: usize| k[q as int]);
                lemma_kept_chain(views(gen@), e, n as int, len, w);
                assert(kv.contains(w));
                let j = choose|j: int| 0 <= j < kv.len() && kv[j] == w;
                assert(ov[j] == x);
            }
        }
        assert forall|a: int, b: int| 0 <= a < ov.len() && 0 <= b < ov.len() && a != b implies ov[a] != ov[b] by {
            if ov[a] == ov[b] {
                let wa = kv[a];
                let wb = kv[b];
                assert(kv.contains(wa) && kv.contains(wb));
                let ja = choose|j: int| first_unreversed(views(gen@), wa, j);
                let jb = choose|j: int| first_unreversed(views(gen@), wb, j);
                assert(chain_ok(e, n as int, len, views(gen@)[ja]));
                assert(chain_ok(e, n as int, len, views(gen@)[jb]));
                assert(ov[a] == wa.map_values(|q: usize| k[q as int]));
                assert(ov[b] == wb.map_values(|q: usize| k[q as int]));
                let f = |q: usize| k[q as int];
                assert(wa.map_values(f).len() == wb.map_values(f).len());
                assert(wa.len() == wb.len());
                assert forall|q: int| 0 <= q < wa.len() implies wa[q] == wb[q] by {
                    assert(wa.map_values(f)[q] == k[wa[q] as int]);
                    assert(wb.map_values(f)[q] == k[wb[q] as int]);
                    assert(k[wa[q] as int] == k[wb[q] as int]);
                    assert(wa[q] < n && wb[q] < n);
                }
                assert(wa =~= wb);
            }
        }
    }
    out
}

} // verus!
