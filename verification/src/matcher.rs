//! Pattern matching: the symbols and edge weights each found shape is
//! matched with, and change detection between two snapshots' matches, a
//! match being identified by its pattern type and the symbols it covers,
//! in any order.

use vstd::prelude::*;

use crate::gspan::{push_weight, truncated, weight_if};
use crate::pattern::PatternType;
use crate::text::str_eq;
use crate::types::FinancialGraph;

verus! {

broadcast use vstd::seq_lib::group_to_multiset_ensures;

/// The symbols as plain values.
pub open spec fn names(v: Seq<String>) -> Seq<Seq<char>> {
    v.map_values(|s: String| s@)
}

/// How often `x` occurs in `s`.
pub open spec fn occurrences(s: Seq<Seq<char>>, x: Seq<char>) -> nat
    decreases s.len(),
{
    if s.len() == 0 {
        0
    } else {
        occurrences(s.drop_last(), x) + if s.last() == x {
            1nat
        } else {
            0nat
        }
    }
}

proof fn lemma_occurrences(s: Seq<Seq<char>>, x: Seq<char>)
    ensures
        occurrences(s, x) == s.to_multiset().count(x),
    decreases s.len(),
{
    if s.len() > 0 {
        lemma_occurrences(s.drop_last(), x);
        assert(s =~= s.drop_last().push(s.last()));
        vstd::seq_lib::to_multiset_build(s.drop_last(), s.last());
    }
}

/// How often `x` occurs in `v`.
fn count_of(v: &Vec<String>, x: &str) -> (c: usize)
    ensures
        c == names(v@).to_multiset().count(x@),
{
    let mut c: usize = 0;
    let mut i: usize = 0;
    while i < v.len()
        invariant
            i <= v@.len(),
            c == occurrences(names(v@).take(i as int), x@),
            c <= i,
        decreases v@.len() - i,
    {
        proof {
            assert(names(v@).take(i + 1).drop_last() =~= names(v@).take(i as int));
            assert(names(v@).take(i + 1).last() == v@[i as int]@);
        }
        if str_eq(v[i].as_str(), x) {
            c = c + 1;
        }
        i = i + 1;
    }
    proof {
        assert(names(v@).take(i as int) =~= names(v@));
        lemma_occurrences(names(v@), x@);
    }
    c
}

/// Every symbol of `a` occurs as often in `a` as in `b`.
fn counts_agree(a: &Vec<String>, b: &Vec<String>) -> (r: bool)
    ensures
        r == forall|i: int|
            0 <= i < a@.len() ==> names(a@).to_multiset().count(#[trigger] a@[i]@) == names(b@).to_multiset().count(
                a@[i]@,
            ),
{
    let mut i: usize = 0;
    while i < a.len()
        invariant
            i <= a@.len(),
            forall|t: int|
                0 <= t < i ==> names(a@).to_multiset().count(#[trigger] a@[t]@) == names(b@).to_multiset().count(
                    a@[t]@,
                ),
        decreases a@.len() - i,
    {
        if count_of(a, a[i].as_str()) != count_of(b, a[i].as_str()) {
            return false;
        }
        i = i + 1;
    }
    true
}

/// The two lists hold the same symbols, each as often: they are equal
/// once sorted.
pub fn same_symbols(a: &Vec<String>, b: &Vec<String>) -> (r: bool)
    ensures
        r == (names(a@).to_multiset() == names(b@).to_multiset()),
{
    let ghost ma = names(a@).to_multiset();
    let ghost mb = names(b@).to_multiset();
    let ab = counts_agree(a, b);
    let ba = counts_agree(b, a);
    proof {
        if ab && ba {
            assert forall|x: Seq<char>| ma.count(x) == mb.count(x) by {
                if ma.count(x) > 0 {
                    assert(names(a@).contains(x));
                    let i = choose|i: int| 0 <= i < names(a@).len() && names(a@)[i] == x;
                    assert(a@[i]@ == x);
                } else if mb.count(x) > 0 {
                    assert(names(b@).contains(x));
                    let i = choose|i: int| 0 <= i < names(b@).len() && names(b@)[i] == x;
                    assert(b@[i]@ == x);
                }
            }
            assert(ma =~= mb);
        } else if !ab {
            let i = choose|i: int|
                0 <= i < a@.len() && !(names(a@).to_multiset().count(#[trigger] a@[i]@) == names(
                    b@,
                ).to_multiset().count(a@[i]@));
            assert(ma.count(a@[i]@) != mb.count(a@[i]@));
        } else {
            let i = choose|i: int|
                0 <= i < b@.len() && !(names(b@).to_multiset().count(#[trigger] b@[i]@) == names(
                    a@,
                ).to_multiset().count(b@[i]@));
            assert(ma.count(b@[i]@) != mb.count(b@[i]@));
        }
    }
    ab && ba
}

/// A match's identity: its pattern type and its symbols.
pub open spec fn key_view(m: (PatternType, Vec<String>)) -> (PatternType, Seq<Seq<char>>) {
    (m.0, names(m.1@))
}

/// Two matches are the same pattern over the same symbols.
pub open spec fn same_match(a: (PatternType, Seq<Seq<char>>), b: (PatternType, Seq<Seq<char>>)) -> bool {
    a.0 == b.0 && a.1.to_multiset() == b.1.to_multiset()
}

/// `m` matches none of `others`.
pub open spec fn unmatched(m: (PatternType, Seq<Seq<char>>), others: Seq<(PatternType, Seq<Seq<char>>)>) -> bool {
    forall|o: int| 0 <= o < others.len() ==> !same_match(m, #[trigger] others[o])
}

/// The positions in `ms`, in increasing order, of the matches that match
/// none of `others`.
pub open spec fn fresh_positions(ms: Seq<(PatternType, Seq<Seq<char>>)>, others: Seq<(PatternType, Seq<Seq<char>>)>, idx: Seq<usize>) -> bool {
    &&& forall|a: int, b: int| 0 <= a < b < idx.len() ==> idx[a] < idx[b]
    &&& forall|a: int| 0 <= a < idx.len() ==> #[trigger] idx[a] < ms.len()
    &&& forall|k: usize| k < ms.len() ==> (#[trigger] idx.contains(k) <==> unmatched(ms[k as int], others))
}

/// Whether `m` matches one of `others`.
fn has_match(m: &(PatternType, Vec<String>), others: &Vec<(PatternType, Vec<String>)>) -> (r: bool)
    ensures
        r == !unmatched(key_view(*m), others@.map_values(|o: (PatternType, Vec<String>)| key_view(o))),
{
    let ghost ov = others@.map_values(|o: (PatternType, Vec<String>)| key_view(o));
    let mut o: usize = 0;
    while o < others.len()
        invariant
            o <= others@.len(),
            ov == others@.map_values(|o: (PatternType, Vec<String>)| key_view(o)),
            forall|t: int| 0 <= t < o ==> !same_match(key_view(*m), #[trigger] ov[t]),
        decreases others@.len() - o,
    {
        proof {
            assert(ov[o as int] == key_view(others@[o as int]));
        }
        if m.0 == others[o].0 && same_symbols(&m.1, &others[o].1) {
            return true;
        }
        o = o + 1;
    }
    false
}

/// The positions of the matches of `ms` that match none of `others`.
fn unmatched_positions(ms: &Vec<(PatternType, Vec<String>)>, others: &Vec<(PatternType, Vec<String>)>) -> (idx: Vec<usize>)
    ensures
        fresh_positions(
            ms@.map_values(|o: (PatternType, Vec<String>)| key_view(o)),
            others@.map_values(|o: (PatternType, Vec<String>)| key_view(o)),
            idx@,
        ),
{
    let ghost mv = ms@.map_values(|o: (PatternType, Vec<String>)| key_view(o));
    let ghost ov = others@.map_values(|o: (PatternType, Vec<String>)| key_view(o));
    let mut idx: Vec<usize> = Vec::new();
    let mut k: usize = 0;
    while k < ms.len()
        invariant
            k <= ms@.len(),
            mv == ms@.map_values(|o: (PatternType, Vec<String>)| key_view(o)),
            ov == others@.map_values(|o: (PatternType, Vec<String>)| key_view(o)),
            forall|a: int, b: int| 0 <= a < b < idx@.len() ==> idx@[a] < idx@[b],
            forall|a: int| 0 <= a < idx@.len() ==> #[trigger] idx@[a] < k,
            forall|q: usize| q < ms@.len() ==> (#[trigger] idx@.contains(q) <==> q < k && unmatched(mv[q as int], ov)),
        decreases ms@.len() - k,
    {
        proof {
            assert(mv[k as int] == key_view(ms@[k as int]));
        }
        if !has_match(&ms[k], others) {
            let ghost before = idx@;
            idx.push(k);
            proof {
                assert forall|q: usize| q < ms@.len() implies (#[trigger] idx@.contains(q) <==> q < k + 1 && unmatched(mv[q as int], ov)) by {
                    if before.contains(q) {
                        let t = choose|t: int| 0 <= t < before.len() && before[t] == q;
                        assert(idx@[t] == q);
                    }
                    if q == k {
                        assert(idx@[before.len() as int] == q);
                    }
                    if idx@.contains(q) && q != k {
                        let t = choose|t: int| 0 <= t < idx@.len() && idx@[t] == q;
                        assert(t < before.len());
                        assert(before[t] == q);
                    }
                }
            }
        }
        k = k + 1;
    }
    idx
}

/// Compare the matches of two snapshots, each given as its pattern type
/// and symbols: the positions of the new matches that match no old one
/// (appeared) and of the old matches that match no new one
/// (disappeared), each in increasing order.  Two matches are the same
/// when their types are equal and their symbols are equal once sorted.
pub fn changes_between(old: &Vec<(PatternType, Vec<String>)>, new: &Vec<(PatternType, Vec<String>)>) -> (r: (
    Vec<usize>,
    Vec<usize>,
))
    ensures
        fresh_positions(
            new@.map_values(|o: (PatternType, Vec<String>)| key_view(o)),
            old@.map_values(|o: (PatternType, Vec<String>)| key_view(o)),
            r.0@,
        ),
        fresh_positions(
            old@.map_values(|o: (PatternType, Vec<String>)| key_view(o)),
            new@.map_values(|o: (PatternType, Vec<String>)| key_view(o)),
            r.1@,
        ),
        old@ == new@ ==> r.0@.len() == 0 && r.1@.len() == 0,
{
    let appeared = unmatched_positions(new, old);
    let disappeared = unmatched_positions(old, new);
    proof {
        if old@ == new@ {
            let v = old@.map_values(|o: (PatternType, Vec<String>)| key_view(o));
            lemma_no_change(v, appeared@);
            lemma_no_change(v, disappeared@);
        }
    }
    (appeared, disappeared)
}

proof fn lemma_no_change(ms: Seq<(PatternType, Seq<Seq<char>>)>, idx: Seq<usize>)
    requires
        fresh_positions(ms, ms, idx),
    ensures
        idx.len() == 0,
{
    if idx.len() > 0 {
        let k = idx[0];
        assert(idx.contains(k));
        assert(!same_match(ms[k as int], ms[k as int]));
    }
}


/// A match as plain values: its symbols and its edge weights.
pub open spec fn part_view(p: (Vec<String>, Vec<u64>)) -> (Seq<Seq<char>>, Seq<u64>) {
    (names(p.0@), p.1@)
}

/// The weights a triangle `(a, b, c)` is matched with: `a`–`b`, `b`–`c`,
/// then `a`–`c`, each where the graph has the edge.
pub open spec fn triangle_part(g: FinancialGraph, t: (Seq<char>, Seq<char>, Seq<char>)) -> (Seq<Seq<char>>, Seq<u64>) {
    (seq![t.0, t.1, t.2], weight_if(g, t.0, t.1) + weight_if(g, t.1, t.2) + weight_if(g, t.0, t.2))
}

/// The symbols and edge weights of each triangle.
pub fn triangle_parts(graph: &FinancialGraph, triangles: &Vec<(String, String, String)>) -> (parts: Vec<(Vec<String>, Vec<u64>)>)
    ensures
        parts@.len() == triangles@.len(),
        forall|i: int|
            0 <= i < parts@.len() ==> part_view(#[trigger] parts@[i]) == triangle_part(
                *graph,
                (triangles@[i].0@, triangles@[i].1@, triangles@[i].2@),
            ),
{
    let mut parts: Vec<(Vec<String>, Vec<u64>)> = Vec::new();
    let mut i: usize = 0;
    while i < triangles.len()
        invariant
            i <= triangles@.len(),
            parts@.len() == i,
            forall|k: int|
                0 <= k < i ==> part_view(#[trigger] parts@[k]) == triangle_part(
                    *graph,
                    (triangles@[k].0@, triangles@[k].1@, triangles@[k].2@),
                ),
        decreases triangles@.len() - i,
    {
        let t = &triangles[i];
        let mut w: Vec<u64> = Vec::new();
        push_weight(graph, t.0.as_str(), t.1.as_str(), &mut w);
        push_weight(graph, t.1.as_str(), t.2.as_str(), &mut w);
        push_weight(graph, t.0.as_str(), t.2.as_str(), &mut w);
        let mut syms: Vec<String> = Vec::new();
        syms.push(t.0.clone());
        syms.push(t.1.clone());
        syms.push(t.2.clone());
        proof {
            assert(names(syms@) =~= seq![t.0@, t.1@, t.2@]);
            assert(w@ =~= weight_if(*graph, t.0@, t.1@) + weight_if(*graph, t.1@, t.2@) + weight_if(*graph, t.0@, t.2@));
        }
        parts.push((syms, w));
        i = i + 1;
    }
    parts
}

/// The weights of the edges from a hub to each of its spokes, in order,
/// where the graph has them.
pub open spec fn spoke_weights(g: FinancialGraph, hub: Seq<char>, spokes: Seq<Seq<char>>) -> Seq<u64>
    decreases spokes.len(),
{
    if spokes.len() == 0 {
        Seq::empty()
    } else {
        spoke_weights(g, hub, spokes.drop_last()) + weight_if(g, hub, spokes.last())
    }
}

/// A star matched with a pattern of `nodes` nodes and `edges` edges: the
/// hub and its spokes, cut to `nodes` symbols, and the hub–spoke weights,
/// cut to `edges` weights.
pub open spec fn star_part(g: FinancialGraph, hub: Seq<char>, spokes: Seq<Seq<char>>, nodes: int, edges: int) -> (
    Seq<Seq<char>>,
    Seq<u64>,
) {
    (truncated(seq![hub] + spokes, nodes), truncated(spoke_weights(g, hub, spokes), edges))
}

/// The symbols and edge weights of each star, for a star pattern of
/// `node_count` nodes and `edge_count` edges.
pub fn star_parts(graph: &FinancialGraph, stars: &Vec<(String, Vec<String>)>, node_count: usize, edge_count: usize) -> (parts: Vec<(Vec<String>, Vec<u64>)>)
    ensures
        parts@.len() == stars@.len(),
        forall|i: int|
            0 <= i < parts@.len() ==> part_view(#[trigger] parts@[i]) == star_part(
                *graph,
                stars@[i].0@,
                names(stars@[i].1@),
                node_count as int,
                edge_count as int,
            ),
{
    let mut parts: Vec<(Vec<String>, Vec<u64>)> = Vec::new();
    let mut i: usize = 0;
    while i < stars.len()
        invariant
            i <= stars@.len(),
            parts@.len() == i,
            forall|k: int|
                0 <= k < i ==> part_view(#[trigger] parts@[k]) == star_part(
                    *graph,
                    stars@[k].0@,
                    names(stars@[k].1@),
                    node_count as int,
                    edge_count as int,
                ),
        decreases stars@.len() - i,
    {
        let hub = &stars[i].0;
        let spokes = &stars[i].1;
        let mut syms: Vec<String> = Vec::new();
        syms.push(hub.clone());
        let mut w: Vec<u64> = Vec::new();
        let mut j: usize = 0;
        proof {
            assert(names(syms@) =~= seq![hub@] + names(spokes@).take(0));
            assert(names(spokes@).take(0) =~= Seq::<Seq<char>>::empty());
        }
        while j < spokes.len()
            invariant
                j <= spokes@.len(),
                names(syms@) == seq![hub@] + names(spokes@).take(j as int),
                w@ == spoke_weights(*graph, hub@, names(spokes@).take(j as int)),
            decreases spokes@.len() - j,
        {
            let ghost prev = syms@;
            let x = spokes[j].clone();
            proof {
                assert(x@ == spokes@[j as int]@);
            }
            syms.push(x);
            push_weight(graph, hub.as_str(), spokes[j].as_str(), &mut w);
            proof {
                let sp = names(spokes@);
                assert(names(syms@) =~= names(prev).push(spokes@[j as int]@));
                assert(sp.take(j + 1) =~= sp.take(j as int).push(spokes@[j as int]@));
                assert(sp.take(j + 1).drop_last() =~= sp.take(j as int));
                assert(names(syms@) =~= seq![hub@] + sp.take(j + 1));
            }
            j = j + 1;
        }
        proof {
            assert(names(spokes@).take(j as int) =~= names(spokes@));
        }
        let ghost full_syms = names(syms@);
        let ghost full_w = w@;
        syms.truncate(node_count);
        w.truncate(edge_count);
        proof {
            if node_count <= full_syms.len() {
                assert(names(syms@) =~= full_syms.take(node_count as int));
            }
            if edge_count <= full_w.len() {
                assert(w@ =~= full_w.take(edge_count as int));
            }
        }
        parts.push((syms, w));
        i = i + 1;
    }
    parts
}

/// The weights along a chain: each symbol to the next, where the graph has
/// the edge.
pub open spec fn path_weights(g: FinancialGraph, c: Seq<Seq<char>>) -> Seq<u64>
    decreases c.len(),
{
    if c.len() < 2 {
        Seq::empty()
    } else {
        path_weights(g, c.drop_last()) + weight_if(g, c[c.len() - 2], c.last())
    }
}

/// The symbols and edge weights of each chain; every chain has at least
/// one symbol.
pub fn chain_parts(graph: &FinancialGraph, chains: &Vec<Vec<String>>) -> (parts: Vec<(Vec<String>, Vec<u64>)>)
    requires
        forall|i: int| 0 <= i < chains@.len() ==> #[trigger] chains@[i]@.len() >= 1,
    ensures
        parts@.len() == chains@.len(),
        forall|i: int|
            0 <= i < parts@.len() ==> part_view(#[trigger] parts@[i]) == (
                names(chains@[i]@),
                path_weights(*graph, names(chains@[i]@)),
            ),
{
    let mut parts: Vec<(Vec<String>, Vec<u64>)> = Vec::new();
    let mut i: usize = 0;
    while i < chains.len()
        invariant
            i <= chains@.len(),
            forall|k: int| 0 <= k < chains@.len() ==> #[trigger] chains@[k]@.len() >= 1,
            parts@.len() == i,
            forall|k: int|
                0 <= k < i ==> part_view(#[trigger] parts@[k]) == (
                    names(chains@[k]@),
                    path_weights(*graph, names(chains@[k]@)),
                ),
        decreases chains@.len() - i,
    {
        let c = &chains[i];
        let mut w: Vec<u64> = Vec::new();
        let mut j: usize = 0;
        proof {
            assert(c@.len() >= 1);
        }
        while j < c.len() - 1
            invariant
                c@.len() >= 1,
                j <= c@.len() - 1,
                w@ == path_weights(*graph, names(c@).take(j + 1)),
            decreases c@.len() - 1 - j,
        {
            push_weight(graph, c[j].as_str(), c[j + 1].as_str(), &mut w);
            proof {
                let nc = names(c@);
                assert(nc.take(j + 2).drop_last() =~= nc.take(j + 1));
                assert(nc.take(j + 2)[j as int] == c@[j as int]@);
                assert(nc.take(j + 2).last() == c@[j + 1]@);
            }
            j = j + 1;
        }
        proof {
            assert(names(c@).take(j + 1) =~= names(c@));
        }
        let mut syms: Vec<String> = Vec::new();
        let mut t: usize = 0;
        while t < c.len()
            invariant
                t <= c@.len(),
                names(syms@) == names(c@).take(t as int),
            decreases c@.len() - t,
        {
            let ghost prev = syms@;
            let x = c[t].clone();
            proof {
                assert(x@ == c@[t as int]@);
            }
            syms.push(x);
            proof {
                assert(names(syms@) =~= names(prev).push(c@[t as int]@));
                assert(names(c@).take(t + 1) =~= names(c@).take(t as int).push(c@[t as int]@));
                assert(names(syms@) =~= names(c@).take(t + 1));
            }
            t = t + 1;
        }
        proof {
            assert(names(c@).take(t as int) =~= names(c@));
        }
        parts.push((syms, w));
        i = i + 1;
    }
    parts
}

/// The weights between the symbols of a clique at positions `(r, j')`,
/// `r < j' < j`, in order.
pub open spec fn row_weights(g: FinancialGraph, c: Seq<Seq<char>>, r: int, j: int) -> Seq<u64>
    decreases j - r,
{
    if j <= r + 1 {
        Seq::empty()
    } else {
        row_weights(g, c, r, j - 1) + weight_if(g, c[r], c[j - 1])
    }
}

/// The weights between the symbols of a clique, pair by pair in
/// lexicographic order of positions, rows below `r`.
pub open spec fn pair_weights(g: FinancialGraph, c: Seq<Seq<char>>, r: int) -> Seq<u64>
    decreases r,
{
    if r <= 0 {
        Seq::empty()
    } else {
        pair_weights(g, c, r - 1) + row_weights(g, c, r - 1, c.len() as int)
    }
}

/// The cliques of exactly `size` symbols, in order.
pub open spec fn sized(cl: Seq<Seq<Seq<char>>>, size: nat) -> Seq<Seq<Seq<char>>>
    decreases cl.len(),
{
    if cl.len() == 0 {
        Seq::empty()
    } else {
        sized(cl.drop_last(), size) + if cl.last().len() == size {
            seq![cl.last()]
        } else {
            Seq::empty()
        }
    }
}

/// The symbols and edge weights of each clique of exactly `size` symbols,
/// the weights pair by pair in lexicographic order of positions.
pub fn clique_parts(graph: &FinancialGraph, cliques: &Vec<Vec<String>>, size: usize) -> (parts: Vec<(Vec<String>, Vec<u64>)>)
    ensures
        parts@.map_values(|p: (Vec<String>, Vec<u64>)| part_view(p)) == sized(
            cliques@.map_values(|c: Vec<String>| names(c@)),
            size as nat,
        ).map_values(|c: Seq<Seq<char>>| (c, pair_weights(*graph, c, c.len() as int))),
{
    let ghost cv = cliques@.map_values(|c: Vec<String>| names(c@));
    let ghost f = |c: Seq<Seq<char>>| (c, pair_weights(*graph, c, c.len() as int));
    let ghost pv = |p: (Vec<String>, Vec<u64>)| part_view(p);
    let mut parts: Vec<(Vec<String>, Vec<u64>)> = Vec::new();
    let mut i: usize = 0;
    proof {
        assert(cv.take(0) =~= Seq::<Seq<Seq<char>>>::empty());
        assert(parts@.map_values(pv) =~= sized(cv.take(0), size as nat).map_values(f));
    }
    while i < cliques.len()
        invariant
            i <= cliques@.len(),
            cv == cliques@.map_values(|c: Vec<String>| names(c@)),
            f == (|c: Seq<Seq<char>>| (c, pair_weights(*graph, c, c.len() as int))),
            pv == (|p: (Vec<String>, Vec<u64>)| part_view(p)),
            parts@.map_values(pv) == sized(cv.take(i as int), size as nat).map_values(f),
        decreases cliques@.len() - i,
    {
        let c = &cliques[i];
        let ghost nc = names(c@);
        proof {
            assert(cv.take(i + 1).drop_last() =~= cv.take(i as int));
            assert(cv.take(i + 1).last() == nc);
        }
        if c.len() == size {
            let n = c.len();
            let mut w: Vec<u64> = Vec::new();
            let mut r: usize = 0;
            while r < n
                invariant
                    n == c@.len(),
                    nc == names(c@),
                    r <= n,
                    w@ == pair_weights(*graph, nc, r as int),
                decreases n - r,
            {
                let mut j: usize = r + 1;
                let ghost base = w@;
                proof {
                    assert(base + row_weights(*graph, nc, r as int, j as int) =~= base);
                }
                while j < n
                    invariant
                        n == c@.len(),
                        nc == names(c@),
                        r < n,
                        r + 1 <= j <= n,
                        base == pair_weights(*graph, nc, r as int),
                        w@ == base + row_weights(*graph, nc, r as int, j as int),
                    decreases n - j,
                {
                    push_weight(graph, c[r].as_str(), c[j].as_str(), &mut w);
                    proof {
                        assert(nc[r as int] == c@[r as int]@ && nc[j as int] == c@[j as int]@);
                        assert(w@ =~= base + row_weights(*graph, nc, r as int, j + 1));
                    }
                    j = j + 1;
                }
                r = r + 1;
            }
            let mut syms: Vec<String> = Vec::new();
            let mut t: usize = 0;
            while t < n
                invariant
                    n == c@.len(),
                    t <= n,
                    names(syms@) == names(c@).take(t as int),
                decreases n - t,
            {
                let ghost prev = syms@;
                let x = c[t].clone();
                proof {
                    assert(x@ == c@[t as int]@);
                }
                syms.push(x);
                proof {
                    assert(names(syms@) =~= names(prev).push(c@[t as int]@));
                    assert(names(c@).take(t + 1) =~= names(c@).take(t as int).push(c@[t as int]@));
                    assert(names(syms@) =~= names(c@).take(t + 1));
                }
                t = t + 1;
            }
            proof {
                assert(names(c@).take(t as int) =~= names(c@));
            }
            let ghost before = parts@;
            parts.push((syms, w));
            proof {
                assert(parts@.map_values(pv) =~= before.map_values(pv).push(f(nc)));
                assert(sized(cv.take(i + 1), size as nat) =~= sized(cv.take(i as int), size as nat).push(nc));
            }
        } else {
            proof {
                assert(sized(cv.take(i + 1), size as nat) =~= sized(cv.take(i as int), size as nat));
            }
        }
        i = i + 1;
    }
    proof {
        assert(cv.take(i as int) =~= cv);
    }
    parts
}
} // verus!
