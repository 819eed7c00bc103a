//! Frequent subgraph mining: the shapes a graph holds (triangles, stars,
//! cliques, chains), counted and ranked by how often they occur, and the
//! same across snapshots of a graph over time.

use vstd::prelude::*;

use crate::algorithms::{find_stars, find_triangles, is_triangle, keys_at, star_list, triangle_at, triple_view};
use crate::chains::{chain_views, find_chains, found_chain};
use crate::cliques::{cliques_found, find_cliques};
use crate::pattern::{code_hashes, edge_pairs, pair_pos, plain_edges, plain_nodes, DFSCode, DfsEntry, Pattern, PatternNode, PatternType};
use crate::sort::{lemma_sort_desc, lemma_sort_desc_map, sort_by_key_desc, sort_desc};
use crate::text::decimal;
use crate::types::FinancialGraph;

verus! {

/// Errors during mining.
#[derive(Debug, Clone, Copy, PartialEq, Eq, Structural)]
pub enum MiningError {
    /// The graph has no nodes (or no snapshot was given).
    EmptyGraph,
    /// Invalid minimum support.
    InvalidSupport(usize),
    /// Mining timeout.
    Timeout,
}

/// gSpan miner for frequent subgraph discovery.
#[derive(Debug, Clone, Copy)]
pub struct GSpanMiner {
    /// Minimum support threshold
    min_support: usize,
    /// Maximum pattern size (nodes)
    max_size: usize,
    /// Maximum number of patterns to find
    max_patterns: usize,
    /// Minimum edge weight to consider (IEEE-754 bits)
    min_edge_weight: u64,
}

/// A pattern described by its type, the size its constructor was given
/// (spokes for a star, nodes otherwise) and its support.
pub type Shape = (PatternType, nat, int);

/// The pattern one of the shape constructors builds for `t`, with no
/// average weight: its id, nodes and edges.
pub open spec fn well_shaped(p: Pattern) -> bool {
    let n = p.nodes@.len();
    &&& p.dfs_code.edges@ == Seq::<DfsEntry>::empty()
    &&& p.metadata@ == Map::<String, String>::empty()
    &&& p.avg_weight == 0
    &&& plain_edges(p.edges@)
    &&& match p.pattern_type {
        PatternType::Triangle => {
            &&& p.id@ == "triangle"@
            &&& plain_nodes(p.nodes@, 3)
            &&& edge_pairs(p.edges@) == seq![(0usize, 1usize), (1usize, 2usize), (0usize, 2usize)]
        },
        PatternType::Star => {
            &&& n >= 1
            &&& p.id@ == "star"@ + "_"@ + decimal((n - 1) as nat)
            &&& plain_nodes(p.nodes@, n)
            &&& edge_pairs(p.edges@) == Seq::new((n - 1) as nat, |k: int| (0usize, (k + 1) as usize))
        },
        PatternType::Chain => {
            &&& n >= 1
            &&& p.id@ == "chain"@ + "_"@ + decimal(n)
            &&& plain_nodes(p.nodes@, n)
            &&& edge_pairs(p.edges@) == Seq::new((n - 1) as nat, |k: int| (k as usize, (k + 1) as usize))
        },
        PatternType::Clique => {
            &&& p.id@ == "clique"@ + "_"@ + decimal(n)
            &&& plain_nodes(p.nodes@, n)
            &&& 2 * p.edges@.len() == n * (n - 1)
            &&& forall|i: int, j: int|
                0 <= i < j < n ==> #[trigger] edge_pairs(p.edges@)[pair_pos(i, j, n)] == (i as usize, j as usize)
        },
        _ => false,
    }
}

/// The shape of a pattern: its type, its size and its support.
pub open spec fn shape_of(p: Pattern) -> Shape {
    let n = p.nodes@.len();
    (p.pattern_type, if p.pattern_type == PatternType::Star { (n - 1) as nat } else { n }, p.support as int)
}

/// The support of a shape.
pub open spec fn shape_support(d: Shape) -> int {
    d.2
}

/// The support of a pattern.
pub open spec fn support_key(p: Pattern) -> int {
    p.support as int
}

/// The number of distinct triangles in the graph.
pub open spec fn triangle_count(g: FinancialGraph) -> int {
    Set::new(|t: (Seq<char>, Seq<char>, Seq<char>)| is_triangle(g, t)).len() as int
}

/// The number of symbols with at least `k` neighbor symbols.
pub open spec fn star_count(g: FinancialGraph, k: nat) -> int {
    star_list(g, g.keys(), k).len() as int
}

/// The number of distinct chains of `len` symbols.
pub open spec fn chain_count(g: FinancialGraph, len: nat) -> int {
    Set::new(|x: Seq<Seq<char>>| found_chain(g, len, x)).len() as int
}

/// The number of lists of exactly `s` symbols.
pub open spec fn count_len(cl: Seq<Vec<String>>, s: nat) -> int
    decreases cl.len(),
{
    if cl.len() == 0 {
        0
    } else {
        count_len(cl.drop_last(), s) + if cl.last()@.len() == s {
            1int
        } else {
            0int
        }
    }
}

/// `d` when `keep` holds, and nothing otherwise.
pub open spec fn shape_if(keep: bool, d: Shape) -> Seq<Shape> {
    if keep {
        seq![d]
    } else {
        Seq::empty()
    }
}

/// The shapes with at least `min` occurrences, in the order they are
/// looked for: the triangle, stars of 3, 4 and 5 spokes, cliques of 4 and
/// 5 symbols among the cliques `cl`, and chains of 3, 4 and 5 symbols.
pub open spec fn known_shapes(min: int, g: FinancialGraph, cl: Seq<Vec<String>>) -> Seq<Shape> {
    shape_if(triangle_count(g) >= min, (PatternType::Triangle, 3, triangle_count(g)))
        + shape_if(star_count(g, 3) >= min, (PatternType::Star, 3, star_count(g, 3)))
        + shape_if(star_count(g, 4) >= min, (PatternType::Star, 4, star_count(g, 4)))
        + shape_if(star_count(g, 5) >= min, (PatternType::Star, 5, star_count(g, 5)))
        + shape_if(count_len(cl, 4) >= min, (PatternType::Clique, 4, count_len(cl, 4)))
        + shape_if(count_len(cl, 5) >= min, (PatternType::Clique, 5, count_len(cl, 5)))
        + shape_if(chain_count(g, 3) >= min, (PatternType::Chain, 3, chain_count(g, 3)))
        + shape_if(chain_count(g, 4) >= min, (PatternType::Chain, 4, chain_count(g, 4)))
        + shape_if(chain_count(g, 5) >= min, (PatternType::Chain, 5, chain_count(g, 5)))
}

/// The first `m` of `s`, or all of it.
pub open spec fn truncated<T>(s: Seq<T>, m: int) -> Seq<T> {
    if m < s.len() {
        s.take(m)
    } else {
        s
    }
}

/// What mining `g` yields given the cliques `cl` found in it: the known
/// shapes, most frequent first, at most `max_patterns` of them.
pub open spec fn ranked_shapes(min: int, max_patterns: int, g: FinancialGraph, cl: Seq<Vec<String>>) -> Seq<Shape> {
    truncated(sort_desc(known_shapes(min, g, cl), |d: Shape| shape_support(d)), max_patterns)
}

impl GSpanMiner {
    #[verifier::type_invariant]
    spec fn inv(self) -> bool {
        &&& self.min_support >= 1
        &&& self.max_size >= 2
    }

    pub closed spec fn spec_min_support(&self) -> usize {
        self.min_support
    }

    pub closed spec fn spec_max_size(&self) -> usize {
        self.max_size
    }

    pub closed spec fn spec_max_patterns(&self) -> usize {
        self.max_patterns
    }

    pub closed spec fn spec_min_edge_weight(&self) -> u64 {
        self.min_edge_weight
    }

    /// The patterns `v` are what mining `g` yields: for the cliques some
    /// search of `g` reports, the ranked shapes, each built by its
    /// constructor and carrying its count as support.
    pub open spec fn mined_from(&self, g: FinancialGraph, v: Seq<Pattern>) -> bool {
        exists|cl: Seq<Vec<String>>, cs: Seq<Seq<int>>|
            #[trigger] cliques_found(g, 5, cl, cs) && v.map_values(|p: Pattern| shape_of(p)) == ranked_shapes(
                self.spec_min_support() as int,
                self.spec_max_patterns() as int,
                g,
                cl,
            ) && forall|i: int| 0 <= i < v.len() ==> well_shaped(#[trigger] v[i])
    }

    /// Create a new gSpan miner: support 2, size 6, 100 patterns, weight
    /// 0.0.
    pub fn new() -> (m: Self)
        ensures
            m.spec_min_support() == 2,
            m.spec_max_size() == 6,
            m.spec_max_patterns() == 100,
            m.spec_min_edge_weight() == 0,
    {
        GSpanMiner { min_support: 2, max_size: 6, max_patterns: 100, min_edge_weight: 0 }
    }

    /// Set minimum support threshold (at least 1).
    pub fn min_support(self, support: usize) -> (m: Self)
        ensures
            m.spec_min_support() == if support >= 1 { support } else { 1 },
            m.spec_max_size() == self.spec_max_size(),
            m.spec_max_patterns() == self.spec_max_patterns(),
            m.spec_min_edge_weight() == self.spec_min_edge_weight(),
    {
        proof {
            use_type_invariant(&self);
        }
        let s = if support >= 1 { support } else { 1 };
        GSpanMiner { min_support: s, ..self }
    }

    /// Set maximum pattern size (at least 2).
    pub fn max_size(self, size: usize) -> (m: Self)
        ensures
            m.spec_max_size() == if size >= 2 { size } else { 2 },
            m.spec_min_support() == self.spec_min_support(),
            m.spec_max_patterns() == self.spec_max_patterns(),
            m.spec_min_edge_weight() == self.spec_min_edge_weight(),
    {
        proof {
            use_type_invariant(&self);
        }
        let s = if size >= 2 { size } else { 2 };
        GSpanMiner { max_size: s, ..self }
    }

    /// Set maximum patterns to find.
    pub fn max_patterns(self, count: usize) -> (m: Self)
        ensures
            m.spec_max_patterns() == count,
            m.spec_min_support() == self.spec_min_support(),
            m.spec_max_size() == self.spec_max_size(),
            m.spec_min_edge_weight() == self.spec_min_edge_weight(),
    {
        proof {
            use_type_invariant(&self);
        }
        GSpanMiner { max_patterns: count, ..self }
    }

    /// Set minimum edge weight (IEEE-754 bits).
    pub fn min_edge_weight(self, weight: u64) -> (m: Self)
        ensures
            m.spec_min_edge_weight() == weight,
            m.spec_min_support() == self.spec_min_support(),
            m.spec_max_size() == self.spec_max_size(),
            m.spec_max_patterns() == self.spec_max_patterns(),
    {
        proof {
            use_type_invariant(&self);
        }
        GSpanMiner { min_edge_weight: weight, ..self }
    }

    /// The minimum support threshold.
    pub fn support_threshold(&self) -> (s: usize)
        ensures
            s == self.spec_min_support(),
    {
        self.min_support
    }

    /// The maximum pattern size.
    pub fn size_limit(&self) -> (s: usize)
        ensures
            s == self.spec_max_size(),
    {
        self.max_size
    }
}

impl Default for GSpanMiner {
    fn default() -> (m: Self)
        ensures
            m.spec_min_support() == 2,
            m.spec_max_size() == 6,
            m.spec_max_patterns() == 100,
            m.spec_min_edge_weight() == 0,
    {
        Self::new()
    }
}


/// The triangles `find_triangles` lists are all the triangles, each once.
proof fn lemma_triangle_count(g: FinancialGraph, out: Seq<(String, String, String)>)
    requires
        forall|t: int| 0 <= t < out.len() ==> is_triangle(g, triple_view(#[trigger] out[t])),
        forall|p: int, q: int, r: int|
            #[trigger] triangle_at(g, p, q, r) ==> exists|t: int|
                0 <= t < out.len() && triple_view(#[trigger] out[t]) == keys_at(g, p, q, r),
        out.map_values(|t: (String, String, String)| triple_view(t)).no_duplicates(),
    ensures
        out.len() == triangle_count(g),
{
    let vs = out.map_values(|t: (String, String, String)| triple_view(t));
    let s = Set::new(|t: (Seq<char>, Seq<char>, Seq<char>)| is_triangle(g, t));
    assert forall|t: (Seq<char>, Seq<char>, Seq<char>)| vs.to_set().contains(t) <==> s.contains(t) by {
        if vs.contains(t) {
            let i = choose|i: int| 0 <= i < vs.len() && vs[i] == t;
            assert(vs[i] == triple_view(out[i]));
        }
        if s.contains(t) {
            let (p, q, r) = choose|p: int, q: int, r: int| #[trigger] triangle_at(g, p, q, r) && keys_at(g, p, q, r) == t;
            let i = choose|i: int| 0 <= i < out.len() && triple_view(#[trigger] out[i]) == keys_at(g, p, q, r);
            assert(vs[i] == t);
        }
    }
    assert(vs.to_set() =~= s);
    vs.unique_seq_to_set();
}

/// The chains `find_chains` lists are all the chains, each once.
proof fn lemma_chain_count(g: FinancialGraph, len: nat, out: Seq<Vec<String>>)
    requires
        forall|x: Seq<Seq<char>>| #[trigger] chain_views(out).contains(x) <==> found_chain(g, len, x),
        chain_views(out).no_duplicates(),
    ensures
        out.len() == chain_count(g, len),
{
    let vs = chain_views(out);
    let s = Set::new(|x: Seq<Seq<char>>| found_chain(g, len, x));
    assert forall|x: Seq<Seq<char>>| vs.to_set().contains(x) <==> s.contains(x) by {
        assert(vs.contains(x) <==> found_chain(g, len, x));
    }
    assert(vs.to_set() =~= s);
    vs.unique_seq_to_set();
}

/// Every shape occurs at least `min` times.
pub open spec fn all_reach(s: Seq<Shape>, min: int) -> bool {
    forall|k: int| 0 <= k < s.len() ==> (#[trigger] s[k]).2 >= min
}

proof fn lemma_all_reach_concat(a: Seq<Shape>, b: Seq<Shape>, min: int)
    requires
        all_reach(a, min),
        all_reach(b, min),
    ensures
        all_reach(a + b, min),
{
    assert forall|k: int| 0 <= k < (a + b).len() implies (#[trigger] (a + b)[k]).2 >= min by {
        if k < a.len() {
            assert((a + b)[k] == a[k]);
        } else {
            assert((a + b)[k] == b[k - a.len()]);
        }
    }
}

proof fn lemma_known_reach(min: int, g: FinancialGraph, cl: Seq<Vec<String>>)
    ensures
        all_reach(known_shapes(min, g, cl), min),
{
    let t = shape_if(triangle_count(g) >= min, (PatternType::Triangle, 3, triangle_count(g)));
    let s3 = shape_if(star_count(g, 3) >= min, (PatternType::Star, 3, star_count(g, 3)));
    let s4 = shape_if(star_count(g, 4) >= min, (PatternType::Star, 4, star_count(g, 4)));
    let s5 = shape_if(star_count(g, 5) >= min, (PatternType::Star, 5, star_count(g, 5)));
    let c4 = shape_if(count_len(cl, 4) >= min, (PatternType::Clique, 4, count_len(cl, 4)));
    let c5 = shape_if(count_len(cl, 5) >= min, (PatternType::Clique, 5, count_len(cl, 5)));
    let h3 = shape_if(chain_count(g, 3) >= min, (PatternType::Chain, 3, chain_count(g, 3)));
    let h4 = shape_if(chain_count(g, 4) >= min, (PatternType::Chain, 4, chain_count(g, 4)));
    let h5 = shape_if(chain_count(g, 5) >= min, (PatternType::Chain, 5, chain_count(g, 5)));
    lemma_all_reach_concat(t, s3, min);
    lemma_all_reach_concat(t + s3, s4, min);
    lemma_all_reach_concat(t + s3 + s4, s5, min);
    lemma_all_reach_concat(t + s3 + s4 + s5, c4, min);
    lemma_all_reach_concat(t + s3 + s4 + s5 + c4, c5, min);
    lemma_all_reach_concat(t + s3 + s4 + s5 + c4 + c5, h3, min);
    lemma_all_reach_concat(t + s3 + s4 + s5 + c4 + c5 + h3, h4, min);
    lemma_all_reach_concat(t + s3 + s4 + s5 + c4 + c5 + h3 + h4, h5, min);
}

/// A sequence joined to another holds what either holds.
proof fn lemma_in_concat(a: Seq<Shape>, b: Seq<Shape>, d: Shape)
    ensures
        a.contains(d) || b.contains(d) ==> (a + b).contains(d),
{
    if a.contains(d) {
        let k = choose|k: int| 0 <= k < a.len() && a[k] == d;
        assert((a + b)[k] == d);
    } else if b.contains(d) {
        let k = choose|k: int| 0 <= k < b.len() && b[k] == d;
        assert((a + b)[a.len() + k] == d);
    }
}

/// Each shape found at least `min` times is among the known shapes.
proof fn lemma_known_contains(min: int, g: FinancialGraph, cl: Seq<Vec<String>>, d: Shape)
    requires
        d.2 >= min,
        d == (PatternType::Triangle, 3nat, triangle_count(g)) || (exists|k: nat|
            3 <= k <= 5 && d == (PatternType::Star, k, star_count(g, k))) || (exists|k: nat|
            4 <= k <= 5 && d == (PatternType::Clique, k, count_len(cl, k))) || (exists|k: nat|
            3 <= k <= 5 && d == (PatternType::Chain, k, chain_count(g, k))),
    ensures
        known_shapes(min, g, cl).contains(d),
{
    let t = shape_if(triangle_count(g) >= min, (PatternType::Triangle, 3, triangle_count(g)));
    let s3 = shape_if(star_count(g, 3) >= min, (PatternType::Star, 3, star_count(g, 3)));
    let s4 = shape_if(star_count(g, 4) >= min, (PatternType::Star, 4, star_count(g, 4)));
    let s5 = shape_if(star_count(g, 5) >= min, (PatternType::Star, 5, star_count(g, 5)));
    let c4 = shape_if(count_len(cl, 4) >= min, (PatternType::Clique, 4, count_len(cl, 4)));
    let c5 = shape_if(count_len(cl, 5) >= min, (PatternType::Clique, 5, count_len(cl, 5)));
    let h3 = shape_if(chain_count(g, 3) >= min, (PatternType::Chain, 3, chain_count(g, 3)));
    let h4 = shape_if(chain_count(g, 4) >= min, (PatternType::Chain, 4, chain_count(g, 4)));
    let h5 = shape_if(chain_count(g, 5) >= min, (PatternType::Chain, 5, chain_count(g, 5)));
    let parts = seq![t, s3, s4, s5, c4, c5, h3, h4, h5];
    assert(exists|j: int| 0 <= j < 9 && #[trigger] parts[j] == seq![d]) by {
        if d.0 == PatternType::Triangle {
            assert(parts[0] == seq![d]);
        } else if d.0 == PatternType::Star {
            if d.1 == 3 { assert(parts[1] == seq![d]); }
            else if d.1 == 4 { assert(parts[2] == seq![d]); }
            else { assert(parts[3] == seq![d]); }
        } else if d.0 == PatternType::Clique {
            if d.1 == 4 { assert(parts[4] == seq![d]); }
            else { assert(parts[5] == seq![d]); }
        } else {
            if d.1 == 3 { assert(parts[6] == seq![d]); }
            else if d.1 == 4 { assert(parts[7] == seq![d]); }
            else { assert(parts[8] == seq![d]); }
        }
    }
    let j = choose|j: int| 0 <= j < 9 && #[trigger] parts[j] == seq![d];
    assert(parts[j][0] == d);
    assert(parts[j].contains(d));
    lemma_in_concat(t, s3, d);
    lemma_in_concat(t + s3, s4, d);
    lemma_in_concat(t + s3 + s4, s5, d);
    lemma_in_concat(t + s3 + s4 + s5, c4, d);
    lemma_in_concat(t + s3 + s4 + s5 + c4, c5, d);
    lemma_in_concat(t + s3 + s4 + s5 + c4 + c5, h3, d);
    lemma_in_concat(t + s3 + s4 + s5 + c4 + c5 + h3, h4, d);
    lemma_in_concat(t + s3 + s4 + s5 + c4 + c5 + h3 + h4, h5, d);
}

/// Mining keeps every frequent shape when nothing is cut by the pattern
/// limit: when `v` is what mining `g` yields with the cliques `cl` the
/// search reported and `v` holds fewer than `max_patterns` patterns, then
/// for each count that reaches the minimum support (triangles; stars of
/// 3, 4 and 5 spokes; cliques of 4 and 5 symbols; chains of 3, 4 and 5
/// symbols) `v` holds a pattern of that type and size with that count as
/// support.  So on a graph whose clique search reports enough 5-symbol
/// cliques, a 5-node clique pattern is mined.
pub proof fn law_frequent_shapes_are_mined(
    min: int,
    max_patterns: int,
    g: FinancialGraph,
    cl: Seq<Vec<String>>,
    v: Seq<Pattern>,
    d: Shape,
)
    requires
        v.map_values(|p: Pattern| shape_of(p)) == ranked_shapes(min, max_patterns, g, cl),
        forall|i: int| 0 <= i < v.len() ==> well_shaped(#[trigger] v[i]),
        v.len() < max_patterns,
        d.2 >= min,
        d == (PatternType::Triangle, 3nat, triangle_count(g)) || (exists|k: nat|
            3 <= k <= 5 && d == (PatternType::Star, k, star_count(g, k))) || (exists|k: nat|
            4 <= k <= 5 && d == (PatternType::Clique, k, count_len(cl, k))) || (exists|k: nat|
            3 <= k <= 5 && d == (PatternType::Chain, k, chain_count(g, k))),
    ensures
        exists|i: int|
            0 <= i < v.len() && #[trigger] v[i].pattern_type == d.0 && v[i].support == d.2 && v[i].nodes@.len() == (
            if d.0 == PatternType::Star {
                d.1 + 1
            } else {
                d.1 + 0
            }),
{
    let ks = known_shapes(min, g, cl);
    let key = |x: Shape| shape_support(x);
    let sorted = sort_desc(ks, key);
    lemma_sort_desc(ks, key);
    lemma_known_contains(min, g, cl, d);
    let shapes = v.map_values(|p: Pattern| shape_of(p));
    assert(shapes.len() == v.len());
    assert(shapes == sorted) by {
        if max_patterns < sorted.len() {
            assert(shapes.len() == max_patterns);
        }
    }
    ks.to_multiset_ensures();
    sorted.to_multiset_ensures();
    assert(sorted.to_multiset().count(d) > 0);
    assert(sorted.contains(d));
    let i = choose|i: int| 0 <= i < sorted.len() && sorted[i] == d;
    assert(shapes[i] == shape_of(v[i]));
    assert(well_shaped(v[i]));
    assert(v[i].pattern_type == d.0);
}

fn pattern_support(p: &Pattern) -> (s: usize)
    ensures
        s == support_key(*p),
{
    p.support
}

/// Append `p` with support `count` when the count reaches `min`.
fn push_counted(patterns: &mut Vec<Pattern>, p: Pattern, count: usize, min: usize, Ghost(d): Ghost<Shape>)
    requires
        well_shaped(p),
        shape_of(p).0 == d.0,
        shape_of(p).1 == d.1,
        d.2 == count,
    ensures
        final(patterns)@.map_values(|q: Pattern| shape_of(q)) == old(patterns)@.map_values(|q: Pattern| shape_of(q))
            + shape_if(count >= min, d),
        old(patterns)@.len() <= final(patterns)@.len(),
        forall|i: int| 0 <= i < old(patterns)@.len() ==> #[trigger] final(patterns)@[i] == old(patterns)@[i],
        forall|i: int|
            old(patterns)@.len() <= i < final(patterns)@.len() ==> well_shaped(#[trigger] final(patterns)@[i]),
{
    if count >= min {
        let q = Pattern { support: count, ..p };
        patterns.push(q);
        proof {
            assert(shape_of(q) == d);
            assert(patterns@.map_values(|q: Pattern| shape_of(q)) =~= old(patterns)@.map_values(
                |q: Pattern| shape_of(q),
            ).push(d));
            assert(seq![d] =~= Seq::<Shape>::empty().push(d));
            assert(patterns@.map_values(|q: Pattern| shape_of(q)) =~= old(patterns)@.map_values(
                |q: Pattern| shape_of(q),
            ) + shape_if(count >= min, d));
        }
    } else {
        proof {
            assert(old(patterns)@.map_values(|q: Pattern| shape_of(q)) + shape_if(count >= min, d) =~= old(
                patterns,
            )@.map_values(|q: Pattern| shape_of(q)));
        }
    }
}

/// The number of lists of exactly `s` entries.
fn count_sized(cl: &Vec<Vec<String>>, s: usize) -> (c: usize)
    ensures
        c == count_len(cl@, s as nat),
{
    let mut c: usize = 0;
    let mut i: usize = 0;
    while i < cl.len()
        invariant
            i <= cl@.len(),
            c == count_len(cl@.take(i as int), s as nat),
            c <= i,
        decreases cl@.len() - i,
    {
        proof {
            assert(cl@.take(i + 1).drop_last() =~= cl@.take(i as int));
            assert(cl@.take(i + 1).last() == cl@[i as int]);
        }
        if cl[i].len() == s {
            c = c + 1;
        }
        i = i + 1;
    }
    proof {
        assert(cl@.take(i as int) =~= cl@);
    }
    c
}

impl GSpanMiner {
    /// Add the commonly known patterns the graph holds often enough: the
    /// triangle, stars of 3, 4 and 5 spokes, cliques of 4 and 5 symbols
    /// and chains of 3, 4 and 5 symbols, each whose count reaches the
    /// minimum support, with that count as support.  Returns the cliques
    /// the search reported.
    fn add_known_patterns(&self, graph: &FinancialGraph, patterns: &mut Vec<Pattern>) -> (cl: Ghost<
        Seq<Vec<String>>,
    >)
        ensures
            exists|cs: Seq<Seq<int>>| #[trigger] cliques_found(*graph, 5, cl@, cs),
            final(patterns)@.map_values(|q: Pattern| shape_of(q)) == old(patterns)@.map_values(
                |q: Pattern| shape_of(q),
            ) + known_shapes(self.spec_min_support() as int, *graph, cl@),
            old(patterns)@.len() <= final(patterns)@.len(),
            forall|i: int| 0 <= i < old(patterns)@.len() ==> #[trigger] final(patterns)@[i] == old(patterns)@[i],
            forall|i: int|
                old(patterns)@.len() <= i < final(patterns)@.len() ==> well_shaped(#[trigger] final(patterns)@[i]),
    {
        let g = graph;
        let min = self.min_support;
        let ghost base = patterns@;
        let ghost f = |q: Pattern| shape_of(q);
        let ghost mut acc: Seq<Shape> = Seq::empty();
        proof {
            assert(patterns@.map_values(f) =~= base.map_values(f) + acc);
        }
        // triangles
        let triangles = find_triangles(g);
        proof {
            lemma_triangle_count(*g, triangles@);
        }
        let tri = triangles.len();
        let ghost d = (PatternType::Triangle, 3nat, tri as int);
        let ghost before = patterns@;
        push_counted(patterns, Pattern::triangle(), tri, min, Ghost(d));
        proof {
            acc = acc + shape_if(tri >= min, d);
            assert(patterns@.map_values(f) =~= base.map_values(f) + acc);
        }
        // stars
        let mut k: usize = 3;
        let ghost stage = acc;
        while k <= 5
            invariant
                3 <= k <= 6,
                min == self.spec_min_support(),
                acc == stage + (if k >= 4 {
                    shape_if(star_count(*g, 3) >= min, (PatternType::Star, 3nat, star_count(*g, 3)))
                } else {
                    Seq::empty()
                }) + (if k >= 5 {
                    shape_if(star_count(*g, 4) >= min, (PatternType::Star, 4nat, star_count(*g, 4)))
                } else {
                    Seq::empty()
                }) + (if k >= 6 {
                    shape_if(star_count(*g, 5) >= min, (PatternType::Star, 5nat, star_count(*g, 5)))
                } else {
                    Seq::empty()
                }),
                patterns@.map_values(f) == base.map_values(f) + acc,
                f == (|q: Pattern| shape_of(q)),
                base.len() <= patterns@.len(),
                forall|i: int| 0 <= i < base.len() ==> #[trigger] patterns@[i] == base[i],
                forall|i: int| base.len() <= i < patterns@.len() ==> well_shaped(#[trigger] patterns@[i]),
            decreases 6 - k,
        {
            let stars = find_stars(g, k);
            proof {
                lemma_sort_desc(
                    star_list(*g, g.keys(), k as nat),
                    |x: (Seq<char>, Seq<Seq<char>>)| crate::algorithms::spoke_count(x),
                );
                assert(stars@.len() == stars@.map_values(|x: (String, Vec<String>)| crate::algorithms::star_view(x)).len());
            }
            let count = stars.len();
            let ghost d = (PatternType::Star, k as nat, count as int);
            let ghost pre = patterns@;
            let ghost acc0 = acc;
            push_counted(patterns, Pattern::star(k), count, min, Ghost(d));
            proof {
                acc = acc + shape_if(count >= min, d);
                assert(patterns@.map_values(f) =~= base.map_values(f) + acc);
                assert forall|i: int| 0 <= i < base.len() implies #[trigger] patterns@[i] == base[i] by {
                    assert(patterns@[i] == pre[i]);
                }
                assert forall|i: int| base.len() <= i < patterns@.len() implies well_shaped(#[trigger] patterns@[i]) by {
                    if i < pre.len() {
                        assert(patterns@[i] == pre[i]);
                    }
                }
                assert(count == star_count(*g, k as nat));
                if k == 3 {
                    assert(acc =~= stage + shape_if(star_count(*g, 3) >= min, (PatternType::Star, 3nat, star_count(*g, 3))) + Seq::empty() + Seq::empty());
                } else if k == 4 {
                    assert(acc =~= stage + shape_if(star_count(*g, 3) >= min, (PatternType::Star, 3nat, star_count(*g, 3))) + shape_if(star_count(*g, 4) >= min, (PatternType::Star, 4nat, star_count(*g, 4))) + Seq::empty());
                }
            }
            k = k + 1;
        }
        // cliques
        let cliques = find_cliques(g, 5);
        let ghost cl = cliques@;
        let c4 = count_sized(&cliques, 4);
        let ghost stage2 = acc;
        let ghost pre = patterns@;
        push_counted(patterns, Pattern::clique(4), c4, min, Ghost((PatternType::Clique, 4nat, c4 as int)));
        let ghost pre2 = patterns@;
        let c5 = count_sized(&cliques, 5);
        push_counted(patterns, Pattern::clique(5), c5, min, Ghost((PatternType::Clique, 5nat, c5 as int)));
        proof {
            acc = acc + shape_if(c4 >= min, (PatternType::Clique, 4nat, c4 as int)) + shape_if(
                c5 >= min,
                (PatternType::Clique, 5nat, c5 as int),
            );
            assert(patterns@.map_values(f) =~= base.map_values(f) + acc);
            assert forall|i: int| 0 <= i < base.len() implies #[trigger] patterns@[i] == base[i] by {
                assert(patterns@[i] == pre2[i]);
                assert(pre2[i] == pre[i]);
            }
            assert forall|i: int| base.len() <= i < patterns@.len() implies well_shaped(#[trigger] patterns@[i]) by {
                if i < pre2.len() {
                    assert(patterns@[i] == pre2[i]);
                    if i < pre.len() {
                        assert(pre2[i] == pre[i]);
                    }
                }
            }
        }
        // chains
        let mut k: usize = 3;
        let ghost stage3 = acc;
        while k <= 5
            invariant
                3 <= k <= 6,
                min == self.spec_min_support(),
                acc == stage3 + (if k >= 4 {
                    shape_if(chain_count(*g, 3) >= min, (PatternType::Chain, 3nat, chain_count(*g, 3)))
                } else {
                    Seq::empty()
                }) + (if k >= 5 {
                    shape_if(chain_count(*g, 4) >= min, (PatternType::Chain, 4nat, chain_count(*g, 4)))
                } else {
                    Seq::empty()
                }) + (if k >= 6 {
                    shape_if(chain_count(*g, 5) >= min, (PatternType::Chain, 5nat, chain_count(*g, 5)))
                } else {
                    Seq::empty()
                }),
                patterns@.map_values(f) == base.map_values(f) + acc,
                f == (|q: Pattern| shape_of(q)),
                base.len() <= patterns@.len(),
                forall|i: int| 0 <= i < base.len() ==> #[trigger] patterns@[i] == base[i],
                forall|i: int| base.len() <= i < patterns@.len() ==> well_shaped(#[trigger] patterns@[i]),
            decreases 6 - k,
        {
            let chains = find_chains(g, k);
            proof {
                lemma_chain_count(*g, k as nat, chains@);
            }
            let count = chains.len();
            let ghost d = (PatternType::Chain, k as nat, count as int);
            let ghost pre = patterns@;
            push_counted(patterns, Pattern::chain(k), count, min, Ghost(d));
            proof {
                acc = acc + shape_if(count >= min, d);
                assert(patterns@.map_values(f) =~= base.map_values(f) + acc);
                assert forall|i: int| 0 <= i < base.len() implies #[trigger] patterns@[i] == base[i] by {
                    assert(patterns@[i] == pre[i]);
                }
                assert forall|i: int| base.len() <= i < patterns@.len() implies well_shaped(#[trigger] patterns@[i]) by {
                    if i < pre.len() {
                        assert(patterns@[i] == pre[i]);
                    }
                }
                if k == 3 {
                    assert(acc =~= stage3 + shape_if(chain_count(*g, 3) >= min, (PatternType::Chain, 3nat, chain_count(*g, 3))) + Seq::empty() + Seq::empty());
                } else if k == 4 {
                    assert(acc =~= stage3 + shape_if(chain_count(*g, 3) >= min, (PatternType::Chain, 3nat, chain_count(*g, 3))) + shape_if(chain_count(*g, 4) >= min, (PatternType::Chain, 4nat, chain_count(*g, 4))) + Seq::empty());
                }
            }
            k = k + 1;
        }
        proof {
            assert(acc =~= known_shapes(min as int, *g, cl));
        }
        Ghost(cl)
    }
}


/// A pattern from snapshot `i`, with its hash.
pub type Sighting = (int, Pattern, u64);

/// A group of equal hashes: the hash, the first pattern seen with it, and
/// for each snapshot whether the hash was seen there.
pub type HashGroup = (u64, Pattern, Seq<bool>);

/// The patterns of all snapshots with their hashes, snapshot by snapshot,
/// each in mining order.
pub open spec fn sightings(runs: Seq<Seq<Pattern>>, hashes: Seq<Seq<u64>>) -> Seq<Sighting>
    decreases runs.len(),
{
    if runs.len() == 0 {
        Seq::empty()
    } else {
        let i = runs.len() - 1;
        sightings(runs.drop_last(), hashes.drop_last()) + Seq::new(
            runs[i].len(),
            |j: int| (i, runs[i][j], hashes[i][j]),
        )
    }
}

/// The first group with hash `h`, or the number of groups.
pub open spec fn hash_pos(gs: Seq<HashGroup>, h: u64) -> int
    decreases gs.len(),
{
    if gs.len() == 0 {
        0
    } else if gs[0].0 == h {
        0
    } else {
        1 + hash_pos(gs.drop_first(), h)
    }
}

/// Groups by hash, in order of first appearance: a new hash opens a group
/// with its pattern and its snapshot marked, a known one marks its
/// snapshot in its group.
pub open spec fn grouped(items: Seq<Sighting>, n: nat) -> Seq<HashGroup>
    decreases items.len(),
{
    if items.len() == 0 {
        Seq::empty()
    } else {
        let gs = grouped(items.drop_last(), n);
        let (i, p, h) = items.last();
        let k = hash_pos(gs, h);
        if k < gs.len() {
            gs.update(k, (h, gs[k].1, gs[k].2.update(i, true)))
        } else {
            gs.push((h, p, Seq::new(n, |j: int| j == i)))
        }
    }
}

/// A group as the miner hands it out: the pattern and its snapshot marks.
pub open spec fn group_view(g: HashGroup) -> (Pattern, Seq<bool>) {
    (g.1, g.2)
}

/// A result entry as plain values.
pub open spec fn entry_view(x: (Pattern, Vec<bool>)) -> (Pattern, Seq<bool>) {
    (x.0, x.1@)
}

/// The number of `true` marks.
pub open spec fn count_true(s: Seq<bool>) -> int
    decreases s.len(),
{
    if s.len() == 0 {
        0
    } else {
        count_true(s.drop_last()) + if s.last() {
            1int
        } else {
            0int
        }
    }
}

/// The number of snapshots an entry was seen in.
pub open spec fn seen_count(e: (Pattern, Seq<bool>)) -> int {
    count_true(e.1)
}

/// The number of snapshots an entry as handed out was seen in.
pub open spec fn entry_count(x: (Pattern, Vec<bool>)) -> int {
    count_true(x.1@)
}

fn count_seen(x: &(Pattern, Vec<bool>)) -> (c: usize)
    ensures
        c == entry_count(*x),
{
    let f = &x.1;
    let mut c: usize = 0;
    let mut i: usize = 0;
    while i < f.len()
        invariant
            i <= f@.len(),
            c == count_true(f@.take(i as int)),
            c <= i,
        decreases f@.len() - i,
    {
        proof {
            assert(f@.take(i + 1).drop_last() =~= f@.take(i as int));
        }
        if f[i] {
            c = c + 1;
        }
        i = i + 1;
    }
    proof {
        assert(f@.take(i as int) =~= f@);
    }
    c
}

/// `n` marks, only the one at `i` set.
fn marks_at(n: usize, i: usize) -> (v: Vec<bool>)
    ensures
        v@ == Seq::new(n as nat, |j: int| j == i),
{
    let mut v: Vec<bool> = Vec::new();
    let mut k: usize = 0;
    while k < n
        invariant
            k <= n,
            v@ == Seq::new(k as nat, |j: int| j == i),
        decreases n - k,
    {
        v.push(k == i);
        proof {
            assert(v@ =~= Seq::new((k + 1) as nat, |j: int| j == i));
        }
        k = k + 1;
    }
    v
}

/// Where hash `h` stands among the group hashes `hs`, or `hs.len()`.
fn find_hash(hs: &Vec<u64>, h: u64, Ghost(gs): Ghost<Seq<HashGroup>>) -> (k: usize)
    requires
        hs@.len() == gs.len(),
        forall|t: int| 0 <= t < gs.len() ==> #[trigger] gs[t].0 == hs@[t],
    ensures
        k == hash_pos(gs, h),
        k <= hs@.len(),
{
    let mut k: usize = 0;
    proof {
        assert(gs.skip(0) =~= gs);
    }
    while k < hs.len() && hs[k] != h
        invariant
            k <= hs@.len(),
            hs@.len() == gs.len(),
            forall|t: int| 0 <= t < gs.len() ==> #[trigger] gs[t].0 == hs@[t],
            hash_pos(gs, h) == k + hash_pos(gs.skip(k as int), h),
        decreases hs@.len() - k,
    {
        proof {
            let rest = gs.skip(k as int);
            assert(rest[0] == gs[k as int]);
            assert(rest.drop_first() =~= gs.skip(k + 1));
        }
        k = k + 1;
    }
    proof {
        let rest = gs.skip(k as int);
        if k < hs@.len() {
            assert(rest[0] == gs[k as int]);
        } else {
            assert(rest.len() == 0);
        }
    }
    k
}

proof fn lemma_hash_pos(gs: Seq<HashGroup>, h: u64)
    ensures
        0 <= hash_pos(gs, h) <= gs.len(),
        hash_pos(gs, h) < gs.len() ==> gs[hash_pos(gs, h)].0 == h,
    decreases gs.len(),
{
    if gs.len() > 0 && gs[0].0 != h {
        lemma_hash_pos(gs.drop_first(), h);
    }
}

impl GSpanMiner {
    /// Mine frequent subgraph patterns from the graph: the known shapes it
    /// holds at least the minimum support times, most frequent first (a
    /// stable sort of the order they are looked for), at most
    /// `max_patterns` of them.  Every pattern's average edge weight is
    /// left at zero here, the triangle's too, where the mean edge weight
    /// over the triangles is what callers report: `triangle_weights` lists
    /// the weights to average (floating point, which is not computed
    /// here).
    pub fn mine(&self, graph: &FinancialGraph) -> (r: Result<Vec<Pattern>, MiningError>)
        ensures
            r is Err <==> graph.nodes().len() == 0,
            r matches Err(e) ==> e == MiningError::EmptyGraph,
            r matches Ok(v) ==> self.mined_from(*graph, v@),
            r matches Ok(v) ==> v@.len() <= self.spec_max_patterns(),
            r matches Ok(v) ==> forall|i: int, j: int| 0 <= i < j < v@.len() ==> v@[i].support >= v@[j].support,
            r matches Ok(v) ==> forall|i: int| 0 <= i < v@.len() ==> v@[i].support >= self.spec_min_support(),
            r matches Ok(v) ==> forall|i: int| 0 <= i < v@.len() ==> #[trigger] v@[i].avg_weight == 0,
    {
        if graph.node_count() == 0 {
            return Err(MiningError::EmptyGraph);
        }
        let mut patterns: Vec<Pattern> = Vec::new();
        let cl = self.add_known_patterns(graph, &mut patterns);
        let ghost unsorted = patterns@;
        let ghost ks = |p: Pattern| support_key(p);
        let ghost f = |p: Pattern| shape_of(p);
        let mut sorted = sort_by_key_desc(patterns, pattern_support, Ghost(ks));
        let ghost full = sorted@;
        proof {
            assert(unsorted.map_values(f) =~= known_shapes(self.spec_min_support() as int, *graph, cl@));
            assert forall|p: Pattern| #[trigger] ks(p) == shape_support(f(p)) by {}
            lemma_sort_desc_map(unsorted, ks, f, |d: Shape| shape_support(d));
            lemma_sort_desc(unsorted, ks);
            full.to_multiset_ensures();
            unsorted.to_multiset_ensures();
            assert forall|i: int| 0 <= i < full.len() implies well_shaped(#[trigger] full[i]) by {
                assert(full.contains(full[i]));
                assert(full.to_multiset().count(full[i]) > 0);
                assert(unsorted.contains(full[i]));
                let j = choose|j: int| 0 <= j < unsorted.len() && unsorted[j] == full[i];
            }
        }
        sorted.truncate(self.max_patterns);
        proof {
            let m = self.spec_max_patterns() as int;
            let ranked = sort_desc(known_shapes(self.spec_min_support() as int, *graph, cl@), |d: Shape| shape_support(d));
            assert(full.map_values(f) == ranked);
            if m < full.len() {
                assert(sorted@ == full.subrange(0, m));
                assert(sorted@.map_values(f) =~= ranked.take(m));
            } else {
                assert(sorted@ == full);
            }
            assert(sorted@.map_values(f) == ranked_shapes(
                self.spec_min_support() as int,
                self.spec_max_patterns() as int,
                *graph,
                cl@,
            ));
            assert forall|i: int| 0 <= i < sorted@.len() implies well_shaped(#[trigger] sorted@[i]) by {
                assert(sorted@[i] == full[i]);
            }
            let cs = choose|cs: Seq<Seq<int>>| #[trigger] cliques_found(*graph, 5, cl@, cs);
            assert(cliques_found(*graph, 5, cl@, cs));
            let min = self.spec_min_support() as int;
            lemma_known_reach(min, *graph, cl@);
            assert forall|i: int, j: int| 0 <= i < j < sorted@.len() implies sorted@[i].support >= sorted@[j].support by {
                assert(sorted@[i] == full[i] && sorted@[j] == full[j]);
                assert(ks(full[i]) >= ks(full[j]));
            }
            assert forall|i: int| 0 <= i < sorted@.len() implies sorted@[i].support >= min by {
                assert(sorted@[i] == full[i]);
                assert(full.contains(full[i]));
                assert(full.to_multiset().count(full[i]) > 0);
                assert(unsorted.contains(full[i]));
                let j = choose|j: int| 0 <= j < unsorted.len() && unsorted[j] == full[i];
                assert(unsorted.map_values(f)[j] == f(unsorted[j]));
                assert(known_shapes(min, *graph, cl@)[j].2 >= min);
            }
        }
        Ok(sorted)
    }
}


/// Group views of what the hashes `hs` and the entries `es` hold.
pub open spec fn groups_held(hs: Seq<u64>, es: Seq<(Pattern, Vec<bool>)>, gs: Seq<HashGroup>) -> bool {
    &&& hs.len() == gs.len()
    &&& es.len() == gs.len()
    &&& forall|t: int| 0 <= t < gs.len() ==> #[trigger] gs[t].0 == hs[t]
    &&& forall|t: int| 0 <= t < gs.len() ==> #[trigger] entry_view(es[t]) == group_view(gs[t])
}

/// The sightings of one snapshot.
pub open spec fn snapshot_sightings(i: int, run: Seq<Pattern>, hs: Seq<u64>) -> Seq<Sighting> {
    Seq::new(run.len(), |j: int| (i, run[j], hs[j]))
}

proof fn lemma_sightings_range(runs: Seq<Seq<Pattern>>, hashes: Seq<Seq<u64>>)
    ensures
        forall|t: int|
            0 <= t < sightings(runs, hashes).len() ==> 0 <= (#[trigger] sightings(runs, hashes)[t]).0 < runs.len(),
    decreases runs.len(),
{
    if runs.len() > 0 {
        lemma_sightings_range(runs.drop_last(), hashes.drop_last());
        let a = sightings(runs.drop_last(), hashes.drop_last());
        let i = runs.len() - 1;
        let b = Seq::new(runs[i].len(), |j: int| (i, runs[i][j], hashes[i][j]));
        assert forall|t: int| 0 <= t < sightings(runs, hashes).len() implies 0 <= (#[trigger] sightings(
            runs,
            hashes,
        )[t]).0 < runs.len() by {
            if t < a.len() {
                assert(sightings(runs, hashes)[t] == a[t]);
            } else {
                assert(sightings(runs, hashes)[t] == b[t - a.len()]);
            }
        }
    }
}

proof fn lemma_grouped_lens(items: Seq<Sighting>, n: nat)
    requires
        forall|t: int| 0 <= t < items.len() ==> 0 <= (#[trigger] items[t]).0 < n,
    ensures
        forall|t: int| 0 <= t < grouped(items, n).len() ==> (#[trigger] grouped(items, n)[t]).2.len() == n,
    decreases items.len(),
{
    if items.len() > 0 {
        assert forall|t: int| 0 <= t < items.drop_last().len() implies 0 <= (#[trigger] items.drop_last()[t]).0 < n by {
            assert(items.drop_last()[t] == items[t]);
        }
        lemma_grouped_lens(items.drop_last(), n);
        let gs = grouped(items.drop_last(), n);
        let (i, p, h) = items.last();
        lemma_hash_pos(gs, h);
        let k = hash_pos(gs, h);
        let g2 = grouped(items, n);
        if k < gs.len() {
            assert(g2 == gs.update(k, (h, gs[k].1, gs[k].2.update(i, true))));
            assert(gs[k].2.len() == n);
        } else {
            assert(g2 == gs.push((h, p, Seq::new(n, |j: int| j == i))));
        }
        assert forall|t: int| 0 <= t < g2.len() implies (#[trigger] g2[t]).2.len() == n by {
            if t < gs.len() && t != k {
                assert(g2[t] == gs[t]);
            }
        }
    }
}

/// Sightings that all carry hash `h` make at most one group, with hash `h`.
proof fn lemma_grouped_one_hash(items: Seq<Sighting>, n: nat, h: u64)
    requires
        forall|t: int| 0 <= t < items.len() ==> (#[trigger] items[t]).2 == h,
    ensures
        grouped(items, n).len() <= 1,
        grouped(items, n).len() == 1 ==> grouped(items, n)[0].0 == h,
    decreases items.len(),
{
    if items.len() > 0 {
        assert forall|t: int| 0 <= t < items.drop_last().len() implies (#[trigger] items.drop_last()[t]).2 == h by {
            assert(items.drop_last()[t] == items[t]);
        }
        lemma_grouped_one_hash(items.drop_last(), n, h);
        let gs = grouped(items.drop_last(), n);
        assert(items.last() == items[items.len() - 1]);
        lemma_hash_pos(gs, h);
        if gs.len() == 1 {
            assert(hash_pos(gs, h) == 0);
        }
    }
}

/// Each sighting is pattern `j` of snapshot `i`, with its hash.
proof fn lemma_sighting_at(runs: Seq<Seq<Pattern>>, hashes: Seq<Seq<u64>>, t: int)
    requires
        hashes.len() == runs.len(),
        0 <= t < sightings(runs, hashes).len(),
    ensures
        exists|i: int, j: int|
            0 <= i < runs.len() && 0 <= j < runs[i].len() && #[trigger] sightings(runs, hashes)[t] == (
                i,
                runs[i][j],
                hashes[i][j],
            ),
    decreases runs.len(),
{
    let a = sightings(runs.drop_last(), hashes.drop_last());
    let i = runs.len() - 1;
    let b = Seq::new(runs[i].len(), |j: int| (i, runs[i][j], hashes[i][j]));
    if t < a.len() {
        lemma_sighting_at(runs.drop_last(), hashes.drop_last(), t);
        let (i2, j2) = choose|i2: int, j2: int|
            0 <= i2 < runs.drop_last().len() && 0 <= j2 < runs.drop_last()[i2].len() && #[trigger] a[t] == (
                i2,
                runs.drop_last()[i2][j2],
                hashes.drop_last()[i2][j2],
            );
        assert(sightings(runs, hashes)[t] == a[t]);
        assert(runs.drop_last()[i2] == runs[i2]);
        assert(hashes.drop_last()[i2] == hashes[i2]);
        assert(sightings(runs, hashes)[t] == (i2, runs[i2][j2], hashes[i2][j2]));
    } else {
        let j = t - a.len();
        assert(sightings(runs, hashes)[t] == b[j]);
        assert(sightings(runs, hashes)[t] == (i, runs[i][j], hashes[i][j]));
    }
}

/// Entries that are the groups, in any order, each have one mark per
/// snapshot, at least one of them set.
proof fn lemma_entries_seen(
    unsorted: Seq<(Pattern, Vec<bool>)>,
    full: Seq<(Pattern, Vec<bool>)>,
    gs: Seq<HashGroup>,
    n: nat,
)
    requires
        unsorted.map_values(|x: (Pattern, Vec<bool>)| entry_view(x)) == gs.map_values(|g: HashGroup| group_view(g)),
        groups_seen(gs, n),
        full.to_multiset() == unsorted.to_multiset(),
    ensures
        forall|k: int| 0 <= k < full.len() ==> seen_in_some(#[trigger] full[k].1@, n),
{
    full.to_multiset_ensures();
    unsorted.to_multiset_ensures();
    assert(unsorted.len() == gs.len()) by {
        assert(unsorted.map_values(|x: (Pattern, Vec<bool>)| entry_view(x)).len() == unsorted.len());
    }
    assert forall|k: int| 0 <= k < full.len() implies seen_in_some(#[trigger] full[k].1@, n) by {
        assert(full.contains(full[k]));
        assert(full.to_multiset().count(full[k]) > 0);
        assert(unsorted.contains(full[k]));
        let j = choose|j: int| 0 <= j < unsorted.len() && unsorted[j] == full[k];
        assert(unsorted.map_values(|x: (Pattern, Vec<bool>)| entry_view(x))[j] == gs.map_values(
            |g: HashGroup| group_view(g),
        )[j]);
        assert(entry_view(unsorted[j]) == group_view(gs[j]));
        assert(gs[j].2.len() == n);
        let i = choose|i: int| 0 <= i < n && gs[j].2[i];
        assert(full[k].1@[i]);
    }
}

/// One mark per snapshot, at least one of them set.
pub open spec fn seen_in_some(marks: Seq<bool>, n: nat) -> bool {
    marks.len() == n && exists|i: int| 0 <= i < n && marks[i]
}

/// Each group's snapshot marks have one entry per snapshot, at least one
/// of them set.
pub open spec fn groups_seen(gs: Seq<HashGroup>, n: nat) -> bool {
    forall|t: int|
        0 <= t < gs.len() ==> (#[trigger] gs[t]).2.len() == n && exists|i: int| 0 <= i < n && gs[t].2[i]
}

proof fn lemma_grouped_seen(items: Seq<Sighting>, n: nat)
    requires
        forall|t: int| 0 <= t < items.len() ==> 0 <= (#[trigger] items[t]).0 < n,
    ensures
        groups_seen(grouped(items, n), n),
    decreases items.len(),
{
    if items.len() > 0 {
        assert forall|t: int| 0 <= t < items.drop_last().len() implies 0 <= (#[trigger] items.drop_last()[t]).0 < n by {
            assert(items.drop_last()[t] == items[t]);
        }
        lemma_grouped_seen(items.drop_last(), n);
        let gs = grouped(items.drop_last(), n);
        let (i, p, h) = items.last();
        lemma_hash_pos(gs, h);
        let k = hash_pos(gs, h);
        let g2 = grouped(items, n);
        if k < gs.len() {
            assert(g2 == gs.update(k, (h, gs[k].1, gs[k].2.update(i, true))));
        } else {
            assert(g2 == gs.push((h, p, Seq::new(n, |j: int| j == i))));
        }
        assert forall|t: int|
            0 <= t < g2.len() implies (#[trigger] g2[t]).2.len() == n && exists|j: int| 0 <= j < n && g2[t].2[j] by {
            if t < gs.len() && t != k {
                assert(g2[t] == gs[t]);
            } else {
                assert(g2[t].2[i]);
            }
        }
    }
}

/// The codes `c` are the DFS codes of the patterns `r`, in order.
pub open spec fn codes_of(r: Seq<Pattern>, c: Seq<DFSCode>) -> bool {
    &&& c.len() == r.len()
    &&& forall|j: int| 0 <= j < r.len() ==> (#[trigger] c[j]).edges@ == r[j].dfs_code.edges@
}

/// Patterns with the same DFS code, in any snapshots, have the same hash.
pub open spec fn hashes_agree(runs: Seq<Seq<Pattern>>, hashes: Seq<Seq<u64>>) -> bool {
    forall|i1: int, j1: int, i2: int, j2: int|
        0 <= i1 < runs.len() && 0 <= j1 < runs[i1].len() && 0 <= i2 < runs.len() && 0 <= j2 < runs[i2].len()
            && runs[i1][j1].dfs_code.edges@ == runs[i2][j2].dfs_code.edges@ ==> #[trigger] hashes[i1][j1]
            == #[trigger] hashes[i2][j2]
}

/// Copies of the DFS codes of the patterns.
fn code_list(patterns: &Vec<Pattern>) -> (c: Vec<DFSCode>)
    ensures
        codes_of(patterns@, c@),
{
    let mut c: Vec<DFSCode> = Vec::new();
    let mut j: usize = 0;
    while j < patterns.len()
        invariant
            j <= patterns@.len(),
            c@.len() == j,
            forall|t: int| 0 <= t < j ==> (#[trigger] c@[t]).edges@ == patterns@[t].dfs_code.edges@,
        decreases patterns@.len() - j,
    {
        c.push(patterns[j].dfs_code.copy());
        j = j + 1;
    }
    c
}

impl GSpanMiner {

    /// When each snapshot's patterns were mined from it and equal DFS codes
    /// share a hash, the sightings form at most one group: every mined
    /// pattern has the empty DFS code.
    proof fn lemma_one_group(&self, graphs: Seq<FinancialGraph>, runs: Seq<Seq<Pattern>>, hashes: Seq<Seq<u64>>)
        requires
            runs.len() == graphs.len(),
            hashes.len() == runs.len(),
            forall|i: int| 0 <= i < runs.len() ==> self.mined_from(graphs[i], #[trigger] runs[i]),
            hashes_agree(runs, hashes),
        ensures
            grouped(sightings(runs, hashes), graphs.len() as nat).len() <= 1,
    {
        let n = graphs.len();
        let items = sightings(runs, hashes);
        if items.len() > 0 {
            assert forall|t: int| 0 <= t < items.len() implies (#[trigger] items[t]).2 == items[0].2 by {
                lemma_sighting_at(runs, hashes, t);
                lemma_sighting_at(runs, hashes, 0);
                let (i1, j1) = choose|i1: int, j1: int|
                    0 <= i1 < runs.len() && 0 <= j1 < runs[i1].len() && #[trigger] items[t] == (
                        i1,
                        runs[i1][j1],
                        hashes[i1][j1],
                    );
                let (i2, j2) = choose|i2: int, j2: int|
                    0 <= i2 < runs.len() && 0 <= j2 < runs[i2].len() && #[trigger] items[0] == (
                        i2,
                        runs[i2][j2],
                        hashes[i2][j2],
                    );
                assert(self.mined_from(graphs[i1], runs[i1]));
                assert(self.mined_from(graphs[i2], runs[i2]));
                assert(well_shaped(runs[i1][j1]));
                assert(well_shaped(runs[i2][j2]));
                assert(runs[i1][j1].dfs_code.edges@ == runs[i2][j2].dfs_code.edges@);
                assert(hashes[i1][j1] == hashes[i2][j2]);
            }
            lemma_grouped_one_hash(items, n as nat, items[0].2);
        }
    }

    /// Record the patterns of snapshot `i` in the groups.
    fn record_snapshot(
        hs: &mut Vec<u64>,
        es: &mut Vec<(Pattern, Vec<bool>)>,
        patterns: Vec<Pattern>,
        hashes: &Vec<u64>,
        i: usize,
        n: usize,
        Ghost(prior): Ghost<Seq<Sighting>>,
    )
        requires
            i < n,
            hashes@.len() == patterns@.len(),
            forall|t: int| 0 <= t < prior.len() ==> 0 <= (#[trigger] prior[t]).0 < n,
            groups_held(old(hs)@, old(es)@, grouped(prior, n as nat)),
        ensures
            groups_held(
                final(hs)@,
                final(es)@,
                grouped(prior + snapshot_sightings(i as int, patterns@, hashes@), n as nat),
            ),
    {
        let ghost run = patterns@;
        let ghost mut seen: Seq<u64> = Seq::empty();
        let mut patterns = patterns;
        let total = patterns.len();
        let mut j: usize = 0;
        let ghost nn = n as nat;
        while patterns.len() > 0
            invariant
                i < n,
                run.len() == total,
                nn == n,
                j + patterns@.len() == run.len(),
                patterns@ == run.skip(j as int),
                seen.len() == j,
                hashes@.len() == run.len(),
                seen == hashes@.take(j as int),
                forall|t: int| 0 <= t < prior.len() ==> 0 <= (#[trigger] prior[t]).0 < n,
                groups_held(hs@, es@, grouped(prior + snapshot_sightings(i as int, run.take(j as int), seen), nn)),
            decreases patterns@.len(),
        {
            let ghost items = prior + snapshot_sightings(i as int, run.take(j as int), seen);
            let ghost gs = grouped(items, nn);
            let p = patterns.remove(0);
            let h = hashes[j];
            proof {
                assert(p == run[j as int]);
                lemma_hash_pos(gs, h);
                let cur = snapshot_sightings(i as int, run.take(j as int), seen);
                assert forall|t: int| 0 <= t < items.len() implies 0 <= (#[trigger] items[t]).0 < nn by {
                    if t < prior.len() {
                        assert(items[t] == prior[t]);
                    } else {
                        assert(items[t] == cur[t - prior.len()]);
                    }
                }
                lemma_grouped_lens(items, nn);
            }
            let k = find_hash(hs, h, Ghost(gs));
            let ghost seen2 = seen.push(h);
            let ghost items2 = prior + snapshot_sightings(i as int, run.take(j + 1), seen2);
            proof {
                assert(snapshot_sightings(i as int, run.take(j + 1), seen2) =~= snapshot_sightings(
                    i as int,
                    run.take(j as int),
                    seen,
                ).push((i as int, p, h)));
                assert(items2.drop_last() =~= items);
                assert(items2.last() == (i as int, p, h));
            }
            if k < hs.len() {
                let ghost es0 = es@;
                proof {
                    assert(entry_view(es0[k as int]) == group_view(gs[k as int]));
                }
                let (q, mut marks) = es.remove(k);
                proof {
                    assert(marks@ == gs[k as int].2);
                    assert(marks@.len() == nn);
                }
                marks.set(i, true);
                es.insert(k, (q, marks));
                proof {
                    let g2 = grouped(items2, nn);
                    assert(es@ =~= es0.update(k as int, (q, marks)));
                    assert(g2 == gs.update(k as int, (h, gs[k as int].1, gs[k as int].2.update(i as int, true))));
                    assert forall|t: int| 0 <= t < g2.len() implies #[trigger] entry_view(es@[t]) == group_view(g2[t]) by {
                        if t != k {
                            assert(es@[t] == es0[t]);
                            assert(g2[t] == gs[t]);
                        }
                    }
                }
            } else {
                let marks = marks_at(n, i);
                hs.push(h);
                es.push((p, marks));
                proof {
                    let g2 = grouped(items2, nn);
                    assert(g2 == gs.push((h, p, Seq::new(nn, |t: int| t == i))));
                }
            }
            proof {
                seen = seen2;
                assert(seen =~= hashes@.take(j + 1));
                assert(run.skip(j + 1) =~= patterns@);
            }
            j = j + 1;
        }
        proof {
            assert(run.take(j as int) =~= run);
            assert(seen =~= hashes@);
        }
    }

    /// Mine patterns across multiple time snapshots: mine each snapshot in
    /// order, hash each mined pattern's DFS code, group the patterns by
    /// hash in order of first appearance (keeping the first pattern of
    /// each hash and marking each snapshot it was seen in), and list the
    /// groups seen in the most snapshots first (a stable sort).  Fails when
    /// there is no snapshot or mining a snapshot fails.  Patterns with the
    /// same DFS code share a hash, and so a group; the hash values
    /// themselves are left open.  Every mined pattern has the empty DFS
    /// code, so there is at most one group.
    pub fn mine_temporal(&self, graphs: &[FinancialGraph]) -> (r: Result<Vec<(Pattern, Vec<bool>)>, MiningError>)
        ensures
            r is Err <==> (graphs@.len() == 0 || exists|i: int|
                0 <= i < graphs@.len() && #[trigger] graphs@[i].nodes().len() == 0),
            r matches Err(e) ==> e == MiningError::EmptyGraph,
            r matches Ok(v) ==> exists|runs: Seq<Seq<Pattern>>, hashes: Seq<Seq<u64>>|
                #[trigger] sightings(runs, hashes).len() >= 0 && runs.len() == graphs@.len() && hashes.len()
                    == runs.len() && (forall|i: int|
                    0 <= i < runs.len() ==> self.mined_from(graphs@[i], #[trigger] runs[i])
                        && hashes[i].len() == runs[i].len()) && hashes_agree(runs, hashes) && v@.map_values(
                    |x: (Pattern, Vec<bool>)| entry_view(x),
                ) == sort_desc(
                    grouped(sightings(runs, hashes), graphs@.len() as nat).map_values(|g: HashGroup| group_view(g)),
                    |e: (Pattern, Seq<bool>)| seen_count(e),
                ),
            r matches Ok(v) ==> forall|k: int| 0 <= k < v@.len() ==> seen_in_some(#[trigger] v@[k].1@, graphs@.len() as nat),
            r matches Ok(v) ==> forall|a: int, b: int|
                0 <= a < b < v@.len() ==> entry_count(v@[a]) >= entry_count(v@[b]),
            r matches Ok(v) ==> v@.len() <= 1,
    {
        if graphs.len() == 0 {
            return Err(MiningError::EmptyGraph);
        }
        let n = graphs.len();
        let mut mined: Vec<Vec<Pattern>> = Vec::new();
        let mut codes: Vec<Vec<DFSCode>> = Vec::new();
        let mut i: usize = 0;
        while i < n
            invariant
                n == graphs@.len(),
                i <= n,
                forall|t: int| 0 <= t < i ==> #[trigger] graphs@[t].nodes().len() > 0,
                mined@.len() == i,
                codes@.len() == i,
                forall|t: int|
                    0 <= t < i ==> self.mined_from(graphs@[t], #[trigger] mined@[t]@) && codes_of(
                        mined@[t]@,
                        codes@[t]@,
                    ),
            decreases n - i,
        {
            let patterns = match self.mine(&graphs[i]) {
                Ok(v) => v,
                Err(e) => {
                    return Err(e);
                },
            };
            let c = code_list(&patterns);
            mined.push(patterns);
            codes.push(c);
            i = i + 1;
        }
        let table = code_hashes(&codes);
        let ghost runs = mined@.map_values(|r: Vec<Pattern>| r@);
        let ghost hashes = table@.map_values(|h: Vec<u64>| h@);
        proof {
            assert forall|i1: int, j1: int, i2: int, j2: int|
                0 <= i1 < runs.len() && 0 <= j1 < runs[i1].len() && 0 <= i2 < runs.len() && 0 <= j2
                    < runs[i2].len() && runs[i1][j1].dfs_code.edges@ == runs[i2][j2].dfs_code.edges@ implies #[trigger] hashes[i1][j1]
                    == #[trigger] hashes[i2][j2] by {
                assert(codes_of(mined@[i1]@, codes@[i1]@));
                assert(codes_of(mined@[i2]@, codes@[i2]@));
                assert(codes@[i1]@[j1].edges@ == codes@[i2]@[j2].edges@);
                assert(table@[i1]@[j1] == table@[i2]@[j2]);
            }
            assert(hashes_agree(runs, hashes));
        }
        let mut hs: Vec<u64> = Vec::new();
        let mut es: Vec<(Pattern, Vec<bool>)> = Vec::new();
        let ghost all = mined@;
        let mut i: usize = 0;
        proof {
            assert(runs.take(0) =~= Seq::<Seq<Pattern>>::empty());
            assert(hashes.take(0) =~= Seq::<Seq<u64>>::empty());
            assert(mined@ =~= all.skip(0));
            assert(groups_held(hs@, es@, grouped(sightings(runs.take(0), hashes.take(0)), n as nat)));
        }
        while mined.len() > 0
            invariant
                n == graphs@.len(),
                i + mined@.len() == n,
                all.len() == n,
                mined@ == all.skip(i as int),
                runs == all.map_values(|r: Vec<Pattern>| r@),
                table@.len() == n,
                hashes == table@.map_values(|h: Vec<u64>| h@),
                forall|t: int| 0 <= t < n ==> #[trigger] table@[t]@.len() == codes@[t]@.len(),
                forall|t: int| 0 <= t < n ==> codes_of(all[t]@, #[trigger] codes@[t]@),
                codes@.len() == n,
                groups_held(hs@, es@, grouped(sightings(runs.take(i as int), hashes.take(i as int)), n as nat)),
            decreases mined@.len(),
        {
            let patterns = mined.remove(0);
            proof {
                assert(patterns == all[i as int]);
                assert(codes_of(all[i as int]@, codes@[i as int]@));
                assert(table@[i as int]@.len() == patterns@.len());
                lemma_sightings_range(runs.take(i as int), hashes.take(i as int));
            }
            let ghost run = patterns@;
            GSpanMiner::record_snapshot(
                &mut hs,
                &mut es,
                patterns,
                &table[i],
                i,
                n,
                Ghost(sightings(runs.take(i as int), hashes.take(i as int))),
            );
            proof {
                let runs2 = runs.take(i + 1);
                let hashes2 = hashes.take(i + 1);
                assert(runs2.drop_last() =~= runs.take(i as int));
                assert(hashes2.drop_last() =~= hashes.take(i as int));
                assert(runs2.last() == run);
                assert(hashes2.last() == table@[i as int]@);
                assert(sightings(runs2, hashes2) =~= sightings(runs.take(i as int), hashes.take(i as int))
                    + snapshot_sightings(i as int, run, table@[i as int]@));
                assert(mined@ =~= all.skip(i + 1));
            }
            i = i + 1;
        }
        proof {
            assert(runs.take(n as int) =~= runs);
            assert(hashes.take(n as int) =~= hashes);
            assert forall|t: int| 0 <= t < runs.len() implies self.mined_from(graphs@[t], #[trigger] runs[t])
                && hashes[t].len() == runs[t].len() by {
                assert(codes_of(all[t]@, codes@[t]@));
            }
        }
        let ghost unsorted = es@;
        let sorted = sort_by_key_desc(es, count_seen, Ghost(|x: (Pattern, Vec<bool>)| entry_count(x)));
        proof {
            let gs = grouped(sightings(runs, hashes), n as nat);
            assert(unsorted.map_values(|x: (Pattern, Vec<bool>)| entry_view(x)) =~= gs.map_values(
                |g: HashGroup| group_view(g),
            ));
            assert forall|x: (Pattern, Vec<bool>)| #[trigger] entry_count(x) == seen_count(entry_view(x)) by {}
            lemma_sort_desc_map(
                unsorted,
                |x: (Pattern, Vec<bool>)| entry_count(x),
                |x: (Pattern, Vec<bool>)| entry_view(x),
                |e: (Pattern, Seq<bool>)| seen_count(e),
            );
            assert(sightings(runs, hashes).len() >= 0);
            lemma_sightings_range(runs, hashes);
            lemma_grouped_seen(sightings(runs, hashes), n as nat);
            assert(gs.len() <= 1) by {
                self.lemma_one_group(graphs@, runs, hashes);
            }
            lemma_sort_desc(gs.map_values(|g: HashGroup| group_view(g)), |e: (Pattern, Seq<bool>)| seen_count(e));
            let ek = |x: (Pattern, Vec<bool>)| entry_count(x);
            lemma_sort_desc(unsorted, ek);
            let full = sorted@;
            lemma_entries_seen(unsorted, full, gs, n as nat);
            assert(n == graphs@.len());
            assert forall|a: int, b: int| 0 <= a < b < full.len() implies entry_count(full[a]) >= entry_count(full[b]) by {
                assert(ek(full[a]) >= ek(full[b]));
            }
        }
        Ok(sorted)
    }
}


/// The weight of the edge between two symbols, if there is one, as a
/// list of at most one entry.
pub open spec fn weight_if(g: FinancialGraph, a: Seq<char>, b: Seq<char>) -> Seq<u64> {
    match g.weight_between(a, b) {
        Some(w) => seq![w],
        None => Seq::empty(),
    }
}

/// The weights of the edges of the triangles `ts`, triangle by triangle:
/// `a`–`b`, `b`–`c`, then `a`–`c`, each where the graph has it.
pub open spec fn triangle_weight_list(g: FinancialGraph, ts: Seq<(Seq<char>, Seq<char>, Seq<char>)>) -> Seq<u64>
    decreases ts.len(),
{
    if ts.len() == 0 {
        Seq::empty()
    } else {
        let t = ts.last();
        triangle_weight_list(g, ts.drop_last()) + weight_if(g, t.0, t.1) + weight_if(g, t.1, t.2) + weight_if(
            g,
            t.0,
            t.2,
        )
    }
}

/// Append the weight between `a` and `b`, if any.
pub(crate) fn push_weight(graph: &FinancialGraph, a: &str, b: &str, out: &mut Vec<u64>)
    ensures
        final(out)@ == old(out)@ + weight_if(*graph, a@, b@),
{
    match graph.edge_weight(a, b) {
        Some(w) => {
            out.push(w);
            proof {
                assert(out@ =~= old(out)@ + weight_if(*graph, a@, b@));
            }
        },
        None => {
            proof {
                assert(out@ =~= old(out)@ + weight_if(*graph, a@, b@));
            }
        },
    }
}

/// The edge weights (IEEE-754 bits) the triangle pattern's average is
/// taken over: for each triangle `(a, b, c)` in order, the weights of
/// `a`–`b`, `b`–`c` and `a`–`c` that the graph has.
pub fn triangle_weights(graph: &FinancialGraph, triangles: &Vec<(String, String, String)>) -> (w: Vec<u64>)
    ensures
        w@ == triangle_weight_list(*graph, triangles@.map_values(|t: (String, String, String)| triple_view(t))),
{
    let mut w: Vec<u64> = Vec::new();
    let mut i: usize = 0;
    while i < triangles.len()
        invariant
            i <= triangles@.len(),
            w@ == triangle_weight_list(
                *graph,
                triangles@.take(i as int).map_values(|t: (String, String, String)| triple_view(t)),
            ),
        decreases triangles@.len() - i,
    {
        let t = &triangles[i];
        push_weight(graph, t.0.as_str(), t.1.as_str(), &mut w);
        push_weight(graph, t.1.as_str(), t.2.as_str(), &mut w);
        push_weight(graph, t.0.as_str(), t.2.as_str(), &mut w);
        proof {
            let f = |t: (String, String, String)| triple_view(t);
            let ts = triangles@.take(i + 1).map_values(f);
            assert(ts.drop_last() =~= triangles@.take(i as int).map_values(f));
            assert(ts.last() == triple_view(triangles@[i as int]));
        }
        i = i + 1;
    }
    proof {
        assert(triangles@.take(i as int) =~= triangles@);
    }
    w
}

} // verus!
