//! Cliques by the Bron–Kerbosch search with pivoting, over the positions of
//! the distinct symbols of a graph.

use vstd::prelude::*;

use crate::algorithms::key_nodes;
use crate::components::{describes, kedge, key_adjacency, key_rel, names_view, node_positions, sorted_names};
use crate::sort::sort_strings;
use crate::types::FinancialGraph;

verus! {

/// Positions as mathematical integers.
pub open spec fn ints(v: Seq<usize>) -> Seq<int> {
    v.map_values(|q: usize| q as int)
}

/// No position below `n` is its own neighbor.
pub open spec fn irreflexive(e: spec_fn(int, int) -> bool, n: int) -> bool {
    forall|p: int| 0 <= p < n ==> !#[trigger] e(p, p)
}

/// The relation is the same read either way on positions below `n`.
pub open spec fn symmetric(e: spec_fn(int, int) -> bool, n: int) -> bool {
    forall|p: int, q: int| 0 <= p < n && 0 <= q < n ==> #[trigger] e(p, q) == e(q, p)
}

/// Positions below `n` that every member of `s` has as a neighbor.
pub open spec fn adj_all(e: spec_fn(int, int) -> bool, n: int, s: Set<int>) -> Set<int> {
    Set::new(|w: int| 0 <= w < n && forall|a: int| #[trigger] s.contains(a) ==> e(a, w))
}

/// Positions below `n`, outside `s`, that would extend `s`: every member
/// of `s` has them as a neighbor.
pub open spec fn common(e: spec_fn(int, int) -> bool, n: int, s: Set<int>) -> Set<int> {
    Set::new(|w: int| 0 <= w < n && !s.contains(w) && forall|a: int| #[trigger] s.contains(a) ==> e(a, w))
}

/// Every two distinct members are neighbors.
pub open spec fn is_clique(e: spec_fn(int, int) -> bool, s: Set<int>) -> bool {
    forall|a: int, b: int| s.contains(a) && s.contains(b) && a != b ==> #[trigger] e(a, b)
}

/// Every two distinct members are neighbors one way or the other.
pub open spec fn linked_pairwise(e: spec_fn(int, int) -> bool, s: Set<int>) -> bool {
    forall|a: int, b: int| s.contains(a) && s.contains(b) && a != b ==> #[trigger] e(a, b) || e(b, a)
}

/// A clique of positions below `n` that nothing extends.
pub open spec fn maximal(e: spec_fn(int, int) -> bool, n: int, s: Set<int>) -> bool {
    &&& forall|a: int| #[trigger] s.contains(a) ==> 0 <= a < n
    &&& is_clique(e, s)
    &&& forall|w: int| !#[trigger] common(e, n, s).contains(w)
}

/// Each member is a neighbor of every member before it.
pub open spec fn ordered(e: spec_fn(int, int) -> bool, s: Seq<int>) -> bool {
    forall|i: int, j: int| 0 <= i < j < s.len() ==> #[trigger] e(s[i], s[j])
}

/// What the search reports: distinct positions below `n`, pairwise
/// linked, at most `max` of them, and either exactly `max` of them or at
/// least two that nothing extends.
pub open spec fn reported(e: spec_fn(int, int) -> bool, n: int, max: int, o: Seq<int>) -> bool {
    &&& o.no_duplicates()
    &&& forall|i: int| 0 <= i < o.len() ==> 0 <= #[trigger] o[i] < n
    &&& o.len() <= max
    &&& linked_pairwise(e, o.to_set())
    &&& (o.len() == max || (o.len() >= 2 && forall|w: int| !#[trigger] common(e, n, o.to_set()).contains(w)))
}

/// `o` accounts for the maximal clique `c`: it is `c` when `c` has at most
/// `max` members, and `max` members of `c` otherwise.
pub open spec fn covers(o: Seq<int>, c: Seq<int>, max: int) -> bool {
    ||| c.len() <= max && o.to_set() == c.to_set()
    ||| c.len() > max && o.to_set().subset_of(c.to_set()) && o.len() == max
}

/// The adjacency matrix of `e` on positions below its size.
pub open spec fn matrix_of(m: Seq<Vec<bool>>, e: spec_fn(int, int) -> bool) -> bool {
    &&& forall|a: int| 0 <= a < m.len() ==> #[trigger] m[a]@.len() == m.len()
    &&& forall|a: int, b: int| 0 <= a < m.len() && 0 <= b < m.len() ==> #[trigger] m[a]@[b] == e(a, b)
}

/// The adjacency matrix from adjacency lists.
fn build_matrix(adj: &Vec<Vec<usize>>, Ghost(e): Ghost<spec_fn(int, int) -> bool>) -> (m: Vec<Vec<bool>>)
    requires
        describes(adj@, e),
    ensures
        m@.len() == adj@.len(),
        matrix_of(m@, e),
{
    let n = adj.len();
    let mut m: Vec<Vec<bool>> = Vec::new();
    let mut a: usize = 0;
    while a < n
        invariant
            n == adj@.len(),
            describes(adj@, e),
            a <= n,
            m@.len() == a,
            forall|i: int| 0 <= i < a ==> #[trigger] m@[i]@.len() == n,
            forall|i: int, b: int| 0 <= i < a && 0 <= b < n ==> #[trigger] m@[i]@[b] == e(i, b),
        decreases n - a,
    {
        let mut row = falses(n);
        let list = &adj[a];
        let mut t: usize = 0;
        while t < list.len()
            invariant
                n == adj@.len(),
                describes(adj@, e),
                a < n,
                *list == adj@[a as int],
                t <= list@.len(),
                row@.len() == n,
                forall|b: usize| b < n ==> (#[trigger] row@[b as int] <==> list@.take(t as int).contains(b)),
            decreases list@.len() - t,
        {
            let q = list[t];
            proof {
                assert(q < n);
            }
            row.set(q, true);
            proof {
                assert forall|b: usize| b < n implies (#[trigger] row@[b as int] <==> list@.take(t + 1).contains(b)) by {
                    assert(list@.take(t + 1) =~= list@.take(t as int).push(q));
                    if list@.take(t as int).contains(b) {
                        let k = choose|k: int| 0 <= k < t && list@.take(t as int)[k] == b;
                        assert(list@.take(t + 1)[k] == b);
                    }
                    if b == q {
                        assert(list@.take(t + 1)[t as int] == b);
                    }
                    if list@.take(t + 1).contains(b) && b != q {
                        let tk = list@.take(t + 1);
                        let k = choose|k: int| 0 <= k < tk.len() && tk[k] == b;
                        assert(k < t);
                        assert(list@.take(t as int)[k] == b);
                    }
                }
            }
            t = t + 1;
        }
        proof {
            assert(list@.take(t as int) =~= list@);
            assert forall|b: int| 0 <= b < n implies #[trigger] row@[b] == e(a as int, b) by {
                assert(row@[(b as usize) as int] <==> list@.contains(b as usize));
                assert(adj@[a as int]@.contains(b as usize) <==> e(a as int, (b as usize) as int));
            }
        }
        m.push(row);
        a = a + 1;
    }
    m
}

/// `n` copies of `false`.
fn falses(n: usize) -> (v: Vec<bool>)
    ensures
        v@.len() == n,
        forall|q: int| 0 <= q < n ==> !#[trigger] v@[q],
{
    let mut v: Vec<bool> = Vec::new();
    let mut i: usize = 0;
    while i < n
        invariant
            i <= n,
            v@.len() == i,
            forall|q: int| 0 <= q < i ==> !#[trigger] v@[q],
        decreases n - i,
    {
        v.push(false);
        i = i + 1;
    }
    v
}

/// `n` copies of `true`.
fn trues(n: usize) -> (v: Vec<bool>)
    ensures
        v@.len() == n,
        forall|q: int| 0 <= q < n ==> #[trigger] v@[q],
{
    let mut v: Vec<bool> = Vec::new();
    let mut i: usize = 0;
    while i < n
        invariant
            i <= n,
            v@.len() == i,
            forall|q: int| 0 <= q < i ==> #[trigger] v@[q],
        decreases n - i,
    {
        v.push(true);
        i = i + 1;
    }
    v
}

/// The first position set in `v`, if any.
fn first_set(v: &Vec<bool>) -> (r: Option<usize>)
    ensures
        r matches Some(q) ==> q < v@.len() && v@[q as int],
        r is None ==> forall|q: int| 0 <= q < v@.len() ==> !#[trigger] v@[q],
{
    let mut i: usize = 0;
    while i < v.len()
        invariant
            i <= v@.len(),
            forall|q: int| 0 <= q < i ==> !#[trigger] v@[q],
        decreases v@.len() - i,
    {
        if v[i] {
            return Some(i);
        }
        i = i + 1;
    }
    None
}

/// The positions set in `p` and clear in both `row` and `skip`, in
/// increasing order.
fn candidates(p: &Vec<bool>, row: &Vec<bool>, skip: &Vec<bool>) -> (vs: Vec<usize>)
    requires
        row@.len() == p@.len(),
        skip@.len() == p@.len(),
    ensures
        forall|i: int, j: int| 0 <= i < j < vs@.len() ==> vs@[i] < vs@[j],
        forall|i: int| 0 <= i < vs@.len() ==> #[trigger] vs@[i] < p@.len(),
        forall|q: usize| q < p@.len() ==> (#[trigger] vs@.contains(q) <==> p@[q as int] && !row@[q as int] && !skip@[q as int]),
{
    let mut vs: Vec<usize> = Vec::new();
    let mut i: usize = 0;
    while i < p.len()
        invariant
            row@.len() == p@.len(),
            skip@.len() == p@.len(),
            i <= p@.len(),
            forall|a: int, b: int| 0 <= a < b < vs@.len() ==> vs@[a] < vs@[b],
            forall|a: int| 0 <= a < vs@.len() ==> #[trigger] vs@[a] < i,
            forall|q: usize| q < p@.len() ==> (#[trigger] vs@.contains(q) <==> q < i && p@[q as int] && !row@[q as int] && !skip@[q as int]),
        decreases p@.len() - i,
    {
        if p[i] && !row[i] && !skip[i] {
            let ghost before = vs@;
            vs.push(i);
            proof {
                assert forall|q: usize| q < p@.len() implies (#[trigger] vs@.contains(q) <==> q < i + 1 && p@[q as int] && !row@[q as int] && !skip@[q as int]) by {
                    if before.contains(q) {
                        let k = choose|k: int| 0 <= k < before.len() && before[k] == q;
                        assert(vs@[k] == q);
                    }
                    if q == i {
                        assert(vs@[before.len() as int] == q);
                    }
                    if vs@.contains(q) && q != i {
                        let k = choose|k: int| 0 <= k < vs@.len() && vs@[k] == q;
                        assert(k < before.len());
                        assert(before[k] == q);
                    }
                }
            }
        }
        i = i + 1;
    }
    vs
}

/// Which positions below `n` are listed in `r`.
fn members(r: &Vec<usize>, n: usize) -> (m: Vec<bool>)
    ensures
        m@.len() == n,
        forall|q: int| 0 <= q < n ==> #[trigger] m@[q] == ints(r@).to_set().contains(q),
{
    let mut m = falses(n);
    let mut t: usize = 0;
    while t < r.len()
        invariant
            m@.len() == n,
            t <= r@.len(),
            forall|q: int| 0 <= q < n ==> #[trigger] m@[q] == ints(r@.take(t as int)).to_set().contains(q),
        decreases r@.len() - t,
    {
        let v = r[t];
        proof {
            lemma_ints_push(r@.take(t as int), v);
            assert(r@.take(t + 1) =~= r@.take(t as int).push(v));
            ints(r@.take(t as int)).lemma_push_to_set_commute(v as int);
        }
        if v < n {
            m.set(v, true);
        }
        t = t + 1;
    }
    proof {
        assert(r@.take(t as int) =~= r@);
    }
    m
}

/// The positions set in both `s` and `row`.
fn restrict(s: &Vec<bool>, row: &Vec<bool>) -> (r: Vec<bool>)
    requires
        row@.len() == s@.len(),
    ensures
        r@.len() == s@.len(),
        forall|q: int| 0 <= q < s@.len() ==> #[trigger] r@[q] == (s@[q] && row@[q]),
{
    let mut r: Vec<bool> = Vec::new();
    let mut i: usize = 0;
    while i < s.len()
        invariant
            row@.len() == s@.len(),
            i <= s@.len(),
            r@.len() == i,
            forall|q: int| 0 <= q < i ==> #[trigger] r@[q] == (s@[q] && row@[q]),
        decreases s@.len() - i,
    {
        r.push(s[i] && row[i]);
        i = i + 1;
    }
    r
}

/// Positions in strictly increasing order.
pub open spec fn ascending(s: Seq<usize>) -> bool {
    forall|i: int, j: int| 0 <= i < j < s.len() ==> s[i] < s[j]
}

/// The positions of `r` in increasing order.
fn sorted_positions(r: &Vec<usize>, n: usize) -> (o: Vec<usize>)
    requires
        ints(r@).no_duplicates(),
        forall|i: int| 0 <= i < r@.len() ==> #[trigger] r@[i] < n,
    ensures
        ascending(o@),
        forall|i: int| 0 <= i < o@.len() ==> #[trigger] o@[i] < n,
        ints(o@).to_set() == ints(r@).to_set(),
        ints(o@).no_duplicates(),
        o@.len() == r@.len(),
{
    let m = members(r, n);
    let none = falses(n);
    let o = candidates(&m, &none, &none);
    proof {
        let io = ints(o@);
        let ir = ints(r@);
        assert forall|q: int| #[trigger] io.to_set().contains(q) <==> ir.to_set().contains(q) by {
            if io.to_set().contains(q) {
                let k = choose|k: int| 0 <= k < io.len() && io[k] == q;
                assert(o@.contains(o@[k]));
                assert(m@[q]);
            }
            if ir.to_set().contains(q) {
                let k = choose|k: int| 0 <= k < ir.len() && ir[k] == q;
                assert(r@[k] < n);
                assert(m@[q]);
                assert(o@.contains(q as usize));
                let t = choose|t: int| 0 <= t < o@.len() && o@[t] == q as usize;
                assert(io[t] == q);
            }
        }
        assert(io.to_set() =~= ir.to_set());
        assert forall|i: int, j: int| 0 <= i < io.len() && 0 <= j < io.len() && i != j implies io[i] != io[j] by {
            if i < j {
                assert(o@[i] < o@[j]);
            } else {
                assert(o@[j] < o@[i]);
            }
        }
        io.unique_seq_to_set();
        ir.unique_seq_to_set();
        assert(io.len() == o@.len() && ir.len() == r@.len());
    }
    o
}


/// The state of the search on entry to a call with `r` chosen, `p` the
/// candidates and `x` the positions already tried: `r` is ordered, `p`
/// and `x` are disjoint, hold only common neighbors of `r`, and hold every
/// position that would extend `r`.
pub open spec fn search_state(
    e: spec_fn(int, int) -> bool,
    n: int,
    max: int,
    r: Seq<int>,
    p: Seq<bool>,
    x: Seq<bool>,
) -> bool {
    &&& p.len() == n
    &&& x.len() == n
    &&& r.no_duplicates()
    &&& forall|i: int| 0 <= i < r.len() ==> 0 <= #[trigger] r[i] < n
    &&& r.len() <= max
    &&& ordered(e, r)
    &&& forall|q: int| 0 <= q < n ==> !(#[trigger] p[q] && x[q])
    &&& forall|q: int| 0 <= q < n && #[trigger] x[q] ==> !r.to_set().contains(q)
    &&& forall|q: int|
        #![trigger p[q]]
        #![trigger x[q]]
        0 <= q < n && (p[q] || x[q]) ==> adj_all(e, n, r.to_set()).contains(q)
    &&& forall|q: int| #[trigger] common(e, n, r.to_set()).contains(q) ==> p[q] || x[q]
}

/// A list the call on `r` and `p` may report: it holds `r`, and its other
/// members were candidates.
pub open spec fn found_in(e: spec_fn(int, int) -> bool, n: int, max: int, r: Set<int>, p: Seq<bool>, o: Seq<int>) -> bool {
    &&& reported(e, n, max, o)
    &&& r.subset_of(o.to_set())
    &&& forall|q: int| #[trigger] o.to_set().contains(q) && !r.contains(q) ==> p[q]
}

/// A maximal clique of at least two positions that the call on `r` and
/// `p` is to account for: it holds `r` and its other members are
/// candidates.
pub open spec fn target(e: spec_fn(int, int) -> bool, n: int, r: Set<int>, p: Seq<bool>, c: Seq<int>) -> bool {
    &&& c.no_duplicates()
    &&& c.len() >= 2
    &&& maximal(e, n, c.to_set())
    &&& r.subset_of(c.to_set())
    &&& forall|q: int| #[trigger] c.to_set().contains(q) && !r.contains(q) ==> p[q]
}

proof fn lemma_ints_push(s: Seq<usize>, v: usize)
    ensures
        ints(s.push(v)) == ints(s).push(v as int),
        ints(s).len() == s.len(),
{
    assert(ints(s.push(v)) =~= ints(s).push(v as int));
}

proof fn lemma_take_contains(s: Seq<usize>, t: int, q: usize)
    requires
        0 <= t < s.len(),
    ensures
        s.take(t + 1).contains(q) <==> (s.take(t).contains(q) || s[t] == q),
{
    assert(s.take(t + 1) =~= s.take(t).push(s[t]));
    if s.take(t).contains(q) {
        let tk = s.take(t);
        let k = choose|k: int| 0 <= k < tk.len() && tk[k] == q;
        assert(s.take(t + 1)[k] == q);
    }
    if s[t] == q {
        assert(s.take(t + 1)[t] == q);
    }
    if s.take(t + 1).contains(q) && s[t] != q {
        let tk = s.take(t + 1);
        let k = choose|k: int| 0 <= k < tk.len() && tk[k] == q;
        assert(s.take(t)[k] == q);
    }
}

/// An ordered list is pairwise linked.
proof fn lemma_ordered_pairwise(e: spec_fn(int, int) -> bool, s: Seq<int>)
    requires
        ordered(e, s),
    ensures
        linked_pairwise(e, s.to_set()),
{
    assert forall|a: int, b: int| s.to_set().contains(a) && s.to_set().contains(b) && a != b implies #[trigger] e(a, b) || e(b, a) by {
        let i = choose|i: int| 0 <= i < s.len() && s[i] == a;
        let j = choose|j: int| 0 <= j < s.len() && s[j] == b;
        if i < j {
            assert(e(s[i], s[j]));
        } else {
            assert(e(s[j], s[i]));
        }
    }
}

/// Choosing candidate `v` gives a call in a proper state.
proof fn lemma_child_state(
    e: spec_fn(int, int) -> bool,
    n: int,
    max: int,
    r: Seq<int>,
    p: Seq<bool>,
    x: Seq<bool>,
    v: int,
    np: Seq<bool>,
    nx: Seq<bool>,
)
    requires
        search_state(e, n, max, r, p, x),
        r.len() < max,
        0 <= v < n,
        p[v],
        !r.to_set().contains(v),
        np.len() == n,
        nx.len() == n,
        forall|q: int| 0 <= q < n ==> #[trigger] np[q] == (p[q] && e(v, q)),
        forall|q: int| 0 <= q < n ==> #[trigger] nx[q] == (x[q] && e(v, q)),
    ensures
        search_state(e, n, max, r.push(v), np, nx),
        r.push(v).to_set() == r.to_set().insert(v),
{
    let rs = r.to_set();
    let r2 = r.push(v);
    r.lemma_push_to_set_commute(v);
    assert(r2.to_set() == rs.insert(v));
    assert(!rs.contains(v));
    assert(adj_all(e, n, rs).contains(v));
    assert forall|i: int, j: int| 0 <= i < r2.len() && 0 <= j < r2.len() && i != j implies r2[i] != r2[j] by {
        if i == r.len() {
            assert(rs.contains(r[j]));
        } else if j == r.len() {
            assert(rs.contains(r[i]));
        } else {
            assert(r2[i] == r[i] && r2[j] == r[j]);
        }
    }
    assert(r2.no_duplicates());
    assert forall|i: int, j: int| 0 <= i < j < r2.len() implies #[trigger] e(r2[i], r2[j]) by {
        if j == r.len() {
            assert(rs.contains(r[i]));
        } else {
            assert(r2[i] == r[i] && r2[j] == r[j]);
        }
    }
    assert forall|q: int| 0 <= q < n && #[trigger] nx[q] implies !r2.to_set().contains(q) by {
        assert(x[q]);
        assert(!(p[v] && x[v]));
    }
    assert forall|q: int|
        #![trigger np[q]]
        #![trigger nx[q]]
        0 <= q < n && (np[q] || nx[q]) implies adj_all(e, n, r2.to_set()).contains(q) by {
        assert(p[q] || x[q]);
        assert(adj_all(e, n, rs).contains(q));
        assert forall|a: int| #[trigger] r2.to_set().contains(a) implies e(a, q) by {
            if a != v {
                assert(rs.contains(a));
            }
        }
    }
    assert forall|q: int| #[trigger] common(e, n, r2.to_set()).contains(q) implies np[q] || nx[q] by {
        assert forall|a: int| #[trigger] rs.contains(a) implies e(a, q) by {
            assert(r2.to_set().contains(a));
        }
        assert(common(e, n, rs).contains(q));
        assert(r2.to_set().contains(v));
        assert(e(v, q));
    }
}

/// Moving a tried candidate from `p` to `x` keeps the state proper.
proof fn lemma_move(
    e: spec_fn(int, int) -> bool,
    n: int,
    max: int,
    r: Seq<int>,
    p: Seq<bool>,
    x: Seq<bool>,
    v: int,
)
    requires
        search_state(e, n, max, r, p, x),
        r.len() < max,
        0 <= v < n,
        p[v],
        !r.to_set().contains(v),
    ensures
        search_state(e, n, max, r, p.update(v, false), x.update(v, true)),
{
    let p2 = p.update(v, false);
    let x2 = x.update(v, true);
    assert(!r.to_set().contains(v));
    assert(adj_all(e, n, r.to_set()).contains(v));
    assert forall|q: int| 0 <= q < n implies !(#[trigger] p2[q] && x2[q]) by {
        if q != v {
            assert(p2[q] == p[q] && x2[q] == x[q]);
        }
    }
    assert forall|q: int| 0 <= q < n && #[trigger] x2[q] implies !r.to_set().contains(q) by {
        if q != v {
            assert(x[q]);
        }
    }
    assert forall|q: int|
        #![trigger p2[q]]
        #![trigger x2[q]]
        0 <= q < n && (p2[q] || x2[q]) implies adj_all(e, n, r.to_set()).contains(q) by {
        if q != v {
            assert(p[q] || x[q]);
        }
    }
    assert forall|q: int| #[trigger] common(e, n, r.to_set()).contains(q) implies p2[q] || x2[q] by {
        assert(p[q] || x[q]);
    }
}


/// Sets of `r` and `c` with `r` inside `c` and no fewer members are equal.
proof fn lemma_same_set(r: Seq<int>, c: Seq<int>)
    requires
        r.no_duplicates(),
        c.no_duplicates(),
        r.to_set().subset_of(c.to_set()),
        r.len() >= c.len(),
    ensures
        r.to_set() == c.to_set(),
        r.len() == c.len(),
{
    r.unique_seq_to_set();
    c.unique_seq_to_set();
    vstd::set_lib::lemma_len_subset(r.to_set(), c.to_set());
    vstd::set_lib::lemma_subset_equality(r.to_set(), c.to_set());
}

/// A maximal clique holding `r` and more has a member outside `r` that the
/// pivot `u` does not neighbor.
proof fn lemma_pivot_misses(e: spec_fn(int, int) -> bool, n: int, r: Set<int>, c: Set<int>, u: int) -> (w: int)
    requires
        symmetric(e, n),
        irreflexive(e, n),
        maximal(e, n, c),
        r.subset_of(c),
        0 <= u < n,
        !r.contains(u),
        adj_all(e, n, r).contains(u),
    ensures
        c.contains(w),
        !r.contains(w),
        !e(u, w),
{
    if forall|w: int| c.contains(w) && !r.contains(w) ==> e(u, w) {
        if c.contains(u) {
            assert(e(u, u));
        }
        assert forall|a: int| #[trigger] c.contains(a) implies e(a, u) by {
            if !r.contains(a) {
                assert(e(u, a));
            }
        }
        assert(common(e, n, c).contains(u));
        assert(false);
    }
    choose|w: int| c.contains(w) && !r.contains(w) && !e(u, w)
}

/// The Bron–Kerbosch search with pivoting from the call with `r` chosen,
/// candidates `p` and tried positions `x`: appends to `out` each list it
/// reports, and accounts (when the relation is symmetric and irreflexive)
/// for every maximal clique holding `r` whose other members are
/// candidates.
fn bron_kerbosch(
    mat: &Vec<Vec<bool>>,
    r: &mut Vec<usize>,
    p: Vec<bool>,
    x: Vec<bool>,
    max_size: usize,
    out: &mut Vec<Vec<usize>>,
    Ghost(e): Ghost<spec_fn(int, int) -> bool>,
)
    requires
        matrix_of(mat@, e),
        search_state(e, mat@.len() as int, max_size as int, ints(old(r)@), p@, x@),
    ensures
        final(r)@ == old(r)@,
        old(out)@.len() <= final(out)@.len(),
        forall|k: int| 0 <= k < old(out)@.len() ==> #[trigger] final(out)@[k] == old(out)@[k],
        forall|k: int|
            old(out)@.len() <= k < final(out)@.len() ==> found_in(
                e,
                mat@.len() as int,
                max_size as int,
                ints(old(r)@).to_set(),
                p@,
                ints(#[trigger] final(out)@[k]@),
            ),
        forall|k1: int, k2: int|
            #![trigger final(out)@[k1], final(out)@[k2]]
            old(out)@.len() <= k1 < k2 < final(out)@.len() ==> ints(final(out)@[k1]@).to_set() != ints(
                final(out)@[k2]@,
            ).to_set(),
        forall|k: int| old(out)@.len() <= k < final(out)@.len() ==> ascending(#[trigger] final(out)@[k]@),
        symmetric(e, mat@.len() as int) && irreflexive(e, mat@.len() as int) ==> forall|c: Seq<int>|
            #[trigger] target(e, mat@.len() as int, ints(old(r)@).to_set(), p@, c) ==> exists|k: int|
                old(out)@.len() <= k < final(out)@.len() && covers(ints(#[trigger] final(out)@[k]@), c, max_size as int),
    decreases max_size - old(r)@.len(),
{
    let nn = mat.len();
    let ghost n = mat@.len() as int;
    let ghost max = max_size as int;
    let ghost r0 = r@;
    let ghost rs = ints(r@);
    let ghost rset = rs.to_set();
    let ghost o0 = out@;
    let ghost p0 = p@;
    let ghost x0 = x@;
    proof {
        assert(rs.len() == r@.len());
        assert forall|i: int| 0 <= i < r@.len() implies #[trigger] r@[i] < nn by {
            assert(rs[i] == r@[i] as int);
        }
    }
    let pe = first_set(&p);
    let xe = first_set(&x);
    if pe.is_none() && xe.is_none() {
        if r.len() >= 2 && r.len() <= max_size {
            let snap = sorted_positions(r, nn);
            out.push(snap);
            proof {
                lemma_ordered_pairwise(e, rs);
                assert(out@[o0.len() as int] == snap);
                assert forall|w: int| !#[trigger] common(e, n, rs.to_set()).contains(w) by {
                    if common(e, n, rs.to_set()).contains(w) {
                        assert(p0[w] || x0[w]);
                    }
                }
                assert(ints(snap@).len() == snap@.len());
                assert forall|i: int| 0 <= i < snap@.len() implies 0 <= #[trigger] ints(snap@)[i] < n by {
                    assert(snap@[i] < nn);
                }
                assert(ints(snap@).len() == snap@.len());
            assert forall|i: int| 0 <= i < snap@.len() implies 0 <= #[trigger] ints(snap@)[i] < n by {
                assert(snap@[i] < nn);
            }
            assert(found_in(e, n, max, rset, p0, ints(snap@)));
                assert forall|c: Seq<int>| #[trigger] target(e, n, rset, p0, c) implies exists|k: int|
                    o0.len() <= k < out@.len() && covers(ints(#[trigger] out@[k]@), c, max) by {
                    assert forall|q: int| c.to_set().contains(q) implies rset.contains(q) by {
                        if !rset.contains(q) {
                            assert(p0[q]);
                        }
                    }
                    assert(c.to_set() =~= rset);
                    c.unique_seq_to_set();
                    rs.unique_seq_to_set();
                    assert(covers(ints(out@[o0.len() as int]@), c, max));
                }
            }
        } else {
            proof {
                assert forall|c: Seq<int>| #[trigger] target(e, n, rset, p0, c) implies exists|k: int|
                    o0.len() <= k < out@.len() && covers(ints(#[trigger] out@[k]@), c, max) by {
                    assert forall|q: int| c.to_set().contains(q) implies rset.contains(q) by {
                        if !rset.contains(q) {
                            assert(p0[q]);
                        }
                    }
                    assert(c.to_set() =~= rset);
                    c.unique_seq_to_set();
                    rs.unique_seq_to_set();
                }
            }
        }
        return;
    }
    if r.len() >= max_size {
        let snap = sorted_positions(r, nn);
        out.push(snap);
        proof {
            lemma_ordered_pairwise(e, rs);
            assert(out@[o0.len() as int] == snap);
            assert(ints(snap@).len() == snap@.len());
            assert forall|i: int| 0 <= i < snap@.len() implies 0 <= #[trigger] ints(snap@)[i] < n by {
                assert(snap@[i] < nn);
            }
            assert(found_in(e, n, max, rset, p0, ints(snap@)));
            assert forall|c: Seq<int>| #[trigger] target(e, n, rset, p0, c) implies exists|k: int|
                o0.len() <= k < out@.len() && covers(ints(#[trigger] out@[k]@), c, max) by {
                if c.len() <= max {
                    lemma_same_set(rs, c);
                }
                assert(covers(ints(out@[o0.len() as int]@), c, max));
            }
        }
        return;
    }
    let u: usize = match pe {
        Some(q) => q,
        None => xe.unwrap(),
    };
    proof {
        assert(p0[u as int] || x0[u as int]);
        assert(adj_all(e, n, rset).contains(u as int));
        if irreflexive(e, n) && rset.contains(u as int) {
            assert(e(u as int, u as int));
        }
    }
    let chosen = members(r, nn);
    let vs = candidates(&p, &mat[u], &chosen);
    let mut p = p;
    let mut x = x;
    let mut t: usize = 0;
    let ghost mut tag: Seq<int> = Seq::new(o0.len(), |k: int| 0int);
    while t < vs.len()
        invariant
            n == mat@.len(),
            n == nn,
            max == max_size,
            old(r)@ == r0,
            matrix_of(mat@, e),
            r@ == r0,
            rs == ints(r0),
            rset == rs.to_set(),
            rs.len() == r@.len(),
            r@.len() < max_size,
            search_state(e, n, max, rs, p0, x0),
            search_state(e, n, max, rs, p@, x@),
            u < n,
            adj_all(e, n, rset).contains(u as int),
            irreflexive(e, n) ==> !rset.contains(u as int),
            forall|i: int, j: int| 0 <= i < j < vs@.len() ==> vs@[i] < vs@[j],
            forall|i: int| 0 <= i < vs@.len() ==> #[trigger] vs@[i] < n,
            forall|q: usize| q < n ==> (#[trigger] vs@.contains(q) <==> p0[q as int] && !mat@[u as int]@[q as int]
                && !rset.contains(q as int)),
            t <= vs@.len(),
            forall|q: usize| q < n ==> #[trigger] p@[q as int] == (p0[q as int] && !vs@.take(t as int).contains(q)),
            forall|q: usize| q < n ==> #[trigger] x@[q as int] == (x0[q as int] || vs@.take(t as int).contains(q)),
            o0.len() <= out@.len(),
            forall|k: int| 0 <= k < o0.len() ==> #[trigger] out@[k] == o0[k],
            forall|k: int| o0.len() <= k < out@.len() ==> found_in(e, n, max, rset, p0, ints(#[trigger] out@[k]@)),
            forall|k: int| o0.len() <= k < out@.len() ==> ascending(#[trigger] out@[k]@),
            tag.len() == out@.len(),
            forall|k: int|
                o0.len() <= k < out@.len() ==> 0 <= #[trigger] tag[k] < t && ints(out@[k]@).to_set().contains(
                    vs@[tag[k]] as int,
                ),
            forall|k1: int, k2: int|
                #![trigger out@[k1], out@[k2]]
                o0.len() <= k1 < k2 < out@.len() ==> ints(out@[k1]@).to_set() != ints(out@[k2]@).to_set(),
            symmetric(e, n) && irreflexive(e, n) ==> forall|c: Seq<int>|
                #[trigger] target(e, n, rset, p0, c) ==> (exists|k: int|
                    o0.len() <= k < out@.len() && covers(ints(#[trigger] out@[k]@), c, max)) || ((forall|q: int|
                    #[trigger] c.to_set().contains(q) && !rset.contains(q) ==> p@[q]) && (forall|i: int|
                    0 <= i < t ==> !c.to_set().contains(#[trigger] vs@[i] as int))),
        decreases vs@.len() - t,
    {
        let v = vs[t];
        proof {
            assert(vs@.contains(v));
            if vs@.take(t as int).contains(v) {
                let tk = vs@.take(t as int);
                let k = choose|k: int| 0 <= k < tk.len() && tk[k] == v;
                assert(vs@[k] < vs@[t as int]);
            }
            assert(p@[v as int]);
            assert(!rset.contains(v as int));
        }
        let np = restrict(&p, &mat[v]);
        let nx = restrict(&x, &mat[v]);
        let ghost pt = p@;
        let ghost xt = x@;
        let ghost m0 = out@;
        proof {
            lemma_child_state(e, n, max, rs, pt, xt, v as int, np@, nx@);
        }
        r.push(v);
        proof {
            lemma_ints_push(r0, v);
            assert(r@.len() == r0.len() + 1);
            assert(max_size - r@.len() < max_size - r0.len());
        }
        bron_kerbosch(mat, r, np, nx, max_size, out, Ghost(e));
        let ghost m1 = out@;
        let ghost r2 = r@;
        r.pop();
        proof {
            assert(r@ =~= r2.drop_last());
            assert(r@ =~= r0);
            lemma_move(e, n, max, rs, pt, xt, v as int);
            assert forall|q: usize| q < n implies #[trigger] pt.update(v as int, false)[q as int] == (p0[q as int]
                && !vs@.take(t + 1).contains(q)) by {
                lemma_take_contains(vs@, t as int, q);
            }
            assert forall|q: usize| q < n implies #[trigger] xt.update(v as int, true)[q as int] == (x0[q as int]
                || vs@.take(t + 1).contains(q)) by {
                lemma_take_contains(vs@, t as int, q);
            }
            let r1 = rs.push(v as int);
            assert(r1.to_set() == rset.insert(v as int));
            assert(p0[v as int]);
            assert forall|k: int| 0 <= k < o0.len() implies #[trigger] m1[k] == o0[k] by {
                assert(m1[k] == m0[k]);
            }
            assert forall|k: int| o0.len() <= k < m1.len() implies found_in(e, n, max, rset, p0, ints(#[trigger] m1[k]@)) by {
                if k < m0.len() {
                    assert(m1[k] == m0[k]);
                } else {
                    let o = ints(m1[k]@);
                    assert(found_in(e, n, max, r1.to_set(), np@, o));
                    assert forall|q: int| #[trigger] o.to_set().contains(q) && !rset.contains(q) implies p0[q] by {
                        if q != v as int {
                            assert(np@[q]);
                        }
                    }
                }
            }
            let tag0 = tag;
            let tag1 = tag0 + Seq::new((m1.len() - m0.len()) as nat, |k: int| t as int);
            assert forall|k: int| o0.len() <= k < m1.len() implies 0 <= #[trigger] tag1[k] < t + 1 && ints(
                m1[k]@,
            ).to_set().contains(vs@[tag1[k]] as int) by {
                if k < m0.len() {
                    assert(m1[k] == m0[k]);
                    assert(tag1[k] == tag0[k]);
                } else {
                    assert(tag1[k] == t);
                    assert(found_in(e, n, max, r1.to_set(), np@, ints(m1[k]@)));
                    assert(r1.to_set().contains(v as int));
                    assert(ints(m1[k]@).to_set().contains(vs@[t as int] as int));
                }
            }
            tag = tag1;
            assert forall|k1: int, k2: int|
                #![trigger m1[k1], m1[k2]]
                o0.len() <= k1 < k2 < m1.len() implies ints(m1[k1]@).to_set() != ints(m1[k2]@).to_set() by {
                if k2 < m0.len() {
                    assert(m1[k1] == m0[k1] && m1[k2] == m0[k2]);
                } else if k1 < m0.len() {
                    assert(m1[k1] == m0[k1]);
                    let i = tag0[k1];
                    assert(0 <= i < t && ints(m0[k1]@).to_set().contains(vs@[i] as int));
                    let w = vs@[i];
                    assert(vs@.contains(w));
                    assert(p0[w as int]);
                    assert(!rset.contains(w as int));
                    assert(w != v);
                    assert(vs@.take(t as int)[i] == w);
                    assert(!pt[w as int]);
                    let o2 = ints(m1[k2]@);
                    assert(found_in(e, n, max, r1.to_set(), np@, o2));
                    if o2.to_set().contains(w as int) {
                        assert(!r1.to_set().contains(w as int));
                        assert(np@[w as int]);
                    }
                    assert(!o2.to_set().contains(w as int));
                }
            }
            if symmetric(e, n) && irreflexive(e, n) {
                assert forall|c: Seq<int>| #[trigger] target(e, n, rset, p0, c) implies (exists|k: int|
                    o0.len() <= k < m1.len() && covers(ints(#[trigger] m1[k]@), c, max)) || ((forall|q: int|
                    #[trigger] c.to_set().contains(q) && !rset.contains(q) ==> pt.update(v as int, false)[q]) && (forall|i: int|
                    0 <= i < t + 1 ==> !c.to_set().contains(#[trigger] vs@[i] as int))) by {
                    if exists|k: int| o0.len() <= k < m0.len() && covers(ints(#[trigger] m0[k]@), c, max) {
                        let k = choose|k: int| o0.len() <= k < m0.len() && covers(ints(#[trigger] m0[k]@), c, max);
                        assert(m1[k] == m0[k]);
                        assert(covers(ints(m1[k]@), c, max));
                    } else if c.to_set().contains(v as int) {
                        assert forall|q: int| #[trigger] c.to_set().contains(q) && !r1.to_set().contains(q) implies np@[q] by {
                            assert(pt[q]);
                            assert(e(v as int, q));
                        }
                        assert(target(e, n, r1.to_set(), np@, c));
                        let k = choose|k: int| m0.len() <= k < m1.len() && covers(ints(#[trigger] m1[k]@), c, max);
                        assert(covers(ints(m1[k]@), c, max));
                    } else {
                        assert forall|q: int| #[trigger] c.to_set().contains(q) && !rset.contains(q) implies pt.update(v as int, false)[q] by {
                            assert(pt[q]);
                        }
                        assert forall|i: int| 0 <= i < t + 1 implies !c.to_set().contains(#[trigger] vs@[i] as int) by {
                            if i == t {
                                assert(vs@[i] == v);
                            }
                        }
                    }
                }
            }
        }
        p.set(v, false);
        x.set(v, true);
        t = t + 1;
        proof {
            assert(out@ == m1);
            assert(out@ == m1);
        }
    }
    proof {
        if symmetric(e, n) && irreflexive(e, n) {
            assert forall|c: Seq<int>| #[trigger] target(e, n, rset, p0, c) implies exists|k: int|
                o0.len() <= k < out@.len() && covers(ints(#[trigger] out@[k]@), c, max) by {
                if !exists|k: int| o0.len() <= k < out@.len() && covers(ints(#[trigger] out@[k]@), c, max) {
                    let w = lemma_pivot_misses(e, n, rset, c.to_set(), u as int);
                    assert(p0[w]);
                    assert(0 <= w < n);
                    let wu = w as usize;
                    assert(wu as int == w);
                    assert(mat@[u as int]@[w] == e(u as int, w));
                    assert(!mat@[u as int]@[wu as int]);
                    assert(vs@.contains(wu));
                    let i = choose|i: int| 0 <= i < vs@.len() && vs@[i] == wu;
                    assert(!c.to_set().contains(vs@[i] as int));
                    assert(false);
                }
            }
        }
    }
}


/// No symbol is among the neighbor symbols of its own node.
pub open spec fn no_self_link(g: FinancialGraph) -> bool {
    irreflexive(key_rel(g), g.keys().len() as int)
}

/// Every symbol is among the neighbor symbols of each symbol among its own.
pub open spec fn mutual_links(g: FinancialGraph) -> bool {
    symmetric(key_rel(g), g.keys().len() as int)
}

/// What `find_cliques` reports, as positions among the distinct symbols
/// `cs`: each list is sorted and names a reported set, no set twice, and
/// (on a graph whose links are mutual and none is to itself) every maximal
/// clique of at least two symbols is accounted for.
pub open spec fn cliques_found(g: FinancialGraph, max_size: int, out: Seq<Vec<String>>, cs: Seq<Seq<int>>) -> bool {
    let n = g.keys().len() as int;
    &&& cs.len() == out.len()
    &&& forall|i: int|
        0 <= i < cs.len() ==> sorted_names(names_view(#[trigger] out[i]), cs[i].to_set(), g.keys())
            && reported(key_rel(g), n, max_size, cs[i])
    &&& forall|i: int, j: int| 0 <= i < j < cs.len() ==> #[trigger] cs[i].to_set() != #[trigger] cs[j].to_set()
    &&& mutual_links(g) && no_self_link(g) ==> forall|c: Seq<int>|
        c.no_duplicates() && c.len() >= 2 && #[trigger] maximal(key_rel(g), n, c.to_set()) ==> exists|i: int|
            0 <= i < cs.len() && covers(#[trigger] cs[i], c, max_size)
}

/// Find all cliques of up to `max_size` symbols with the Bron–Kerbosch
/// search with pivoting.  Each clique lists its symbols in ascending
/// order.  A list is reported when nothing extends it and it has between
/// two and `max_size` symbols, or when the search reaches `max_size`
/// symbols.  A symbol already chosen is never chosen again, so the search
/// ends on every graph.
pub fn find_cliques(graph: &FinancialGraph, max_size: usize) -> (out: Vec<Vec<String>>)
    ensures
        exists|cs: Seq<Seq<int>>| #[trigger] cliques_found(*graph, max_size as int, out@, cs),
{
    let (keys, ids) = key_nodes(graph);
    let node_pos = node_positions(graph, &keys);
    let adj = key_adjacency(graph, &ids, &node_pos);
    let ghost k = graph.keys();
    let ghost e = key_rel(*graph);
    proof {
        graph.lemma_keys();
        assert(describes(adj@, e));
    }
    let mat = build_matrix(&adj, Ghost(e));
    let n = keys.len();
    let ghost gn = n as int;
    let mut r: Vec<usize> = Vec::new();
    let p = trues(n);
    let x = falses(n);
    let mut found: Vec<Vec<usize>> = Vec::new();
    proof {
        let rs = ints(r@);
        assert(rs =~= Seq::<int>::empty());
        assert(rs.to_set() =~= Set::<int>::empty());
        assert forall|q: int| #[trigger] common(e, gn, rs.to_set()).contains(q) implies p@[q] || x@[q] by {}
        assert forall|q: int|
            #![trigger p@[q]]
            #![trigger x@[q]]
            0 <= q < gn && (p@[q] || x@[q]) implies adj_all(e, gn, rs.to_set()).contains(q) by {}
        assert(search_state(e, gn, max_size as int, rs, p@, x@));
    }
    let ghost p_all = p@;
    bron_kerbosch(&mat, &mut r, p, x, max_size, &mut found, Ghost(e));
    let ghost cs = found@.map_values(|o: Vec<usize>| ints(o@));
    let mut out: Vec<Vec<String>> = Vec::new();
    let mut i: usize = 0;
    while i < found.len()
        invariant
            i <= found@.len(),
            out@.len() == i,
            gn == n,
            n == k.len(),
            k == graph.keys(),
            k.no_duplicates(),
            keys@.map_values(|s: &String| s@) == k,
            cs == found@.map_values(|o: Vec<usize>| ints(o@)),
            forall|j: int|
                0 <= j < found@.len() ==> found_in(e, gn, max_size as int, Set::<int>::empty(), p_all, ints(#[trigger] found@[j]@)),
            forall|j: int| 0 <= j < i ==> sorted_names(names_view(#[trigger] out@[j]), cs[j].to_set(), k),
        decreases found@.len() - i,
    {
        let o = &found[i];
        proof {
            assert(found_in(e, gn, max_size as int, Set::<int>::empty(), p_all, ints(found@[i as int]@)));
        }
        let ghost oi = ints(o@);
        let mut names: Vec<String> = Vec::new();
        let mut t: usize = 0;
        while t < o.len()
            invariant
                t <= o@.len(),
                names@.len() == t,
                n == k.len(),
                oi == ints(o@),
                forall|a: int| 0 <= a < oi.len() ==> 0 <= #[trigger] oi[a] < n,
                keys@.map_values(|s: &String| s@) == k,
                forall|a: int| 0 <= a < t ==> #[trigger] names@[a]@ == k[o@[a] as int],
            decreases o@.len() - t,
        {
            proof {
                assert(oi[t as int] == o@[t as int] as int);
                assert(keys@.map_values(|s: &String| s@)[o@[t as int] as int] == keys@[o@[t as int] as int]@);
            }
            names.push(keys[o[t]].clone());
            t = t + 1;
        }
        let ghost nv = names@.map_values(|s: String| s@);
        proof {
            assert forall|a: int, b: int| 0 <= a < nv.len() && 0 <= b < nv.len() && a != b implies nv[a] != nv[b] by {
                assert(nv[a] == k[o@[a] as int]);
                assert(nv[b] == k[o@[b] as int]);
                assert(oi[a] != oi[b]);
                assert(oi[a] == o@[a] as int && oi[b] == o@[b] as int);
            }
        }
        let sorted = sort_strings(names);
        proof {
            let sv = sorted@.map_values(|s: String| s@);
            let c = oi.to_set();
            sv.to_multiset_ensures();
            nv.to_multiset_ensures();
            assert forall|y: Seq<char>| #[trigger] sv.to_set().contains(y) <==> c.map(|q: int| k[q]).contains(y) by {
                assert(sv.contains(y) <==> nv.contains(y)) by {
                    assert(sv.to_multiset().count(y) == nv.to_multiset().count(y));
                }
                if nv.contains(y) {
                    let a = choose|a: int| 0 <= a < nv.len() && nv[a] == y;
                    assert(oi[a] == o@[a] as int);
                    assert(c.contains(oi[a]));
                }
                if c.map(|q: int| k[q]).contains(y) {
                    let q = choose|q: int| c.contains(q) && k[q] == y;
                    let a = choose|a: int| 0 <= a < oi.len() && oi[a] == q;
                    assert(nv[a] == k[o@[a] as int]);
                }
            }
            assert(sv.to_set() =~= c.map(|q: int| k[q]));
            assert(cs[i as int] == oi);
        }
        out.push(sorted);
        i = i + 1;
    }
    proof {
        assert forall|j: int| 0 <= j < cs.len() implies sorted_names(names_view(#[trigger] out@[j]), cs[j].to_set(), k)
            && reported(e, gn, max_size as int, cs[j]) by {
            assert(found_in(e, gn, max_size as int, Set::<int>::empty(), p_all, ints(found@[j]@)));
        }
        assert forall|a: int, b: int| 0 <= a < b < cs.len() implies #[trigger] cs[a].to_set() != #[trigger] cs[b].to_set() by {
            assert(ints(found@[a]@).to_set() != ints(found@[b]@).to_set());
        }
        if mutual_links(*graph) && no_self_link(*graph) {
            assert forall|c: Seq<int>|
                c.no_duplicates() && c.len() >= 2 && #[trigger] maximal(e, gn, c.to_set()) implies exists|j: int|
                    0 <= j < cs.len() && covers(#[trigger] cs[j], c, max_size as int) by {
                assert(target(e, gn, Set::<int>::empty(), p_all, c));
                let j = choose|j: int| 0 <= j < found@.len() && covers(ints(#[trigger] found@[j]@), c, max_size as int);
                assert(covers(cs[j], c, max_size as int));
            }
        }
        assert(cliques_found(*graph, max_size as int, out@, cs));
    }
    out
}

} // verus!
