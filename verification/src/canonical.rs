//! Canonical (minimum) gSpan DFS codes: the DFS codes of the graph a code
//! describes, gSpan's order on them, and the check that a code is the
//! least of them.

use vstd::prelude::*;

use crate::pattern::DfsEntry;

verus! {

/// Lexicographic order on four integers.
pub open spec fn less4(a: (int, int, int, int), b: (int, int, int, int)) -> bool {
    ||| a.0 < b.0
    ||| a.0 == b.0 && a.1 < b.1
    ||| a.0 == b.0 && a.1 == b.1 && a.2 < b.2
    ||| a.0 == b.0 && a.1 == b.1 && a.2 == b.2 && a.3 < b.3
}

/// gSpan's order on DFS-code entries: a backward entry (`from > to`)
/// comes before a forward one; backward entries by target vertex, then
/// edge label; forward entries from the deeper source first (the larger
/// `from`), then by target and labels; the remaining fields break ties.
pub open spec fn entry_less(a: DfsEntry, b: DfsEntry) -> bool {
    let fa = a.0 < a.1;
    let fb = b.0 < b.1;
    if fa != fb {
        !fa
    } else if !fa {
        ||| a.1 < b.1
        ||| a.1 == b.1 && less4((a.3 as int, a.0 as int, a.2 as int, a.4 as int), (b.3 as int, b.0 as int, b.2 as int, b.4 as int))
    } else {
        ||| a.0 > b.0
        ||| a.0 == b.0 && less4((a.1 as int, a.2 as int, a.3 as int, a.4 as int), (b.1 as int, b.2 as int, b.3 as int, b.4 as int))
    }
}

/// gSpan's lexicographic order on codes of equal length, from entry `t`
/// on: at the first entry where they differ, `d`'s entry comes first.
pub open spec fn code_less_from(d: Seq<DfsEntry>, c: Seq<DfsEntry>, t: int) -> bool
    decreases c.len() - t,
{
    if t < 0 || t >= c.len() || t >= d.len() {
        false
    } else if d[t] == c[t] {
        code_less_from(d, c, t + 1)
    } else {
        entry_less(d[t], c[t])
    }
}

/// `d` comes before `c` in gSpan's lexicographic order.
pub open spec fn code_less(d: Seq<DfsEntry>, c: Seq<DfsEntry>) -> bool {
    code_less_from(d, c, 0)
}

/// The last position of `x` in `s`, or -1.
pub open spec fn pos_of(s: Seq<usize>, x: usize) -> int
    decreases s.len(),
{
    if s.len() == 0 {
        -1
    } else if s.last() == x {
        s.len() - 1
    } else {
        pos_of(s.drop_last(), x)
    }
}

/// A partial DFS walk over the entries of a code: the code's vertices in
/// the order they were reached (position = new vertex id), the rightmost
/// path as new vertex ids from the root, which entries were used, and the
/// DFS code written so far.
pub type Walk = (Seq<usize>, Seq<usize>, Seq<bool>, Seq<DfsEntry>);

/// Entry `k` of `c` read from its `from` end (`o == 0`) or from its `to`
/// end: the two vertices and their labels, start end first.
pub open spec fn oriented(e: DfsEntry, o: int) -> (usize, usize, i32, i32) {
    if o == 0 {
        (e.0, e.1, e.2, e.4)
    } else {
        (e.1, e.0, e.4, e.2)
    }
}

/// The walk one step further along entry `k` of `c` read in orientation
/// `o`, when that is a rightmost extension: a backward entry from the
/// rightmost vertex to another vertex on the rightmost path, or a forward
/// entry from a vertex on the rightmost path to a vertex not reached yet.
pub open spec fn step_of(c: Seq<DfsEntry>, w: Walk, k: int, o: int) -> Option<Walk> {
    let (ord, rm, used, code) = w;
    if !(0 <= k < c.len()) || used.len() != c.len() || used[k] || rm.len() == 0 {
        None
    } else {
        let e = c[k];
        let (x, y, lx, ly) = oriented(e, o);
        let r = rm.last();
        let px = pos_of(ord, x);
        let py = pos_of(ord, y);
        if px == r && py >= 0 && py != r && pos_of(rm, py as usize) >= 0 {
            Some((ord, rm, used.update(k, true), code.push((r, py as usize, lx, e.3, ly))))
        } else if px >= 0 && pos_of(rm, px as usize) >= 0 && py < 0 {
            let nv = ord.len() as usize;
            Some(
                (
                    ord.push(y),
                    rm.take(pos_of(rm, px as usize) + 1).push(nv),
                    used.update(k, true),
                    code.push((px as usize, nv, lx, e.3, ly)),
                ),
            )
        } else {
            None
        }
    }
}

/// Some completed DFS code reachable from walk `w` satisfies `p`, looking
/// at the steps numbered `j` and after (step `j` takes entry `j / 2` in
/// orientation `j % 2`).  A walk is complete once its code is as long as
/// `c`.
pub open spec fn any_from(c: Seq<DfsEntry>, w: Walk, p: spec_fn(Seq<DfsEntry>) -> bool, j: int) -> bool
    decreases c.len() - w.3.len(), 2 * c.len() - j,
{
    if w.3.len() >= c.len() {
        p(w.3)
    } else if j < 0 || j >= 2 * c.len() {
        false
    } else {
        (match step_of(c, w, j / 2, j % 2) {
            Some(w2) => any_from(c, w2, p, 0),
            None => false,
        }) || any_from(c, w, p, j + 1)
    }
}

/// The walk that starts along entry `k` of `c` read in orientation `o`,
/// when that entry joins two different vertices.
pub open spec fn start_of(c: Seq<DfsEntry>, k: int, o: int) -> Option<Walk> {
    if !(0 <= k < c.len()) {
        None
    } else {
        let e = c[k];
        let (x, y, lx, ly) = oriented(e, o);
        if x == y {
            None
        } else {
            Some(
                (
                    seq![x, y],
                    seq![0usize, 1usize],
                    Seq::new(c.len(), |i: int| i == k),
                    seq![(0usize, 1usize, lx, e.3, ly)],
                ),
            )
        }
    }
}

/// Some DFS code of the graph `c` describes satisfies `p`, looking at the
/// starts numbered `j` and after.
pub open spec fn any_code_from(c: Seq<DfsEntry>, p: spec_fn(Seq<DfsEntry>) -> bool, j: int) -> bool
    decreases 2 * c.len() - j,
{
    if j < 0 || j >= 2 * c.len() {
        false
    } else {
        (match start_of(c, j / 2, j % 2) {
            Some(w) => any_from(c, w, p, 0),
            None => false,
        }) || any_code_from(c, p, j + 1)
    }
}

/// Some DFS code of the graph `c` describes satisfies `p`.  The DFS codes
/// of that graph are the codes a depth-first walk over its entries writes
/// by rightmost extension, starting from any entry in either direction and
/// using every entry once.
pub open spec fn any_dfs_code(c: Seq<DfsEntry>, p: spec_fn(Seq<DfsEntry>) -> bool) -> bool {
    any_code_from(c, p, 0)
}

/// The test for being the code `d`.
pub open spec fn equals(d: Seq<DfsEntry>) -> spec_fn(Seq<DfsEntry>) -> bool {
    |x: Seq<DfsEntry>| x == d
}

/// The test for coming before `c` in gSpan's order.
pub open spec fn before(c: Seq<DfsEntry>) -> spec_fn(Seq<DfsEntry>) -> bool {
    |x: Seq<DfsEntry>| code_less(x, c)
}

/// `d` is a DFS code of the graph `c` describes.
pub open spec fn dfs_code_of(c: Seq<DfsEntry>, d: Seq<DfsEntry>) -> bool {
    any_dfs_code(c, equals(d))
}

/// `c` is the minimum (canonical) DFS code of the graph it describes: it
/// is not empty, it is itself one of that graph's DFS codes, and none of
/// them comes before it in gSpan's order.
pub open spec fn canonical(c: Seq<DfsEntry>) -> bool {
    &&& c.len() > 0
    &&& dfs_code_of(c, c)
    &&& !any_dfs_code(c, before(c))
}


/// `pos_of` is -1 or a position holding `x`.
proof fn lemma_pos_of(s: Seq<usize>, x: usize)
    ensures
        -1 <= pos_of(s, x) < s.len(),
        pos_of(s, x) >= 0 ==> s[pos_of(s, x)] == x,
    decreases s.len(),
{
    if s.len() > 0 && s.last() != x {
        lemma_pos_of(s.drop_last(), x);
    }
}

/// The last position of `x` in `s`, if any.
fn find_pos(s: &Vec<usize>, x: usize) -> (r: Option<usize>)
    ensures
        match r {
            Some(q) => q == pos_of(s@, x) && q < s@.len(),
            None => pos_of(s@, x) == -1,
        },
{
    let mut k = s.len();
    proof {
        assert(s@.take(k as int) =~= s@);
    }
    while k > 0
        invariant
            k <= s@.len(),
            pos_of(s@, x) == pos_of(s@.take(k as int), x),
        decreases k,
    {
        proof {
            assert(s@.take(k as int).drop_last() =~= s@.take(k - 1));
            assert(s@.take(k as int).last() == s@[k - 1]);
        }
        if s[k - 1] == x {
            return Some(k - 1);
        }
        k = k - 1;
    }
    proof {
        assert(s@.take(0) =~= Seq::<usize>::empty());
    }
    None
}

/// Whether two entries are equal.
fn same_entry(a: DfsEntry, b: DfsEntry) -> (r: bool)
    ensures
        r == (a == b),
{
    a.0 == b.0 && a.1 == b.1 && a.2 == b.2 && a.3 == b.3 && a.4 == b.4
}

/// Whether entry `a` comes before entry `b` in gSpan's order.
fn entry_lt(a: DfsEntry, b: DfsEntry) -> (r: bool)
    ensures
        r == entry_less(a, b),
{
    let fa = a.0 < a.1;
    let fb = b.0 < b.1;
    if fa != fb {
        !fa
    } else if !fa {
        a.1 < b.1 || (a.1 == b.1 && (a.3 < b.3 || (a.3 == b.3 && (a.0 < b.0 || (a.0 == b.0 && (a.2 < b.2 || (
        a.2 == b.2 && a.4 < b.4)))))))
    } else {
        a.0 > b.0 || (a.0 == b.0 && (a.1 < b.1 || (a.1 == b.1 && (a.2 < b.2 || (a.2 == b.2 && (a.3 < b.3 || (
        a.3 == b.3 && a.4 < b.4)))))))
    }
}

/// Whether two codes are equal.
fn same_code(d: &Vec<DfsEntry>, c: &Vec<DfsEntry>) -> (r: bool)
    ensures
        r == (d@ == c@),
{
    if d.len() != c.len() {
        return false;
    }
    let mut t: usize = 0;
    while t < c.len()
        invariant
            d@.len() == c@.len(),
            t <= c@.len(),
            forall|i: int| 0 <= i < t ==> d@[i] == c@[i],
        decreases c@.len() - t,
    {
        if !same_entry(d[t], c[t]) {
            return false;
        }
        t = t + 1;
    }
    proof {
        assert(d@ =~= c@);
    }
    true
}

/// Whether `d` comes before `c` in gSpan's lexicographic order.
fn code_lt(d: &Vec<DfsEntry>, c: &Vec<DfsEntry>) -> (r: bool)
    ensures
        r == code_less(d@, c@),
{
    let mut t: usize = 0;
    while t < c.len() && t < d.len()
        invariant
            t <= c@.len(),
            code_less(d@, c@) == code_less_from(d@, c@, t as int),
        decreases c@.len() - t,
    {
        if !same_entry(d[t], c[t]) {
            return entry_lt(d[t], c[t]);
        }
        t = t + 1;
    }
    false
}


/// A walk held in vectors.
pub struct WalkState {
    pub ord: Vec<usize>,
    pub rm: Vec<usize>,
    pub used: Vec<bool>,
    pub code: Vec<DfsEntry>,
}

/// The walk a state holds.
pub open spec fn walk_view(w: WalkState) -> Walk {
    (w.ord@, w.rm@, w.used@, w.code@)
}

/// The first `n` entries of `s`, then `v`.
fn prefix_push(s: &Vec<usize>, n: usize, v: usize) -> (r: Vec<usize>)
    requires
        n <= s@.len(),
    ensures
        r@ == s@.take(n as int).push(v),
{
    let mut r: Vec<usize> = Vec::new();
    let mut i: usize = 0;
    while i < n
        invariant
            n <= s@.len(),
            i <= n,
            r@ == s@.take(i as int),
        decreases n - i,
    {
        r.push(s[i]);
        proof {
            assert(s@.take(i + 1) =~= s@.take(i as int).push(s@[i as int]));
        }
        i = i + 1;
    }
    r.push(v);
    r
}

/// A copy of a list of positions.
fn copy_usizes(s: &Vec<usize>) -> (r: Vec<usize>)
    ensures
        r@ == s@,
{
    let r = prefix_push(s, s.len(), 0);
    let mut r = r;
    r.pop();
    proof {
        assert(s@.take(s@.len() as int) =~= s@);
    }
    r
}

/// A copy of a list of flags.
fn copy_flags(s: &Vec<bool>) -> (r: Vec<bool>)
    ensures
        r@ == s@,
{
    let mut r: Vec<bool> = Vec::new();
    let mut i: usize = 0;
    while i < s.len()
        invariant
            i <= s@.len(),
            r@ == s@.take(i as int),
        decreases s@.len() - i,
    {
        r.push(s[i]);
        proof {
            assert(s@.take(i + 1) =~= s@.take(i as int).push(s@[i as int]));
        }
        i = i + 1;
    }
    proof {
        assert(s@.take(i as int) =~= s@);
    }
    r
}

/// A copy of a code.
fn copy_entries(s: &Vec<DfsEntry>) -> (r: Vec<DfsEntry>)
    ensures
        r@ == s@,
{
    let mut r: Vec<DfsEntry> = Vec::new();
    let mut i: usize = 0;
    while i < s.len()
        invariant
            i <= s@.len(),
            r@ == s@.take(i as int),
        decreases s@.len() - i,
    {
        r.push(s[i]);
        proof {
            assert(s@.take(i + 1) =~= s@.take(i as int).push(s@[i as int]));
        }
        i = i + 1;
    }
    proof {
        assert(s@.take(i as int) =~= s@);
    }
    r
}

/// The walk one step further along entry `k` in orientation `o`, when
/// that is a rightmost extension.
fn try_step(c: &Vec<DfsEntry>, w: &WalkState, k: usize, o: usize) -> (r: Option<WalkState>)
    requires
        o < 2,
        k < c@.len(),
    ensures
        match r {
            Some(w2) => step_of(c@, walk_view(*w), k as int, o as int) == Some(walk_view(w2)),
            None => step_of(c@, walk_view(*w), k as int, o as int) is None,
        },
{
    if w.used.len() != c.len() || w.used[k] || w.rm.len() == 0 {
        return None;
    }
    let e = c[k];
    let (x, y, lx, ly) = if o == 0 {
        (e.0, e.1, e.2, e.4)
    } else {
        (e.1, e.0, e.4, e.2)
    };
    let r = w.rm[w.rm.len() - 1];
    let px = find_pos(&w.ord, x);
    let py = find_pos(&w.ord, y);
    match (px, py) {
        (Some(a), Some(b)) => {
            if a == r && b != r {
                match find_pos(&w.rm, b) {
                    Some(_) => {
                        let mut used = copy_flags(&w.used);
                        used.set(k, true);
                        let mut code = copy_entries(&w.code);
                        code.push((r, b, lx, e.3, ly));
                        return Some(WalkState { ord: copy_usizes(&w.ord), rm: copy_usizes(&w.rm), used, code });
                    },
                    None => {
                        return None;
                    },
                }
            }
            None
        },
        (Some(a), None) => {
            match find_pos(&w.rm, a) {
                Some(q) => {
                    let nv = w.ord.len();
                    let mut ord = copy_usizes(&w.ord);
                    ord.push(y);
                    let rm = prefix_push(&w.rm, q + 1, nv);
                    let mut used = copy_flags(&w.used);
                    used.set(k, true);
                    let mut code = copy_entries(&w.code);
                    code.push((a, nv, lx, e.3, ly));
                    Some(WalkState { ord, rm, used, code })
                },
                None => None,
            }
        },
        _ => None,
    }
}


/// Whether some completed code reachable from `w` equals `c`, and whether
/// some comes before `c` in gSpan's order: every rightmost extension is
/// tried in turn.
fn explore(c: &Vec<DfsEntry>, w: &WalkState) -> (r: (bool, bool))
    requires
        w.code@.len() <= c@.len(),
    ensures
        r.0 == any_from(c@, walk_view(*w), equals(c@), 0),
        r.1 == any_from(c@, walk_view(*w), before(c@), 0),
    decreases c@.len() - w.code@.len(),
{
    let ghost pe = equals(c@);
    let ghost pl = before(c@);
    let ghost wv = walk_view(*w);
    if w.code.len() >= c.len() {
        return (same_code(&w.code, c), code_lt(&w.code, c));
    }
    let n = c.len();
    let mut eq = false;
    let mut lt = false;
    let mut j: usize = 0;
    while j < n
        invariant
            n == c@.len(),
            j <= n,
            wv == walk_view(*w),
            w.code@.len() < c@.len(),
            pe == (equals(c@)),
            pl == (before(c@)),
            any_from(c@, wv, pe, 0) == (eq || any_from(c@, wv, pe, 2 * j)),
            any_from(c@, wv, pl, 0) == (lt || any_from(c@, wv, pl, 2 * j)),
        decreases n - j,
    {
        let mut o: usize = 0;
        while o < 2
            invariant
                n == c@.len(),
                j < n,
                o <= 2,
                wv == walk_view(*w),
                w.code@.len() < c@.len(),
                pe == (equals(c@)),
                pl == (before(c@)),
                any_from(c@, wv, pe, 0) == (eq || any_from(c@, wv, pe, 2 * j + o)),
                any_from(c@, wv, pl, 0) == (lt || any_from(c@, wv, pl, 2 * j + o)),
            decreases 2 - o,
        {
            proof {
                assert((2 * j + o) / 2 == j);
                assert((2 * j + o) % 2 == o);
            }
            let step = try_step(c, w, j, o);
            match step {
                Some(w2) => {
                    proof {
                        assert(walk_view(w2).3.len() == wv.3.len() + 1);
                    }
                    let (e2, l2) = explore(c, &w2);
                    eq = eq || e2;
                    lt = lt || l2;
                },
                None => {},
            }
            o = o + 1;
        }
        j = j + 1;
    }
    (eq, lt)
}

/// Whether the graph `c` describes has a DFS code equal to `c`, and
/// whether it has one that comes before `c` in gSpan's order.
pub fn search_codes(c: &Vec<DfsEntry>) -> (r: (bool, bool))
    ensures
        r.0 == dfs_code_of(c@, c@),
        r.1 == any_dfs_code(c@, before(c@)),
{
    let ghost pe = equals(c@);
    let ghost pl = before(c@);
    let n = c.len();
    let mut eq = false;
    let mut lt = false;
    let mut k: usize = 0;
    while k < n
        invariant
            n == c@.len(),
            k <= n,
            pe == (equals(c@)),
            pl == (before(c@)),
            any_code_from(c@, pe, 0) == (eq || any_code_from(c@, pe, 2 * k)),
            any_code_from(c@, pl, 0) == (lt || any_code_from(c@, pl, 2 * k)),
        decreases n - k,
    {
        let mut o: usize = 0;
        while o < 2
            invariant
                n == c@.len(),
                k < n,
                o <= 2,
                pe == (equals(c@)),
                pl == (before(c@)),
                any_code_from(c@, pe, 0) == (eq || any_code_from(c@, pe, 2 * k + o)),
                any_code_from(c@, pl, 0) == (lt || any_code_from(c@, pl, 2 * k + o)),
            decreases 2 - o,
        {
            proof {
                assert((2 * k + o) / 2 == k);
                assert((2 * k + o) % 2 == o);
            }
            let e = c[k];
            let (x, y, lx, ly) = if o == 0 {
                (e.0, e.1, e.2, e.4)
            } else {
                (e.1, e.0, e.4, e.2)
            };
            if x != y {
                let mut used: Vec<bool> = Vec::new();
                let mut i: usize = 0;
                while i < n
                    invariant
                        n == c@.len(),
                        i <= n,
                        used@ == Seq::new(i as nat, |t: int| t == k),
                    decreases n - i,
                {
                    used.push(i == k);
                    proof {
                        assert(used@ =~= Seq::new((i + 1) as nat, |t: int| t == k));
                    }
                    i = i + 1;
                }
                let mut ord: Vec<usize> = Vec::new();
                ord.push(x);
                ord.push(y);
                let mut rm: Vec<usize> = Vec::new();
                rm.push(0);
                rm.push(1);
                let mut code: Vec<DfsEntry> = Vec::new();
                code.push((0, 1, lx, e.3, ly));
                let w = WalkState { ord, rm, used, code };
                proof {
                    assert(walk_view(w) =~= start_of(c@, k as int, o as int).unwrap());
                    assert(start_of(c@, k as int, o as int) == Some(walk_view(w)));
                }
                let (e2, l2) = explore(c, &w);
                eq = eq || e2;
                lt = lt || l2;
            }
            o = o + 1;
        }
        k = k + 1;
    }
    (eq, lt)
}


/// A completed code reachable from `w` satisfies `p` exactly when some
/// code reachable from `w` does and satisfies `p`.
proof fn lemma_any_from(c: Seq<DfsEntry>, w: Walk, p: spec_fn(Seq<DfsEntry>) -> bool, j: int)
    ensures
        any_from(c, w, p, j) <==> exists|d: Seq<DfsEntry>| #[trigger] any_from(c, w, equals(d), j) && p(d),
    decreases c.len() - w.3.len(), 2 * c.len() - j,
{
    if w.3.len() >= c.len() {
        if p(w.3) {
            assert(any_from(c, w, equals(w.3), j));
        }
    } else if j < 0 || j >= 2 * c.len() {
    } else {
        lemma_any_from(c, w, p, j + 1);
        match step_of(c, w, j / 2, j % 2) {
            Some(w2) => {
                lemma_any_from(c, w2, p, 0);
                if any_from(c, w, p, j) {
                    if any_from(c, w2, p, 0) {
                        let d = choose|d: Seq<DfsEntry>| #[trigger] any_from(c, w2, equals(d), 0) && p(d);
                        assert(any_from(c, w, equals(d), j));
                    } else {
                        let d = choose|d: Seq<DfsEntry>| #[trigger] any_from(c, w, equals(d), j + 1) && p(d);
                        assert(any_from(c, w, equals(d), j));
                    }
                }
                if exists|d: Seq<DfsEntry>| #[trigger] any_from(c, w, equals(d), j) && p(d) {
                    let d = choose|d: Seq<DfsEntry>| #[trigger] any_from(c, w, equals(d), j) && p(d);
                    if any_from(c, w2, equals(d), 0) {
                        assert(any_from(c, w2, p, 0));
                    } else {
                        assert(any_from(c, w, equals(d), j + 1));
                        assert(any_from(c, w, p, j + 1));
                    }
                }
            },
            None => {
                if exists|d: Seq<DfsEntry>| #[trigger] any_from(c, w, equals(d), j) && p(d) {
                    let d = choose|d: Seq<DfsEntry>| #[trigger] any_from(c, w, equals(d), j) && p(d);
                    assert(any_from(c, w, equals(d), j + 1));
                }
                if any_from(c, w, p, j) {
                    let d = choose|d: Seq<DfsEntry>| #[trigger] any_from(c, w, equals(d), j + 1) && p(d);
                    assert(any_from(c, w, equals(d), j));
                }
            },
        }
    }
}

/// Some DFS code of `c`'s graph satisfies `p`, from start `j` on, exactly
/// when some code found from those starts does and satisfies `p`.
proof fn lemma_any_code_from(c: Seq<DfsEntry>, p: spec_fn(Seq<DfsEntry>) -> bool, j: int)
    ensures
        any_code_from(c, p, j) <==> exists|d: Seq<DfsEntry>| #[trigger] any_code_from(c, equals(d), j) && p(d),
    decreases 2 * c.len() - j,
{
    if j < 0 || j >= 2 * c.len() {
    } else {
        lemma_any_code_from(c, p, j + 1);
        match start_of(c, j / 2, j % 2) {
            Some(w) => {
                lemma_any_from(c, w, p, 0);
                if any_code_from(c, p, j) {
                    if any_from(c, w, p, 0) {
                        let d = choose|d: Seq<DfsEntry>| #[trigger] any_from(c, w, equals(d), 0) && p(d);
                        assert(any_code_from(c, equals(d), j));
                    } else {
                        let d = choose|d: Seq<DfsEntry>| #[trigger] any_code_from(c, equals(d), j + 1) && p(d);
                        assert(any_code_from(c, equals(d), j));
                    }
                }
                if exists|d: Seq<DfsEntry>| #[trigger] any_code_from(c, equals(d), j) && p(d) {
                    let d = choose|d: Seq<DfsEntry>| #[trigger] any_code_from(c, equals(d), j) && p(d);
                    if any_from(c, w, equals(d), 0) {
                        assert(any_from(c, w, p, 0));
                    } else {
                        assert(any_code_from(c, equals(d), j + 1));
                        assert(any_code_from(c, p, j + 1));
                    }
                }
            },
            None => {
                if exists|d: Seq<DfsEntry>| #[trigger] any_code_from(c, equals(d), j) && p(d) {
                    let d = choose|d: Seq<DfsEntry>| #[trigger] any_code_from(c, equals(d), j) && p(d);
                    assert(any_code_from(c, equals(d), j + 1));
                }
                if any_code_from(c, p, j) {
                    let d = choose|d: Seq<DfsEntry>| #[trigger] any_code_from(c, equals(d), j + 1) && p(d);
                    assert(any_code_from(c, equals(d), j));
                }
            },
        }
    }
}

/// A code is canonical exactly when it is not empty, it is a DFS code of
/// the graph it describes, and no DFS code of that graph comes before it
/// in gSpan's order.
pub proof fn law_canonical_is_least(c: Seq<DfsEntry>)
    ensures
        canonical(c) <==> (c.len() > 0 && dfs_code_of(c, c) && forall|d: Seq<DfsEntry>|
            #[trigger] dfs_code_of(c, d) ==> !code_less(d, c)),
{
    lemma_any_code_from(c, before(c), 0);
    assert forall|d: Seq<DfsEntry>| #[trigger] dfs_code_of(c, d) == any_code_from(c, equals(d), 0) by {}
    if exists|d: Seq<DfsEntry>| #[trigger] any_code_from(c, equals(d), 0) && before(c)(d) {
        let d = choose|d: Seq<DfsEntry>| #[trigger] any_code_from(c, equals(d), 0) && before(c)(d);
        assert(dfs_code_of(c, d) && code_less(d, c));
    }
    if exists|d: Seq<DfsEntry>| #[trigger] dfs_code_of(c, d) && code_less(d, c) {
        let d = choose|d: Seq<DfsEntry>| #[trigger] dfs_code_of(c, d) && code_less(d, c);
        assert(any_code_from(c, equals(d), 0) && before(c)(d));
    }
}

} // verus!
