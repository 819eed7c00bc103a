//! Sorting used by the mining code: a stable sort by a numeric key in
//! descending order, and a sort of distinct strings in ascending order.

use vstd::prelude::*;

use crate::text::{chars_lt, str_lt};

verus! {

/// The first position in `s` whose key is below `v`, or `s.len()`.
pub open spec fn first_below<T>(s: Seq<T>, v: int, key: spec_fn(T) -> int) -> int
    decreases s.len(),
{
    if s.len() == 0 {
        0
    } else if key(s[0]) < v {
        0
    } else {
        1 + first_below(s.drop_first(), v, key)
    }
}

/// `x` inserted into `s` after every element whose key is at least its own.
pub open spec fn insert_desc<T>(s: Seq<T>, x: T, key: spec_fn(T) -> int) -> Seq<T> {
    s.insert(first_below(s, key(x), key), x)
}

/// The stable sort of `s` by descending key: elements with larger keys
/// first, elements with equal keys in the order they came in.
pub open spec fn sort_desc<T>(s: Seq<T>, key: spec_fn(T) -> int) -> Seq<T>
    decreases s.len(),
{
    if s.len() == 0 {
        s
    } else {
        insert_desc(sort_desc(s.drop_last(), key), s.last(), key)
    }
}

/// Keys never increase along `s`.
pub open spec fn keys_desc<T>(s: Seq<T>, key: spec_fn(T) -> int) -> bool {
    forall|i: int, j: int| 0 <= i < j < s.len() ==> key(#[trigger] s[i]) >= key(#[trigger] s[j])
}

/// `first_below` is the first position whose key falls below `v`.
pub proof fn lemma_first_below<T>(s: Seq<T>, v: int, key: spec_fn(T) -> int, j: int)
    requires
        0 <= j <= s.len(),
        forall|t: int| 0 <= t < j ==> key(#[trigger] s[t]) >= v,
        j == s.len() || key(s[j]) < v,
    ensures
        first_below(s, v, key) == j,
    decreases j,
{
    if j > 0 {
        let t = s.drop_first();
        assert forall|u: int| 0 <= u < j - 1 implies key(#[trigger] t[u]) >= v by {
            assert(t[u] == s[u + 1]);
        }
        if j < s.len() {
            assert(t[j - 1] == s[j]);
        }
        lemma_first_below(t, v, key, j - 1);
    }
}

/// The stable descending sort orders the keys and keeps the elements.
pub proof fn lemma_sort_desc<T>(s: Seq<T>, key: spec_fn(T) -> int)
    ensures
        keys_desc(sort_desc(s, key), key),
        sort_desc(s, key).to_multiset() == s.to_multiset(),
        sort_desc(s, key).len() == s.len(),
    decreases s.len(),
{
    broadcast use vstd::seq_lib::group_to_multiset_ensures;

    if s.len() > 0 {
        let r = sort_desc(s.drop_last(), key);
        lemma_sort_desc(s.drop_last(), key);
        let x = s.last();
        let p = first_below(r, key(x), key);
        lemma_first_below_props(r, key(x), key);
        let out = r.insert(p, x);
        r.insert_ensures(p, x);
        assert(keys_desc(out, key)) by {
            assert forall|i: int, j: int| 0 <= i < j < out.len() implies key(#[trigger] out[i])
                >= key(#[trigger] out[j]) by {
                if i < p && j < p {
                    assert(out[i] == r[i] && out[j] == r[j]);
                } else if i < p && j == p {
                } else if i < p {
                    assert(out[i] == r[i] && out[j] == r[j - 1]);
                } else if i == p {
                    assert(out[j] == r[j - 1]);
                } else {
                    assert(out[i] == r[i - 1] && out[j] == r[j - 1]);
                }
            }
        }
        assert(s =~= s.drop_last().push(x));
        assert(out.to_multiset() =~= r.to_multiset().insert(x)) by {
            lemma_insert_to_multiset(r, p, x);
        }
    }
}

/// Keys before `first_below` reach `v`; in a descending sequence those after it do not.
pub proof fn lemma_first_below_props<T>(s: Seq<T>, v: int, key: spec_fn(T) -> int)
    ensures
        0 <= first_below(s, v, key) <= s.len(),
        forall|t: int| 0 <= t < first_below(s, v, key) ==> key(#[trigger] s[t]) >= v,
        keys_desc(s, key) ==> forall|t: int|
            first_below(s, v, key) <= t < s.len() ==> key(#[trigger] s[t]) < v,
    decreases s.len(),
{
    if s.len() > 0 && key(s[0]) >= v {
        let t = s.drop_first();
        lemma_first_below_props(t, v, key);
        assert forall|u: int| 0 <= u < first_below(s, v, key) implies key(#[trigger] s[u]) >= v by {
            if u > 0 {
                assert(s[u] == t[u - 1]);
            }
        }
        if keys_desc(s, key) {
            assert(keys_desc(t, key)) by {
                assert forall|i: int, j: int| 0 <= i < j < t.len() implies key(#[trigger] t[i])
                    >= key(#[trigger] t[j]) by {
                    assert(t[i] == s[i + 1] && t[j] == s[j + 1]);
                }
            }
            assert forall|u: int| first_below(s, v, key) <= u < s.len() implies key(#[trigger] s[u])
                < v by {
                assert(s[u] == t[u - 1]);
            }
        }
    } else if s.len() > 0 {
        if keys_desc(s, key) {
            assert forall|u: int| 0 <= u < s.len() implies key(#[trigger] s[u]) < v by {
                if u > 0 {
                    assert(key(s[0]) >= key(s[u]));
                }
            }
        }
    }
}

/// Inserting an element adds it to the multiset.
pub proof fn lemma_insert_to_multiset<T>(s: Seq<T>, p: int, x: T)
    requires
        0 <= p <= s.len(),
    ensures
        s.insert(p, x).to_multiset() =~= s.to_multiset().insert(x),
{
    broadcast use vstd::seq_lib::group_to_multiset_ensures;

    let t = s.insert(p, x);
    s.insert_ensures(p, x);
    assert(t.remove(p) =~= s);
    assert(t[p] == x);
    assert(t.contains(x));
    assert(t.to_multiset().count(x) > 0);
    assert forall|y: T| #[trigger] t.to_multiset().count(y) == s.to_multiset().insert(x).count(y) by {
        if y == x {
        } else {
        }
    }
}

/// `first_below` commutes with a map that preserves keys.
pub proof fn lemma_first_below_map<A, B>(
    s: Seq<A>,
    v: int,
    ka: spec_fn(A) -> int,
    f: spec_fn(A) -> B,
    kb: spec_fn(B) -> int,
)
    requires
        forall|a: A| #[trigger] ka(a) == kb(f(a)),
    ensures
        first_below(s, v, ka) == first_below(s.map_values(f), v, kb),
    decreases s.len(),
{
    if s.len() > 0 {
        assert(s.map_values(f).drop_first() =~= s.drop_first().map_values(f));
        assert(s.map_values(f)[0] == f(s[0]));
        assert(ka(s[0]) == kb(f(s[0])));
        lemma_first_below_map(s.drop_first(), v, ka, f, kb);
    }
}

/// Sorting commutes with a map that preserves keys.
pub proof fn lemma_sort_desc_map<A, B>(
    s: Seq<A>,
    ka: spec_fn(A) -> int,
    f: spec_fn(A) -> B,
    kb: spec_fn(B) -> int,
)
    requires
        forall|a: A| #[trigger] ka(a) == kb(f(a)),
    ensures
        sort_desc(s, ka).map_values(f) == sort_desc(s.map_values(f), kb),
    decreases s.len(),
{
    if s.len() == 0 {
        assert(s.map_values(f) =~= Seq::<B>::empty());
        assert(sort_desc(s, ka).map_values(f) =~= Seq::<B>::empty());
    } else {
        let t = s.drop_last();
        lemma_sort_desc_map(t, ka, f, kb);
        assert(s.map_values(f).drop_last() =~= t.map_values(f));
        assert(s.map_values(f).last() == f(s.last()));
        let r = sort_desc(t, ka);
        lemma_sort_desc(t, ka);
        let p = first_below(r, ka(s.last()), ka);
        lemma_first_below_map(r, ka(s.last()), ka, f, kb);
        lemma_first_below_props(r, ka(s.last()), ka);
        assert(ka(s.last()) == kb(f(s.last())));
        assert(r.insert(p, s.last()).map_values(f) =~= r.map_values(f).insert(p, f(s.last())));
    }
}

/// Stable sort of `v` by descending `key`.
pub fn sort_by_key_desc<T, F: Fn(&T) -> usize>(v: Vec<T>, key: F, Ghost(k): Ghost<spec_fn(T) -> int>) -> (r: Vec<T>)
    requires
        forall|x: &T| #[trigger] key.requires((x,)),
        forall|x: &T, n: usize| key.ensures((x,), n) ==> n == k(*x),
    ensures
        r@ == sort_desc(v@, k),
{
    let ghost orig = v@;
    let mut src = v;
    let mut r: Vec<T> = Vec::new();
    let mut done: usize = 0;
    let n0 = src.len();
    proof {
        assert(orig.take(0) =~= Seq::<T>::empty());
        assert(orig.skip(0) =~= orig);
    }
    while src.len() > 0
        invariant
            forall|x: &T| #[trigger] key.requires((x,)),
            forall|x: &T, n: usize| key.ensures((x,), n) ==> n == k(*x),
            done <= orig.len(),
            done + src@.len() == orig.len(),
            n0 == orig.len(),
            src@ == orig.skip(done as int),
            r@ == sort_desc(orig.take(done as int), k),
        decreases src@.len(),
    {
        let x = src.remove(0);
        let kx = key(&x);
        let mut j: usize = 0;
        while j < r.len() && key(&r[j]) >= kx
            invariant
                forall|x: &T| #[trigger] key.requires((x,)),
                forall|x: &T, n: usize| key.ensures((x,), n) ==> n == k(*x),
                j <= r@.len(),
                forall|t: int| 0 <= t < j ==> k(#[trigger] r@[t]) >= kx,
            decreases r@.len() - j,
        {
            j = j + 1;
        }
        proof {
            lemma_first_below(r@, kx as int, k, j as int);
            assert(orig.take(done + 1).drop_last() =~= orig.take(done as int));
            assert(orig.take(done + 1).last() == x);
        }
        r.insert(j, x);
        done = done + 1;
        proof {
            assert(src@ =~= orig.skip(done as int));
        }
    }
    proof {
        assert(orig.take(done as int) =~= orig);
    }
    r
}

/// `s` is strictly increasing in lexicographic order.
pub open spec fn strictly_sorted(s: Seq<Seq<char>>) -> bool {
    forall|i: int, j: int| 0 <= i < j < s.len() ==> chars_lt(#[trigger] s[i], #[trigger] s[j])
}

/// No string comes before itself.
pub proof fn lemma_chars_lt_irreflexive(a: Seq<char>)
    ensures
        !chars_lt(a, a),
    decreases a.len(),
{
    if a.len() > 0 {
        lemma_chars_lt_irreflexive(a.drop_first());
    }
}

/// Of two different strings, one comes before the other.
pub proof fn lemma_chars_lt_total(a: Seq<char>, b: Seq<char>)
    ensures
        a != b ==> chars_lt(a, b) || chars_lt(b, a),
        !(chars_lt(a, b) && chars_lt(b, a)),
    decreases a.len(),
{
    if a.len() > 0 && b.len() > 0 {
        lemma_chars_lt_total(a.drop_first(), b.drop_first());
        if a[0] == b[0] && a != b {
            assert(a.drop_first() != b.drop_first()) by {
                if a.drop_first() == b.drop_first() {
                    assert(a =~= seq![a[0]] + a.drop_first());
                    assert(b =~= seq![b[0]] + b.drop_first());
                }
            }
        }
        if a[0] != b[0] {
            assert((a[0] as int) != (b[0] as int));
        }
    } else if a.len() == 0 && b.len() == 0 {
        assert(a =~= b);
    }
}

/// The order of strings is transitive.
pub proof fn lemma_chars_lt_transitive(a: Seq<char>, b: Seq<char>, c: Seq<char>)
    requires
        chars_lt(a, b),
        chars_lt(b, c),
    ensures
        chars_lt(a, c),
    decreases a.len(),
{
    if a.len() > 0 && b.len() > 0 && c.len() > 0 {
        if a[0] == b[0] && b[0] == c[0] {
            lemma_chars_lt_transitive(a.drop_first(), b.drop_first(), c.drop_first());
        }
    }
}

/// Sort distinct strings in ascending order.
pub fn sort_strings(v: Vec<String>) -> (r: Vec<String>)
    requires
        v@.map_values(|s: String| s@).no_duplicates(),
    ensures
        r@.map_values(|s: String| s@).to_multiset() == v@.map_values(|s: String| s@).to_multiset(),
        strictly_sorted(r@.map_values(|s: String| s@)),
{
    broadcast use vstd::seq_lib::group_to_multiset_ensures;

    let ghost orig = v@.map_values(|s: String| s@);
    let mut src = v;
    let mut r: Vec<String> = Vec::new();
    let mut done: usize = 0;
    let n0 = src.len();
    proof {
        assert(orig.skip(0) =~= orig);
        assert(r@.map_values(|s: String| s@) =~= Seq::<Seq<char>>::empty());
        assert(orig.take(0) =~= Seq::<Seq<char>>::empty());
    }
    while src.len() > 0
        invariant
            done <= orig.len(),
            done + src@.len() == orig.len(),
            n0 == orig.len(),
            orig.no_duplicates(),
            src@.map_values(|s: String| s@) == orig.skip(done as int),
            r@.map_values(|s: String| s@).to_multiset() == orig.take(done as int).to_multiset(),
            strictly_sorted(r@.map_values(|s: String| s@)),
        decreases src@.len(),
    {
        let ghost rv = r@.map_values(|s: String| s@);
        let ghost src_before = src@;
        let x = src.remove(0);
        proof {
            assert(src_before.map_values(|s: String| s@)[0] == x@);
            assert(orig.skip(done as int)[0] == orig[done as int]);
        }
        let mut j: usize = 0;
        while j < r.len() && str_lt(r[j].as_str(), x.as_str())
            invariant
                j <= r@.len(),
                rv == r@.map_values(|s: String| s@),
                forall|t: int| 0 <= t < j ==> chars_lt(#[trigger] rv[t], x@),
            decreases r@.len() - j,
        {
            j = j + 1;
        }
        proof {
            // x is new: it is not among the strings already placed
            assert(orig[done as int] == x@);
            assert(!rv.contains(x@)) by {
                if rv.contains(x@) {
                    rv.to_multiset_ensures();
                    orig.take(done as int).to_multiset_ensures();
                    assert(rv.to_multiset().count(x@) > 0);
                    assert(orig.take(done as int).to_multiset().count(x@) > 0);
                    assert(orig.take(done as int).contains(x@));
                    let t = choose|t: int| 0 <= t < done && orig.take(done as int)[t] == x@;
                    assert(orig[t] == orig[done as int]);
                }
            }
        }
        let ghost rv2 = rv.insert(j as int, x@);
        r.insert(j, x);
        proof {
            assert(r@.map_values(|s: String| s@) =~= rv2);
            rv.insert_ensures(j as int, x@);
            lemma_insert_to_multiset(rv, j as int, x@);
            assert(orig.take(done + 1) =~= orig.take(done as int).push(x@));
            orig.take(done as int).to_multiset_ensures();
            assert(rv2.to_multiset() == orig.take(done + 1).to_multiset());
            assert forall|a: int, b: int| 0 <= a < b < rv2.len() implies chars_lt(
                #[trigger] rv2[a],
                #[trigger] rv2[b],
            ) by {
                if j < rv.len() && !chars_lt(rv[j as int], x@) {
                    lemma_chars_lt_total(rv[j as int], x@);
                    assert(rv[j as int] != x@) by {
                        assert(rv.contains(rv[j as int]));
                    }
                }
                if b < j {
                } else if a < j && b == j {
                } else if a < j {
                    assert(chars_lt(rv[a], rv[b - 1]));
                } else if a == j {
                    if b - 1 > j {
                        lemma_chars_lt_transitive(x@, rv[j as int], rv[b - 1]);
                    }
                } else {
                }
            }
        }
        proof {
            let rest = src_before.map_values(|s: String| s@);
            assert(src@ =~= src_before.drop_first());
            assert(src@.map_values(|s: String| s@) =~= rest.drop_first());
            assert(rest.drop_first() =~= orig.skip(done + 1));
        }
        done = done + 1;
    }
    proof {
        assert(orig.take(done as int) =~= orig);
    }
    r
}

} // verus!
