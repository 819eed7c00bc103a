//! The bookkeeping of a backtest: the time range the data covers, the
//! rebalance schedule over it, and the pairing of buys and sells into
//! round trips.

use vstd::prelude::*;

use crate::text::str_eq;

verus! {

/// Backtest errors.
#[derive(Debug, Clone, Copy, PartialEq, Eq, Structural)]
pub enum BacktestError {
    /// No data provided.
    NoData,
    /// Invalid time range.
    InvalidTimeRange,
    /// Insufficient data for analysis.
    InsufficientData,
}

/// The earliest first timestamp of the non-empty series, starting from
/// `i64::MAX`.
pub open spec fn earliest(spans: Seq<Option<(i64, i64)>>) -> i64
    decreases spans.len(),
{
    if spans.len() == 0 {
        i64::MAX
    } else {
        let rest = earliest(spans.drop_last());
        match spans.last() {
            Some((first, _)) => if first < rest {
                first
            } else {
                rest
            },
            None => rest,
        }
    }
}

/// The latest last timestamp of the non-empty series, starting from
/// `i64::MIN`.
pub open spec fn latest(spans: Seq<Option<(i64, i64)>>) -> i64
    decreases spans.len(),
{
    if spans.len() == 0 {
        i64::MIN
    } else {
        let rest = latest(spans.drop_last());
        match spans.last() {
            Some((_, last)) => if last > rest {
                last
            } else {
                rest
            },
            None => rest,
        }
    }
}

/// The earliest first timestamp is at most the first timestamp of every
/// non-empty series and is one of them unless it stays at `i64::MAX`; the
/// latest last timestamp is at least the last timestamp of every non-empty
/// series and is one of them unless it stays at `i64::MIN`.
pub proof fn law_earliest_latest_bound(spans: Seq<Option<(i64, i64)>>)
    ensures
        forall|i: int| 0 <= i < spans.len() && #[trigger] spans[i] is Some ==> earliest(spans) <= (spans[i]->0).0
            && latest(spans) >= (spans[i]->0).1,
        earliest(spans) != i64::MAX ==> exists|i: int|
            0 <= i < spans.len() && #[trigger] spans[i] is Some && (spans[i]->0).0 == earliest(spans),
        latest(spans) != i64::MIN ==> exists|i: int|
            0 <= i < spans.len() && #[trigger] spans[i] is Some && (spans[i]->0).1 == latest(spans),
    decreases spans.len(),
{
    if spans.len() > 0 {
        let rest = spans.drop_last();
        law_earliest_latest_bound(rest);
        let n = spans.len() - 1;
        assert(spans.last() == spans[n]);
        assert forall|i: int| 0 <= i < spans.len() && #[trigger] spans[i] is Some implies earliest(spans)
            <= (spans[i]->0).0 && latest(spans) >= (spans[i]->0).1 by {
            if i < n {
                assert(rest[i] == spans[i]);
            }
        }
        if earliest(spans) != i64::MAX && earliest(spans) != earliest(rest) {
            assert(spans[n] is Some && (spans[n]->0).0 == earliest(spans));
        }
        if earliest(spans) != i64::MAX && earliest(spans) == earliest(rest) {
            let i = choose|i: int| 0 <= i < rest.len() && #[trigger] rest[i] is Some && (rest[i]->0).0 == earliest(rest);
            assert(spans[i] == rest[i]);
        }
        if latest(spans) != i64::MIN && latest(spans) != latest(rest) {
            assert(spans[n] is Some && (spans[n]->0).1 == latest(spans));
        }
        if latest(spans) != i64::MIN && latest(spans) == latest(rest) {
            let i = choose|i: int| 0 <= i < rest.len() && #[trigger] rest[i] is Some && (rest[i]->0).1 == latest(rest);
            assert(spans[i] == rest[i]);
        }
    }
}

/// Find the common time range of the data: from the earliest first
/// timestamp (but not before `start_time`) to the latest last timestamp
/// (but not after `end_time`).  `spans` holds, for each symbol's series,
/// its first and last timestamps, or `None` when it is empty.  No data
/// when the earliest first timestamp stays at `i64::MAX`, as it does when
/// every series is empty.
pub fn time_range(spans: &Vec<Option<(i64, i64)>>, start_time: i64, end_time: i64) -> (r: Result<(i64, i64), BacktestError>)
    ensures
        r is Err <==> earliest(spans@) == i64::MAX,
        r matches Err(e) ==> e == BacktestError::NoData,
        r matches Ok((s, e)) ==> {
            &&& s == if earliest(spans@) > start_time { earliest(spans@) } else { start_time }
            &&& e == if latest(spans@) < end_time { latest(spans@) } else { end_time }
            &&& start_time <= s
            &&& e <= end_time
        },
        (exists|i: int| 0 <= i < spans@.len() && #[trigger] spans@[i] is Some && (spans@[i]->0).0 < i64::MAX)
            ==> r is Ok,
        r matches Ok((s, e)) ==> forall|i: int|
            0 <= i < spans@.len() && #[trigger] spans@[i] is Some ==> (s <= (spans@[i]->0).0 || s == start_time) && (e
                >= (spans@[i]->0).1 || e == end_time),
        r matches Ok((s, e)) ==> (s == start_time || exists|i: int|
            0 <= i < spans@.len() && #[trigger] spans@[i] is Some && (spans@[i]->0).0 == s),
{
    proof {
        law_earliest_latest_bound(spans@);
    }
    let mut min_start = i64::MAX;
    let mut max_end = i64::MIN;
    let mut i: usize = 0;
    while i < spans.len()
        invariant
            i <= spans@.len(),
            min_start == earliest(spans@.take(i as int)),
            max_end == latest(spans@.take(i as int)),
        decreases spans@.len() - i,
    {
        proof {
            assert(spans@.take(i + 1).drop_last() =~= spans@.take(i as int));
            assert(spans@.take(i + 1).last() == spans@[i as int]);
        }
        match spans[i] {
            Some((first, last)) => {
                if first < min_start {
                    min_start = first;
                }
                if last > max_end {
                    max_end = last;
                }
            },
            None => {},
        }
        i = i + 1;
    }
    proof {
        assert(spans@.take(i as int) =~= spans@);
    }
    if min_start == i64::MAX {
        return Err(BacktestError::NoData);
    }
    let start = if min_start > start_time {
        min_start
    } else {
        start_time
    };
    let end = if max_end < end_time {
        max_end
    } else {
        end_time
    };
    Ok((start, end))
}

/// The rebalance times: `start`, then every `interval` seconds after it,
/// up to `end`.
pub open spec fn schedule(start: int, end: int, interval: int) -> Seq<int>
    decreases (if start > end { 0 } else { end - start + 1 }),
{
    if start > end || interval <= 0 {
        Seq::empty()
    } else {
        seq![start] + schedule(start + interval, end, interval)
    }
}

proof fn lemma_schedule(start: int, end: int, interval: int)
    requires
        interval > 0,
    ensures
        forall|k: int|
            0 <= k < schedule(start, end, interval).len() ==> #[trigger] schedule(start, end, interval)[k] == start
                + k * interval && start + k * interval <= end,
        schedule(start, end, interval).len() == 0 || schedule(start, end, interval).last() + interval > end,
        start <= end ==> schedule(start, end, interval).len() > 0,
    decreases (if start > end { 0 } else { end - start + 1 }),
{
    if start <= end {
        lemma_schedule(start + interval, end, interval);
        let rest = schedule(start + interval, end, interval);
        let sc = schedule(start, end, interval);
        assert(sc == seq![start] + rest);
        assert forall|k: int| 0 <= k < sc.len() implies #[trigger] sc[k] == start + k * interval && start + k * interval <= end by {
            if k > 0 {
                assert(sc[k] == rest[k - 1]);
                assert(start + interval + (k - 1) * interval == start + k * interval) by (nonlinear_arith);
            }
        }
        if rest.len() > 0 {
            assert(sc.last() == rest.last());
        }
    }
}

/// The times the backtest rebalances at: from `start`, stepping by
/// `interval`, while not past `end`.  The step must be positive (the loop
/// would not end otherwise) and the step past `end` must not overflow.
pub fn rebalance_times(start: i64, end: i64, interval: i64) -> (ts: Vec<i64>)
    requires
        interval > 0,
        end + interval <= i64::MAX,
    ensures
        ts@.map_values(|t: i64| t as int) == schedule(start as int, end as int, interval as int),
        forall|k: int| 0 <= k < ts@.len() ==> #[trigger] ts@[k] == start + k * interval && ts@[k] <= end,
        start <= end ==> ts@.len() > 0,
        ts@.len() > 0 ==> ts@.last() + interval > end,
{
    let mut ts: Vec<i64> = Vec::new();
    proof {
        lemma_schedule(start as int, end as int, interval as int);
    }
    if start > end {
        proof {
            assert(ts@.map_values(|x: i64| x as int) =~= schedule(start as int, end as int, interval as int));
        }
        return ts;
    }
    let mut t = start;
    proof {
        assert(ts@.map_values(|x: i64| x as int) + schedule(t as int, end as int, interval as int) =~= schedule(
            start as int,
            end as int,
            interval as int,
        ));
    }
    while t <= end
        invariant
            interval > 0,
            end + interval <= i64::MAX,
            t <= end + interval,
            ts@.map_values(|x: i64| x as int) + schedule(t as int, end as int, interval as int) == schedule(
                start as int,
                end as int,
                interval as int,
            ),
        decreases end + interval - t,
    {
        let ghost before = ts@;
        ts.push(t);
        proof {
            assert(schedule(t as int, end as int, interval as int) == seq![t as int] + schedule(
                t + interval,
                end as int,
                interval as int,
            ));
            assert(ts@.map_values(|x: i64| x as int) =~= before.map_values(|x: i64| x as int).push(t as int));
            assert(ts@.map_values(|x: i64| x as int) + schedule(t + interval, end as int, interval as int)
                =~= before.map_values(|x: i64| x as int) + schedule(t as int, end as int, interval as int));
        }
        t = t + interval;
    }
    proof {
        assert(schedule(t as int, end as int, interval as int) == Seq::<int>::empty());
        assert(ts@.map_values(|x: i64| x as int) + Seq::<int>::empty() =~= ts@.map_values(|x: i64| x as int));
        let sc = schedule(start as int, end as int, interval as int);
        assert forall|k: int| 0 <= k < ts@.len() implies #[trigger] ts@[k] == start + k * interval && ts@[k] <= end by {
            assert(ts@.map_values(|x: i64| x as int)[k] == ts@[k] as int);
            assert(sc[k] == start + k * interval);
        }
        if ts@.len() > 0 {
            assert(ts@.map_values(|x: i64| x as int)[ts@.len() - 1] == ts@.last() as int);
        }
    }
    ts
}

/// The open buys by symbol and the round trips closed so far, after the
/// trades `ts` (symbol, side): a buy becomes the open buy of its symbol
/// (replacing an earlier one), a sell closes the open buy of its symbol
/// into a round trip (buy, sell), and any other side is ignored.
pub open spec fn trips(ts: Seq<(Seq<char>, Seq<char>)>) -> (Map<Seq<char>, int>, Seq<(int, int)>)
    decreases ts.len(),
{
    if ts.len() == 0 {
        (Map::empty(), Seq::empty())
    } else {
        let (open, done) = trips(ts.drop_last());
        let t = ts.len() - 1;
        let (sym, side) = ts.last();
        if side == "Buy"@ {
            (open.insert(sym, t), done)
        } else if side == "Sell"@ && open.contains_key(sym) {
            (open.remove(sym), done.push((open[sym], t)))
        } else {
            (open, done)
        }
    }
}

/// What the pairing keeps: each open buy is a buy of its symbol, and each
/// round trip pairs an earlier buy with a later sell of the same symbol,
/// round trips in the order of their sells.
pub open spec fn trips_sound(ts: Seq<(Seq<char>, Seq<char>)>, st: (Map<Seq<char>, int>, Seq<(int, int)>)) -> bool {
    &&& forall|s: Seq<char>|
        #[trigger] st.0.contains_key(s) ==> 0 <= st.0[s] < ts.len() && ts[st.0[s]] == (s, "Buy"@)
    &&& forall|k: int|
        0 <= k < st.1.len() ==> {
            let (b, x) = #[trigger] st.1[k];
            &&& 0 <= b < x < ts.len()
            &&& ts[b].1 == "Buy"@
            &&& ts[x].1 == "Sell"@
            &&& ts[b].0 == ts[x].0
        }
    &&& forall|a: int, c: int| 0 <= a < c < st.1.len() ==> st.1[a].1 < st.1[c].1
}

proof fn lemma_trips_sound(ts: Seq<(Seq<char>, Seq<char>)>)
    ensures
        trips_sound(ts, trips(ts)),
    decreases ts.len(),
{
    if ts.len() > 0 {
        let pre = ts.drop_last();
        lemma_trips_sound(pre);
        let (open, done) = trips(pre);
        let t = ts.len() - 1;
        let (sym, side) = ts.last();
        assert forall|x: int| 0 <= x < pre.len() implies #[trigger] ts[x] == pre[x] by {}
        if side == "Buy"@ {
            let m = open.insert(sym, t);
            assert forall|s: Seq<char>| #[trigger] m.contains_key(s) implies 0 <= m[s] < ts.len() && ts[m[s]] == (s, "Buy"@) by {
                if s != sym {
                    assert(ts[open[s]] == pre[open[s]]);
                }
            }
            assert forall|k: int| 0 <= k < done.len() implies {
                let (b, x) = #[trigger] done[k];
                &&& 0 <= b < x < ts.len()
                &&& ts[b].1 == "Buy"@
                &&& ts[x].1 == "Sell"@
                &&& ts[b].0 == ts[x].0
            } by {
                let (b, x) = done[k];
                assert(ts[b] == pre[b] && ts[x] == pre[x]);
            }
        } else if side == "Sell"@ && open.contains_key(sym) {
            let m = open.remove(sym);
            let d = done.push((open[sym], t));
            assert forall|s: Seq<char>| #[trigger] m.contains_key(s) implies 0 <= m[s] < ts.len() && ts[m[s]] == (s, "Buy"@) by {
                assert(ts[open[s]] == pre[open[s]]);
            }
            assert forall|k: int| 0 <= k < d.len() implies {
                let (b, x) = #[trigger] d[k];
                &&& 0 <= b < x < ts.len()
                &&& ts[b].1 == "Buy"@
                &&& ts[x].1 == "Sell"@
                &&& ts[b].0 == ts[x].0
            } by {
                if k < done.len() {
                    let (b, x) = done[k];
                    assert(d[k] == done[k]);
                    assert(ts[b] == pre[b] && ts[x] == pre[x]);
                } else {
                    assert(ts[open[sym]] == pre[open[sym]]);
                }
            }
            assert forall|a: int, c: int| 0 <= a < c < d.len() implies d[a].1 < d[c].1 by {
                if c < done.len() {
                    assert(d[a] == done[a] && d[c] == done[c]);
                } else {
                    assert(d[a] == done[a]);
                }
            }
        } else {
            assert forall|s: Seq<char>| #[trigger] open.contains_key(s) implies 0 <= open[s] < ts.len() && ts[open[s]] == (s, "Buy"@) by {
                assert(ts[open[s]] == pre[open[s]]);
            }
            assert forall|k: int| 0 <= k < done.len() implies {
                let (b, x) = #[trigger] done[k];
                &&& 0 <= b < x < ts.len()
                &&& ts[b].1 == "Buy"@
                &&& ts[x].1 == "Sell"@
                &&& ts[b].0 == ts[x].0
            } by {
                let (b, x) = done[k];
                assert(ts[b] == pre[b] && ts[x] == pre[x]);
            }
        }
    }
}

/// The trades as plain values.
pub open spec fn trade_views(trades: Seq<(String, String)>) -> Seq<(Seq<char>, Seq<char>)> {
    trades.map_values(|t: (String, String)| (t.0@, t.1@))
}

/// The open buys held as a list: one entry per symbol.
pub open spec fn open_held(open: Seq<(String, usize)>, m: Map<Seq<char>, int>) -> bool {
    &&& forall|a: int, b: int| 0 <= a < b < open.len() ==> open[a].0@ != open[b].0@
    &&& forall|k: int| #![trigger open[k]] 0 <= k < open.len() ==> m.contains_key(open[k].0@) && m[open[k].0@] == open[k].1
    &&& forall|s: Seq<char>| #[trigger] m.contains_key(s) ==> exists|k: int| 0 <= k < open.len() && open[k].0@ == s
}

/// Where `sym` stands among the open buys, if it does.
fn find_open(open: &Vec<(String, usize)>, sym: &str) -> (k: usize)
    ensures
        k <= open@.len(),
        k < open@.len() ==> open@[k as int].0@ == sym@,
        k == open@.len() ==> forall|j: int| 0 <= j < open@.len() ==> open@[j].0@ != sym@,
{
    let mut k: usize = 0;
    while k < open.len() && !str_eq(open[k].0.as_str(), sym)
        invariant
            k <= open@.len(),
            forall|j: int| 0 <= j < k ==> open@[j].0@ != sym@,
        decreases open@.len() - k,
    {
        k = k + 1;
    }
    k
}

/// Pair buys and sells into round trips: for each trade `(symbol, side)`
/// in order, a `"Buy"` becomes the open buy of its symbol (replacing an
/// earlier one) and a `"Sell"` closes the open buy of its symbol, giving
/// the pair (buy index, sell index); a sell with no open buy, and any
/// other side, is skipped.  The pairs come in the order of their sells.
pub fn round_trips(trades: &Vec<(String, String)>) -> (pairs: Vec<(usize, usize)>)
    ensures
        pairs@.map_values(|p: (usize, usize)| (p.0 as int, p.1 as int)) == trips(trade_views(trades@)).1,
        forall|k: int|
            0 <= k < pairs@.len() ==> {
                let (b, s) = #[trigger] pairs@[k];
                &&& b < s < trades@.len()
                &&& trades@[b as int].1@ == "Buy"@
                &&& trades@[s as int].1@ == "Sell"@
                &&& trades@[b as int].0@ == trades@[s as int].0@
            },
        forall|a: int, c: int| 0 <= a < c < pairs@.len() ==> pairs@[a].1 < pairs@[c].1,
{
    let mut open: Vec<(String, usize)> = Vec::new();
    let mut pairs: Vec<(usize, usize)> = Vec::new();
    let ghost tv = trade_views(trades@);
    let mut i: usize = 0;
    proof {
        assert(tv.take(0) =~= Seq::<(Seq<char>, Seq<char>)>::empty());
        assert(pairs@.map_values(|p: (usize, usize)| (p.0 as int, p.1 as int)) =~= Seq::<(int, int)>::empty());
    }
    while i < trades.len()
        invariant
            i <= trades@.len(),
            tv == trade_views(trades@),
            open_held(open@, trips(tv.take(i as int)).0),
            pairs@.map_values(|p: (usize, usize)| (p.0 as int, p.1 as int)) == trips(tv.take(i as int)).1,
            forall|k: int| 0 <= k < open@.len() ==> #[trigger] open@[k].1 < i,
        decreases trades@.len() - i,
    {
        let ghost prev = trips(tv.take(i as int));
        let ghost pv = pairs@;
        let sym = trades[i].0.as_str();
        let side = trades[i].1.as_str();
        proof {
            assert(tv.take(i + 1).drop_last() =~= tv.take(i as int));
            assert(tv.take(i + 1).last() == tv[i as int]);
            assert(tv[i as int] == (sym@, side@));
        }
        let k = find_open(&open, sym);
        proof {
            if prev.0.contains_key(sym@) {
                let j = choose|j: int| 0 <= j < open@.len() && open@[j].0@ == sym@;
                assert(k < open@.len());
            }
            if k < open@.len() {
                assert(prev.0.contains_key(sym@));
            }
        }
        if str_eq(side, "Buy") {
            let ghost o0 = open@;
            if k < open.len() {
                open.remove(k);
                proof {
                    assert forall|a: int, b: int| 0 <= a < b < open@.len() implies open@[a].0@ != open@[b].0@ by {
                        let a0 = if a < k { a } else { a + 1 };
                        let b0 = if b < k { b } else { b + 1 };
                        assert(open@[a] == o0[a0] && open@[b] == o0[b0]);
                    }
                }
            }
            let ghost o1 = open@;
            open.push((trades[i].0.clone(), i));
            proof {
                let m = prev.0.insert(sym@, i as int);
                assert(trips(tv.take(i + 1)).0 == m);
                assert forall|a: int, b: int| 0 <= a < b < open@.len() implies open@[a].0@ != open@[b].0@ by {
                    if b == open@.len() - 1 {
                        assert(open@[a] == o1[a]);
                        let a0 = if k < o0.len() && a >= k { a + 1 } else { a };
                        assert(o1[a] == o0[a0]);
                        if k < o0.len() {
                            assert(a0 != k);
                        }
                    } else {
                        assert(open@[a] == o1[a] && open@[b] == o1[b]);
                    }
                }
                assert forall|j: int| #![trigger open@[j]] 0 <= j < open@.len() implies m.contains_key(open@[j].0@) && m[open@[j].0@] == open@[j].1 by {
                    if j < open@.len() - 1 {
                        let j0 = if k < o0.len() && j >= k { j + 1 } else { j };
                        assert(open@[j] == o1[j] && o1[j] == o0[j0]);
                        if k < o0.len() {
                            assert(j0 != k);
                            assert(o0[j0].0@ != o0[k as int].0@);
                        }
                        assert(o0[j0].0@ != sym@);
                        assert(prev.0.contains_key(o0[j0].0@) && prev.0[o0[j0].0@] == o0[j0].1);
                    }
                }
                assert forall|s: Seq<char>| #[trigger] m.contains_key(s) implies exists|j: int| 0 <= j < open@.len() && open@[j].0@ == s by {
                    if s == sym@ {
                        assert(open@[open@.len() - 1].0@ == s);
                    } else {
                        let j0 = choose|j: int| 0 <= j < o0.len() && o0[j].0@ == s;
                        let j = if k < o0.len() && j0 > k { j0 - 1 } else { j0 };
                        if k < o0.len() {
                            assert(j0 != k);
                        }
                        assert(open@[j] == o0[j0]);
                    }
                }
            }
        } else if str_eq(side, "Sell") && k < open.len() {
            let ghost o0 = open@;
            let (_, b) = open.remove(k);
            pairs.push((b, i));
            proof {
                let m = prev.0.remove(sym@);
                assert(trips(tv.take(i + 1)) == (m, prev.1.push((prev.0[sym@], i as int))));
                assert(b == o0[k as int].1);
                assert(pairs@.map_values(|p: (usize, usize)| (p.0 as int, p.1 as int)) =~= pv.map_values(
                    |p: (usize, usize)| (p.0 as int, p.1 as int),
                ).push((b as int, i as int)));
                assert forall|a: int, c: int| 0 <= a < c < open@.len() implies open@[a].0@ != open@[c].0@ by {
                    let a0 = if a < k { a } else { a + 1 };
                    let c0 = if c < k { c } else { c + 1 };
                    assert(open@[a] == o0[a0] && open@[c] == o0[c0]);
                }
                assert forall|j: int| #![trigger open@[j]] 0 <= j < open@.len() implies m.contains_key(open@[j].0@) && m[open@[j].0@] == open@[j].1 by {
                    let j0 = if j < k { j } else { j + 1 };
                    assert(open@[j] == o0[j0]);
                    assert(o0[j0].0@ != o0[k as int].0@);
                }
                assert forall|s: Seq<char>| #[trigger] m.contains_key(s) implies exists|j: int| 0 <= j < open@.len() && open@[j].0@ == s by {
                    let j0 = choose|j: int| 0 <= j < o0.len() && o0[j].0@ == s;
                    assert(j0 != k);
                    let j = if j0 > k { j0 - 1 } else { j0 };
                    assert(open@[j] == o0[j0]);
                }
            }
        } else {
            proof {
                assert(trips(tv.take(i + 1)) == prev);
            }
        }
        i = i + 1;
    }
    proof {
        assert(tv.take(i as int) =~= tv);
        lemma_trips_sound(tv);
        let pv = pairs@.map_values(|p: (usize, usize)| (p.0 as int, p.1 as int));
        assert forall|k: int| 0 <= k < pairs@.len() implies {
            let (b, s) = #[trigger] pairs@[k];
            &&& b < s < trades@.len()
            &&& trades@[b as int].1@ == "Buy"@
            &&& trades@[s as int].1@ == "Sell"@
            &&& trades@[b as int].0@ == trades@[s as int].0@
        } by {
            assert(pv[k] == (pairs@[k].0 as int, pairs@[k].1 as int));
            let (b, s) = pairs@[k];
            assert(tv[b as int] == (trades@[b as int].0@, trades@[b as int].1@));
            assert(tv[s as int] == (trades@[s as int].0@, trades@[s as int].1@));
        }
        assert forall|a: int, c: int| 0 <= a < c < pairs@.len() implies pairs@[a].1 < pairs@[c].1 by {
            assert(pv[a] == (pairs@[a].0 as int, pairs@[a].1 as int));
            assert(pv[c] == (pairs@[c].0 as int, pairs@[c].1 as int));
        }
    }
    pairs
}


/// The positions, in order, of the timestamps not after `until`.
pub open spec fn not_after(ts: Seq<i64>, until: i64) -> Seq<int>
    decreases ts.len(),
{
    if ts.len() == 0 {
        Seq::empty()
    } else {
        not_after(ts.drop_last(), until) + if ts.last() <= until {
            seq![ts.len() - 1]
        } else {
            Seq::empty()
        }
    }
}

/// The candles a backtest window holds: the positions of the first
/// `limit` candles whose timestamps (`ts`) are not after `until`, in order.
pub fn window_positions(ts: &Vec<i64>, until: i64, limit: usize) -> (r: Vec<usize>)
    ensures
        r@.map_values(|k: usize| k as int) == (if limit < not_after(ts@, until).len() {
            not_after(ts@, until).take(limit as int)
        } else {
            not_after(ts@, until)
        }),
{
    let mut r: Vec<usize> = Vec::new();
    let mut i: usize = 0;
    let ghost f = |k: usize| k as int;
    proof {
        assert(ts@.take(0) =~= Seq::<i64>::empty());
        assert(r@.map_values(f) =~= not_after(ts@.take(0), until));
    }
    while i < ts.len() && r.len() < limit
        invariant
            i <= ts@.len(),
            f == (|k: usize| k as int),
            r@.map_values(f) == not_after(ts@.take(i as int), until),
            r@.len() <= limit,
        decreases ts@.len() - i,
    {
        proof {
            assert(ts@.take(i + 1).drop_last() =~= ts@.take(i as int));
            assert(ts@.take(i + 1).last() == ts@[i as int]);
        }
        if ts[i] <= until {
            let ghost before = r@;
            r.push(i);
            proof {
                assert(r@.map_values(f) =~= before.map_values(f).push(i as int));
                assert(not_after(ts@.take(i + 1), until) =~= not_after(ts@.take(i as int), until).push(i as int));
            }
        } else {
            proof {
                assert(not_after(ts@.take(i + 1), until) =~= not_after(ts@.take(i as int), until));
            }
        }
        i = i + 1;
    }
    proof {
        lemma_not_after_prefix(ts@, until, i as int);
        if i == ts@.len() {
            assert(ts@.take(i as int) =~= ts@);
        }
    }
    r
}

/// The timestamps not after `until` among the first `i` hold the first
/// such positions of all of them.
proof fn lemma_not_after_prefix(ts: Seq<i64>, until: i64, i: int)
    requires
        0 <= i <= ts.len(),
    ensures
        not_after(ts.take(i), until).len() <= not_after(ts, until).len(),
        not_after(ts, until).take(not_after(ts.take(i), until).len() as int) == not_after(ts.take(i), until),
    decreases ts.len() - i,
{
    if i < ts.len() {
        lemma_not_after_prefix(ts, until, i + 1);
        let a = not_after(ts.take(i), until);
        let b = not_after(ts.take(i + 1), until);
        assert(ts.take(i + 1).drop_last() =~= ts.take(i));
        assert(ts.take(i + 1).last() == ts[i]);
        let all = not_after(ts, until);
        if ts[i] <= until {
            assert(b == a.push(i));
            assert(all.take(a.len() as int) =~= all.take(b.len() as int).take(a.len() as int));
            assert(b.take(a.len() as int) =~= a);
        } else {
            assert(b == a);
        }
    } else {
        assert(ts.take(i) =~= ts);
        assert(not_after(ts, until).take(not_after(ts, until).len() as int) =~= not_after(ts, until));
    }
}
} // verus!
