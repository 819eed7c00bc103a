//! Trading signals: their kinds, the rules that read a signal off a
//! matched pattern or a pattern change, and the grouping of signals by the
//! symbols they name.

use vstd::prelude::*;

use crate::pattern::PatternType;
use crate::text::str_eq;

verus! {

/// Type of trading signal.
#[derive(Debug, Clone, Copy, PartialEq, Eq, Structural)]
pub enum SignalType {
    /// Strong buy signal
    StrongBuy,
    /// Regular buy signal
    Buy,
    /// Hold / neutral
    Hold,
    /// Regular sell signal
    Sell,
    /// Strong sell signal
    StrongSell,
}

/// The numeric value of a signal, from +2 (strong buy) to -2 (strong
/// sell).
pub open spec fn signal_value(t: SignalType) -> int {
    match t {
        SignalType::StrongBuy => 2,
        SignalType::Buy => 1,
        SignalType::Hold => 0,
        SignalType::Sell => -1,
        SignalType::StrongSell => -2,
    }
}

impl SignalType {
    /// Convert to numeric value (-2 to +2).
    pub fn to_value(&self) -> (v: i32)
        ensures
            v == signal_value(*self),
            -2 <= v <= 2,
    {
        match self {
            SignalType::StrongBuy => 2,
            SignalType::Buy => 1,
            SignalType::Hold => 0,
            SignalType::Sell => -1,
            SignalType::StrongSell => -2,
        }
    }

    /// Check if signal is bullish: a buy, strong or not.
    pub fn is_bullish(&self) -> (b: bool)
        ensures
            b == (*self == SignalType::StrongBuy || *self == SignalType::Buy),
            b == (signal_value(*self) > 0),
    {
        match self {
            SignalType::StrongBuy | SignalType::Buy => true,
            _ => false,
        }
    }

    /// Check if signal is bearish: a sell, strong or not.
    pub fn is_bearish(&self) -> (b: bool)
        ensures
            b == (*self == SignalType::StrongSell || *self == SignalType::Sell),
            b == (signal_value(*self) < 0),
    {
        match self {
            SignalType::StrongSell | SignalType::Sell => true,
            _ => false,
        }
    }
}

/// No signal is both bullish and bearish, and a signal is neither exactly
/// when it is a hold.
pub proof fn law_signal_direction(t: SignalType)
    ensures
        !(signal_value(t) > 0 && signal_value(t) < 0),
        (signal_value(t) == 0) == (t == SignalType::Hold),
        -2 <= signal_value(t) <= 2,
{
}

/// The signal a matched pattern gives, from whether its average edge
/// weight reaches the strong and the weak threshold: a triangle gives a
/// strong buy, a buy or a hold; a clique a strong buy or a buy; any other
/// pattern a hold.
pub open spec fn pattern_signal(t: PatternType, strong: bool, weak: bool) -> SignalType {
    match t {
        PatternType::Triangle => if strong {
            SignalType::StrongBuy
        } else if weak {
            SignalType::Buy
        } else {
            SignalType::Hold
        },
        PatternType::Clique => if strong {
            SignalType::StrongBuy
        } else {
            SignalType::Buy
        },
        _ => SignalType::Hold,
    }
}

/// The signal type of a pattern match whose average edge weight reaches
/// the strong threshold (`reaches_strong`) and the weak one
/// (`reaches_weak`).  A hold means no signal.
pub fn pattern_signal_type(pattern_type: PatternType, reaches_strong: bool, reaches_weak: bool) -> (s: SignalType)
    ensures
        s == pattern_signal(pattern_type, reaches_strong, reaches_weak),
        pattern_type != PatternType::Triangle && pattern_type != PatternType::Clique ==> s == SignalType::Hold,
        pattern_type == PatternType::Clique ==> signal_value(s) > 0,
{
    match pattern_type {
        PatternType::Triangle => {
            if reaches_strong {
                SignalType::StrongBuy
            } else if reaches_weak {
                SignalType::Buy
            } else {
                SignalType::Hold
            }
        },
        PatternType::Clique => {
            if reaches_strong {
                SignalType::StrongBuy
            } else {
                SignalType::Buy
            }
        },
        _ => SignalType::Hold,
    }
}

/// The signal a change gives: a triangle or clique that formed is a buy,
/// one that broke a sell; any other change a hold.
pub open spec fn change_signal(t: PatternType, appeared: bool) -> SignalType {
    match t {
        PatternType::Triangle | PatternType::Clique => if appeared {
            SignalType::Buy
        } else {
            SignalType::Sell
        },
        _ => SignalType::Hold,
    }
}

/// The signal type of a pattern that appeared (`appeared`) or
/// disappeared between two snapshots.  A hold means no signal.
pub fn change_signal_type(pattern_type: PatternType, appeared: bool) -> (s: SignalType)
    ensures
        s == change_signal(pattern_type, appeared),
        pattern_type != PatternType::Triangle && pattern_type != PatternType::Clique ==> s == SignalType::Hold,
        pattern_type == PatternType::Triangle || pattern_type == PatternType::Clique ==> (if appeared {
            signal_value(s) > 0
        } else {
            signal_value(s) < 0
        }),
{
    match pattern_type {
        PatternType::Triangle | PatternType::Clique => {
            if appeared {
                SignalType::Buy
            } else {
                SignalType::Sell
            }
        },
        _ => SignalType::Hold,
    }
}

/// The signal of a symbol's weighted average signal value, from how that
/// value compares with the cut-offs: at least 1.5 a strong buy, at least
/// 0.5 a buy, at most -1.5 a strong sell, at most -0.5 a sell, in that
/// order, and otherwise a hold.
pub open spec fn average_signal(strong_buy: bool, buy: bool, strong_sell: bool, sell: bool) -> SignalType {
    if strong_buy {
        SignalType::StrongBuy
    } else if buy {
        SignalType::Buy
    } else if strong_sell {
        SignalType::StrongSell
    } else if sell {
        SignalType::Sell
    } else {
        SignalType::Hold
    }
}

/// The signal type of a symbol's weighted average signal value, given
/// whether it reaches 1.5 (`strong_buy`), reaches 0.5 (`buy`), is at most
/// -1.5 (`strong_sell`) and is at most -0.5 (`sell`).  A hold means no
/// aggregated signal.
pub fn average_signal_type(strong_buy: bool, buy: bool, strong_sell: bool, sell: bool) -> (s: SignalType)
    ensures
        s == average_signal(strong_buy, buy, strong_sell, sell),
{
    if strong_buy {
        SignalType::StrongBuy
    } else if buy {
        SignalType::Buy
    } else if strong_sell {
        SignalType::StrongSell
    } else if sell {
        SignalType::Sell
    } else {
        SignalType::Hold
    }
}

/// On a consistent reading of the cut-offs (reaching 1.5 reaches 0.5, and
/// being at most -1.5 is being at most -0.5), the aggregated signal
/// follows the sign of the average: a non-negative average never sells
/// and a non-positive one never buys.
pub proof fn law_average_signal_sign(strong_buy: bool, buy: bool, strong_sell: bool, sell: bool)
    requires
        strong_buy ==> buy,
        strong_sell ==> sell,
        !(buy && sell),
    ensures
        buy ==> signal_value(average_signal(strong_buy, buy, strong_sell, sell)) > 0,
        sell ==> signal_value(average_signal(strong_buy, buy, strong_sell, sell)) < 0,
        !buy && !sell ==> average_signal(strong_buy, buy, strong_sell, sell) == SignalType::Hold,
{
}

/// Only triangles and cliques give signals: a matched pattern of any other
/// type (a chain, a star, an edge, a general subgraph) gives a hold
/// whatever thresholds its weight reaches, and so does the forming or
/// breaking of one.  A matched clique always gives a buy, strong or not;
/// a matched triangle gives a buy exactly when it reaches the weak
/// threshold or the strong one, and a strong buy exactly when it reaches
/// the strong one.
pub proof fn law_only_triangles_and_cliques_signal(t: PatternType, strong: bool, weak: bool, appeared: bool)
    ensures
        t != PatternType::Triangle && t != PatternType::Clique ==> pattern_signal(t, strong, weak)
            == SignalType::Hold && change_signal(t, appeared) == SignalType::Hold,
        t == PatternType::Clique ==> signal_value(pattern_signal(t, strong, weak)) > 0,
        t == PatternType::Triangle ==> (signal_value(pattern_signal(t, strong, weak)) > 0 <==> strong || weak),
        t == PatternType::Triangle || t == PatternType::Clique ==> (pattern_signal(t, strong, weak)
            == SignalType::StrongBuy <==> strong),
        t == PatternType::Triangle || t == PatternType::Clique ==> change_signal(t, true) == SignalType::Buy
            && change_signal(t, false) == SignalType::Sell,
{
}

/// Patterns that gain a signal gain a bullish one when they form and a
/// bearish one when they break; a matched pattern never reads as bearish.
pub proof fn law_change_direction(t: PatternType, strong: bool, weak: bool)
    ensures
        change_signal(t, true) != SignalType::Hold ==> signal_value(change_signal(t, true)) > 0,
        change_signal(t, false) != SignalType::Hold ==> signal_value(change_signal(t, false)) < 0,
        (change_signal(t, true) == SignalType::Hold) == (change_signal(t, false) == SignalType::Hold),
        signal_value(pattern_signal(t, strong, weak)) >= 0,
{
}

/// Every `(signal, symbol)` mention, signal by signal, each signal's
/// symbols in order.
pub open spec fn mentions(lists: Seq<Seq<Seq<char>>>) -> Seq<(int, Seq<char>)>
    decreases lists.len(),
{
    if lists.len() == 0 {
        Seq::empty()
    } else {
        let i = lists.len() - 1;
        mentions(lists.drop_last()) + lists[i].map_values(|s: Seq<char>| (i, s))
    }
}

/// The first group for symbol `s`, or the number of groups.
pub open spec fn symbol_pos(gs: Seq<(Seq<char>, Seq<int>)>, s: Seq<char>) -> int
    decreases gs.len(),
{
    if gs.len() == 0 {
        0
    } else if gs[0].0 == s {
        0
    } else {
        1 + symbol_pos(gs.drop_first(), s)
    }
}

/// The signals naming each symbol, symbols in order of first mention,
/// each signal listed once per mention.
pub open spec fn by_symbol(ms: Seq<(int, Seq<char>)>) -> Seq<(Seq<char>, Seq<int>)>
    decreases ms.len(),
{
    if ms.len() == 0 {
        Seq::empty()
    } else {
        let gs = by_symbol(ms.drop_last());
        let (i, s) = ms.last();
        let k = symbol_pos(gs, s);
        if k < gs.len() {
            gs.update(k, (s, gs[k].1.push(i)))
        } else {
            gs.push((s, seq![i]))
        }
    }
}

/// A group as handed out.
pub open spec fn group_view(g: (String, Vec<usize>)) -> (Seq<char>, Seq<int>) {
    (g.0@, g.1@.map_values(|i: usize| i as int))
}

/// The symbols of each signal as plain values.
pub open spec fn symbol_lists(lists: Seq<Vec<String>>) -> Seq<Seq<Seq<char>>> {
    lists.map_values(|l: Vec<String>| l@.map_values(|s: String| s@))
}

proof fn lemma_symbol_pos(gs: Seq<(Seq<char>, Seq<int>)>, s: Seq<char>)
    ensures
        0 <= symbol_pos(gs, s) <= gs.len(),
        symbol_pos(gs, s) < gs.len() ==> gs[symbol_pos(gs, s)].0 == s,
        forall|t: int| 0 <= t < symbol_pos(gs, s) ==> gs[t].0 != s,
    decreases gs.len(),
{
    if gs.len() > 0 && gs[0].0 != s {
        lemma_symbol_pos(gs.drop_first(), s);
        assert forall|t: int| 0 <= t < symbol_pos(gs, s) implies gs[t].0 != s by {
            if t > 0 {
                assert(gs[t] == gs.drop_first()[t - 1]);
            }
        }
    }
}

/// Group signals by the symbols they name: for each symbol, in order of
/// first mention, the indices of the signals naming it (a signal naming a
/// symbol twice is listed twice).
pub fn group_by_symbol(lists: &Vec<Vec<String>>) -> (groups: Vec<(String, Vec<usize>)>)
    ensures
        groups@.map_values(|g: (String, Vec<usize>)| group_view(g)) == by_symbol(mentions(symbol_lists(lists@))),
{
    let mut groups: Vec<(String, Vec<usize>)> = Vec::new();
    let ghost f = |g: (String, Vec<usize>)| group_view(g);
    let ghost all = symbol_lists(lists@);
    let mut i: usize = 0;
    proof {
        assert(all.take(0) =~= Seq::<Seq<Seq<char>>>::empty());
        assert(groups@.map_values(f) =~= by_symbol(mentions(all.take(0))));
    }
    while i < lists.len()
        invariant
            i <= lists@.len(),
            all == symbol_lists(lists@),
            f == (|g: (String, Vec<usize>)| group_view(g)),
            groups@.map_values(f) == by_symbol(mentions(all.take(i as int))),
        decreases lists@.len() - i,
    {
        let syms = &lists[i];
        let ghost cur = all[i as int];
        let ghost base = mentions(all.take(i as int));
        proof {
            assert(cur == syms@.map_values(|s: String| s@));
        }
        let mut j: usize = 0;
        while j < syms.len()
            invariant
                i < lists@.len(),
                j <= syms@.len(),
                cur == syms@.map_values(|s: String| s@),
                f == (|g: (String, Vec<usize>)| group_view(g)),
                groups@.map_values(f) == by_symbol(base + cur.take(j as int).map_values(|s: Seq<char>| (i as int, s))),
            decreases syms@.len() - j,
        {
            let s = &syms[j];
            let ghost ms = base + cur.take(j as int).map_values(|x: Seq<char>| (i as int, x));
            let ghost gs = by_symbol(ms);
            let ghost ms2 = base + cur.take(j + 1).map_values(|x: Seq<char>| (i as int, x));
            proof {
                assert(cur[j as int] == s@);
                assert(ms2 =~= ms.push((i as int, s@)));
                assert(ms2.drop_last() =~= ms);
                lemma_symbol_pos(gs, s@);
            }
            let mut k: usize = 0;
            while k < groups.len() && !str_eq(groups[k].0.as_str(), s.as_str())
                invariant
                    k <= groups@.len(),
                    groups@.map_values(f) == gs,
                    f == (|g: (String, Vec<usize>)| group_view(g)),
                    forall|t: int| 0 <= t < k ==> gs[t].0 != s@,
                decreases groups@.len() - k,
            {
                proof {
                    assert(gs[k as int] == group_view(groups@[k as int]));
                }
                k = k + 1;
            }
            proof {
                if k < groups@.len() {
                    assert(gs[k as int] == group_view(groups@[k as int]));
                    assert(gs[k as int].0 == s@);
                }
                assert(symbol_pos(gs, s@) == k) by {
                    if symbol_pos(gs, s@) < k {
                        assert(gs[symbol_pos(gs, s@)].0 == s@);
                    }
                    if symbol_pos(gs, s@) > k && k < gs.len() {
                        assert(gs[k as int].0 != s@);
                    }
                }
            }
            if k < groups.len() {
                let ghost g0 = groups@;
                let (name, mut idx) = groups.remove(k);
                idx.push(i);
                groups.insert(k, (name, idx));
                proof {
                    assert(groups@ =~= g0.update(k as int, (name, idx)));
                    assert(idx@.map_values(|t: usize| t as int) =~= g0[k as int].1@.map_values(|t: usize| t as int).push(i as int));
                    assert(groups@.map_values(f) =~= gs.update(k as int, (s@, gs[k as int].1.push(i as int))));
                }
            } else {
                let mut idx: Vec<usize> = Vec::new();
                idx.push(i);
                groups.push((s.clone(), idx));
                proof {
                    assert(idx@.map_values(|t: usize| t as int) =~= seq![i as int]);
                    assert(groups@.map_values(f) =~= gs.push((s@, seq![i as int])));
                }
            }
            j = j + 1;
        }
        proof {
            assert(cur.take(j as int) =~= cur);
            assert(all.take(i + 1).drop_last() =~= all.take(i as int));
            assert(all.take(i + 1)[i as int] == cur);
            assert(mentions(all.take(i + 1)) =~= base + cur.map_values(|s: Seq<char>| (i as int, s)));
        }
        i = i + 1;
    }
    proof {
        assert(all.take(i as int) =~= all);
    }
    groups
}

} // verus!
