# subgraph_mining_trading

Subgraph mining over financial correlation networks, with the graph
algorithms, the pattern miner and the trading rules verified in Verus.

Assets are nodes, strong correlations are edges. The library finds the
shapes such a network holds (triangles, stars, cliques, chains, connected
components), counts and ranks them as patterns, tracks them across
snapshots, and turns matched patterns and pattern changes into trading
decisions.

## Layout

- `src/` — the verified library.
  - `types.rs`: assets (`Node`), relationships (`Edge`) and the graph
    (`FinancialGraph`), an undirected `petgraph` graph with a symbol index.
  - `graph_store.rs`: the part of `petgraph` the graph uses, with the
    contracts the library relies on.
  - `algorithms.rs`, `components.rs`, `chains.rs`, `cliques.rs`:
    triangles, stars, connected components, chains and the Bron–Kerbosch
    clique search.
  - `builder.rs`: the checks on input data and the assembly of a graph
    from the pairs to link.
  - `pattern.rs`, `canonical.rs`, `gspan.rs`, `matcher.rs`: patterns and
    DFS codes, the minimum (canonical) DFS code check, the miner (single
    graph and across snapshots), and the parts of pattern matching and
    change detection that need no arithmetic on weights.
  - `signals.rs`, `strategy.rs`, `backtest.rs`, `config.rs`: signal kinds
    and rules, order and exit rules, backtest bookkeeping (time range,
    schedule, windows, round trips) and default configuration.
  - `sort.rs`, `text.rs`: stable sorting and string helpers.
- `tests/` — tests run against the compiled library.
- `app/` — the floating-point side (statistics, correlations, match
  quality, signal strengths, capital and performance metrics), file and
  environment handling, and the `serde`/`thiserror` copies of library
  types.

Edge weights, prices and thresholds cross into the library as IEEE-754
bit patterns (`f64::to_bits`); the library stores and compares them but
never does arithmetic on them.
