//! The data-source and mining parts of the configuration, with their
//! default values.

use vstd::prelude::*;

use crate::text::owned;

verus! {

/// Data source configuration.
#[derive(Debug, Clone)]
pub struct DataConfig {
    /// API base URL
    pub api_url: String,
    /// Symbols to track
    pub symbols: Vec<String>,
    /// Default time frame
    pub timeframe: String,
    /// Cache TTL in seconds
    pub cache_ttl: i64,
}

/// Mining configuration.
#[derive(Debug, Clone, Copy, PartialEq, Eq, Structural)]
pub struct MiningConfig {
    /// Minimum support for patterns
    pub min_support: usize,
    /// Maximum pattern size (nodes)
    pub max_size: usize,
    /// Maximum patterns to find
    pub max_patterns: usize,
}

/// The symbols tracked by default.
pub open spec fn default_symbols() -> Seq<Seq<char>> {
    seq![
        "BTCUSDT"@,
        "ETHUSDT"@,
        "SOLUSDT"@,
        "BNBUSDT"@,
        "XRPUSDT"@,
        "ADAUSDT"@,
        "AVAXUSDT"@,
        "DOTUSDT"@,
        "MATICUSDT"@,
        "LINKUSDT"@,
    ]
}

impl Default for DataConfig {
    /// The Bybit API, ten large-cap USDT pairs, hourly candles and a
    /// five-minute cache.
    fn default() -> (c: Self)
        ensures
            c.api_url@ == "https://api.bybit.com"@,
            c.symbols@.map_values(|s: String| s@) == default_symbols(),
            c.timeframe@ == "1h"@,
            c.cache_ttl == 300,
    {
        let mut symbols: Vec<String> = Vec::new();
        symbols.push(owned("BTCUSDT"));
        symbols.push(owned("ETHUSDT"));
        symbols.push(owned("SOLUSDT"));
        symbols.push(owned("BNBUSDT"));
        symbols.push(owned("XRPUSDT"));
        symbols.push(owned("ADAUSDT"));
        symbols.push(owned("AVAXUSDT"));
        symbols.push(owned("DOTUSDT"));
        symbols.push(owned("MATICUSDT"));
        symbols.push(owned("LINKUSDT"));
        proof {
            assert(symbols@.map_values(|s: String| s@) =~= default_symbols());
        }
        DataConfig { api_url: owned("https://api.bybit.com"), symbols, timeframe: owned("1h"), cache_ttl: 300 }
    }
}

impl Default for MiningConfig {
    /// Support 2, at most 6 nodes, at most 100 patterns.
    fn default() -> (c: Self)
        ensures
            c.min_support == 2,
            c.max_size == 6,
            c.max_patterns == 100,
    {
        MiningConfig { min_support: 2, max_size: 6, max_patterns: 100 }
    }
}

} // verus!
