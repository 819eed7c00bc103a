use subgraph_mining_trading::backtest::{rebalance_times, round_trips, time_range, window_positions, BacktestError};
use subgraph_mining_trading::config::{DataConfig, MiningConfig};
use subgraph_mining_trading::pattern::PatternType;
use subgraph_mining_trading::signals::{average_signal_type, change_signal_type, group_by_symbol, pattern_signal_type, SignalType};
use subgraph_mining_trading::text::{decimal_string, numbered};
use subgraph_mining_trading::strategy::{exit_order, order_action, ExitReason, OrderAction, OrderSide};

fn strings(v: &[&str]) -> Vec<String> {
    v.iter().map(|s| s.to_string()).collect()
}

#[test]
fn signal_values_and_directions() {
    assert_eq!(SignalType::StrongBuy.to_value(), 2);
    assert_eq!(SignalType::Buy.to_value(), 1);
    assert_eq!(SignalType::Hold.to_value(), 0);
    assert_eq!(SignalType::Sell.to_value(), -1);
    assert_eq!(SignalType::StrongSell.to_value(), -2);
    assert!(SignalType::Buy.is_bullish());
    assert!(!SignalType::Buy.is_bearish());
    assert!(SignalType::StrongSell.is_bearish());
    assert!(!SignalType::Hold.is_bullish() && !SignalType::Hold.is_bearish());
}

#[test]
fn pattern_signals_by_threshold() {
    assert_eq!(pattern_signal_type(PatternType::Triangle, true, true), SignalType::StrongBuy);
    assert_eq!(pattern_signal_type(PatternType::Triangle, false, true), SignalType::Buy);
    assert_eq!(pattern_signal_type(PatternType::Triangle, false, false), SignalType::Hold);
    assert_eq!(pattern_signal_type(PatternType::Clique, false, false), SignalType::Buy);
    assert_eq!(pattern_signal_type(PatternType::Clique, true, false), SignalType::StrongBuy);
    assert_eq!(pattern_signal_type(PatternType::Star, true, true), SignalType::Hold);
}

#[test]
fn change_signals() {
    assert_eq!(change_signal_type(PatternType::Triangle, true), SignalType::Buy);
    assert_eq!(change_signal_type(PatternType::Clique, false), SignalType::Sell);
    assert_eq!(change_signal_type(PatternType::Chain, true), SignalType::Hold);
}

#[test]
fn signals_grouped_by_symbol() {
    let lists = vec![strings(&["BTC", "ETH"]), strings(&["ETH"]), strings(&["SOL", "BTC"])];
    let groups = group_by_symbol(&lists);
    assert_eq!(groups.len(), 3);
    assert_eq!(groups[0], ("BTC".to_string(), vec![0, 2]));
    assert_eq!(groups[1], ("ETH".to_string(), vec![0, 1]));
    assert_eq!(groups[2], ("SOL".to_string(), vec![2]));
    assert!(group_by_symbol(&Vec::new()).is_empty());
}

#[test]
fn buy_signals_open_longs() {
    assert_eq!(order_action(SignalType::Buy, true, None, 0, 5, false, true), OrderAction::OpenLong);
    assert_eq!(order_action(SignalType::StrongBuy, true, Some(false), 0, 5, false, true), OrderAction::OpenLong);
    assert_eq!(order_action(SignalType::Buy, true, Some(true), 0, 5, false, true), OrderAction::NoOrder);
    assert_eq!(order_action(SignalType::Buy, true, None, 5, 5, false, true), OrderAction::NoOrder);
    assert_eq!(order_action(SignalType::Buy, true, None, 0, 5, false, false), OrderAction::NoOrder);
    assert_eq!(order_action(SignalType::Buy, false, None, 0, 5, false, true), OrderAction::NoOrder);
}

#[test]
fn sell_signals_close_or_short() {
    assert_eq!(order_action(SignalType::Sell, true, Some(true), 9, 5, false, false), OrderAction::CloseLong);
    assert_eq!(order_action(SignalType::StrongSell, true, None, 0, 5, true, true), OrderAction::OpenShort);
    assert_eq!(order_action(SignalType::Sell, true, None, 0, 5, false, true), OrderAction::NoOrder);
    assert_eq!(order_action(SignalType::Sell, true, Some(false), 0, 5, true, true), OrderAction::NoOrder);
    assert_eq!(order_action(SignalType::Hold, true, Some(true), 0, 5, true, true), OrderAction::NoOrder);
}

#[test]
fn exits_check_the_stop_first() {
    assert_eq!(exit_order(true, true, true), Some((OrderSide::Sell, ExitReason::StopLoss)));
    assert_eq!(exit_order(false, true, false), Some((OrderSide::Buy, ExitReason::TakeProfit)));
    assert_eq!(exit_order(false, false, true), None);
}

#[test]
fn time_range_is_clipped_by_the_config() {
    let spans = vec![Some((100, 500)), None, Some((50, 400))];
    assert_eq!(time_range(&spans, 0, i64::MAX), Ok((50, 500)));
    assert_eq!(time_range(&spans, 80, 450), Ok((80, 450)));
    assert_eq!(time_range(&vec![None, None], 0, 10), Err(BacktestError::NoData));
    assert_eq!(time_range(&Vec::new(), 0, 10), Err(BacktestError::NoData));
}

#[test]
fn rebalance_schedule() {
    assert_eq!(rebalance_times(0, 10000, 3600), vec![0, 3600, 7200]);
    assert_eq!(rebalance_times(0, 7200, 3600), vec![0, 3600, 7200]);
    assert!(rebalance_times(10, 5, 1).is_empty());
}

#[test]
fn round_trips_pair_buys_with_sells() {
    let trades = vec![
        ("BTC".to_string(), "Buy".to_string()),
        ("ETH".to_string(), "Sell".to_string()),
        ("ETH".to_string(), "Buy".to_string()),
        ("BTC".to_string(), "Buy".to_string()),
        ("BTC".to_string(), "Sell".to_string()),
        ("ETH".to_string(), "Sell".to_string()),
        ("BTC".to_string(), "Sell".to_string()),
    ];
    assert_eq!(round_trips(&trades), vec![(3, 4), (2, 5)]);
}

#[test]
fn default_configs() {
    let data = DataConfig::default();
    assert_eq!(data.api_url, "https://api.bybit.com");
    assert_eq!(data.symbols.len(), 10);
    assert_eq!(data.symbols[0], "BTCUSDT");
    assert_eq!(data.timeframe, "1h");
    assert_eq!(data.cache_ttl, 300);
    let mining = MiningConfig::default();
    assert_eq!((mining.min_support, mining.max_size, mining.max_patterns), (2, 6, 100));
}

#[test]
fn window_takes_the_first_candles_up_to_the_time() {
    let ts = vec![10, 30, 20, 40, 15];
    assert_eq!(window_positions(&ts, 20, 10), vec![0, 2, 4]);
    assert_eq!(window_positions(&ts, 20, 2), vec![0, 2]);
    assert!(window_positions(&ts, 5, 3).is_empty());
    assert!(window_positions(&ts, 50, 0).is_empty());
}

#[test]
fn average_signal_classification() {
    let classify = |v: f64| average_signal_type(v >= 1.5, v >= 0.5, v <= -1.5, v <= -0.5);
    assert_eq!(classify(2.0), SignalType::StrongBuy);
    assert_eq!(classify(1.5), SignalType::StrongBuy);
    assert_eq!(classify(0.5), SignalType::Buy);
    assert_eq!(classify(0.49), SignalType::Hold);
    assert_eq!(classify(0.0), SignalType::Hold);
    assert_eq!(classify(-0.5), SignalType::Sell);
    assert_eq!(classify(-1.49), SignalType::Sell);
    assert_eq!(classify(-1.5), SignalType::StrongSell);
}

#[test]
fn numbered_names() {
    assert_eq!(numbered("star", 3), "star_3");
    assert_eq!(numbered("clique", 10), "clique_10");
    assert_eq!(decimal_string(0), "0");
    assert_eq!(decimal_string(1907), "1907");
    assert_eq!(decimal_string(usize::MAX), usize::MAX.to_string());
}
