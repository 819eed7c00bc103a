//! The trading rules of the strategy: which order a signal calls for given
//! the position held, and when a position is closed by its stop loss or
//! take profit.

use vstd::prelude::*;

use crate::signals::SignalType;

verus! {

/// Side of a recorded trade.
#[derive(Debug, Clone, Copy, PartialEq, Eq, Structural)]
pub enum TradeSide {
    Buy,
    Sell,
}

/// Side of an order.
#[derive(Debug, Clone, Copy, PartialEq, Eq, Structural)]
pub enum OrderSide {
    Buy,
    Sell,
}

/// Kind of an order.
#[derive(Debug, Clone, Copy, PartialEq, Eq, Structural)]
pub enum OrderType {
    Market,
    Limit,
}

/// The order a signal calls for.
#[derive(Debug, Clone, Copy, PartialEq, Eq, Structural)]
pub enum OrderAction {
    /// No order.
    NoOrder,
    /// Buy a new position of the computed size.
    OpenLong,
    /// Sell the whole long position held.
    CloseLong,
    /// Sell short a new position of the computed size.
    OpenShort,
}

/// Why a position is closed.
#[derive(Debug, Clone, Copy, PartialEq, Eq, Structural)]
pub enum ExitReason {
    StopLoss,
    TakeProfit,
}

/// The order a signal for a symbol calls for.  `has_price`: a price is
/// known for the symbol; `holding`: the position held in it, `Some(true)`
/// when long; `open_positions` of at most `max_positions`; `allow_short`:
/// shorting is allowed; `size_positive`: the position size computed from
/// the signal and the price is above zero.
///
/// A buy opens a position unless a long one is held, the position count
/// is at its limit or the size is not positive.  A sell closes a long
/// position, or else opens a short one when shorting is allowed, nothing
/// is held and the size is positive.  A hold calls for nothing, as does a
/// symbol without a price.
pub fn order_action(
    signal: SignalType,
    has_price: bool,
    holding: Option<bool>,
    open_positions: usize,
    max_positions: usize,
    allow_short: bool,
    size_positive: bool,
) -> (a: OrderAction)
    ensures
        a == OrderAction::OpenLong <==> (has_price && (signal == SignalType::StrongBuy || signal == SignalType::Buy)
            && holding != Some(true) && open_positions < max_positions && size_positive),
        a == OrderAction::CloseLong <==> (has_price && (signal == SignalType::StrongSell || signal
            == SignalType::Sell) && holding == Some(true)),
        a == OrderAction::OpenShort <==> (has_price && (signal == SignalType::StrongSell || signal
            == SignalType::Sell) && holding is None && allow_short && size_positive),
        holding == Some(true) ==> a != OrderAction::OpenLong && a != OrderAction::OpenShort,
        signal == SignalType::Hold || !has_price ==> a == OrderAction::NoOrder,
{
    if !has_price {
        return OrderAction::NoOrder;
    }
    match signal {
        SignalType::StrongBuy | SignalType::Buy => {
            if holding == Some(true) {
                return OrderAction::NoOrder;
            }
            if open_positions >= max_positions {
                return OrderAction::NoOrder;
            }
            if size_positive {
                OrderAction::OpenLong
            } else {
                OrderAction::NoOrder
            }
        },
        SignalType::StrongSell | SignalType::Sell => {
            if holding == Some(true) {
                return OrderAction::CloseLong;
            }
            if allow_short && holding.is_none() && size_positive {
                return OrderAction::OpenShort;
            }
            OrderAction::NoOrder
        },
        SignalType::Hold => OrderAction::NoOrder,
    }
}

/// The closing order for a position whose return reached the stop loss
/// (`hit_stop`) or the take profit (`hit_take`): the stop loss is checked
/// first, and a long position is closed by a sell, a short one by a buy.
pub fn exit_order(hit_stop: bool, hit_take: bool, is_long: bool) -> (r: Option<(OrderSide, ExitReason)>)
    ensures
        r is None <==> !hit_stop && !hit_take,
        r matches Some((side, reason)) ==> {
            &&& (side == OrderSide::Sell) == is_long
            &&& (reason == ExitReason::StopLoss) == hit_stop
        },
{
    let side = if is_long {
        OrderSide::Sell
    } else {
        OrderSide::Buy
    };
    if hit_stop {
        Some((side, ExitReason::StopLoss))
    } else if hit_take {
        Some((side, ExitReason::TakeProfit))
    } else {
        None
    }
}

} // verus!
