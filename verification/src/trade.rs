//! Executed trades: one record per match between a bid and an ask.
use vstd::prelude::*;

use crate::types::{OrderId, Quantity};

verus! {

/// One side of a trade: which order, at what price, how much.
#[derive(Debug, Clone)]
pub struct TradeSide<P> {
    pub order_id: OrderId,
    pub price: P,
    pub quantity: Quantity,
}

/// A match between a bid order and an ask order.
#[derive(Debug, Clone)]
pub struct Trade<P> {
    pub bid_side: TradeSide<P>,
    pub ask_side: TradeSide<P>,
}

impl<P: View> View for TradeSide<P> {
    type V = TradeSide<P::V>;

    open spec fn view(&self) -> TradeSide<P::V> {
        TradeSide { order_id: self.order_id, price: self.price@, quantity: self.quantity }
    }
}

impl<P: View> View for Trade<P> {
    type V = Trade<P::V>;

    open spec fn view(&self) -> Trade<P::V> {
        Trade { bid_side: self.bid_side@, ask_side: self.ask_side@ }
    }
}

} // verus!
