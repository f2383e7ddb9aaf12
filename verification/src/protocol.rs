//! Command and result messages exchanged with the matching core.
//!
//! Prices and quantities are unsigned integers in the contract's native tick
//! units; a price of 123.45 with a two-decimal tick is carried as 12345.

use vstd::prelude::*;

verus! {

/// Side of an incoming order.
#[derive(Clone, Copy, Debug, PartialEq, Eq, Structural)]
pub enum OrderType {
    Buy,
    Sell,
}

/// New-order command submitted by a client.
#[derive(Clone, Debug)]
pub struct NewOrderRequest {
    pub user_id: u64,
    pub symbol: String,
    pub order_type: OrderType,
    pub price: u64,
    pub quantity: u64,
}

/// Cancel command for a previously confirmed resting order.
#[derive(Clone, Copy, Debug, PartialEq, Eq, Structural)]
pub struct CancelOrderRequest {
    pub user_id: u64,
    pub order_id: u64,
}

/// Confirmation returned to the submitter when an order rests on the book.
#[derive(Clone, Copy, Debug, PartialEq, Eq, Structural)]
pub struct OrderConfirmation {
    pub order_id: u64,
    pub user_id: u64,
}

/// Trade report sent to both parties of a match.
///
/// The book leaves `trade_id` and `timestamp` at zero; the enclosing service
/// stamps them before emission.
#[derive(Clone, Debug)]
pub struct TradeNotification {
    pub trade_id: u64,
    pub symbol: String,
    pub matched_price: u64,
    pub matched_quantity: u64,
    pub buyer_user_id: u64,
    pub buyer_order_id: u64,
    pub seller_user_id: u64,
    pub seller_order_id: u64,
    pub timestamp: u64,
}

/// Every message a client can send to the engine.
#[derive(Clone, Debug)]
pub enum ClientMessage {
    NewOrder(NewOrderRequest),
    CancelOrder(CancelOrderRequest),
}

/// Every message the engine can send back to a client.
#[derive(Clone, Debug)]
pub enum ServerMessage {
    Trade(TradeNotification),
    Confirmation(OrderConfirmation),
}

} // verus!
