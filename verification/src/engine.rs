//! Engine command surface and the stamping of match results into outputs:
//! each trade receives a fresh monotonic trade id and the current timestamp
//! before emission.

use crate::protocol::{CancelOrderRequest, NewOrderRequest, OrderConfirmation, TradeNotification};
use crate::trades::{trade_seq, TradeVec};
use vstd::prelude::*;

verus! {

/// Commands the matching engine accepts.
pub enum EngineCommand {
    NewOrder(NewOrderRequest),
    CancelOrder(CancelOrderRequest),
}

/// Results the matching engine emits.
pub enum EngineOutput {
    Trade(TradeNotification),
    Confirmation(OrderConfirmation),
}

/// `t` with its service-assigned trade id and timestamp filled in.
pub open spec fn spec_stamped(t: TradeNotification, trade_id: u64, timestamp: u64) -> TradeNotification {
    TradeNotification { trade_id, timestamp, ..t }
}

/// Copies a trade, filling in the service-assigned id and timestamp.
pub fn stamp_trade(t: &TradeNotification, trade_id: u64, timestamp: u64) -> (r: TradeNotification)
    ensures
        r == spec_stamped(*t, trade_id, timestamp),
{
    TradeNotification {
        trade_id,
        symbol: t.symbol.clone(),
        matched_price: t.matched_price,
        matched_quantity: t.matched_quantity,
        buyer_user_id: t.buyer_user_id,
        buyer_order_id: t.buyer_order_id,
        seller_user_id: t.seller_user_id,
        seller_order_id: t.seller_order_id,
        timestamp,
    }
}

/// Turns one match result into the outputs to emit: every trade stamped with
/// consecutive ids starting at `next_trade_id` and with `timestamp`, in
/// order, followed by the confirmation if the order rested. Returns the
/// outputs and the next unused trade id.
pub fn stamp_match_outputs(
    trades: TradeVec,
    confirmation: Option<OrderConfirmation>,
    next_trade_id: u64,
    timestamp: u64,
) -> (r: (Vec<EngineOutput>, u64))
    requires
        trade_seq(trades).len() <= u64::MAX - next_trade_id,
    ensures
        ({
            let ts = trade_seq(trades);
            &&& r.1 == next_trade_id + ts.len()
            &&& r.0@.len() == ts.len() + (if confirmation is Some {
                1int
            } else {
                0int
            })
            &&& forall|i: int|
                0 <= i < ts.len() ==> r.0@[i] == EngineOutput::Trade(
                    spec_stamped(ts[i], (next_trade_id + i) as u64, timestamp),
                )
            &&& (confirmation matches Some(c) ==> r.0@.last() == EngineOutput::Confirmation(c))
        }),
{
    let ghost ts = trade_seq(trades);
    let tv = trades.into_vec();
    let mut outputs: Vec<EngineOutput> = Vec::new();
    let mut trade_id = next_trade_id;
    let mut i: usize = 0;
    let n = tv.len();
    while i < n
        invariant
            n == tv@.len(),
            tv@ == ts,
            ts.len() <= u64::MAX - next_trade_id,
            i <= n,
            trade_id == next_trade_id + i,
            outputs@.len() == i,
            forall|j: int|
                0 <= j < i ==> outputs@[j] == EngineOutput::Trade(
                    spec_stamped(ts[j], (next_trade_id + j) as u64, timestamp),
                ),
        decreases n - i,
    {
        let stamped = stamp_trade(&tv[i], trade_id, timestamp);
        outputs.push(EngineOutput::Trade(stamped));
        trade_id = trade_id + 1;
        i = i + 1;
    }
    match confirmation {
        Some(c) => {
            outputs.push(EngineOutput::Confirmation(c));
        },
        None => (),
    }
    (outputs, trade_id)
}

} // verus!
