//! Use-case façade: validate an incoming order, then match it; cancel a
//! resting order and report the outcome as a value.

use crate::book::{spec_match, TickBasedOrderBook};
use crate::protocol::{CancelOrderRequest, NewOrderRequest, OrderConfirmation};
use crate::trades::{trade_seq, TradeVec};
use crate::validation::{first_violation, order_admissible, OrderValidator, ValidationError};
use vstd::prelude::*;

verus! {

/// Outcome of matching one validated order.
#[derive(Debug)]
pub struct MatchOrderResult {
    /// Trades generated by the match, in generation order.
    pub trades: TradeVec,
    /// Confirmation for a residual that rested on the book.
    pub confirmation: Option<OrderConfirmation>,
}

/// Why a match request was refused before touching the book.
#[derive(Debug)]
pub enum MatchOrderError {
    /// The order failed validation.
    ValidationFailed(ValidationError),
    /// The book reported an error.
    OrderbookError(String),
}

/// Outcome of a cancel request; a stale id is reported here, not as an error.
#[derive(Debug)]
pub struct CancelOrderResult {
    pub success: bool,
    pub error: Option<String>,
    pub order_id: u64,
}

/// Failures of the cancel use case itself.
#[derive(Debug)]
pub enum CancelOrderError {
    /// No resting order carries this id.
    OrderNotFound(u64),
    /// The submitter does not own the order.
    Unauthorized { order_id: u64, user_id: u64 },
    /// The book reported an error.
    OrderbookError(String),
}

/// Validates orders against business rules, then matches them on one book.
pub struct MatchOrderUseCase {
    orderbook: TickBasedOrderBook,
    validator: OrderValidator,
}

impl MatchOrderUseCase {
    /// The book this use case drives.
    pub closed spec fn spec_orderbook(&self) -> TickBasedOrderBook {
        self.orderbook
    }

    /// The validator applied before each match.
    pub closed spec fn spec_validator(&self) -> OrderValidator {
        self.validator
    }

    /// The use case is usable while its book satisfies the book invariant.
    pub closed spec fn wf(&self) -> bool {
        self.orderbook.inv()
    }

    /// Builds the use case from a book and a validator.
    pub fn new(orderbook: TickBasedOrderBook, validator: OrderValidator) -> (r: MatchOrderUseCase)
        requires
            orderbook.inv(),
        ensures
            r.wf(),
            r.spec_orderbook() == orderbook,
            r.spec_validator() == validator,
    {
        MatchOrderUseCase { orderbook, validator }
    }

    /// Validates the request and, when admissible, matches it: a rejected
    /// order names its first violated rule and leaves the book untouched; an
    /// admissible one behaves exactly as [`spec_match`] describes.
    pub fn execute(&mut self, request: NewOrderRequest) -> (r: Result<
        MatchOrderResult,
        MatchOrderError,
    >)
        requires
            old(self).wf(),
        ensures
            final(self).wf(),
            final(self).spec_validator() == old(self).spec_validator(),
            match r {
                Ok(res) => {
                    let out = spec_match(
                        old(self).spec_orderbook().contract_spec(),
                        old(self).spec_orderbook().bids(),
                        old(self).spec_orderbook().asks(),
                        old(self).spec_orderbook().spec_next_order_id(),
                        request,
                    );
                    &&& order_admissible(old(self).spec_validator().spec_config(), request)
                    &&& trade_seq(res.trades) == out.trades
                    &&& res.confirmation == out.confirmation
                    &&& final(self).spec_orderbook().bids() == out.bids
                    &&& final(self).spec_orderbook().asks() == out.asks
                    &&& final(self).spec_orderbook().spec_next_order_id() == out.next_order_id
                },
                Err(e) => {
                    &&& !order_admissible(old(self).spec_validator().spec_config(), request)
                    &&& e matches MatchOrderError::ValidationFailed(v) && v == first_violation(
                        old(self).spec_validator().spec_config(),
                        request,
                    )
                    &&& final(self).spec_orderbook() == old(self).spec_orderbook()
                },
            },
    {
        match self.validator.validate(&request) {
            Ok(()) => (),
            Err(e) => {
                return Err(MatchOrderError::ValidationFailed(e));
            },
        }
        let (trades, confirmation) = self.orderbook.match_order(request);
        Ok(MatchOrderResult { trades, confirmation })
    }

    /// The underlying book, for inspection.
    pub fn orderbook(&self) -> (r: &TickBasedOrderBook)
        ensures
            *r == self.spec_orderbook(),
    {
        &self.orderbook
    }

    /// The underlying book, for direct manipulation.
    pub fn orderbook_mut(&mut self) -> (r: &mut TickBasedOrderBook)
        ensures
            *r == old(self).spec_orderbook(),
            final(self).spec_orderbook() == *final(r),
            final(self).spec_validator() == old(self).spec_validator(),
    {
        &mut self.orderbook
    }
}

/// Cancels resting orders on one book.
pub struct CancelOrderUseCase {
    orderbook: TickBasedOrderBook,
    check_authorization: bool,
}

impl CancelOrderUseCase {
    /// The book this use case drives.
    pub closed spec fn spec_orderbook(&self) -> TickBasedOrderBook {
        self.orderbook
    }

    /// The use case is usable while its book satisfies the book invariant.
    pub closed spec fn wf(&self) -> bool {
        self.orderbook.inv()
    }

    /// Builds the use case; ownership checks are off by default because the
    /// book does not track order ownership.
    pub fn new(orderbook: TickBasedOrderBook) -> (r: CancelOrderUseCase)
        requires
            orderbook.inv(),
        ensures
            r.wf(),
            r.spec_orderbook() == orderbook,
    {
        CancelOrderUseCase { orderbook, check_authorization: false }
    }

    /// Builds the use case with ownership checking requested.
    pub fn with_authorization(orderbook: TickBasedOrderBook) -> (r: CancelOrderUseCase)
        requires
            orderbook.inv(),
        ensures
            r.wf(),
            r.spec_orderbook() == orderbook,
    {
        CancelOrderUseCase { orderbook, check_authorization: true }
    }

    /// Cancels the order: reports success exactly when the id was resting,
    /// and a failed result (not an error) when it was stale.
    pub fn execute(&mut self, request: CancelOrderRequest) -> (r: Result<
        CancelOrderResult,
        CancelOrderError,
    >)
        requires
            old(self).wf(),
        ensures
            final(self).wf(),
            match r {
                Ok(res) => {
                    &&& res.order_id == request.order_id
                    &&& (res.success <==> old(self).spec_orderbook().location_ids().contains(
                        request.order_id,
                    ))
                    &&& (res.success <==> res.error is None)
                    &&& final(self).spec_orderbook().location_ids() =~= old(
                        self,
                    ).spec_orderbook().location_ids().remove(request.order_id)
                    &&& (!res.success ==> final(self).spec_orderbook() == old(
                        self,
                    ).spec_orderbook())
                },
                Err(_) => false,
            },
    {
        match self.orderbook.cancel_order(request.order_id) {
            Ok(()) => Ok(
                CancelOrderResult { success: true, error: None, order_id: request.order_id },
            ),
            Err(e) => Ok(
                CancelOrderResult { success: false, error: Some(e), order_id: request.order_id },
            ),
        }
    }

    /// The underlying book, for inspection.
    pub fn orderbook(&self) -> (r: &TickBasedOrderBook)
        ensures
            *r == self.spec_orderbook(),
    {
        &self.orderbook
    }

    /// The underlying book, for direct manipulation.
    pub fn orderbook_mut(&mut self) -> (r: &mut TickBasedOrderBook)
        ensures
            *r == old(self).spec_orderbook(),
            final(self).spec_orderbook() == *final(r),
    {
        &mut self.orderbook
    }
}

} // verus!
