//! Stateless pre-match validation of incoming orders against configured
//! price, quantity and symbol rules.

use crate::protocol::NewOrderRequest;
use vstd::prelude::*;

verus! {

/// Rule violated by a rejected order, carrying the offending value.
#[derive(Debug, Clone, PartialEq)]
pub enum ValidationError {
    /// Price of zero.
    InvalidPrice(u64),
    /// Quantity of zero.
    InvalidQuantity(u64),
    /// Empty symbol, or one outside the configured allow-list.
    InvalidSymbol(String),
    /// Price below the configured minimum or above the maximum.
    PriceOutOfRange(u64),
    /// Quantity below the configured minimum or above the maximum.
    QuantityOutOfRange(u64),
}

/// Bounds and allow-list an order must satisfy before it reaches a book.
#[derive(Debug, Clone)]
pub struct ValidationConfig {
    /// Minimum price (inclusive).
    pub min_price: u64,
    /// Maximum price (inclusive).
    pub max_price: u64,
    /// Minimum quantity (inclusive).
    pub min_quantity: u64,
    /// Maximum quantity (inclusive).
    pub max_quantity: u64,
    /// Allowed symbols; empty means every symbol is allowed.
    pub allowed_symbols: Vec<String>,
}

impl Default for ValidationConfig {
    /// Permissive defaults: any positive price, quantities up to a million.
    fn default() -> (r: Self)
        ensures
            r.min_price == 1,
            r.max_price == u64::MAX,
            r.min_quantity == 1,
            r.max_quantity == 1_000_000,
            r.allowed_symbols@.len() == 0,
    {
        ValidationConfig {
            min_price: 1,
            max_price: u64::MAX,
            min_quantity: 1,
            max_quantity: 1_000_000,
            allowed_symbols: Vec::new(),
        }
    }
}

/// The price passes every price rule of `c`.
pub open spec fn price_admissible(c: ValidationConfig, price: u64) -> bool {
    price != 0 && c.min_price <= price && price <= c.max_price
}

/// The quantity passes every quantity rule of `c`.
pub open spec fn quantity_admissible(c: ValidationConfig, quantity: u64) -> bool {
    quantity != 0 && c.min_quantity <= quantity && quantity <= c.max_quantity
}

/// The symbol is named by the allow-list, or the list is empty.
pub open spec fn symbol_listed(c: ValidationConfig, s: Seq<char>) -> bool {
    c.allowed_symbols@.len() == 0 || exists|i: int|
        0 <= i < c.allowed_symbols@.len() && c.allowed_symbols@[i]@ == s
}

/// The symbol is non-empty and listed.
pub open spec fn symbol_admissible(c: ValidationConfig, s: Seq<char>) -> bool {
    s.len() > 0 && symbol_listed(c, s)
}

/// The whole order passes validation under `c`.
pub open spec fn order_admissible(c: ValidationConfig, r: NewOrderRequest) -> bool {
    price_admissible(c, r.price) && quantity_admissible(c, r.quantity) && symbol_admissible(
        c,
        r.symbol@,
    )
}

/// The error reported for an inadmissible order: rules are checked in the
/// order price, quantity, symbol, and the first violation wins.
pub open spec fn first_violation(c: ValidationConfig, r: NewOrderRequest) -> ValidationError
    recommends
        !order_admissible(c, r),
{
    if r.price == 0 {
        ValidationError::InvalidPrice(r.price)
    } else if r.price < c.min_price || r.price > c.max_price {
        ValidationError::PriceOutOfRange(r.price)
    } else if r.quantity == 0 {
        ValidationError::InvalidQuantity(r.quantity)
    } else if r.quantity < c.min_quantity || r.quantity > c.max_quantity {
        ValidationError::QuantityOutOfRange(r.quantity)
    } else {
        ValidationError::InvalidSymbol(r.symbol)
    }
}

/// Checks orders against one fixed [`ValidationConfig`].
pub struct OrderValidator {
    config: ValidationConfig,
}

impl OrderValidator {
    /// The configuration this validator applies.
    pub closed spec fn spec_config(&self) -> ValidationConfig {
        self.config
    }

    /// Validator with the default configuration.
    pub fn new() -> (r: OrderValidator)
        ensures
            r.spec_config().min_price == 1,
            r.spec_config().max_price == u64::MAX,
            r.spec_config().min_quantity == 1,
            r.spec_config().max_quantity == 1_000_000,
            r.spec_config().allowed_symbols@.len() == 0,
    {
        OrderValidator { config: Default::default() }
    }

    /// Validator with the given configuration.
    pub fn with_config(config: ValidationConfig) -> (r: OrderValidator)
        ensures
            r.spec_config() == config,
    {
        OrderValidator { config }
    }

    /// Accepts exactly the admissible orders; a rejection names the first
    /// violated rule.
    pub fn validate(&self, request: &NewOrderRequest) -> (r: Result<(), ValidationError>)
        ensures
            match r {
                Ok(()) => order_admissible(self.spec_config(), *request),
                Err(e) => !order_admissible(self.spec_config(), *request) && e == first_violation(
                    self.spec_config(),
                    *request,
                ),
            },
    {
        match self.validate_price(request.price) {
            Ok(()) => (),
            Err(e) => {
                return Err(e);
            },
        }
        match self.validate_quantity(request.quantity) {
            Ok(()) => (),
            Err(e) => {
                return Err(e);
            },
        }
        match self.validate_symbol(&request.symbol) {
            Ok(()) => (),
            Err(e) => {
                return Err(e);
            },
        }
        Ok(())
    }

    /// Price rules: non-zero and inside the configured bounds.
    fn validate_price(&self, price: u64) -> (r: Result<(), ValidationError>)
        ensures
            match r {
                Ok(()) => price_admissible(self.spec_config(), price),
                Err(e) => !price_admissible(self.spec_config(), price) && e == (if price == 0 {
                    ValidationError::InvalidPrice(price)
                } else {
                    ValidationError::PriceOutOfRange(price)
                }),
            },
    {
        if price == 0 {
            return Err(ValidationError::InvalidPrice(price));
        }
        if price < self.config.min_price {
            return Err(ValidationError::PriceOutOfRange(price));
        }
        if price > self.config.max_price {
            return Err(ValidationError::PriceOutOfRange(price));
        }
        Ok(())
    }

    /// Quantity rules: non-zero and inside the configured bounds.
    fn validate_quantity(&self, quantity: u64) -> (r: Result<(), ValidationError>)
        ensures
            match r {
                Ok(()) => quantity_admissible(self.spec_config(), quantity),
                Err(e) => !quantity_admissible(self.spec_config(), quantity) && e == (if quantity
                    == 0 {
                    ValidationError::InvalidQuantity(quantity)
                } else {
                    ValidationError::QuantityOutOfRange(quantity)
                }),
            },
    {
        if quantity == 0 {
            return Err(ValidationError::InvalidQuantity(quantity));
        }
        if quantity < self.config.min_quantity {
            return Err(ValidationError::QuantityOutOfRange(quantity));
        }
        if quantity > self.config.max_quantity {
            return Err(ValidationError::QuantityOutOfRange(quantity));
        }
        Ok(())
    }

    /// Symbol rules: non-empty, and on the allow-list when one is configured.
    fn validate_symbol(&self, symbol: &String) -> (r: Result<(), ValidationError>)
        ensures
            match r {
                Ok(()) => symbol_admissible(self.spec_config(), symbol@),
                Err(e) => !symbol_admissible(self.spec_config(), symbol@) && e
                    == ValidationError::InvalidSymbol(*symbol),
            },
    {
        if symbol.as_str().is_empty() {
            return Err(ValidationError::InvalidSymbol(symbol.clone()));
        }
        let n = self.config.allowed_symbols.len();
        if n == 0 {
            return Ok(());
        }
        let mut i: usize = 0;
        while i < n
            invariant
                n == self.config.allowed_symbols@.len(),
                i <= n,
                symbol@.len() > 0,
                forall|j: int| 0 <= j < i ==> self.config.allowed_symbols@[j]@ != symbol@,
            decreases n - i,
        {
            if self.config.allowed_symbols[i].eq(symbol) {
                proof {
                    assert(symbol_listed(self.spec_config(), symbol@)) by {
                        assert(self.config.allowed_symbols@[i as int]@ == symbol@);
                    }
                }
                return Ok(());
            }
            i = i + 1;
        }
        Err(ValidationError::InvalidSymbol(symbol.clone()))
    }
}

impl Default for OrderValidator {
    /// Same as [`OrderValidator::new`].
    fn default() -> (r: Self)
        ensures
            r.spec_config().min_price == 1,
            r.spec_config().max_price == u64::MAX,
            r.spec_config().min_quantity == 1,
            r.spec_config().max_quantity == 1_000_000,
            r.spec_config().allowed_symbols@.len() == 0,
    {
        OrderValidator::new()
    }
}

} // verus!
