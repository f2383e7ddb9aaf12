use matching_engine::{
    CancelOrderRequest, CancelOrderUseCase, ContractSpec, MatchOrderError, MatchOrderUseCase,
    NewOrderRequest, OrderType, OrderValidator, TickBasedOrderBook,
};

fn spec_1000_2000() -> ContractSpec {
    ContractSpec::new("TEST", 10, 1000, 2000)
}

fn order(user_id: u64, order_type: OrderType, price: u64, quantity: u64) -> NewOrderRequest {
    NewOrderRequest {
        user_id,
        symbol: String::from("TEST"),
        order_type,
        price,
        quantity,
    }
}

#[test]
fn tick_based_test_price_to_index() {
    let spec = spec_1000_2000();
    let book = TickBasedOrderBook::new(spec);

    assert_eq!(book.price_to_index(1000), Some(0));
    assert_eq!(book.price_to_index(1010), Some(1));
    assert_eq!(book.price_to_index(2000), Some(100));
    assert_eq!(book.price_to_index(999), None);
    assert_eq!(book.price_to_index(1005), None);
}

#[test]
fn tick_based_test_basic_matching() {
    let spec = spec_1000_2000();
    let mut book = TickBasedOrderBook::new(spec);

    let sell = order(1, OrderType::Sell, 1500, 100);
    let (trades, conf) = book.match_order(sell);
    assert_eq!(trades.len(), 0);
    assert!(conf.is_some());
    assert_eq!(book.best_ask(), Some(1500));

    let buy = order(2, OrderType::Buy, 1500, 100);
    let (trades, conf) = book.match_order(buy);
    let trades = trades.into_vec();
    assert_eq!(trades.len(), 1);
    assert_eq!(trades[0].matched_quantity, 100);
    assert_eq!(trades[0].matched_price, 1500);
    assert!(conf.is_none());
    assert_eq!(book.best_ask(), None);
}

#[test]
fn tick_based_test_spread() {
    let spec = spec_1000_2000();
    let mut book = TickBasedOrderBook::new(spec);

    book.match_order(order(1, OrderType::Buy, 1490, 100));
    book.match_order(order(2, OrderType::Sell, 1510, 100));

    assert_eq!(book.best_bid(), Some(1490));
    assert_eq!(book.best_ask(), Some(1510));
    assert_eq!(book.spread_ticks(), Some(2));
}

#[test]
fn test_cancel_order_cleans_locations() {
    let spec = spec_1000_2000();
    let mut book = TickBasedOrderBook::new(spec);

    let (trades, conf) = book.match_order(order(1, OrderType::Buy, 1500, 100));
    assert_eq!(trades.len(), 0, "Should have no trades");
    assert!(conf.is_some(), "Should have confirmation for pending order");

    let order_id = conf.unwrap().order_id;

    book.cancel_order(order_id).unwrap();

    // A second cancel of the same id finds nothing: the entry is gone.
    assert!(book.cancel_order(order_id).is_err());
}

#[test]
fn test_cancel_then_match_cleanup() {
    let spec = spec_1000_2000();
    let mut book = TickBasedOrderBook::new(spec);

    let mut order_ids = Vec::new();
    for i in 1..=3 {
        let (trades, conf) = book.match_order(order(i, OrderType::Sell, 1500, 50));
        assert_eq!(trades.len(), 0, "Should have no trades initially");
        assert!(conf.is_some(), "Should have confirmation for pending order");
        order_ids.push(conf.unwrap().order_id);
    }

    book.cancel_order(order_ids[1]).unwrap();
    assert!(book.cancel_order(order_ids[1]).is_err(), "Cancelled order should be gone");

    // Matches the two remaining sells exactly (2 x 50 = 100).
    let (trades, conf) = book.match_order(order(100, OrderType::Buy, 1500, 100));
    let trades = trades.into_vec();

    assert!(conf.is_none(), "Buy order should be fully matched with no remainder");
    assert_eq!(trades.len(), 2, "Should have 2 trades (orders 1 and 3)");
    assert_eq!(trades[0].matched_quantity, 50);
    assert_eq!(trades[1].matched_quantity, 50);
    assert_eq!(trades[0].seller_order_id, order_ids[0]);
    assert_eq!(trades[1].seller_order_id, order_ids[2]);

    // No id survives: the book is empty again.
    for &id in &order_ids {
        assert!(book.cancel_order(id).is_err());
    }
    assert_eq!(book.best_ask(), None);
    assert_eq!(book.best_bid(), None);
}

#[test]
fn test_cancel_nonexistent_order() {
    let spec = spec_1000_2000();
    let mut book = TickBasedOrderBook::new(spec);

    let result = book.cancel_order(999);
    assert!(result.is_err());
    assert!(result.unwrap_err().contains("not found"));
}

#[test]
fn test_resting_bid_then_full_cross() {
    let spec = spec_1000_2000();
    let mut book = TickBasedOrderBook::new(spec);

    let (trades, conf) = book.match_order(order(1, OrderType::Buy, 1500, 100));
    assert_eq!(trades.len(), 0);
    let conf = conf.unwrap();
    assert_eq!(conf.order_id, 1);
    assert_eq!(conf.user_id, 1);
    assert_eq!(book.best_bid(), Some(1500));
    assert_eq!(book.best_ask(), None);

    let (trades, conf) = book.match_order(order(2, OrderType::Sell, 1500, 100));
    let trades = trades.into_vec();
    assert_eq!(trades.len(), 1);
    assert_eq!(trades[0].matched_price, 1500);
    assert_eq!(trades[0].matched_quantity, 100);
    assert_eq!(trades[0].buyer_user_id, 1);
    assert_eq!(trades[0].buyer_order_id, 1);
    assert_eq!(trades[0].seller_user_id, 2);
    assert_eq!(trades[0].seller_order_id, 2);
    assert!(conf.is_none());
    assert_eq!(book.best_bid(), None);
    assert_eq!(book.best_ask(), None);
}

#[test]
fn test_fifo_at_one_price() {
    let spec = spec_1000_2000();
    let mut book = TickBasedOrderBook::new(spec);

    for user in 1..=3 {
        let (_, conf) = book.match_order(order(user, OrderType::Sell, 1500, 50));
        assert_eq!(conf.unwrap().order_id, user);
    }

    let (trades, conf) = book.match_order(order(9, OrderType::Buy, 1500, 120));
    let trades = trades.into_vec();
    assert_eq!(trades.len(), 3);
    assert_eq!(trades[0].seller_order_id, 1);
    assert_eq!(trades[0].matched_quantity, 50);
    assert_eq!(trades[1].seller_order_id, 2);
    assert_eq!(trades[1].matched_quantity, 50);
    assert_eq!(trades[2].seller_order_id, 3);
    assert_eq!(trades[2].matched_quantity, 20);
    assert!(conf.is_none());
    assert_eq!(book.best_ask(), Some(1500));
}

#[test]
fn test_walk_multiple_ask_levels() {
    let spec = spec_1000_2000();
    let mut book = TickBasedOrderBook::new(spec);

    book.match_order(order(1, OrderType::Sell, 1510, 10));
    book.match_order(order(2, OrderType::Sell, 1520, 10));
    book.match_order(order(3, OrderType::Sell, 1530, 10));

    let (trades, conf) = book.match_order(order(9, OrderType::Buy, 1530, 25));
    let trades = trades.into_vec();
    assert_eq!(trades.len(), 3);
    assert_eq!(trades[0].matched_price, 1510);
    assert_eq!(trades[0].matched_quantity, 10);
    assert_eq!(trades[1].matched_price, 1520);
    assert_eq!(trades[1].matched_quantity, 10);
    assert_eq!(trades[2].matched_price, 1530);
    assert_eq!(trades[2].matched_quantity, 5);
    assert!(conf.is_none());
    assert_eq!(book.best_ask(), Some(1530));
}

#[test]
fn test_invalid_price_off_tick() {
    let spec = spec_1000_2000();
    let mut book = TickBasedOrderBook::new(spec);

    let (trades, conf) = book.match_order(order(1, OrderType::Buy, 1505, 10));
    assert_eq!(trades.len(), 0);
    assert!(conf.is_none());
    assert_eq!(book.best_bid(), None);
    assert_eq!(book.best_ask(), None);
}

#[test]
fn test_price_range_boundaries() {
    let spec = spec_1000_2000();
    let mut book = TickBasedOrderBook::new(spec);

    let (_, conf) = book.match_order(order(1, OrderType::Buy, 1000, 10));
    assert!(conf.is_some(), "min_price is valid");
    let (_, conf) = book.match_order(order(2, OrderType::Sell, 2000, 10));
    assert!(conf.is_some(), "max_price is valid");

    let (trades, conf) = book.match_order(order(3, OrderType::Buy, 990, 10));
    assert_eq!(trades.len(), 0);
    assert!(conf.is_none(), "min_price - tick is rejected");
    let (trades, conf) = book.match_order(order(4, OrderType::Sell, 2010, 10));
    assert_eq!(trades.len(), 0);
    assert!(conf.is_none(), "max_price + tick is rejected");
}

#[test]
fn test_single_order_full_match_empties_level() {
    let spec = spec_1000_2000();
    let mut book = TickBasedOrderBook::new(spec);

    book.match_order(order(1, OrderType::Sell, 1500, 40));
    assert_eq!(book.best_ask(), Some(1500));

    let (trades, conf) = book.match_order(order(2, OrderType::Buy, 1500, 40));
    assert_eq!(trades.len(), 1);
    assert!(conf.is_none());
    assert_eq!(book.best_ask(), None, "level slot returns to none");
}

#[test]
fn test_quantity_conserved_across_match() {
    let spec = spec_1000_2000();
    let mut book = TickBasedOrderBook::new(spec);

    book.match_order(order(1, OrderType::Sell, 1500, 30));
    book.match_order(order(2, OrderType::Sell, 1510, 30));

    // 75 requested: 30 + 30 matched, 15 rest.
    let (trades, conf) = book.match_order(order(9, OrderType::Buy, 1520, 75));
    let trades = trades.into_vec();
    let matched: u64 = trades.iter().map(|t| t.matched_quantity).sum();
    assert_eq!(matched, 60);
    assert!(conf.is_some());
    assert_eq!(book.best_bid(), Some(1520));

    // The 15 left over rest and come back out when sold into.
    let (trades, _) = book.match_order(order(10, OrderType::Sell, 1520, 15));
    let trades = trades.into_vec();
    assert_eq!(trades.len(), 1);
    assert_eq!(trades[0].matched_quantity, 15);
    assert_eq!(matched + trades[0].matched_quantity, 75);
}

#[test]
fn test_submit_then_cancel_all_leaves_empty_book() {
    let spec = spec_1000_2000();
    let mut book = TickBasedOrderBook::new(spec);

    let mut ids = Vec::new();
    for user in 1..=4 {
        let (_, conf) = book.match_order(order(user, OrderType::Buy, 1400 + user * 10, 10));
        ids.push(conf.unwrap().order_id);
    }
    let (_, sell_conf) = book.match_order(order(9, OrderType::Sell, 1600, 10));
    ids.push(sell_conf.unwrap().order_id);

    // Cancel in an arbitrary order (not submission order).
    for &id in &[ids[2], ids[0], ids[4], ids[3], ids[1]] {
        assert!(book.cancel_order(id).is_ok());
    }

    assert_eq!(book.best_bid(), None);
    assert_eq!(book.best_ask(), None);
    assert_eq!(book.spread_ticks(), None);
}

#[test]
fn test_match_order_use_case_creation() {
    let spec = ContractSpec::new("BTC/USD", 1, 10000, 100000);
    let orderbook = TickBasedOrderBook::new(spec);
    let validator = OrderValidator::new();

    let _use_case = MatchOrderUseCase::new(orderbook, validator);
}

#[test]
fn test_match_order_validation_failure() {
    let spec = ContractSpec::new("BTC/USD", 1, 10000, 100000);
    let orderbook = TickBasedOrderBook::new(spec);
    let validator = OrderValidator::new();

    let mut use_case = MatchOrderUseCase::new(orderbook, validator);

    let invalid_order = NewOrderRequest {
        user_id: 1,
        symbol: String::from("BTC/USD"),
        order_type: OrderType::Buy,
        price: 0,
        quantity: 10,
    };

    let result = use_case.execute(invalid_order);
    assert!(result.is_err());
    assert!(matches!(result.unwrap_err(), MatchOrderError::ValidationFailed(_)));
}

#[test]
fn test_match_order_success() {
    let spec = ContractSpec::new("BTC/USD", 1, 10000, 100000);
    let orderbook = TickBasedOrderBook::new(spec);
    let validator = OrderValidator::new();

    let mut use_case = MatchOrderUseCase::new(orderbook, validator);

    let order = NewOrderRequest {
        user_id: 1,
        symbol: String::from("BTC/USD"),
        order_type: OrderType::Buy,
        price: 50000,
        quantity: 10,
    };

    let result = use_case.execute(order);
    assert!(result.is_ok());

    let match_result = result.unwrap();
    assert_eq!(match_result.trades.len(), 0);
    assert!(match_result.confirmation.is_some());
}

#[test]
fn test_cancel_order_use_case_creation() {
    let spec = ContractSpec::new("BTC/USD", 1, 10000, 100000);
    let orderbook = TickBasedOrderBook::new(spec);

    let _use_case = CancelOrderUseCase::new(orderbook);
}

#[test]
fn test_cancel_order_not_implemented() {
    let spec = ContractSpec::new("BTC/USD", 1, 10000, 100000);
    let orderbook = TickBasedOrderBook::new(spec);

    let mut use_case = CancelOrderUseCase::new(orderbook);

    let cancel_request = CancelOrderRequest {
        order_id: 123,
        user_id: 1,
    };

    let result = use_case.execute(cancel_request);
    assert!(result.is_ok());

    let cancel_result = result.unwrap();
    assert!(!cancel_result.success);
    assert!(cancel_result.error.is_some());
    assert_eq!(cancel_result.order_id, 123);
}
