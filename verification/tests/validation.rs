use matching_engine::{NewOrderRequest, OrderType, OrderValidator, ValidationConfig, ValidationError};

fn create_valid_order() -> NewOrderRequest {
    NewOrderRequest {
        user_id: 1,
        symbol: String::from("BTC/USD"),
        order_type: OrderType::Buy,
        price: 50000,
        quantity: 10,
    }
}

#[test]
fn test_valid_order() {
    let validator = OrderValidator::new();
    let order = create_valid_order();
    assert!(validator.validate(&order).is_ok());
}

#[test]
fn test_zero_price() {
    let validator = OrderValidator::new();
    let mut order = create_valid_order();
    order.price = 0;

    let result = validator.validate(&order);
    assert!(result.is_err());
    assert!(matches!(result.unwrap_err(), ValidationError::InvalidPrice(_)));
}

#[test]
fn test_zero_quantity() {
    let validator = OrderValidator::new();
    let mut order = create_valid_order();
    order.quantity = 0;

    let result = validator.validate(&order);
    assert!(result.is_err());
    assert!(matches!(result.unwrap_err(), ValidationError::InvalidQuantity(_)));
}

#[test]
fn test_empty_symbol() {
    let validator = OrderValidator::new();
    let mut order = create_valid_order();
    order.symbol = String::new();

    let result = validator.validate(&order);
    assert!(result.is_err());
    assert!(matches!(result.unwrap_err(), ValidationError::InvalidSymbol(_)));
}

#[test]
fn test_price_out_of_range() {
    let config = ValidationConfig {
        min_price: 100,
        max_price: 100000,
        ..Default::default()
    };
    let validator = OrderValidator::with_config(config);

    let mut order = create_valid_order();
    order.price = 50;
    assert!(matches!(
        validator.validate(&order).unwrap_err(),
        ValidationError::PriceOutOfRange(_)
    ));

    order.price = 200000;
    assert!(matches!(
        validator.validate(&order).unwrap_err(),
        ValidationError::PriceOutOfRange(_)
    ));
}

#[test]
fn test_quantity_out_of_range() {
    let config = ValidationConfig {
        min_quantity: 1,
        max_quantity: 1000,
        ..Default::default()
    };
    let validator = OrderValidator::with_config(config);

    let mut order = create_valid_order();
    order.quantity = 2000;
    assert!(matches!(
        validator.validate(&order).unwrap_err(),
        ValidationError::QuantityOutOfRange(_)
    ));
}

#[test]
fn test_allowed_symbols() {
    let config = ValidationConfig {
        allowed_symbols: vec![String::from("BTC/USD"), String::from("ETH/USD")],
        ..Default::default()
    };
    let validator = OrderValidator::with_config(config);

    let order = create_valid_order();
    assert!(validator.validate(&order).is_ok());

    let mut order = create_valid_order();
    order.symbol = String::from("XRP/USD");
    assert!(matches!(
        validator.validate(&order).unwrap_err(),
        ValidationError::InvalidSymbol(_)
    ));
}

#[test]
fn test_quantity_one_is_valid() {
    let validator = OrderValidator::new();
    let mut order = create_valid_order();
    order.quantity = 1;
    assert!(validator.validate(&order).is_ok());
}
