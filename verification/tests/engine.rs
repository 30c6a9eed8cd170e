use clob::{current_timestamp, MatchingEngine, Order, Price, Side, PRICE_ONE};

fn price(p: f64) -> Price {
    Price((p * PRICE_ONE as f64).round() as u64)
}

fn create_test_order(id: u64, user: &str, side: Side, limit: f64, qty: f64) -> Order {
    Order {
        id,
        user: user.to_string(),
        side,
        price: price(limit),
        qty: qty as u64,
        timestamp: current_timestamp(),
    }
}

#[test]
fn test_matching_engine_creation() {
    let engine = MatchingEngine::new();
    assert!(engine.order_books.is_empty());
}

#[test]
fn test_create_market() {
    let mut engine = MatchingEngine::new();
    engine.create_market("test_market");

    assert!(engine.order_books.contains_key("test_market_YES"));
    assert!(engine.order_books.contains_key("test_market_NO"));
}

#[test]
fn test_place_order_through_engine() {
    let mut engine = MatchingEngine::new();
    engine.create_market("test_market");

    let order = create_test_order(1, "alice", Side::Buy, 0.6, 100.0);
    let trades = engine.place_order("test_market_YES", order).unwrap();

    assert_eq!(trades.len(), 0);

    let (best_bid, _) = engine.get_top_of_book("test_market_YES").unwrap();
    assert_eq!(best_bid, price(0.6));
}

#[test]
fn test_binary_markets_separate() {
    let mut engine = MatchingEngine::new();
    engine.create_market("test_market");

    assert!(engine.order_books.contains_key("test_market_YES"));
    assert!(engine.order_books.contains_key("test_market_NO"));

    let yes_buy_order = create_test_order(1, "alice", Side::Buy, 0.6, 100.0);
    let yes_trades = engine.place_yes_order("test_market", yes_buy_order);
    assert_eq!(yes_trades.len(), 0);

    let no_sell_order = create_test_order(2, "bob", Side::Sell, 0.4, 100.0);
    let no_trades = engine.place_no_order("test_market", no_sell_order);
    assert_eq!(no_trades.len(), 0);

    let (yes_bid, yes_ask) = engine.get_yes_top_of_book("test_market");
    let (no_bid, no_ask) = engine.get_no_top_of_book("test_market");

    assert_eq!(yes_bid, price(0.6));
    assert_eq!(yes_ask, price(1.0));
    assert_eq!(no_bid, price(0.0));
    assert_eq!(no_ask, price(0.4));
}

#[test]
fn test_arbitrage_relationship() {
    let mut engine = MatchingEngine::new();
    engine.create_market("test_market");

    let yes_buy = create_test_order(1, "alice", Side::Buy, 0.6, 100.0);
    let no_buy = create_test_order(2, "bob", Side::Buy, 0.3, 100.0);

    engine.place_yes_order("test_market", yes_buy);
    engine.place_no_order("test_market", no_buy);

    let yes_sell = create_test_order(3, "charlie", Side::Sell, 0.6, 100.0);
    let no_sell = create_test_order(4, "dave", Side::Sell, 0.3, 100.0);

    let yes_trades = engine.place_yes_order("test_market", yes_sell);
    let no_trades = engine.place_no_order("test_market", no_sell);

    assert_eq!(yes_trades.len(), 1);
    assert_eq!(no_trades.len(), 1);

    let (yes_bid, _) = engine.get_yes_top_of_book("test_market");
    let (no_bid, _) = engine.get_no_top_of_book("test_market");

    assert_eq!(yes_bid, price(0.0));
    assert_eq!(no_bid, price(0.0));
}
