use clob::{
    current_timestamp, EngineError, MatchingEngine, Order, OrderBook, Price, Side, Trade,
    PRICE_ONE,
};

fn price(p: f64) -> Price {
    Price((p * PRICE_ONE as f64).round() as u64)
}

fn order(id: u64, user: &str, side: Side, limit: f64, qty: u64) -> Order {
    Order { id, user: user.to_string(), side, price: price(limit), qty, timestamp: 7 }
}

fn queue_ids(book: &OrderBook, side: Side, limit: f64) -> Vec<u64> {
    let ledger = match side {
        Side::Buy => &book.bids,
        Side::Sell => &book.asks,
    };
    match ledger.get(&price(limit)) {
        Some(queue) => queue.iter().map(|o| o.id).collect(),
        None => Vec::new(),
    }
}

fn crossed(book: &OrderBook) -> bool {
    let (bid, ask) = book.get_top_of_book();
    !book.bids.is_empty() && !book.asks.is_empty() && bid >= ask
}

fn total(trades: &[Trade]) -> u64 {
    trades.iter().map(|t| t.qty).sum()
}

#[test]
fn price_units() {
    assert_eq!(PRICE_ONE, 1_000_000);
    assert_eq!(Price::zero(), Price(0));
    assert_eq!(Price::one(), Price(1_000_000));
    assert_eq!(price(0.6), Price(600_000));
    assert!(Price(1) < Price(2));
}

#[test]
fn crossing_sell_fills_resting_buy_at_ask_price() {
    let mut book = OrderBook::new("m", true);
    book.add_order(order(1, "alice", Side::Buy, 0.60, 100));
    book.add_order(order(2, "bob", Side::Sell, 0.50, 100));
    let trades = book.match_orders();
    assert_eq!(trades.len(), 1);
    assert_eq!(trades[0].qty, 100);
    assert_eq!(trades[0].price, Price(500_000));
    assert_eq!(trades[0].buyer, "alice");
    assert_eq!(trades[0].seller, "bob");
    assert_eq!(trades[0].market_id, "m");
    assert!(book.bids.is_empty());
    assert!(book.asks.is_empty());
}

#[test]
fn partial_fill_leaves_the_rest_resting() {
    let mut book = OrderBook::new("m", true);
    book.add_order(order(1, "alice", Side::Buy, 0.60, 100));
    book.add_order(order(2, "bob", Side::Sell, 0.50, 60));
    let trades = book.match_orders();
    assert_eq!(trades.len(), 1);
    assert_eq!(trades[0].qty, 60);
    assert_eq!(trades[0].price, Price(500_000));
    assert_eq!(book.bids.get(&price(0.60)).unwrap()[0].qty, 40);
    assert_eq!(book.bids.get(&price(0.60)).unwrap()[0].id, 1);
    assert!(book.asks.is_empty());
}

#[test]
fn aggressive_buy_pays_the_resting_ask() {
    let mut book = OrderBook::new("m", true);
    book.add_order(order(1, "alice", Side::Sell, 0.70, 100));
    book.add_order(order(2, "bob", Side::Buy, 0.80, 100));
    let trades = book.match_orders();
    assert_eq!(trades.len(), 1);
    assert_eq!(trades[0].qty, 100);
    assert_eq!(trades[0].price, Price(700_000));
    assert!(book.bids.is_empty());
    assert!(book.asks.is_empty());
}

#[test]
fn sell_sweeps_two_bid_levels() {
    let mut book = OrderBook::new("m", true);
    book.add_order(order(1, "alice", Side::Buy, 0.60, 100));
    book.add_order(order(2, "bob", Side::Buy, 0.50, 50));
    book.add_order(order(3, "carol", Side::Sell, 0.40, 120));
    let trades = book.match_orders();
    assert_eq!(trades.len(), 2);
    assert_eq!((trades[0].qty, trades[0].price), (100, Price(400_000)));
    assert_eq!(trades[0].buyer, "alice");
    assert_eq!((trades[1].qty, trades[1].price), (20, Price(400_000)));
    assert_eq!(trades[1].buyer, "bob");
    assert_eq!(total(&trades), 120);
    assert_eq!(book.bids.len(), 1);
    assert_eq!(book.bids.get(&price(0.50)).unwrap()[0].qty, 30);
    assert!(book.asks.is_empty());
}

#[test]
fn fresh_book_reports_defaults() {
    let book = OrderBook::new("m", false);
    assert_eq!(book.get_top_of_book(), (Price(0), Price(1_000_000)));
    assert!(!book.yes);
    assert!(!book.is_crossed());
    let (bids, asks) = book.get_order_book_depth(5);
    assert!(bids.is_empty());
    assert!(asks.is_empty());
}

#[test]
fn no_match_when_prices_do_not_cross() {
    let mut book = OrderBook::new("m", true);
    book.add_order(order(1, "alice", Side::Buy, 0.40, 100));
    book.add_order(order(2, "bob", Side::Sell, 0.60, 100));
    assert!(!book.is_crossed());
    let trades = book.match_orders();
    assert_eq!(trades.len(), 0);
    assert_eq!(queue_ids(&book, Side::Buy, 0.40), vec![1]);
    assert_eq!(queue_ids(&book, Side::Sell, 0.60), vec![2]);
    assert_eq!(book.get_top_of_book(), (Price(400_000), Price(600_000)));
}

#[test]
fn equal_prices_cross() {
    let mut book = OrderBook::new("m", true);
    book.add_order(order(1, "alice", Side::Buy, 0.50, 10));
    book.add_order(order(2, "bob", Side::Sell, 0.50, 10));
    assert!(book.is_crossed());
    let trades = book.match_orders();
    assert_eq!(trades.len(), 1);
    assert_eq!(trades[0].price, Price(500_000));
}

#[test]
fn insert_does_not_match() {
    let mut book = OrderBook::new("m", true);
    book.add_order(order(1, "alice", Side::Buy, 0.60, 100));
    book.add_order(order(2, "bob", Side::Sell, 0.50, 100));
    assert!(book.is_crossed());
    assert_eq!(book.get_top_of_book(), (Price(600_000), Price(500_000)));
    assert_eq!(queue_ids(&book, Side::Buy, 0.60), vec![1]);
    assert_eq!(queue_ids(&book, Side::Sell, 0.50), vec![2]);
}

#[test]
fn never_crossed_after_matching() {
    let mut book = OrderBook::new("m", true);
    let orders = vec![
        order(1, "a", Side::Buy, 0.30, 10),
        order(2, "b", Side::Sell, 0.70, 10),
        order(3, "c", Side::Buy, 0.75, 4),
        order(4, "d", Side::Sell, 0.20, 25),
        order(5, "e", Side::Buy, 0.20, 9),
        order(6, "f", Side::Buy, 0.90, 100),
        order(7, "g", Side::Sell, 0.10, 1),
        order(8, "h", Side::Sell, 0.95, 3),
        order(9, "i", Side::Buy, 0.95, 3),
    ];
    for o in orders {
        book.add_order(o);
        book.match_orders();
        assert!(!crossed(&book));
        assert!(!book.is_crossed());
    }
}

#[test]
fn trades_never_exceed_open_quantity() {
    let mut book = OrderBook::new("m", true);
    book.add_order(order(1, "a", Side::Buy, 0.60, 30));
    book.add_order(order(2, "b", Side::Buy, 0.60, 30));
    book.add_order(order(3, "c", Side::Buy, 0.55, 30));
    book.add_order(order(4, "d", Side::Sell, 0.50, 70));
    let trades = book.match_orders();
    assert_eq!(trades.len(), 3);
    assert_eq!(trades.iter().map(|t| t.qty).collect::<Vec<u64>>(), vec![30, 30, 10]);
    assert_eq!(total(&trades), 70);
    let sold: u64 = trades.iter().filter(|t| t.seller == "d").map(|t| t.qty).sum();
    assert_eq!(sold, 70);
    assert_eq!(book.bids.get(&price(0.55)).unwrap()[0].qty, 20);
    assert!(book.asks.is_empty());
}

#[test]
fn earlier_bid_at_a_price_fills_first() {
    let mut book = OrderBook::new("m", true);
    book.add_order(order(1, "first", Side::Buy, 0.60, 100));
    book.add_order(order(2, "second", Side::Buy, 0.60, 100));
    book.add_order(order(3, "seller", Side::Sell, 0.60, 100));
    let trades = book.match_orders();
    assert_eq!(trades.len(), 1);
    assert_eq!(trades[0].buyer, "first");
    assert_eq!(queue_ids(&book, Side::Buy, 0.60), vec![2]);
    assert_eq!(book.bids.get(&price(0.60)).unwrap()[0].qty, 100);
}

#[test]
fn earlier_ask_at_a_price_fills_first() {
    let mut book = OrderBook::new("m", true);
    book.add_order(order(1, "first", Side::Sell, 0.40, 50));
    book.add_order(order(2, "second", Side::Sell, 0.40, 50));
    book.add_order(order(3, "buyer", Side::Buy, 0.45, 70));
    let trades = book.match_orders();
    assert_eq!(trades.len(), 2);
    assert_eq!((trades[0].seller.as_str(), trades[0].qty), ("first", 50));
    assert_eq!((trades[1].seller.as_str(), trades[1].qty), ("second", 20));
    assert_eq!(queue_ids(&book, Side::Sell, 0.40), vec![2]);
    assert_eq!(book.asks.get(&price(0.40)).unwrap()[0].qty, 30);
    assert!(book.bids.is_empty());
}

#[test]
fn best_price_fills_before_worse_price() {
    let mut book = OrderBook::new("m", true);
    book.add_order(order(1, "low", Side::Buy, 0.50, 10));
    book.add_order(order(2, "high", Side::Buy, 0.70, 10));
    book.add_order(order(3, "mid", Side::Buy, 0.60, 10));
    book.add_order(order(4, "seller", Side::Sell, 0.50, 25));
    let trades = book.match_orders();
    let buyers: Vec<&str> = trades.iter().map(|t| t.buyer.as_str()).collect();
    assert_eq!(buyers, vec!["high", "mid", "low"]);
    assert_eq!(trades[2].qty, 5);
    assert_eq!(book.bids.get(&price(0.50)).unwrap()[0].qty, 5);
}

#[test]
fn orders_queue_by_arrival_within_a_price() {
    let mut book = OrderBook::new("m", true);
    book.add_order(order(5, "a", Side::Sell, 0.70, 1));
    book.add_order(order(3, "b", Side::Sell, 0.80, 1));
    book.add_order(order(9, "c", Side::Sell, 0.70, 1));
    book.add_order(order(1, "d", Side::Sell, 0.60, 1));
    book.add_order(order(4, "e", Side::Sell, 0.70, 1));
    assert_eq!(book.asks.len(), 3);
    assert_eq!(queue_ids(&book, Side::Sell, 0.70), vec![5, 9, 4]);
    assert_eq!(queue_ids(&book, Side::Sell, 0.60), vec![1]);
    assert_eq!(queue_ids(&book, Side::Sell, 0.80), vec![3]);
    assert_eq!(book.asks.lowest_price(), Some(Price(600_000)));
    assert_eq!(book.asks.highest_price(), Some(Price(800_000)));
    assert_eq!(book.bids.lowest_price(), None);
    assert!(book.asks.get(&price(0.65)).is_none());
}

#[test]
fn zero_quantity_order_trades_nothing_and_leaves() {
    let mut book = OrderBook::new("m", true);
    book.add_order(order(1, "a", Side::Buy, 0.60, 0));
    book.add_order(order(2, "b", Side::Sell, 0.50, 10));
    let trades = book.match_orders();
    assert_eq!(trades.len(), 1);
    assert_eq!(trades[0].qty, 0);
    assert!(book.bids.is_empty());
    assert_eq!(book.asks.get(&price(0.50)).unwrap()[0].qty, 10);
}

#[test]
fn match_once_makes_one_execution_with_the_given_time() {
    let mut book = OrderBook::new("m", true);
    book.add_order(order(1, "a", Side::Buy, 0.60, 10));
    book.add_order(order(2, "b", Side::Buy, 0.55, 10));
    book.add_order(order(3, "s", Side::Sell, 0.50, 15));
    let first = book.match_once(42).unwrap();
    assert_eq!((first.qty, first.price, first.timestamp), (10, Price(500_000), 42));
    assert_eq!(first.buyer, "a");
    assert_eq!(book.asks.get(&price(0.50)).unwrap()[0].qty, 5);
    let second = book.match_once(43).unwrap();
    assert_eq!((second.qty, second.timestamp), (5, 43));
    assert_eq!(second.buyer, "b");
    assert!(book.match_once(44).is_none());
    assert_eq!(book.bids.get(&price(0.55)).unwrap()[0].qty, 5);
}

#[test]
fn trades_are_stamped_with_the_clock() {
    let before = current_timestamp();
    assert!(before > 1_500_000_000);
    let mut book = OrderBook::new("m", true);
    book.add_order(order(1, "a", Side::Buy, 0.60, 10));
    book.add_order(order(2, "b", Side::Sell, 0.50, 10));
    let trades = book.match_orders();
    let after = current_timestamp();
    assert!(before <= trades[0].timestamp && trades[0].timestamp <= after);
}

#[test]
fn cancel_removes_exactly_one_order() {
    let mut book = OrderBook::new("m", true);
    book.add_order(order(1, "a", Side::Buy, 0.60, 10));
    book.add_order(order(2, "b", Side::Buy, 0.60, 20));
    book.add_order(order(3, "c", Side::Buy, 0.60, 30));
    book.add_order(order(4, "d", Side::Buy, 0.50, 40));
    book.add_order(order(5, "e", Side::Sell, 0.70, 50));
    assert!(book.cancel_order(2));
    assert_eq!(queue_ids(&book, Side::Buy, 0.60), vec![1, 3]);
    assert_eq!(queue_ids(&book, Side::Buy, 0.50), vec![4]);
    assert_eq!(queue_ids(&book, Side::Sell, 0.70), vec![5]);
    assert_eq!(book.bids.get(&price(0.60)).unwrap()[1].qty, 30);
    assert!(book.cancel_order(5));
    assert!(book.asks.is_empty());
    assert_eq!(book.bids.len(), 2);
}

#[test]
fn cancel_of_unknown_id_changes_nothing() {
    let mut book = OrderBook::new("m", true);
    book.add_order(order(1, "a", Side::Buy, 0.60, 10));
    book.add_order(order(2, "b", Side::Sell, 0.70, 20));
    assert!(!book.cancel_order(3));
    assert_eq!(queue_ids(&book, Side::Buy, 0.60), vec![1]);
    assert_eq!(queue_ids(&book, Side::Sell, 0.70), vec![2]);
    assert!(book.cancel_order(1));
    assert!(!book.cancel_order(1));
}

#[test]
fn cancel_takes_one_order_even_where_an_id_rests_twice() {
    let mut book = OrderBook::new("m", true);
    book.add_order(order(7, "a", Side::Buy, 0.40, 10));
    book.add_order(order(7, "b", Side::Buy, 0.30, 10));
    book.add_order(order(7, "c", Side::Sell, 0.70, 10));
    assert!(book.cancel_order(7));
    assert_eq!(queue_ids(&book, Side::Buy, 0.40), vec![7]);
    assert_eq!(queue_ids(&book, Side::Buy, 0.30), Vec::<u64>::new());
    assert_eq!(queue_ids(&book, Side::Sell, 0.70), vec![7]);
    assert!(book.cancel_order(7));
    assert!(book.bids.is_empty());
    assert_eq!(queue_ids(&book, Side::Sell, 0.70), vec![7]);
    assert!(book.cancel_order(7));
    assert!(book.asks.is_empty());
    assert!(!book.cancel_order(7));
}

#[test]
fn depth_sums_each_level_best_first() {
    let mut book = OrderBook::new("m", true);
    book.add_order(order(1, "a", Side::Buy, 0.40, 10));
    book.add_order(order(2, "b", Side::Buy, 0.30, 5));
    book.add_order(order(3, "c", Side::Buy, 0.40, 7));
    book.add_order(order(4, "d", Side::Buy, 0.20, 1));
    book.add_order(order(5, "e", Side::Sell, 0.60, 3));
    book.add_order(order(6, "f", Side::Sell, 0.50, 4));
    book.add_order(order(7, "g", Side::Sell, 0.50, 6));
    let (bids, asks) = book.get_order_book_depth(2);
    assert_eq!(bids, vec![(Price(400_000), 17), (Price(300_000), 5)]);
    assert_eq!(asks, vec![(Price(500_000), 10), (Price(600_000), 3)]);
    let (bids, asks) = book.get_order_book_depth(10);
    assert_eq!(bids.len(), 3);
    assert_eq!(bids[2], (Price(200_000), 1));
    assert_eq!(asks.len(), 2);
    let (bids, asks) = book.get_order_book_depth(0);
    assert!(bids.is_empty() && asks.is_empty());
    assert_eq!(queue_ids(&book, Side::Buy, 0.40), vec![1, 3]);
}

#[test]
fn depth_does_not_overflow() {
    let mut book = OrderBook::new("m", true);
    book.add_order(order(1, "a", Side::Buy, 0.40, u64::MAX));
    book.add_order(order(2, "b", Side::Buy, 0.40, u64::MAX));
    let (bids, _) = book.get_order_book_depth(1);
    assert_eq!(bids, vec![(Price(400_000), 2 * (u64::MAX as u128))]);
}

#[test]
fn creating_a_market_twice_changes_nothing() {
    let mut engine = MatchingEngine::new();
    engine.create_market("m");
    engine.place_yes_order("m", order(1, "a", Side::Buy, 0.60, 10));
    engine.place_no_order("m", order(2, "b", Side::Sell, 0.70, 20));
    engine.create_market("m");
    assert_eq!(engine.get_yes_top_of_book("m"), (Price(600_000), Price(1_000_000)));
    assert_eq!(engine.get_no_top_of_book("m"), (Price(0), Price(700_000)));
    let yes = engine.order_books.get("m_YES").unwrap();
    assert_eq!(queue_ids(yes, Side::Buy, 0.60), vec![1]);
    assert!(yes.yes);
    assert_eq!(yes.market_id, "m_YES");
    let no = engine.order_books.get("m_NO").unwrap();
    assert_eq!(queue_ids(no, Side::Sell, 0.70), vec![2]);
    assert!(!no.yes);
}

#[test]
fn raw_instrument_name_must_exist() {
    let mut engine = MatchingEngine::new();
    let placed = engine.place_order("m_YES", order(1, "a", Side::Buy, 0.60, 10));
    assert_eq!(placed.err(), Some(EngineError::MarketNotFound));
    assert!(engine.order_books.is_empty());
    assert_eq!(engine.get_top_of_book("m_YES"), Err(EngineError::MarketNotFound));
    assert_eq!(engine.get_order_book_depth("m_YES", 3), Err(EngineError::MarketNotFound));
    assert!(!engine.cancel_order("m_YES", 1));
    engine.create_market("m");
    assert!(engine.place_order("m_YES", order(1, "a", Side::Buy, 0.60, 10)).is_ok());
    assert!(engine.place_order("m", order(1, "a", Side::Buy, 0.60, 10)).is_err());
}

#[test]
fn tagged_orders_create_their_market() {
    let mut engine = MatchingEngine::new();
    let trades = engine.place_yes_order("m", order(1, "a", Side::Buy, 0.60, 10));
    assert!(trades.is_empty());
    assert!(engine.order_books.contains_key("m_YES"));
    assert!(engine.order_books.contains_key("m_NO"));
    assert!(!engine.order_books.contains_key("m"));
    let trades = engine.place_yes_order("m", order(2, "b", Side::Sell, 0.55, 4));
    assert_eq!(trades.len(), 1);
    assert_eq!((trades[0].qty, trades[0].price), (4, Price(550_000)));
    assert_eq!(trades[0].market_id, "m_YES");
    assert_eq!(engine.get_yes_top_of_book("m"), (Price(600_000), Price(1_000_000)));
    assert_eq!(engine.get_no_top_of_book("m"), (Price(0), Price(1_000_000)));
}

#[test]
fn queries_of_an_unknown_market_read_as_empty() {
    let engine = MatchingEngine::new();
    assert_eq!(engine.get_yes_top_of_book("m"), (Price(0), Price(1_000_000)));
    assert_eq!(engine.get_no_top_of_book("m"), (Price(0), Price(1_000_000)));
    assert_eq!(engine.get_yes_order_book_depth("m", 3), (vec![], vec![]));
    assert_eq!(engine.get_no_order_book_depth("m", 3), (vec![], vec![]));
    assert!(engine.order_books.is_empty());
}

#[test]
fn engine_depth_and_cancel_by_tag() {
    let mut engine = MatchingEngine::new();
    engine.place_yes_order("m", order(1, "a", Side::Buy, 0.40, 10));
    engine.place_yes_order("m", order(2, "b", Side::Buy, 0.40, 5));
    engine.place_no_order("m", order(3, "c", Side::Sell, 0.70, 8));
    assert_eq!(engine.get_yes_order_book_depth("m", 5), (vec![(Price(400_000), 15)], vec![]));
    assert_eq!(engine.get_no_order_book_depth("m", 5), (vec![], vec![(Price(700_000), 8)]));
    assert_eq!(
        engine.get_order_book_depth("m_YES", 5),
        Ok((vec![(Price(400_000), 15)], vec![]))
    );
    assert!(!engine.cancel_no_order("m", 1));
    assert!(engine.cancel_yes_order("m", 1));
    assert!(!engine.cancel_yes_order("m", 1));
    assert_eq!(engine.get_yes_order_book_depth("m", 5), (vec![(Price(400_000), 5)], vec![]));
    assert!(engine.cancel_no_order("m", 3));
    assert!(!engine.cancel_yes_order("other", 2));
    assert!(!engine.order_books.contains_key("other_YES"));
    assert!(engine.cancel_order("m_YES", 2));
    assert_eq!(engine.get_top_of_book("m_YES"), Ok((Price(0), Price(1_000_000))));
}

#[test]
fn engine_books_never_stay_crossed() {
    let mut engine = MatchingEngine::new();
    let orders = vec![
        order(1, "a", Side::Buy, 0.30, 10),
        order(2, "b", Side::Sell, 0.25, 4),
        order(3, "c", Side::Sell, 0.10, 20),
        order(4, "d", Side::Buy, 0.50, 5),
        order(5, "e", Side::Buy, 0.05, 5),
    ];
    for o in orders {
        engine.place_yes_order("m", o);
        let book = engine.order_books.get("m_YES").unwrap();
        assert!(!crossed(book));
    }
    assert!(engine.cancel_yes_order("m", 5));
    assert!(!crossed(engine.order_books.get("m_YES").unwrap()));
    assert_eq!(engine.get_yes_top_of_book("m"), (Price(0), Price(100_000)));
}
