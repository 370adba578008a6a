use matching_engine::engine::{Engine, Message, Response};
use matching_engine::models::{Order, OrderType, TradingPair};

fn pair(s: &str) -> TradingPair {
    TradingPair::from_string(s).unwrap()
}

fn order(id: u64, p: &str, side: OrderType, price: u64, quantity: u64) -> Order {
    Order {
        id,
        trading_pair: pair(p),
        order_type: side,
        price,
        quantity,
        timestamp: 1_700_000_000 + id as i64,
    }
}

#[test]
fn new_engine_is_empty_and_running() {
    let e = Engine::new();
    assert_eq!(e.books.len(), 0);
    assert!(e.running);
}

#[test]
fn new_order_creates_book_lazily() {
    let mut e = Engine::new();
    e.handle_message(Message::NewOrder(order(1, "BTC/USD", OrderType::Buy, 100, 10)));
    assert_eq!(e.books.len(), 1);
    e.handle_message(Message::NewOrder(order(2, "BTC/USD", OrderType::Sell, 101, 5)));
    assert_eq!(e.books.len(), 1);
    e.handle_message(Message::NewOrder(order(3, "ETH/USD", OrderType::Buy, 50, 1)));
    assert_eq!(e.books.len(), 2);
}

#[test]
fn match_orders_message_executes_trades() {
    // Buy 10@100 then Sell 10@100 on BTC/USD: exactly one trade of
    // quantity 10 at price 100; both orders leave the book; the last
    // traded price is 100.
    let mut e = Engine::new();
    e.handle_message(Message::NewOrder(order(1, "BTC/USD", OrderType::Buy, 100, 10)));
    e.handle_message(Message::NewOrder(order(2, "BTC/USD", OrderType::Sell, 100, 10)));
    let r = e.handle_message(Message::MatchOrders(pair("BTC/USD")));
    assert!(matches!(r, Response::Done));
    match e.handle_message(Message::GetTradeHistory(pair("BTC/USD"))) {
        Response::History(ts) => {
            assert_eq!(ts.len(), 1);
            assert_eq!(ts[0].quantity, 10);
            assert_eq!(ts[0].price, 100);
            assert_eq!(ts[0].buy_order_id, 1);
            assert_eq!(ts[0].sell_order_id, 2);
        }
        _ => panic!("expected a trade history response"),
    }
    match e.handle_message(Message::GetPrice(pair("BTC/USD"))) {
        Response::Price(p) => assert_eq!(p, Some(100)),
        _ => panic!("expected a price response"),
    }
    match e.handle_message(Message::GetOrderBook(pair("BTC/USD"))) {
        Response::Book(bids, asks) => {
            assert_eq!(bids.len(), 0);
            assert_eq!(asks.len(), 0);
        }
        _ => panic!("expected a book response"),
    }
}

#[test]
fn match_orders_on_unknown_pair_is_noop() {
    let mut e = Engine::new();
    let r = e.handle_message(Message::MatchOrders(pair("BTC/USD")));
    assert!(matches!(r, Response::Done));
    assert_eq!(e.books.len(), 0);
}

#[test]
fn get_price_on_fresh_pair_creates_empty_book() {
    // Querying a never-referenced pair answers None and leaves a new,
    // empty book behind.
    let mut e = Engine::new();
    match e.handle_message(Message::GetPrice(pair("DOGE/USD"))) {
        Response::Price(p) => assert_eq!(p, None),
        _ => panic!("expected a price response"),
    }
    assert_eq!(e.books.len(), 1);
    assert_eq!(e.books[0].trading_pair, pair("DOGE/USD"));
    assert_eq!(e.books[0].bids.len(), 0);
    assert_eq!(e.books[0].asks.len(), 0);
    assert_eq!(e.books[0].trades.len(), 0);
}

#[test]
fn get_order_book_on_unknown_pair_is_empty_and_creates_nothing() {
    let mut e = Engine::new();
    match e.handle_message(Message::GetOrderBook(pair("BTC/USD"))) {
        Response::Book(bids, asks) => {
            assert_eq!(bids.len(), 0);
            assert_eq!(asks.len(), 0);
        }
        _ => panic!("expected a book response"),
    }
    assert_eq!(e.books.len(), 0);
}

#[test]
fn get_trade_history_on_unknown_pair_is_empty_and_creates_nothing() {
    let mut e = Engine::new();
    match e.handle_message(Message::GetTradeHistory(pair("BTC/USD"))) {
        Response::History(ts) => assert_eq!(ts.len(), 0),
        _ => panic!("expected a trade history response"),
    }
    assert_eq!(e.books.len(), 0);
}

#[test]
fn price_update_is_informational_only() {
    let mut e = Engine::new();
    e.handle_message(Message::NewOrder(order(1, "BTC/USD", OrderType::Buy, 100, 10)));
    let u = matching_engine::models::PriceUpdate {
        trading_pair: pair("BTC/USD"),
        price: 123,
        timestamp: 1_700_000_000,
    };
    let r = e.handle_message(Message::PriceUpdate(u));
    assert!(matches!(r, Response::Done));
    assert_eq!(e.books.len(), 1);
    match e.handle_message(Message::GetPrice(pair("BTC/USD"))) {
        Response::Price(p) => assert_eq!(p, None),
        _ => panic!("expected a price response"),
    }
}

#[test]
fn fifo_two_new_orders_same_pair() {
    // A then B at the same price: A rests ahead and is matched first.
    let mut e = Engine::new();
    e.handle_message(Message::NewOrder(order(7, "BTC/USD", OrderType::Buy, 100, 5)));
    e.handle_message(Message::NewOrder(order(8, "BTC/USD", OrderType::Buy, 100, 5)));
    e.handle_message(Message::NewOrder(order(9, "BTC/USD", OrderType::Sell, 100, 5)));
    e.handle_message(Message::MatchOrders(pair("BTC/USD")));
    match e.handle_message(Message::GetTradeHistory(pair("BTC/USD"))) {
        Response::History(ts) => {
            assert_eq!(ts.len(), 1);
            assert_eq!(ts[0].buy_order_id, 7);
        }
        _ => panic!("expected a trade history response"),
    }
}

#[test]
fn shutdown_runs_final_match_and_stops() {
    // One resting crossed-eligible pair: the final match runs before the
    // engine stops, and the engine no longer runs afterwards.
    let mut e = Engine::new();
    e.handle_message(Message::NewOrder(order(1, "BTC/USD", OrderType::Buy, 100, 10)));
    e.handle_message(Message::NewOrder(order(2, "BTC/USD", OrderType::Sell, 100, 10)));
    e.handle_message(Message::NewOrder(order(3, "ETH/USD", OrderType::Buy, 50, 2)));
    let r = e.handle_message(Message::Shutdown);
    match r {
        Response::Halted(n) => assert_eq!(n, 1),
        _ => panic!("expected a halted response"),
    }
    assert!(!e.running);
    // The crossed pair was matched during the drain.
    assert_eq!(e.books[0].trades.len(), 1);
    assert_eq!(e.books[0].trades[0].quantity, 10);
    assert_eq!(e.books[0].bids.len(), 0);
    assert_eq!(e.books[0].asks.len(), 0);
    // The uncrossed pair still rests.
    assert_eq!(e.books[1].bids.len(), 1);
}

#[test]
fn operations_on_pairs_are_independent() {
    let mut e = Engine::new();
    e.handle_message(Message::NewOrder(order(1, "BTC/USD", OrderType::Buy, 100, 10)));
    e.handle_message(Message::NewOrder(order(2, "ETH/USD", OrderType::Buy, 50, 4)));
    e.handle_message(Message::NewOrder(order(3, "ETH/USD", OrderType::Sell, 50, 4)));
    e.handle_message(Message::MatchOrders(pair("ETH/USD")));
    match e.handle_message(Message::GetTradeHistory(pair("ETH/USD"))) {
        Response::History(ts) => assert_eq!(ts.len(), 1),
        _ => panic!("expected a trade history response"),
    }
    match e.handle_message(Message::GetTradeHistory(pair("BTC/USD"))) {
        Response::History(ts) => assert_eq!(ts.len(), 0),
        _ => panic!("expected a trade history response"),
    }
    match e.handle_message(Message::GetOrderBook(pair("BTC/USD"))) {
        Response::Book(bids, _) => {
            assert_eq!(bids.len(), 1);
            assert_eq!(bids[0].quantity, 10);
        }
        _ => panic!("expected a book response"),
    }
}
