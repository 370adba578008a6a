use matching_engine::models::{Order, OrderType, TradingPair};
use matching_engine::order_book::OrderBook;

fn pair() -> TradingPair {
    TradingPair::new(String::from("BTC"), String::from("USD"))
}

fn order(id: u64, side: OrderType, price: u64, quantity: u64) -> Order {
    Order {
        id,
        trading_pair: pair(),
        order_type: side,
        price,
        quantity,
        timestamp: 1_700_000_000 + id as i64,
    }
}

#[test]
fn exact_cross_fills_both_sides() {
    // Buy 10@100, then Sell 10@100: one trade, quantity 10, price 100,
    // both orders fully consumed, last price 100.
    let mut book = OrderBook::new(pair());
    book.add_order(order(1, OrderType::Buy, 100, 10));
    book.add_order(order(2, OrderType::Sell, 100, 10));
    let trades = book.match_orders();
    assert_eq!(trades.len(), 1);
    assert_eq!(trades[0].quantity, 10);
    assert_eq!(trades[0].price, 100);
    assert_eq!(trades[0].buy_order_id, 1);
    assert_eq!(trades[0].sell_order_id, 2);
    assert_eq!(book.get_active_orders_count(), 0);
    assert_eq!(book.get_current_price(), Some(100));
}

#[test]
fn partial_fill_across_two_sells() {
    // Buy 5@101, Sell 3@100, Sell 4@100: two trades at the resting buy's
    // price, 3 then 2; the second sell keeps 2 resting.
    let mut book = OrderBook::new(pair());
    book.add_order(order(1, OrderType::Buy, 101, 5));
    book.add_order(order(2, OrderType::Sell, 100, 3));
    book.add_order(order(3, OrderType::Sell, 100, 4));
    let trades = book.match_orders();
    assert_eq!(trades.len(), 2);
    assert_eq!(trades[0].quantity, 3);
    assert_eq!(trades[0].sell_order_id, 2);
    assert_eq!(trades[1].quantity, 2);
    assert_eq!(trades[1].sell_order_id, 3);
    assert_eq!(book.get_active_orders_count(), 1);
    let (bids, asks) = book.get_order_book();
    assert_eq!(bids.len(), 0);
    assert_eq!(asks.len(), 1);
    assert_eq!(asks[0].price, 100);
    assert_eq!(asks[0].quantity, 2);
}

#[test]
fn trade_prints_at_resting_price() {
    // The buy rests at 105; an aggressive sell at 100 crosses it: the trade
    // prints at the resting 105, not at the incoming 100.
    let mut book = OrderBook::new(pair());
    book.add_order(order(1, OrderType::Buy, 105, 4));
    book.add_order(order(2, OrderType::Sell, 100, 4));
    let trades = book.match_orders();
    assert_eq!(trades.len(), 1);
    assert_eq!(trades[0].price, 105);
    // And symmetrically: an ask rests at 100, an aggressive buy at 107
    // crosses it: the trade prints at 100.
    let mut book2 = OrderBook::new(pair());
    book2.add_order(order(3, OrderType::Sell, 100, 4));
    book2.add_order(order(4, OrderType::Buy, 107, 4));
    let trades2 = book2.match_orders();
    assert_eq!(trades2.len(), 1);
    assert_eq!(trades2[0].price, 100);
}

#[test]
fn book_never_left_crossed() {
    let mut book = OrderBook::new(pair());
    book.add_order(order(1, OrderType::Buy, 103, 5));
    book.add_order(order(2, OrderType::Buy, 101, 5));
    book.add_order(order(3, OrderType::Sell, 102, 7));
    book.add_order(order(4, OrderType::Sell, 104, 2));
    book.match_orders();
    let (bids, asks) = book.get_order_book();
    if bids.len() > 0 && asks.len() > 0 {
        assert!(bids[0].price < asks[0].price);
    }
}

#[test]
fn matching_conserves_quantity() {
    let mut book = OrderBook::new(pair());
    book.add_order(order(1, OrderType::Buy, 103, 5));
    book.add_order(order(2, OrderType::Buy, 102, 6));
    book.add_order(order(3, OrderType::Sell, 101, 8));
    let pre_bid_quantity = 5 + 6;
    let pre_ask_quantity = 8;
    let trades = book.match_orders();
    let traded: u64 = trades.iter().map(|t| t.quantity).sum();
    let (bids, asks) = book.get_order_book();
    let rest_bid: u64 = bids.iter().map(|e| e.quantity).sum();
    let rest_ask: u64 = asks.iter().map(|e| e.quantity).sum();
    assert_eq!(traded + rest_bid, pre_bid_quantity);
    assert_eq!(traded + rest_ask, pre_ask_quantity);
}

#[test]
fn second_match_is_empty() {
    let mut book = OrderBook::new(pair());
    book.add_order(order(1, OrderType::Buy, 100, 10));
    book.add_order(order(2, OrderType::Sell, 99, 4));
    let first = book.match_orders();
    assert_eq!(first.len(), 1);
    let second = book.match_orders();
    assert_eq!(second.len(), 0);
}

#[test]
fn match_on_uncrossed_book_is_empty() {
    let mut book = OrderBook::new(pair());
    book.add_order(order(1, OrderType::Buy, 95, 10));
    book.add_order(order(2, OrderType::Sell, 96, 10));
    assert_eq!(book.match_orders().len(), 0);
    assert_eq!(book.get_active_orders_count(), 2);
    assert_eq!(book.get_current_price(), None);
}

#[test]
fn fifo_at_equal_price() {
    // Two buys at the same price: the earlier one is consumed first.
    let mut book = OrderBook::new(pair());
    book.add_order(order(1, OrderType::Buy, 100, 5));
    book.add_order(order(2, OrderType::Buy, 100, 5));
    book.add_order(order(3, OrderType::Sell, 100, 5));
    let trades = book.match_orders();
    assert_eq!(trades.len(), 1);
    assert_eq!(trades[0].buy_order_id, 1);
    let (bids, _) = book.get_order_book();
    assert_eq!(bids.len(), 1);
    assert_eq!(bids[0].quantity, 5);
}

#[test]
fn price_follows_most_recent_trade() {
    let mut book = OrderBook::new(pair());
    assert_eq!(book.get_current_price(), None);
    book.add_order(order(1, OrderType::Buy, 100, 5));
    book.add_order(order(2, OrderType::Sell, 100, 5));
    book.match_orders();
    assert_eq!(book.get_current_price(), Some(100));
    book.add_order(order(3, OrderType::Buy, 102, 3));
    book.add_order(order(4, OrderType::Sell, 101, 3));
    let trades = book.match_orders();
    assert_eq!(trades.len(), 1);
    assert_eq!(book.get_current_price(), Some(trades[0].price));
    assert_eq!(book.get_current_price(), Some(102));
}

#[test]
fn match_on_empty_book_is_empty() {
    let mut book = OrderBook::new(pair());
    assert_eq!(book.match_orders().len(), 0);
    assert_eq!(book.get_active_orders_count(), 0);
    assert_eq!(book.get_current_price(), None);
}

#[test]
fn largest_quantities_do_not_overflow() {
    let mut book = OrderBook::new(pair());
    book.add_order(order(1, OrderType::Buy, u64::MAX, u64::MAX));
    book.add_order(order(2, OrderType::Sell, 1, u64::MAX - 1));
    let trades = book.match_orders();
    assert_eq!(trades.len(), 1);
    assert_eq!(trades[0].quantity, u64::MAX - 1);
    assert_eq!(trades[0].price, u64::MAX);
    let (bids, _) = book.get_order_book();
    assert_eq!(bids.len(), 1);
    assert_eq!(bids[0].quantity, 1);
}

#[test]
fn trade_history_is_chronological() {
    let mut book = OrderBook::new(pair());
    book.add_order(order(1, OrderType::Buy, 100, 4));
    book.add_order(order(2, OrderType::Sell, 100, 2));
    book.add_order(order(3, OrderType::Sell, 100, 2));
    book.match_orders();
    let history = book.get_trade_history();
    assert_eq!(history.len(), 2);
    assert_eq!(history[0].id, 0);
    assert_eq!(history[1].id, 1);
    assert_eq!(history[0].sell_order_id, 2);
    assert_eq!(history[1].sell_order_id, 3);
}

#[test]
fn snapshot_orders_by_priority() {
    let mut book = OrderBook::new(pair());
    book.add_order(order(1, OrderType::Buy, 99, 1));
    book.add_order(order(2, OrderType::Buy, 101, 2));
    book.add_order(order(3, OrderType::Buy, 100, 3));
    book.add_order(order(4, OrderType::Sell, 105, 4));
    book.add_order(order(5, OrderType::Sell, 103, 5));
    let (bids, asks) = book.get_order_book();
    assert_eq!(bids.iter().map(|e| e.price).collect::<Vec<u64>>(), vec![101, 100, 99]);
    assert_eq!(asks.iter().map(|e| e.price).collect::<Vec<u64>>(), vec![103, 105]);
    // The snapshot is a copy: book state is unaffected by reading it.
    assert_eq!(book.get_active_orders_count(), 5);
}
