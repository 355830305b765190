//! Order book behaviour: insertion, matching, modification, cancellation.

use order_book::book::OrderBook;
use order_book::order::{Order, OrderStatus, Side};

#[test]
fn test_order_creation() {
    let order = Order::new(1, Side::Buy, 100, 50, 0);
    assert_eq!(order.id, 1);
    assert_eq!(order.status, OrderStatus::Open);
}

#[test]
fn test_add_order_to_book() {
    let mut book = OrderBook::new();
    let buy_order = Order::new(1, Side::Buy, 100, 10, 1);
    let _ = book.add_order(buy_order.clone());
    assert_eq!(book.bids.len(), 1);
    assert_eq!(book.bids.front().unwrap().id, 1);
}

#[test]
fn test_simple_match_full() {
    let mut book = OrderBook::new();
    let buy_order = Order::new(1, Side::Buy, 100, 10, 1);
    let sell_order = Order::new(2, Side::Sell, 100, 10, 2);
    let _ = book.add_order(buy_order);
    let _ = book.add_order(sell_order);
    assert!(book.bids.is_empty());
    assert!(book.asks.is_empty());
}

#[test]
fn test_simple_match_partial_buy_fills() {
    let mut book = OrderBook::new();
    let buy_order = Order::new(1, Side::Buy, 100, 5, 1);
    let sell_order = Order::new(2, Side::Sell, 100, 10, 2);
    let _ = book.add_order(buy_order);
    let _ = book.add_order(sell_order);
    assert!(book.bids.is_empty());
    assert_eq!(book.asks.len(), 1);
    let ask_order = book.asks.front().unwrap();
    assert_eq!(ask_order.id, 2);
    assert_eq!(ask_order.remaining_quantity, 5);
    assert_eq!(ask_order.status, OrderStatus::PartiallyFilled);
}

#[test]
fn test_simple_match_partial_sell_fills() {
    let mut book = OrderBook::new();
    let buy_order = Order::new(1, Side::Buy, 100, 10, 1);
    let sell_order = Order::new(2, Side::Sell, 100, 5, 2);
    let _ = book.add_order(buy_order);
    let _ = book.add_order(sell_order);
    assert!(book.asks.is_empty());
    assert_eq!(book.bids.len(), 1);
    let bid_order = book.bids.front().unwrap();
    assert_eq!(bid_order.id, 1);
    assert_eq!(bid_order.remaining_quantity, 5);
    assert_eq!(bid_order.status, OrderStatus::PartiallyFilled);
}

#[test]
fn test_no_match_price_gap() {
    let mut book = OrderBook::new();
    let buy_order = Order::new(1, Side::Buy, 100, 10, 1);
    let sell_order = Order::new(2, Side::Sell, 105, 10, 2);
    let _ = book.add_order(buy_order.clone());
    let _ = book.add_order(sell_order.clone());
    assert_eq!(book.bids.len(), 1);
    assert_eq!(book.asks.len(), 1);
    assert_eq!(book.bids.front().unwrap().id, 1);
    assert_eq!(book.asks.front().unwrap().id, 2);
}

#[test]
fn test_match_with_better_price() {
    let mut book = OrderBook::new();
    let buy_order = Order::new(1, Side::Buy, 105, 10, 1);
    let sell_order = Order::new(2, Side::Sell, 100, 10, 2);
    let _ = book.add_order(buy_order);
    let _ = book.add_order(sell_order);
    assert!(book.bids.is_empty());
    assert!(book.asks.is_empty());
}

#[test]
fn test_multiple_matches_from_one_order() {
    let mut book = OrderBook::new();
    let sell_order1 = Order::new(1, Side::Sell, 100, 5, 1);
    let sell_order2 = Order::new(2, Side::Sell, 101, 15, 2);
    let buy_order = Order::new(3, Side::Buy, 101, 15, 3);
    let _ = book.add_order(sell_order1);
    let _ = book.add_order(sell_order2);
    let _ = book.add_order(buy_order);
    assert!(book.bids.is_empty());
    assert_eq!(book.asks.len(), 1);
    let ask_order = book.asks.front().unwrap();
    assert_eq!(ask_order.id, 2);
    assert_eq!(ask_order.remaining_quantity, 5);
    assert_eq!(ask_order.status, OrderStatus::PartiallyFilled);
}

#[test]
fn test_modify_order_quantity_bid() {
    let mut book = OrderBook::new();
    let order1 = Order::new(1, Side::Buy, 100, 10, 1);
    let _ = book.add_order(order1);
    let result = book.modify_order(1, 5);
    assert!(result.is_some());
    assert_eq!(result.as_ref().unwrap().remaining_quantity, 5);
    assert_eq!(book.bids.front().unwrap().remaining_quantity, 5);
}

#[test]
fn test_modify_order_quantity_ask() {
    let mut book = OrderBook::new();
    let order1 = Order::new(1, Side::Sell, 105, 20, 1);
    let _ = book.add_order(order1);
    let result = book.modify_order(1, 15);
    assert!(result.is_some());
    assert_eq!(result.as_ref().unwrap().remaining_quantity, 15);
    assert_eq!(book.asks.front().unwrap().remaining_quantity, 15);
}

#[test]
fn test_modify_order_not_found() {
    let mut book = OrderBook::new();
    let order1 = Order::new(1, Side::Buy, 100, 10, 1);
    // The order is never added, so the book cannot find it.
    let result = book.modify_order(order1.id, 5);
    assert!(result.is_none());
}

#[test]
fn test_modify_order_zero_quantity_cancels() {
    let mut book = OrderBook::new();
    let order1 = Order::new(1, Side::Buy, 100, 10, 1);
    let _ = book.add_order(order1);
    let result = book.modify_order(1, 0);
    assert!(result.is_some());
    assert_eq!(result.as_ref().unwrap().status, OrderStatus::Cancelled);
    assert!(book.bids.is_empty());
}

#[test]
fn test_cancel_order_bid() {
    let mut book = OrderBook::new();
    let order1 = Order::new(1, Side::Buy, 100, 10, 1);
    let order2 = Order::new(2, Side::Buy, 99, 5, 2);
    let _ = book.add_order(order1.clone());
    let _ = book.add_order(order2.clone());
    let result = book.cancel_order(1);
    assert!(result.is_some());
    assert_eq!(result.as_ref().unwrap().status, OrderStatus::Cancelled);
    assert_eq!(book.bids.len(), 1);
    assert_eq!(book.bids.front().unwrap().id, 2);
}

#[test]
fn test_cancel_order_ask() {
    let mut book = OrderBook::new();
    let order1 = Order::new(1, Side::Sell, 105, 10, 1);
    let order2 = Order::new(2, Side::Sell, 110, 5, 2);
    let _ = book.add_order(order1.clone());
    let _ = book.add_order(order2.clone());
    let result = book.cancel_order(1);
    assert!(result.is_some());
    assert_eq!(result.as_ref().unwrap().status, OrderStatus::Cancelled);
    assert_eq!(book.asks.len(), 1);
    assert_eq!(book.asks.front().unwrap().id, 2);
}

#[test]
fn test_cancel_order_not_found() {
    let mut book = OrderBook::new();
    let result = book.cancel_order(999);
    assert!(result.is_none());
}

#[test]
fn trade_executes_at_maker_price() {
    // A crossing pair trades at the price of the order already resting
    // in the book: here the resting bid at 101.
    let mut book = OrderBook::new();
    let _ = book.add_order(Order::new(1, Side::Buy, 101, 10, 1));
    let out = book.add_order(Order::new(2, Side::Sell, 100, 10, 2));
    assert_eq!(out.trades.len(), 1);
    assert_eq!(out.trades[0].bid_id, 1);
    assert_eq!(out.trades[0].ask_id, 2);
    assert_eq!(out.trades[0].quantity, 10);
    assert_eq!(out.trades[0].price, 101);
    assert!(book.bids.is_empty());
    assert!(book.asks.is_empty());
    // Both parties end filled; the write-behind snapshots say so.
    assert_eq!(out.updates.len(), 2);
    assert_eq!(out.updates[0].id, 1);
    assert_eq!(out.updates[0].status, OrderStatus::Filled);
    assert_eq!(out.updates[1].id, 2);
    assert_eq!(out.updates[1].status, OrderStatus::Filled);
}

#[test]
fn cascade_trades_best_price_first_at_each_maker_price() {
    // Sell 5@100, Sell 15@101, then Buy 15@101: the buy first takes the
    // better-priced ask at 100 for 5, then the ask at 101 for 10.
    let mut book = OrderBook::new();
    let _ = book.add_order(Order::new(1, Side::Sell, 100, 5, 1));
    let _ = book.add_order(Order::new(2, Side::Sell, 101, 15, 2));
    let out = book.add_order(Order::new(3, Side::Buy, 101, 15, 3));
    assert_eq!(out.trades.len(), 2);
    assert_eq!(out.trades[0].bid_id, 3);
    assert_eq!(out.trades[0].ask_id, 1);
    assert_eq!(out.trades[0].quantity, 5);
    assert_eq!(out.trades[0].price, 100);
    assert_eq!(out.trades[1].bid_id, 3);
    assert_eq!(out.trades[1].ask_id, 2);
    assert_eq!(out.trades[1].quantity, 10);
    assert_eq!(out.trades[1].price, 101);
    assert!(book.bids.is_empty());
    assert_eq!(book.asks.len(), 1);
    assert_eq!(book.asks.front().unwrap().id, 2);
    assert_eq!(book.asks.front().unwrap().remaining_quantity, 5);
}

#[test]
fn cancel_same_id_twice_returns_none_second_time() {
    let mut book = OrderBook::new();
    let _ = book.add_order(Order::new(1, Side::Buy, 100, 10, 1));
    let first = book.cancel_order(1);
    assert!(first.is_some());
    assert_eq!(first.as_ref().unwrap().status, OrderStatus::Cancelled);
    let second = book.cancel_order(1);
    assert!(second.is_none());
}

#[test]
fn modify_missing_id_on_empty_book_returns_none() {
    let mut book = OrderBook::new();
    assert!(book.modify_order(999, 5).is_none());
}

#[test]
fn bids_rest_best_price_first() {
    let mut book = OrderBook::new();
    let _ = book.add_order(Order::new(1, Side::Buy, 100, 1, 1));
    let _ = book.add_order(Order::new(2, Side::Buy, 105, 1, 2));
    let _ = book.add_order(Order::new(3, Side::Buy, 95, 1, 3));
    assert_eq!(book.bids.len(), 3);
    assert_eq!(book.bids.front().unwrap().id, 2);
    assert_eq!(book.bids.front().unwrap().price, 105);
}

#[test]
fn asks_rest_best_price_first() {
    let mut book = OrderBook::new();
    let _ = book.add_order(Order::new(1, Side::Sell, 100, 1, 1));
    let _ = book.add_order(Order::new(2, Side::Sell, 95, 1, 2));
    let _ = book.add_order(Order::new(3, Side::Sell, 105, 1, 3));
    assert_eq!(book.asks.len(), 3);
    assert_eq!(book.asks.front().unwrap().id, 2);
    assert_eq!(book.asks.front().unwrap().price, 95);
}

#[test]
fn equal_price_orders_match_first_in_first_out() {
    // Two bids at the same price: the earlier arrival trades first.
    let mut book = OrderBook::new();
    let _ = book.add_order(Order::new(1, Side::Buy, 100, 4, 1));
    let _ = book.add_order(Order::new(2, Side::Buy, 100, 4, 2));
    let out = book.add_order(Order::new(3, Side::Sell, 100, 4, 3));
    assert_eq!(out.trades.len(), 1);
    assert_eq!(out.trades[0].bid_id, 1);
    assert_eq!(book.bids.len(), 1);
    assert_eq!(book.bids.front().unwrap().id, 2);
}

#[test]
fn modify_keeps_priority_position() {
    // Modifying quantity does not re-rank: the modified order keeps its
    // place within its price level.
    let mut book = OrderBook::new();
    let _ = book.add_order(Order::new(1, Side::Buy, 100, 4, 1));
    let _ = book.add_order(Order::new(2, Side::Buy, 100, 4, 2));
    let modified = book.modify_order(1, 9);
    assert!(modified.is_some());
    assert_eq!(book.bids.front().unwrap().id, 1);
    assert_eq!(book.bids.front().unwrap().remaining_quantity, 9);
}

#[test]
fn modify_below_original_marks_partially_filled() {
    let mut book = OrderBook::new();
    let _ = book.add_order(Order::new(1, Side::Buy, 100, 10, 1));
    let result = book.modify_order(1, 3);
    assert_eq!(result.as_ref().unwrap().status, OrderStatus::PartiallyFilled);
    let back = book.modify_order(1, 10);
    assert_eq!(back.as_ref().unwrap().status, OrderStatus::Open);
}

#[test]
fn get_order_finds_resting_orders_only() {
    let mut book = OrderBook::new();
    let _ = book.add_order(Order::new(1, Side::Buy, 100, 10, 1));
    let _ = book.add_order(Order::new(2, Side::Sell, 105, 7, 2));
    assert_eq!(book.get_order(1).unwrap().price, 100);
    assert_eq!(book.get_order(2).unwrap().price, 105);
    assert!(book.get_order(3).is_none());
}
