//! Engine behaviour: validation, id allocation, submission snapshots, and
//! recovery from durable records.

use order_book::engine::{Engine, RecoveryError, ValidationError};
use order_book::order::{Order, OrderStatus, Side};

#[test]
fn submit_rejects_zero_price() {
    let mut engine = Engine::new();
    let r = engine.submit(Side::Buy, 0, 10, 1);
    assert_eq!(r.unwrap_err(), ValidationError::NonPositivePrice);
    assert!(engine.book.bids.is_empty());
    assert!(engine.book.asks.is_empty());
}

#[test]
fn submit_rejects_zero_quantity() {
    let mut engine = Engine::new();
    let r = engine.submit(Side::Sell, 100, 0, 1);
    assert_eq!(r.unwrap_err(), ValidationError::NonPositiveQuantity);
    assert!(engine.book.asks.is_empty());
}

#[test]
fn submit_allocates_increasing_ids_from_one() {
    let mut engine = Engine::new();
    let a = engine.submit(Side::Buy, 100, 10, 1).unwrap();
    let b = engine.submit(Side::Buy, 99, 10, 2).unwrap();
    let c = engine.submit(Side::Sell, 200, 10, 3).unwrap();
    assert_eq!(a.order.id, 1);
    assert_eq!(b.order.id, 2);
    assert_eq!(c.order.id, 3);
}

#[test]
fn submit_snapshot_reflects_matching_result() {
    let mut engine = Engine::new();
    let first = engine.submit(Side::Buy, 100, 10, 1).unwrap();
    assert_eq!(first.order.status, OrderStatus::Open);
    assert_eq!(first.order.remaining_quantity, 10);
    assert!(first.trades.is_empty());
    // A sell for more than the resting bid: partially filled on return.
    let second = engine.submit(Side::Sell, 100, 15, 2).unwrap();
    assert_eq!(second.order.id, 2);
    assert_eq!(second.order.status, OrderStatus::PartiallyFilled);
    assert_eq!(second.order.remaining_quantity, 5);
    assert_eq!(second.trades.len(), 1);
    assert_eq!(second.trades[0].price, 100);
    assert_eq!(second.trades[0].quantity, 10);
    // A buy that is fully consumed: filled on return, resting nowhere.
    let third = engine.submit(Side::Buy, 100, 5, 3).unwrap();
    assert_eq!(third.order.status, OrderStatus::Filled);
    assert_eq!(third.order.remaining_quantity, 0);
    assert!(engine.book.bids.is_empty());
    assert!(engine.book.asks.is_empty());
}

#[test]
fn engine_modify_and_cancel_delegate_to_book() {
    let mut engine = Engine::new();
    let _ = engine.submit(Side::Buy, 100, 10, 1).unwrap();
    let modified = engine.modify(1, 4).unwrap();
    assert_eq!(modified.remaining_quantity, 4);
    let cancelled = engine.cancel(1).unwrap();
    assert_eq!(cancelled.status, OrderStatus::Cancelled);
    assert!(engine.cancel(1).is_none());
    assert!(engine.modify(1, 7).is_none());
}

#[test]
fn recover_rebuilds_book_in_price_time_order() {
    // Records arrive in arbitrary order; the rebuilt book orders them by
    // price priority, then timestamp.
    let records = vec![
        Order::new(4, Side::Buy, 100, 10, 40),
        Order::new(2, Side::Buy, 101, 10, 20),
        Order::new(7, Side::Buy, 100, 10, 15),
        Order::new(5, Side::Sell, 105, 10, 50),
        Order::new(3, Side::Sell, 104, 10, 30),
    ];
    let engine = Engine::recover(records).unwrap();
    assert_eq!(engine.next_id, 8);
    assert_eq!(engine.book.bids.len(), 3);
    assert_eq!(engine.book.asks.len(), 2);
    // Best bid: highest price; at 100 the earlier timestamp (id 7) first.
    assert_eq!(engine.book.bids.orders[0].id, 2);
    assert_eq!(engine.book.bids.orders[1].id, 7);
    assert_eq!(engine.book.bids.orders[2].id, 4);
    assert_eq!(engine.book.asks.orders[0].id, 3);
    assert_eq!(engine.book.asks.orders[1].id, 5);
}

#[test]
fn recover_restarts_id_allocation_past_stored_ids() {
    let records = vec![Order::new(41, Side::Buy, 100, 10, 1)];
    let mut engine = Engine::recover(records).unwrap();
    let fresh = engine.submit(Side::Sell, 200, 5, 2).unwrap();
    assert_eq!(fresh.order.id, 42);
}

#[test]
fn recover_rejects_duplicate_ids() {
    let records = vec![
        Order::new(1, Side::Buy, 100, 10, 1),
        Order::new(1, Side::Sell, 105, 10, 2),
    ];
    assert_eq!(Engine::recover(records).unwrap_err(), RecoveryError::DuplicateId);
}

#[test]
fn recover_rejects_orders_that_cannot_rest() {
    let mut dead = Order::new(1, Side::Buy, 100, 10, 1);
    dead.status = OrderStatus::Cancelled;
    assert_eq!(Engine::recover(vec![dead]).unwrap_err(), RecoveryError::InvalidOrder);
    let zero_quantity = Order::new(2, Side::Buy, 100, 0, 1);
    assert_eq!(
        Engine::recover(vec![zero_quantity]).unwrap_err(),
        RecoveryError::InvalidOrder
    );
}

#[test]
fn recover_rejects_exhausted_id_space() {
    let records = vec![Order::new(u64::MAX, Side::Buy, 100, 10, 1)];
    assert_eq!(Engine::recover(records).unwrap_err(), RecoveryError::IdExhausted);
}

#[test]
fn recover_of_nothing_is_a_fresh_engine() {
    let engine = Engine::recover(Vec::new()).unwrap();
    assert_eq!(engine.next_id, 1);
    assert!(engine.book.bids.is_empty());
    assert!(engine.book.asks.is_empty());
}
