//! Wire representation: the stored spellings of side and status, the
//! decimal timestamp encoding, and record decoding.

use order_book::order::{OrderStatus, Side};
use order_book::wire::{
    order_from_record, parse_timestamp, side_from_wire, side_wire, status_from_wire, status_wire,
    timestamp_wire, RecordError,
};

#[test]
fn side_spellings_are_the_contract() {
    assert_eq!(side_wire(Side::Buy), "Buy");
    assert_eq!(side_wire(Side::Sell), "Sell");
    assert_eq!(side_from_wire("Buy"), Some(Side::Buy));
    assert_eq!(side_from_wire("Sell"), Some(Side::Sell));
    assert_eq!(side_from_wire("buy"), None);
    assert_eq!(side_from_wire(""), None);
}

#[test]
fn status_spellings_are_the_contract() {
    assert_eq!(status_wire(OrderStatus::Open), "Open");
    assert_eq!(status_wire(OrderStatus::PartiallyFilled), "PartiallyFilled");
    assert_eq!(status_wire(OrderStatus::Filled), "Filled");
    assert_eq!(status_wire(OrderStatus::Cancelled), "Cancelled");
    assert_eq!(status_from_wire("Open"), Some(OrderStatus::Open));
    assert_eq!(
        status_from_wire("PartiallyFilled"),
        Some(OrderStatus::PartiallyFilled)
    );
    assert_eq!(status_from_wire("Filled"), Some(OrderStatus::Filled));
    assert_eq!(status_from_wire("Cancelled"), Some(OrderStatus::Cancelled));
    assert_eq!(status_from_wire("open"), None);
    assert_eq!(status_from_wire("Partial"), None);
}

#[test]
fn timestamps_encode_as_decimal_strings() {
    assert_eq!(timestamp_wire(0), "0");
    assert_eq!(timestamp_wire(7), "7");
    assert_eq!(timestamp_wire(1234567890), "1234567890");
    assert_eq!(
        timestamp_wire(u128::MAX),
        "340282366920938463463374607431768211455"
    );
}

#[test]
fn timestamps_parse_back_exactly() {
    assert_eq!(parse_timestamp("0"), Some(0));
    assert_eq!(parse_timestamp("1234567890"), Some(1234567890));
    assert_eq!(parse_timestamp("0042"), Some(42));
    assert_eq!(
        parse_timestamp("340282366920938463463374607431768211455"),
        Some(u128::MAX)
    );
    assert_eq!(parse_timestamp(&timestamp_wire(987654321012345678901234567890)),
        Some(987654321012345678901234567890));
}

#[test]
fn timestamp_parse_rejects_what_is_not_a_number() {
    assert_eq!(parse_timestamp(""), None);
    assert_eq!(parse_timestamp("12a"), None);
    assert_eq!(parse_timestamp("-5"), None);
    assert_eq!(parse_timestamp(" 5"), None);
    // One past the largest representable value.
    assert_eq!(parse_timestamp("340282366920938463463374607431768211456"), None);
}

#[test]
fn record_decodes_to_a_resting_order() {
    let o = order_from_record(9, "Sell", 105, 20, 15, "PartiallyFilled", "123456").unwrap();
    assert_eq!(o.id, 9);
    assert_eq!(o.side, Side::Sell);
    assert_eq!(o.price, 105);
    assert_eq!(o.original_quantity, 20);
    assert_eq!(o.remaining_quantity, 15);
    assert_eq!(o.status, OrderStatus::PartiallyFilled);
    assert_eq!(o.timestamp, 123456);
}

#[test]
fn record_decoding_rejects_each_bad_field() {
    assert_eq!(
        order_from_record(1, "Hold", 100, 10, 10, "Open", "1").unwrap_err(),
        RecordError::BadSide
    );
    // A terminal status is not a resting order.
    assert_eq!(
        order_from_record(1, "Buy", 100, 10, 10, "Filled", "1").unwrap_err(),
        RecordError::BadStatus
    );
    assert_eq!(
        order_from_record(1, "Buy", 100, 10, 10, "Open", "yesterday").unwrap_err(),
        RecordError::BadTimestamp
    );
    assert_eq!(
        order_from_record(1, "Buy", 0, 10, 10, "Open", "1").unwrap_err(),
        RecordError::NotResting
    );
    assert_eq!(
        order_from_record(1, "Buy", 100, 10, 0, "Open", "1").unwrap_err(),
        RecordError::NotResting
    );
}
