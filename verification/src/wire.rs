//! The durable store's wire representation.
//!
//! Side and status are stored as closed string enumerations — the exact
//! spellings are the contract — and the nanosecond timestamp is stored as
//! a decimal string, since not every storage format carries 128-bit
//! integers.  Encoding and decoding are verified against each other:
//! decoding what was encoded gives the value back.

use vstd::prelude::*;
use vstd::string::{StrSliceExecFns, StringExecFns};

use crate::order::{Order, OrderStatus, Side};

verus! {

/// The stored spelling of a side.
pub open spec fn side_name(s: Side) -> Seq<char> {
    match s {
        Side::Buy => "Buy"@,
        Side::Sell => "Sell"@,
    }
}

/// Which side a stored spelling denotes, if any.
pub open spec fn spec_side_from_wire(s: Seq<char>) -> Option<Side> {
    if s == "Buy"@ {
        Some(Side::Buy)
    } else if s == "Sell"@ {
        Some(Side::Sell)
    } else {
        None
    }
}

/// Encode a side for the durable store.
pub fn side_wire(s: Side) -> (r: &'static str)
    ensures
        r@ == side_name(s),
{
    match s {
        Side::Buy => "Buy",
        Side::Sell => "Sell",
    }
}

/// Decode a stored side spelling.
pub fn side_from_wire(s: &str) -> (r: Option<Side>)
    ensures
        r == spec_side_from_wire(s@),
{
    let t = s.to_owned();
    if t == "Buy".to_owned() {
        Some(Side::Buy)
    } else if t == "Sell".to_owned() {
        Some(Side::Sell)
    } else {
        None
    }
}

/// Decoding an encoded side gives the side back.
pub proof fn lemma_side_wire_roundtrip(s: Side)
    ensures
        spec_side_from_wire(side_name(s)) == Some(s),
{
    broadcast use vstd::string::group_string_axioms;

    reveal_strlit("Buy");
    reveal_strlit("Sell");
    assert("Buy"@.len() == 3);
    assert("Sell"@.len() == 4);
}

/// The stored spelling of a status.
pub open spec fn status_name(s: OrderStatus) -> Seq<char> {
    match s {
        OrderStatus::Open => "Open"@,
        OrderStatus::PartiallyFilled => "PartiallyFilled"@,
        OrderStatus::Filled => "Filled"@,
        OrderStatus::Cancelled => "Cancelled"@,
    }
}

/// Which status a stored spelling denotes, if any.
pub open spec fn spec_status_from_wire(s: Seq<char>) -> Option<OrderStatus> {
    if s == "Open"@ {
        Some(OrderStatus::Open)
    } else if s == "PartiallyFilled"@ {
        Some(OrderStatus::PartiallyFilled)
    } else if s == "Filled"@ {
        Some(OrderStatus::Filled)
    } else if s == "Cancelled"@ {
        Some(OrderStatus::Cancelled)
    } else {
        None
    }
}

/// Encode a status for the durable store.
pub fn status_wire(s: OrderStatus) -> (r: &'static str)
    ensures
        r@ == status_name(s),
{
    match s {
        OrderStatus::Open => "Open",
        OrderStatus::PartiallyFilled => "PartiallyFilled",
        OrderStatus::Filled => "Filled",
        OrderStatus::Cancelled => "Cancelled",
    }
}

/// Decode a stored status spelling.
pub fn status_from_wire(s: &str) -> (r: Option<OrderStatus>)
    ensures
        r == spec_status_from_wire(s@),
{
    let t = s.to_owned();
    if t == "Open".to_owned() {
        Some(OrderStatus::Open)
    } else if t == "PartiallyFilled".to_owned() {
        Some(OrderStatus::PartiallyFilled)
    } else if t == "Filled".to_owned() {
        Some(OrderStatus::Filled)
    } else if t == "Cancelled".to_owned() {
        Some(OrderStatus::Cancelled)
    } else {
        None
    }
}

/// Decoding an encoded status gives the status back.
pub proof fn lemma_status_wire_roundtrip(s: OrderStatus)
    ensures
        spec_status_from_wire(status_name(s)) == Some(s),
{
    broadcast use vstd::string::group_string_axioms;

    reveal_strlit("Open");
    reveal_strlit("PartiallyFilled");
    reveal_strlit("Filled");
    reveal_strlit("Cancelled");
    assert("Open"@.len() == 4);
    assert("PartiallyFilled"@.len() == 15);
    assert("Filled"@.len() == 6);
    assert("Cancelled"@.len() == 9);
}

/// The decimal digit character for a value below ten.
pub open spec fn digit_char(d: int) -> char {
    if d == 0 {
        '0'
    } else if d == 1 {
        '1'
    } else if d == 2 {
        '2'
    } else if d == 3 {
        '3'
    } else if d == 4 {
        '4'
    } else if d == 5 {
        '5'
    } else if d == 6 {
        '6'
    } else if d == 7 {
        '7'
    } else if d == 8 {
        '8'
    } else {
        '9'
    }
}

/// The canonical decimal spelling of a number: no sign, no leading zero
/// except for zero itself.
pub open spec fn dec_digits(n: nat) -> Seq<char>
    decreases n,
    via dec_digits_decreases
{
    if n < 10 {
        seq![digit_char(n as int)]
    } else {
        dec_digits(n / 10) + seq![digit_char((n % 10) as int)]
    }
}

#[via_fn]
proof fn dec_digits_decreases(n: nat) {
    if n >= 10 {
        vstd::arithmetic::div_mod::lemma_div_decreases(n as int, 10);
    }
}

/// A decimal digit character.
pub open spec fn is_digit(c: char) -> bool {
    '0' <= c && c <= '9'
}

/// Every character is a decimal digit.
pub open spec fn all_digits(s: Seq<char>) -> bool {
    forall|i: int| 0 <= i < s.len() ==> is_digit(#[trigger] s[i])
}

/// The numeric value of a digit character.
pub open spec fn digit_val(c: char) -> int {
    c as int - 48
}

/// The number a digit string denotes, most significant digit first.
pub open spec fn dec_val(s: Seq<char>) -> int
    decreases s.len(),
{
    if s.len() == 0 {
        0
    } else {
        dec_val(s.drop_last()) * 10 + digit_val(s.last())
    }
}

/// A digit string denotes a non-negative number.
proof fn lemma_dec_val_nonneg(s: Seq<char>)
    requires
        all_digits(s),
    ensures
        dec_val(s) >= 0,
    decreases s.len(),
{
    if s.len() > 0 {
        assert(all_digits(s.drop_last())) by {
            assert(forall|j: int|
                0 <= j < s.len() - 1 ==> #[trigger] s.drop_last()[j] == s[j]);
        }
        lemma_dec_val_nonneg(s.drop_last());
        assert(is_digit(s.last()));
    }
}

/// A prefix of a digit string denotes at most what the whole denotes.
proof fn lemma_dec_val_prefix(s: Seq<char>, i: int)
    requires
        all_digits(s),
        0 <= i <= s.len(),
    ensures
        dec_val(s.subrange(0, i)) <= dec_val(s),
    decreases s.len() - i,
{
    if i == s.len() {
        assert(s.subrange(0, i) =~= s);
    } else {
        let p = s.subrange(0, i);
        let p2 = s.subrange(0, i + 1);
        assert(p2.drop_last() =~= p);
        assert(p2.last() == s[i]);
        assert(all_digits(p)) by {
            assert(forall|j: int| 0 <= j < i ==> #[trigger] p[j] == s[j]);
        }
        lemma_dec_val_nonneg(p);
        assert(is_digit(s[i]));
        assert(dec_val(p2) == dec_val(p) * 10 + digit_val(s[i]));
        lemma_dec_val_prefix(s, i + 1);
    }
}

/// The digit character for a value below ten, as a string.
fn digit_str(d: u128) -> (r: &'static str)
    requires
        d < 10,
    ensures
        r@ == seq![digit_char(d as int)],
{
    proof {
        reveal_strlit("0");
        reveal_strlit("1");
        reveal_strlit("2");
        reveal_strlit("3");
        reveal_strlit("4");
        reveal_strlit("5");
        reveal_strlit("6");
        reveal_strlit("7");
        reveal_strlit("8");
        reveal_strlit("9");
    }
    match d {
        0 => "0",
        1 => "1",
        2 => "2",
        3 => "3",
        4 => "4",
        5 => "5",
        6 => "6",
        7 => "7",
        8 => "8",
        _ => "9",
    }
}

/// Encode a timestamp as its canonical decimal string.
pub fn timestamp_wire(n: u128) -> (r: String)
    ensures
        r@ == dec_digits(n as nat),
    decreases n,
{
    if n < 10 {
        digit_str(n).to_owned()
    } else {
        proof {
            vstd::arithmetic::div_mod::lemma_div_decreases(n as int, 10);
        }
        let mut s = timestamp_wire(n / 10);
        s.append(digit_str(n % 10));
        s
    }
}

/// Decode a decimal string.
///
/// Returns the denoted number exactly when the string is non-empty, all
/// digits, and the value fits; leading zeroes are accepted.
pub fn parse_timestamp(s: &str) -> (r: Option<u128>)
    ensures
        r is Some <==> (s@.len() > 0 && all_digits(s@) && dec_val(s@) <= u128::MAX),
        r matches Some(n) ==> n == dec_val(s@),
{
    let len = s.unicode_len();
    if len == 0 {
        return None;
    }
    let mut acc: u128 = 0;
    let mut i: usize = 0;
    while i < len
        invariant
            len == s@.len(),
            0 < len,
            i <= len,
            all_digits(s@.subrange(0, i as int)),
            acc == dec_val(s@.subrange(0, i as int)),
        decreases len - i,
    {
        let ghost p = s@.subrange(0, i as int);
        let ghost p2 = s@.subrange(0, i as int + 1);
        proof {
            assert(p2.drop_last() =~= p);
            assert(p2.last() == s@[i as int]);
        }
        let c = s.get_char(i);
        let v = c as u32;
        if v < 48 || v > 57 {
            proof {
                assert(!is_digit(s@[i as int]));
            }
            return None;
        }
        let d = (v - 48) as u128;
        proof {
            assert(is_digit(s@[i as int]));
            assert(digit_val(s@[i as int]) == d);
            assert(all_digits(p2)) by {
                assert(forall|j: int| 0 <= j < i ==> #[trigger] p2[j] == p[j]);
            }
        }
        let next = match acc.checked_mul(10) {
            Some(x) => x.checked_add(d),
            None => None,
        };
        match next {
            Some(y) => {
                acc = y;
            },
            None => {
                proof {
                    assert(dec_val(p2) > u128::MAX);
                    if s@.len() > 0 && all_digits(s@) && dec_val(s@) <= u128::MAX {
                        lemma_dec_val_prefix(s@, i as int + 1);
                        assert(false);
                    }
                }
                return None;
            },
        }
        i = i + 1;
    }
    proof {
        assert(s@.subrange(0, s@.len() as int) =~= s@);
    }
    Some(acc)
}

/// Decoding an encoded timestamp gives the timestamp back: the canonical
/// decimal spelling is non-empty, all digits, and denotes the number.
pub proof fn lemma_timestamp_roundtrip(n: u128)
    ensures
        dec_digits(n as nat).len() > 0,
        all_digits(dec_digits(n as nat)),
        dec_val(dec_digits(n as nat)) == n,
    decreases n,
{
    let s = dec_digits(n as nat);
    if n < 10 {
        assert(s =~= seq![digit_char(n as int)]);
        assert(s.len() == 1);
        assert(s.last() == digit_char(n as int));
        assert(s.drop_last() =~= Seq::<char>::empty());
        assert(s.drop_last().len() == 0);
        assert(dec_val(s.drop_last()) == 0);
        assert(dec_val(s) == digit_val(digit_char(n as int)));
    } else {
        vstd::arithmetic::div_mod::lemma_div_decreases(n as int, 10);
        lemma_timestamp_roundtrip(n / 10);
        let hd = dec_digits((n as nat) / 10);
        assert(s == hd + seq![digit_char((n % 10) as int)]);
        assert(s.drop_last() =~= hd);
        assert(s.last() == digit_char((n % 10) as int));
        assert(dec_val(s) == dec_val(hd) * 10 + digit_val(digit_char((n % 10) as int)));
        assert forall|i: int| 0 <= i < s.len() implies is_digit(#[trigger] s[i]) by {
            if i < hd.len() {
                assert(s[i] == hd[i]);
            }
        }
    }
}

/// Why a durable record cannot be turned back into a resting order.
#[derive(Clone, Copy, Debug, PartialEq, Eq, Structural)]
pub enum RecordError {
    /// The stored side is not one of the two spellings.
    BadSide,
    /// The stored status is not a spelling of a non-terminal status.
    BadStatus,
    /// The stored timestamp is not a decimal number that fits.
    BadTimestamp,
    /// A zero price or zero remaining quantity cannot rest in the book.
    NotResting,
}

/// Decode one durable record into a resting order.
///
/// Succeeds exactly when the side spells a side, the status spells `Open`
/// or `PartiallyFilled`, the timestamp is a decimal number that fits, and
/// price and remaining quantity are positive.
pub fn order_from_record(
    id: u64,
    side_s: &str,
    price: u64,
    original_quantity: u64,
    remaining_quantity: u64,
    status_s: &str,
    timestamp_s: &str,
) -> (r: Result<Order, RecordError>)
    ensures
        r is Ok <==> ({
            &&& spec_side_from_wire(side_s@) is Some
            &&& (spec_status_from_wire(status_s@) == Some(OrderStatus::Open)
                || spec_status_from_wire(status_s@) == Some(OrderStatus::PartiallyFilled))
            &&& timestamp_s@.len() > 0
            &&& all_digits(timestamp_s@)
            &&& dec_val(timestamp_s@) <= u128::MAX
            &&& price > 0
            &&& remaining_quantity > 0
        }),
        r matches Ok(o) ==> ({
            &&& Some(o.side) == spec_side_from_wire(side_s@)
            &&& Some(o.status) == spec_status_from_wire(status_s@)
            &&& o.id == id
            &&& o.price == price
            &&& o.original_quantity == original_quantity
            &&& o.remaining_quantity == remaining_quantity
            &&& o.timestamp == dec_val(timestamp_s@)
            &&& o.live()
        }),
        r == Err::<Order, RecordError>(RecordError::BadSide) ==> spec_side_from_wire(side_s@)
            is None,
        r == Err::<Order, RecordError>(RecordError::BadStatus) ==> !(spec_status_from_wire(
            status_s@,
        ) == Some(OrderStatus::Open) || spec_status_from_wire(status_s@) == Some(
            OrderStatus::PartiallyFilled,
        )),
        r == Err::<Order, RecordError>(RecordError::BadTimestamp) ==> !(timestamp_s@.len() > 0
            && all_digits(timestamp_s@) && dec_val(timestamp_s@) <= u128::MAX),
        r == Err::<Order, RecordError>(RecordError::NotResting) ==> price == 0
            || remaining_quantity == 0,
{
    let side = match side_from_wire(side_s) {
        Some(s) => s,
        None => {
            return Err(RecordError::BadSide);
        },
    };
    let status = match status_from_wire(status_s) {
        Some(OrderStatus::Open) => OrderStatus::Open,
        Some(OrderStatus::PartiallyFilled) => OrderStatus::PartiallyFilled,
        _ => {
            return Err(RecordError::BadStatus);
        },
    };
    let timestamp = match parse_timestamp(timestamp_s) {
        Some(t) => t,
        None => {
            return Err(RecordError::BadTimestamp);
        },
    };
    if price == 0 || remaining_quantity == 0 {
        return Err(RecordError::NotResting);
    }
    Ok(Order { id, side, price, original_quantity, remaining_quantity, timestamp, status })
}

} // verus!
