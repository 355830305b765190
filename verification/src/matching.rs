//! The matching model: what a cascade of crossing trades does to the book.
//!
//! [`run_match`] is the mathematical description of the matching loop: while
//! the best bid price reaches the best ask price, the two head orders trade
//! the smaller of their remaining quantities at the maker's price (the price
//! of the resting order, i.e. the side opposite the taker), and a side whose
//! head is exhausted loses it.  The executable loop in [`crate::book`] is
//! proved to compute exactly this function.

use vstd::prelude::*;

use crate::index::{contains_id, side_ok};
use crate::order::{Order, OrderStatus, Side};

verus! {

/// One executed trade: the two parties, the quantity, the execution price
/// (the maker's price) and the taker's submission timestamp.
#[derive(Clone, Copy, Debug, PartialEq, Eq, Structural)]
pub struct Trade {
    pub bid_id: u64,
    pub ask_id: u64,
    pub quantity: u64,
    pub price: u64,
    pub timestamp: u128,
}

/// The state a matching cascade produces: both sides of the book, the
/// trades in execution order, and a post-trade snapshot of each affected
/// order (bid then ask, per trade) for the write-behind to the durable
/// store.
#[verifier::ext_equal]
pub struct MatchState {
    pub bids: Seq<Order>,
    pub asks: Seq<Order>,
    pub trades: Seq<Trade>,
    pub updates: Seq<Order>,
}

/// No id rests on both sides at once.
pub open spec fn id_disjoint(bids: Seq<Order>, asks: Seq<Order>) -> bool {
    forall|i: int, j: int|
        0 <= i < bids.len() && 0 <= j < asks.len() ==> (#[trigger] bids[i]).id != (
        #[trigger] asks[j]).id
}

/// Every order's remaining quantity is within its original quantity.
pub open spec fn all_bounded(s: Seq<Order>) -> bool {
    forall|i: int| 0 <= i < s.len() ==> (#[trigger] s[i]).bounded()
}

/// An order after trading `q` of its remaining quantity: `Filled` when
/// nothing is left, `PartiallyFilled` otherwise.
pub open spec fn after_trade(o: Order, q: u64) -> Order {
    Order {
        remaining_quantity: (o.remaining_quantity - q) as u64,
        status: if o.remaining_quantity == q {
            OrderStatus::Filled
        } else {
            OrderStatus::PartiallyFilled
        },
        ..o
    }
}

/// The matching cascade, run to completion.  `taker` is the side of the
/// order whose submission started the cascade; the opposite head is the
/// maker, whose price and whose counterparty's timestamp stamp each trade.
pub open spec fn run_match(bids: Seq<Order>, asks: Seq<Order>, taker: Side) -> MatchState
    decreases bids.len() + asks.len(),
{
    if bids.len() > 0 && asks.len() > 0 && bids[0].price >= asks[0].price
        && bids[0].remaining_quantity > 0 && asks[0].remaining_quantity > 0 {
        let b = bids[0];
        let a = asks[0];
        let q = if b.remaining_quantity <= a.remaining_quantity {
            b.remaining_quantity
        } else {
            a.remaining_quantity
        };
        let t = Trade {
            bid_id: b.id,
            ask_id: a.id,
            quantity: q,
            price: if taker is Buy {
                a.price
            } else {
                b.price
            },
            timestamp: if taker is Buy {
                b.timestamp
            } else {
                a.timestamp
            },
        };
        let b2 = after_trade(b, q);
        let a2 = after_trade(a, q);
        let bids2 = if b2.remaining_quantity == 0 {
            bids.drop_first()
        } else {
            bids.update(0, b2)
        };
        let asks2 = if a2.remaining_quantity == 0 {
            asks.drop_first()
        } else {
            asks.update(0, a2)
        };
        let rest = run_match(bids2, asks2, taker);
        MatchState {
            bids: rest.bids,
            asks: rest.asks,
            trades: seq![t] + rest.trades,
            updates: seq![b2, a2] + rest.updates,
        }
    } else {
        MatchState { bids, asks, trades: Seq::empty(), updates: Seq::empty() }
    }
}

/// Dropping the head of a well-formed side leaves it well-formed.
pub(crate) proof fn lemma_side_ok_drop_first(side: Side, s: Seq<Order>)
    requires
        side_ok(side, s),
        s.len() > 0,
    ensures
        side_ok(side, s.drop_first()),
        forall|id: u64| contains_id(s.drop_first(), id) ==> contains_id(s, id),
{
    let d = s.drop_first();
    assert(forall|i: int| 0 <= i < d.len() ==> #[trigger] d[i] == s[i + 1]);
    assert forall|id: u64| contains_id(d, id) implies contains_id(s, id) by {
        let w = choose|i: int| 0 <= i < d.len() && (#[trigger] d[i]).id == id;
        assert(s[w + 1].id == id);
    }
}

/// Replacing the head with an order of the same id and price (still live)
/// leaves a well-formed side well-formed.
pub(crate) proof fn lemma_side_ok_update_head(side: Side, s: Seq<Order>, o: Order)
    requires
        side_ok(side, s),
        s.len() > 0,
        o.live(),
        o.side == side,
        o.id == s[0].id,
        o.price == s[0].price,
    ensures
        side_ok(side, s.update(0, o)),
        forall|id: u64| contains_id(s.update(0, o), id) ==> contains_id(s, id),
{
    let u = s.update(0, o);
    assert(forall|i: int| 0 < i < u.len() ==> #[trigger] u[i] == s[i]);
    assert forall|id: u64| contains_id(u, id) implies contains_id(s, id) by {
        let w = choose|i: int| 0 <= i < u.len() && (#[trigger] u[i]).id == id;
        assert(s[w].id == id);
    }
}

/// What the matching cascade guarantees: both sides stay well-formed and
/// disjoint, no id appears that was not already resting, boundedness is
/// preserved, and — the crossing invariant — when both sides remain
/// non-empty the best bid price is strictly below the best ask price.
pub proof fn lemma_run_match_props(bids: Seq<Order>, asks: Seq<Order>, taker: Side)
    requires
        side_ok(Side::Buy, bids),
        side_ok(Side::Sell, asks),
        id_disjoint(bids, asks),
    ensures
        ({
            let r = run_match(bids, asks, taker);
            &&& side_ok(Side::Buy, r.bids)
            &&& side_ok(Side::Sell, r.asks)
            &&& id_disjoint(r.bids, r.asks)
            &&& (r.bids.len() > 0 && r.asks.len() > 0 ==> r.bids[0].price < r.asks[0].price)
            &&& forall|id: u64| contains_id(r.bids, id) ==> contains_id(bids, id)
            &&& forall|id: u64| contains_id(r.asks, id) ==> contains_id(asks, id)
            &&& (all_bounded(bids) && all_bounded(asks) ==> all_bounded(r.bids) && all_bounded(
                r.asks,
            ) && all_bounded(r.updates))
        }),
    decreases bids.len() + asks.len(),
{
    let r = run_match(bids, asks, taker);
    if bids.len() > 0 && asks.len() > 0 && bids[0].price >= asks[0].price
        && bids[0].remaining_quantity > 0 && asks[0].remaining_quantity > 0 {
        let b = bids[0];
        let a = asks[0];
        let q = if b.remaining_quantity <= a.remaining_quantity {
            b.remaining_quantity
        } else {
            a.remaining_quantity
        };
        let b2 = after_trade(b, q);
        let a2 = after_trade(a, q);
        let bids2 = if b2.remaining_quantity == 0 {
            bids.drop_first()
        } else {
            bids.update(0, b2)
        };
        let asks2 = if a2.remaining_quantity == 0 {
            asks.drop_first()
        } else {
            asks.update(0, a2)
        };
        if b2.remaining_quantity == 0 {
            lemma_side_ok_drop_first(Side::Buy, bids);
        } else {
            lemma_side_ok_update_head(Side::Buy, bids, b2);
        }
        if a2.remaining_quantity == 0 {
            lemma_side_ok_drop_first(Side::Sell, asks);
        } else {
            lemma_side_ok_update_head(Side::Sell, asks, a2);
        }
        assert forall|i: int, j: int|
            0 <= i < bids2.len() && 0 <= j < asks2.len() implies (#[trigger] bids2[i]).id != (
        #[trigger] asks2[j]).id by {
            assert(contains_id(bids2, bids2[i].id));
            assert(contains_id(asks2, asks2[j].id));
            let wi = choose|w: int| 0 <= w < bids.len() && (#[trigger] bids[w]).id == bids2[i].id;
            let wj = choose|w: int| 0 <= w < asks.len() && (#[trigger] asks[w]).id == asks2[j].id;
            assert(bids[wi].id != asks[wj].id);
        }
        lemma_run_match_props(bids2, asks2, taker);
        let rest = run_match(bids2, asks2, taker);
        assert(r.bids == rest.bids && r.asks == rest.asks);
        assert forall|id: u64| contains_id(r.bids, id) implies contains_id(bids, id) by {}
        assert forall|id: u64| contains_id(r.asks, id) implies contains_id(asks, id) by {}
        if all_bounded(bids) && all_bounded(asks) {
            assert(b2.bounded() && a2.bounded());
            assert forall|i: int| 0 <= i < bids2.len() implies (#[trigger] bids2[i]).bounded() by {
                if b2.remaining_quantity == 0 {
                    assert(bids2[i] == bids[i + 1]);
                } else if i > 0 {
                    assert(bids2[i] == bids[i]);
                }
            }
            assert forall|i: int| 0 <= i < asks2.len() implies (#[trigger] asks2[i]).bounded() by {
                if a2.remaining_quantity == 0 {
                    assert(asks2[i] == asks[i + 1]);
                } else if i > 0 {
                    assert(asks2[i] == asks[i]);
                }
            }
            assert forall|i: int| 0 <= i < r.updates.len() implies (
            #[trigger] r.updates[i]).bounded() by {
                if i >= 2 {
                    assert(r.updates[i] == rest.updates[i - 2]);
                }
            }
        }
    } else {
        assert(r.bids == bids && r.asks == asks);
    }
}

} // verus!
