//! The order book: two price-time indexes and the operations on them.
//!
//! Every mutating operation's contract pins the new book down exactly, over
//! the spec-level model [`BookModel`]: submission is insertion followed by
//! [`run_match`], modification replaces a remaining quantity in place, and
//! cancellation removes an order while every other order keeps its place.
//! The crossing invariant — the best bid strictly below the best ask after
//! every operation — and preservation of well-formedness and quantity
//! bounds are stated on each operation as well.

use vstd::prelude::*;

use crate::index::{
    contains_id, find_idx, insert_pos, keeps_ahead, lemma_find_idx_props, side_ok, PriceTimeIndex,
};
use crate::matching::{
    after_trade, all_bounded, id_disjoint, lemma_run_match_props, lemma_side_ok_drop_first,
    lemma_side_ok_update_head, run_match, Trade,
};
use crate::order::{Order, OrderStatus, Side};

verus! {

/// The mathematical content of an [`OrderBook`]: the two sides as
/// sequences, best order first.
#[verifier::ext_equal]
pub struct BookModel {
    pub bids: Seq<Order>,
    pub asks: Seq<Order>,
}

/// Both sides well-formed and no id resting on both sides.
pub open spec fn book_wf(m: BookModel) -> bool {
    &&& side_ok(Side::Buy, m.bids)
    &&& side_ok(Side::Sell, m.asks)
    &&& id_disjoint(m.bids, m.asks)
}

/// The id rests somewhere in the book.
pub open spec fn book_contains_id(m: BookModel, id: u64) -> bool {
    contains_id(m.bids, id) || contains_id(m.asks, id)
}

/// The crossing invariant: while both sides are non-empty, the best bid
/// price is strictly below the best ask price.
pub open spec fn no_crossing(m: BookModel) -> bool {
    m.bids.len() > 0 && m.asks.len() > 0 ==> m.bids[0].price < m.asks[0].price
}

/// Every resting order's remaining quantity is within its original.
pub open spec fn book_bounded(m: BookModel) -> bool {
    all_bounded(m.bids) && all_bounded(m.asks)
}

/// The book with `o` placed at its price-time position on its own side.
pub open spec fn spec_insert(m: BookModel, o: Order) -> BookModel {
    match o.side {
        Side::Buy => BookModel {
            bids: m.bids.insert(insert_pos(Side::Buy, m.bids, o.price), o),
            ..m
        },
        Side::Sell => BookModel {
            asks: m.asks.insert(insert_pos(Side::Sell, m.asks, o.price), o),
            ..m
        },
    }
}

/// What cancelling `id` does: the new book and the returned snapshot (the
/// removed order, marked `Cancelled`), or `None` when the id rests nowhere.
pub open spec fn spec_cancel(m: BookModel, id: u64) -> (BookModel, Option<Order>) {
    let bi = find_idx(m.bids, id);
    let ai = find_idx(m.asks, id);
    if bi >= 0 {
        (
            BookModel { bids: m.bids.remove(bi), ..m },
            Some((Order { status: OrderStatus::Cancelled, ..m.bids[bi] })),
        )
    } else if ai >= 0 {
        (
            BookModel { asks: m.asks.remove(ai), ..m },
            Some((Order { status: OrderStatus::Cancelled, ..m.asks[ai] })),
        )
    } else {
        (m, None)
    }
}

/// An order with its remaining quantity replaced by `q`: `PartiallyFilled`
/// when something has been taken off the original quantity, `Open`
/// otherwise.
pub open spec fn modified_order(o: Order, q: u64) -> Order {
    Order {
        remaining_quantity: q,
        status: if q < o.original_quantity {
            OrderStatus::PartiallyFilled
        } else {
            OrderStatus::Open
        },
        ..o
    }
}

/// What modifying `id` to quantity `q` does: a zero quantity cancels;
/// otherwise the order is updated in place, keeping its priority position.
pub open spec fn spec_modify(m: BookModel, id: u64, q: u64) -> (BookModel, Option<Order>) {
    if q == 0 {
        spec_cancel(m, id)
    } else {
        let bi = find_idx(m.bids, id);
        let ai = find_idx(m.asks, id);
        if bi >= 0 {
            (
                BookModel { bids: m.bids.update(bi, modified_order(m.bids[bi], q)), ..m },
                Some(modified_order(m.bids[bi], q)),
            )
        } else if ai >= 0 {
            (
                BookModel { asks: m.asks.update(ai, modified_order(m.asks[ai], q)), ..m },
                Some(modified_order(m.asks[ai], q)),
            )
        } else {
            (m, None)
        }
    }
}

/// The trades and per-order snapshots an operation produced, in execution
/// order, for the write-behind to the durable store.
#[derive(Debug)]
pub struct MatchOutcome {
    pub trades: Vec<Trade>,
    pub updates: Vec<Order>,
}

/// The order book: bids and asks.
#[derive(Debug)]
pub struct OrderBook {
    pub bids: PriceTimeIndex,
    pub asks: PriceTimeIndex,
}

impl View for OrderBook {
    type V = BookModel;

    open spec fn view(&self) -> BookModel {
        BookModel { bids: self.bids.orders@, asks: self.asks.orders@ }
    }
}

impl OrderBook {
    /// Well-formedness: sides correctly tagged and the model well-formed.
    pub open spec fn wf(self) -> bool {
        &&& self.bids.side is Buy
        &&& self.asks.side is Sell
        &&& book_wf(self@)
    }

    /// An empty book.
    pub fn new() -> (r: OrderBook)
        ensures
            r.wf(),
            r@.bids == Seq::<Order>::empty(),
            r@.asks == Seq::<Order>::empty(),
    {
        OrderBook { bids: PriceTimeIndex::new(Side::Buy), asks: PriceTimeIndex::new(Side::Sell) }
    }

    /// Place a new order on its side and run the matching cascade.
    ///
    /// The caller supplies a live order with a fresh id; the result is
    /// exactly [`spec_insert`] followed by [`run_match`], and afterwards the
    /// book holds no crossing.
    pub fn add_order(&mut self, order: Order) -> (out: MatchOutcome)
        requires
            old(self).wf(),
            order.live(),
            !book_contains_id(old(self)@, order.id),
        ensures
            final(self).wf(),
            ({
                let m1 = spec_insert(old(self)@, order);
                let r = run_match(m1.bids, m1.asks, order.side);
                &&& final(self)@.bids == r.bids
                &&& final(self)@.asks == r.asks
                &&& out.trades@ == r.trades
                &&& out.updates@ == r.updates
            }),
            no_crossing(final(self)@),
            book_bounded(old(self)@) && order.bounded() ==> book_bounded(final(self)@)
                && all_bounded(out.updates@),
            forall|x: u64|
                book_contains_id(final(self)@, x) ==> book_contains_id(old(self)@, x) || x
                    == order.id,
            forall|x: u64|
                contains_id(final(self)@.bids, x) ==> contains_id(
                    spec_insert(old(self)@, order).bids,
                    x,
                ),
            forall|x: u64|
                contains_id(final(self)@.asks, x) ==> contains_id(
                    spec_insert(old(self)@, order).asks,
                    x,
                ),
    {
        let ghost m0 = self@;
        match order.side {
            Side::Buy => self.bids.insert(order),
            Side::Sell => self.asks.insert(order),
        }
        proof {
            let m1 = self@;
            if order.side is Buy {
                crate::index::lemma_insert_pos_props(Side::Buy, m0.bids, order.price);
                m0.bids.insert_ensures(insert_pos(Side::Buy, m0.bids, order.price), order);
            } else {
                crate::index::lemma_insert_pos_props(Side::Sell, m0.asks, order.price);
                m0.asks.insert_ensures(insert_pos(Side::Sell, m0.asks, order.price), order);
            }
            assert(m1 == spec_insert(m0, order));
            assert forall|i: int, j: int|
                0 <= i < m1.bids.len() && 0 <= j < m1.asks.len() implies (
            #[trigger] m1.bids[i]).id != (#[trigger] m1.asks[j]).id by {
                if order.side is Buy {
                    let k = insert_pos(Side::Buy, m0.bids, order.price);
                    assert(m1.asks[j] == m0.asks[j]);
                    if i < k {
                        assert(m1.bids[i] == m0.bids[i]);
                    } else if i == k {
                        assert(m1.bids[i] == order);
                        assert(!contains_id(m0.asks, order.id));
                    } else {
                        assert(m1.bids[i] == m0.bids[i - 1]);
                    }
                } else {
                    let k = insert_pos(Side::Sell, m0.asks, order.price);
                    assert(m1.bids[i] == m0.bids[i]);
                    if j < k {
                        assert(m1.asks[j] == m0.asks[j]);
                    } else if j == k {
                        assert(m1.asks[j] == order);
                        assert(!contains_id(m0.bids, order.id));
                    } else {
                        assert(m1.asks[j] == m0.asks[j - 1]);
                    }
                }
            }
            if book_bounded(m0) && order.bounded() {
                assert forall|i: int| 0 <= i < m1.bids.len() implies (
                #[trigger] m1.bids[i]).bounded() by {
                    if order.side is Buy {
                        let k = insert_pos(Side::Buy, m0.bids, order.price);
                        if i < k {
                            assert(m1.bids[i] == m0.bids[i]);
                        } else if i > k {
                            assert(m1.bids[i] == m0.bids[i - 1]);
                        }
                    } else {
                        assert(m1.bids[i] == m0.bids[i]);
                    }
                }
                assert forall|i: int| 0 <= i < m1.asks.len() implies (
                #[trigger] m1.asks[i]).bounded() by {
                    if order.side is Sell {
                        let k = insert_pos(Side::Sell, m0.asks, order.price);
                        if i < k {
                            assert(m1.asks[i] == m0.asks[i]);
                        } else if i > k {
                            assert(m1.asks[i] == m0.asks[i - 1]);
                        }
                    } else {
                        assert(m1.asks[i] == m0.asks[i]);
                    }
                }
            }
            assert forall|x: u64| book_contains_id(m1, x) implies book_contains_id(m0, x) || x
                == order.id by {
                if contains_id(m1.bids, x) {
                    let w = choose|i: int|
                        0 <= i < m1.bids.len() && (#[trigger] m1.bids[i]).id == x;
                    if order.side is Buy {
                        let k = insert_pos(Side::Buy, m0.bids, order.price);
                        if w < k {
                            assert(m0.bids[w].id == x);
                        } else if w > k {
                            assert(m0.bids[w - 1].id == x);
                        }
                    } else {
                        assert(m0.bids[w].id == x);
                    }
                } else {
                    let w = choose|i: int|
                        0 <= i < m1.asks.len() && (#[trigger] m1.asks[i]).id == x;
                    if order.side is Sell {
                        let k = insert_pos(Side::Sell, m0.asks, order.price);
                        if w < k {
                            assert(m0.asks[w].id == x);
                        } else if w > k {
                            assert(m0.asks[w - 1].id == x);
                        }
                    } else {
                        assert(m0.asks[w].id == x);
                    }
                }
            }
            lemma_run_match_props(m1.bids, m1.asks, order.side);
        }
        self.try_match(order.side)
    }

    /// The matching cascade: repeatedly trade the two head orders while the
    /// best bid price reaches the best ask price.  Computes exactly
    /// [`run_match`] over the book at entry.
    fn try_match(&mut self, taker: Side) -> (out: MatchOutcome)
        requires
            old(self).wf(),
        ensures
            final(self).wf(),
            ({
                let r = run_match(old(self)@.bids, old(self)@.asks, taker);
                &&& final(self)@.bids == r.bids
                &&& final(self)@.asks == r.asks
                &&& out.trades@ == r.trades
                &&& out.updates@ == r.updates
            }),
            no_crossing(final(self)@),
            forall|x: u64|
                book_contains_id(final(self)@, x) ==> book_contains_id(old(self)@, x),
    {
        let ghost b0 = self@.bids;
        let ghost a0 = self@.asks;
        let mut trades: Vec<Trade> = Vec::new();
        let mut updates: Vec<Order> = Vec::new();
        proof {
            lemma_run_match_props(b0, a0, taker);
        }
        while self.bids.orders.len() > 0 && self.asks.orders.len() > 0
            && self.bids.orders[0].price >= self.asks.orders[0].price
            invariant
                self.bids.side is Buy,
                self.asks.side is Sell,
                book_wf(self@),
                ({
                    let r0 = run_match(b0, a0, taker);
                    let cur = run_match(self@.bids, self@.asks, taker);
                    &&& r0.bids == cur.bids
                    &&& r0.asks == cur.asks
                    &&& r0.trades == trades@ + cur.trades
                    &&& r0.updates == updates@ + cur.updates
                }),
                forall|x: u64| book_contains_id(self@, x) ==> book_contains_id(
                    BookModel { bids: b0, asks: a0 },
                    x,
                ),
            decreases self.bids.orders.len() + self.asks.orders.len(),
        {
            let ghost mc = self@;
            let b = self.bids.orders[0];
            let a = self.asks.orders[0];
            let q = if b.remaining_quantity <= a.remaining_quantity {
                b.remaining_quantity
            } else {
                a.remaining_quantity
            };
            let price = match taker {
                Side::Buy => a.price,
                Side::Sell => b.price,
            };
            let ts = match taker {
                Side::Buy => b.timestamp,
                Side::Sell => a.timestamp,
            };
            trades.push(Trade { bid_id: b.id, ask_id: a.id, quantity: q, price, timestamp: ts });
            let mut b2 = b;
            b2.remaining_quantity = b.remaining_quantity - q;
            b2.status = if b2.remaining_quantity == 0 {
                OrderStatus::Filled
            } else {
                OrderStatus::PartiallyFilled
            };
            let mut a2 = a;
            a2.remaining_quantity = a.remaining_quantity - q;
            a2.status = if a2.remaining_quantity == 0 {
                OrderStatus::Filled
            } else {
                OrderStatus::PartiallyFilled
            };
            updates.push(b2);
            updates.push(a2);
            if b2.remaining_quantity == 0 {
                self.bids.orders.remove(0);
            } else {
                self.bids.orders.set(0, b2);
            }
            if a2.remaining_quantity == 0 {
                self.asks.orders.remove(0);
            } else {
                self.asks.orders.set(0, a2);
            }
            proof {
                assert(b2 == after_trade(mc.bids[0], q));
                assert(a2 == after_trade(mc.asks[0], q));
                let bids2 = if b2.remaining_quantity == 0 {
                    mc.bids.drop_first()
                } else {
                    mc.bids.update(0, b2)
                };
                let asks2 = if a2.remaining_quantity == 0 {
                    mc.asks.drop_first()
                } else {
                    mc.asks.update(0, a2)
                };
                assert(self@.bids =~= bids2);
                assert(self@.asks =~= asks2);
                if b2.remaining_quantity == 0 {
                    lemma_side_ok_drop_first(Side::Buy, mc.bids);
                } else {
                    lemma_side_ok_update_head(Side::Buy, mc.bids, b2);
                }
                if a2.remaining_quantity == 0 {
                    lemma_side_ok_drop_first(Side::Sell, mc.asks);
                } else {
                    lemma_side_ok_update_head(Side::Sell, mc.asks, a2);
                }
                assert forall|i: int, j: int|
                    0 <= i < bids2.len() && 0 <= j < asks2.len() implies (
                #[trigger] bids2[i]).id != (#[trigger] asks2[j]).id by {
                    assert(contains_id(bids2, bids2[i].id));
                    assert(contains_id(asks2, asks2[j].id));
                    let wi = choose|w: int|
                        0 <= w < mc.bids.len() && (#[trigger] mc.bids[w]).id == bids2[i].id;
                    let wj = choose|w: int|
                        0 <= w < mc.asks.len() && (#[trigger] mc.asks[w]).id == asks2[j].id;
                    assert(mc.bids[wi].id != mc.asks[wj].id);
                }
                let cur = run_match(mc.bids, mc.asks, taker);
                let rest = run_match(bids2, asks2, taker);
                let t = Trade { bid_id: b.id, ask_id: a.id, quantity: q, price: price, timestamp: ts };
                assert(cur.bids == rest.bids && cur.asks == rest.asks);
                assert(cur.trades == seq![t] + rest.trades);
                assert(cur.updates == seq![b2, a2] + rest.updates);
                let r0 = run_match(b0, a0, taker);
                assert(r0.trades =~= trades@ + rest.trades);
                assert(r0.updates =~= updates@ + rest.updates);
                assert forall|x: u64| book_contains_id(self@, x) implies book_contains_id(
                    BookModel { bids: b0, asks: a0 },
                    x,
                ) by {
                    assert(book_contains_id(mc, x));
                }
            }
        }
        proof {
            let r0 = run_match(b0, a0, taker);
            let cur = run_match(self@.bids, self@.asks, taker);
            assert(cur.bids == self@.bids && cur.asks == self@.asks);
            assert(r0.trades =~= trades@);
            assert(r0.updates =~= updates@);
        }
        MatchOutcome { trades, updates }
    }

    /// Replace an order's remaining quantity, keeping its priority
    /// position; a zero quantity cancels instead.  Returns the updated
    /// snapshot, or `None` when the id rests nowhere.
    pub fn modify_order(&mut self, id: u64, new_quantity: u64) -> (r: Option<Order>)
        requires
            old(self).wf(),
        ensures
            final(self).wf(),
            final(self)@ == spec_modify(old(self)@, id, new_quantity).0,
            r == spec_modify(old(self)@, id, new_quantity).1,
            r is Some <==> book_contains_id(old(self)@, id),
            r is None ==> final(self)@ == old(self)@,
            no_crossing(old(self)@) ==> no_crossing(final(self)@),
            book_bounded(old(self)@) && (r matches Some(o) ==> new_quantity
                <= o.original_quantity) ==> book_bounded(final(self)@),
            forall|x: u64| book_contains_id(final(self)@, x) ==> book_contains_id(old(self)@, x),
    {
        if new_quantity == 0 {
            return self.cancel_order(id);
        }
        let ghost m0 = self@;
        proof {
            lemma_find_idx_props(m0.bids, id);
            lemma_find_idx_props(m0.asks, id);
        }
        if let Some(i) = self.bids.find(id) {
            let o = self.bids.orders[i];
            let status = if new_quantity < o.original_quantity {
                OrderStatus::PartiallyFilled
            } else {
                OrderStatus::Open
            };
            self.bids.set_quantity(i, new_quantity, status);
            let mut updated = o;
            updated.remaining_quantity = new_quantity;
            updated.status = status;
            proof {
                let m1 = self@;
                assert(m1.bids =~= m0.bids.update(find_idx(m0.bids, id), modified_order(
                    m0.bids[find_idx(m0.bids, id)],
                    new_quantity,
                )));
                assert forall|x: u64| book_contains_id(m1, x) implies book_contains_id(m0, x) by {
                    if contains_id(m1.bids, x) {
                        let w = choose|k: int|
                            0 <= k < m1.bids.len() && (#[trigger] m1.bids[k]).id == x;
                        assert(m0.bids[w].id == x);
                    }
                }
                if book_bounded(m0) && new_quantity <= o.original_quantity {
                    assert forall|k: int| 0 <= k < m1.bids.len() implies (
                    #[trigger] m1.bids[k]).bounded() by {
                        if k != find_idx(m0.bids, id) {
                            assert(m1.bids[k] == m0.bids[k]);
                        }
                    }
                }
            }
            return Some(updated);
        }
        if let Some(i) = self.asks.find(id) {
            let o = self.asks.orders[i];
            let status = if new_quantity < o.original_quantity {
                OrderStatus::PartiallyFilled
            } else {
                OrderStatus::Open
            };
            self.asks.set_quantity(i, new_quantity, status);
            let mut updated = o;
            updated.remaining_quantity = new_quantity;
            updated.status = status;
            proof {
                let m1 = self@;
                assert(m1.asks =~= m0.asks.update(find_idx(m0.asks, id), modified_order(
                    m0.asks[find_idx(m0.asks, id)],
                    new_quantity,
                )));
                assert forall|x: u64| book_contains_id(m1, x) implies book_contains_id(m0, x) by {
                    if contains_id(m1.asks, x) {
                        let w = choose|k: int|
                            0 <= k < m1.asks.len() && (#[trigger] m1.asks[k]).id == x;
                        assert(m0.asks[w].id == x);
                    }
                }
                if book_bounded(m0) && new_quantity <= o.original_quantity {
                    assert forall|k: int| 0 <= k < m1.asks.len() implies (
                    #[trigger] m1.asks[k]).bounded() by {
                        if k != find_idx(m0.asks, id) {
                            assert(m1.asks[k] == m0.asks[k]);
                        }
                    }
                }
            }
            return Some(updated);
        }
        None
    }

    /// Remove the order with this id from whichever side holds it and
    /// return its snapshot marked `Cancelled`; `None` when the id rests
    /// nowhere.  Every other order keeps its place.
    pub fn cancel_order(&mut self, id: u64) -> (r: Option<Order>)
        requires
            old(self).wf(),
        ensures
            final(self).wf(),
            final(self)@ == spec_cancel(old(self)@, id).0,
            r == spec_cancel(old(self)@, id).1,
            r is Some <==> book_contains_id(old(self)@, id),
            r is None ==> final(self)@ == old(self)@,
            !book_contains_id(final(self)@, id),
            no_crossing(old(self)@) ==> no_crossing(final(self)@),
            book_bounded(old(self)@) ==> book_bounded(final(self)@),
            forall|x: u64| book_contains_id(final(self)@, x) ==> book_contains_id(old(self)@, x),
    {
        let ghost m0 = self@;
        proof {
            lemma_find_idx_props(m0.bids, id);
            lemma_find_idx_props(m0.asks, id);
        }
        if let Some(mut o) = self.bids.remove_by_id(id) {
            o.status = OrderStatus::Cancelled;
            proof {
                self.lemma_after_remove(m0, id, true);
            }
            return Some(o);
        }
        if let Some(mut o) = self.asks.remove_by_id(id) {
            o.status = OrderStatus::Cancelled;
            proof {
                self.lemma_after_remove(m0, id, false);
            }
            return Some(o);
        }
        None
    }

    /// Supporting facts about the book after one side dropped the order
    /// holding `id`: no id gained, `id` gone, bounds and the crossing
    /// invariant preserved.
    proof fn lemma_after_remove(&self, m0: BookModel, id: u64, from_bids: bool)
        requires
            book_wf(m0),
            from_bids ==> find_idx(m0.bids, id) >= 0 && self@ == (BookModel {
                bids: m0.bids.remove(find_idx(m0.bids, id)),
                ..m0
            }),
            !from_bids ==> find_idx(m0.asks, id) >= 0 && self@ == (BookModel {
                asks: m0.asks.remove(find_idx(m0.asks, id)),
                ..m0
            }),
        ensures
            forall|x: u64| book_contains_id(self@, x) ==> book_contains_id(m0, x),
            !book_contains_id(self@, id),
            book_bounded(m0) ==> book_bounded(self@),
            no_crossing(m0) ==> no_crossing(self@),
            id_disjoint(self@.bids, self@.asks),
    {
        lemma_find_idx_props(m0.bids, id);
        lemma_find_idx_props(m0.asks, id);
        let m1 = self@;
        if from_bids {
            let fi = find_idx(m0.bids, id);
            assert(forall|k: int|
                0 <= k < m1.bids.len() ==> #[trigger] m1.bids[k] == (if k < fi {
                    m0.bids[k]
                } else {
                    m0.bids[k + 1]
                }));
            assert forall|x: u64| book_contains_id(m1, x) implies book_contains_id(m0, x) by {
                if contains_id(m1.bids, x) {
                    let w = choose|k: int| 0 <= k < m1.bids.len() && (#[trigger] m1.bids[k]).id == x;
                    assert(contains_id(m0.bids, m1.bids[w].id));
                }
            }
            assert forall|k: int| 0 <= k < m1.bids.len() implies (#[trigger] m1.bids[k]).id != id
                by {}
            assert(!contains_id(m1.bids, id));
            assert(!contains_id(m1.asks, id)) by {
                if contains_id(m0.asks, id) {
                    let w = choose|k: int| 0 <= k < m0.asks.len() && (#[trigger] m0.asks[k]).id == id;
                    assert(m0.bids[fi].id != m0.asks[w].id);
                }
            }
            if no_crossing(m0) && m1.bids.len() > 0 && m1.asks.len() > 0 {
                assert(m0.bids.len() > 0);
                if fi == 0 {
                    assert(m1.bids[0] == m0.bids[1]);
                    assert(keeps_ahead(Side::Buy, m0.bids[0].price, m0.bids[1].price));
                } else {
                    assert(m1.bids[0] == m0.bids[0]);
                }
            }
        } else {
            let fi = find_idx(m0.asks, id);
            assert(forall|k: int|
                0 <= k < m1.asks.len() ==> #[trigger] m1.asks[k] == (if k < fi {
                    m0.asks[k]
                } else {
                    m0.asks[k + 1]
                }));
            assert forall|x: u64| book_contains_id(m1, x) implies book_contains_id(m0, x) by {
                if contains_id(m1.asks, x) {
                    let w = choose|k: int| 0 <= k < m1.asks.len() && (#[trigger] m1.asks[k]).id == x;
                    assert(contains_id(m0.asks, m1.asks[w].id));
                }
            }
            assert forall|k: int| 0 <= k < m1.asks.len() implies (#[trigger] m1.asks[k]).id != id
                by {}
            assert(!contains_id(m1.asks, id));
            assert(!contains_id(m1.bids, id)) by {
                if contains_id(m0.bids, id) {
                    let w = choose|k: int| 0 <= k < m0.bids.len() && (#[trigger] m0.bids[k]).id == id;
                    assert(m0.bids[w].id != m0.asks[fi].id);
                }
            }
            if no_crossing(m0) && m1.bids.len() > 0 && m1.asks.len() > 0 {
                assert(m0.asks.len() > 0);
                if fi == 0 {
                    assert(m1.asks[0] == m0.asks[1]);
                    assert(keeps_ahead(Side::Sell, m0.asks[0].price, m0.asks[1].price));
                } else {
                    assert(m1.asks[0] == m0.asks[0]);
                }
            }
        }
    }

    /// A snapshot of the resting order with this id, if any.
    pub fn get_order(&self, id: u64) -> (r: Option<Order>)
        ensures
            ({
                let bi = find_idx(self@.bids, id);
                let ai = find_idx(self@.asks, id);
                if bi >= 0 {
                    r == Some(self@.bids[bi])
                } else if ai >= 0 {
                    r == Some(self@.asks[ai])
                } else {
                    r == None::<Order>
                }
            }),
            r is Some <==> book_contains_id(self@, id),
    {
        proof {
            lemma_find_idx_props(self@.bids, id);
            lemma_find_idx_props(self@.asks, id);
        }
        match self.bids.find(id) {
            Some(i) => Some(self.bids.orders[i]),
            None => match self.asks.find(id) {
                Some(i) => Some(self.asks.orders[i]),
                None => None,
            },
        }
    }
}

/// Cancellation is idempotent: whatever the first cancel of an id did to a
/// well-formed book, a second cancel of the same id returns `None`.
pub proof fn lemma_cancel_idempotent(m: BookModel, id: u64)
    requires
        book_wf(m),
    ensures
        spec_cancel(spec_cancel(m, id).0, id).1 is None,
{
    lemma_find_idx_props(m.bids, id);
    lemma_find_idx_props(m.asks, id);
    let m2 = spec_cancel(m, id).0;
    if find_idx(m.bids, id) >= 0 {
        let fi = find_idx(m.bids, id);
        assert forall|k: int| 0 <= k < m2.bids.len() implies (#[trigger] m2.bids[k]).id != id by {
            if k < fi {
                assert(m2.bids[k] == m.bids[k]);
            } else {
                assert(m2.bids[k] == m.bids[k + 1]);
            }
        }
        assert forall|k: int| 0 <= k < m2.asks.len() implies (#[trigger] m2.asks[k]).id != id by {
            assert(m.bids[fi].id != m.asks[k].id);
        }
        lemma_find_idx_props(m2.bids, id);
        lemma_find_idx_props(m2.asks, id);
        assert(!contains_id(m2.bids, id) && !contains_id(m2.asks, id));
    } else if find_idx(m.asks, id) >= 0 {
        let fi = find_idx(m.asks, id);
        assert forall|k: int| 0 <= k < m2.asks.len() implies (#[trigger] m2.asks[k]).id != id by {
            if k < fi {
                assert(m2.asks[k] == m.asks[k]);
            } else {
                assert(m2.asks[k] == m.asks[k + 1]);
            }
        }
        lemma_find_idx_props(m2.bids, id);
        lemma_find_idx_props(m2.asks, id);
        assert(!contains_id(m2.bids, id) && !contains_id(m2.asks, id));
    } else {
        assert(m2 == m);
    }
}

/// Modifying — or cancelling — an id that rests nowhere returns `None` and
/// leaves the book unchanged, however often it is tried.
pub proof fn lemma_modify_absent(m: BookModel, id: u64, q: u64)
    requires
        !book_contains_id(m, id),
    ensures
        spec_modify(m, id, q).1 is None,
        spec_modify(m, id, q).0 == m,
{
    lemma_find_idx_props(m.bids, id);
    lemma_find_idx_props(m.asks, id);
}

} // verus!
