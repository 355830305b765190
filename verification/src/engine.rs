//! The engine: the order book together with the id allocator.
//!
//! [`Engine::submit`] validates a request, allocates a fresh strictly
//! increasing id, places the order and runs the matching cascade;
//! [`Engine::recover`] rebuilds an engine from the orders read back from
//! the durable store, in price-time order, with the id allocator set past
//! every id ever issued so that no id is reused across a restart.

use vstd::multiset::Multiset;
use vstd::prelude::*;

use crate::book::{
    book_bounded, book_contains_id, no_crossing, spec_cancel, spec_insert, spec_modify,
    BookModel, OrderBook,
};
use crate::index::{
    contains_id, find_idx, ids_unique, lemma_contains_push, lemma_find_idx_props,
    lemma_insert_contains, restored_pos, time_sorted,
};
use crate::matching::{run_match, Trade};
use crate::order::{Order, OrderStatus, Side};

verus! {

/// Why a submission was rejected: a non-positive price or quantity.
/// Rejection happens before any state mutation.
#[derive(Clone, Copy, Debug, PartialEq, Eq, Structural)]
pub enum ValidationError {
    NonPositivePrice,
    NonPositiveQuantity,
}

/// Why a set of durable records cannot rebuild a book.
#[derive(Clone, Copy, Debug, PartialEq, Eq, Structural)]
pub enum RecoveryError {
    /// A record is not a resting order: zero price or quantity, or a
    /// terminal status.
    InvalidOrder,
    /// Two records carry the same id.
    DuplicateId,
    /// A record carries the largest representable id, so no fresh id is
    /// left to allocate.
    IdExhausted,
}

/// What a successful submission returns: the submitted order's resulting
/// state, the trades executed, and the affected orders' post-trade
/// snapshots for the write-behind.
#[derive(Debug)]
pub struct Submission {
    pub order: Order,
    pub trades: Vec<Trade>,
    pub updates: Vec<Order>,
}

/// The freshly constructed order a submission places in the book.
pub open spec fn fresh_order(id: u64, side: Side, price: u64, quantity: u64, timestamp: u128) -> Order {
    Order {
        id,
        side,
        price,
        original_quantity: quantity,
        remaining_quantity: quantity,
        timestamp,
        status: OrderStatus::Open,
    }
}

/// The submitted order's state once matching has finished: its record on
/// its own side if it still rests there, else fully filled.
pub open spec fn settled(o: Order, m: BookModel) -> Order {
    let s = if o.side is Buy {
        m.bids
    } else {
        m.asks
    };
    let i = find_idx(s, o.id);
    if i >= 0 {
        s[i]
    } else {
        Order { remaining_quantity: 0, status: OrderStatus::Filled, ..o }
    }
}

/// Every id resting in the book is below `n`.
pub open spec fn ids_below(m: BookModel, n: u64) -> bool {
    forall|id: u64| book_contains_id(m, id) ==> id < n
}

/// The largest id among the orders, 0 when there are none.
pub open spec fn max_id(s: Seq<Order>) -> u64
    decreases s.len(),
{
    if s.len() == 0 {
        0
    } else if s.last().id > max_id(s.drop_last()) {
        s.last().id
    } else {
        max_id(s.drop_last())
    }
}

/// Every id in the sequence is at most `max_id` of it.
proof fn lemma_max_id_bound(s: Seq<Order>)
    ensures
        forall|i: int| 0 <= i < s.len() ==> (#[trigger] s[i]).id <= max_id(s),
    decreases s.len(),
{
    if s.len() > 0 {
        lemma_max_id_bound(s.drop_last());
        assert forall|i: int| 0 <= i < s.len() implies (#[trigger] s[i]).id <= max_id(s) by {
            if i < s.len() - 1 {
                assert(s.drop_last()[i] == s[i]);
            }
        }
    }
}

/// Inserting an element anywhere adds exactly it to the multiset of
/// elements.
proof fn lemma_insert_to_multiset(s: Seq<Order>, k: int, o: Order)
    requires
        0 <= k <= s.len(),
    ensures
        s.insert(k, o).to_multiset() =~= s.to_multiset().insert(o),
{
    let s1 = s.insert(k, o);
    s.insert_ensures(k, o);
    s1.to_multiset_ensures();
    s.to_multiset_ensures();
    assert(s1.remove(k) =~= s);
    assert(s1[k] == o);
    assert(s1.contains(o));
    assert(s1.to_multiset().count(o) > 0);
    assert(s1.to_multiset().remove(o) =~= s.to_multiset());
}

/// The engine: the book plus the id allocator, which never hands out an
/// id twice.
#[derive(Debug)]
pub struct Engine {
    pub book: OrderBook,
    pub next_id: u64,
}

impl Engine {
    /// Well-formedness: the book well-formed, ids starting at 1, and every
    /// resting id already below the next to be allocated.
    pub open spec fn wf(self) -> bool {
        &&& self.book.wf()
        &&& self.next_id >= 1
        &&& ids_below(self.book@, self.next_id)
    }

    /// A fresh engine: empty book, ids starting at 1.
    pub fn new() -> (r: Engine)
        ensures
            r.wf(),
            r.book@.bids == Seq::<Order>::empty(),
            r.book@.asks == Seq::<Order>::empty(),
            r.next_id == 1,
    {
        Engine { book: OrderBook::new(), next_id: 1 }
    }

    /// Whether a fresh id can still be allocated.
    pub fn can_allocate(&self) -> (r: bool)
        ensures
            r == (self.next_id < u64::MAX),
    {
        self.next_id < u64::MAX
    }

    /// Submit a limit order: validate, allocate a fresh id, place the
    /// order at its price-time position and run the matching cascade.
    ///
    /// Rejected with a [`ValidationError`], before any mutation, exactly
    /// when the price or the quantity is zero.  On success the book is
    /// exactly [`spec_insert`] followed by [`run_match`], and the returned
    /// snapshot is the submitted order's resulting state.
    pub fn submit(&mut self, side: Side, price: u64, quantity: u64, timestamp: u128) -> (r:
        Result<Submission, ValidationError>)
        requires
            old(self).wf(),
            old(self).next_id < u64::MAX,
        ensures
            final(self).wf(),
            r is Ok <==> price > 0 && quantity > 0,
            price == 0 ==> (r matches Err(e) && e is NonPositivePrice),
            price > 0 && quantity == 0 ==> (r matches Err(e) && e is NonPositiveQuantity),
            r is Err ==> *final(self) == *old(self),
            price > 0 && quantity > 0 ==> ({
                let o = fresh_order(old(self).next_id, side, price, quantity, timestamp);
                let m1 = spec_insert(old(self).book@, o);
                let rm = run_match(m1.bids, m1.asks, side);
                &&& final(self).next_id == old(self).next_id + 1
                &&& final(self).book@.bids == rm.bids
                &&& final(self).book@.asks == rm.asks
                &&& (r matches Ok(sub) && sub.order == settled(o, final(self).book@)
                    && sub.trades@ == rm.trades && sub.updates@ == rm.updates)
                &&& no_crossing(final(self).book@)
            }),
            book_bounded(old(self).book@) ==> book_bounded(final(self).book@),
    {
        if price == 0 {
            return Err(ValidationError::NonPositivePrice);
        }
        if quantity == 0 {
            return Err(ValidationError::NonPositiveQuantity);
        }
        let id = self.next_id;
        self.next_id = self.next_id + 1;
        let order = Order::new(id, side, price, quantity, timestamp);
        proof {
            assert(!book_contains_id(self.book@, id));
        }
        let ghost m0 = self.book@;
        let out = self.book.add_order(order);
        proof {
            lemma_find_idx_props(self.book@.bids, id);
            lemma_find_idx_props(self.book@.asks, id);
            if side is Buy {
                assert(spec_insert(m0, order).asks == m0.asks);
                assert(!contains_id(self.book@.asks, id));
            } else {
                assert(spec_insert(m0, order).bids == m0.bids);
                assert(!contains_id(self.book@.bids, id));
            }
        }
        let snapshot = match self.book.get_order(id) {
            Some(o) => o,
            None => {
                let mut s = order;
                s.remaining_quantity = 0;
                s.status = OrderStatus::Filled;
                s
            },
        };
        Ok(Submission { order: snapshot, trades: out.trades, updates: out.updates })
    }

    /// Replace an order's remaining quantity (zero cancels); see
    /// [`OrderBook::modify_order`].  The id allocator is untouched.
    pub fn modify(&mut self, id: u64, quantity: u64) -> (r: Option<Order>)
        requires
            old(self).wf(),
        ensures
            final(self).wf(),
            final(self).next_id == old(self).next_id,
            final(self).book@ == spec_modify(old(self).book@, id, quantity).0,
            r == spec_modify(old(self).book@, id, quantity).1,
            r is Some <==> book_contains_id(old(self).book@, id),
            no_crossing(old(self).book@) ==> no_crossing(final(self).book@),
            book_bounded(old(self).book@) && (r matches Some(o) ==> quantity
                <= o.original_quantity) ==> book_bounded(final(self).book@),
    {
        self.book.modify_order(id, quantity)
    }

    /// Cancel an order; see [`OrderBook::cancel_order`].  The id allocator
    /// is untouched, so the id is never reissued.
    pub fn cancel(&mut self, id: u64) -> (r: Option<Order>)
        requires
            old(self).wf(),
        ensures
            final(self).wf(),
            final(self).next_id == old(self).next_id,
            final(self).book@ == spec_cancel(old(self).book@, id).0,
            r == spec_cancel(old(self).book@, id).1,
            r is Some <==> book_contains_id(old(self).book@, id),
            !book_contains_id(final(self).book@, id),
            no_crossing(old(self).book@) ==> no_crossing(final(self).book@),
            book_bounded(old(self).book@) ==> book_bounded(final(self).book@),
    {
        self.book.cancel_order(id)
    }

    /// Rebuild an engine from the resting orders read back from the
    /// durable store.
    ///
    /// Succeeds exactly when every record is a live resting order, no id
    /// occurs twice, and an id is still left to allocate.  The rebuilt
    /// book holds exactly the given orders, each side in price-time order
    /// (price priority first, then timestamp), and the id allocator starts
    /// past the largest recorded id.
    pub fn recover(orders: Vec<Order>) -> (r: Result<Engine, RecoveryError>)
        ensures
            r is Ok <==> ((forall|i: int| 0 <= i < orders@.len() ==> (#[trigger] orders@[i]).live())
                && ids_unique(orders@) && max_id(orders@) < u64::MAX),
            r matches Ok(e) ==> ({
                &&& e.wf()
                &&& time_sorted(e.book@.bids)
                &&& time_sorted(e.book@.asks)
                &&& e.book@.bids.to_multiset().add(e.book@.asks.to_multiset())
                    == orders@.to_multiset()
                &&& e.next_id == max_id(orders@) + 1
            }),
            r == Err::<Engine, RecoveryError>(RecoveryError::InvalidOrder) ==> exists|i: int|
                0 <= i < orders@.len() && !(#[trigger] orders@[i]).live(),
            r == Err::<Engine, RecoveryError>(RecoveryError::DuplicateId) ==> !ids_unique(orders@),
            r == Err::<Engine, RecoveryError>(RecoveryError::IdExhausted) ==> max_id(orders@)
                == u64::MAX,
    {
        let mut book = OrderBook::new();
        let mut max: u64 = 0;
        let mut i: usize = 0;
        proof {
            broadcast use vstd::multiset::group_multiset_axioms;
            broadcast use vstd::multiset::lemma_multiset_empty_len;

            assert(orders@.subrange(0, 0) =~= Seq::<Order>::empty());
            Seq::<Order>::empty().to_multiset_ensures();
            assert(Seq::<Order>::empty().to_multiset() =~= Multiset::<Order>::empty());
            assert(book@.bids.to_multiset().add(book@.asks.to_multiset()) =~= orders@.subrange(
                0,
                0,
            ).to_multiset());
        }
        while i < orders.len()
            invariant
                i <= orders@.len(),
                book.wf(),
                time_sorted(book@.bids),
                time_sorted(book@.asks),
                forall|j: int| 0 <= j < i ==> (#[trigger] orders@[j]).live(),
                ids_unique(orders@.subrange(0, i as int)),
                forall|x: u64|
                    book_contains_id(book@, x) <==> contains_id(orders@.subrange(0, i as int), x),
                book@.bids.to_multiset().add(book@.asks.to_multiset()) == orders@.subrange(
                    0,
                    i as int,
                ).to_multiset(),
                max == max_id(orders@.subrange(0, i as int)),
            decreases orders@.len() - i,
        {
            let ghost prefix = orders@.subrange(0, i as int);
            let o = orders[i];
            if !o.is_live() {
                return Err(RecoveryError::InvalidOrder);
            }
            if book.get_order(o.id).is_some() {
                proof {
                    let w = choose|j: int| 0 <= j < prefix.len() && (#[trigger] prefix[j]).id == o.id;
                    assert(orders@[w].id == orders@[i as int].id);
                }
                return Err(RecoveryError::DuplicateId);
            }
            let ghost mb = book@;
            match o.side {
                Side::Buy => book.bids.insert_restored(o),
                Side::Sell => book.asks.insert_restored(o),
            }
            proof {
                let prefix2 = orders@.subrange(0, i as int + 1);
                assert(prefix2.drop_last() =~= prefix);
                assert(prefix2 =~= prefix.push(o));
                lemma_contains_push(prefix, o);
                let m1 = book@;
                if o.side is Buy {
                    crate::index::lemma_restored_pos_props(Side::Buy, mb.bids, o);
                    lemma_insert_contains(mb.bids, restored_pos(Side::Buy, mb.bids, o), o);
                    lemma_insert_to_multiset(mb.bids, restored_pos(Side::Buy, mb.bids, o), o);
                    assert(m1.asks == mb.asks);
                    assert forall|a: int, b: int|
                        0 <= a < m1.bids.len() && 0 <= b < m1.asks.len() implies (
                    #[trigger] m1.bids[a]).id != (#[trigger] m1.asks[b]).id by {
                        assert(contains_id(m1.bids, m1.bids[a].id));
                        if contains_id(mb.bids, m1.bids[a].id) {
                            let wa = choose|w: int|
                                0 <= w < mb.bids.len() && (#[trigger] mb.bids[w]).id == m1.bids[a].id;
                            assert(mb.bids[wa].id != mb.asks[b].id);
                        } else {
                            assert(m1.bids[a].id == o.id);
                            assert(!contains_id(mb.asks, o.id));
                            assert(contains_id(mb.asks, mb.asks[b].id));
                        }
                    }
                    assert(m1.bids.to_multiset().add(m1.asks.to_multiset()) =~= prefix2.to_multiset())
                        by {
                        prefix.to_multiset_ensures();
                        assert(prefix2.to_multiset() =~= prefix.to_multiset().insert(o));
                    }
                } else {
                    crate::index::lemma_restored_pos_props(Side::Sell, mb.asks, o);
                    lemma_insert_contains(mb.asks, restored_pos(Side::Sell, mb.asks, o), o);
                    lemma_insert_to_multiset(mb.asks, restored_pos(Side::Sell, mb.asks, o), o);
                    assert(m1.bids == mb.bids);
                    assert forall|a: int, b: int|
                        0 <= a < m1.bids.len() && 0 <= b < m1.asks.len() implies (
                    #[trigger] m1.bids[a]).id != (#[trigger] m1.asks[b]).id by {
                        assert(contains_id(m1.asks, m1.asks[b].id));
                        if contains_id(mb.asks, m1.asks[b].id) {
                            let wb = choose|w: int|
                                0 <= w < mb.asks.len() && (#[trigger] mb.asks[w]).id == m1.asks[b].id;
                            assert(mb.bids[a].id != mb.asks[wb].id);
                        } else {
                            assert(m1.asks[b].id == o.id);
                            assert(!contains_id(mb.bids, o.id));
                            assert(contains_id(mb.bids, mb.bids[a].id));
                        }
                    }
                    assert(m1.bids.to_multiset().add(m1.asks.to_multiset()) =~= prefix2.to_multiset())
                        by {
                        prefix.to_multiset_ensures();
                        assert(prefix2.to_multiset() =~= prefix.to_multiset().insert(o));
                    }
                }
                assert forall|x: u64| book_contains_id(book@, x) <==> contains_id(prefix2, x) by {
                    assert(book_contains_id(mb, x) <==> contains_id(prefix, x));
                }
                assert(ids_unique(prefix2)) by {
                    assert forall|a: int, b: int| 0 <= a < b < prefix2.len() implies (
                    #[trigger] prefix2[a]).id != (#[trigger] prefix2[b]).id by {
                        if b < prefix.len() {
                            assert(prefix2[a] == prefix[a] && prefix2[b] == prefix[b]);
                        } else {
                            assert(prefix2[b] == o);
                            assert(prefix2[a] == prefix[a]);
                            assert(contains_id(prefix, prefix[a].id));
                        }
                    }
                }
            }
            if o.id > max {
                max = o.id;
            }
            i = i + 1;
        }
        proof {
            assert(orders@.subrange(0, orders@.len() as int) =~= orders@);
        }
        if max == u64::MAX {
            return Err(RecoveryError::IdExhausted);
        }
        proof {
            lemma_max_id_bound(orders@);
            assert forall|id: u64| book_contains_id(book@, id) implies id < max + 1 by {
                let w = choose|j: int| 0 <= j < orders@.len() && (#[trigger] orders@[j]).id == id;
            }
        }
        Ok(Engine { book, next_id: max + 1 })
    }
}

} // verus!
