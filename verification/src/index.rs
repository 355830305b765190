//! One side of the book: a price-time priority index.
//!
//! Orders are held in a vector sorted by price priority (descending for
//! bids, ascending for asks).  Among orders of equal price the earlier
//! arrival stands first: a new order is inserted after every resting order
//! whose price is at least as good, so the head of the vector is always the
//! highest-priority candidate for matching.

use vstd::prelude::*;

use crate::order::{Order, OrderStatus, Side};

verus! {

/// Does a resting order priced `resting` keep its place ahead of an
/// incoming order priced `incoming` on side `side`?  Equal prices keep the
/// resting order ahead (first-in, first-out within a price level).
pub open spec fn keeps_ahead(side: Side, resting: u64, incoming: u64) -> bool {
    match side {
        Side::Buy => resting >= incoming,
        Side::Sell => resting <= incoming,
    }
}

/// The sequence is sorted by price priority for `side`: descending prices
/// for bids, ascending for asks.
pub open spec fn price_sorted(side: Side, s: Seq<Order>) -> bool {
    forall|i: int, j: int|
        0 <= i < j < s.len() ==> keeps_ahead(side, (#[trigger] s[i]).price, (#[trigger] s[j]).price)
}

/// No order id occurs twice in the sequence.
pub open spec fn ids_unique(s: Seq<Order>) -> bool {
    forall|i: int, j: int| 0 <= i < j < s.len() ==> (#[trigger] s[i]).id != (#[trigger] s[j]).id
}

/// Some order in the sequence carries the id.
pub open spec fn contains_id(s: Seq<Order>, id: u64) -> bool {
    exists|i: int| 0 <= i < s.len() && (#[trigger] s[i]).id == id
}

/// Everything a resting side must satisfy: sorted by price priority,
/// ids unique, and every order live and tagged with this side.
pub open spec fn side_ok(side: Side, s: Seq<Order>) -> bool {
    &&& price_sorted(side, s)
    &&& ids_unique(s)
    &&& forall|i: int| 0 <= i < s.len() ==> (#[trigger] s[i]).live() && s[i].side == side
}

/// Index at which an incoming order priced `p` is placed: just after the
/// longest prefix of resting orders that keep their place ahead of it.
pub open spec fn insert_pos(side: Side, s: Seq<Order>, p: u64) -> int
    decreases s.len(),
{
    if s.len() == 0 {
        0
    } else if keeps_ahead(side, s[0].price, p) {
        1 + insert_pos(side, s.drop_first(), p)
    } else {
        0
    }
}

/// The defining properties of `insert_pos`: it is in range, everything
/// before it keeps ahead of price `p`, and the order at it (if any) does not.
pub proof fn lemma_insert_pos_props(side: Side, s: Seq<Order>, p: u64)
    ensures
        0 <= insert_pos(side, s, p) <= s.len(),
        forall|i: int| 0 <= i < insert_pos(side, s, p) ==> keeps_ahead(side, (#[trigger] s[i]).price, p),
        insert_pos(side, s, p) < s.len() ==> !keeps_ahead(side, s[insert_pos(side, s, p)].price, p),
    decreases s.len(),
{
    if s.len() > 0 && keeps_ahead(side, s[0].price, p) {
        lemma_insert_pos_props(side, s.drop_first(), p);
        assert forall|i: int| 0 <= i < insert_pos(side, s, p) implies keeps_ahead(
            side,
            (#[trigger] s[i]).price,
            p,
        ) by {
            if i > 0 {
                assert(s.drop_first()[i - 1] == s[i]);
            }
        }
        if insert_pos(side, s, p) < s.len() {
            assert(s.drop_first()[insert_pos(side, s.drop_first(), p)] == s[insert_pos(side, s, p)]);
        }
    }
}

/// Any index with the defining properties of `insert_pos` is `insert_pos`.
pub proof fn lemma_insert_pos_unique(side: Side, s: Seq<Order>, p: u64, k: int)
    requires
        0 <= k <= s.len(),
        forall|i: int| 0 <= i < k ==> keeps_ahead(side, (#[trigger] s[i]).price, p),
        k < s.len() ==> !keeps_ahead(side, s[k].price, p),
    ensures
        k == insert_pos(side, s, p),
    decreases s.len(),
{
    if s.len() == 0 {
    } else if keeps_ahead(side, s[0].price, p) {
        assert(k >= 1);
        assert forall|i: int| 0 <= i < k - 1 implies keeps_ahead(
            side,
            (#[trigger] s.drop_first()[i]).price,
            p,
        ) by {
            assert(s.drop_first()[i] == s[i + 1]);
        }
        if k - 1 < s.drop_first().len() {
            assert(s.drop_first()[k - 1] == s[k]);
        }
        lemma_insert_pos_unique(side, s.drop_first(), p, k - 1);
    } else {
        assert(k == 0) by {
            if k > 0 {
                assert(keeps_ahead(side, s[0].price, p));
            }
        }
    }
}

/// First-in, first-out within a price level: on a price-sorted side, a new
/// order at price `p` is placed behind every resting order at price `p`,
/// and everything placed behind it has strictly worse price.
pub proof fn lemma_price_level_fifo(side: Side, s: Seq<Order>, p: u64)
    requires
        price_sorted(side, s),
    ensures
        forall|i: int|
            0 <= i < s.len() && (#[trigger] s[i]).price == p ==> i < insert_pos(side, s, p),
        forall|i: int|
            insert_pos(side, s, p) <= i < s.len() ==> (#[trigger] s[i]).price != p,
{
    lemma_insert_pos_props(side, s, p);
    let k = insert_pos(side, s, p);
    assert forall|i: int| k <= i < s.len() implies (#[trigger] s[i]).price != p by {
        assert(k < s.len());
        if i > k {
            assert(keeps_ahead(side, s[k].price, s[i].price));
        }
    }
}

/// Price-time priority between whole orders, used when the book is rebuilt
/// from durable records: strictly better price first, and among equal
/// prices the earlier timestamp first.
pub open spec fn rank_ahead(side: Side, resting: Order, incoming: Order) -> bool {
    match side {
        Side::Buy => resting.price > incoming.price || (resting.price == incoming.price
            && resting.timestamp <= incoming.timestamp),
        Side::Sell => resting.price < incoming.price || (resting.price == incoming.price
            && resting.timestamp <= incoming.timestamp),
    }
}

/// Within one price level, timestamps never decrease.
pub open spec fn time_sorted(s: Seq<Order>) -> bool {
    forall|i: int, j: int|
        0 <= i < j < s.len() && (#[trigger] s[i]).price == (#[trigger] s[j]).price
            ==> s[i].timestamp <= s[j].timestamp
}

/// Index at which a restored order is placed: just after the longest
/// prefix of orders that rank ahead of it by price, then timestamp.
pub open spec fn restored_pos(side: Side, s: Seq<Order>, o: Order) -> int
    decreases s.len(),
{
    if s.len() == 0 {
        0
    } else if rank_ahead(side, s[0], o) {
        1 + restored_pos(side, s.drop_first(), o)
    } else {
        0
    }
}

/// The defining properties of `restored_pos`.
pub proof fn lemma_restored_pos_props(side: Side, s: Seq<Order>, o: Order)
    ensures
        0 <= restored_pos(side, s, o) <= s.len(),
        forall|i: int| 0 <= i < restored_pos(side, s, o) ==> rank_ahead(side, #[trigger] s[i], o),
        restored_pos(side, s, o) < s.len() ==> !rank_ahead(side, s[restored_pos(side, s, o)], o),
    decreases s.len(),
{
    if s.len() > 0 && rank_ahead(side, s[0], o) {
        lemma_restored_pos_props(side, s.drop_first(), o);
        assert forall|i: int| 0 <= i < restored_pos(side, s, o) implies rank_ahead(
            side,
            #[trigger] s[i],
            o,
        ) by {
            if i > 0 {
                assert(s.drop_first()[i - 1] == s[i]);
            }
        }
        if restored_pos(side, s, o) < s.len() {
            assert(s.drop_first()[restored_pos(side, s.drop_first(), o)] == s[restored_pos(
                side,
                s,
                o,
            )]);
        }
    }
}

/// Any index with the defining properties of `restored_pos` is
/// `restored_pos`.
pub proof fn lemma_restored_pos_unique(side: Side, s: Seq<Order>, o: Order, k: int)
    requires
        0 <= k <= s.len(),
        forall|i: int| 0 <= i < k ==> rank_ahead(side, #[trigger] s[i], o),
        k < s.len() ==> !rank_ahead(side, s[k], o),
    ensures
        k == restored_pos(side, s, o),
    decreases s.len(),
{
    if s.len() == 0 {
    } else if rank_ahead(side, s[0], o) {
        assert(k >= 1);
        assert forall|i: int| 0 <= i < k - 1 implies rank_ahead(
            side,
            #[trigger] s.drop_first()[i],
            o,
        ) by {
            assert(s.drop_first()[i] == s[i + 1]);
        }
        if k - 1 < s.drop_first().len() {
            assert(s.drop_first()[k - 1] == s[k]);
        }
        lemma_restored_pos_unique(side, s.drop_first(), o, k - 1);
    } else {
        assert(k == 0) by {
            if k > 0 {
                assert(rank_ahead(side, s[0], o));
            }
        }
    }
}

/// First index holding `id`, or -1 when no order carries it.
pub open spec fn find_idx(s: Seq<Order>, id: u64) -> int
    decreases s.len(),
{
    if s.len() == 0 {
        -1
    } else if s[0].id == id {
        0
    } else if find_idx(s.drop_first(), id) < 0 {
        -1
    } else {
        1 + find_idx(s.drop_first(), id)
    }
}

/// The defining properties of `find_idx`.
pub proof fn lemma_find_idx_props(s: Seq<Order>, id: u64)
    ensures
        -1 <= find_idx(s, id) < s.len(),
        find_idx(s, id) >= 0 ==> (#[trigger] s[find_idx(s, id)]).id == id,
        find_idx(s, id) >= 0 ==> forall|i: int| 0 <= i < find_idx(s, id) ==> (#[trigger] s[i]).id != id,
        (find_idx(s, id) == -1) <==> !contains_id(s, id),
    decreases s.len(),
{
    if s.len() == 0 {
        assert(!contains_id(s, id));
    } else if s[0].id == id {
    } else {
        lemma_find_idx_props(s.drop_first(), id);
        let r = find_idx(s.drop_first(), id);
        if r >= 0 {
            assert(s.drop_first()[r] == s[r + 1]);
            assert forall|i: int| 0 <= i < find_idx(s, id) implies (#[trigger] s[i]).id != id by {
                if i > 0 {
                    assert(s.drop_first()[i - 1] == s[i]);
                }
            }
        } else {
            assert forall|i: int| 0 <= i < s.len() implies (#[trigger] s[i]).id != id by {
                if i > 0 {
                    assert(s.drop_first()[i - 1] == s[i]);
                }
            }
            assert(!contains_id(s, id));
        }
        if contains_id(s, id) {
            let w = choose|i: int| 0 <= i < s.len() && (#[trigger] s[i]).id == id;
            assert(w > 0);
            assert(s.drop_first()[w - 1] == s[w]);
            assert(contains_id(s.drop_first(), id));
        }
    }
}

/// Any index holding `id` with none before it is `find_idx`.
pub proof fn lemma_find_idx_unique(s: Seq<Order>, id: u64, k: int)
    requires
        0 <= k < s.len(),
        s[k].id == id,
        forall|i: int| 0 <= i < k ==> (#[trigger] s[i]).id != id,
    ensures
        k == find_idx(s, id),
    decreases s.len(),
{
    if s[0].id == id {
        assert(k == 0);
    } else {
        assert(k >= 1);
        assert(s.drop_first()[k - 1] == s[k]);
        assert forall|i: int| 0 <= i < k - 1 implies (#[trigger] s.drop_first()[i]).id != id by {
            assert(s.drop_first()[i] == s[i + 1]);
        }
        lemma_find_idx_unique(s.drop_first(), id, k - 1);
    }
}

/// One side of the book.
#[derive(Debug)]
pub struct PriceTimeIndex {
    pub side: Side,
    pub orders: Vec<Order>,
}

impl PriceTimeIndex {
    /// The side's well-formedness: see [`side_ok`].
    pub open spec fn wf(self) -> bool {
        side_ok(self.side, self.orders@)
    }

    /// An empty side.
    pub fn new(side: Side) -> (r: PriceTimeIndex)
        ensures
            r.side == side,
            r.orders@ == Seq::<Order>::empty(),
            r.wf(),
    {
        PriceTimeIndex { side, orders: Vec::new() }
    }

    /// How many orders rest on this side.
    pub fn len(&self) -> (n: usize)
        ensures
            n == self.orders@.len(),
    {
        self.orders.len()
    }

    /// Whether the side is empty.
    pub fn is_empty(&self) -> (r: bool)
        ensures
            r == (self.orders@.len() == 0),
    {
        self.orders.len() == 0
    }

    /// The best (highest-priority) resting order, if any.
    pub fn front(&self) -> (r: Option<&Order>)
        ensures
            match r {
                Some(o) => self.orders@.len() > 0 && *o == self.orders@[0],
                None => self.orders@.len() == 0,
            },
    {
        if self.orders.len() > 0 {
            Some(&self.orders[0])
        } else {
            None
        }
    }

    /// Place a new order at its price-time position: after every resting
    /// order whose price is at least as good, before the rest.
    pub fn insert(&mut self, o: Order)
        requires
            old(self).wf(),
            o.live(),
            o.side == old(self).side,
            !contains_id(old(self).orders@, o.id),
        ensures
            final(self).side == old(self).side,
            final(self).orders@ == old(self).orders@.insert(
                insert_pos(old(self).side, old(self).orders@, o.price),
                o,
            ),
            final(self).wf(),
    {
        let ghost s0 = self.orders@;
        let mut k: usize = 0;
        while k < self.orders.len() && price_keeps_ahead(self.side, self.orders[k].price, o.price)
            invariant
                self.side == old(self).side,
                self.orders@ == s0,
                k <= s0.len(),
                forall|i: int| 0 <= i < k ==> keeps_ahead(self.side, (#[trigger] s0[i]).price, o.price),
            decreases s0.len() - k,
        {
            k = k + 1;
        }
        proof {
            lemma_insert_pos_unique(self.side, s0, o.price, k as int);
        }
        self.orders.insert(k, o);
        proof {
            let s1 = self.orders@;
            let ki = k as int;
            assert forall|i: int, j: int| 0 <= i < j < s1.len() implies keeps_ahead(
                self.side,
                (#[trigger] s1[i]).price,
                (#[trigger] s1[j]).price,
            ) by {
                if i < ki && j == ki {
                    assert(s1[i] == s0[i]);
                } else if i == ki && j > ki {
                    assert(s1[j] == s0[j - 1]);
                    assert(!keeps_ahead(self.side, s0[ki].price, o.price));
                    if j - 1 > ki {
                        assert(keeps_ahead(self.side, s0[ki].price, s0[j - 1].price));
                    }
                } else if i < ki && j > ki {
                    assert(s1[i] == s0[i]);
                    assert(s1[j] == s0[j - 1]);
                    if i < j - 1 {
                        assert(keeps_ahead(self.side, s0[i].price, s0[j - 1].price));
                    }
                } else if i > ki {
                    assert(s1[i] == s0[i - 1]);
                    assert(s1[j] == s0[j - 1]);
                    assert(keeps_ahead(self.side, s0[i - 1].price, s0[j - 1].price));
                } else if j < ki {
                    assert(s1[i] == s0[i]);
                    assert(s1[j] == s0[j]);
                }
            }
            assert forall|i: int, j: int| 0 <= i < j < s1.len() implies (#[trigger] s1[i]).id != (
            #[trigger] s1[j]).id by {
                if i != ki && j != ki {
                    let i0: int = if i < ki { i } else { i - 1 };
                    let j0: int = if j < ki { j } else { j - 1 };
                    assert(s1[i] == s0[i0]);
                    assert(s1[j] == s0[j0]);
                } else if i == ki {
                    assert(s1[j] == s0[j - 1]);
                    assert(contains_id(s0, s0[j - 1].id));
                } else {
                    assert(s1[i] == s0[i]);
                    assert(contains_id(s0, s0[i].id));
                }
            }
            assert forall|i: int| 0 <= i < s1.len() implies (#[trigger] s1[i]).live() && s1[i].side
                == self.side by {
                if i < ki {
                    assert(s1[i] == s0[i]);
                } else if i > ki {
                    assert(s1[i] == s0[i - 1]);
                }
            }
        }
    }

    /// Place a restored order at its price-time position, ordering by
    /// price and then by timestamp.  Used when the book is rebuilt from
    /// the durable store, where arrival order is recorded only in the
    /// timestamps.
    pub fn insert_restored(&mut self, o: Order)
        requires
            old(self).wf(),
            time_sorted(old(self).orders@),
            o.live(),
            o.side == old(self).side,
            !contains_id(old(self).orders@, o.id),
        ensures
            final(self).side == old(self).side,
            final(self).orders@ == old(self).orders@.insert(
                restored_pos(old(self).side, old(self).orders@, o),
                o,
            ),
            final(self).wf(),
            time_sorted(final(self).orders@),
    {
        let ghost s0 = self.orders@;
        let mut k: usize = 0;
        while k < self.orders.len() && order_ranks_ahead(self.side, &self.orders[k], &o)
            invariant
                self.side == old(self).side,
                self.orders@ == s0,
                k <= s0.len(),
                forall|i: int| 0 <= i < k ==> rank_ahead(self.side, #[trigger] s0[i], o),
            decreases s0.len() - k,
        {
            k = k + 1;
        }
        proof {
            lemma_restored_pos_unique(self.side, s0, o, k as int);
        }
        self.orders.insert(k, o);
        proof {
            let s1 = self.orders@;
            let ki = k as int;
            assert forall|i: int, j: int| 0 <= i < j < s1.len() implies keeps_ahead(
                self.side,
                (#[trigger] s1[i]).price,
                (#[trigger] s1[j]).price,
            ) && ((s1[i].price == s1[j].price) ==> s1[i].timestamp <= s1[j].timestamp) && s1[i].id
                != s1[j].id by {
                if i < ki && j == ki {
                    assert(s1[i] == s0[i]);
                    assert(rank_ahead(self.side, s0[i], o));
                    assert(contains_id(s0, s0[i].id));
                } else if i == ki && j > ki {
                    assert(s1[j] == s0[j - 1]);
                    assert(!rank_ahead(self.side, s0[ki], o));
                    if j - 1 > ki {
                        assert(keeps_ahead(self.side, s0[ki].price, s0[j - 1].price));
                        if s0[ki].price == s0[j - 1].price {
                            assert(s0[ki].timestamp <= s0[j - 1].timestamp);
                        }
                    }
                    assert(contains_id(s0, s0[j - 1].id));
                } else if i < ki && j > ki {
                    assert(s1[i] == s0[i]);
                    assert(s1[j] == s0[j - 1]);
                    if i < j - 1 {
                        assert(keeps_ahead(self.side, s0[i].price, s0[j - 1].price));
                    }
                } else if i > ki {
                    assert(s1[i] == s0[i - 1]);
                    assert(s1[j] == s0[j - 1]);
                } else if j < ki {
                    assert(s1[i] == s0[i]);
                    assert(s1[j] == s0[j]);
                }
            }
            assert forall|i: int| 0 <= i < s1.len() implies (#[trigger] s1[i]).live() && s1[i].side
                == self.side by {
                if i < ki {
                    assert(s1[i] == s0[i]);
                } else if i > ki {
                    assert(s1[i] == s0[i - 1]);
                }
            }
        }
    }

    /// Look an order up by id; `None` when the id does not rest here.
    pub fn find(&self, id: u64) -> (r: Option<usize>)
        ensures
            match r {
                Some(i) => i == find_idx(self.orders@, id) && i < self.orders@.len()
                    && self.orders@[i as int].id == id,
                None => find_idx(self.orders@, id) == -1,
            },
    {
        let ghost s = self.orders@;
        let mut i: usize = 0;
        while i < self.orders.len()
            invariant
                self.orders@ == s,
                i <= s.len(),
                forall|j: int| 0 <= j < i ==> (#[trigger] s[j]).id != id,
            decreases s.len() - i,
        {
            if self.orders[i].id == id {
                proof {
                    lemma_find_idx_unique(s, id, i as int);
                }
                return Some(i);
            }
            i = i + 1;
        }
        proof {
            lemma_find_idx_props(s, id);
            if find_idx(s, id) >= 0 {
                assert(s[find_idx(s, id)].id == id);
            }
        }
        None
    }

    /// Remove the order with this id, keeping every other order in place.
    pub fn remove_by_id(&mut self, id: u64) -> (r: Option<Order>)
        ensures
            final(self).side == old(self).side,
            ({
                let fi = find_idx(old(self).orders@, id);
                if fi >= 0 {
                    r == Some(old(self).orders@[fi]) && final(self).orders@ == old(
                        self,
                    ).orders@.remove(fi)
                } else {
                    r == None::<Order> && final(self).orders@ == old(self).orders@
                }
            }),
            old(self).wf() ==> final(self).wf(),
    {
        let ghost s0 = self.orders@;
        match self.find(id) {
            Some(i) => {
                let o = self.orders.remove(i);
                proof {
                    if old(self).wf() {
                        let s1 = self.orders@;
                        let fi = i as int;
                        assert forall|a: int, b: int| 0 <= a < b < s1.len() implies keeps_ahead(
                            self.side,
                            (#[trigger] s1[a]).price,
                            (#[trigger] s1[b]).price,
                        ) && (#[trigger] s1[a]).id != (#[trigger] s1[b]).id by {
                            let a0: int = if a < fi { a } else { a + 1 };
                            let b0: int = if b < fi { b } else { b + 1 };
                            assert(s1[a] == s0[a0]);
                            assert(s1[b] == s0[b0]);
                        }
                        assert forall|a: int| 0 <= a < s1.len() implies (#[trigger] s1[a]).live()
                            && s1[a].side == self.side by {
                            let a0: int = if a < fi { a } else { a + 1 };
                            assert(s1[a] == s0[a0]);
                        }
                    }
                }
                Some(o)
            },
            None => None,
        }
    }

    /// Replace the remaining quantity and status of the order at `i`,
    /// leaving its position (and so its priority) unchanged.
    pub fn set_quantity(&mut self, i: usize, quantity: u64, status: OrderStatus)
        requires
            i < old(self).orders@.len(),
        ensures
            final(self).side == old(self).side,
            final(self).orders@ == old(self).orders@.update(
                i as int,
                (Order { remaining_quantity: quantity, status, ..old(self).orders@[i as int] }),
            ),
            old(self).wf() && quantity > 0 && (status is Open || status is PartiallyFilled)
                ==> final(self).wf(),
    {
        let ghost s0 = self.orders@;
        let mut o = self.orders[i];
        o.remaining_quantity = quantity;
        o.status = status;
        self.orders.set(i, o);
        proof {
            if old(self).wf() && quantity > 0 && (status is Open || status is PartiallyFilled) {
                let s1 = self.orders@;
                assert forall|a: int, b: int| 0 <= a < b < s1.len() implies keeps_ahead(
                    self.side,
                    (#[trigger] s1[a]).price,
                    (#[trigger] s1[b]).price,
                ) && (#[trigger] s1[a]).id != (#[trigger] s1[b]).id by {
                    assert(s1[a].price == s0[a].price && s1[a].id == s0[a].id);
                    assert(s1[b].price == s0[b].price && s1[b].id == s0[b].id);
                }
            }
        }
    }
}

/// Inserting an order adds exactly its id to the ids present.
pub(crate) proof fn lemma_insert_contains(s: Seq<Order>, k: int, o: Order)
    requires
        0 <= k <= s.len(),
    ensures
        forall|x: u64| contains_id(s.insert(k, o), x) <==> (contains_id(s, x) || x == o.id),
{
    let s1 = s.insert(k, o);
    s.insert_ensures(k, o);
    assert forall|x: u64| contains_id(s1, x) <==> (contains_id(s, x) || x == o.id) by {
        if contains_id(s1, x) {
            let w = choose|i: int| 0 <= i < s1.len() && (#[trigger] s1[i]).id == x;
            if w < k {
                assert(s[w].id == x);
            } else if w > k {
                assert(s[w - 1].id == x);
            }
        }
        if contains_id(s, x) {
            let w = choose|i: int| 0 <= i < s.len() && (#[trigger] s[i]).id == x;
            if w < k {
                assert(s1[w].id == x);
            } else {
                assert(s1[w + 1].id == x);
            }
        }
        if x == o.id {
            assert(s1[k].id == x);
        }
    }
}

/// Appending an order adds exactly its id to the ids present.
pub(crate) proof fn lemma_contains_push(s: Seq<Order>, o: Order)
    ensures
        forall|x: u64| contains_id(s.push(o), x) <==> (contains_id(s, x) || x == o.id),
{
    let s1 = s.push(o);
    assert forall|x: u64| contains_id(s1, x) <==> (contains_id(s, x) || x == o.id) by {
        if contains_id(s1, x) {
            let w = choose|i: int| 0 <= i < s1.len() && (#[trigger] s1[i]).id == x;
            if w < s.len() {
                assert(s[w].id == x);
            }
        }
        if contains_id(s, x) {
            let w = choose|i: int| 0 <= i < s.len() && (#[trigger] s[i]).id == x;
            assert(s1[w].id == x);
        }
        if x == o.id {
            assert(s1[s.len() as int].id == x);
        }
    }
}

/// Executable counterpart of [`rank_ahead`].
pub fn order_ranks_ahead(side: Side, resting: &Order, incoming: &Order) -> (r: bool)
    ensures
        r == rank_ahead(side, *resting, *incoming),
{
    match side {
        Side::Buy => resting.price > incoming.price || (resting.price == incoming.price
            && resting.timestamp <= incoming.timestamp),
        Side::Sell => resting.price < incoming.price || (resting.price == incoming.price
            && resting.timestamp <= incoming.timestamp),
    }
}

/// Executable counterpart of [`keeps_ahead`].
pub fn price_keeps_ahead(side: Side, resting: u64, incoming: u64) -> (r: bool)
    ensures
        r == keeps_ahead(side, resting, incoming),
{
    match side {
        Side::Buy => resting >= incoming,
        Side::Sell => resting <= incoming,
    }
}

} // verus!
