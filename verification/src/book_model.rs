use vstd::prelude::*;

use crate::book::{BookSnapshot, LevelSnapshot, RestingOrder};
use crate::events::{Event, RejectReason};
use crate::types::{InstrumentId, NewOrder, OrderId, OrderType, Price, Quantity, Sequence, Side, TimeInForce};

verus! {

/// The abstract state of one instrument's order book.
///
/// Each side maps a price to the FIFO queue (oldest first) of the ids of the orders resting
/// at that price; `orders` holds what is known of each resting order.
pub struct BookModel {
    pub instrument: InstrumentId,
    pub next_sequence: Sequence,
    pub bids: Map<Price, Seq<OrderId>>,
    pub asks: Map<Price, Seq<OrderId>>,
    pub orders: Map<OrderId, RestingOrder>,
}

/// The sum of the remaining quantities of the orders of a queue.
pub open spec fn sum_remaining(orders: Map<OrderId, RestingOrder>, q: Seq<OrderId>) -> int
    decreases q.len(),
{
    if q.len() == 0 {
        0
    } else {
        sum_remaining(orders, q.drop_last()) + orders[q.last()].remaining_qty
    }
}

/// A non-empty queue of distinct resting orders of one side and price, whose total fits
/// the level's counter.
pub open spec fn queue_wf(orders: Map<OrderId, RestingOrder>, q: Seq<OrderId>, side: Side, p: Price) -> bool {
    &&& q.len() > 0
    &&& q.len() <= usize::MAX
    &&& q.no_duplicates()
    &&& sum_remaining(orders, q) <= u64::MAX
    &&& forall|i: int|
        0 <= i < q.len() ==> {
            &&& orders.contains_key(#[trigger] q[i])
            &&& orders[q[i]].side == side
            &&& orders[q[i]].price == p
        }
}

proof fn lemma_queue_wf_intro(orders: Map<OrderId, RestingOrder>, q: Seq<OrderId>, side: Side, p: Price)
    requires
        q.len() > 0,
        q.len() <= usize::MAX,
        q.no_duplicates(),
        sum_remaining(orders, q) <= u64::MAX,
        forall|i: int|
            0 <= i < q.len() ==> {
                &&& orders.contains_key(#[trigger] q[i])
                &&& orders[q[i]].side == side
                &&& orders[q[i]].price == p
            },
    ensures
        queue_wf(orders, q, side, p),
{
}

/// `p` is the largest element of `s`.
pub open spec fn is_max_of(s: Set<u64>, p: u64) -> bool {
    s.contains(p) && forall|q: u64| #[trigger] s.contains(q) ==> q <= p
}

/// `p` is the smallest element of `s`.
pub open spec fn is_min_of(s: Set<u64>, p: u64) -> bool {
    s.contains(p) && forall|q: u64| #[trigger] s.contains(q) ==> p <= q
}

/// The largest element of a set of prices, if it has one.
pub open spec fn max_key(s: Set<u64>) -> Option<u64> {
    if exists|p: u64| is_max_of(s, p) {
        Some(choose|p: u64| is_max_of(s, p))
    } else {
        None
    }
}

/// The smallest element of a set of prices, if it has one.
pub open spec fn min_key(s: Set<u64>) -> Option<u64> {
    if exists|p: u64| is_min_of(s, p) {
        Some(choose|p: u64| is_min_of(s, p))
    } else {
        None
    }
}

/// Whether a taker `order` may trade against the best opposite price `best`:
/// a market order always, a limit order when its price reaches `best`.
pub open spec fn crosses(order: NewOrder, best: Price) -> bool {
    match order.order_type {
        OrderType::Market => true,
        OrderType::Limit => match order.price {
            None => false,
            Some(p) => match order.side {
                Side::Bid => p >= best,
                Side::Ask => p <= best,
            },
        },
    }
}

/// The smaller of two quantities.
pub open spec fn min_qty(a: Quantity, b: Quantity) -> Quantity {
    if a <= b {
        a
    } else {
        b
    }
}

/// Queues whose orders have the same remaining quantities have the same total.
pub proof fn lemma_sum_agree(o1: Map<OrderId, RestingOrder>, o2: Map<OrderId, RestingOrder>, q: Seq<OrderId>)
    requires
        forall|i: int| 0 <= i < q.len() ==> (#[trigger] o1[q[i]]).remaining_qty == o2[q[i]].remaining_qty,
    ensures
        sum_remaining(o1, q) == sum_remaining(o2, q),
    decreases q.len(),
{
    if q.len() > 0 {
        let d = q.drop_last();
        assert forall|i: int| 0 <= i < d.len() implies (#[trigger] o1[d[i]]).remaining_qty == o2[d[i]].remaining_qty by {
            assert(d[i] == q[i]);
        }
        lemma_sum_agree(o1, o2, d);
        assert(o1[q[q.len() - 1]].remaining_qty == o2[q[q.len() - 1]].remaining_qty);
    }
}

/// Totals are never negative.
pub proof fn lemma_sum_nonneg(orders: Map<OrderId, RestingOrder>, q: Seq<OrderId>)
    ensures
        sum_remaining(orders, q) >= 0,
    decreases q.len(),
{
    if q.len() > 0 {
        lemma_sum_nonneg(orders, q.drop_last());
    }
}

/// Taking the `i`-th order out of a queue takes its quantity out of the total.
pub proof fn lemma_sum_remove(orders: Map<OrderId, RestingOrder>, q: Seq<OrderId>, i: int)
    requires
        0 <= i < q.len(),
    ensures
        sum_remaining(orders, q.remove(i)) == sum_remaining(orders, q) - orders[q[i]].remaining_qty,
    decreases q.len(),
{
    if i == q.len() - 1 {
        assert(q.remove(i) =~= q.drop_last());
    } else {
        lemma_sum_remove(orders, q.drop_last(), i);
        assert(q.remove(i).drop_last() =~= q.drop_last().remove(i));
        assert(q.remove(i).last() == q.last());
    }
}

/// Changing the quantity of one order of a queue without duplicates changes the total by
/// the difference.
pub proof fn lemma_sum_update(orders: Map<OrderId, RestingOrder>, q: Seq<OrderId>, id: OrderId, r: RestingOrder)
    requires
        q.no_duplicates(),
        q.contains(id),
    ensures
        sum_remaining(orders.insert(id, r), q) == sum_remaining(orders, q) - orders[id].remaining_qty
            + r.remaining_qty,
    decreases q.len(),
{
    let o2 = orders.insert(id, r);
    let d = q.drop_last();
    if q.last() == id {
        assert forall|i: int| 0 <= i < d.len() implies (#[trigger] o2[d[i]]).remaining_qty == orders[d[i]].remaining_qty by {
            assert(d[i] == q[i]);
            assert(q[i] != q[q.len() - 1]);
        }
        lemma_sum_agree(o2, orders, d);
    } else {
        let k = choose|k: int| 0 <= k < q.len() && q[k] == id;
        assert(k != q.len() - 1);
        assert(d[k] == id);
        lemma_sum_update(orders, d, id, r);
    }
}

/// A queue that does not hold `id` keeps its total when `id` changes or goes.
pub proof fn lemma_sum_frame(o1: Map<OrderId, RestingOrder>, o2: Map<OrderId, RestingOrder>, q: Seq<OrderId>, id: OrderId)
    requires
        !q.contains(id),
        forall|x: OrderId| x != id ==> (#[trigger] o1[x]).remaining_qty == o2[x].remaining_qty,
    ensures
        sum_remaining(o1, q) == sum_remaining(o2, q),
{
    assert forall|i: int| 0 <= i < q.len() implies (#[trigger] o1[q[i]]).remaining_qty == o2[q[i]].remaining_qty by {
        assert(q[i] != id);
    }
    lemma_sum_agree(o1, o2, q);
}

impl BookModel {
    /// A book with no resting orders, whose next sequence number is 0.
    pub open spec fn empty(instrument: InstrumentId) -> BookModel {
        BookModel {
            instrument,
            next_sequence: 0,
            bids: Map::empty(),
            asks: Map::empty(),
            orders: Map::empty(),
        }
    }

    pub open spec fn levels(self, side: Side) -> Map<Price, Seq<OrderId>> {
        match side {
            Side::Bid => self.bids,
            Side::Ask => self.asks,
        }
    }

    pub open spec fn with_levels(self, side: Side, levels: Map<Price, Seq<OrderId>>) -> BookModel {
        match side {
            Side::Bid => BookModel { bids: levels, ..self },
            Side::Ask => BookModel { asks: levels, ..self },
        }
    }

    /// The well-formedness of a book: every level holds a non-empty queue of distinct
    /// resting orders of that side and price, every resting order stands in exactly the
    /// queue of its side and price, and the totals of every level fit the counters.
    pub open spec fn wf(self) -> bool {
        &&& self.orders.dom().finite()
        &&& forall|id: OrderId| #[trigger] self.orders.contains_key(id) ==> {
            let o = self.orders[id];
            &&& o.order_id == id
            &&& o.instrument == self.instrument
            &&& self.levels(o.side).contains_key(o.price)
            &&& self.levels(o.side)[o.price].contains(id)
        }
        &&& self.side_wf(Side::Bid)
        &&& self.side_wf(Side::Ask)
    }

    pub open spec fn side_wf(self, side: Side) -> bool {
        forall|p: Price| #[trigger] self.levels(side).contains_key(p) ==> self.level_wf(side, p)
    }

    pub open spec fn level_wf(self, side: Side, p: Price) -> bool {
        queue_wf(self.orders, self.levels(side)[p], side, p)
    }

    /// The total remaining quantity resting at a price (0 where no level is).
    pub open spec fn level_total(self, side: Side, price: Price) -> int {
        if self.levels(side).contains_key(price) {
            sum_remaining(self.orders, self.levels(side)[price])
        } else {
            0
        }
    }

    /// The number of orders resting at a price (0 where no level is).
    pub open spec fn level_count(self, side: Side, price: Price) -> int {
        if self.levels(side).contains_key(price) {
            self.levels(side)[price].len() as int
        } else {
            0
        }
    }

    /// The best price of a side: the highest bid or the lowest ask.
    pub open spec fn best_price(self, side: Side) -> Option<Price> {
        match side {
            Side::Bid => max_key(self.bids.dom()),
            Side::Ask => min_key(self.asks.dom()),
        }
    }

    pub open spec fn level_snapshot(self, side: Side, price: Price) -> LevelSnapshot {
        LevelSnapshot {
            price,
            total_qty: self.level_total(side, price) as u64,
            order_count: self.level_count(side, price) as usize,
        }
    }

    /// The best level of a side, with its total quantity and order count.
    pub open spec fn best_level(self, side: Side) -> Option<LevelSnapshot> {
        match self.best_price(side) {
            Some(p) => Some(self.level_snapshot(side, p)),
            None => None,
        }
    }

    /// The top of the book.
    pub open spec fn snapshot(self) -> BookSnapshot {
        BookSnapshot { best_bid: self.best_level(Side::Bid), best_ask: self.best_level(Side::Ask) }
    }

    /// The resting order with this id, if any.
    pub open spec fn order(self, id: OrderId) -> Option<RestingOrder> {
        if self.orders.contains_key(id) {
            Some(self.orders[id])
        } else {
            None
        }
    }

    pub open spec fn bump_sequence(self) -> BookModel {
        BookModel { next_sequence: (self.next_sequence + 1) as u64, ..self }
    }

    /// The book where the resting order `id` has `remaining` left.
    pub open spec fn set_remaining(self, id: OrderId, remaining: Quantity) -> BookModel {
        BookModel {
            orders: self.orders.insert(id, RestingOrder { remaining_qty: remaining, ..self.orders[id] }),
            ..self
        }
    }

    /// The book without the resting order `id`; its level goes when it is left empty.
    pub open spec fn remove_order(self, id: OrderId) -> BookModel {
        let o = self.orders[id];
        let q = self.levels(o.side)[o.price];
        let rest = q.remove(q.index_of(id));
        let levels = if rest.len() == 0 {
            self.levels(o.side).remove(o.price)
        } else {
            self.levels(o.side).insert(o.price, rest)
        };
        BookModel { orders: self.orders.remove(id), ..self.with_levels(o.side, levels) }
    }

    /// The book with `r` appended to the queue of its side and price.
    pub open spec fn add_resting(self, r: RestingOrder) -> BookModel {
        let levels = self.levels(r.side);
        let q = if levels.contains_key(r.price) {
            levels[r.price].push(r.order_id)
        } else {
            seq![r.order_id]
        };
        BookModel {
            orders: self.orders.insert(r.order_id, r),
            ..self.with_levels(r.side, levels.insert(r.price, q))
        }
    }

    /// Whether `qty` more can rest at a price without overflowing the level's counters.
    pub open spec fn can_rest(self, side: Side, price: Price, qty: Quantity) -> bool {
        &&& self.level_total(side, price) + qty <= u64::MAX
        &&& self.level_count(side, price) + 1 <= usize::MAX
    }

    pub open spec fn level_event(self, side: Side, price: Price, sequence: Sequence) -> Event {
        Event::LevelUpdated {
            instrument: self.instrument,
            side,
            price,
            total_qty: self.level_total(side, price) as u64,
            order_count: self.level_count(side, price) as usize,
            sequence,
        }
    }

    pub open spec fn top_event(self, sequence: Sequence) -> Event {
        Event::BestBidAskUpdated {
            instrument: self.instrument,
            best_bid: self.best_price(Side::Bid),
            best_ask: self.best_price(Side::Ask),
            sequence,
        }
    }

    /// Matching of a taker against the book: while it has quantity left and the best
    /// opposite price crosses, it trades with the oldest order of that level, at that
    /// order's price. Returns the book after matching, the taker's quantity left, and the
    /// events in the order they happen.
    pub open spec fn match_taker(self, order: NewOrder, remaining: Quantity, sequence: Sequence) -> (
        BookModel,
        Quantity,
        Seq<Event>,
    )
        decreases remaining, self.orders.dom().len(),
    {
        let opp = order.side.opposite();
        if remaining == 0 {
            (self, remaining, seq![])
        } else {
            match self.best_price(opp) {
                None => (self, remaining, seq![]),
                Some(p) => {
                    let q = self.levels(opp)[p];
                    if !crosses(order, p) || q.len() == 0 || !self.orders.contains_key(q[0])
                        || !self.orders.dom().finite() {
                        (self, remaining, seq![])
                    } else {
                        let maker = self.orders[q[0]];
                        let traded = min_qty(remaining, maker.remaining_qty);
                        let maker_left = (maker.remaining_qty - traded) as u64;
                        let taker_left = (remaining - traded) as u64;
                        let after = self.set_remaining(q[0], maker_left);
                        let trade = Event::Trade {
                            instrument: self.instrument,
                            maker_order_id: maker.order_id,
                            taker_order_id: order.id,
                            side: order.side,
                            price: maker.price,
                            quantity: traded,
                            maker_remaining: maker_left,
                            taker_remaining: taker_left,
                            sequence,
                        };
                        let level = after.level_event(opp, p, sequence);
                        if maker_left == 0 {
                            let filled = Event::Filled {
                                instrument: self.instrument,
                                order_id: maker.order_id,
                                sequence,
                            };
                            let next = after.remove_order(q[0]);
                            proof {
                                assert(next.orders.dom() =~= self.orders.dom().remove(q[0]));
                            }
                            let (m, r, evs) = next.match_taker(order, taker_left, sequence);
                            (m, r, seq![trade, level, filled] + evs)
                        } else {
                            (after, taker_left, seq![trade, level])
                        }
                    }
                },
            }
        }
    }

    /// Why a submitted order is refused before matching, if it is.
    pub open spec fn validation_error(self, order: NewOrder) -> Option<RejectReason> {
        if self.orders.contains_key(order.id) {
            Some(RejectReason::DuplicateOrderId)
        } else if order.quantity == 0 {
            Some(RejectReason::InvalidQuantity)
        } else if order.order_type is Limit && order.price is None {
            Some(RejectReason::MissingPrice)
        } else if order.order_type is Market && order.price is Some {
            Some(RejectReason::PriceNotAllowedForMarket)
        } else {
            None
        }
    }

    /// Whether an accepted order keeps what is left of it in the book.
    pub open spec fn rests(order: NewOrder) -> bool {
        order.order_type is Limit && order.time_in_force is Gtc
    }

    /// The resting order that what is left of a taker becomes.
    pub open spec fn resting_of(self, order: NewOrder, remaining: Quantity, sequence: Sequence) -> RestingOrder {
        RestingOrder {
            instrument: self.instrument,
            order_id: order.id,
            side: order.side,
            price: order.price.unwrap(),
            original_qty: order.quantity,
            remaining_qty: remaining,
            arrival_sequence: sequence,
        }
    }

    /// The book and events after an order is submitted: validation, matching, and then
    /// fill, rest or cancel of what is left, followed by the new top of the book.
    pub open spec fn submit_outcome(self, order: NewOrder) -> (BookModel, Seq<Event>) {
        let sequence = self.next_sequence;
        let m0 = self.bump_sequence();
        match self.validation_error(order) {
            Some(reason) => (
                m0,
                seq![
                    Event::Rejected {
                        instrument: Some(self.instrument),
                        order_id: order.id,
                        reason,
                        sequence,
                    },
                ],
            ),
            None => {
                let accepted = Event::Accepted {
                    instrument: self.instrument,
                    order_id: order.id,
                    sequence,
                };
                let (m1, left, trades) = m0.match_taker(order, order.quantity, sequence);
                if left == 0 {
                    (
                        m1,
                        seq![accepted] + trades + seq![
                            Event::Filled { instrument: self.instrument, order_id: order.id, sequence },
                            m1.top_event(sequence),
                        ],
                    )
                } else if Self::rests(order) {
                    let price = order.price.unwrap();
                    let m2 = m1.add_resting(self.resting_of(order, left, sequence));
                    (
                        m2,
                        seq![accepted] + trades + seq![
                            Event::Rested {
                                instrument: self.instrument,
                                order_id: order.id,
                                side: order.side,
                                price,
                                remaining: left,
                                sequence,
                            },
                            m2.level_event(order.side, price, sequence),
                            m2.top_event(sequence),
                        ],
                    )
                } else {
                    (
                        m1,
                        seq![accepted] + trades + seq![
                            Event::Cancelled {
                                instrument: self.instrument,
                                order_id: order.id,
                                cancelled_qty: left,
                                sequence,
                            },
                            m1.top_event(sequence),
                        ],
                    )
                }
            },
        }
    }

    /// Whether submitting `order` stays within the counters: the sequence number, and the
    /// level where what is left of it would rest.
    pub open spec fn submit_fits(self, order: NewOrder) -> bool {
        &&& self.next_sequence < u64::MAX
        &&& self.validation_error(order) is None ==> {
            let (m1, left, trades) = self.bump_sequence().match_taker(order, order.quantity, self.next_sequence);
            left > 0 && Self::rests(order) ==> m1.can_rest(order.side, order.price.unwrap(), left)
        }
    }

    /// The book and events after a cancel of `id`.
    pub open spec fn cancel_outcome(self, id: OrderId) -> (BookModel, Seq<Event>) {
        let sequence = self.next_sequence;
        let m0 = self.bump_sequence();
        if !self.orders.contains_key(id) {
            (
                m0,
                seq![
                    Event::Rejected {
                        instrument: Some(self.instrument),
                        order_id: id,
                        reason: RejectReason::UnknownOrderId,
                        sequence,
                    },
                ],
            )
        } else {
            let o = self.orders[id];
            let m1 = m0.remove_order(id);
            (
                m1,
                seq![
                    Event::Cancelled {
                        instrument: self.instrument,
                        order_id: id,
                        cancelled_qty: o.remaining_qty,
                        sequence,
                    },
                    m1.level_event(o.side, o.price, sequence),
                    m1.top_event(sequence),
                ],
            )
        }
    }

    /// The book after an order is put back at the tail of its level, as it was recorded.
    pub open spec fn restore(self, order: NewOrder, remaining: Quantity, arrival: Sequence) -> BookModel {
        let m = self.add_resting(self.resting_of(order, remaining, arrival));
        if self.next_sequence <= arrival {
            BookModel { next_sequence: (arrival + 1) as u64, ..m }
        } else {
            m
        }
    }
}


/// The prices of a side of a well-formed book form a finite set.
pub proof fn lemma_levels_finite(m: BookModel, side: Side)
    requires
        m.wf(),
    ensures
        m.levels(side).dom().finite(),
{
    let f = |id: OrderId| m.orders[id].price;
    let img = m.orders.dom().map(f);
    m.orders.dom().lemma_map_finite(f);
    assert forall|p: Price| #[trigger] m.levels(side).dom().contains(p) implies img.contains(p) by {
        assert(m.side_wf(side));
        assert(m.level_wf(side, p));
        let q = m.levels(side)[p];
        assert(m.orders.contains_key(q[0]));
        assert(f(q[0]) == p);
    }
    vstd::set_lib::lemma_len_subset(m.levels(side).dom(), img);
}

/// An order found in a level of a well-formed book rests with that level's side and price.
pub proof fn lemma_level_member(m: BookModel, side: Side, p: Price, id: OrderId)
    requires
        m.wf(),
        m.levels(side).contains_key(p),
        m.levels(side)[p].contains(id),
    ensures
        m.orders.contains_key(id),
        m.orders[id].side == side,
        m.orders[id].price == p,
{
    assert(m.side_wf(side));
    assert(m.level_wf(side, p));
    let q = m.levels(side)[p];
    let i = choose|i: int| 0 <= i < q.len() && q[i] == id;
    assert(m.orders.contains_key(q[i]));
}

/// Lowering the remaining quantity of a resting order keeps each level well-formed.
proof fn lemma_set_remaining_level(m: BookModel, m2: BookModel, id: OrderId, r: Quantity, side: Side, p: Price)
    requires
        m.wf(),
        m.orders.contains_key(id),
        r <= m.orders[id].remaining_qty,
        m.levels(side).contains_key(p),
        m2 == m.set_remaining(id, r),
    ensures
        m2.level_wf(side, p),
{
    let o = m.orders[id];
    assert(m.side_wf(side));
    assert(m.level_wf(side, p));
    assert(m2.levels(side) == m.levels(side));
    let q = m2.levels(side)[p];
    assert(q == m.levels(side)[p]);
    assert forall|i: int| 0 <= i < q.len() implies {
        &&& m2.orders.contains_key(#[trigger] q[i])
        &&& m2.orders[q[i]].side == side
        &&& m2.orders[q[i]].price == p
    } by {
        assert(m.orders.contains_key(q[i]));
        assert(m2.orders.contains_key(q[i]));
        assert(m2.orders[q[i]].side == side);
        assert(m2.orders[q[i]].price == p);
    }
    if q.contains(id) {
        lemma_level_member(m, side, p, id);
        lemma_sum_update(m.orders, q, id, RestingOrder { remaining_qty: r, ..o });
    } else {
        lemma_sum_frame(m.orders, m2.orders, q, id);
    }
    assert(sum_remaining(m2.orders, q) <= u64::MAX);
    assert(q.len() > 0);
    assert(q.len() <= usize::MAX);
    assert(q.no_duplicates());
    assert(queue_wf(m2.orders, q, side, p));
}

/// Lowering the remaining quantity of a resting order keeps a book well-formed.
pub proof fn lemma_set_remaining_wf(m: BookModel, id: OrderId, r: Quantity)
    requires
        m.wf(),
        m.orders.contains_key(id),
        r <= m.orders[id].remaining_qty,
    ensures
        m.set_remaining(id, r).wf(),
        m.set_remaining(id, r).orders.dom() == m.orders.dom(),
        m.set_remaining(id, r).bids == m.bids,
        m.set_remaining(id, r).asks == m.asks,
{
    let m2 = m.set_remaining(id, r);
    assert(m2.orders.dom() =~= m.orders.dom());
    assert forall|x: OrderId| #[trigger] m2.orders.contains_key(x) implies {
        let o2 = m2.orders[x];
        &&& o2.order_id == x
        &&& o2.instrument == m2.instrument
        &&& m2.levels(o2.side).contains_key(o2.price)
        &&& m2.levels(o2.side)[o2.price].contains(x)
    } by {
        assert(m.orders.contains_key(x));
    }
    assert forall|p: Price| #[trigger] m2.levels(Side::Bid).contains_key(p) implies m2.level_wf(Side::Bid, p) by {
        lemma_set_remaining_level(m, m2, id, r, Side::Bid, p);
    }
    assert forall|p: Price| #[trigger] m2.levels(Side::Ask).contains_key(p) implies m2.level_wf(Side::Ask, p) by {
        lemma_set_remaining_level(m, m2, id, r, Side::Ask, p);
    }
}

/// Taking one element out of a queue without duplicates leaves a queue without duplicates
/// that lacks that element.
pub proof fn lemma_remove_distinct(q: Seq<OrderId>, k: int)
    requires
        q.no_duplicates(),
        0 <= k < q.len(),
    ensures
        q.remove(k).no_duplicates(),
        !q.remove(k).contains(q[k]),
        forall|x: OrderId| x != q[k] && #[trigger] q.contains(x) ==> q.remove(k).contains(x),
        forall|x: OrderId| #[trigger] q.remove(k).contains(x) ==> q.contains(x),
{
    q.remove_ensures(k);
    let r = q.remove(k);
    assert forall|a: int, b: int| 0 <= a < r.len() && 0 <= b < r.len() && a != b implies r[a] != r[b] by {
        let ia = if a < k { a } else { a + 1 };
        let ib = if b < k { b } else { b + 1 };
        assert(r[a] == q[ia]);
        assert(r[b] == q[ib]);
    }
    assert forall|x: OrderId| #[trigger] r.contains(x) implies q.contains(x) by {
        let j = choose|j: int| 0 <= j < r.len() && r[j] == x;
        if j < k {
            assert(q[j] == x);
        } else {
            assert(q[j + 1] == x);
        }
    }
    if r.contains(q[k]) {
        let j = choose|j: int| 0 <= j < r.len() && r[j] == q[k];
        if j < k {
            assert(r[j] == q[j]);
        } else {
            assert(r[j] == q[j + 1]);
        }
    }
    assert forall|x: OrderId| x != q[k] && #[trigger] q.contains(x) implies r.contains(x) by {
        let j = choose|j: int| 0 <= j < q.len() && q[j] == x;
        if j < k {
            assert(r[j] == x);
        } else {
            assert(j != k);
            assert(r[j - 1] == x);
        }
    }
}

proof fn lemma_remove_order_level(m: BookModel, m2: BookModel, id: OrderId, side: Side, p: Price)
    requires
        m.wf(),
        m.orders.contains_key(id),
        m2 == m.remove_order(id),
        m2.levels(side).contains_key(p),
    ensures
        m2.level_wf(side, p),
{
    let o = m.orders[id];
    assert(m.levels(o.side).contains_key(o.price));
    assert(m.side_wf(o.side));
    assert(m.level_wf(o.side, o.price));
    let q0 = m.levels(o.side)[o.price];
    assert(q0.len() > 0);
    assert(q0.no_duplicates());
    assert(q0.contains(id));
    let k = q0.index_of(id);
    assert(0 <= k < q0.len() && q0[k] == id);
    let rest = q0.remove(k);
    lemma_remove_distinct(q0, k);
    q0.remove_ensures(k);
    assert(m2.orders == m.orders.remove(id));
    assert forall|x: OrderId| x != id implies (#[trigger] m.orders[x]).remaining_qty == m2.orders[x].remaining_qty by {
    }
    let q = m2.levels(side)[p];
    if side == o.side && p == o.price {
        assert(rest.len() > 0);
        assert(q == rest);
        lemma_sum_remove(m.orders, q0, k);
        lemma_sum_nonneg(m.orders, rest);
        lemma_sum_frame(m.orders, m2.orders, rest, id);
        assert forall|i: int| 0 <= i < q.len() implies {
            &&& m2.orders.contains_key(#[trigger] q[i])
            &&& m2.orders[q[i]].side == side
            &&& m2.orders[q[i]].price == p
        } by {
            assert(rest.contains(q[i]));
            assert(q0.contains(q[i]));
            lemma_level_member(m, side, p, q[i]);
            assert(m2.orders.contains_key(q[i]));
        }
        assert(sum_remaining(m2.orders, q) <= u64::MAX);
        assert(q.len() > 0);
        assert(q.len() <= usize::MAX);
        assert(q.no_duplicates());
        lemma_queue_wf_intro(m2.orders, q, side, p);
    } else {
        assert(m2.levels(side).contains_key(p) ==> m.levels(side).contains_key(p));
        assert(q == m.levels(side)[p]);
        assert(m.side_wf(side));
        assert(m.level_wf(side, p));
        if q.contains(id) {
            lemma_level_member(m, side, p, id);
        }
        lemma_sum_frame(m.orders, m2.orders, q, id);
        assert forall|i: int| 0 <= i < q.len() implies {
            &&& m2.orders.contains_key(#[trigger] q[i])
            &&& m2.orders[q[i]].side == side
            &&& m2.orders[q[i]].price == p
        } by {
            assert(m.orders.contains_key(q[i]));
            assert(q.contains(q[i]));
            assert(q[i] != id);
            assert(m2.orders.contains_key(q[i]));
        }
        assert(sum_remaining(m2.orders, q) <= u64::MAX);
        assert(q.len() > 0);
        assert(q.len() <= usize::MAX);
        assert(q.no_duplicates());
        lemma_queue_wf_intro(m2.orders, q, side, p);
    }
}

/// Taking a resting order out keeps a book well-formed.
pub proof fn lemma_remove_order_wf(m: BookModel, id: OrderId)
    requires
        m.wf(),
        m.orders.contains_key(id),
    ensures
        m.remove_order(id).wf(),
        m.remove_order(id).orders == m.orders.remove(id),
        m.remove_order(id).instrument == m.instrument,
        m.remove_order(id).next_sequence == m.next_sequence,
        m.remove_order(id).levels(m.orders[id].side.opposite()) == m.levels(m.orders[id].side.opposite()),
        m.remove_order(id).levels(m.orders[id].side).dom().subset_of(m.levels(m.orders[id].side).dom()),
        forall|p: Price| p != m.orders[id].price ==> m.remove_order(id).levels(m.orders[id].side).contains_key(p)
            == m.levels(m.orders[id].side).contains_key(p),
{
    let m2 = m.remove_order(id);
    let o = m.orders[id];
    assert(m.levels(o.side).contains_key(o.price));
    assert(m.side_wf(o.side));
    assert(m.level_wf(o.side, o.price));
    let q0 = m.levels(o.side)[o.price];
    let k = q0.index_of(id);
    assert(q0.contains(id));
    assert(0 <= k < q0.len() && q0[k] == id);
    lemma_remove_distinct(q0, k);
    assert(m2.orders =~= m.orders.remove(id));
    assert forall|x: OrderId| #[trigger] m2.orders.contains_key(x) implies {
        let o2 = m2.orders[x];
        &&& o2.order_id == x
        &&& o2.instrument == m2.instrument
        &&& m2.levels(o2.side).contains_key(o2.price)
        &&& m2.levels(o2.side)[o2.price].contains(x)
    } by {
        assert(m.orders.contains_key(x));
        let o2 = m.orders[x];
        assert(m.levels(o2.side).contains_key(o2.price));
        assert(m.levels(o2.side)[o2.price].contains(x));
        if o2.side == o.side && o2.price == o.price {
            assert(q0.contains(x));
            assert(q0.remove(k).contains(x));
        }
    }
    assert forall|p: Price| #[trigger] m2.levels(Side::Bid).contains_key(p) implies m2.level_wf(Side::Bid, p) by {
        lemma_remove_order_level(m, m2, id, Side::Bid, p);
    }
    assert forall|p: Price| #[trigger] m2.levels(Side::Ask).contains_key(p) implies m2.level_wf(Side::Ask, p) by {
        lemma_remove_order_level(m, m2, id, Side::Ask, p);
    }
    assert(m2.side_wf(Side::Bid));
    assert(m2.side_wf(Side::Ask));
}

proof fn lemma_add_resting_level(m: BookModel, m2: BookModel, r: RestingOrder, side: Side, p: Price)
    requires
        m.wf(),
        !m.orders.contains_key(r.order_id),
        m.can_rest(r.side, r.price, r.remaining_qty),
        m2 == m.add_resting(r),
        m2.levels(side).contains_key(p),
    ensures
        m2.level_wf(side, p),
{
    let id = r.order_id;
    assert forall|x: OrderId| x != id implies (#[trigger] m.orders[x]).remaining_qty == m2.orders[x].remaining_qty by {
    }
    let q = m2.levels(side)[p];
    if side == r.side && p == r.price {
        let old_q = if m.levels(side).contains_key(p) { m.levels(side)[p] } else { Seq::empty() };
        if m.levels(side).contains_key(p) {
            assert(m.side_wf(side));
            assert(m.level_wf(side, p));
            assert(q == old_q.push(id));
            if old_q.contains(id) {
                lemma_level_member(m, side, p, id);
            }
            assert(q.drop_last() =~= old_q);
        } else {
            assert(q =~= old_q.push(id));
            assert(q.drop_last() =~= old_q);
        }
        lemma_sum_frame(m.orders, m2.orders, old_q, id);
        assert(sum_remaining(m2.orders, q) == sum_remaining(m2.orders, old_q) + r.remaining_qty);
        assert(sum_remaining(m2.orders, q) <= u64::MAX);
        assert(q.len() > 0);
        assert(q.len() <= usize::MAX);
        assert forall|a: int, b: int| 0 <= a < q.len() && 0 <= b < q.len() && a != b implies q[a] != q[b] by {
            if a < old_q.len() && b < old_q.len() {
                assert(old_q[a] != old_q[b]);
            } else if a < old_q.len() {
                assert(old_q.contains(old_q[a]));
                if old_q[a] == id {
                    lemma_level_member(m, side, p, id);
                }
            } else if b < old_q.len() {
                assert(old_q.contains(old_q[b]));
                if old_q[b] == id {
                    lemma_level_member(m, side, p, id);
                }
            }
        }
        assert(q.no_duplicates());
        assert forall|i: int| 0 <= i < q.len() implies {
            &&& m2.orders.contains_key(#[trigger] q[i])
            &&& m2.orders[q[i]].side == side
            &&& m2.orders[q[i]].price == p
        } by {
            if i < old_q.len() {
                assert(q[i] == old_q[i]);
                assert(old_q.contains(old_q[i]));
                lemma_level_member(m, side, p, old_q[i]);
            }
        }
        lemma_queue_wf_intro(m2.orders, q, side, p);
    } else {
        assert(m.levels(side).contains_key(p));
        assert(q == m.levels(side)[p]);
        assert(m.side_wf(side));
        assert(m.level_wf(side, p));
        if q.contains(id) {
            lemma_level_member(m, side, p, id);
        }
        lemma_sum_frame(m.orders, m2.orders, q, id);
        assert forall|i: int| 0 <= i < q.len() implies {
            &&& m2.orders.contains_key(#[trigger] q[i])
            &&& m2.orders[q[i]].side == side
            &&& m2.orders[q[i]].price == p
        } by {
            assert(m.orders.contains_key(q[i]));
        }
        assert(sum_remaining(m2.orders, q) <= u64::MAX);
        assert(q.len() > 0);
        assert(q.len() <= usize::MAX);
        assert(q.no_duplicates());
        lemma_queue_wf_intro(m2.orders, q, side, p);
    }
}

/// Appending a new order of the book's instrument to the tail of its level keeps a book
/// well-formed, where the level's counters have room for it.
pub proof fn lemma_add_resting_wf(m: BookModel, r: RestingOrder)
    requires
        m.wf(),
        !m.orders.contains_key(r.order_id),
        r.instrument == m.instrument,
        m.can_rest(r.side, r.price, r.remaining_qty),
    ensures
        m.add_resting(r).wf(),
        m.add_resting(r).orders == m.orders.insert(r.order_id, r),
        m.add_resting(r).levels(r.side.opposite()) == m.levels(r.side.opposite()),
        m.add_resting(r).levels(r.side).dom() == m.levels(r.side).dom().insert(r.price),
{
    let m2 = m.add_resting(r);
    let id = r.order_id;
    assert(m2.levels(r.side).dom() =~= m.levels(r.side).dom().insert(r.price));
    assert forall|x: OrderId| #[trigger] m2.orders.contains_key(x) implies {
        let o2 = m2.orders[x];
        &&& o2.order_id == x
        &&& o2.instrument == m2.instrument
        &&& m2.levels(o2.side).contains_key(o2.price)
        &&& m2.levels(o2.side)[o2.price].contains(x)
    } by {
        if x == id {
            let q = m2.levels(r.side)[r.price];
            assert(q[q.len() - 1] == id);
        } else {
            assert(m.orders.contains_key(x));
            let o2 = m.orders[x];
            assert(m.levels(o2.side).contains_key(o2.price));
            let q = m.levels(o2.side)[o2.price];
            assert(q.contains(x));
            if o2.side == r.side && o2.price == r.price {
                let j = choose|j: int| 0 <= j < q.len() && q[j] == x;
                assert(q.push(id)[j] == x);
            }
        }
    }
    assert forall|p: Price| #[trigger] m2.levels(Side::Bid).contains_key(p) implies m2.level_wf(Side::Bid, p) by {
        lemma_add_resting_level(m, m2, r, Side::Bid, p);
    }
    assert forall|p: Price| #[trigger] m2.levels(Side::Ask).contains_key(p) implies m2.level_wf(Side::Ask, p) by {
        lemma_add_resting_level(m, m2, r, Side::Ask, p);
    }
    assert(m2.side_wf(Side::Bid));
    assert(m2.side_wf(Side::Ask));
    assert(m2.orders.dom() =~= m.orders.dom().insert(id));
}

/// A queue whose orders all stand in another queue, neither holding an order twice, is no
/// longer than it and has no larger total.
pub proof fn lemma_sum_subset(orders: Map<OrderId, RestingOrder>, q1: Seq<OrderId>, q2: Seq<OrderId>)
    requires
        q1.no_duplicates(),
        q2.no_duplicates(),
        forall|x: OrderId| #[trigger] q1.contains(x) ==> q2.contains(x),
    ensures
        sum_remaining(orders, q1) <= sum_remaining(orders, q2),
        q1.len() <= q2.len(),
    decreases q1.len(),
{
    if q1.len() == 0 {
        lemma_sum_nonneg(orders, q2);
    } else {
        let x = q1.last();
        let d = q1.drop_last();
        assert(q1.contains(x));
        assert(q2.contains(x));
        let k = q2.index_of(x);
        assert(0 <= k < q2.len() && q2[k] == x);
        lemma_remove_distinct(q2, k);
        let r = q2.remove(k);
        assert forall|y: OrderId| #[trigger] d.contains(y) implies r.contains(y) by {
            let j = choose|j: int| 0 <= j < d.len() && d[j] == y;
            assert(q1[j] == y);
            assert(q1.contains(y));
            assert(y != x);
        }
        assert(d.no_duplicates());
        lemma_sum_subset(orders, d, r);
        lemma_sum_remove(orders, q2, k);
        q2.remove_ensures(k);
    }
}

/// Putting an order back keeps a book well-formed and records it as given.
pub proof fn lemma_restore_wf(m: BookModel, order: NewOrder, remaining: Quantity, arrival: Sequence)
    requires
        m.wf(),
        order.price is Some,
        !m.orders.contains_key(order.id),
        m.can_rest(order.side, order.price.unwrap(), remaining),
    ensures
        m.restore(order, remaining, arrival).wf(),
        m.restore(order, remaining, arrival).instrument == m.instrument,
        m.restore(order, remaining, arrival).orders == m.orders.insert(order.id, m.resting_of(order, remaining, arrival)),
{
    let r = m.resting_of(order, remaining, arrival);
    lemma_add_resting_wf(m, r);
    let m2 = m.add_resting(r);
    let m3 = m.restore(order, remaining, arrival);
    assert forall|side: Side, p: Price| #[trigger] m3.levels(side).contains_key(p) implies m3.level_wf(side, p) by {
        assert(m2.side_wf(side));
        assert(m2.level_wf(side, p));
    }
    assert(m3.side_wf(Side::Bid));
    assert(m3.side_wf(Side::Ask));
}

/// Taking one element out of a sequence of live orders without duplicates leaves one
/// without duplicates.
pub proof fn lemma_remove_distinct_live(q: Seq<crate::engine::LiveOrderState>, k: int)
    requires
        q.no_duplicates(),
        0 <= k < q.len(),
    ensures
        q.remove(k).no_duplicates(),
{
    q.remove_ensures(k);
    let r = q.remove(k);
    assert forall|a: int, b: int| 0 <= a < r.len() && 0 <= b < r.len() && a != b implies r[a] != r[b] by {
        let ia = if a < k { a } else { a + 1 };
        let ib = if b < k { b } else { b + 1 };
        assert(r[a] == q[ia]);
        assert(r[b] == q[ib]);
    }
}

} // verus!
