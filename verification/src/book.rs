use vstd::prelude::*;

use std::collections::BTreeMap;
use std::collections::HashMap;

use slab::Slab;

use crate::book_model::{lemma_sum_agree, lemma_sum_frame, lemma_sum_nonneg, lemma_sum_remove, lemma_sum_update, sum_remaining, BookModel};
use crate::collections::{levels_first, levels_last, slab_get, slab_insert, slab_new, slab_nodes, slab_set, slab_try_remove};
use crate::events::{Event, RejectReason};
use crate::types::{InstrumentId, NewOrder, OrderId, OrderType, Price, Quantity, Sequence, Side, TimeInForce};

verus! {

/// One price level of the top of the book.
#[derive(Debug, Clone, Copy, PartialEq, Eq, Structural)]
pub struct LevelSnapshot {
    pub price: Price,
    pub total_qty: Quantity,
    pub order_count: usize,
}

/// The best bid and best ask levels of a book.
#[derive(Debug, Clone, Copy, PartialEq, Eq, Structural)]
pub struct BookSnapshot {
    pub best_bid: Option<LevelSnapshot>,
    pub best_ask: Option<LevelSnapshot>,
}

/// What a book reports of one of its resting orders.
#[derive(Debug, Clone, Copy, PartialEq, Eq, Structural)]
pub struct RestingOrder {
    pub instrument: InstrumentId,
    pub order_id: OrderId,
    pub side: Side,
    pub price: Price,
    pub original_qty: Quantity,
    pub remaining_qty: Quantity,
    pub arrival_sequence: Sequence,
}

/// The head and tail of the FIFO queue of one price level, with its totals.
#[derive(Debug, Clone, Copy, PartialEq, Eq, Structural)]
pub struct PriceLevel {
    pub head: Option<usize>,
    pub tail: Option<usize>,
    pub total_qty: Quantity,
    pub order_count: usize,
}

impl PriceLevel {
    /// A level with no orders.
    pub fn new() -> (r: Self)
        ensures
            r == (PriceLevel { head: None, tail: None, total_qty: 0, order_count: 0 }),
    {
        PriceLevel { head: None, tail: None, total_qty: 0, order_count: 0 }
    }
}

/// A resting order, as stored in the slab: its data and its links in the level queue.
#[derive(Debug, Clone, Copy, PartialEq, Eq, Structural)]
pub struct OrderNode {
    pub order_id: OrderId,
    pub side: Side,
    pub price: Price,
    pub original_qty: Quantity,
    pub remaining_qty: Quantity,
    pub arrival_sequence: Sequence,
    pub prev: Option<usize>,
    pub next: Option<usize>,
}


/// What a book reports of a stored node: its order data, without the queue links.
pub open spec fn node_view(instrument: InstrumentId, n: OrderNode) -> RestingOrder {
    RestingOrder {
        instrument,
        order_id: n.order_id,
        side: n.side,
        price: n.price,
        original_qty: n.original_qty,
        remaining_qty: n.remaining_qty,
        arrival_sequence: n.arrival_sequence,
    }
}

/// The order book of one instrument.
///
/// Resting orders are nodes of a slab; the orders of one price level form a doubly linked
/// FIFO list through the nodes' `prev`/`next` keys, whose ends the level records. Levels
/// are kept per side in ordered maps, and `order_index` finds the node of an order id.
/// The ghost queues give, for each level, the ids of its orders from head to tail.
pub struct OrderBook {
    instrument: InstrumentId,
    bids: BTreeMap<Price, PriceLevel>,
    asks: BTreeMap<Price, PriceLevel>,
    orders: Slab<OrderNode>,
    order_index: HashMap<OrderId, usize>,
    next_sequence: Sequence,
    bid_queues: Ghost<Map<Price, Seq<OrderId>>>,
    ask_queues: Ghost<Map<Price, Seq<OrderId>>>,
}

impl View for OrderBook {
    type V = BookModel;

    closed spec fn view(&self) -> BookModel {
        BookModel {
            instrument: self.instrument,
            next_sequence: self.next_sequence,
            bids: self.bid_queues@,
            asks: self.ask_queues@,
            orders: self.resting_orders(),
        }
    }
}

impl OrderBook {
    closed spec fn nodes(&self) -> Map<usize, OrderNode> {
        slab_nodes(self.orders)
    }

    closed spec fn index(&self) -> Map<OrderId, usize> {
        self.order_index@
    }

    closed spec fn level_map(&self, side: Side) -> Map<Price, PriceLevel> {
        match side {
            Side::Bid => self.bids@,
            Side::Ask => self.asks@,
        }
    }

    closed spec fn queues(&self, side: Side) -> Map<Price, Seq<OrderId>> {
        match side {
            Side::Bid => self.bid_queues@,
            Side::Ask => self.ask_queues@,
        }
    }

    closed spec fn resting_orders(&self) -> Map<OrderId, RestingOrder> {
        Map::new(
            |id: OrderId| self.index().contains_key(id),
            |id: OrderId| node_view(self.instrument, self.nodes()[self.index()[id]]),
        )
    }

    /// The node of the `i`-th order of queue `q` of level (`side`, `p`) is linked to its
    /// neighbours in the queue.
    closed spec fn link_ok(&self, side: Side, p: Price, q: Seq<OrderId>, i: int) -> bool {
        let id = q[i];
        let n = self.nodes()[self.index()[id]];
        &&& self.index().contains_key(id)
        &&& self.nodes().contains_key(self.index()[id])
        &&& n.side == side
        &&& n.price == p
        &&& n.prev == (if i == 0 { None } else { Some(self.index()[q[i - 1]]) })
        &&& n.next == (if i == q.len() - 1 { None } else { Some(self.index()[q[i + 1]]) })
    }

    closed spec fn level_ok(&self, side: Side, p: Price) -> bool {
        let q = self.queues(side)[p];
        let lv = self.level_map(side)[p];
        &&& q.len() > 0
        &&& q.no_duplicates()
        &&& lv.order_count == q.len()
        &&& lv.total_qty == sum_remaining(self.resting_orders(), q)
        &&& lv.head == Some(self.index()[q[0]])
        &&& lv.tail == Some(self.index()[q.last()])
        &&& forall|i: int| 0 <= i < q.len() ==> #[trigger] self.link_ok(side, p, q, i)
    }

    closed spec fn side_ok(&self, side: Side) -> bool {
        &&& self.level_map(side).dom() == self.queues(side).dom()
        &&& forall|p: Price| #[trigger] self.queues(side).contains_key(p) ==> self.level_ok(side, p)
    }

    /// The internal invariant of a book: the index and the slab are inverse to each other,
    /// every level's list matches its ghost queue, and every order stands in the queue of
    /// its side and price.
    pub closed spec fn wf(&self) -> bool {
        &&& forall|id: OrderId| #[trigger] self.index().contains_key(id) ==> {
            &&& self.nodes().contains_key(self.index()[id])
            &&& self.nodes()[self.index()[id]].order_id == id
        }
        &&& forall|k: usize| #[trigger] self.nodes().contains_key(k) ==> {
            &&& self.index().contains_key(self.nodes()[k].order_id)
            &&& self.index()[self.nodes()[k].order_id] == k
        }
        &&& forall|id: OrderId| #[trigger] self.index().contains_key(id) ==> {
            let n = self.nodes()[self.index()[id]];
            &&& self.queues(n.side).contains_key(n.price)
            &&& self.queues(n.side)[n.price].contains(id)
        }
        &&& self.side_ok(Side::Bid)
        &&& self.side_ok(Side::Ask)
    }

    proof fn lemma_index_injective(&self, a: OrderId, b: OrderId)
        requires
            self.wf(),
            self.index().contains_key(a),
            self.index().contains_key(b),
            self.index()[a] == self.index()[b],
        ensures
            a == b,
    {
        assert(self.nodes()[self.index()[a]].order_id == a);
        assert(self.nodes()[self.index()[b]].order_id == b);
    }

    proof fn lemma_orders_dom(&self)
        ensures
            self.resting_orders().dom() == self.index().dom(),
            forall|id: OrderId| #[trigger] self.index().contains_key(id) ==> self.resting_orders()[id]
                == node_view(self.instrument, self.nodes()[self.index()[id]]),
    {
        assert(self.resting_orders().dom() =~= self.index().dom());
    }

    /// An order in the queue of a level is stored with that level's side and price.
    proof fn lemma_queue_member(&self, side: Side, p: Price, id: OrderId)
        requires
            self.wf(),
            self.queues(side).contains_key(p),
            self.queues(side)[p].contains(id),
        ensures
            self.index().contains_key(id),
            self.nodes().contains_key(self.index()[id]),
            self.nodes()[self.index()[id]].side == side,
            self.nodes()[self.index()[id]].price == p,
    {
        let q = self.queues(side)[p];
        assert(self.level_ok(side, p));
        let i = choose|i: int| 0 <= i < q.len() && q[i] == id;
        assert(self.link_ok(side, p, q, i));
    }

    /// The internal invariant gives the well-formedness of the abstract book.
    pub proof fn lemma_view_wf(&self)
        requires
            self.wf(),
        ensures
            self@.wf(),
    {
        broadcast use vstd::std_specs::hash::group_hash_axioms;

        self.lemma_orders_dom();
        let m = self@;
        assert forall|id: OrderId| #[trigger] m.orders.contains_key(id) implies {
            let o = m.orders[id];
            &&& o.order_id == id
            &&& o.instrument == m.instrument
            &&& m.levels(o.side).contains_key(o.price)
            &&& m.levels(o.side)[o.price].contains(id)
        } by {
            let n = self.nodes()[self.index()[id]];
            assert(self.queues(n.side).contains_key(n.price));
        }
        self.lemma_side_view_wf(Side::Bid);
        self.lemma_side_view_wf(Side::Ask);
        assert(m.side_wf(Side::Bid));
        assert(m.side_wf(Side::Ask));
    }

    proof fn lemma_level_view_wf(&self, side: Side, p: Price)
        requires
            self.wf(),
            self.queues(side).contains_key(p),
        ensures
            self@.level_wf(side, p),
    {
        let m = self@;
        assert(self.side_ok(side));
        assert(m.levels(side) == self.queues(side));
        assert(self.level_ok(side, p));
        let q = m.levels(side)[p];
        let lv = self.level_map(side)[p];
        assert(lv.order_count == q.len());
        assert forall|i: int| 0 <= i < q.len() implies {
            &&& #[trigger] m.orders.contains_key(q[i])
            &&& m.orders[q[i]].side == side
            &&& m.orders[q[i]].price == p
        } by {
            assert(self.link_ok(side, p, q, i));
            self.lemma_orders_dom();
        }
    }

    proof fn lemma_side_view_wf(&self, side: Side)
        requires
            self.wf(),
        ensures
            self@.side_wf(side),
    {
        assert(self.side_ok(side));
        assert(self@.levels(side) == self.queues(side));
        assert forall|p: Price| #[trigger] self@.levels(side).contains_key(p) implies self@.level_wf(side, p) by {
            self.lemma_level_view_wf(side, p);
        }
    }

    /// The best price of a side, if any, is the price of one of its levels.
    proof fn lemma_best_in_levels(&self, side: Side)
        requires
            self.wf(),
        ensures
            self@.best_price(side) matches Some(p) ==> self.queues(side).contains_key(p),
    {
        assert(self@.levels(side) == self.queues(side));
        match side {
            Side::Bid => {
                if let Some(p) = self@.best_price(side) {
                    assert(crate::book_model::is_max_of(self.queues(side).dom(), p));
                }
            },
            Side::Ask => {
                if let Some(p) = self@.best_price(side) {
                    assert(crate::book_model::is_min_of(self.queues(side).dom(), p));
                }
            },
        }
    }

    fn level_get(&self, side: Side, price: Price) -> (r: Option<PriceLevel>)
        ensures
            r == (if self.level_map(side).contains_key(price) {
                Some(self.level_map(side)[price])
            } else {
                None
            }),
    {
        broadcast use vstd::std_specs::btree::group_btree_axioms;

        let found = match side {
            Side::Bid => self.bids.get(&price),
            Side::Ask => self.asks.get(&price),
        };
        match found {
            Some(lv) => Some(*lv),
            None => None,
        }
    }

    fn level_put(&mut self, side: Side, price: Price, lv: PriceLevel)
        ensures
            final(self).level_map(side) == old(self).level_map(side).insert(price, lv),
            final(self).level_map(side.opposite()) == old(self).level_map(side.opposite()),
            final(self).instrument == old(self).instrument,
            final(self).orders == old(self).orders,
            final(self).order_index == old(self).order_index,
            final(self).next_sequence == old(self).next_sequence,
            final(self).bid_queues == old(self).bid_queues,
            final(self).ask_queues == old(self).ask_queues,
    {
        broadcast use vstd::std_specs::btree::group_btree_axioms;

        match side {
            Side::Bid => {
                self.bids.insert(price, lv);
            },
            Side::Ask => {
                self.asks.insert(price, lv);
            },
        }
    }

    fn level_drop(&mut self, side: Side, price: Price)
        ensures
            final(self).level_map(side) == old(self).level_map(side).remove(price),
            final(self).level_map(side.opposite()) == old(self).level_map(side.opposite()),
            final(self).instrument == old(self).instrument,
            final(self).orders == old(self).orders,
            final(self).order_index == old(self).order_index,
            final(self).next_sequence == old(self).next_sequence,
            final(self).bid_queues == old(self).bid_queues,
            final(self).ask_queues == old(self).ask_queues,
    {
        broadcast use vstd::std_specs::btree::group_btree_axioms;

        match side {
            Side::Bid => {
                self.bids.remove(&price);
            },
            Side::Ask => {
                self.asks.remove(&price);
            },
        }
    }

    /// The best price of a side: the last key of the bids or the first key of the asks.
    fn best_price_of(&self, side: Side) -> (r: Option<Price>)
        requires
            self.wf(),
        ensures
            r == self@.best_price(side),
    {
        assert(self.side_ok(side));
        match side {
            Side::Bid => match levels_last(&self.bids) {
                Some((p, _)) => {
                    let ghost s = self.bid_queues@.dom();
                    assert(crate::book_model::is_max_of(s, p));
                    let ghost c = choose|c: u64| crate::book_model::is_max_of(s, c);
                    assert(s.contains(c) && c <= p && p <= c);
                    Some(p)
                },
                None => {
                    assert(self.bid_queues@.dom() =~= Set::empty());
                    None
                },
            },
            Side::Ask => match levels_first(&self.asks) {
                Some((p, _)) => {
                    let ghost s = self.ask_queues@.dom();
                    assert(crate::book_model::is_min_of(s, p));
                    let ghost c = choose|c: u64| crate::book_model::is_min_of(s, c);
                    assert(s.contains(c) && c <= p && p <= c);
                    Some(p)
                },
                None => {
                    assert(self.ask_queues@.dom() =~= Set::empty());
                    None
                },
            },
        }
    }

    /// Lowers the remaining quantity of the resting order `id`, stored under `key`, and the
    /// total of its level with it.
    fn set_node_remaining(&mut self, id: OrderId, key: usize, new_rem: Quantity)
        requires
            old(self).wf(),
            old(self).index().contains_key(id),
            old(self).index()[id] == key,
            new_rem <= old(self).nodes()[key].remaining_qty,
        ensures
            final(self).wf(),
            final(self)@ == old(self)@.set_remaining(id, new_rem),
    {
        let ghost old_book = *self;
        proof {
            old_book.lemma_orders_dom();
        }
        let node = slab_get(&self.orders, key).unwrap();
        let ghost q = self.queues(node.side)[node.price];
        proof {
            self.lemma_queue_member(node.side, node.price, id);
            assert(self.side_ok(node.side));
            assert(self.level_ok(node.side, node.price));
            let z = RestingOrder { remaining_qty: 0, ..self.resting_orders()[id] };
            lemma_sum_update(self.resting_orders(), q, id, z);
            lemma_sum_nonneg(self.resting_orders().insert(id, z), q);
        }
        let diff = node.remaining_qty - new_rem;
        let new_node = OrderNode { remaining_qty: new_rem, ..node };
        slab_set(&mut self.orders, key, new_node);
        let lv = self.level_get(node.side, node.price).unwrap();
        self.level_put(node.side, node.price, PriceLevel { total_qty: lv.total_qty - diff, ..lv });
        proof {
            let new_r = RestingOrder { remaining_qty: new_rem, ..old_book.resting_orders()[id] };
            self.lemma_orders_dom();
            assert(self.resting_orders() =~= old_book.resting_orders().insert(id, new_r)) by {
                assert forall|x: OrderId| #[trigger] self.index().contains_key(x) && x != id implies
                    self.nodes()[self.index()[x]] == old_book.nodes()[old_book.index()[x]] by {
                    if self.index()[x] == key {
                        old_book.lemma_index_injective(x, id);
                    }
                }
            }
            assert(self.queues(Side::Bid) == old_book.queues(Side::Bid));
            assert(self.queues(Side::Ask) == old_book.queues(Side::Ask));
            assert forall|k: usize| #[trigger] self.nodes().contains_key(k) implies {
                &&& self.nodes()[k].order_id == old_book.nodes()[k].order_id
                &&& self.nodes()[k].side == old_book.nodes()[k].side
                &&& self.nodes()[k].price == old_book.nodes()[k].price
                &&& self.nodes()[k].prev == old_book.nodes()[k].prev
                &&& self.nodes()[k].next == old_book.nodes()[k].next
            } by {}
            assert forall|s2: Side| #[trigger] self.side_ok(s2) by {
                assert(old_book.side_ok(s2));
                assert(self.level_map(s2).dom() =~= old_book.level_map(s2).dom());
                assert forall|p2: Price| #[trigger] self.queues(s2).contains_key(p2) implies self.level_ok(s2, p2) by {
                    assert(old_book.level_ok(s2, p2));
                    let q2 = self.queues(s2)[p2];
                    assert forall|i: int| 0 <= i < q2.len() implies #[trigger] self.link_ok(s2, p2, q2, i) by {
                        assert(old_book.link_ok(s2, p2, q2, i));
                    }
                    if s2 == node.side && p2 == node.price {
                        lemma_sum_update(old_book.resting_orders(), q2, id, new_r);
                    } else {
                        if q2.contains(id) {
                            old_book.lemma_queue_member(s2, p2, id);
                        }
                        lemma_sum_frame(self.resting_orders(), old_book.resting_orders(), q2, id);
                    }
                }
            }
            assert(self.side_ok(Side::Bid));
            assert(self.side_ok(Side::Ask));
            assert(self@.orders =~= old_book@.set_remaining(id, new_rem).orders);
        }
    }

    /// The nodes once the node under `key` is unlinked from its neighbours and taken out.
    closed spec fn unlinked(nodes: Map<usize, OrderNode>, node: OrderNode, key: usize) -> Map<usize, OrderNode> {
        let n1 = match node.prev {
            Some(pk) => nodes.insert(pk, OrderNode { next: node.next, ..nodes[pk] }),
            None => nodes,
        };
        let n2 = match node.next {
            Some(nk) => n1.insert(nk, OrderNode { prev: node.prev, ..n1[nk] }),
            None => n1,
        };
        n2.remove(key)
    }

    /// The level of a removed order, with its ends, count and total adjusted.
    closed spec fn shrunk_level(lv: PriceLevel, node: OrderNode) -> PriceLevel {
        PriceLevel {
            head: if node.prev is None { node.next } else { lv.head },
            tail: if node.next is None { node.prev } else { lv.tail },
            total_qty: (lv.total_qty - node.remaining_qty) as u64,
            order_count: (lv.order_count - 1) as usize,
        }
    }

    /// `self` is `old_book` after the resting order `id` (the `i`-th of queue `q`, stored
    /// under `key` as `node`) was taken out.
    closed spec fn removal_step(
        &self,
        old_book: OrderBook,
        id: OrderId,
        key: usize,
        node: OrderNode,
        q: Seq<OrderId>,
        i: int,
    ) -> bool {
        &&& old_book.wf()
        &&& old_book.index().contains_key(id)
        &&& old_book.index()[id] == key
        &&& node == old_book.nodes()[key]
        &&& old_book.queues(node.side).contains_key(node.price)
        &&& q == old_book.queues(node.side)[node.price]
        &&& 0 <= i < q.len()
        &&& q[i] == id
        &&& i == q.index_of(id)
        &&& self.instrument == old_book.instrument
        &&& self.next_sequence == old_book.next_sequence
        &&& self.index() == old_book.index().remove(id)
        &&& self.nodes() == Self::unlinked(old_book.nodes(), node, key)
        &&& self.queues(node.side) == (if q.len() == 1 {
            old_book.queues(node.side).remove(node.price)
        } else {
            old_book.queues(node.side).insert(node.price, q.remove(i))
        })
        &&& self.queues(node.side.opposite()) == old_book.queues(node.side.opposite())
        &&& self.level_map(node.side) == (if q.len() == 1 {
            old_book.level_map(node.side).remove(node.price)
        } else {
            old_book.level_map(node.side).insert(
                node.price,
                Self::shrunk_level(old_book.level_map(node.side)[node.price], node),
            )
        })
        &&& self.level_map(node.side.opposite()) == old_book.level_map(node.side.opposite())
    }

    proof fn lemma_removal_basics(&self, old_book: OrderBook, id: OrderId, key: usize, node: OrderNode, q: Seq<OrderId>, i: int)
        requires
            self.removal_step(old_book, id, key, node, q, i),
        ensures
            forall|k: usize| #[trigger] self.nodes().contains_key(k) ==> {
                &&& old_book.nodes().contains_key(k)
                &&& k != key
                &&& self.nodes()[k].order_id == old_book.nodes()[k].order_id
                &&& self.nodes()[k].side == old_book.nodes()[k].side
                &&& self.nodes()[k].price == old_book.nodes()[k].price
                &&& (node.prev != Some(k) && node.next != Some(k) ==> self.nodes()[k] == old_book.nodes()[k])
                &&& (node.prev == Some(k) ==> self.nodes()[k] == (OrderNode { next: node.next, ..old_book.nodes()[k] }))
                &&& (node.next == Some(k) ==> self.nodes()[k] == (OrderNode { prev: node.prev, ..old_book.nodes()[k] }))
            },
            forall|k: usize| #[trigger] old_book.nodes().contains_key(k) && k != key ==> self.nodes().contains_key(k),
            forall|x: OrderId| #[trigger] self.index().contains_key(x) ==> {
                &&& old_book.index().contains_key(x)
                &&& x != id
                &&& self.index()[x] == old_book.index()[x]
                &&& old_book.index()[x] != key
            },
            self.resting_orders() == old_book.resting_orders().remove(id),
            i > 0 ==> old_book.link_ok(node.side, node.price, q, i - 1),
            i < q.len() - 1 ==> old_book.link_ok(node.side, node.price, q, i + 1),
            old_book.link_ok(node.side, node.price, q, i),
            old_book.level_ok(node.side, node.price),
    {
        let side = node.side;
        let price = node.price;
        let on = old_book.nodes();
        let oi = old_book.index();
        old_book.lemma_orders_dom();
        self.lemma_orders_dom();
        assert(old_book.side_ok(side));
        assert(old_book.level_ok(side, price));
        assert(old_book.link_ok(side, price, q, i));
        if i > 0 {
            assert(old_book.link_ok(side, price, q, i - 1));
        }
        if i < q.len() - 1 {
            assert(old_book.link_ok(side, price, q, i + 1));
        }
        assert forall|k: usize| #[trigger] self.nodes().contains_key(k) implies {
            &&& on.contains_key(k)
            &&& k != key
            &&& self.nodes()[k].order_id == on[k].order_id
            &&& self.nodes()[k].side == on[k].side
            &&& self.nodes()[k].price == on[k].price
            &&& (node.prev != Some(k) && node.next != Some(k) ==> self.nodes()[k] == on[k])
            &&& (node.prev == Some(k) ==> self.nodes()[k] == OrderNode { next: node.next, ..on[k] })
            &&& (node.next == Some(k) ==> self.nodes()[k] == OrderNode { prev: node.prev, ..on[k] })
        } by {
            if node.prev == Some(k) && node.next == Some(k) {
                old_book.lemma_index_injective(q[i - 1], q[i + 1]);
            }
        }
        assert forall|x: OrderId| #[trigger] self.index().contains_key(x) implies {
            &&& oi.contains_key(x)
            &&& x != id
            &&& self.index()[x] == oi[x]
            &&& oi[x] != key
        } by {
            if oi[x] == key {
                old_book.lemma_index_injective(x, id);
            }
        }
        assert(self.resting_orders() =~= old_book.resting_orders().remove(id));
    }

    proof fn lemma_removal_index(&self, old_book: OrderBook, id: OrderId, key: usize, node: OrderNode, q: Seq<OrderId>, i: int)
        requires
            self.removal_step(old_book, id, key, node, q, i),
        ensures
            forall|x: OrderId| #[trigger] self.index().contains_key(x) ==> {
                &&& self.nodes().contains_key(self.index()[x])
                &&& self.nodes()[self.index()[x]].order_id == x
            },
            forall|k: usize| #[trigger] self.nodes().contains_key(k) ==> {
                &&& self.index().contains_key(self.nodes()[k].order_id)
                &&& self.index()[self.nodes()[k].order_id] == k
            },
            forall|x: OrderId| #[trigger] self.index().contains_key(x) ==> {
                let n = self.nodes()[self.index()[x]];
                &&& self.queues(n.side).contains_key(n.price)
                &&& self.queues(n.side)[n.price].contains(x)
            },
    {
        self.lemma_removal_basics(old_book, id, key, node, q, i);
        let side = node.side;
        let price = node.price;
        let on = old_book.nodes();
        let oi = old_book.index();
        let q2 = q.remove(i);
        assert forall|x: OrderId| #[trigger] self.index().contains_key(x) implies {
            &&& self.nodes().contains_key(self.index()[x])
            &&& self.nodes()[self.index()[x]].order_id == x
        } by {
            assert(on.contains_key(oi[x]));
        }
        assert forall|k: usize| #[trigger] self.nodes().contains_key(k) implies {
            &&& self.index().contains_key(self.nodes()[k].order_id)
            &&& self.index()[self.nodes()[k].order_id] == k
        } by {
            assert(oi.contains_key(on[k].order_id));
            assert(on[k].order_id != id);
        }
        assert forall|x: OrderId| #[trigger] self.index().contains_key(x) implies {
            let n = self.nodes()[self.index()[x]];
            &&& self.queues(n.side).contains_key(n.price)
            &&& self.queues(n.side)[n.price].contains(x)
        } by {
            let n = on[oi[x]];
            assert(on.contains_key(oi[x]));
            assert(old_book.queues(n.side)[n.price].contains(x));
            if n.side == side && n.price == price {
                let j = choose|j: int| 0 <= j < q.len() && q[j] == x;
                assert(j != i);
                if q.len() == 1 {
                    assert(false);
                }
                let j2 = if j < i { j } else { j - 1 };
                assert(q2[j2] == x);
            } else if n.side != side {
                assert(n.side == side.opposite());
            }
        }
    }

    proof fn lemma_removal_own_level(&self, old_book: OrderBook, id: OrderId, key: usize, node: OrderNode, q: Seq<OrderId>, i: int)
        requires
            self.removal_step(old_book, id, key, node, q, i),
            q.len() > 1,
        ensures
            self.level_ok(node.side, node.price),
    {
        self.lemma_removal_basics(old_book, id, key, node, q, i);
        let side = node.side;
        let price = node.price;
        let oi = old_book.index();
        let q2 = q.remove(i);
        assert(self.queues(side)[price] == q2);
        assert(q2.len() == q.len() - 1);
        assert(q2.no_duplicates());
        lemma_sum_remove(old_book.resting_orders(), q, i);
        old_book.lemma_orders_dom();
        assert forall|j: int| 0 <= j < q2.len() implies (#[trigger] self.resting_orders()[q2[j]]).remaining_qty
            == old_book.resting_orders()[q2[j]].remaining_qty by {
            let o = if j < i { j } else { j + 1 };
            assert(q2[j] == q[o]);
            assert(q[o] != id);
        }
        lemma_sum_agree(self.resting_orders(), old_book.resting_orders(), q2);
        assert forall|j: int| 0 <= j < q2.len() implies #[trigger] self.link_ok(side, price, q2, j) by {
            self.lemma_removal_link(old_book, id, key, node, q, i, j);
        }
        let lv = old_book.level_map(side)[price];
        let nlv = self.level_map(side)[price];
        assert(nlv == Self::shrunk_level(lv, node));
        assert(old_book.resting_orders()[id].remaining_qty == node.remaining_qty);
        lemma_sum_nonneg(old_book.resting_orders(), q2);
        assert(lv.total_qty == sum_remaining(old_book.resting_orders(), q));
        assert(nlv.total_qty == sum_remaining(self.resting_orders(), q2));
        assert(nlv.order_count == q2.len());
        if i == 0 {
            assert(q2[0] == q[1]);
        } else {
            assert(q2[0] == q[0]);
        }
        assert(nlv.head == Some(self.index()[q2[0]]));
        if i == q.len() - 1 {
            assert(q2.last() == q[q.len() - 2]);
        } else {
            assert(q2.last() == q.last());
        }
        assert(nlv.tail == Some(self.index()[q2.last()]));
    }

    proof fn lemma_removal_link(&self, old_book: OrderBook, id: OrderId, key: usize, node: OrderNode, q: Seq<OrderId>, i: int, j: int)
        requires
            self.removal_step(old_book, id, key, node, q, i),
            q.len() > 1,
            0 <= j < q.len() - 1,
        ensures
            self.link_ok(node.side, node.price, q.remove(i), j),
    {
        self.lemma_removal_basics(old_book, id, key, node, q, i);
        let side = node.side;
        let price = node.price;
        let oi = old_book.index();
        let q2 = q.remove(i);
        let o = if j < i { j } else { j + 1 };
        assert(q2[j] == q[o]);
        assert(old_book.link_ok(side, price, q, o));
        if o > 0 {
            assert(old_book.link_ok(side, price, q, o - 1));
        }
        if o < q.len() - 1 {
            assert(old_book.link_ok(side, price, q, o + 1));
        }
        let k = oi[q[o]];
        assert(q[o] != id);
        assert(self.index()[q2[j]] == k);
        if j > 0 {
            let jp = j - 1;
            let op = if jp < i { jp } else { jp + 1 };
            assert(q2[jp] == q[op]);
            assert(q[op] != id);
        }
        if j < q2.len() - 1 {
            let jn = j + 1;
            let on2 = if jn < i { jn } else { jn + 1 };
            assert(q2[jn] == q[on2]);
            assert(q[on2] != id);
        }
        if node.prev == Some(k) && o != i - 1 {
            old_book.lemma_index_injective(q[o], q[i - 1]);
        }
        if node.next == Some(k) && o != i + 1 {
            old_book.lemma_index_injective(q[o], q[i + 1]);
        }
    }

    proof fn lemma_removal_other_level(
        &self,
        old_book: OrderBook,
        id: OrderId,
        key: usize,
        node: OrderNode,
        q: Seq<OrderId>,
        i: int,
        s2: Side,
        p2: Price,
    )
        requires
            self.removal_step(old_book, id, key, node, q, i),
            self.queues(s2).contains_key(p2),
            !(s2 == node.side && p2 == node.price),
        ensures
            self.level_ok(s2, p2),
    {
        self.lemma_removal_basics(old_book, id, key, node, q, i);
        let side = node.side;
        let oi = old_book.index();
        if s2 != side {
            assert(s2 == side.opposite());
        }
        assert(old_book.queues(s2).contains_key(p2));
        assert(self.queues(s2)[p2] == old_book.queues(s2)[p2]);
        assert(self.level_map(s2)[p2] == old_book.level_map(s2)[p2]);
        assert(old_book.side_ok(s2));
        assert(old_book.level_ok(s2, p2));
        let q3 = old_book.queues(s2)[p2];
        assert forall|j: int| 0 <= j < q3.len() implies #[trigger] self.link_ok(s2, p2, q3, j) by {
            assert(old_book.link_ok(s2, p2, q3, j));
            if j > 0 {
                assert(old_book.link_ok(s2, p2, q3, j - 1));
            }
            if j < q3.len() - 1 {
                assert(old_book.link_ok(s2, p2, q3, j + 1));
            }
            let k = oi[q3[j]];
            if node.prev == Some(k) {
                old_book.lemma_index_injective(q3[j], q[i - 1]);
            }
            if node.next == Some(k) {
                old_book.lemma_index_injective(q3[j], q[i + 1]);
            }
            if k == key {
                old_book.lemma_index_injective(q3[j], id);
            }
        }
        if q3.contains(id) {
            old_book.lemma_queue_member(s2, p2, id);
        }
        old_book.lemma_orders_dom();
        lemma_sum_frame(self.resting_orders(), old_book.resting_orders(), q3, id);
        if q3[0] == id {
            assert(q3.contains(id));
        }
        if q3.last() == id {
            assert(q3.contains(id));
        }
    }

    proof fn lemma_remove_order_wf(&self, old_book: OrderBook, id: OrderId, key: usize, node: OrderNode, q: Seq<OrderId>, i: int)
        requires
            self.removal_step(old_book, id, key, node, q, i),
        ensures
            self.wf(),
            self@ == old_book@.remove_order(id),
    {
        self.lemma_removal_basics(old_book, id, key, node, q, i);
        self.lemma_removal_index(old_book, id, key, node, q, i);
        let side = node.side;
        let price = node.price;
        assert forall|s2: Side| #[trigger] self.side_ok(s2) by {
            if s2 == side {
                assert(self.level_map(s2).dom() =~= self.queues(s2).dom());
            } else {
                assert(s2 == side.opposite());
                assert(old_book.side_ok(s2));
            }
            assert forall|p2: Price| #[trigger] self.queues(s2).contains_key(p2) implies self.level_ok(s2, p2) by {
                if s2 == side && p2 == price {
                    self.lemma_removal_own_level(old_book, id, key, node, q, i);
                } else {
                    self.lemma_removal_other_level(old_book, id, key, node, q, i, s2, p2);
                }
            }
        }
        assert(self.side_ok(Side::Bid));
        assert(self.side_ok(Side::Ask));
        let target = old_book@.remove_order(id);
        old_book.lemma_orders_dom();
        assert(old_book@.orders[id] == node_view(old_book.instrument, node));
        assert(self@.orders =~= target.orders);
        if side == Side::Bid {
            assert(self@.bids =~= target.bids);
            assert(self@.asks =~= target.asks);
        } else {
            assert(self@.bids =~= target.bids);
            assert(self@.asks =~= target.asks);
        }
    }

    /// The nodes once `node` is stored under the fresh `key` and linked after `tail`.
    closed spec fn appended(nodes: Map<usize, OrderNode>, key: usize, node: OrderNode, tail: Option<usize>) -> Map<usize, OrderNode> {
        match tail {
            Some(t) => nodes.insert(t, OrderNode { next: Some(key), ..nodes[t] }).insert(key, OrderNode { prev: Some(t), ..node }),
            None => nodes.insert(key, node),
        }
    }

    /// The queue of a level, empty where there is no level.
    closed spec fn queue_or_empty(&self, side: Side, price: Price) -> Seq<OrderId> {
        if self.queues(side).contains_key(price) {
            self.queues(side)[price]
        } else {
            Seq::empty()
        }
    }

    /// The level at a price, empty where there is none.
    closed spec fn level_or_empty(&self, side: Side, price: Price) -> PriceLevel {
        if self.level_map(side).contains_key(price) {
            self.level_map(side)[price]
        } else {
            PriceLevel { head: None, tail: None, total_qty: 0, order_count: 0 }
        }
    }

    /// `self` is `old_book` after `node`, stored under `key`, was appended to its level.
    closed spec fn insertion_step(&self, old_book: OrderBook, key: usize, node: OrderNode) -> bool {
        let side = node.side;
        let price = node.price;
        let q = old_book.queue_or_empty(side, price);
        let lv = old_book.level_or_empty(side, price);
        &&& old_book.wf()
        &&& !old_book.index().contains_key(node.order_id)
        &&& !old_book.nodes().contains_key(key)
        &&& node.prev is None
        &&& node.next is None
        &&& lv.total_qty + node.remaining_qty <= u64::MAX
        &&& lv.order_count + 1 <= usize::MAX
        &&& self.instrument == old_book.instrument
        &&& self.next_sequence == old_book.next_sequence
        &&& self.index() == old_book.index().insert(node.order_id, key)
        &&& self.nodes() == Self::appended(old_book.nodes(), key, node, lv.tail)
        &&& self.queues(side) == old_book.queues(side).insert(price, q.push(node.order_id))
        &&& self.queues(side.opposite()) == old_book.queues(side.opposite())
        &&& self.level_map(side) == old_book.level_map(side).insert(
            price,
            PriceLevel {
                head: if lv.tail is None { Some(key) } else { lv.head },
                tail: Some(key),
                total_qty: (lv.total_qty + node.remaining_qty) as u64,
                order_count: (lv.order_count + 1) as usize,
            },
        )
        &&& self.level_map(side.opposite()) == old_book.level_map(side.opposite())
    }

    proof fn lemma_insertion_basics(&self, old_book: OrderBook, key: usize, node: OrderNode)
        requires
            self.insertion_step(old_book, key, node),
        ensures
            forall|k: usize| #[trigger] old_book.nodes().contains_key(k) ==> {
                &&& self.nodes().contains_key(k)
                &&& k != key
                &&& self.nodes()[k].order_id == old_book.nodes()[k].order_id
                &&& self.nodes()[k].side == old_book.nodes()[k].side
                &&& self.nodes()[k].price == old_book.nodes()[k].price
                &&& (old_book.level_or_empty(node.side, node.price).tail != Some(k) ==> self.nodes()[k] == old_book.nodes()[k])
                &&& (old_book.level_or_empty(node.side, node.price).tail == Some(k) ==>
                    self.nodes()[k] == (OrderNode { next: Some(key), ..old_book.nodes()[k] }))
            },
            forall|k: usize| #[trigger] self.nodes().contains_key(k) ==> old_book.nodes().contains_key(k) || k == key,
            self.nodes().contains_key(key),
            self.nodes()[key] == (OrderNode { prev: old_book.level_or_empty(node.side, node.price).tail, ..node }),
            forall|x: OrderId| #[trigger] old_book.index().contains_key(x) ==> {
                &&& x != node.order_id
                &&& self.index()[x] == old_book.index()[x]
                &&& old_book.index()[x] != key
            },
            self.resting_orders() == old_book.resting_orders().insert(node.order_id, node_view(old_book.instrument, node)),
            old_book.queues(node.side).contains_key(node.price) ==> old_book.level_ok(node.side, node.price),
            old_book.queues(node.side).contains_key(node.price) <==> old_book.level_map(node.side).contains_key(node.price),
            !old_book.queue_or_empty(node.side, node.price).contains(node.order_id),
    {
        let side = node.side;
        let price = node.price;
        let on = old_book.nodes();
        let oi = old_book.index();
        let q = old_book.queue_or_empty(side, price);
        let lv = old_book.level_or_empty(side, price);
        old_book.lemma_orders_dom();
        self.lemma_orders_dom();
        assert(old_book.side_ok(side));
        if old_book.queues(side).contains_key(price) {
            assert(old_book.level_ok(side, price));
            assert(old_book.link_ok(side, price, q, q.len() - 1));
            if q.contains(node.order_id) {
                old_book.lemma_queue_member(side, price, node.order_id);
            }
        }
        assert forall|k: usize| #[trigger] on.contains_key(k) implies {
            &&& self.nodes().contains_key(k)
            &&& k != key
            &&& self.nodes()[k].order_id == on[k].order_id
            &&& self.nodes()[k].side == on[k].side
            &&& self.nodes()[k].price == on[k].price
            &&& (lv.tail != Some(k) ==> self.nodes()[k] == on[k])
            &&& (lv.tail == Some(k) ==> self.nodes()[k] == OrderNode { next: Some(key), ..on[k] })
        } by {}
        assert forall|x: OrderId| #[trigger] oi.contains_key(x) implies {
            &&& x != node.order_id
            &&& self.index()[x] == oi[x]
            &&& oi[x] != key
        } by {
            assert(on.contains_key(oi[x]));
        }
        assert(self.resting_orders() =~= old_book.resting_orders().insert(node.order_id, node_view(old_book.instrument, node)));
    }

    proof fn lemma_insertion_index(&self, old_book: OrderBook, key: usize, node: OrderNode)
        requires
            self.insertion_step(old_book, key, node),
        ensures
            forall|x: OrderId| #[trigger] self.index().contains_key(x) ==> {
                &&& self.nodes().contains_key(self.index()[x])
                &&& self.nodes()[self.index()[x]].order_id == x
            },
            forall|k: usize| #[trigger] self.nodes().contains_key(k) ==> {
                &&& self.index().contains_key(self.nodes()[k].order_id)
                &&& self.index()[self.nodes()[k].order_id] == k
            },
            forall|x: OrderId| #[trigger] self.index().contains_key(x) ==> {
                let n = self.nodes()[self.index()[x]];
                &&& self.queues(n.side).contains_key(n.price)
                &&& self.queues(n.side)[n.price].contains(x)
            },
    {
        self.lemma_insertion_basics(old_book, key, node);
        let side = node.side;
        let price = node.price;
        let on = old_book.nodes();
        let oi = old_book.index();
        let q = old_book.queue_or_empty(side, price);
        assert forall|x: OrderId| #[trigger] self.index().contains_key(x) implies {
            &&& self.nodes().contains_key(self.index()[x])
            &&& self.nodes()[self.index()[x]].order_id == x
        } by {
            if x != node.order_id {
                assert(oi.contains_key(x));
                assert(on.contains_key(oi[x]));
            }
        }
        assert forall|k: usize| #[trigger] self.nodes().contains_key(k) implies {
            &&& self.index().contains_key(self.nodes()[k].order_id)
            &&& self.index()[self.nodes()[k].order_id] == k
        } by {
            if k != key {
                assert(on.contains_key(k));
                assert(oi.contains_key(on[k].order_id));
            }
        }
        assert forall|x: OrderId| #[trigger] self.index().contains_key(x) implies {
            let n = self.nodes()[self.index()[x]];
            &&& self.queues(n.side).contains_key(n.price)
            &&& self.queues(n.side)[n.price].contains(x)
        } by {
            if x == node.order_id {
                assert(q.push(x)[q.len() as int] == x);
            } else {
                assert(oi.contains_key(x));
                let n = on[oi[x]];
                assert(on.contains_key(oi[x]));
                assert(old_book.queues(n.side)[n.price].contains(x));
                if n.side == side && n.price == price {
                    let j = choose|j: int| 0 <= j < q.len() && q[j] == x;
                    assert(q.push(node.order_id)[j] == x);
                } else if n.side != side {
                    assert(n.side == side.opposite());
                }
            }
        }
    }

    proof fn lemma_insertion_link(&self, old_book: OrderBook, key: usize, node: OrderNode, j: int)
        requires
            self.insertion_step(old_book, key, node),
            0 <= j <= old_book.queue_or_empty(node.side, node.price).len(),
        ensures
            self.link_ok(node.side, node.price, old_book.queue_or_empty(node.side, node.price).push(node.order_id), j),
    {
        self.lemma_insertion_basics(old_book, key, node);
        let side = node.side;
        let price = node.price;
        let oi = old_book.index();
        let q = old_book.queue_or_empty(side, price);
        let q2 = q.push(node.order_id);
        let lv = old_book.level_or_empty(side, price);
        if j < q.len() {
            assert(old_book.link_ok(side, price, q, j));
            assert(q2[j] == q[j]);
            if j > 0 {
                assert(q2[j - 1] == q[j - 1]);
                assert(old_book.link_ok(side, price, q, j - 1));
            }
            if j < q.len() - 1 {
                assert(q2[j + 1] == q[j + 1]);
                assert(old_book.link_ok(side, price, q, j + 1));
            } else {
                assert(lv.tail == Some(oi[q[j]]));
            }
            if lv.tail == Some(oi[q[j]]) && j != q.len() - 1 {
                assert(old_book.link_ok(side, price, q, q.len() - 1));
                old_book.lemma_index_injective(q[j], q.last());
            }
        } else {
            assert(q2[j] == node.order_id);
            if j > 0 {
                assert(q2[j - 1] == q.last());
                assert(old_book.link_ok(side, price, q, q.len() - 1));
            } else {
                assert(!old_book.level_map(side).contains_key(price));
            }
        }
    }

    proof fn lemma_insertion_own_level(&self, old_book: OrderBook, key: usize, node: OrderNode)
        requires
            self.insertion_step(old_book, key, node),
        ensures
            self.level_ok(node.side, node.price),
    {
        self.lemma_insertion_basics(old_book, key, node);
        let side = node.side;
        let price = node.price;
        let oi = old_book.index();
        let q = old_book.queue_or_empty(side, price);
        let q2 = q.push(node.order_id);
        let lv = old_book.level_or_empty(side, price);
        assert(self.queues(side)[price] == q2);
        assert forall|j: int| 0 <= j < q2.len() implies #[trigger] self.link_ok(side, price, q2, j) by {
            self.lemma_insertion_link(old_book, key, node, j);
        }
        assert(q2.no_duplicates()) by {
            if old_book.queues(side).contains_key(price) {
                assert(old_book.level_ok(side, price));
            }
        }
        old_book.lemma_orders_dom();
        lemma_sum_frame(self.resting_orders(), old_book.resting_orders(), q, node.order_id);
        assert(q2.drop_last() =~= q);
        if old_book.queues(side).contains_key(price) {
            assert(old_book.level_ok(side, price));
            assert(q2[0] == q[0]);
        } else {
            assert(q =~= Seq::<OrderId>::empty());
        }
    }

    proof fn lemma_insertion_other_level(&self, old_book: OrderBook, key: usize, node: OrderNode, s2: Side, p2: Price)
        requires
            self.insertion_step(old_book, key, node),
            self.queues(s2).contains_key(p2),
            !(s2 == node.side && p2 == node.price),
        ensures
            self.level_ok(s2, p2),
    {
        self.lemma_insertion_basics(old_book, key, node);
        let side = node.side;
        let oi = old_book.index();
        let lv = old_book.level_or_empty(side, node.price);
        if s2 != side {
            assert(s2 == side.opposite());
        }
        assert(old_book.queues(s2).contains_key(p2));
        assert(self.queues(s2)[p2] == old_book.queues(s2)[p2]);
        assert(self.level_map(s2)[p2] == old_book.level_map(s2)[p2]);
        assert(old_book.side_ok(s2));
        assert(old_book.level_ok(s2, p2));
        let q3 = old_book.queues(s2)[p2];
        let q = old_book.queue_or_empty(side, node.price);
        assert forall|j: int| 0 <= j < q3.len() implies #[trigger] self.link_ok(s2, p2, q3, j) by {
            assert(old_book.link_ok(s2, p2, q3, j));
            if j > 0 {
                assert(old_book.link_ok(s2, p2, q3, j - 1));
            }
            if j < q3.len() - 1 {
                assert(old_book.link_ok(s2, p2, q3, j + 1));
            }
            let k = oi[q3[j]];
            if lv.tail == Some(k) {
                assert(old_book.level_ok(side, node.price));
                assert(old_book.link_ok(side, node.price, q, q.len() - 1));
                old_book.lemma_index_injective(q3[j], q.last());
            }
        }
        if q3.contains(node.order_id) {
            old_book.lemma_queue_member(s2, p2, node.order_id);
        }
        old_book.lemma_orders_dom();
        lemma_sum_frame(self.resting_orders(), old_book.resting_orders(), q3, node.order_id);
    }

    proof fn lemma_insert_resting_wf(&self, old_book: OrderBook, key: usize, node: OrderNode)
        requires
            self.insertion_step(old_book, key, node),
        ensures
            self.wf(),
            self@ == old_book@.add_resting(node_view(old_book.instrument, node)),
    {
        self.lemma_insertion_basics(old_book, key, node);
        self.lemma_insertion_index(old_book, key, node);
        let side = node.side;
        let price = node.price;
        assert forall|s2: Side| #[trigger] self.side_ok(s2) by {
            if s2 == side {
                assert(self.level_map(s2).dom() =~= self.queues(s2).dom());
            } else {
                assert(s2 == side.opposite());
                assert(old_book.side_ok(s2));
            }
            assert forall|p2: Price| #[trigger] self.queues(s2).contains_key(p2) implies self.level_ok(s2, p2) by {
                if s2 == side && p2 == price {
                    self.lemma_insertion_own_level(old_book, key, node);
                } else {
                    self.lemma_insertion_other_level(old_book, key, node, s2, p2);
                }
            }
        }
        assert(self.side_ok(Side::Bid));
        assert(self.side_ok(Side::Ask));
        let target = old_book@.add_resting(node_view(old_book.instrument, node));
        old_book.lemma_orders_dom();
        assert(self@.orders =~= target.orders);
        let q = old_book.queue_or_empty(side, price);
        if old_book.queues(side).contains_key(price) {
        } else {
            assert(q.push(node.order_id) =~= seq![node.order_id]);
        }
        if side == Side::Bid {
            assert(self@.bids =~= target.bids);
            assert(self@.asks =~= target.asks);
        } else {
            assert(self@.bids =~= target.bids);
            assert(self@.asks =~= target.asks);
        }
    }

    /// Appends an order to the tail of the queue of its side and price, with
    /// `remaining_qty` left and the given arrival sequence.
    fn insert_resting_order(&mut self, order: NewOrder, remaining_qty: Quantity, arrival_sequence: Sequence)
        requires
            old(self).wf(),
            order.price is Some,
            !old(self)@.orders.contains_key(order.id),
            old(self)@.can_rest(order.side, order.price.unwrap(), remaining_qty),
        ensures
            final(self).wf(),
            final(self)@ == old(self)@.add_resting(old(self)@.resting_of(order, remaining_qty, arrival_sequence)),
    {
        broadcast use vstd::std_specs::hash::group_hash_axioms;

        let ghost old_book = *self;
        let price = order.price.unwrap();
        let side = order.side;
        let node = OrderNode {
            order_id: order.id,
            side,
            price,
            original_qty: order.quantity,
            remaining_qty,
            arrival_sequence,
            prev: None,
            next: None,
        };
        proof {
            old_book.lemma_orders_dom();
            assert(self.side_ok(side));
            if self.queues(side).contains_key(price) {
                assert(self.level_ok(side, price));
            }
        }
        let key = slab_insert(&mut self.orders, node);
        self.order_index.insert(order.id, key);
        let lv = match self.level_get(side, price) {
            Some(lv) => lv,
            None => PriceLevel::new(),
        };
        match lv.tail {
            Some(t) => {
                proof {
                    let q = old_book.queues(side)[price];
                    assert(old_book.link_ok(side, price, q, q.len() - 1));
                }
                let tn = slab_get(&self.orders, t).unwrap();
                slab_set(&mut self.orders, t, OrderNode { next: Some(key), ..tn });
                slab_set(&mut self.orders, key, OrderNode { prev: Some(t), ..node });
            },
            None => {},
        }
        let new_lv = PriceLevel {
            head: if lv.tail.is_none() { Some(key) } else { lv.head },
            tail: Some(key),
            total_qty: lv.total_qty + remaining_qty,
            order_count: lv.order_count + 1,
        };
        self.level_put(side, price, new_lv);
        let ghost q = old_book.queue_or_empty(side, price);
        let ghost new_queues = old_book.queues(side).insert(price, q.push(order.id));
        match side {
            Side::Bid => {
                self.bid_queues = Ghost(new_queues);
            },
            Side::Ask => {
                self.ask_queues = Ghost(new_queues);
            },
        }
        proof {
            assert(self.nodes() =~= Self::appended(old_book.nodes(), key, node, old_book.level_or_empty(side, price).tail));
            self.lemma_insert_resting_wf(old_book, key, node);
        }
    }

    /// Takes the resting order `id` out of the list of its level, the index and the slab;
    /// the level goes when it is left empty. Returns the order's node.
    fn remove_order(&mut self, id: OrderId) -> (node: OrderNode)
        requires
            old(self).wf(),
            old(self).index().contains_key(id),
        ensures
            final(self).wf(),
            final(self)@ == old(self)@.remove_order(id),
            node == old(self).nodes()[old(self).index()[id]],
    {
        broadcast use vstd::std_specs::hash::group_hash_axioms;

        let ghost old_book = *self;
        let key = *self.order_index.get(&id).unwrap();
        let node = slab_get(&self.orders, key).unwrap();
        let side = node.side;
        let price = node.price;
        let ghost q = self.queues(side)[price];
        let ghost i = q.index_of(id);
        proof {
            old_book.lemma_orders_dom();
            self.lemma_queue_member(side, price, id);
            assert(self.side_ok(side));
            assert(self.level_ok(side, price));
            assert(0 <= i < q.len() && q[i] == id);
            assert(self.link_ok(side, price, q, i));
            if i > 0 {
                assert(self.link_ok(side, price, q, i - 1));
            }
            if i < q.len() - 1 {
                assert(self.link_ok(side, price, q, i + 1));
            }
        }
        match node.prev {
            Some(pk) => {
                let pn = slab_get(&self.orders, pk).unwrap();
                slab_set(&mut self.orders, pk, OrderNode { next: node.next, ..pn });
            },
            None => {},
        }
        match node.next {
            Some(nk) => {
                proof {
                    if i > 0 {
                        assert(q[i - 1] != q[i + 1]);
                        if old_book.index()[q[i - 1]] == nk {
                            old_book.lemma_index_injective(q[i - 1], q[i + 1]);
                        }
                    }
                }
                let nn = slab_get(&self.orders, nk).unwrap();
                slab_set(&mut self.orders, nk, OrderNode { prev: node.prev, ..nn });
            },
            None => {},
        }
        let lv = self.level_get(side, price).unwrap();
        proof {
            lemma_sum_remove(old_book.resting_orders(), q, i);
            lemma_sum_nonneg(old_book.resting_orders(), q.remove(i));
        }
        let new_lv = PriceLevel {
            head: if node.prev.is_none() { node.next } else { lv.head },
            tail: if node.next.is_none() { node.prev } else { lv.tail },
            total_qty: lv.total_qty - node.remaining_qty,
            order_count: lv.order_count - 1,
        };
        if new_lv.order_count == 0 {
            self.level_drop(side, price);
        } else {
            self.level_put(side, price, new_lv);
        }
        self.order_index.remove(&id);
        let _ = slab_try_remove(&mut self.orders, key);
        let ghost q2 = q.remove(i);
        let ghost new_queues = if q2.len() == 0 {
            old_book.queues(side).remove(price)
        } else {
            old_book.queues(side).insert(price, q2)
        };
        match side {
            Side::Bid => {
                self.bid_queues = Ghost(new_queues);
            },
            Side::Ask => {
                self.ask_queues = Ghost(new_queues);
            },
        }
        proof {
            self.lemma_remove_order_wf(old_book, id, key, node, q, i);
        }
        node
    }

    /// Two books with the same nodes, index, levels and queues are alike in their
    /// invariant and orders.
    proof fn lemma_same_structure(&self, other: OrderBook)
        requires
            other.wf(),
            self.instrument == other.instrument,
            self.orders == other.orders,
            self.order_index == other.order_index,
            self.bids == other.bids,
            self.asks == other.asks,
            self.bid_queues == other.bid_queues,
            self.ask_queues == other.ask_queues,
        ensures
            self.wf(),
            self.resting_orders() == other.resting_orders(),
    {
        assert(self.resting_orders() =~= other.resting_orders());
        assert forall|side: Side| #[trigger] self.side_ok(side) by {
            assert(other.side_ok(side));
            assert forall|p: Price| #[trigger] self.queues(side).contains_key(p) implies self.level_ok(side, p) by {
                assert(other.level_ok(side, p));
                let q = self.queues(side)[p];
                assert forall|i: int| 0 <= i < q.len() implies #[trigger] self.link_ok(side, p, q, i) by {
                    assert(other.link_ok(side, p, q, i));
                }
            }
        }
        assert(self.side_ok(Side::Bid));
        assert(self.side_ok(Side::Ask));
    }

    /// Takes the next sequence number of the book.
    fn next_sequence(&mut self) -> (r: Sequence)
        requires
            old(self).wf(),
            old(self)@.next_sequence < u64::MAX,
        ensures
            final(self).wf(),
            final(self)@ == old(self)@.bump_sequence(),
            r == old(self)@.next_sequence,
    {
        let sequence = self.next_sequence;
        self.next_sequence = self.next_sequence + 1;
        proof {
            self.lemma_same_structure(*old(self));
        }
        sequence
    }

    /// Whether a taker may trade at the best opposite price.
    fn is_crossed(side: Side, order_type: OrderType, limit_price: Option<Price>, best_opposite_price: Price) -> (r: bool)
        ensures
            r == crate::book_model::crosses(
                NewOrder {
                    id: 0,
                    account: 0,
                    instrument: 0,
                    side,
                    order_type,
                    price: limit_price,
                    quantity: 0,
                    time_in_force: TimeInForce::Gtc,
                },
                best_opposite_price,
            ),
    {
        match order_type {
            OrderType::Market => true,
            OrderType::Limit => match side {
                Side::Bid => match limit_price {
                    Some(price) => price >= best_opposite_price,
                    None => false,
                },
                Side::Ask => match limit_price {
                    Some(price) => price <= best_opposite_price,
                    None => false,
                },
            },
        }
    }

    /// Appends the state of a level to the events.
    fn push_level_update(&self, events: &mut Vec<Event>, side: Side, price: Price, sequence: Sequence)
        requires
            self.wf(),
        ensures
            final(events)@ == old(events)@.push(self@.level_event(side, price, sequence)),
    {
        proof {
            self.lemma_view_wf();
            assert(self.side_ok(side));
        }
        let event = match self.level_get(side, price) {
            Some(level) => {
                proof {
                    assert(self.level_ok(side, price));
                    assert(self@.levels(side) == self.queues(side));
                }
                Event::LevelUpdated {
                    instrument: self.instrument,
                    side,
                    price,
                    total_qty: level.total_qty,
                    order_count: level.order_count,
                    sequence,
                }
            },
            None => {
                proof {
                    assert(self@.levels(side) == self.queues(side));
                }
                Event::LevelUpdated {
                    instrument: self.instrument,
                    side,
                    price,
                    total_qty: 0,
                    order_count: 0,
                    sequence,
                }
            },
        };
        events.push(event);
    }

    /// Appends the best bid and best ask prices to the events.
    fn push_top_of_book(&self, events: &mut Vec<Event>, sequence: Sequence)
        requires
            self.wf(),
        ensures
            final(events)@ == old(events)@.push(self@.top_event(sequence)),
    {
        let best_bid = self.best_price_of(Side::Bid);
        let best_ask = self.best_price_of(Side::Ask);
        events.push(Event::BestBidAskUpdated { instrument: self.instrument, best_bid, best_ask, sequence });
    }

    /// Cancels the resting order `order_id`: it leaves the book and a `Cancelled` event
    /// reports its remaining quantity, followed by its level and the top of the book; an
    /// unknown id is rejected. Either way one sequence number is used.
    pub fn cancel(&mut self, order_id: OrderId) -> (events: Vec<Event>)
        requires
            old(self).wf(),
            old(self)@.next_sequence < u64::MAX,
        ensures
            final(self).wf(),
            (final(self)@, events@) == old(self)@.cancel_outcome(order_id),
    {
        broadcast use vstd::std_specs::hash::group_hash_axioms;

        let ghost m = self@;
        proof {
            self.lemma_orders_dom();
        }
        let sequence = self.next_sequence();
        let mut events: Vec<Event> = Vec::new();
        if !self.order_index.contains_key(&order_id) {
            events.push(Event::Rejected {
                instrument: Some(self.instrument),
                order_id,
                reason: RejectReason::UnknownOrderId,
                sequence,
            });
            proof {
                assert(events@ =~= m.cancel_outcome(order_id).1);
            }
            return events;
        }
        let node = self.remove_order(order_id);
        events.push(Event::Cancelled {
            instrument: self.instrument,
            order_id,
            cancelled_qty: node.remaining_qty,
            sequence,
        });
        self.push_level_update(&mut events, node.side, node.price, sequence);
        self.push_top_of_book(&mut events, sequence);
        proof {
            let m0 = m.bump_sequence();
            assert(m0.remove_order(order_id) == m.remove_order(order_id).bump_sequence());
            assert(m.orders[order_id] == node_view(m.instrument, node));
            assert(events@ =~= m.cancel_outcome(order_id).1);
        }
        events
    }

    /// Whether `qty` more can rest at a level without overflowing its counters.
    pub(crate) fn level_has_room(&self, side: Side, price: Price, qty: Quantity) -> (r: bool)
        requires
            self.wf(),
        ensures
            r == self@.can_rest(side, price, qty),
    {
        proof {
            assert(self.side_ok(side));
            assert(self@.levels(side) == self.queues(side));
        }
        match self.level_get(side, price) {
            Some(level) => {
                proof {
                    assert(self.level_ok(side, price));
                }
                level.total_qty <= u64::MAX - qty && level.order_count < usize::MAX
            },
            None => true,
        }
    }

    /// Submits an order, as `submit` does, but stops with `None` where a counter would
    /// overflow: the sequence number, or the level where the order would rest (then the
    /// matching has already happened).
    pub fn try_submit(&mut self, order: NewOrder) -> (r: Option<Vec<Event>>)
        requires
            old(self).wf(),
        ensures
            final(self).wf(),
            r is None <==> !old(self)@.submit_fits(order),
            r matches Some(events) ==> (final(self)@, events@) == old(self)@.submit_outcome(order),
    {
        broadcast use vstd::std_specs::hash::group_hash_axioms;

        if self.next_sequence == u64::MAX {
            return None;
        }
        let ghost m = self@;
        proof {
            self.lemma_orders_dom();
        }
        let sequence = self.next_sequence();
        let ghost m0 = self@;
        let mut events: Vec<Event> = Vec::new();
        let reason = if self.order_index.contains_key(&order.id) {
            Some(RejectReason::DuplicateOrderId)
        } else if order.quantity == 0 {
            Some(RejectReason::InvalidQuantity)
        } else {
            match order.order_type {
                OrderType::Limit => if order.price.is_none() {
                    Some(RejectReason::MissingPrice)
                } else {
                    None
                },
                OrderType::Market => if order.price.is_some() {
                    Some(RejectReason::PriceNotAllowedForMarket)
                } else {
                    None
                },
            }
        };
        assert(reason == m.validation_error(order));
        match reason {
            Some(reason) => {
                events.push(Event::Rejected {
                    instrument: Some(self.instrument),
                    order_id: order.id,
                    reason,
                    sequence,
                });
                proof {
                    assert(events@ =~= m.submit_outcome(order).1);
                }
                return Some(events);
            },
            None => {},
        }
        events.push(Event::Accepted { instrument: self.instrument, order_id: order.id, sequence });
        let opposite = order.side.opposite();
        let mut remaining = order.quantity;
        let mut done = false;
        let ghost mut trades: Seq<Event> = seq![];
        while remaining > 0 && !done
            invariant
                opposite == order.side.opposite(),
                self.wf(),
                self@.instrument == m.instrument,
                !self@.orders.contains_key(order.id),
                self@.levels(order.side) == m0.levels(order.side),
                events@ == seq![Event::Accepted { instrument: m.instrument, order_id: order.id, sequence }] + trades,
                ({
                    let r = self@.match_taker(order, remaining, sequence);
                    m0.match_taker(order, order.quantity, sequence) == (r.0, r.1, trades + r.2)
                }),
                done ==> self@.match_taker(order, remaining, sequence) == (self@, remaining, Seq::<Event>::empty()),
            decreases (if done { 0int } else { 1int }), remaining, self@.orders.dom().len(),
        {
            let ghost cur = self@;
            let ghost rem0 = remaining;
            let ghost trades0 = trades;
            proof {
                self.lemma_view_wf();
            }
            match self.best_price_of(opposite) {
                None => {
                    done = true;
                    assert(cur.match_taker(order, remaining, sequence) == (cur, remaining, Seq::<Event>::empty()));
                },
                Some(best_price) => {
                    if !Self::is_crossed(order.side, order.order_type, order.price, best_price) {
                        done = true;
                        assert(!crate::book_model::crosses(order, best_price));
                        assert(cur.match_taker(order, remaining, sequence) == (cur, remaining, Seq::<Event>::empty()));
                    } else {
                        assert(crate::book_model::crosses(order, best_price));
                        proof {
                            assert(cur.best_price(opposite) == Some(best_price));
                            self.lemma_best_in_levels(opposite);
                            assert(self.side_ok(opposite));
                            assert(self.queues(opposite).contains_key(best_price));
                            assert(self.level_ok(opposite, best_price));
                            let q = self.queues(opposite)[best_price];
                            assert(self.link_ok(opposite, best_price, q, 0));
                        }
                        let level = self.level_get(opposite, best_price).unwrap();
                        let maker_key = level.head.unwrap();
                        let maker = slab_get(&self.orders, maker_key).unwrap();
                        let ghost q = self.queues(opposite)[best_price];
                        proof {
                            self.lemma_orders_dom();
                            assert(cur.levels(opposite)[best_price] == q);
                            assert(cur.orders[q[0]] == node_view(cur.instrument, maker));
                            assert(maker.order_id == q[0]);
                        }
                        let trade_qty = if remaining <= maker.remaining_qty { remaining } else { maker.remaining_qty };
                        let maker_remaining = maker.remaining_qty - trade_qty;
                        remaining = remaining - trade_qty;
                        self.set_node_remaining(maker.order_id, maker_key, maker_remaining);
                        let ghost before = events@;
                        events.push(Event::Trade {
                            instrument: self.instrument,
                            maker_order_id: maker.order_id,
                            taker_order_id: order.id,
                            side: order.side,
                            price: maker.price,
                            quantity: trade_qty,
                            maker_remaining,
                            taker_remaining: remaining,
                            sequence,
                        });
                        self.push_level_update(&mut events, opposite, best_price, sequence);
                        let ghost after = self@;
                        proof {
                            assert(after == cur.set_remaining(q[0], maker_remaining));
                            assert(events@ == before.push(Event::Trade {
                                instrument: cur.instrument,
                                maker_order_id: maker.order_id,
                                taker_order_id: order.id,
                                side: order.side,
                                price: maker.price,
                                quantity: trade_qty,
                                maker_remaining,
                                taker_remaining: remaining,
                                sequence,
                            }).push(after.level_event(opposite, best_price, sequence)));
                        }
                        if maker_remaining == 0 {
                            proof {
                                self.lemma_orders_dom();
                            }
                            self.remove_order(maker.order_id);
                            events.push(Event::Filled { instrument: self.instrument, order_id: maker.order_id, sequence });
                            proof {
                                assert(after.orders.dom() =~= cur.orders.dom());
                                assert(self@.orders.dom() =~= cur.orders.dom().remove(maker.order_id));
                                let ev = events@.subrange(before.len() as int, events@.len() as int);
                                let r = self@.match_taker(order, remaining, sequence);
                                assert(cur.orders.dom().finite());
                                assert(q.len() > 0);
                                assert(cur.orders.contains_key(q[0]));
                                assert(trade_qty == crate::book_model::min_qty(rem0, cur.orders[q[0]].remaining_qty));
                                assert(self@ == after.remove_order(q[0]));
                                assert(ev == seq![
                                    Event::Trade {
                                        instrument: cur.instrument,
                                        maker_order_id: maker.order_id,
                                        taker_order_id: order.id,
                                        side: order.side,
                                        price: maker.price,
                                        quantity: trade_qty,
                                        maker_remaining,
                                        taker_remaining: remaining,
                                        sequence,
                                    },
                                    after.level_event(opposite, best_price, sequence),
                                    Event::Filled { instrument: cur.instrument, order_id: maker.order_id, sequence },
                                ]);
                                assert(cur.match_taker(order, rem0, sequence) == (r.0, r.1, ev + r.2));
                                trades = trades0 + ev;
                                assert(trades0 + (ev + r.2) =~= trades + r.2);
                                assert(events@ =~= seq![Event::Accepted { instrument: m.instrument, order_id: order.id, sequence }] + trades);
                            }
                        } else {
                            proof {
                                let ev = events@.subrange(before.len() as int, events@.len() as int);
                                assert(remaining == 0);
                                assert(cur.match_taker(order, rem0, sequence) == (self@, remaining, ev));
                                trades = trades0 + ev;
                                assert(trades =~= trades + Seq::<Event>::empty());
                                assert(events@ =~= seq![Event::Accepted { instrument: m.instrument, order_id: order.id, sequence }] + trades);
                            }
                        }
                    }
                },
            }
        }
        proof {
            assert(m0.match_taker(order, order.quantity, sequence) == (self@, remaining, trades));
            self.lemma_view_wf();
        }
        if remaining == 0 {
            events.push(Event::Filled { instrument: self.instrument, order_id: order.id, sequence });
            self.push_top_of_book(&mut events, sequence);
        } else if matches!(order.order_type, OrderType::Limit) && matches!(order.time_in_force, TimeInForce::Gtc) {
            let price = order.price.unwrap();
            if !self.level_has_room(order.side, price, remaining) {
                return None;
            }
            self.insert_resting_order(order, remaining, sequence);
            events.push(Event::Rested {
                instrument: self.instrument,
                order_id: order.id,
                side: order.side,
                price,
                remaining,
                sequence,
            });
            self.push_level_update(&mut events, order.side, price, sequence);
            self.push_top_of_book(&mut events, sequence);
        } else {
            events.push(Event::Cancelled {
                instrument: self.instrument,
                order_id: order.id,
                cancelled_qty: remaining,
                sequence,
            });
            self.push_top_of_book(&mut events, sequence);
        }
        proof {
            assert(events@ =~= m.submit_outcome(order).1);
        }
        Some(events)
    }

    /// Submits an order: it is validated, matched against the opposite side in price-time
    /// priority at the makers' prices, and what is left of it is rested (a good-till-
    /// cancelled limit order) or cancelled; the events tell each step, then the new top of
    /// the book. One sequence number is used.
    pub fn submit(&mut self, order: NewOrder) -> (events: Vec<Event>)
        requires
            old(self).wf(),
            old(self)@.submit_fits(order),
        ensures
            final(self).wf(),
            (final(self)@, events@) == old(self)@.submit_outcome(order),
    {
        self.try_submit(order).unwrap()
    }

    /// The best level of a side, from the last key of the bids or the first of the asks.
    fn best_level_of(&self, side: Side) -> (r: Option<LevelSnapshot>)
        requires
            self.wf(),
        ensures
            r == self@.best_level(side),
    {
        proof {
            self.lemma_best_in_levels(side);
            assert(self.side_ok(side));
            assert(self@.levels(side) == self.queues(side));
        }
        match self.best_price_of(side) {
            Some(price) => {
                proof {
                    assert(self.queues(side).contains_key(price));
                    assert(self.level_ok(side, price));
                }
                let level = self.level_get(side, price).unwrap();
                Some(LevelSnapshot { price, total_qty: level.total_qty, order_count: level.order_count })
            },
            None => None,
        }
    }

    /// The best bid level.
    fn best_bid(&self) -> (r: Option<LevelSnapshot>)
        requires
            self.wf(),
        ensures
            r == self@.best_level(Side::Bid),
    {
        self.best_level_of(Side::Bid)
    }

    /// The best ask level.
    fn best_ask(&self) -> (r: Option<LevelSnapshot>)
        requires
            self.wf(),
        ensures
            r == self@.best_level(Side::Ask),
    {
        self.best_level_of(Side::Ask)
    }

    /// The best bid and best ask levels, with their total quantities and order counts.
    pub fn snapshot(&self) -> (r: BookSnapshot)
        requires
            self.wf(),
        ensures
            r == self@.snapshot(),
    {
        BookSnapshot { best_bid: self.best_bid(), best_ask: self.best_ask() }
    }

    /// What the book holds of the resting order `order_id`, if it rests here.
    pub fn resting_order(&self, order_id: OrderId) -> (r: Option<RestingOrder>)
        requires
            self.wf(),
        ensures
            r == self@.order(order_id),
    {
        broadcast use vstd::std_specs::hash::group_hash_axioms;

        proof {
            self.lemma_orders_dom();
        }
        let index = match self.order_index.get(&order_id) {
            Some(index) => *index,
            None => {
                return None;
            },
        };
        let node = match slab_get(&self.orders, index) {
            Some(node) => node,
            None => {
                return None;
            },
        };
        Some(RestingOrder {
            instrument: self.instrument,
            order_id: node.order_id,
            side: node.side,
            price: node.price,
            original_qty: node.original_qty,
            remaining_qty: node.remaining_qty,
            arrival_sequence: node.arrival_sequence,
        })
    }

    /// Puts a recorded order back at the tail of its level, with what was left of it and
    /// its arrival sequence; the book's sequence moves past that arrival.
    pub fn restore_resting_order(&mut self, order: NewOrder, remaining_qty: Quantity, arrival_sequence: Sequence)
        requires
            old(self).wf(),
            order.price is Some,
            !old(self)@.orders.contains_key(order.id),
            old(self)@.can_rest(order.side, order.price.unwrap(), remaining_qty),
            arrival_sequence < u64::MAX,
        ensures
            final(self).wf(),
            final(self)@ == old(self)@.restore(order, remaining_qty, arrival_sequence),
    {
        self.insert_resting_order(order, remaining_qty, arrival_sequence);
        if self.next_sequence <= arrival_sequence {
            let ghost before = *self;
            self.next_sequence = arrival_sequence + 1;
            proof {
                self.lemma_same_structure(before);
            }
        }
    }

    /// Whether an order with this id rests in the book.
    pub fn contains_order(&self, order_id: OrderId) -> (r: bool)
        requires
            self.wf(),
        ensures
            r == self@.orders.contains_key(order_id),
    {
        broadcast use vstd::std_specs::hash::group_hash_axioms;

        proof {
            self.lemma_orders_dom();
        }
        self.order_index.contains_key(&order_id)
    }

    /// Whether the book has used up its sequence numbers.
    pub fn sequence_exhausted(&self) -> (r: bool)
        ensures
            r == (self@.next_sequence == u64::MAX),
    {
        self.next_sequence == u64::MAX
    }

    /// An empty book for `instrument`.
    pub fn new(instrument: InstrumentId) -> (r: Self)
        ensures
            r.wf(),
            r@ == BookModel::empty(instrument),
    {
        let r = OrderBook {
            instrument,
            bids: BTreeMap::new(),
            asks: BTreeMap::new(),
            orders: slab_new(),
            order_index: HashMap::new(),
            next_sequence: 0,
            bid_queues: Ghost(Map::empty()),
            ask_queues: Ghost(Map::empty()),
        };
        assert(r.resting_orders() =~= Map::empty());
        r
    }

    /// The instrument of the book.
    pub fn instrument(&self) -> (r: InstrumentId)
        ensures
            r == self@.instrument,
    {
        self.instrument
    }
}

impl Default for OrderBook {
    /// A book without orders for instrument 0.
    fn default() -> (r: Self)
        ensures
            r.wf(),
            r@ == BookModel::empty(0),
    {
        OrderBook::new(0)
    }
}

} // verus!
