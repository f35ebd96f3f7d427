use vstd::prelude::*;

use std::collections::HashMap;

use crate::book::{BookSnapshot, OrderBook};
use crate::book_model::BookModel;
use crate::engine_model::{insert_sorted, live_key_le, sort_live, EngineModel};
use crate::events::{Event, RejectReason};
use crate::risk::{accounts_view, AccountManager, AccountState, Reservation, ReservedOrder};
use crate::types::{
    AccountId, Cash, EngineCommand, InstrumentId, NewOrder, OrderId, Quantity, ReplaceOrder, Sequence,
};

verus! {

broadcast use vstd::std_specs::hash::group_hash_axioms;

/// A live (resting) order as the engine tracks it: the order, what is left of it, the
/// sequence at which it came to rest, and what it still has reserved.
#[derive(Debug, Clone, Copy, PartialEq, Eq, Structural)]
pub struct LiveOrderState {
    pub order: NewOrder,
    pub remaining_qty: Quantity,
    pub arrival_sequence: Sequence,
    pub reservation: Reservation,
}

/// The state of an engine that a snapshot records: enough to rebuild its books and
/// accounts.
#[derive(Debug, Clone, PartialEq, Eq)]
pub struct EngineState {
    pub next_global_sequence: Sequence,
    pub live_orders: Vec<LiveOrderState>,
    pub accounts: HashMap<AccountId, AccountState>,
}

/// The abstract books of a map of books.
pub open spec fn books_view(m: Map<InstrumentId, OrderBook>) -> Map<InstrumentId, BookModel> {
    m.map_values(|b: OrderBook| b@)
}

/// Inserts `x` into the sorted `t` after the last element that comes no later than it.
fn insert_sorted_vec(t: Vec<LiveOrderState>, x: LiveOrderState) -> (r: Vec<LiveOrderState>)
    ensures
        r@ == insert_sorted(t@, x),
{
    let mut t = t;
    let mut j = t.len();
    let ghost orig = t@;
    assert(orig.subrange(0, j as int) =~= orig);
    assert(orig.subrange(j as int, orig.len() as int) =~= Seq::<LiveOrderState>::empty());
    while j > 0 && !(t[j - 1].order.instrument < x.order.instrument || (t[j - 1].order.instrument
        == x.order.instrument && t[j - 1].arrival_sequence <= x.arrival_sequence))
        invariant
            t@ == orig,
            j <= orig.len(),
            insert_sorted(orig, x) == insert_sorted(orig.subrange(0, j as int), x) + orig.subrange(
                j as int,
                orig.len() as int,
            ),
        decreases j,
    {
        let ghost pre = orig.subrange(0, j as int);
        assert(pre.drop_last() =~= orig.subrange(0, j - 1));
        assert(orig.subrange(j - 1, orig.len() as int) =~= seq![orig[j - 1]] + orig.subrange(j as int, orig.len() as int));
        assert(insert_sorted(pre, x) == insert_sorted(orig.subrange(0, j - 1), x).push(orig[j - 1]));
        assert(insert_sorted(orig.subrange(0, j - 1), x).push(orig[j - 1]) + orig.subrange(j as int, orig.len() as int)
            =~= insert_sorted(orig.subrange(0, j - 1), x) + orig.subrange(j - 1, orig.len() as int));
        j = j - 1;
    }
    proof {
        let pre = orig.subrange(0, j as int);
        if j > 0 {
            assert(pre.last() == orig[j - 1]);
            assert(live_key_le(pre.last(), x));
            assert(insert_sorted(pre, x) == pre.push(x));
        } else {
            assert(insert_sorted(pre, x) == seq![x]);
        }
        assert(insert_sorted(pre, x) + orig.subrange(j as int, orig.len() as int) =~= orig.insert(j as int, x));
    }
    t.insert(j, x);
    t
}

/// The live orders sorted by instrument, then arrival sequence; a stable sort.
fn sort_live_orders(v: &Vec<LiveOrderState>) -> (r: Vec<LiveOrderState>)
    ensures
        r@ == sort_live(v@),
{
    let mut out: Vec<LiveOrderState> = Vec::new();
    let mut i: usize = 0;
    assert(v@.subrange(0, 0) =~= Seq::<LiveOrderState>::empty());
    while i < v.len()
        invariant
            i <= v@.len(),
            out@ == sort_live(v@.subrange(0, i as int)),
        decreases v@.len() - i,
    {
        let ghost pre = v@.subrange(0, i + 1);
        assert(pre.drop_last() =~= v@.subrange(0, i as int));
        assert(pre.last() == v@[i as int]);
        out = insert_sorted_vec(out, v[i]);
        i = i + 1;
    }
    assert(v@.subrange(0, i as int) =~= v@);
    out
}

/// The matching engine: one book per instrument, the live orders and where they rest, and
/// the accounts whose reservations back the orders.
pub struct MatchingEngine {
    books: HashMap<InstrumentId, OrderBook>,
    live_orders: HashMap<OrderId, LiveOrderState>,
    order_locations: HashMap<OrderId, InstrumentId>,
    accounts: AccountManager,
    next_global_sequence: Sequence,
}

impl View for MatchingEngine {
    type V = EngineModel;

    closed spec fn view(&self) -> EngineModel {
        EngineModel {
            books: books_view(self.books@),
            live_orders: self.live_orders@,
            order_locations: self.order_locations@,
            accounts: self.accounts@,
            next_global_sequence: self.next_global_sequence,
        }
    }
}

impl MatchingEngine {
    /// Every book is well formed.
    pub closed spec fn wf(&self) -> bool {
        forall|i: InstrumentId| #[trigger] self.books@.contains_key(i) ==> self.books@[i].wf()
    }

    /// An engine with no books, orders or accounts.
    pub fn new() -> (r: Self)
        ensures
            r.wf(),
            r@ == (EngineModel {
                books: Map::empty(),
                live_orders: Map::empty(),
                order_locations: Map::empty(),
                accounts: Map::empty(),
                next_global_sequence: 0,
            }),
    {
        let r = MatchingEngine {
            books: HashMap::new(),
            live_orders: HashMap::new(),
            order_locations: HashMap::new(),
            accounts: AccountManager::new(),
            next_global_sequence: 0,
        };
        assert(books_view(r.books@) =~= Map::empty());
        r
    }

    /// Rebuilds an engine from a snapshot, as `from_state` does, but gives `None` where a
    /// recorded order cannot be put back (no price, an id twice in one book, a level
    /// overflow, or an arrival at the last sequence number).
    pub fn try_from_state(state: EngineState) -> (r: Option<Self>)
        ensures
            r is None <==> EngineModel::recovered(
                state.live_orders@,
                accounts_view(state.accounts@),
                state.next_global_sequence,
            ) is None,
            r matches Some(e) ==> e.wf() && e@ == EngineModel::recovered(
                state.live_orders@,
                accounts_view(state.accounts@),
                state.next_global_sequence,
            ).unwrap(),
    {
        let live_orders = sort_live_orders(&state.live_orders);
        let mut engine = MatchingEngine {
            books: HashMap::new(),
            live_orders: HashMap::new(),
            order_locations: HashMap::new(),
            accounts: AccountManager::from_state(state.accounts),
            next_global_sequence: state.next_global_sequence,
        };
        let ghost whole = EngineModel::recovered(
            state.live_orders@,
            accounts_view(state.accounts@),
            state.next_global_sequence,
        );
        proof {
            assert(books_view(engine.books@) =~= Map::empty());
            assert(engine@ == EngineModel::bare(accounts_view(state.accounts@), state.next_global_sequence));
            assert(live_orders@.subrange(0, live_orders@.len() as int) =~= live_orders@);
        }
        let mut i: usize = 0;
        while i < live_orders.len()
            invariant
                engine.wf(),
                i <= live_orders@.len(),
                whole == EngineModel::recovered(
                    state.live_orders@,
                    accounts_view(state.accounts@),
                    state.next_global_sequence,
                ),
                live_orders@ == sort_live(state.live_orders@),
                whole == engine@.restore_all(live_orders@.subrange(i as int, live_orders@.len() as int)),
            decreases live_orders@.len() - i,
        {
            let ghost cur = engine@;
            let live = live_orders[i];
            proof {
                let rest = live_orders@.subrange(i as int, live_orders@.len() as int);
                assert(rest[0] == live);
                assert(rest.subrange(1, rest.len() as int) =~= live_orders@.subrange(i + 1, live_orders@.len() as int));
            }
            let instrument = live.order.instrument;
            let price = match live.order.price {
                Some(price) => price,
                None => {
                    assert(cur.restore_live(live) is None);
                    return None;
                },
            };
            let mut book = engine.take_book(instrument);
            if book.contains_order(live.order.id) || !book.level_has_room(live.order.side, price, live.remaining_qty)
                || live.arrival_sequence == u64::MAX {
                assert(cur.restore_live(live) is None);
                return None;
            }
            book.restore_resting_order(live.order, live.remaining_qty, live.arrival_sequence);
            engine.put_book(instrument, book);
            engine.order_locations.insert(live.order.id, instrument);
            engine.live_orders.insert(live.order.id, live);
            proof {
                assert(engine@.books =~= cur.books.insert(instrument, book@));
                assert(cur.restore_live(live) == Some(engine@));
            }
            i = i + 1;
        }
        proof {
            assert(live_orders@.subrange(i as int, live_orders@.len() as int) =~= Seq::<LiveOrderState>::empty());
        }
        Some(engine)
    }

    /// Rebuilds an engine from a snapshot: accounts and sequence as recorded, and each live
    /// order put back at the tail of its level, in instrument and arrival order.
    pub fn from_state(state: EngineState) -> (r: Self)
        requires
            EngineModel::recovered(state.live_orders@, accounts_view(state.accounts@), state.next_global_sequence) is Some,
        ensures
            r.wf(),
            r@ == EngineModel::recovered(
                state.live_orders@,
                accounts_view(state.accounts@),
                state.next_global_sequence,
            ).unwrap(),
    {
        Self::try_from_state(state).unwrap()
    }

    /// What a snapshot records: the sequence, the live orders in instrument and arrival
    /// order, and the accounts.
    pub fn export_state(&self) -> (r: EngineState)
        ensures
            r.next_global_sequence == self@.next_global_sequence,
            accounts_view(r.accounts@) == self@.accounts,
            exists|ids: Seq<OrderId>|
                {
                    &&& ids.no_duplicates()
                    &&& ids.to_set() == self@.live_orders.dom()
                    &&& r.live_orders@ == sort_live(ids.map_values(|id: OrderId| self@.live_orders[id]))
                },
            crate::recovery_laws::exports(self@, r),
    {
        let mut live_orders: Vec<LiveOrderState> = Vec::new();
        let ghost m = self@.live_orders;
        let keys = self.live_orders.keys();
        let ghost all_ids = vstd::std_specs::iter::IteratorSpec::remaining(&keys).unref();
        proof {
            assert(all_ids.to_set() == m.dom());
            assert(all_ids.no_duplicates());
        }
        for id in iter: keys
            invariant
                m == self@.live_orders,
                iter.seq().unref() == all_ids,
                all_ids.to_set() == m.dom(),
                live_orders@ == all_ids.take(iter.index()).map_values(|k: OrderId| m[k]),
        {
            proof {
                assert(all_ids.contains(*id));
                assert(all_ids.take(iter.index() + 1) =~= all_ids.take(iter.index()).push(*id));
            }
            live_orders.push(*self.live_orders.get(id).unwrap());
            proof {
                assert(live_orders@ =~= all_ids.take(iter.index() + 1).map_values(|k: OrderId| m[k]));
            }
        }
        proof {
            assert(all_ids.take(all_ids.len() as int) =~= all_ids);
            assert(live_orders@ == all_ids.map_values(|k: OrderId| m[k]));
        }
        let sorted = sort_live_orders(&live_orders);
        EngineState {
            next_global_sequence: self.next_global_sequence,
            live_orders: sorted,
            accounts: self.accounts.state().clone(),
        }
    }

    /// Takes the book of an instrument out of the map; a new empty one where there is none.
    fn take_book(&mut self, instrument: InstrumentId) -> (b: OrderBook)
        requires
            old(self).wf(),
        ensures
            final(self).wf(),
            b.wf(),
            b@ == old(self)@.book_or_empty(instrument),
            final(self)@ == (EngineModel { books: old(self)@.books.remove(instrument), ..old(self)@ }),
    {
        let b = match self.books.remove(&instrument) {
            Some(b) => b,
            None => OrderBook::new(instrument),
        };
        assert(books_view(self.books@) =~= old(self)@.books.remove(instrument));
        b
    }

    /// Puts the book of an instrument (back) into the map.
    fn put_book(&mut self, instrument: InstrumentId, b: OrderBook)
        requires
            old(self).wf(),
            b.wf(),
        ensures
            final(self).wf(),
            final(self)@ == (EngineModel { books: old(self)@.books.insert(instrument, b@), ..old(self)@ }),
    {
        self.books.insert(instrument, b);
        assert(books_view(self.books@) =~= old(self)@.books.insert(instrument, b@));
    }

    /// The top of the book of an instrument; empty where it has no book.
    pub fn snapshot(&self, instrument: InstrumentId) -> (r: BookSnapshot)
        requires
            self.wf(),
        ensures
            r == self@.snapshot(instrument),
    {
        match self.books.get(&instrument) {
            Some(book) => book.snapshot(),
            None => {
                let ghost empty = BookModel::empty(instrument);
                assert(empty.bids.dom() =~= Set::empty());
                assert(empty.asks.dom() =~= Set::empty());
                BookSnapshot { best_bid: None, best_ask: None }
            },
        }
    }

    /// Takes the next global sequence number.
    fn next_global_sequence(&mut self) -> (r: Sequence)
        requires
            old(self).wf(),
            old(self)@.next_global_sequence < u64::MAX,
        ensures
            r == old(self)@.next_global_sequence,
            final(self)@ == old(self)@.bump(),
            final(self).wf(),
    {
        let sequence = self.next_global_sequence;
        self.next_global_sequence = self.next_global_sequence + 1;
        sequence
    }

    /// Forgets a live order and where it rested.
    fn remove_live_order(&mut self, order_id: OrderId)
        requires
            old(self).wf(),
        ensures
            final(self).wf(),
            final(self)@ == old(self)@.forget(order_id),
    {
        self.live_orders.remove(&order_id);
        self.order_locations.remove(&order_id);
    }

    /// Settles the events of a submit of `order`, whose reservation is `reserved`: trades
    /// settle the taker and live makers, a resting taker becomes live, a cancelled or
    /// rejected taker gives back its reservation, and filled makers are forgotten. Stops
    /// with `false` where a balance would overflow.
    fn apply_submit_effects(&mut self, order: NewOrder, reserved: ReservedOrder, events: &Vec<Event>) -> (ok: bool)
        requires
            old(self).wf(),
        ensures
            final(self).wf(),
            ok <==> old(self)@.submit_effects(order, Self::initial_taker(order, reserved), events@) is Some,
            ok ==> final(self)@ == old(self)@.submit_effects(order, Self::initial_taker(order, reserved), events@).unwrap(),
    {
        let mut taker_state = LiveOrderState {
            order,
            remaining_qty: order.quantity,
            arrival_sequence: 0,
            reservation: reserved.reservation,
        };
        let ghost whole = old(self)@.submit_effects(order, Self::initial_taker(order, reserved), events@);
        let mut i: usize = 0;
        assert(events@.subrange(0, events@.len() as int) =~= events@);
        while i < events.len()
            invariant
                self.wf(),
                i <= events@.len(),
                taker_state.order == order,
                whole == old(self)@.submit_effects(order, Self::initial_taker(order, reserved), events@),
                whole == self@.submit_effects(order, taker_state, events@.subrange(i as int, events@.len() as int)),
            decreases events@.len() - i,
        {
            let ghost cur = self@;
            let ghost t0 = taker_state;
            let event = events[i];
            proof {
                let rest = events@.subrange(i as int, events@.len() as int);
                assert(rest[0] == event);
                assert(rest.subrange(1, rest.len() as int) =~= events@.subrange(i + 1, events@.len() as int));
            }
            match event {
                Event::Trade {
                    instrument,
                    maker_order_id,
                    taker_order_id,
                    price,
                    quantity,
                    maker_remaining,
                    taker_remaining,
                    ..
                } => {
                    if taker_order_id == order.id {
                        if !self.accounts.try_apply_trade(
                            order.account,
                            instrument,
                            order.side,
                            price,
                            quantity,
                            &mut taker_state.reservation,
                        ) {
                            proof {
                                assert(cur.submit_effect(order, t0, event) is None);
                                    assert(cur.submit_effects(order, t0, events@.subrange(i as int, events@.len() as int)) is None);
                            }
                            return false;
                        }
                        taker_state.remaining_qty = taker_remaining;
                    }
                    let ghost mid = self@;
                    match self.live_orders.get(&maker_order_id) {
                        Some(maker) => {
                            let mut maker = *maker;
                            if !self.accounts.try_apply_trade(
                                maker.order.account,
                                instrument,
                                maker.order.side,
                                price,
                                quantity,
                                &mut maker.reservation,
                            ) {
                                proof {
                                    assert(cur.submit_effect(order, t0, event) is None);
                                    assert(cur.submit_effects(order, t0, events@.subrange(i as int, events@.len() as int)) is None);
                                }
                                return false;
                            }
                            maker.remaining_qty = maker_remaining;
                            self.live_orders.insert(maker_order_id, maker);
                        },
                        None => {},
                    }
                },
                Event::Rested { instrument, order_id, remaining, sequence, .. } => {
                    if order_id == order.id {
                        taker_state.remaining_qty = remaining;
                        taker_state.arrival_sequence = sequence;
                        self.order_locations.insert(order.id, instrument);
                        self.live_orders.insert(order.id, taker_state);
                    }
                },
                Event::Cancelled { order_id, .. } => {
                    if order_id == order.id {
                        if !self.accounts.try_release_remaining(
                            order.account,
                            order.instrument,
                            &mut taker_state.reservation,
                        ) {
                            proof {
                                assert(cur.submit_effect(order, t0, event) is None);
                                    assert(cur.submit_effects(order, t0, events@.subrange(i as int, events@.len() as int)) is None);
                            }
                            return false;
                        }
                    }
                },
                Event::Rejected { order_id, .. } => {
                    if order_id == order.id {
                        if !self.accounts.try_release_remaining(
                            order.account,
                            order.instrument,
                            &mut taker_state.reservation,
                        ) {
                            proof {
                                assert(cur.submit_effect(order, t0, event) is None);
                                    assert(cur.submit_effects(order, t0, events@.subrange(i as int, events@.len() as int)) is None);
                            }
                            return false;
                        }
                    }
                },
                Event::Filled { order_id, .. } => {
                    if order_id != order.id {
                        self.remove_live_order(order_id);
                    }
                },
                _ => {},
            }
            proof {
                let step = cur.submit_effect(order, t0, event);
                assert(step == Some((self@, taker_state)));
            }
            i = i + 1;
        }
        proof {
            assert(events@.subrange(i as int, events@.len() as int) =~= Seq::<Event>::empty());
        }
        true
    }

    /// Settles the events of a cancel: a cancelled live order gives back what it reserved
    /// and is forgotten, a filled one is forgotten. Stops with `false` where a balance
    /// would overflow.
    fn apply_terminal_effects(&mut self, events: &Vec<Event>) -> (ok: bool)
        requires
            old(self).wf(),
        ensures
            final(self).wf(),
            ok <==> old(self)@.terminal_effects(events@) is Some,
            ok ==> final(self)@ == old(self)@.terminal_effects(events@).unwrap(),
    {
        let ghost whole = old(self)@.terminal_effects(events@);
        let mut i: usize = 0;
        assert(events@.subrange(0, events@.len() as int) =~= events@);
        while i < events.len()
            invariant
                self.wf(),
                i <= events@.len(),
                whole == old(self)@.terminal_effects(events@),
                whole == self@.terminal_effects(events@.subrange(i as int, events@.len() as int)),
            decreases events@.len() - i,
        {
            let ghost cur = self@;
            let event = events[i];
            proof {
                let rest = events@.subrange(i as int, events@.len() as int);
                assert(rest[0] == event);
                assert(rest.subrange(1, rest.len() as int) =~= events@.subrange(i + 1, events@.len() as int));
            }
            match event {
                Event::Cancelled { instrument, order_id, .. } => {
                    match self.live_orders.remove(&order_id) {
                        Some(live) => {
                            assert(live == cur.live_orders[order_id]);
                            let mut live = live;
                            if !self.accounts.try_release_remaining(live.order.account, instrument, &mut live.reservation) {
                                proof {
                                    assert(cur.terminal_effect(event) is None);
                                    assert(cur.terminal_effects(events@.subrange(i as int, events@.len() as int)) is None);
                                }
                                return false;
                            }
                        },
                        None => {},
                    }
                    self.order_locations.remove(&order_id);
                    proof {
                        if cur.live_orders.contains_key(order_id) {
                            assert(self@.live_orders =~= cur.forget(order_id).live_orders);
                            assert(self@.order_locations =~= cur.forget(order_id).order_locations);
                        } else {
                            assert(self@.live_orders =~= cur.live_orders);
                        }
                        assert(cur.terminal_effect(event) == Some(self@));
                    }
                },
                Event::Filled { order_id, .. } => {
                    self.remove_live_order(order_id);
                },
                _ => {},
            }
            proof {
                assert(cur.terminal_effect(event) == Some(self@));
            }
            i = i + 1;
        }
        proof {
            assert(events@.subrange(i as int, events@.len() as int) =~= Seq::<Event>::empty());
        }
        true
    }

    fn try_submit(&mut self, order: NewOrder) -> (r: Option<Vec<Event>>)
        requires
            old(self).wf(),
        ensures
            final(self).wf(),
            r is None <==> old(self)@.submit(order) is None,
            r matches Some(events) ==> (final(self)@, events@) == old(self)@.submit(order).unwrap(),
    {
        if self.live_orders.contains_key(&order.id) {
            return self.reject(Some(order.instrument), order.id, RejectReason::DuplicateOrderId);
        }
        let snapshot = self.snapshot(order.instrument);
        let reserved = match self.accounts.try_reserve_for_order(&order, snapshot) {
            None => {
                return None;
            },
            Some(Ok(reserved)) => reserved,
            Some(Err(reason)) => {
                return self.reject(Some(order.instrument), order.id, reason);
            },
        };
        let ghost e1 = self@;
        let mut book = self.take_book(order.instrument);
        let events = match book.try_submit(order) {
            None => {
                self.put_book(order.instrument, book);
                return None;
            },
            Some(events) => events,
        };
        self.put_book(order.instrument, book);
        proof {
            assert(self@.books =~= old(self)@.books.insert(order.instrument, book@));
            assert(self@ == (EngineModel { books: old(self)@.books.insert(order.instrument, book@), ..e1 }));
        }
        if !self.apply_submit_effects(order, reserved, &events) {
            return None;
        }
        Some(events)
    }

    fn try_cancel(&mut self, order_id: OrderId) -> (r: Option<Vec<Event>>)
        requires
            old(self).wf(),
        ensures
            final(self).wf(),
            r is None <==> old(self)@.cancel(order_id) is None,
            r matches Some(events) ==> (final(self)@, events@) == old(self)@.cancel(order_id).unwrap(),
    {
        let instrument = match self.order_locations.get(&order_id) {
            Some(instrument) => *instrument,
            None => {
                return self.reject(None, order_id, RejectReason::UnknownOrderId);
            },
        };
        if !self.books.contains_key(&instrument) {
            return None;
        }
        let mut book = self.take_book(instrument);
        if book.sequence_exhausted() {
            self.put_book(instrument, book);
            return None;
        }
        let events = book.cancel(order_id);
        self.put_book(instrument, book);
        proof {
            assert(self@.books =~= old(self)@.books.insert(instrument, book@));
            assert(self@ == (EngineModel { books: old(self)@.books.insert(instrument, book@), ..old(self)@ }));
        }
        if !self.apply_terminal_effects(&events) {
            return None;
        }
        Some(events)
    }

    fn try_replace(&mut self, replace: ReplaceOrder) -> (r: Option<Vec<Event>>)
        requires
            old(self).wf(),
        ensures
            final(self).wf(),
            r is None <==> old(self)@.replace(replace) is None,
            r matches Some(events) ==> (final(self)@, events@) == old(self)@.replace(replace).unwrap(),
    {
        let existing = match self.live_orders.get(&replace.order_id) {
            Some(existing) => *existing,
            None => {
                return self.reject(None, replace.order_id, RejectReason::UnknownOrderId);
            },
        };
        if replace.new_quantity == 0 {
            return self.reject(
                Some(existing.order.instrument),
                replace.order_id,
                RejectReason::InvalidQuantity,
            );
        }
        let mut events = match self.try_cancel(replace.order_id) {
            None => {
                return None;
            },
            Some(events) => events,
        };
        if self.next_global_sequence == u64::MAX {
            return None;
        }
        let replace_sequence = self.next_global_sequence();
        events.push(Event::Replaced {
            instrument: existing.order.instrument,
            order_id: replace.order_id,
            old_price: match existing.order.price {
                Some(price) => price,
                None => 0,
            },
            new_price: replace.new_price,
            old_remaining: existing.remaining_qty,
            new_quantity: replace.new_quantity,
            sequence: replace_sequence,
        });
        let replacement = NewOrder::limit(
            replace.order_id,
            existing.order.instrument,
            existing.order.side,
            replace.new_price,
            replace.new_quantity,
        ).with_account(existing.order.account);
        let mut submitted = match self.try_submit(replacement) {
            None => {
                return None;
            },
            Some(submitted) => submitted,
        };
        let ghost first = events@;
        events.append(&mut submitted);
        Some(events)
    }

    fn try_credit_cash(&mut self, account_id: AccountId, amount: Cash) -> (r: Option<Vec<Event>>)
        requires
            old(self).wf(),
        ensures
            final(self).wf(),
            r is None <==> old(self)@.credit_cash(account_id, amount) is None,
            r matches Some(events) ==> (final(self)@, events@) == old(self)@.credit_cash(account_id, amount).unwrap(),
    {
        if self.next_global_sequence == u64::MAX || !self.accounts.cash_fits(account_id, amount) {
            return None;
        }
        let sequence = self.next_global_sequence();
        let new_cash_balance = self.accounts.credit_cash(account_id, amount);
        let events = vec![Event::CashCredited { account_id, amount, new_cash_balance, sequence }];
        assert(events@ =~= old(self)@.credit_cash(account_id, amount).unwrap().1);
        Some(events)
    }

    fn try_credit_position(&mut self, account_id: AccountId, instrument: InstrumentId, quantity: Quantity) -> (r: Option<
        Vec<Event>,
    >)
        requires
            old(self).wf(),
        ensures
            final(self).wf(),
            r is None <==> old(self)@.credit_position(account_id, instrument, quantity) is None,
            r matches Some(events) ==> (final(self)@, events@) == old(self)@.credit_position(
                account_id,
                instrument,
                quantity,
            ).unwrap(),
    {
        if self.next_global_sequence == u64::MAX || !self.accounts.position_fits(account_id, instrument, quantity) {
            return None;
        }
        let sequence = self.next_global_sequence();
        let new_position = self.accounts.credit_position(account_id, instrument, quantity);
        let events = vec![Event::PositionCredited { account_id, instrument, quantity, new_position, sequence }];
        assert(events@ =~= old(self)@.credit_position(account_id, instrument, quantity).unwrap().1);
        Some(events)
    }

    /// Applies a command as `apply` does, but stops with `None` where a counter or a
    /// balance would overflow or a live order's book is missing, the cases in which the
    /// engine cannot go on; the state is then left as far as the command got.
    pub fn checked_apply(&mut self, command: EngineCommand) -> (r: Option<Vec<Event>>)
        requires
            old(self).wf(),
        ensures
            final(self).wf(),
            r is None <==> old(self)@.apply(command) is None,
            r matches Some(events) ==> (final(self)@, events@) == old(self)@.apply(command).unwrap(),
    {
        match command {
            EngineCommand::Submit(order) => self.try_submit(order),
            EngineCommand::Cancel { order_id } => self.try_cancel(order_id),
            EngineCommand::Replace(replace) => self.try_replace(replace),
            EngineCommand::CreditCash { account_id, amount } => self.try_credit_cash(account_id, amount),
            EngineCommand::CreditPosition { account_id, instrument, quantity } => self.try_credit_position(
                account_id,
                instrument,
                quantity,
            ),
        }
    }

    /// Applies a command and returns its events: submit, cancel and replace of orders (a
    /// replace is a cancel, a `Replaced` event and a new submit at the new price and
    /// quantity), and credits of cash and positions.
    pub fn apply(&mut self, command: EngineCommand) -> (events: Vec<Event>)
        requires
            old(self).wf(),
            old(self)@.apply(command) is Some,
        ensures
            final(self).wf(),
            (final(self)@, events@) == old(self)@.apply(command).unwrap(),
    {
        self.checked_apply(command).unwrap()
    }

    /// The state of a submitted order before its events are settled.
    pub open spec fn initial_taker(order: NewOrder, reserved: ReservedOrder) -> LiveOrderState {
        LiveOrderState { order, remaining_qty: order.quantity, arrival_sequence: 0, reservation: reserved.reservation }
    }

    /// A refusal by the engine: one `Rejected` event with the next global sequence.
    fn reject(&mut self, instrument: Option<InstrumentId>, order_id: OrderId, reason: RejectReason) -> (r: Option<Vec<Event>>)
        requires
            old(self).wf(),
        ensures
            final(self).wf(),
            r is None <==> old(self)@.reject(instrument, order_id, reason) is None,
            r matches Some(events) ==> (final(self)@, events@) == old(self)@.reject(instrument, order_id, reason).unwrap(),
    {
        if self.next_global_sequence == u64::MAX {
            return None;
        }
        let sequence = self.next_global_sequence();
        let events = vec![Event::Rejected { instrument, order_id, reason, sequence }];
        assert(events@ =~= old(self)@.reject(instrument, order_id, reason).unwrap().1);
        Some(events)
    }
}

impl Default for EngineState {
    /// A snapshot of an engine with nothing in it.
    fn default() -> (r: Self)
        ensures
            r.next_global_sequence == 0,
            r.live_orders@ == Seq::<LiveOrderState>::empty(),
            r.accounts@ == Map::<AccountId, AccountState>::empty(),
    {
        EngineState { next_global_sequence: 0, live_orders: Vec::new(), accounts: HashMap::new() }
    }
}

impl Default for MatchingEngine {
    /// An engine with no books, orders or accounts.
    fn default() -> (r: Self)
        ensures
            r.wf(),
            r@ == (EngineModel {
                books: Map::empty(),
                live_orders: Map::empty(),
                order_locations: Map::empty(),
                accounts: Map::empty(),
                next_global_sequence: 0,
            }),
    {
        MatchingEngine::new()
    }
}

} // verus!
