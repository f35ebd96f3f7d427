use vstd::prelude::*;

use crate::book::RestingOrder;
use crate::book_model::{lemma_remove_order_wf, lemma_set_remaining_wf, BookModel};
use crate::book_laws::lemma_key_extremes;
use crate::engine::LiveOrderState;
use crate::engine_model::EngineModel;
use crate::events::Event;
use crate::types::{EngineCommand, InstrumentId, NewOrder, OrderId, Quantity, ReplaceOrder, Sequence};

verus! {

/// How a book records a live order of the engine.
pub open spec fn live_view(l: LiveOrderState) -> RestingOrder {
    RestingOrder {
        instrument: l.order.instrument,
        order_id: l.order.id,
        side: l.order.side,
        price: l.order.price.unwrap(),
        original_qty: l.order.quantity,
        remaining_qty: l.remaining_qty,
        arrival_sequence: l.arrival_sequence,
    }
}

/// The live order `id` names itself, has a price, arrived before the last sequence number,
/// and is located at its instrument.
pub open spec fn live_ok(e: EngineModel, id: OrderId) -> bool {
    let l = e.live_orders[id];
    &&& l.order.id == id
    &&& l.order.price is Some
    &&& l.arrival_sequence < u64::MAX
    &&& e.order_locations.contains_key(id)
    &&& e.order_locations[id] == l.order.instrument
}

/// The live orders of instrument `inst` are exactly the orders resting in book `m`, as the
/// book records them.
pub open spec fn holds_book(e: EngineModel, inst: InstrumentId, m: BookModel) -> bool {
    &&& forall|id: OrderId| #[trigger] m.orders.contains_key(id) ==> {
        &&& e.live_orders.contains_key(id)
        &&& e.live_orders[id].order.instrument == inst
        &&& m.orders[id] == live_view(e.live_orders[id])
    }
    &&& forall|id: OrderId| #[trigger] e.live_orders.contains_key(id) ==> (e.live_orders[id].order.instrument == inst
        ==> m.orders.contains_key(id))
}

/// The bookkeeping of an engine agrees with its books: every live order is well recorded
/// and rests in the book of its instrument, every located order is live, and every book is
/// well-formed, belongs to its instrument and holds exactly the live orders of it.
pub open spec fn consistent(e: EngineModel) -> bool {
    &&& forall|id: OrderId| #[trigger] e.live_orders.contains_key(id) ==> live_ok(e, id) && e.books.contains_key(
        e.live_orders[id].order.instrument,
    )
    &&& forall|id: OrderId| #[trigger] e.order_locations.contains_key(id) ==> e.live_orders.contains_key(id)
    &&& forall|inst: InstrumentId| #[trigger] e.books.contains_key(inst) ==> {
        &&& e.books[inst].wf()
        &&& e.books[inst].instrument == inst
        &&& holds_book(e, inst, e.books[inst])
    }
}

impl EngineModel {
    /// The effects of the events of a submit, in order, with the state of the taker after
    /// them.
    pub open spec fn run(self, order: NewOrder, taker: LiveOrderState, events: Seq<Event>) -> Option<
        (EngineModel, LiveOrderState),
    >
        decreases events.len(),
    {
        if events.len() == 0 {
            Some((self, taker))
        } else {
            match self.submit_effect(order, taker, events[0]) {
                None => None,
                Some((e, t)) => e.run(order, t, events.subrange(1, events.len() as int)),
            }
        }
    }
}

/// `submit_effects` is `run` without the taker.
pub proof fn lemma_run_effects(e: EngineModel, order: NewOrder, taker: LiveOrderState, events: Seq<Event>)
    ensures
        e.submit_effects(order, taker, events) == match e.run(order, taker, events) {
            None => None,
            Some((e2, _)) => Some(e2),
        },
    decreases events.len(),
{
    if events.len() > 0 {
        match e.submit_effect(order, taker, events[0]) {
            None => {},
            Some((e1, t1)) => {
                lemma_run_effects(e1, order, t1, events.subrange(1, events.len() as int));
            },
        }
    }
}

/// Running two sequences of events one after the other is running their concatenation.
pub proof fn lemma_run_concat(e: EngineModel, order: NewOrder, taker: LiveOrderState, a: Seq<Event>, b: Seq<Event>)
    ensures
        e.run(order, taker, a + b) == match e.run(order, taker, a) {
            None => None,
            Some((e2, t2)) => e2.run(order, t2, b),
        },
    decreases a.len(),
{
    if a.len() == 0 {
        assert(a + b =~= b);
    } else {
        assert((a + b)[0] == a[0]);
        assert((a + b).subrange(1, (a + b).len() as int) =~= a.subrange(1, a.len() as int) + b);
        match e.submit_effect(order, taker, a[0]) {
            None => {},
            Some((e1, t1)) => {
                lemma_run_concat(e1, order, t1, a.subrange(1, a.len() as int), b);
            },
        }
    }
}

/// Running one event is its effect.
pub proof fn lemma_run_one(e: EngineModel, order: NewOrder, taker: LiveOrderState, a: Event)
    ensures
        e.run(order, taker, seq![a]) == e.submit_effect(order, taker, a),
{
    assert(seq![a][0] == a);
    assert(seq![a].subrange(1, 1) =~= Seq::<Event>::empty());
    match e.submit_effect(order, taker, a) {
        None => {},
        Some((e1, t1)) => {
            assert(e1.run(order, t1, Seq::<Event>::empty()) == Some((e1, t1)));
        },
    }
}

/// Running two events is their effects one after the other.
pub proof fn lemma_run_two(e: EngineModel, order: NewOrder, taker: LiveOrderState, a: Event, b: Event)
    ensures
        e.run(order, taker, seq![a, b]) == match e.submit_effect(order, taker, a) {
            None => None,
            Some((e1, t1)) => e1.submit_effect(order, t1, b),
        },
{
    assert(seq![a, b][0] == a);
    assert(seq![a, b].subrange(1, 2) =~= seq![b]);
    match e.submit_effect(order, taker, a) {
        None => {},
        Some((e1, t1)) => {
            lemma_run_one(e1, order, t1, b);
        },
    }
}

/// The bookkeeping that a run over events of instrument `inst` keeps: every live order
/// stays well recorded, every located order live, the books and the sequence unchanged, no
/// order becomes live, and the live orders of other instruments stay as they were.
pub open spec fn run_keeps(e: EngineModel, e2: EngineModel, inst: InstrumentId) -> bool {
    &&& forall|id: OrderId| #[trigger] e2.live_orders.contains_key(id) ==> live_ok(e2, id)
    &&& forall|id: OrderId| #[trigger] e2.order_locations.contains_key(id) ==> e2.live_orders.contains_key(id)
    &&& forall|id: OrderId| #[trigger] e.live_orders.contains_key(id) && e.live_orders[id].order.instrument != inst
        ==> e2.live_orders.contains_key(id) && e2.live_orders[id] == e.live_orders[id]
    &&& forall|id: OrderId| #[trigger] e2.live_orders.contains_key(id) ==> e.live_orders.contains_key(id)
        && e2.live_orders[id].order == e.live_orders[id].order
    &&& e2.books == e.books
    &&& e2.next_global_sequence == e.next_global_sequence
}

proof fn lemma_run_keeps_trans(e: EngineModel, e2: EngineModel, e3: EngineModel, inst: InstrumentId)
    requires
        run_keeps(e, e2, inst),
        run_keeps(e2, e3, inst),
    ensures
        run_keeps(e, e3, inst),
{
    assert forall|id: OrderId| #[trigger] e.live_orders.contains_key(id) && e.live_orders[id].order.instrument != inst
        implies e3.live_orders.contains_key(id) && e3.live_orders[id] == e.live_orders[id] by {
        assert(e2.live_orders.contains_key(id));
    }
}

/// A trade of the taker against resting order `id` settles the maker's live order as the
/// book lowers it.
pub(crate) proof fn lemma_trade_effect(
    e: EngineModel,
    order: NewOrder,
    taker: LiveOrderState,
    m: BookModel,
    id: OrderId,
    trade: Event,
    maker_left: Quantity,
)
    requires
        m.wf(),
        holds_book(e, order.instrument, m),
        forall|x: OrderId| #[trigger] e.live_orders.contains_key(x) ==> live_ok(e, x),
        forall|x: OrderId| #[trigger] e.order_locations.contains_key(x) ==> e.live_orders.contains_key(x),
        m.orders.contains_key(id),
        id != order.id,
        !e.live_orders.contains_key(order.id),
        taker.order == order,
        maker_left <= m.orders[id].remaining_qty,
        trade matches Event::Trade { maker_order_id, taker_order_id, maker_remaining, .. } && maker_order_id == id
            && taker_order_id == order.id && maker_remaining == maker_left,
    ensures
        match e.submit_effect(order, taker, trade) {
            None => true,
            Some((e1, t1)) => {
                &&& holds_book(e1, order.instrument, m.set_remaining(id, maker_left))
                &&& run_keeps(e, e1, order.instrument)
                &&& !e1.live_orders.contains_key(order.id)
                &&& t1.order == order
            },
        },
{
    let after = m.set_remaining(id, maker_left);
    assert(e.live_orders.contains_key(id));
    match e.submit_effect(order, taker, trade) {
        None => {},
        Some((e1, t1)) => {
            let live_maker = e.live_orders[id];
            assert(e1.live_orders == e.live_orders.insert(id, e1.live_orders[id]));
            assert(e1.order_locations == e.order_locations);
            assert forall|x: OrderId| #[trigger] after.orders.contains_key(x) implies {
                &&& e1.live_orders.contains_key(x)
                &&& e1.live_orders[x].order.instrument == order.instrument
                &&& after.orders[x] == live_view(e1.live_orders[x])
            } by {
                assert(m.orders.contains_key(x));
            }
            assert forall|x: OrderId| #[trigger] e1.live_orders.contains_key(x) implies (e1.live_orders[x].order.instrument
                == order.instrument ==> after.orders.contains_key(x)) by {
                assert(e.live_orders.contains_key(x));
            }
            assert forall|x: OrderId| #[trigger] e1.live_orders.contains_key(x) implies live_ok(e1, x) by {
                assert(e.live_orders.contains_key(x));
                assert(live_ok(e, x));
            }
            assert forall|x: OrderId| #[trigger] e.live_orders.contains_key(x) && e.live_orders[x].order.instrument
                != order.instrument implies e1.live_orders.contains_key(x) && e1.live_orders[x] == e.live_orders[x] by {
                assert(x != id);
            }
        },
    }
}

/// A fill of resting order `id` forgets its live order as the book drops it.
pub(crate) proof fn lemma_filled_effect(e: EngineModel, order: NewOrder, taker: LiveOrderState, m: BookModel, id: OrderId)
    requires
        m.wf(),
        holds_book(e, order.instrument, m),
        forall|x: OrderId| #[trigger] e.live_orders.contains_key(x) ==> live_ok(e, x),
        forall|x: OrderId| #[trigger] e.order_locations.contains_key(x) ==> e.live_orders.contains_key(x),
        m.orders.contains_key(id),
        id != order.id,
    ensures
        e.submit_effect(order, taker, Event::Filled { instrument: m.instrument, order_id: id, sequence: 0 }) == Some(
            (e.forget(id), taker),
        ),
        holds_book(e.forget(id), order.instrument, m.remove_order(id)),
        run_keeps(e, e.forget(id), order.instrument),
{
    let e3 = e.forget(id);
    let next = m.remove_order(id);
    lemma_remove_order_wf(m, id);
    assert forall|x: OrderId| #[trigger] next.orders.contains_key(x) implies {
        &&& e3.live_orders.contains_key(x)
        &&& e3.live_orders[x].order.instrument == order.instrument
        &&& next.orders[x] == live_view(e3.live_orders[x])
    } by {
        assert(m.orders.contains_key(x));
    }
    assert forall|x: OrderId| #[trigger] e3.live_orders.contains_key(x) implies (e3.live_orders[x].order.instrument
        == order.instrument ==> next.orders.contains_key(x)) by {
        assert(e.live_orders.contains_key(x));
    }
    assert forall|x: OrderId| #[trigger] e3.live_orders.contains_key(x) implies live_ok(e3, x) by {
        assert(e.live_orders.contains_key(x));
        assert(live_ok(e, x));
    }
    assert forall|x: OrderId| #[trigger] e.live_orders.contains_key(x) && e.live_orders[x].order.instrument
        != order.instrument implies e3.live_orders.contains_key(x) && e3.live_orders[x] == e.live_orders[x] by {
        assert(x != id);
    }
}

/// What a run over the events of matching keeps: the live orders of the instrument follow
/// the book, the rest of the bookkeeping as `run_keeps` says, and the taker stays the same
/// order and not live.
pub open spec fn match_run_ok(e: EngineModel, order: NewOrder, m2: BookModel, r: Option<(EngineModel, LiveOrderState)>) -> bool {
    match r {
        None => true,
        Some((e2, t2)) => {
            &&& holds_book(e2, order.instrument, m2)
            &&& run_keeps(e, e2, order.instrument)
            &&& !e2.live_orders.contains_key(order.id)
            &&& t2.order == order
        },
    }
}

/// The effects of the events of matching keep the live orders of the instrument in step
/// with the book.
#[verifier::rlimit(40)]
pub proof fn lemma_match_run(
    e: EngineModel,
    order: NewOrder,
    taker: LiveOrderState,
    m: BookModel,
    remaining: Quantity,
    sequence: Sequence,
)
    requires
        m.wf(),
        m.instrument == order.instrument,
        holds_book(e, order.instrument, m),
        forall|id: OrderId| #[trigger] e.live_orders.contains_key(id) ==> live_ok(e, id),
        forall|id: OrderId| #[trigger] e.order_locations.contains_key(id) ==> e.live_orders.contains_key(id),
        !m.orders.contains_key(order.id),
        !e.live_orders.contains_key(order.id),
        taker.order == order,
    ensures
        match_run_ok(
            e,
            order,
            m.match_taker(order, remaining, sequence).0,
            e.run(order, taker, m.match_taker(order, remaining, sequence).2),
        ),
    decreases remaining, m.orders.dom().len(),
{
    let opp = order.side.opposite();
    let r = m.match_taker(order, remaining, sequence);
    crate::book_model::lemma_levels_finite(m, opp);
    lemma_key_extremes(m.bids.dom());
    lemma_key_extremes(m.asks.dom());
    if remaining == 0 || m.best_price(opp) is None {
        assert(r.2.len() == 0);
        assert(e.run(order, taker, r.2) == Some((e, taker)));
    } else {
        let p = m.best_price(opp).unwrap();
        assert(m.levels(opp).contains_key(p));
        assert(m.side_wf(opp));
        assert(m.level_wf(opp, p));
        let q = m.levels(opp)[p];
        assert(q.len() > 0);
        assert(m.orders.contains_key(q[0]));
        if !crate::book_model::crosses(order, p) {
            assert(r.2.len() == 0);
            assert(e.run(order, taker, r.2) == Some((e, taker)));
        } else {
            let maker = m.orders[q[0]];
            let traded_now = if remaining <= maker.remaining_qty { remaining } else { maker.remaining_qty };
            let maker_left = (maker.remaining_qty - traded_now) as u64;
            let taker_left = (remaining - traded_now) as u64;
            let after = m.set_remaining(q[0], maker_left);
            lemma_set_remaining_wf(m, q[0], maker_left);
            let trade = Event::Trade {
                instrument: m.instrument,
                maker_order_id: maker.order_id,
                taker_order_id: order.id,
                side: order.side,
                price: maker.price,
                quantity: traded_now,
                maker_remaining: maker_left,
                taker_remaining: taker_left,
                sequence,
            };
            let level = after.level_event(opp, p, sequence);
            assert(maker.order_id == q[0]);
            lemma_trade_effect(e, order, taker, m, q[0], trade, maker_left);
            let head2 = seq![trade, level];
            lemma_run_two(e, order, taker, trade, level);
            if maker_left == 0 {
                let filled = Event::Filled { instrument: m.instrument, order_id: maker.order_id, sequence };
                let next = after.remove_order(q[0]);
                let r2 = next.match_taker(order, taker_left, sequence);
                assert(r.2 == head2.push(filled) + r2.2);
                lemma_run_concat(e, order, taker, head2.push(filled), r2.2);
                lemma_run_concat(e, order, taker, head2, seq![filled]);
                assert(head2 + seq![filled] =~= head2.push(filled));
                match e.submit_effect(order, taker, trade) {
                    None => {},
                    Some((e1, t1)) => {
                        assert(e1.submit_effect(order, t1, level) == Some((e1, t1)));
                        assert(e.run(order, taker, head2) == Some((e1, t1)));
                        lemma_filled_effect(e1, order, t1, after, q[0]);
                        lemma_run_one(e1, order, t1, filled);
                        let e3 = e1.forget(q[0]);
                        assert(e1.submit_effect(order, t1, filled) == Some((e3, t1)));
                        assert(e1.run(order, t1, seq![filled]) == Some((e3, t1)));
                        lemma_run_keeps_trans(e, e1, e3, order.instrument);
                        lemma_remove_order_wf(after, q[0]);
                        assert(next.orders.dom() =~= m.orders.dom().remove(q[0]));
                        lemma_match_run(e3, order, t1, next, taker_left, sequence);
                        if let Some((e4, t4)) = e3.run(order, t1, r2.2) {
                            lemma_run_keeps_trans(e, e3, e4, order.instrument);
                        }
                    },
                }
            } else {
                assert(r.2 == head2);
                match e.submit_effect(order, taker, trade) {
                    None => {},
                    Some((e1, t1)) => {
                        assert(e1.submit_effect(order, t1, level) == Some((e1, t1)));
                        assert(e.run(order, taker, head2) == Some((e1, t1)));
                    },
                }
            }
        }
    }
}

/// The bookkeeping that the effects of a submit keep: every live order stays well recorded
/// and every located order live, the books do not change, the live orders of other
/// instruments stay as they were, and the only order that may become live is the
/// submitted one.
pub open spec fn submit_keeps(e: EngineModel, e2: EngineModel, order: NewOrder) -> bool {
    &&& forall|id: OrderId| #[trigger] e2.live_orders.contains_key(id) ==> live_ok(e2, id)
    &&& forall|id: OrderId| #[trigger] e2.order_locations.contains_key(id) ==> e2.live_orders.contains_key(id)
    &&& forall|id: OrderId| #[trigger] e.live_orders.contains_key(id) && e.live_orders[id].order.instrument
        != order.instrument ==> e2.live_orders.contains_key(id) && e2.live_orders[id] == e.live_orders[id]
    &&& forall|id: OrderId| #[trigger] e2.live_orders.contains_key(id) ==> (e.live_orders.contains_key(id)
        && e2.live_orders[id].order == e.live_orders[id].order) || (id == order.id
        && e2.live_orders[id].order.instrument == order.instrument)
    &&& e2.books == e.books
}

/// Running three events is their effects one after the other.
pub proof fn lemma_run_three(e: EngineModel, order: NewOrder, taker: LiveOrderState, a: Event, b: Event, c: Event)
    ensures
        e.run(order, taker, seq![a, b, c]) == match e.submit_effect(order, taker, a) {
            None => None,
            Some((e1, t1)) => e1.run(order, t1, seq![b, c]),
        },
{
    assert(seq![a, b, c] =~= seq![a] + seq![b, c]);
    lemma_run_concat(e, order, taker, seq![a], seq![b, c]);
    lemma_run_one(e, order, taker, a);
}

/// Resting what is left of the taker makes it live, in step with the book it rests in.
proof fn lemma_rest_tail(
    e: EngineModel,
    e4: EngineModel,
    order: NewOrder,
    t4: LiveOrderState,
    m1: BookModel,
    res: RestingOrder,
    left: Quantity,
    sq: Sequence,
    lev: Event,
    top: Event,
)
    requires
        holds_book(e4, order.instrument, m1),
        run_keeps(e, e4, order.instrument),
        !e4.live_orders.contains_key(order.id),
        t4.order == order,
        order.price is Some,
        sq < u64::MAX,
        m1.instrument == order.instrument,
        res == m1.resting_of(order, left, sq),
        lev is LevelUpdated,
        top is BestBidAskUpdated,
    ensures
        ({
            let rested = Event::Rested {
                instrument: order.instrument,
                order_id: order.id,
                side: order.side,
                price: order.price.unwrap(),
                remaining: left,
                sequence: sq,
            };
            e4.run(order, t4, seq![rested, lev, top]) matches Some((e5, _)) && holds_book(
                e5,
                order.instrument,
                m1.add_resting(res),
            ) && submit_keeps(e, e5, order)
        }),
{
    let m = m1;
    let price = order.price.unwrap();
    let m2 = m1.add_resting(res);
    let rested = Event::Rested {
        instrument: order.instrument,
        order_id: order.id,
        side: order.side,
        price,
        remaining: left,
        sequence: sq,
    };
    lemma_run_three(e4, order, t4, rested, lev, top);
                        let tt = LiveOrderState { remaining_qty: left, arrival_sequence: sq, ..t4 };
                        let e5 = EngineModel {
                            order_locations: e4.order_locations.insert(order.id, m.instrument),
                            live_orders: e4.live_orders.insert(order.id, tt),
                            ..e4
                        };
                        assert(e4.submit_effect(order, t4, rested) == Some((e5, tt)));
                        lemma_run_two(e5, order, tt, lev, top);
                        assert(e5.run(order, tt, seq![lev, top]) == Some((e5, tt)));
                        assert(live_view(tt) == res);
                        assert(m2.orders == m1.orders.insert(order.id, res));
                        assert forall|id: OrderId| #[trigger] m2.orders.contains_key(id) implies {
                            &&& e5.live_orders.contains_key(id)
                            &&& e5.live_orders[id].order.instrument == order.instrument
                            &&& m2.orders[id] == live_view(e5.live_orders[id])
                        } by {
                            if id != order.id {
                                assert(m1.orders.contains_key(id));
                            }
                        }
                        assert forall|id: OrderId| #[trigger] e5.live_orders.contains_key(id) implies (
                        e5.live_orders[id].order.instrument == order.instrument ==> m2.orders.contains_key(id)) by {
                            if id != order.id {
                                assert(e4.live_orders.contains_key(id));
                            }
                        }
                        assert forall|id: OrderId| #[trigger] e5.live_orders.contains_key(id) implies live_ok(e5, id) by {
                            if id != order.id {
                                assert(e4.live_orders.contains_key(id));
                                assert(live_ok(e4, id));
                            }
                        }
                        assert forall|id: OrderId| #[trigger] e.live_orders.contains_key(id)
                            && e.live_orders[id].order.instrument != order.instrument implies e5.live_orders.contains_key(id)
                            && e5.live_orders[id] == e.live_orders[id] by {
                            assert(e4.live_orders.contains_key(id));
                        }
                        assert forall|id: OrderId| #[trigger] e5.live_orders.contains_key(id) implies (e.live_orders.contains_key(id)
                            && e5.live_orders[id].order == e.live_orders[id].order) || (id == order.id
                            && e5.live_orders[id].order.instrument == order.instrument) by {
                            if id != order.id {
                                assert(e4.live_orders.contains_key(id));
                            }
                        }
                        assert forall|id: OrderId| #[trigger] e5.order_locations.contains_key(id) implies e5.live_orders.contains_key(id) by {
                            if id != order.id {
                                assert(e4.order_locations.contains_key(id));
                            }
                        }
}

/// The effects of the events of a submit to book `m` keep the live orders of the
/// instrument in step with the book the submit leaves.
#[verifier::rlimit(40)]
pub proof fn lemma_submit_run(e: EngineModel, order: NewOrder, taker: LiveOrderState, m: BookModel)
    requires
        m.wf(),
        m.submit_fits(order),
        m.instrument == order.instrument,
        holds_book(e, order.instrument, m),
        forall|id: OrderId| #[trigger] e.live_orders.contains_key(id) ==> live_ok(e, id),
        forall|id: OrderId| #[trigger] e.order_locations.contains_key(id) ==> e.live_orders.contains_key(id),
        !e.live_orders.contains_key(order.id),
        taker.order == order,
    ensures
        match e.submit_effects(order, taker, m.submit_outcome(order).1) {
            None => true,
            Some(e3) => holds_book(e3, order.instrument, m.submit_outcome(order).0) && submit_keeps(e, e3, order),
        },
{
    let sq = m.next_sequence;
    let m0 = m.bump_sequence();
    crate::book_laws::lemma_bumped_wf(m);
    let events = m.submit_outcome(order).1;
    lemma_run_effects(e, order, taker, events);
    assert(holds_book(e, order.instrument, m0));
    match m.validation_error(order) {
        Some(reason) => {
            let rej = Event::Rejected { instrument: Some(m.instrument), order_id: order.id, reason, sequence: sq };
            assert(events == seq![rej]);
            lemma_run_one(e, order, taker, rej);
            if let Some((e3, t3)) = e.submit_effect(order, taker, rej) {
                assert(e3.live_orders == e.live_orders);
                assert(e3.order_locations == e.order_locations);
            }
        },
        None => {
            assert(!m.orders.contains_key(order.id));
            let acc = seq![Event::Accepted { instrument: m.instrument, order_id: order.id, sequence: sq }];
            let (m1, left, t) = m0.match_taker(order, order.quantity, sq);
            lemma_match_run(e, order, taker, m0, order.quantity, sq);
            crate::book_laws::lemma_match_taker(m0, order, order.quantity, sq);
            lemma_run_one(e, order, taker, acc[0]);
            assert(acc =~= seq![acc[0]]);
            assert(e.run(order, taker, acc) == Some((e, taker)));
            lemma_run_concat(e, order, taker, acc, t);
            match e.run(order, taker, t) {
                None => {
                    if left == 0 {
                        let tail = seq![
                            Event::Filled { instrument: m.instrument, order_id: order.id, sequence: sq },
                            m1.top_event(sq),
                        ];
                        assert(events == acc + t + tail);
                        lemma_run_concat(e, order, taker, acc + t, tail);
                    } else if BookModel::rests(order) {
                        let price = order.price.unwrap();
                        let m2 = m1.add_resting(m.resting_of(order, left, sq));
                        let tail = seq![
                            Event::Rested {
                                instrument: m.instrument,
                                order_id: order.id,
                                side: order.side,
                                price,
                                remaining: left,
                                sequence: sq,
                            },
                            m2.level_event(order.side, price, sq),
                            m2.top_event(sq),
                        ];
                        assert(events == acc + t + tail);
                        lemma_run_concat(e, order, taker, acc + t, tail);
                    } else {
                        let tail = seq![
                            Event::Cancelled {
                                instrument: m.instrument,
                                order_id: order.id,
                                cancelled_qty: left,
                                sequence: sq,
                            },
                            m1.top_event(sq),
                        ];
                        assert(events == acc + t + tail);
                        lemma_run_concat(e, order, taker, acc + t, tail);
                    }
                },
                Some((e4, t4)) => {
                    if left == 0 {
                        let fill = Event::Filled { instrument: m.instrument, order_id: order.id, sequence: sq };
                        let tail = seq![fill, m1.top_event(sq)];
                        assert(events == acc + t + tail);
                        lemma_run_concat(e, order, taker, acc + t, tail);
                        lemma_run_two(e4, order, t4, fill, m1.top_event(sq));
                    } else if BookModel::rests(order) {
                        let price = order.price.unwrap();
                        let res = m.resting_of(order, left, sq);
                        let m2 = m1.add_resting(res);
                        let rested = Event::Rested {
                            instrument: m.instrument,
                            order_id: order.id,
                            side: order.side,
                            price,
                            remaining: left,
                            sequence: sq,
                        };
                        let lev = m2.level_event(order.side, price, sq);
                        let top = m2.top_event(sq);
                        let tail = seq![rested, lev, top];
                        assert(events == acc + t + tail);
                        lemma_run_concat(e, order, taker, acc + t, tail);
                        lemma_rest_tail(e, e4, order, t4, m1, res, left, sq, lev, top);
                    } else {
                        let can = Event::Cancelled {
                            instrument: m.instrument,
                            order_id: order.id,
                            cancelled_qty: left,
                            sequence: sq,
                        };
                        let tail = seq![can, m1.top_event(sq)];
                        assert(events == acc + t + tail);
                        lemma_run_concat(e, order, taker, acc + t, tail);
                        lemma_run_two(e4, order, t4, can, m1.top_event(sq));
                        if let Some((e5, t5)) = e4.submit_effect(order, t4, can) {
                            assert(e5.live_orders == e4.live_orders);
                            assert(e5.order_locations == e4.order_locations);
                            assert(e5.submit_effect(order, t5, m1.top_event(sq)) == Some((e5, t5)));
                        }
                    }
                },
            }
        },
    }
}

/// A book with no orders is well-formed.
pub proof fn lemma_empty_book_wf(inst: InstrumentId)
    ensures
        BookModel::empty(inst).wf(),
{
    let m = BookModel::empty(inst);
    assert(m.orders.dom() =~= Set::<OrderId>::empty());
    assert forall|p: u64| #[trigger] m.levels(crate::types::Side::Bid).contains_key(p) implies m.level_wf(
        crate::types::Side::Bid,
        p,
    ) by {}
    assert forall|p: u64| #[trigger] m.levels(crate::types::Side::Ask).contains_key(p) implies m.level_wf(
        crate::types::Side::Ask,
        p,
    ) by {}
}

/// The book an engine holds for an instrument, or an empty one, is well-formed and holds
/// exactly the live orders of the instrument.
proof fn lemma_book_or_empty(e: EngineModel, inst: InstrumentId)
    requires
        consistent(e),
    ensures
        e.book_or_empty(inst).wf(),
        e.book_or_empty(inst).instrument == inst,
        holds_book(e, inst, e.book_or_empty(inst)),
{
    if !e.books.contains_key(inst) {
        lemma_empty_book_wf(inst);
        let m = e.book_or_empty(inst);
        assert forall|id: OrderId| #[trigger] e.live_orders.contains_key(id) implies (e.live_orders[id].order.instrument
            == inst ==> m.orders.contains_key(id)) by {}
    }
}

/// An engine that only changes its accounts or its sequence stays consistent.
proof fn lemma_consistent_frame(e: EngineModel, e2: EngineModel)
    requires
        consistent(e),
        e2.books == e.books,
        e2.live_orders == e.live_orders,
        e2.order_locations == e.order_locations,
    ensures
        consistent(e2),
{
    assert forall|id: OrderId| #[trigger] e2.live_orders.contains_key(id) implies live_ok(e2, id)
        && e2.books.contains_key(e2.live_orders[id].order.instrument) by {
        assert(live_ok(e, id));
    }
    assert forall|inst: InstrumentId| #[trigger] e2.books.contains_key(inst) implies {
        &&& e2.books[inst].wf()
        &&& e2.books[inst].instrument == inst
        &&& holds_book(e2, inst, e2.books[inst])
    } by {
        assert(holds_book(e, inst, e.books[inst]));
    }
}

/// A submit keeps an engine consistent.
#[verifier::rlimit(40)]
pub proof fn lemma_submit_consistent(e: EngineModel, order: NewOrder)
    requires
        consistent(e),
        e.submit(order) is Some,
    ensures
        consistent(e.submit(order).unwrap().0),
{
    let inst = order.instrument;
    if e.live_orders.contains_key(order.id) {
        lemma_consistent_frame(e, e.submit(order).unwrap().0);
    } else {
        let snapshot = e.snapshot(inst);
        let (accounts, reserved) = crate::risk::reserve_outcome(e.accounts, order, snapshot);
        let e1 = EngineModel { accounts, ..e };
        lemma_consistent_frame(e, e1);
        match reserved {
            Err(reason) => {
                lemma_consistent_frame(e1, e.submit(order).unwrap().0);
            },
            Ok(r) => {
                let book = e.book_or_empty(inst);
                lemma_book_or_empty(e, inst);
                crate::book_laws::lemma_submit_outcome_wf(book, order);
                let (book2, events) = book.submit_outcome(order);
                let e2 = EngineModel { books: e.books.insert(inst, book2), ..e1 };
                let taker = LiveOrderState {
                    order,
                    remaining_qty: order.quantity,
                    arrival_sequence: 0,
                    reservation: r.reservation,
                };
                assert(holds_book(e2, inst, book));
                assert forall|id: OrderId| #[trigger] e2.live_orders.contains_key(id) implies live_ok(e2, id) by {
                    assert(live_ok(e, id));
                }
                lemma_submit_run(e2, order, taker, book);
                let e3 = e2.submit_effects(order, taker, events).unwrap();
                assert(e.submit(order).unwrap().0 == e3);
                assert forall|id: OrderId| #[trigger] e3.live_orders.contains_key(id) implies live_ok(e3, id)
                    && e3.books.contains_key(e3.live_orders[id].order.instrument) by {
                    assert(e3.books == e2.books);
                    if id != order.id {
                        assert(e2.live_orders.contains_key(id) && e3.live_orders[id].order == e2.live_orders[id].order);
                        assert(e.live_orders.contains_key(id));
                        assert(e.books.contains_key(e.live_orders[id].order.instrument));
                    }
                }
                assert forall|i: InstrumentId| #[trigger] e3.books.contains_key(i) implies {
                    &&& e3.books[i].wf()
                    &&& e3.books[i].instrument == i
                    &&& holds_book(e3, i, e3.books[i])
                } by {
                    if i != inst {
                        let bk = e.books[i];
                        assert(holds_book(e, i, bk));
                        assert forall|id: OrderId| #[trigger] bk.orders.contains_key(id) implies {
                            &&& e3.live_orders.contains_key(id)
                            &&& e3.live_orders[id].order.instrument == i
                            &&& bk.orders[id] == live_view(e3.live_orders[id])
                        } by {
                            assert(e.live_orders.contains_key(id));
                        }
                        assert forall|id: OrderId| #[trigger] e3.live_orders.contains_key(id) implies (
                        e3.live_orders[id].order.instrument == i ==> bk.orders.contains_key(id)) by {
                            if id != order.id {
                                assert(e2.live_orders.contains_key(id) && e3.live_orders[id].order == e2.live_orders[id].order);
                                assert(e.live_orders.contains_key(id));
                            }
                        }
                    }
                }
            },
        }
    }
}

/// A cancel keeps an engine consistent; the cancelled order is no longer live.
#[verifier::rlimit(40)]
pub proof fn lemma_cancel_consistent(e: EngineModel, id: OrderId)
    requires
        consistent(e),
        e.cancel(id) is Some,
    ensures
        consistent(e.cancel(id).unwrap().0),
        !e.cancel(id).unwrap().0.live_orders.contains_key(id),
{
    if !e.order_locations.contains_key(id) {
        lemma_consistent_frame(e, e.cancel(id).unwrap().0);
        assert(!e.live_orders.contains_key(id)) by {
            if e.live_orders.contains_key(id) {
                assert(live_ok(e, id));
            }
        }
    } else {
        let inst = e.order_locations[id];
        assert(e.live_orders.contains_key(id));
        assert(live_ok(e, id));
        let book = e.books[inst];
        assert(holds_book(e, inst, book));
        assert(book.orders.contains_key(id));
        crate::book_laws::lemma_cancel_outcome_wf(book, id);
        let (book2, events) = book.cancel_outcome(id);
        let e1 = EngineModel { books: e.books.insert(inst, book2), ..e };
        let o = book.orders[id];
        let c = Event::Cancelled { instrument: book.instrument, order_id: id, cancelled_qty: o.remaining_qty, sequence: book.next_sequence };
        let m1 = book.bump_sequence().remove_order(id);
        let l = m1.level_event(o.side, o.price, book.next_sequence);
        let t = m1.top_event(book.next_sequence);
        assert(events == seq![c, l, t]);
        assert(events[0] == c);
        assert(events.subrange(1, 3) =~= seq![l, t]);
        assert(seq![l, t][0] == l);
        assert(seq![l, t].subrange(1, 2) =~= seq![t]);
        assert(seq![t][0] == t);
        assert(seq![t].subrange(1, 1) =~= Seq::<Event>::empty());
        let e2 = e.cancel(id).unwrap().0;
        let live = e.live_orders[id];
        let (a, _r) = crate::risk::release_outcome(e1.accounts, live.order.account, inst, live.reservation);
        assert(e1.terminal_effect(c) == Some(EngineModel { accounts: a, ..e1.forget(id) }));
        let e3 = EngineModel { accounts: a, ..e1.forget(id) };
        assert(e3.terminal_effects(Seq::<Event>::empty()) == Some(e3));
        assert(e3.terminal_effect(t) == Some(e3));
        assert(e3.terminal_effects(seq![t]) == Some(e3));
        assert(e3.terminal_effect(l) == Some(e3));
        assert(e3.terminal_effects(seq![l, t]) == Some(e3));
        assert(e2 == e3);
        assert forall|x: OrderId| #[trigger] e2.live_orders.contains_key(x) implies live_ok(e2, x)
            && e2.books.contains_key(e2.live_orders[x].order.instrument) by {
            assert(live_ok(e, x));
        }
        assert forall|i: InstrumentId| #[trigger] e2.books.contains_key(i) implies {
            &&& e2.books[i].wf()
            &&& e2.books[i].instrument == i
            &&& holds_book(e2, i, e2.books[i])
        } by {
            let bk = e2.books[i];
            if i == inst {
                assert(bk.orders == book.orders.remove(id));
                assert forall|x: OrderId| #[trigger] bk.orders.contains_key(x) implies {
                    &&& e2.live_orders.contains_key(x)
                    &&& e2.live_orders[x].order.instrument == i
                    &&& bk.orders[x] == live_view(e2.live_orders[x])
                } by {
                    assert(book.orders.contains_key(x));
                }
                assert forall|x: OrderId| #[trigger] e2.live_orders.contains_key(x) implies (e2.live_orders[x].order.instrument
                    == i ==> bk.orders.contains_key(x)) by {
                    assert(e.live_orders.contains_key(x));
                }
            } else {
                assert(holds_book(e, i, bk));
                assert forall|x: OrderId| #[trigger] bk.orders.contains_key(x) implies {
                    &&& e2.live_orders.contains_key(x)
                    &&& e2.live_orders[x].order.instrument == i
                    &&& bk.orders[x] == live_view(e2.live_orders[x])
                } by {
                    assert(e.live_orders.contains_key(x));
                }
                assert forall|x: OrderId| #[trigger] e2.live_orders.contains_key(x) implies (e2.live_orders[x].order.instrument
                    == i ==> bk.orders.contains_key(x)) by {
                    assert(e.live_orders.contains_key(x));
                }
            }
        }
    }
}

/// A replace keeps an engine consistent.
pub proof fn lemma_replace_consistent(e: EngineModel, replace: ReplaceOrder)
    requires
        consistent(e),
        e.replace(replace) is Some,
    ensures
        consistent(e.replace(replace).unwrap().0),
{
    if !e.live_orders.contains_key(replace.order_id) || replace.new_quantity == 0 {
        lemma_consistent_frame(e, e.replace(replace).unwrap().0);
    } else {
        let existing = e.live_orders[replace.order_id];
        lemma_cancel_consistent(e, replace.order_id);
        let e1 = e.cancel(replace.order_id).unwrap().0;
        lemma_consistent_frame(e1, e1.bump());
        lemma_submit_consistent(e1.bump(), EngineModel::replacement(existing, replace));
    }
}

/// Every command keeps an engine consistent: its live orders stay exactly the orders resting
/// in its books.
pub proof fn law_commands_keep_engine_consistent(e: EngineModel, command: EngineCommand)
    requires
        consistent(e),
        e.apply(command) is Some,
    ensures
        consistent(e.apply(command).unwrap().0),
{
    match command {
        EngineCommand::Submit(order) => lemma_submit_consistent(e, order),
        EngineCommand::Cancel { order_id } => lemma_cancel_consistent(e, order_id),
        EngineCommand::Replace(r) => lemma_replace_consistent(e, r),
        EngineCommand::CreditCash { account_id, amount } => lemma_consistent_frame(e, e.apply(command).unwrap().0),
        EngineCommand::CreditPosition { .. } => lemma_consistent_frame(e, e.apply(command).unwrap().0),
    }
}

/// A new engine is consistent, and its books (it has none) are in arrival order.
pub proof fn law_new_engine_consistent()
    ensures
        consistent(
            EngineModel {
                books: Map::empty(),
                live_orders: Map::empty(),
                order_locations: Map::empty(),
                accounts: Map::empty(),
                next_global_sequence: 0,
            },
        ),
        books_in_arrival_order(
            EngineModel {
                books: Map::empty(),
                live_orders: Map::empty(),
                order_locations: Map::empty(),
                accounts: Map::empty(),
                next_global_sequence: 0,
            },
        ),
{
}

/// A submit that reuses the id of a live order is refused with `DuplicateOrderId`, and
/// nothing changes but the sequence.
pub proof fn law_duplicate_live_id_rejected(e: EngineModel, order: NewOrder)
    requires
        e.live_orders.contains_key(order.id),
        e.next_global_sequence < u64::MAX,
    ensures
        e.submit(order) == Some(
            (
                e.bump(),
                seq![
                    Event::Rejected {
                        instrument: Some(order.instrument),
                        order_id: order.id,
                        reason: crate::events::RejectReason::DuplicateOrderId,
                        sequence: e.next_global_sequence,
                    },
                ],
            ),
        ),
{
}

/// An order that its account cannot pay for or deliver is refused, and every account keeps
/// its cash, its reserved cash and each of its positions; the books and live orders do not
/// change.
pub proof fn law_risk_refusal_changes_no_balance(e: EngineModel, order: NewOrder)
    requires
        !e.live_orders.contains_key(order.id),
        crate::risk::reserve_outcome(e.accounts, order, e.snapshot(order.instrument)).1 is Err,
        e.submit(order) is Some,
    ensures
        forall|id: crate::types::AccountId| #[trigger] crate::risk::account_of(e.submit(order).unwrap().0.accounts, id).cash
            == crate::risk::account_of(e.accounts, id).cash,
        forall|id: crate::types::AccountId| #[trigger] crate::risk::account_of(
            e.submit(order).unwrap().0.accounts,
            id,
        ).reserved_cash == crate::risk::account_of(e.accounts, id).reserved_cash,
        forall|id: crate::types::AccountId, i: InstrumentId| #[trigger] crate::risk::account_of(
            e.submit(order).unwrap().0.accounts,
            id,
        ).position(i) == crate::risk::account_of(e.accounts, id).position(i),
        e.submit(order).unwrap().0.books == e.books,
        e.submit(order).unwrap().0.live_orders == e.live_orders,
        e.submit(order).unwrap().1[0] matches Event::Rejected { order_id, .. } && order_id == order.id,
{
    let snapshot = e.snapshot(order.instrument);
    let m2 = crate::risk::reserve_outcome(e.accounts, order, snapshot).0;
    assert(e.submit(order).unwrap().0.accounts == m2);
    let a = crate::risk::account_of(e.accounts, order.account);
    assert forall|id: crate::types::AccountId, i: InstrumentId| #[trigger] crate::risk::account_of(m2, id).position(i)
        == crate::risk::account_of(e.accounts, id).position(i) by {
        if id == order.account {
            match order.side {
                crate::types::Side::Bid => {},
                crate::types::Side::Ask => {
                    assert(a.with_position(order.instrument, a.position(order.instrument)).position(i) == a.position(i));
                },
            }
        }
    }
}

/// Every book of the engine keeps its orders in arrival order.
pub open spec fn books_in_arrival_order(e: EngineModel) -> bool {
    forall|inst: InstrumentId| #[trigger] e.books.contains_key(inst) ==> crate::arrival_order::arrival_ordered(
        e.books[inst],
    )
}

proof fn lemma_submit_in_arrival_order(e: EngineModel, order: NewOrder)
    requires
        consistent(e),
        books_in_arrival_order(e),
        e.submit(order) is Some,
    ensures
        books_in_arrival_order(e.submit(order).unwrap().0),
{
    let inst = order.instrument;
    let e3 = e.submit(order).unwrap().0;
    if !e.live_orders.contains_key(order.id) {
        let snapshot = e.snapshot(inst);
        let (accounts, reserved) = crate::risk::reserve_outcome(e.accounts, order, snapshot);
        if reserved is Ok {
            let book = e.book_or_empty(inst);
            lemma_book_or_empty(e, inst);
            crate::book_laws::lemma_submit_outcome_wf(book, order);
            let r = reserved->Ok_0;
            let taker = LiveOrderState {
                order,
                remaining_qty: order.quantity,
                arrival_sequence: 0,
                reservation: r.reservation,
            };
            let e2 = EngineModel { books: e.books.insert(inst, book.submit_outcome(order).0), accounts, ..e };
            lemma_run_effects(e2, order, taker, book.submit_outcome(order).1);
            let fin = e2.run(order, taker, book.submit_outcome(order).1);
            if let Some((e4, t4)) = fin {
                lemma_submit_run_books(e2, order, taker, book.submit_outcome(order).1);
                assert(e3.books == e2.books);
            }
            if !e.books.contains_key(inst) {
                assert(crate::arrival_order::arrival_ordered(book)) by {
                    assert(book.orders.dom() =~= Set::<OrderId>::empty());
                }
            }
            assert forall|i: InstrumentId| #[trigger] e3.books.contains_key(i) implies crate::arrival_order::arrival_ordered(
                e3.books[i],
            ) by {
                if i != inst {
                    assert(e.books.contains_key(i));
                }
            }
        }
    }
}

/// The effects of any events leave the books alone.
pub proof fn lemma_submit_run_books(e: EngineModel, order: NewOrder, taker: LiveOrderState, events: Seq<Event>)
    ensures
        e.run(order, taker, events) matches Some((e2, _)) ==> e2.books == e.books,
    decreases events.len(),
{
    if events.len() > 0 {
        if let Some((e1, t1)) = e.submit_effect(order, taker, events[0]) {
            lemma_submit_run_books(e1, order, t1, events.subrange(1, events.len() as int));
        }
    }
}

proof fn lemma_cancel_in_arrival_order(e: EngineModel, id: OrderId)
    requires
        consistent(e),
        books_in_arrival_order(e),
        e.cancel(id) is Some,
    ensures
        books_in_arrival_order(e.cancel(id).unwrap().0),
{
    let e2 = e.cancel(id).unwrap().0;
    if e.order_locations.contains_key(id) {
        let inst = e.order_locations[id];
        let book = e.books[inst];
        crate::book_laws::lemma_cancel_outcome_wf(book, id);
        let (book2, events) = book.cancel_outcome(id);
        let e1 = EngineModel { books: e.books.insert(inst, book2), ..e };
        lemma_terminal_books(e1, events);
        assert forall|i: InstrumentId| #[trigger] e2.books.contains_key(i) implies crate::arrival_order::arrival_ordered(
            e2.books[i],
        ) by {
            if i != inst {
                assert(e.books.contains_key(i));
            }
        }
    }
}

/// The effects of the events of a cancel leave the books alone.
pub proof fn lemma_terminal_books(e: EngineModel, events: Seq<Event>)
    ensures
        e.terminal_effects(events) matches Some(e2) ==> e2.books == e.books,
    decreases events.len(),
{
    if events.len() > 0 {
        if let Some(e1) = e.terminal_effect(events[0]) {
            lemma_terminal_books(e1, events.subrange(1, events.len() as int));
        }
    }
}

/// Every command keeps every book of a consistent engine in arrival order: within each
/// level, time priority stays arrival order.
pub proof fn law_commands_keep_arrival_order(e: EngineModel, command: EngineCommand)
    requires
        consistent(e),
        books_in_arrival_order(e),
        e.apply(command) is Some,
    ensures
        books_in_arrival_order(e.apply(command).unwrap().0),
{
    match command {
        EngineCommand::Submit(order) => lemma_submit_in_arrival_order(e, order),
        EngineCommand::Cancel { order_id } => lemma_cancel_in_arrival_order(e, order_id),
        EngineCommand::Replace(r) => {
            if e.live_orders.contains_key(r.order_id) && r.new_quantity != 0 {
                let existing = e.live_orders[r.order_id];
                lemma_cancel_consistent(e, r.order_id);
                lemma_cancel_in_arrival_order(e, r.order_id);
                let e1 = e.cancel(r.order_id).unwrap().0;
                lemma_consistent_frame(e1, e1.bump());
                lemma_submit_in_arrival_order(e1.bump(), EngineModel::replacement(existing, r));
            }
        },
        _ => {},
    }
}

/// Instruments are independent: a submit changes no book but the one of its instrument.
pub proof fn law_submit_touches_only_its_book(e: EngineModel, order: NewOrder)
    requires
        e.submit(order) is Some,
    ensures
        forall|i: InstrumentId| i != order.instrument ==> (#[trigger] e.submit(order).unwrap().0.books.contains_key(i)
            <==> e.books.contains_key(i)) && e.submit(order).unwrap().0.books[i] == e.books[i],
{
    let inst = order.instrument;
    if !e.live_orders.contains_key(order.id) {
        let snapshot = e.snapshot(inst);
        let (accounts, reserved) = crate::risk::reserve_outcome(e.accounts, order, snapshot);
        if reserved is Ok {
            let book = e.book_or_empty(inst);
            let r = reserved->Ok_0;
            let taker = LiveOrderState {
                order,
                remaining_qty: order.quantity,
                arrival_sequence: 0,
                reservation: r.reservation,
            };
            let e2 = EngineModel { books: e.books.insert(inst, book.submit_outcome(order).0), accounts, ..e };
            lemma_run_effects(e2, order, taker, book.submit_outcome(order).1);
            lemma_submit_run_books(e2, order, taker, book.submit_outcome(order).1);
        }
    }
}

/// The engine after a sequence of commands, from `e`; `None` where one of them overflows.
pub open spec fn apply_all(e: EngineModel, commands: Seq<EngineCommand>) -> Option<EngineModel>
    decreases commands.len(),
{
    if commands.len() == 0 {
        Some(e)
    } else {
        match e.apply(commands[0]) {
            None => None,
            Some((e1, _)) => apply_all(e1, commands.subrange(1, commands.len() as int)),
        }
    }
}

/// A new engine.
pub open spec fn new_engine() -> EngineModel {
    EngineModel {
        books: Map::empty(),
        live_orders: Map::empty(),
        order_locations: Map::empty(),
        accounts: Map::empty(),
        next_global_sequence: 0,
    }
}

/// Every engine reached from a consistent engine in arrival order by commands is consistent
/// and in arrival order; in particular every engine reached from a new one.
pub proof fn law_reachable_engines_are_consistent(e: EngineModel, commands: Seq<EngineCommand>)
    requires
        consistent(e),
        books_in_arrival_order(e),
        apply_all(e, commands) is Some,
    ensures
        consistent(apply_all(e, commands).unwrap()),
        books_in_arrival_order(apply_all(e, commands).unwrap()),
    decreases commands.len(),
{
    if commands.len() > 0 {
        law_commands_keep_engine_consistent(e, commands[0]);
        law_commands_keep_arrival_order(e, commands[0]);
        let e1 = e.apply(commands[0]).unwrap().0;
        law_reachable_engines_are_consistent(e1, commands.subrange(1, commands.len() as int));
    }
}

/// The engine is deterministic: the same commands from the same engine give the same
/// engine and, at each step, the same events; so two engines built by the same commands
/// answer the next command alike.
pub proof fn law_engine_is_deterministic(e1: EngineModel, e2: EngineModel, commands: Seq<EngineCommand>, next: EngineCommand)
    requires
        e1 == e2,
    ensures
        apply_all(e1, commands) == apply_all(e2, commands),
        apply_all(e1, commands) matches Some(a) ==> a.apply(next) == apply_all(e2, commands).unwrap().apply(next),
{
}

/// The book an engine holds for an instrument, or an empty one, is well-formed and holds
/// exactly the live orders of the instrument.
pub proof fn lemma_book_or_empty_pub(e: EngineModel, inst: InstrumentId)
    requires
        consistent(e),
    ensures
        e.book_or_empty(inst).wf(),
        e.book_or_empty(inst).instrument == inst,
        holds_book(e, inst, e.book_or_empty(inst)),
{
    lemma_book_or_empty(e, inst);
}

/// An engine that only changes its accounts or its sequence stays consistent.
pub proof fn lemma_consistent_frame_pub(e: EngineModel, e2: EngineModel)
    requires
        consistent(e),
        e2.books == e.books,
        e2.live_orders == e.live_orders,
        e2.order_locations == e.order_locations,
    ensures
        consistent(e2),
{
    lemma_consistent_frame(e, e2);
}


} // verus!
