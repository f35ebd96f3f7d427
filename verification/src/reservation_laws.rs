use vstd::prelude::*;

use crate::book_model::{lemma_remove_order_wf, lemma_set_remaining_wf, BookModel};
use crate::book_laws::lemma_key_extremes;
use crate::engine::LiveOrderState;
use crate::engine_laws::{holds_book, live_ok, run_keeps};
use crate::engine_model::EngineModel;
use crate::events::Event;
use crate::types::{EngineCommand, InstrumentId, NewOrder, OrderId, Quantity, Sequence};
use crate::engine_laws::consistent;

verus! {

/// What a live order (or the order being submitted) still has reserved matches what is
/// left of it: a sell reserves its remaining quantity; a buy whose price times its quantity
/// fits a `u64` reserves its price times its remaining quantity, at its price.
pub open spec fn reservation_matches(l: LiveOrderState) -> bool {
    &&& l.remaining_qty <= l.order.quantity
    &&& match l.order.side {
        crate::types::Side::Bid => (l.order.price matches Some(p) && p * l.order.quantity <= u64::MAX) ==> l.reservation
            == (crate::risk::Reservation::BuyCash {
            limit_price: l.order.price.unwrap(),
            reserved_cash: (l.order.price.unwrap() * l.remaining_qty) as u64,
        }),
        crate::types::Side::Ask => l.reservation == (crate::risk::Reservation::SellPosition {
            reserved_qty: l.remaining_qty,
        }),
    }
}

/// Every live order's reservation matches what is left of it.
pub open spec fn reservations_match(e: EngineModel) -> bool {
    forall|id: OrderId| #[trigger] e.live_orders.contains_key(id) ==> reservation_matches(e.live_orders[id])
}

/// A trade of `quantity` out of what is left of an order keeps its reservation matching.
proof fn lemma_trade_keeps_reservation(
    accounts: Map<crate::types::AccountId, crate::risk::AccountView>,
    l: LiveOrderState,
    instrument: InstrumentId,
    price: u64,
    quantity: Quantity,
)
    requires
        reservation_matches(l),
        quantity <= l.remaining_qty,
    ensures
        reservation_matches(
            LiveOrderState {
                reservation: crate::risk::trade_outcome(
                    accounts,
                    l.order.account,
                    instrument,
                    l.order.side,
                    price,
                    quantity,
                    l.reservation,
                ).1,
                remaining_qty: (l.remaining_qty - quantity) as u64,
                ..l
            },
        ),
{
    if l.order.side is Bid && l.order.price is Some {
        let p = l.order.price.unwrap();
        if p * l.order.quantity <= u64::MAX {
            let rem = l.remaining_qty;
            assert(p * quantity <= p * rem && p * rem <= p * l.order.quantity && p * (rem - quantity) == p * rem - p
                * quantity) by (nonlinear_arith)
                requires
                    quantity <= rem,
                    rem <= l.order.quantity,
            ;
        }
    }
}

/// One trade settles the taker and a live maker, keeping every reservation matching.
proof fn lemma_trade_reservations(
    e: EngineModel,
    order: NewOrder,
    taker: LiveOrderState,
    id: OrderId,
    trade: Event,
    quantity: Quantity,
)
    requires
        reservations_match(e),
        reservation_matches(taker),
        taker.order == order,
        id != order.id,
        e.live_orders.contains_key(id),
        quantity <= e.live_orders[id].remaining_qty,
        quantity <= taker.remaining_qty,
        trade matches Event::Trade {
            maker_order_id,
            taker_order_id,
            quantity: q,
            maker_remaining,
            taker_remaining,
            ..
        } && maker_order_id == id && taker_order_id == order.id && q == quantity && maker_remaining
            == e.live_orders[id].remaining_qty - quantity && taker_remaining == taker.remaining_qty - quantity,
    ensures
        match e.submit_effect(order, taker, trade) {
            None => true,
            Some((e1, t1)) => reservations_match(e1) && reservation_matches(t1) && t1.remaining_qty
                == taker.remaining_qty - quantity,
        },
{
    if let Event::Trade { instrument, price, .. } = trade {
        lemma_trade_keeps_reservation(e.accounts, taker, instrument, price, quantity);
        if let Some((e1, t1)) = e.submit_effect(order, taker, trade) {
            let maker = e.live_orders[id];
            assert(reservation_matches(maker));
            let e0 = EngineModel {
                accounts: crate::risk::trade_outcome(
                    e.accounts,
                    order.account,
                    instrument,
                    order.side,
                    price,
                    quantity,
                    taker.reservation,
                ).0,
                ..e
            };
            lemma_trade_keeps_reservation(e0.accounts, maker, instrument, price, quantity);
            assert forall|x: OrderId| #[trigger] e1.live_orders.contains_key(x) implies reservation_matches(
                e1.live_orders[x],
            ) by {
                if x != id {
                    assert(e.live_orders.contains_key(x));
                }
            }
        }
    }
}

/// The effects of the events of matching keep every reservation matching, the taker's
/// included, and leave the taker with what matching left of it.
#[verifier::rlimit(40)]
pub proof fn lemma_match_run_reservations(
    e: EngineModel,
    order: NewOrder,
    taker: LiveOrderState,
    m: BookModel,
    remaining: Quantity,
    sequence: Sequence,
)
    requires
        m.wf(),
        m.instrument == order.instrument,
        holds_book(e, order.instrument, m),
        forall|id: OrderId| #[trigger] e.live_orders.contains_key(id) ==> live_ok(e, id),
        forall|id: OrderId| #[trigger] e.order_locations.contains_key(id) ==> e.live_orders.contains_key(id),
        !m.orders.contains_key(order.id),
        !e.live_orders.contains_key(order.id),
        taker.order == order,
        taker.remaining_qty == remaining,
        reservations_match(e),
        reservation_matches(taker),
    ensures
        match e.run(order, taker, m.match_taker(order, remaining, sequence).2) {
            None => true,
            Some((e2, t2)) => reservations_match(e2) && reservation_matches(t2) && t2.remaining_qty == m.match_taker(
                order,
                remaining,
                sequence,
            ).1,
        },
    decreases remaining, m.orders.dom().len(),
{
    let opp = order.side.opposite();
    let r = m.match_taker(order, remaining, sequence);
    crate::book_model::lemma_levels_finite(m, opp);
    lemma_key_extremes(m.bids.dom());
    lemma_key_extremes(m.asks.dom());
    if remaining == 0 || m.best_price(opp) is None {
        assert(r.2.len() == 0);
        assert(e.run(order, taker, r.2) == Some((e, taker)));
    } else {
        let p = m.best_price(opp).unwrap();
        assert(m.levels(opp).contains_key(p));
        assert(m.side_wf(opp));
        assert(m.level_wf(opp, p));
        let q = m.levels(opp)[p];
        assert(q.len() > 0);
        assert(m.orders.contains_key(q[0]));
        if !crate::book_model::crosses(order, p) {
            assert(r.2.len() == 0);
            assert(e.run(order, taker, r.2) == Some((e, taker)));
        } else {
            let maker = m.orders[q[0]];
            let traded_now = if remaining <= maker.remaining_qty { remaining } else { maker.remaining_qty };
            let maker_left = (maker.remaining_qty - traded_now) as u64;
            let taker_left = (remaining - traded_now) as u64;
            let after = m.set_remaining(q[0], maker_left);
            lemma_set_remaining_wf(m, q[0], maker_left);
            let trade = Event::Trade {
                instrument: m.instrument,
                maker_order_id: maker.order_id,
                taker_order_id: order.id,
                side: order.side,
                price: maker.price,
                quantity: traded_now,
                maker_remaining: maker_left,
                taker_remaining: taker_left,
                sequence,
            };
            let level = after.level_event(opp, p, sequence);
            assert(maker.order_id == q[0]);
            assert(e.live_orders.contains_key(q[0]));
            assert(maker == crate::engine_laws::live_view(e.live_orders[q[0]]));
            crate::engine_laws::lemma_trade_effect(e, order, taker, m, q[0], trade, maker_left);
            lemma_trade_reservations(e, order, taker, q[0], trade, traded_now);
            let head2 = seq![trade, level];
            crate::engine_laws::lemma_run_two(e, order, taker, trade, level);
            if maker_left == 0 {
                let filled = Event::Filled { instrument: m.instrument, order_id: maker.order_id, sequence };
                let next = after.remove_order(q[0]);
                let r2 = next.match_taker(order, taker_left, sequence);
                assert(r.2 == head2.push(filled) + r2.2);
                crate::engine_laws::lemma_run_concat(e, order, taker, head2.push(filled), r2.2);
                crate::engine_laws::lemma_run_concat(e, order, taker, head2, seq![filled]);
                assert(head2 + seq![filled] =~= head2.push(filled));
                match e.submit_effect(order, taker, trade) {
                    None => {},
                    Some((e1, t1)) => {
                        assert(e1.submit_effect(order, t1, level) == Some((e1, t1)));
                        assert(e.run(order, taker, head2) == Some((e1, t1)));
                        crate::engine_laws::lemma_filled_effect(e1, order, t1, after, q[0]);
                        crate::engine_laws::lemma_run_one(e1, order, t1, filled);
                        let e3 = e1.forget(q[0]);
                        assert(e1.submit_effect(order, t1, filled) == Some((e3, t1)));
                        assert(e1.run(order, t1, seq![filled]) == Some((e3, t1)));
                        assert forall|x: OrderId| #[trigger] e3.live_orders.contains_key(x) implies reservation_matches(
                            e3.live_orders[x],
                        ) by {
                            assert(e1.live_orders.contains_key(x));
                        }
                        lemma_remove_order_wf(after, q[0]);
                        assert(next.orders.dom() =~= m.orders.dom().remove(q[0]));
                        lemma_match_run_reservations(e3, order, t1, next, taker_left, sequence);
                    },
                }
            } else {
                assert(r.2 == head2);
                match e.submit_effect(order, taker, trade) {
                    None => {},
                    Some((e1, t1)) => {
                        assert(e1.submit_effect(order, t1, level) == Some((e1, t1)));
                        assert(e.run(order, taker, head2) == Some((e1, t1)));
                    },
                }
            }
        }
    }
}

/// Events after matching that do not make the taker live leave the live orders alone.
proof fn lemma_quiet_tail(e4: EngineModel, order: NewOrder, t4: LiveOrderState, a: Event, b: Event)
    requires
        reservations_match(e4),
        a is Filled || a is Cancelled,
        b is BestBidAskUpdated,
    ensures
        e4.run(order, t4, seq![a, b]) matches Some((e5, _)) ==> reservations_match(e5),
{
    crate::engine_laws::lemma_run_two(e4, order, t4, a, b);
    if let Some((e5, t5)) = e4.submit_effect(order, t4, a) {
        if a is Filled {
            if a->Filled_order_id != order.id {
                assert(e5 == e4.forget(a->Filled_order_id));
            }
        }
        assert(forall|x: OrderId| #[trigger] e5.live_orders.contains_key(x) ==> e4.live_orders.contains_key(x)
            && e5.live_orders[x] == e4.live_orders[x]);
        assert(e5.submit_effect(order, t5, b) == Some((e5, t5)));
        assert forall|x: OrderId| #[trigger] e5.live_orders.contains_key(x) implies reservation_matches(e5.live_orders[x]) by {
            assert(e4.live_orders.contains_key(x));
        }
    }
}

/// Resting the taker makes it live with its reservation, which matches.
proof fn lemma_rest_tail_reservations(
    e4: EngineModel,
    order: NewOrder,
    t4: LiveOrderState,
    rested: Event,
    lev: Event,
    top: Event,
    left: Quantity,
)
    requires
        reservations_match(e4),
        reservation_matches(t4),
        t4.remaining_qty == left,
        rested matches Event::Rested { order_id, remaining, .. } && order_id == order.id && remaining == left,
        lev is LevelUpdated,
        top is BestBidAskUpdated,
    ensures
        e4.run(order, t4, seq![rested, lev, top]) matches Some((e5, _)) ==> reservations_match(e5),
{
    crate::engine_laws::lemma_run_three(e4, order, t4, rested, lev, top);
    if let Some((e5, tt)) = e4.submit_effect(order, t4, rested) {
        assert(tt.remaining_qty == left);
        assert(reservation_matches(tt));
        assert(e5.live_orders == e4.live_orders.insert(order.id, tt));
        crate::engine_laws::lemma_run_two(e5, order, tt, lev, top);
        assert(e5.run(order, tt, seq![lev, top]) == Some((e5, tt)));
        assert forall|x: OrderId| #[trigger] e5.live_orders.contains_key(x) implies reservation_matches(e5.live_orders[x]) by {
            if x != order.id {
                assert(e4.live_orders.contains_key(x));
            }
        }
    }
}

/// The effects of the events of a submit to book `m` keep every reservation matching.
#[verifier::rlimit(40)]
proof fn lemma_submit_reservations(e: EngineModel, order: NewOrder, taker: LiveOrderState, m: BookModel)
    requires
        m.wf(),
        m.instrument == order.instrument,
        holds_book(e, order.instrument, m),
        forall|id: OrderId| #[trigger] e.live_orders.contains_key(id) ==> live_ok(e, id),
        forall|id: OrderId| #[trigger] e.order_locations.contains_key(id) ==> e.live_orders.contains_key(id),
        !e.live_orders.contains_key(order.id),
        taker.order == order,
        taker.remaining_qty == order.quantity,
        reservations_match(e),
        reservation_matches(taker),
    ensures
        e.submit_effects(order, taker, m.submit_outcome(order).1) matches Some(e3) ==> reservations_match(e3),
{
    let sq = m.next_sequence;
    let m0 = m.bump_sequence();
    crate::book_laws::lemma_bumped_wf(m);
    let events = m.submit_outcome(order).1;
    crate::engine_laws::lemma_run_effects(e, order, taker, events);
    assert(holds_book(e, order.instrument, m0));
    if let Some(reason) = m.validation_error(order) {
        let rej = Event::Rejected { instrument: Some(m.instrument), order_id: order.id, reason, sequence: sq };
        assert(events == seq![rej]);
        crate::engine_laws::lemma_run_one(e, order, taker, rej);
        if let Some((e3, t3)) = e.submit_effect(order, taker, rej) {
            assert(e3.live_orders == e.live_orders);
            assert forall|x: OrderId| #[trigger] e3.live_orders.contains_key(x) implies reservation_matches(
                e3.live_orders[x],
            ) by {
                assert(e.live_orders.contains_key(x));
            }
        }
    } else {
        assert(!m.orders.contains_key(order.id));
        let acc = seq![Event::Accepted { instrument: m.instrument, order_id: order.id, sequence: sq }];
        let (m1, left, t) = m0.match_taker(order, order.quantity, sq);
        lemma_match_run_reservations(e, order, taker, m0, order.quantity, sq);
        crate::engine_laws::lemma_run_one(e, order, taker, acc[0]);
        assert(acc =~= seq![acc[0]]);
        assert(e.run(order, taker, acc) == Some((e, taker)));
        crate::engine_laws::lemma_run_concat(e, order, taker, acc, t);
        let tail = if left == 0 {
            seq![Event::Filled { instrument: m.instrument, order_id: order.id, sequence: sq }, m1.top_event(sq)]
        } else if BookModel::rests(order) {
            let m2 = m1.add_resting(m.resting_of(order, left, sq));
            seq![
                Event::Rested {
                    instrument: m.instrument,
                    order_id: order.id,
                    side: order.side,
                    price: order.price.unwrap(),
                    remaining: left,
                    sequence: sq,
                },
                m2.level_event(order.side, order.price.unwrap(), sq),
                m2.top_event(sq),
            ]
        } else {
            seq![
                Event::Cancelled { instrument: m.instrument, order_id: order.id, cancelled_qty: left, sequence: sq },
                m1.top_event(sq),
            ]
        };
        assert(events == acc + t + tail);
        crate::engine_laws::lemma_run_concat(e, order, taker, acc + t, tail);
        if let Some((e4, t4)) = e.run(order, taker, t) {
            if left == 0 {
                lemma_quiet_tail(e4, order, t4, tail[0], tail[1]);
                assert(tail == seq![tail[0], tail[1]]);
            } else if BookModel::rests(order) {
                lemma_rest_tail_reservations(e4, order, t4, tail[0], tail[1], tail[2], left);
                assert(tail == seq![tail[0], tail[1], tail[2]]);
            } else {
                lemma_quiet_tail(e4, order, t4, tail[0], tail[1]);
                assert(tail == seq![tail[0], tail[1]]);
            }
        }
    }
}

/// The effects of the events of a cancel only forget live orders.
proof fn lemma_terminal_live(e: EngineModel, events: Seq<Event>)
    ensures
        e.terminal_effects(events) matches Some(e2) ==> forall|x: OrderId| #[trigger] e2.live_orders.contains_key(x)
            ==> e.live_orders.contains_key(x) && e2.live_orders[x] == e.live_orders[x],
    decreases events.len(),
{
    if events.len() > 0 {
        if let Some(e1) = e.terminal_effect(events[0]) {
            lemma_terminal_live(e1, events.subrange(1, events.len() as int));
        }
    }
}

proof fn lemma_submit_keeps_reservations(e: EngineModel, order: NewOrder)
    requires
        consistent(e),
        reservations_match(e),
        e.submit(order) is Some,
    ensures
        reservations_match(e.submit(order).unwrap().0),
{
    let inst = order.instrument;
    if !e.live_orders.contains_key(order.id) {
        let snapshot = e.snapshot(inst);
        let (accounts, reserved) = crate::risk::reserve_outcome(e.accounts, order, snapshot);
        if reserved is Ok {
            let book = e.book_or_empty(inst);
            crate::engine_laws::lemma_book_or_empty_pub(e, inst);
            let r = reserved->Ok_0;
            let taker = LiveOrderState {
                order,
                remaining_qty: order.quantity,
                arrival_sequence: 0,
                reservation: r.reservation,
            };
            let e2 = EngineModel { books: e.books.insert(inst, book.submit_outcome(order).0), accounts, ..e };
            assert forall|id: OrderId| #[trigger] e2.live_orders.contains_key(id) implies live_ok(e2, id) by {
                assert(live_ok(e, id));
            }
            assert(holds_book(e2, inst, book));
            if order.side is Bid && order.price is Some {
                let p = order.price.unwrap();
                assert(crate::risk::buy_limit(order, snapshot) == p);
            }
            assert(reservation_matches(taker));
            lemma_submit_reservations(e2, order, taker, book);
        }
    }
}

/// Every command keeps each live order's reservation matching what is left of it: a sell
/// has its remaining quantity reserved, and a buy whose price times quantity fits a `u64`
/// has its price times its remaining quantity reserved, at its price.
pub proof fn law_commands_keep_reservations(e: EngineModel, command: EngineCommand)
    requires
        consistent(e),
        reservations_match(e),
        e.apply(command) is Some,
    ensures
        reservations_match(e.apply(command).unwrap().0),
{
    match command {
        EngineCommand::Submit(order) => lemma_submit_keeps_reservations(e, order),
        EngineCommand::Cancel { order_id } => lemma_cancel_keeps_reservations(e, order_id),
        EngineCommand::Replace(r) => {
            if e.live_orders.contains_key(r.order_id) && r.new_quantity != 0 {
                let existing = e.live_orders[r.order_id];
                crate::engine_laws::law_commands_keep_engine_consistent(e, EngineCommand::Cancel { order_id: r.order_id });
                lemma_cancel_keeps_reservations(e, r.order_id);
                let e1 = e.cancel(r.order_id).unwrap().0;
                crate::engine_laws::law_commands_keep_engine_consistent(
                    e1,
                    EngineCommand::CreditCash { account_id: 0, amount: 0 },
                );
                assert(consistent(e1.bump())) by {
                    crate::engine_laws::lemma_consistent_frame_pub(e1, e1.bump());
                }
                lemma_submit_keeps_reservations(e1.bump(), EngineModel::replacement(existing, r));
            }
        },
        _ => {},
    }
}

proof fn lemma_cancel_keeps_reservations(e: EngineModel, id: OrderId)
    requires
        reservations_match(e),
        e.cancel(id) is Some,
    ensures
        reservations_match(e.cancel(id).unwrap().0),
{
    if e.order_locations.contains_key(id) {
        let inst = e.order_locations[id];
        let (book2, events) = e.books[inst].cancel_outcome(id);
        let e1 = EngineModel { books: e.books.insert(inst, book2), ..e };
        lemma_terminal_live(e1, events);
    }
}

/// Every live order of an engine reached from a new one by commands has its reservation
/// matching what is left of it.
pub proof fn law_reachable_reservations_match(commands: Seq<EngineCommand>)
    requires
        crate::engine_laws::apply_all(crate::engine_laws::new_engine(), commands) is Some,
    ensures
        reservations_match(crate::engine_laws::apply_all(crate::engine_laws::new_engine(), commands).unwrap()),
{
    lemma_reachable_reservations(crate::engine_laws::new_engine(), commands);
}

proof fn lemma_reachable_reservations(e: EngineModel, commands: Seq<EngineCommand>)
    requires
        consistent(e),
        reservations_match(e),
        crate::engine_laws::apply_all(e, commands) is Some,
    ensures
        reservations_match(crate::engine_laws::apply_all(e, commands).unwrap()),
    decreases commands.len(),
{
    if commands.len() > 0 {
        law_commands_keep_reservations(e, commands[0]);
        crate::engine_laws::law_commands_keep_engine_consistent(e, commands[0]);
        let e1 = e.apply(commands[0]).unwrap().0;
        lemma_reachable_reservations(e1, commands.subrange(1, commands.len() as int));
    }
}

} // verus!
