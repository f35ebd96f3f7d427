use vstd::prelude::*;

use crate::book::RestingOrder;
use crate::book_model::{lemma_sum_agree, BookModel};
use crate::engine::{EngineState, LiveOrderState};
use crate::engine_laws::{
    books_in_arrival_order, consistent, law_commands_keep_engine_consistent, lemma_book_or_empty_pub, lemma_cancel_consistent, lemma_consistent_frame_pub,
};
use crate::persistence::{recovered_store, replay, CommandRecord, SnapshotRecord};
use crate::engine_model::sort_live;
use crate::recovery_laws::{exports, law_export_then_rebuild, snapshot_lives};
use crate::engine_model::EngineModel;
use crate::risk::{accounts_view, reserve_outcome};
use crate::events::Event;
use crate::types::{EngineCommand, InstrumentId, NewOrder, OrderId, Price, Quantity, ReplaceOrder, Sequence, Side};

verus! {

/// Two records of a resting order that differ at most in their arrival sequence.
pub open spec fn orders_alike(a: RestingOrder, b: RestingOrder) -> bool {
    RestingOrder { arrival_sequence: 0, ..a } == RestingOrder { arrival_sequence: 0, ..b }
}

/// Two books that hold the same orders in the same queues, differing at most in the
/// orders' arrival sequences and in the next sequence number.
pub open spec fn books_alike(m1: BookModel, m2: BookModel) -> bool {
    &&& m1.instrument == m2.instrument
    &&& m1.bids == m2.bids
    &&& m1.asks == m2.asks
    &&& m1.orders.dom() == m2.orders.dom()
    &&& forall|id: OrderId| #[trigger] m1.orders.contains_key(id) ==> orders_alike(m1.orders[id], m2.orders[id])
}

/// An event with its sequence number set to `s`.
pub open spec fn with_sequence(e: Event, s: Sequence) -> Event {
    match e {
        Event::Accepted { instrument, order_id, .. } => Event::Accepted { instrument, order_id, sequence: s },
        Event::Rejected { instrument, order_id, reason, .. } => Event::Rejected {
            instrument,
            order_id,
            reason,
            sequence: s,
        },
        Event::Trade {
            instrument,
            maker_order_id,
            taker_order_id,
            side,
            price,
            quantity,
            maker_remaining,
            taker_remaining,
            ..
        } => Event::Trade {
            instrument,
            maker_order_id,
            taker_order_id,
            side,
            price,
            quantity,
            maker_remaining,
            taker_remaining,
            sequence: s,
        },
        Event::Rested { instrument, order_id, side, price, remaining, .. } => Event::Rested {
            instrument,
            order_id,
            side,
            price,
            remaining,
            sequence: s,
        },
        Event::Filled { instrument, order_id, .. } => Event::Filled { instrument, order_id, sequence: s },
        Event::Cancelled { instrument, order_id, cancelled_qty, .. } => Event::Cancelled {
            instrument,
            order_id,
            cancelled_qty,
            sequence: s,
        },
        Event::Replaced { instrument, order_id, old_price, new_price, old_remaining, new_quantity, .. } => {
            Event::Replaced { instrument, order_id, old_price, new_price, old_remaining, new_quantity, sequence: s }
        },
        Event::LevelUpdated { instrument, side, price, total_qty, order_count, .. } => Event::LevelUpdated {
            instrument,
            side,
            price,
            total_qty,
            order_count,
            sequence: s,
        },
        Event::BestBidAskUpdated { instrument, best_bid, best_ask, .. } => Event::BestBidAskUpdated {
            instrument,
            best_bid,
            best_ask,
            sequence: s,
        },
        Event::CashCredited { account_id, amount, new_cash_balance, .. } => Event::CashCredited {
            account_id,
            amount,
            new_cash_balance,
            sequence: s,
        },
        Event::PositionCredited { account_id, instrument, quantity, new_position, .. } => Event::PositionCredited {
            account_id,
            instrument,
            quantity,
            new_position,
            sequence: s,
        },
    }
}

/// Two events that differ at most in their sequence number.
pub open spec fn events_alike(a: Event, b: Event) -> bool {
    with_sequence(a, 0) == with_sequence(b, 0)
}

/// Two sequences of events that differ at most in their sequence numbers.
pub open spec fn seqs_alike(a: Seq<Event>, b: Seq<Event>) -> bool {
    &&& a.len() == b.len()
    &&& forall|i: int| 0 <= i < a.len() ==> events_alike(#[trigger] a[i], b[i])
}

/// Alike books have the same level totals and counts.
pub proof fn lemma_alike_levels(m1: BookModel, m2: BookModel, side: Side, p: Price)
    requires
        books_alike(m1, m2),
        m1.wf(),
    ensures
        m1.level_total(side, p) == m2.level_total(side, p),
        m1.level_count(side, p) == m2.level_count(side, p),
        m1.best_price(side) == m2.best_price(side),
{
    assert(m1.levels(side) == m2.levels(side));
    if m1.levels(side).contains_key(p) {
        let q = m1.levels(side)[p];
        assert(m1.side_wf(side));
        assert(m1.level_wf(side, p));
        assert forall|i: int| 0 <= i < q.len() implies (#[trigger] m1.orders[q[i]]).remaining_qty
            == m2.orders[q[i]].remaining_qty by {
            assert(m1.orders.contains_key(q[i]));
            assert(orders_alike(m1.orders[q[i]], m2.orders[q[i]]));
            assert(RestingOrder { arrival_sequence: 0, ..m1.orders[q[i]] }.remaining_qty == m1.orders[q[i]].remaining_qty);
        }
        lemma_sum_agree(m1.orders, m2.orders, q);
    }
}

/// Alike books show the same top of the book.
pub proof fn lemma_alike_snapshot(m1: BookModel, m2: BookModel)
    requires
        books_alike(m1, m2),
        m1.wf(),
    ensures
        m1.snapshot() == m2.snapshot(),
{
    lemma_alike_levels(m1, m2, Side::Bid, 0);
    lemma_alike_levels(m1, m2, Side::Ask, 0);
    if let Some(p) = m1.best_price(Side::Bid) {
        lemma_alike_levels(m1, m2, Side::Bid, p);
    }
    if let Some(p) = m1.best_price(Side::Ask) {
        lemma_alike_levels(m1, m2, Side::Ask, p);
    }
}

/// Lowering a remaining quantity, or taking an order out, keeps books alike.
pub proof fn lemma_alike_steps(m1: BookModel, m2: BookModel, id: OrderId, r: Quantity)
    requires
        books_alike(m1, m2),
        m1.orders.contains_key(id),
    ensures
        books_alike(m1.set_remaining(id, r), m2.set_remaining(id, r)),
        books_alike(m1.remove_order(id), m2.remove_order(id)),
{
    assert(orders_alike(m1.orders[id], m2.orders[id]));
    let a = m1.orders[id];
    let b = m2.orders[id];
    assert(RestingOrder { arrival_sequence: 0, ..a }.side == a.side);
    assert(RestingOrder { arrival_sequence: 0, ..b }.side == b.side);
    assert(a.side == b.side && a.price == b.price);
    let s1 = m1.set_remaining(id, r);
    let s2 = m2.set_remaining(id, r);
    assert(s1.orders.dom() =~= s2.orders.dom());
    assert forall|x: OrderId| #[trigger] s1.orders.contains_key(x) implies orders_alike(s1.orders[x], s2.orders[x]) by {
        if x != id {
            assert(orders_alike(m1.orders[x], m2.orders[x]));
        }
    }
    let r1 = m1.remove_order(id);
    let r2 = m2.remove_order(id);
    assert(m1.levels(a.side) == m2.levels(a.side));
    assert(r1.orders.dom() =~= r2.orders.dom());
    assert forall|x: OrderId| #[trigger] r1.orders.contains_key(x) implies orders_alike(r1.orders[x], r2.orders[x]) by {
        assert(orders_alike(m1.orders[x], m2.orders[x]));
    }
    assert(r1.bids == r2.bids);
    assert(r1.asks == r2.asks);
}

/// Sequences alike element by element, put together, are alike.
pub proof fn lemma_seqs_alike_concat(a1: Seq<Event>, a2: Seq<Event>, b1: Seq<Event>, b2: Seq<Event>)
    requires
        seqs_alike(a1, a2),
        seqs_alike(b1, b2),
    ensures
        seqs_alike(a1 + b1, a2 + b2),
{
    assert forall|i: int| 0 <= i < (a1 + b1).len() implies events_alike(#[trigger] (a1 + b1)[i], (a2 + b2)[i]) by {
        if i < a1.len() {
        } else {
            assert((a1 + b1)[i] == b1[i - a1.len()]);
            assert((a2 + b2)[i] == b2[i - a2.len()]);
        }
    }
}

/// Matching one taker against alike books gives alike books, the same quantity left, and
/// alike events.
#[verifier::rlimit(40)]
pub proof fn lemma_alike_match(m1: BookModel, m2: BookModel, order: NewOrder, remaining: Quantity, s1: Sequence, s2: Sequence)
    requires
        books_alike(m1, m2),
        m1.wf(),
    ensures
        books_alike(m1.match_taker(order, remaining, s1).0, m2.match_taker(order, remaining, s2).0),
        m1.match_taker(order, remaining, s1).1 == m2.match_taker(order, remaining, s2).1,
        seqs_alike(m1.match_taker(order, remaining, s1).2, m2.match_taker(order, remaining, s2).2),
        m1.match_taker(order, remaining, s1).0.next_sequence == m1.next_sequence,
        m2.match_taker(order, remaining, s2).0.next_sequence == m2.next_sequence,
    decreases remaining, m1.orders.dom().len(),
{
    let opp = order.side.opposite();
    let r1 = m1.match_taker(order, remaining, s1);
    let r2 = m2.match_taker(order, remaining, s2);
    lemma_alike_levels(m1, m2, opp, 0);
    crate::book_model::lemma_levels_finite(m1, opp);
    crate::book_laws::lemma_key_extremes(m1.bids.dom());
    crate::book_laws::lemma_key_extremes(m1.asks.dom());
    assert(m1.levels(opp) == m2.levels(opp));
    if remaining > 0 && m1.best_price(opp) is Some {
        let p = m1.best_price(opp).unwrap();
        assert(m1.levels(opp).contains_key(p));
        assert(m1.side_wf(opp));
        assert(m1.level_wf(opp, p));
        let q = m1.levels(opp)[p];
        assert(q.len() > 0);
        assert(m1.orders.contains_key(q[0]));
        assert(m2.orders.contains_key(q[0]));
        if crate::book_model::crosses(order, p) {
            let a = m1.orders[q[0]];
            let b = m2.orders[q[0]];
            assert(orders_alike(a, b));
            assert(RestingOrder { arrival_sequence: 0, ..a }.remaining_qty == a.remaining_qty);
            assert(RestingOrder { arrival_sequence: 0, ..a }.order_id == a.order_id);
            assert(RestingOrder { arrival_sequence: 0, ..a }.price == a.price);
            assert(a.remaining_qty == b.remaining_qty && a.order_id == b.order_id && a.price == b.price);
            let traded_now = if remaining <= a.remaining_qty { remaining } else { a.remaining_qty };
            let maker_left = (a.remaining_qty - traded_now) as u64;
            let taker_left = (remaining - traded_now) as u64;
            lemma_alike_steps(m1, m2, q[0], maker_left);
            let after1 = m1.set_remaining(q[0], maker_left);
            let after2 = m2.set_remaining(q[0], maker_left);
            crate::book_model::lemma_set_remaining_wf(m1, q[0], maker_left);
            lemma_alike_levels(after1, after2, opp, p);
            let t1 = Event::Trade {
                instrument: m1.instrument,
                maker_order_id: a.order_id,
                taker_order_id: order.id,
                side: order.side,
                price: a.price,
                quantity: traded_now,
                maker_remaining: maker_left,
                taker_remaining: taker_left,
                sequence: s1,
            };
            let t2 = Event::Trade {
                instrument: m2.instrument,
                maker_order_id: b.order_id,
                taker_order_id: order.id,
                side: order.side,
                price: b.price,
                quantity: traded_now,
                maker_remaining: maker_left,
                taker_remaining: taker_left,
                sequence: s2,
            };
            let l1 = after1.level_event(opp, p, s1);
            let l2 = after2.level_event(opp, p, s2);
            assert(events_alike(t1, t2));
            assert(events_alike(l1, l2));
            if maker_left == 0 {
                let f1 = Event::Filled { instrument: m1.instrument, order_id: a.order_id, sequence: s1 };
                let f2 = Event::Filled { instrument: m2.instrument, order_id: b.order_id, sequence: s2 };
                assert(events_alike(f1, f2));
                let n1 = after1.remove_order(q[0]);
                let n2 = after2.remove_order(q[0]);
                lemma_alike_steps(after1, after2, q[0], 0);
                crate::book_model::lemma_remove_order_wf(after1, q[0]);
                assert(n1.orders.dom() =~= m1.orders.dom().remove(q[0]));
                lemma_alike_match(n1, n2, order, taker_left, s1, s2);
                let h1 = seq![t1, l1, f1];
                let h2 = seq![t2, l2, f2];
                assert(seqs_alike(h1, h2));
                lemma_seqs_alike_concat(h1, h2, n1.match_taker(order, taker_left, s1).2, n2.match_taker(order, taker_left, s2).2);
                assert(r1.2 == h1 + n1.match_taker(order, taker_left, s1).2);
                assert(r2.2 == h2 + n2.match_taker(order, taker_left, s2).2);
            } else {
                assert(r1.2 == seq![t1, l1]);
                assert(r2.2 == seq![t2, l2]);
                assert(seqs_alike(seq![t1, l1], seq![t2, l2]));
            }
        } else {
            assert(r1.2 == Seq::<Event>::empty());
        }
    }
}

/// Submitting one order to alike books gives alike books and alike events.
#[verifier::rlimit(40)]
pub proof fn lemma_alike_submit(m1: BookModel, m2: BookModel, order: NewOrder)
    requires
        books_alike(m1, m2),
        m1.wf(),
        m1.submit_fits(order),
    ensures
        books_alike(m1.submit_outcome(order).0, m2.submit_outcome(order).0),
        seqs_alike(m1.submit_outcome(order).1, m2.submit_outcome(order).1),
        m1.submit_outcome(order).0.next_sequence == m1.next_sequence + 1,
        m2.next_sequence < u64::MAX ==> m2.submit_outcome(order).0.next_sequence == m2.next_sequence + 1,
{
    let sq1 = m1.next_sequence;
    let sq2 = m2.next_sequence;
    let a1 = m1.bump_sequence();
    let a2 = m2.bump_sequence();
    crate::book_laws::lemma_bumped_wf(m1);
    assert(books_alike(a1, a2));
    assert(m1.validation_error(order) == m2.validation_error(order));
    let o1 = m1.submit_outcome(order);
    let o2 = m2.submit_outcome(order);
    match m1.validation_error(order) {
        Some(reason) => {
            assert(events_alike(o1.1[0], o2.1[0]));
        },
        None => {
            lemma_alike_match(a1, a2, order, order.quantity, sq1, sq2);
            crate::book_laws::lemma_match_taker(a1, order, order.quantity, sq1);
            let (x1, left, t1) = a1.match_taker(order, order.quantity, sq1);
            let (x2, left2, t2) = a2.match_taker(order, order.quantity, sq2);
            let acc1 = seq![Event::Accepted { instrument: m1.instrument, order_id: order.id, sequence: sq1 }];
            let acc2 = seq![Event::Accepted { instrument: m2.instrument, order_id: order.id, sequence: sq2 }];
            assert(seqs_alike(acc1, acc2));
            lemma_seqs_alike_concat(acc1, acc2, t1, t2);
            lemma_alike_levels(x1, x2, Side::Bid, 0);
            lemma_alike_levels(x1, x2, Side::Ask, 0);
            if left == 0 {
                let tl1 = seq![Event::Filled { instrument: m1.instrument, order_id: order.id, sequence: sq1 }, x1.top_event(sq1)];
                let tl2 = seq![Event::Filled { instrument: m2.instrument, order_id: order.id, sequence: sq2 }, x2.top_event(sq2)];
                assert(seqs_alike(tl1, tl2));
                lemma_seqs_alike_concat(acc1 + t1, acc2 + t2, tl1, tl2);
                assert(o1.1 == acc1 + t1 + tl1);
                assert(o2.1 == acc2 + t2 + tl2);
            } else if BookModel::rests(order) {
                let price = order.price.unwrap();
                let res1 = m1.resting_of(order, left, sq1);
                let res2 = m2.resting_of(order, left, sq2);
                let y1 = x1.add_resting(res1);
                let y2 = x2.add_resting(res2);
                crate::book_model::lemma_add_resting_wf(x1, res1);
                assert(y1.orders.dom() =~= y2.orders.dom());
                assert forall|x: OrderId| #[trigger] y1.orders.contains_key(x) implies orders_alike(y1.orders[x], y2.orders[x]) by {
                    if x != order.id {
                        assert(orders_alike(x1.orders[x], x2.orders[x]));
                    }
                }
                assert(x1.levels(order.side) == x2.levels(order.side));
                assert(y1.bids == y2.bids && y1.asks == y2.asks);
                assert(books_alike(y1, y2));
                lemma_alike_levels(y1, y2, order.side, price);
                lemma_alike_levels(y1, y2, Side::Bid, 0);
                lemma_alike_levels(y1, y2, Side::Ask, 0);
                let tl1 = seq![
                    Event::Rested { instrument: m1.instrument, order_id: order.id, side: order.side, price, remaining: left, sequence: sq1 },
                    y1.level_event(order.side, price, sq1),
                    y1.top_event(sq1),
                ];
                let tl2 = seq![
                    Event::Rested { instrument: m2.instrument, order_id: order.id, side: order.side, price, remaining: left, sequence: sq2 },
                    y2.level_event(order.side, price, sq2),
                    y2.top_event(sq2),
                ];
                assert(seqs_alike(tl1, tl2));
                lemma_seqs_alike_concat(acc1 + t1, acc2 + t2, tl1, tl2);
                assert(o1.1 == acc1 + t1 + tl1);
                assert(o2.1 == acc2 + t2 + tl2);
            } else {
                let tl1 = seq![
                    Event::Cancelled { instrument: m1.instrument, order_id: order.id, cancelled_qty: left, sequence: sq1 },
                    x1.top_event(sq1),
                ];
                let tl2 = seq![
                    Event::Cancelled { instrument: m2.instrument, order_id: order.id, cancelled_qty: left, sequence: sq2 },
                    x2.top_event(sq2),
                ];
                assert(seqs_alike(tl1, tl2));
                lemma_seqs_alike_concat(acc1 + t1, acc2 + t2, tl1, tl2);
                assert(o1.1 == acc1 + t1 + tl1);
                assert(o2.1 == acc2 + t2 + tl2);
            }
        },
    }
}

/// Cancelling one order in alike books gives alike books and alike events.
pub proof fn lemma_alike_cancel(m1: BookModel, m2: BookModel, id: OrderId)
    requires
        books_alike(m1, m2),
        m1.wf(),
    ensures
        books_alike(m1.cancel_outcome(id).0, m2.cancel_outcome(id).0),
        seqs_alike(m1.cancel_outcome(id).1, m2.cancel_outcome(id).1),
        m1.next_sequence < u64::MAX ==> m1.cancel_outcome(id).0.next_sequence == m1.next_sequence + 1,
        m2.next_sequence < u64::MAX ==> m2.cancel_outcome(id).0.next_sequence == m2.next_sequence + 1,
{
    let a1 = m1.bump_sequence();
    let a2 = m2.bump_sequence();
    crate::book_laws::lemma_bumped_wf(m1);
    assert(books_alike(a1, a2));
    let o1 = m1.cancel_outcome(id);
    let o2 = m2.cancel_outcome(id);
    if m1.orders.contains_key(id) {
        let a = m1.orders[id];
        let b = m2.orders[id];
        assert(orders_alike(a, b));
        assert(RestingOrder { arrival_sequence: 0, ..a }.remaining_qty == a.remaining_qty);
        assert(RestingOrder { arrival_sequence: 0, ..a }.side == a.side);
        assert(RestingOrder { arrival_sequence: 0, ..a }.price == a.price);
        lemma_alike_steps(a1, a2, id, 0);
        crate::book_model::lemma_remove_order_wf(a1, id);
        let r1 = a1.remove_order(id);
        let r2 = a2.remove_order(id);
        lemma_alike_levels(r1, r2, a.side, a.price);
        lemma_alike_levels(r1, r2, Side::Bid, 0);
        lemma_alike_levels(r1, r2, Side::Ask, 0);
        assert(events_alike(o1.1[0], o2.1[0]));
        assert(events_alike(o1.1[1], o2.1[1]));
        assert(events_alike(o1.1[2], o2.1[2]));
    } else {
        assert(events_alike(o1.1[0], o2.1[0]));
    }
}

/// Two records of a live order that differ at most in their arrival sequence.
pub open spec fn lives_alike(a: LiveOrderState, b: LiveOrderState) -> bool {
    LiveOrderState { arrival_sequence: 0, ..a } == LiveOrderState { arrival_sequence: 0, ..b }
}

/// Two engines in the same state but for sequence numbers: the same live orders (but for
/// their arrivals), locations, accounts and global sequence, and alike books.
pub open spec fn engines_alike(e: EngineModel, r: EngineModel) -> bool {
    &&& e.live_orders.dom() == r.live_orders.dom()
    &&& forall|id: OrderId| #[trigger] e.live_orders.contains_key(id) ==> lives_alike(e.live_orders[id], r.live_orders[id])
    &&& e.order_locations == r.order_locations
    &&& e.accounts == r.accounts
    &&& e.next_global_sequence == r.next_global_sequence
    &&& forall|inst: InstrumentId| books_alike(#[trigger] e.book_or_empty(inst), r.book_or_empty(inst))
}

/// One event has alike effects on alike engines.
pub proof fn lemma_alike_effect(
    e1: EngineModel,
    e2: EngineModel,
    order: NewOrder,
    t1: LiveOrderState,
    t2: LiveOrderState,
    ev1: Event,
    ev2: Event,
)
    requires
        engines_alike(e1, e2),
        lives_alike(t1, t2),
        events_alike(ev1, ev2),
    ensures
        match (e1.submit_effect(order, t1, ev1), e2.submit_effect(order, t2, ev2)) {
            (None, None) => true,
            (Some((a1, b1)), Some((a2, b2))) => engines_alike(a1, a2) && lives_alike(b1, b2),
            _ => false,
        },
{
    assert(t1.reservation == t2.reservation && t1.order == t2.order) by {
        assert(LiveOrderState { arrival_sequence: 0, ..t1 }.reservation == t1.reservation);
        assert(LiveOrderState { arrival_sequence: 0, ..t1 }.order == t1.order);
    }
    match ev1 {
        Event::Trade { maker_order_id, .. } => {
            assert(ev2 is Trade);
            if e1.live_orders.contains_key(maker_order_id) {
                let m1 = e1.live_orders[maker_order_id];
                let m2 = e2.live_orders[maker_order_id];
                assert(lives_alike(m1, m2));
                assert(LiveOrderState { arrival_sequence: 0, ..m1 }.reservation == m1.reservation);
                assert(LiveOrderState { arrival_sequence: 0, ..m1 }.order == m1.order);
                assert(m1.reservation == m2.reservation && m1.order == m2.order);
            }
            match (e1.submit_effect(order, t1, ev1), e2.submit_effect(order, t2, ev2)) {
                (Some((a1, b1)), Some((a2, b2))) => {
                    assert forall|id: OrderId| #[trigger] a1.live_orders.contains_key(id) implies lives_alike(
                        a1.live_orders[id],
                        a2.live_orders[id],
                    ) by {}
                    assert forall|inst: InstrumentId| books_alike(#[trigger] a1.book_or_empty(inst), a2.book_or_empty(inst)) by {
                        assert(books_alike(e1.book_or_empty(inst), e2.book_or_empty(inst)));
                    }
                },
                _ => {},
            }
        },
        _ => {
            match (e1.submit_effect(order, t1, ev1), e2.submit_effect(order, t2, ev2)) {
                (Some((a1, b1)), Some((a2, b2))) => {
                    assert forall|id: OrderId| #[trigger] a1.live_orders.contains_key(id) implies lives_alike(
                        a1.live_orders[id],
                        a2.live_orders[id],
                    ) by {}
                    assert forall|inst: InstrumentId| books_alike(#[trigger] a1.book_or_empty(inst), a2.book_or_empty(inst)) by {
                        assert(books_alike(e1.book_or_empty(inst), e2.book_or_empty(inst)));
                    }
                },
                _ => {},
            }
        },
    }
}


/// The rest of two alike sequences after their first events are alike.
proof fn lemma_seqs_alike_tail(a: Seq<Event>, b: Seq<Event>)
    requires
        seqs_alike(a, b),
        a.len() > 0,
    ensures
        seqs_alike(a.subrange(1, a.len() as int), b.subrange(1, b.len() as int)),
        events_alike(a[0], b[0]),
{
    let ta = a.subrange(1, a.len() as int);
    let tb = b.subrange(1, b.len() as int);
    assert forall|i: int| 0 <= i < ta.len() implies events_alike(#[trigger] ta[i], tb[i]) by {
        assert(ta[i] == a[i + 1]);
        assert(tb[i] == b[i + 1]);
    }
}

/// A sequence of events is alike itself.
proof fn lemma_seqs_alike_refl(a: Seq<Event>)
    ensures
        seqs_alike(a, a),
{
}

/// The events of a submit have alike effects on alike engines.
pub proof fn lemma_alike_effects(
    e1: EngineModel,
    e2: EngineModel,
    order: NewOrder,
    t1: LiveOrderState,
    t2: LiveOrderState,
    ev1: Seq<Event>,
    ev2: Seq<Event>,
)
    requires
        engines_alike(e1, e2),
        lives_alike(t1, t2),
        seqs_alike(ev1, ev2),
    ensures
        match (e1.submit_effects(order, t1, ev1), e2.submit_effects(order, t2, ev2)) {
            (None, None) => true,
            (Some(a1), Some(a2)) => engines_alike(a1, a2),
            _ => false,
        },
    decreases ev1.len(),
{
    if ev1.len() > 0 {
        lemma_seqs_alike_tail(ev1, ev2);
        lemma_alike_effect(e1, e2, order, t1, t2, ev1[0], ev2[0]);
        match (e1.submit_effect(order, t1, ev1[0]), e2.submit_effect(order, t2, ev2[0])) {
            (Some((a1, b1)), Some((a2, b2))) => {
                lemma_alike_effects(
                    a1,
                    a2,
                    order,
                    b1,
                    b2,
                    ev1.subrange(1, ev1.len() as int),
                    ev2.subrange(1, ev2.len() as int),
                );
            },
            _ => {},
        }
    }
}

/// One event of a cancel has alike effects on alike engines.
proof fn lemma_alike_terminal(e1: EngineModel, e2: EngineModel, ev1: Event, ev2: Event)
    requires
        engines_alike(e1, e2),
        events_alike(ev1, ev2),
    ensures
        match (e1.terminal_effect(ev1), e2.terminal_effect(ev2)) {
            (None, None) => true,
            (Some(a1), Some(a2)) => engines_alike(a1, a2),
            _ => false,
        },
{
    match ev1 {
        Event::Cancelled { order_id, .. } => {
            assert(ev2 is Cancelled);
            if e1.live_orders.contains_key(order_id) {
                let m1 = e1.live_orders[order_id];
                let m2 = e2.live_orders[order_id];
                assert(lives_alike(m1, m2));
                assert(LiveOrderState { arrival_sequence: 0, ..m1 }.reservation == m1.reservation);
                assert(LiveOrderState { arrival_sequence: 0, ..m1 }.order == m1.order);
                assert(m1.reservation == m2.reservation && m1.order == m2.order);
            }
        },
        Event::Filled { .. } => {
            assert(ev2 is Filled);
        },
        _ => {},
    }
    match (e1.terminal_effect(ev1), e2.terminal_effect(ev2)) {
        (Some(a1), Some(a2)) => {
            assert forall|id: OrderId| #[trigger] a1.live_orders.contains_key(id) implies lives_alike(
                a1.live_orders[id],
                a2.live_orders[id],
            ) by {}
            assert forall|inst: InstrumentId| books_alike(#[trigger] a1.book_or_empty(inst), a2.book_or_empty(inst)) by {
                assert(books_alike(e1.book_or_empty(inst), e2.book_or_empty(inst)));
            }
            assert(a1.live_orders.dom() =~= a2.live_orders.dom());
            assert(a1.order_locations =~= a2.order_locations);
        },
        _ => {},
    }
}

/// The events of a cancel have alike effects on alike engines.
proof fn lemma_alike_terminals(e1: EngineModel, e2: EngineModel, ev1: Seq<Event>, ev2: Seq<Event>)
    requires
        engines_alike(e1, e2),
        seqs_alike(ev1, ev2),
    ensures
        match (e1.terminal_effects(ev1), e2.terminal_effects(ev2)) {
            (None, None) => true,
            (Some(a1), Some(a2)) => engines_alike(a1, a2),
            _ => false,
        },
    decreases ev1.len(),
{
    if ev1.len() > 0 {
        lemma_seqs_alike_tail(ev1, ev2);
        lemma_alike_terminal(e1, e2, ev1[0], ev2[0]);
        match (e1.terminal_effect(ev1[0]), e2.terminal_effect(ev2[0])) {
            (Some(a1), Some(a2)) => {
                lemma_alike_terminals(a1, a2, ev1.subrange(1, ev1.len() as int), ev2.subrange(1, ev2.len() as int));
            },
            _ => {},
        }
    }
}

/// Alike engines stay alike when their global sequences move on.
proof fn lemma_alike_bump(e1: EngineModel, e2: EngineModel)
    requires
        engines_alike(e1, e2),
    ensures
        engines_alike(e1.bump(), e2.bump()),
{
    assert forall|inst: InstrumentId| books_alike(#[trigger] e1.bump().book_or_empty(inst), e2.bump().book_or_empty(inst)) by {
        assert(books_alike(e1.book_or_empty(inst), e2.book_or_empty(inst)));
    }
}


/// Alike engines that both take a submit end alike, with alike events.
#[verifier::rlimit(40)]
proof fn lemma_alike_engine_submit(e1: EngineModel, e2: EngineModel, order: NewOrder)
    requires
        engines_alike(e1, e2),
        consistent(e1),
        e1.submit(order) is Some,
        e2.submit(order) is Some,
    ensures
        engines_alike(e1.submit(order).unwrap().0, e2.submit(order).unwrap().0),
        seqs_alike(e1.submit(order).unwrap().1, e2.submit(order).unwrap().1),
{
    let inst = order.instrument;
    if e1.live_orders.contains_key(order.id) {
        lemma_alike_bump(e1, e2);
        lemma_seqs_alike_refl(e1.submit(order).unwrap().1);
    } else {
        let b1 = e1.book_or_empty(inst);
        let b2 = e2.book_or_empty(inst);
        assert(books_alike(b1, b2));
        lemma_book_or_empty_pub(e1, inst);
        lemma_alike_snapshot(b1, b2);
        assert(e1.snapshot(inst) == e2.snapshot(inst));
        let (accounts, reserved) = reserve_outcome(e1.accounts, order, e1.snapshot(inst));
        let f1 = EngineModel { accounts, ..e1 };
        let f2 = EngineModel { accounts, ..e2 };
        assert(engines_alike(f1, f2)) by {
            assert forall|i: InstrumentId| books_alike(#[trigger] f1.book_or_empty(i), f2.book_or_empty(i)) by {
                assert(books_alike(e1.book_or_empty(i), e2.book_or_empty(i)));
            }
        }
        match reserved {
            Err(reason) => {
                lemma_alike_bump(f1, f2);
                lemma_seqs_alike_refl(e1.submit(order).unwrap().1);
            },
            Ok(r) => {
                lemma_alike_submit(b1, b2, order);
                let (c1, events1) = b1.submit_outcome(order);
                let (c2, events2) = b2.submit_outcome(order);
                let g1 = EngineModel { books: e1.books.insert(inst, c1), ..f1 };
                let g2 = EngineModel { books: e2.books.insert(inst, c2), ..f2 };
                assert(engines_alike(g1, g2)) by {
                    assert forall|i: InstrumentId| books_alike(#[trigger] g1.book_or_empty(i), g2.book_or_empty(i)) by {
                        if i != inst {
                            assert(books_alike(e1.book_or_empty(i), e2.book_or_empty(i)));
                        }
                    }
                }
                let taker = LiveOrderState {
                    order,
                    remaining_qty: order.quantity,
                    arrival_sequence: 0,
                    reservation: r.reservation,
                };
                lemma_alike_effects(g1, g2, order, taker, taker, events1, events2);
            },
        }
    }
}

/// Alike engines that both take a cancel end alike, with alike events.
proof fn lemma_alike_engine_cancel(e1: EngineModel, e2: EngineModel, id: OrderId)
    requires
        engines_alike(e1, e2),
        consistent(e1),
        e1.cancel(id) is Some,
        e2.cancel(id) is Some,
    ensures
        engines_alike(e1.cancel(id).unwrap().0, e2.cancel(id).unwrap().0),
        seqs_alike(e1.cancel(id).unwrap().1, e2.cancel(id).unwrap().1),
{
    if !e1.order_locations.contains_key(id) {
        lemma_alike_bump(e1, e2);
        lemma_seqs_alike_refl(e1.cancel(id).unwrap().1);
    } else {
        let inst = e1.order_locations[id];
        let b1 = e1.books[inst];
        let b2 = e2.books[inst];
        assert(books_alike(e1.book_or_empty(inst), e2.book_or_empty(inst)));
        lemma_book_or_empty_pub(e1, inst);
        lemma_alike_cancel(b1, b2, id);
        let (c1, events1) = b1.cancel_outcome(id);
        let (c2, events2) = b2.cancel_outcome(id);
        let g1 = EngineModel { books: e1.books.insert(inst, c1), ..e1 };
        let g2 = EngineModel { books: e2.books.insert(inst, c2), ..e2 };
        assert(engines_alike(g1, g2)) by {
            assert forall|i: InstrumentId| books_alike(#[trigger] g1.book_or_empty(i), g2.book_or_empty(i)) by {
                if i != inst {
                    assert(books_alike(e1.book_or_empty(i), e2.book_or_empty(i)));
                }
            }
        }
        lemma_alike_terminals(g1, g2, events1, events2);
    }
}


/// Alike engines that both take a replace end alike, with alike events.
proof fn lemma_alike_engine_replace(e1: EngineModel, e2: EngineModel, replace: ReplaceOrder)
    requires
        engines_alike(e1, e2),
        consistent(e1),
        e1.replace(replace) is Some,
        e2.replace(replace) is Some,
    ensures
        engines_alike(e1.replace(replace).unwrap().0, e2.replace(replace).unwrap().0),
        seqs_alike(e1.replace(replace).unwrap().1, e2.replace(replace).unwrap().1),
{
    let id = replace.order_id;
    if !e1.live_orders.contains_key(id) {
        lemma_alike_bump(e1, e2);
        lemma_seqs_alike_refl(e1.replace(replace).unwrap().1);
    } else {
        let x1 = e1.live_orders[id];
        let x2 = e2.live_orders[id];
        assert(lives_alike(x1, x2));
        assert(LiveOrderState { arrival_sequence: 0, ..x1 }.order == x1.order);
        assert(LiveOrderState { arrival_sequence: 0, ..x1 }.remaining_qty == x1.remaining_qty);
        assert(x1.order == x2.order && x1.remaining_qty == x2.remaining_qty);
        if replace.new_quantity == 0 {
            lemma_alike_bump(e1, e2);
            lemma_seqs_alike_refl(e1.replace(replace).unwrap().1);
        } else {
            lemma_alike_engine_cancel(e1, e2, id);
            lemma_cancel_consistent(e1, id);
            let (c1, cancel1) = e1.cancel(id).unwrap();
            let (c2, cancel2) = e2.cancel(id).unwrap();
            lemma_alike_bump(c1, c2);
            lemma_consistent_frame_pub(c1, c1.bump());
            let order = EngineModel::replacement(x1, replace);
            assert(EngineModel::replacement(x2, replace) == order);
            lemma_alike_engine_submit(c1.bump(), c2.bump(), order);
            let replaced = Event::Replaced {
                instrument: x1.order.instrument,
                order_id: id,
                old_price: match x1.order.price {
                    Some(p) => p,
                    None => 0,
                },
                new_price: replace.new_price,
                old_remaining: x1.remaining_qty,
                new_quantity: replace.new_quantity,
                sequence: c1.next_global_sequence,
            };
            lemma_seqs_alike_concat(cancel1, cancel2, seq![replaced], seq![replaced]);
            assert(cancel1 + seq![replaced] == cancel1.push(replaced));
            assert(cancel2 + seq![replaced] == cancel2.push(replaced));
            lemma_seqs_alike_concat(
                cancel1.push(replaced),
                cancel2.push(replaced),
                c1.bump().submit(order).unwrap().1,
                c2.bump().submit(order).unwrap().1,
            );
        }
    }
}

/// Two engines in the same state but for sequence numbers answer every command alike: where
/// both take it, they end in the same state but for sequence numbers, and their events
/// differ at most in their sequence numbers (the same trades, at the same prices and
/// quantities, between the same orders).
pub proof fn law_alike_engines_answer_alike(e1: EngineModel, e2: EngineModel, command: EngineCommand)
    requires
        engines_alike(e1, e2),
        consistent(e1),
        e1.apply(command) is Some,
        e2.apply(command) is Some,
    ensures
        engines_alike(e1.apply(command).unwrap().0, e2.apply(command).unwrap().0),
        seqs_alike(e1.apply(command).unwrap().1, e2.apply(command).unwrap().1),
{
    match command {
        EngineCommand::Submit(order) => lemma_alike_engine_submit(e1, e2, order),
        EngineCommand::Cancel { order_id } => lemma_alike_engine_cancel(e1, e2, order_id),
        EngineCommand::Replace(r) => lemma_alike_engine_replace(e1, e2, r),
        _ => {
            let a1 = e1.apply(command).unwrap().0;
            let a2 = e2.apply(command).unwrap().0;
            assert forall|i: InstrumentId| books_alike(#[trigger] a1.book_or_empty(i), a2.book_or_empty(i)) by {
                assert(books_alike(e1.book_or_empty(i), e2.book_or_empty(i)));
            }
            lemma_seqs_alike_refl(e1.apply(command).unwrap().1);
        },
    }
}

/// Replaying one log into alike engines keeps them alike and at the same log index.
pub proof fn lemma_alike_replay(e1: EngineModel, e2: EngineModel, records: Seq<CommandRecord>, last: u64)
    requires
        engines_alike(e1, e2),
        sequences_behind(e1, e2),
        consistent(e1),
        replay(e1, records, last) is Some,
    ensures
        replay(e2, records, last) is Some,
        engines_alike(replay(e1, records, last).unwrap().0, replay(e2, records, last).unwrap().0),
        replay(e1, records, last).unwrap().1 == replay(e2, records, last).unwrap().1,
        consistent(replay(e1, records, last).unwrap().0),
    decreases records.len(),
{
    if records.len() > 0 {
        let r = records[0];
        let rest = records.subrange(1, records.len() as int);
        if r.index > last {
            lemma_alike_takes(e1, e2, r.command);
            law_alike_engines_answer_alike(e1, e2, r.command);
            law_commands_keep_engine_consistent(e1, r.command);
            lemma_alike_replay(e1.apply(r.command).unwrap().0, e2.apply(r.command).unwrap().0, rest, r.index);
        } else {
            lemma_alike_replay(e1, e2, rest, last);
        }
    }
}


/// A restart gives back the engine that wrote the store. Where engine `e` was saved as `st`
/// when its log stood at index `last`, and then took the log's later records, rebuilding
/// from that snapshot and the log succeeds, stands at the same log index as `e`, and gives
/// an engine in the same state but for sequence numbers: the same live orders (but for their arrival
/// sequences), locations, accounts and global sequence, books with the same queues, and the
/// same top of every book. From there the two answer every command alike
/// (`law_alike_engines_answer_alike`).
pub proof fn law_restart_gives_back_the_engine(e: EngineModel, st: EngineState, last: u64, records: Seq<CommandRecord>)
    requires
        consistent(e),
        books_in_arrival_order(e),
        exports(e, st),
        replay(e, records, last) is Some,
    ensures
        recovered_store(Some(SnapshotRecord { last_log_index: last, state: st }), records) is Some,
        replay(e, records, last).unwrap().1 == recovered_store(
            Some(SnapshotRecord { last_log_index: last, state: st }),
            records,
        ).unwrap().1,
        engines_alike(
            replay(e, records, last).unwrap().0,
            recovered_store(Some(SnapshotRecord { last_log_index: last, state: st }), records).unwrap().0,
        ),
        forall|inst: InstrumentId| #[trigger] replay(e, records, last).unwrap().0.snapshot(inst) == recovered_store(
            Some(SnapshotRecord { last_log_index: last, state: st }),
            records,
        ).unwrap().0.snapshot(inst),
{
    lemma_rebuilt_alike(e, st);
    lemma_rebuilt_behind(e, st);
    let r = EngineModel::recovered(st.live_orders@, accounts_view(st.accounts@), st.next_global_sequence).unwrap();
    lemma_alike_replay(e, r, records, last);
    let a = replay(e, records, last).unwrap().0;
    let b = replay(r, records, last).unwrap().0;
    assert forall|inst: InstrumentId| #[trigger] a.snapshot(inst) == b.snapshot(inst) by {
        lemma_book_or_empty_pub(a, inst);
        lemma_alike_snapshot(a.book_or_empty(inst), b.book_or_empty(inst));
    }
}


/// An engine rebuilt from what an engine exports is alike it.
proof fn lemma_rebuilt_alike(e: EngineModel, st: EngineState)
    requires
        consistent(e),
        books_in_arrival_order(e),
        exports(e, st),
    ensures
        EngineModel::recovered(st.live_orders@, accounts_view(st.accounts@), st.next_global_sequence) is Some,
        engines_alike(
            e,
            EngineModel::recovered(st.live_orders@, accounts_view(st.accounts@), st.next_global_sequence).unwrap(),
        ),
{
    law_export_then_rebuild(e, st);
    let r = EngineModel::recovered(st.live_orders@, accounts_view(st.accounts@), st.next_global_sequence).unwrap();
    assert forall|inst: InstrumentId| books_alike(#[trigger] e.book_or_empty(inst), r.book_or_empty(inst)) by {
        assert(r.book_or_empty(inst).orders == e.book_or_empty(inst).orders);
        assert(r.book_or_empty(inst).instrument == e.book_or_empty(inst).instrument);
        assert(r.book_or_empty(inst).bids == e.book_or_empty(inst).bids);
    }
}

/// An engine rebuilt from what an engine exports takes every command the engine takes and
/// answers it as the engine does: the same trades (between the same orders, at the same prices and quantities) and
/// every other event alike, but for sequence numbers; and the two end alike.
pub proof fn law_rebuilt_engine_answers_alike(e: EngineModel, st: EngineState, command: EngineCommand)
    requires
        consistent(e),
        books_in_arrival_order(e),
        exports(e, st),
        e.apply(command) is Some,
    ensures
        EngineModel::recovered(st.live_orders@, accounts_view(st.accounts@), st.next_global_sequence).unwrap().apply(
            command,
        ) is Some,
        seqs_alike(
            e.apply(command).unwrap().1,
            EngineModel::recovered(st.live_orders@, accounts_view(st.accounts@), st.next_global_sequence).unwrap().apply(
                command,
            ).unwrap().1,
        ),
        engines_alike(
            e.apply(command).unwrap().0,
            EngineModel::recovered(st.live_orders@, accounts_view(st.accounts@), st.next_global_sequence).unwrap().apply(
                command,
            ).unwrap().0,
        ),
{
    lemma_rebuilt_alike(e, st);
    lemma_rebuilt_behind(e, st);
    let r = EngineModel::recovered(st.live_orders@, accounts_view(st.accounts@), st.next_global_sequence).unwrap();
    lemma_alike_takes(e, r, command);
    law_alike_engines_answer_alike(e, r, command);
}


/// A book alike another, with no later sequence number, takes every order the other takes.
proof fn lemma_alike_submit_fits(m1: BookModel, m2: BookModel, order: NewOrder)
    requires
        books_alike(m1, m2),
        m1.wf(),
        m2.next_sequence <= m1.next_sequence,
        m1.submit_fits(order),
    ensures
        m2.submit_fits(order),
{
    assert(m1.validation_error(order) == m2.validation_error(order));
    if m1.validation_error(order) is None {
        let a1 = m1.bump_sequence();
        let a2 = m2.bump_sequence();
        crate::book_laws::lemma_bumped_wf(m1);
        assert(books_alike(a1, a2));
        lemma_alike_match(a1, a2, order, order.quantity, m1.next_sequence, m2.next_sequence);
        crate::book_laws::lemma_match_taker(a1, order, order.quantity, m1.next_sequence);
        let (x1, left, t1) = a1.match_taker(order, order.quantity, m1.next_sequence);
        let x2 = a2.match_taker(order, order.quantity, m2.next_sequence).0;
        if left > 0 && BookModel::rests(order) {
            lemma_alike_levels(x1, x2, order.side, order.price.unwrap());
        }
    }
}


/// No book of `r` is further on in its sequence numbers than the same book of `e`.
pub open spec fn sequences_behind(e: EngineModel, r: EngineModel) -> bool {
    forall|inst: InstrumentId| #[trigger] r.book_or_empty(inst).next_sequence <= e.book_or_empty(inst).next_sequence
}

/// An engine alike a consistent engine, and no further on in its books' sequence numbers,
/// takes every submit the consistent one takes, and stays no further on.
proof fn lemma_alike_takes_submit(e1: EngineModel, e2: EngineModel, order: NewOrder)
    requires
        engines_alike(e1, e2),
        sequences_behind(e1, e2),
        consistent(e1),
        e1.submit(order) is Some,
    ensures
        e2.submit(order) is Some,
        sequences_behind(e1.submit(order).unwrap().0, e2.submit(order).unwrap().0),
{
    let inst = order.instrument;
    if !e1.live_orders.contains_key(order.id) {
        let b1 = e1.book_or_empty(inst);
        let b2 = e2.book_or_empty(inst);
        assert(books_alike(b1, b2));
        assert(b2.next_sequence <= b1.next_sequence);
        lemma_book_or_empty_pub(e1, inst);
        lemma_alike_snapshot(b1, b2);
        let (accounts, reserved) = reserve_outcome(e1.accounts, order, e1.snapshot(inst));
        let f1 = EngineModel { accounts, ..e1 };
        let f2 = EngineModel { accounts, ..e2 };
        assert(engines_alike(f1, f2)) by {
            assert forall|i: InstrumentId| books_alike(#[trigger] f1.book_or_empty(i), f2.book_or_empty(i)) by {
                assert(books_alike(e1.book_or_empty(i), e2.book_or_empty(i)));
            }
        }
        if let Ok(r) = reserved {
            lemma_alike_submit_fits(b1, b2, order);
            lemma_alike_submit(b1, b2, order);
            let (c1, events1) = b1.submit_outcome(order);
            let (c2, events2) = b2.submit_outcome(order);
            let g1 = EngineModel { books: e1.books.insert(inst, c1), ..f1 };
            let g2 = EngineModel { books: e2.books.insert(inst, c2), ..f2 };
            assert(engines_alike(g1, g2)) by {
                assert forall|i: InstrumentId| books_alike(#[trigger] g1.book_or_empty(i), g2.book_or_empty(i)) by {
                    if i != inst {
                        assert(books_alike(e1.book_or_empty(i), e2.book_or_empty(i)));
                    }
                }
            }
            let taker = LiveOrderState {
                order,
                remaining_qty: order.quantity,
                arrival_sequence: 0,
                reservation: r.reservation,
            };
            lemma_alike_effects(g1, g2, order, taker, taker, events1, events2);
            lemma_effects_keep_books(g1, order, taker, events1);
            lemma_effects_keep_books(g2, order, taker, events2);
            assert forall|i: InstrumentId| #[trigger] e2.submit(order).unwrap().0.book_or_empty(i).next_sequence
                <= e1.submit(order).unwrap().0.book_or_empty(i).next_sequence by {
                assert(e2.book_or_empty(i).next_sequence <= e1.book_or_empty(i).next_sequence);
            }
        } else {
            assert forall|i: InstrumentId| #[trigger] e2.submit(order).unwrap().0.book_or_empty(i).next_sequence
                <= e1.submit(order).unwrap().0.book_or_empty(i).next_sequence by {
                assert(e2.book_or_empty(i).next_sequence <= e1.book_or_empty(i).next_sequence);
            }
        }
    } else {
        assert forall|i: InstrumentId| #[trigger] e2.submit(order).unwrap().0.book_or_empty(i).next_sequence
            <= e1.submit(order).unwrap().0.book_or_empty(i).next_sequence by {
            assert(e2.book_or_empty(i).next_sequence <= e1.book_or_empty(i).next_sequence);
        }
    }
}

/// The events of a submit leave the books alone.
proof fn lemma_effects_keep_books(e: EngineModel, order: NewOrder, t: LiveOrderState, events: Seq<Event>)
    ensures
        e.submit_effects(order, t, events) matches Some(e2) ==> e2.books == e.books,
    decreases events.len(),
{
    if events.len() > 0 {
        if let Some((e1, t1)) = e.submit_effect(order, t, events[0]) {
            lemma_effects_keep_books(e1, order, t1, events.subrange(1, events.len() as int));
        }
    }
}

/// The events of a cancel leave the books alone.
proof fn lemma_terminals_keep_books(e: EngineModel, events: Seq<Event>)
    ensures
        e.terminal_effects(events) matches Some(e2) ==> e2.books == e.books,
    decreases events.len(),
{
    if events.len() > 0 {
        if let Some(e1) = e.terminal_effect(events[0]) {
            lemma_terminals_keep_books(e1, events.subrange(1, events.len() as int));
        }
    }
}

/// An engine alike a consistent engine, and no further on in its books' sequence numbers,
/// takes every cancel the consistent one takes, and stays no further on.
proof fn lemma_alike_takes_cancel(e1: EngineModel, e2: EngineModel, id: OrderId)
    requires
        engines_alike(e1, e2),
        sequences_behind(e1, e2),
        consistent(e1),
        e1.cancel(id) is Some,
    ensures
        e2.cancel(id) is Some,
        sequences_behind(e1.cancel(id).unwrap().0, e2.cancel(id).unwrap().0),
{
    if e1.order_locations.contains_key(id) {
        let inst = e1.order_locations[id];
        let b1 = e1.books[inst];
        assert(e1.live_orders.contains_key(id));
        assert(crate::engine_laws::holds_book(e1, inst, b1));
        assert(b1.orders.contains_key(id));
        assert(books_alike(e1.book_or_empty(inst), e2.book_or_empty(inst)));
        assert(e2.books.contains_key(inst)) by {
            assert(e2.book_or_empty(inst).orders.contains_key(id));
        }
        let b2 = e2.books[inst];
        assert(b2.next_sequence <= b1.next_sequence);
        lemma_book_or_empty_pub(e1, inst);
        lemma_alike_cancel(b1, b2, id);
        let (c1, events1) = b1.cancel_outcome(id);
        let (c2, events2) = b2.cancel_outcome(id);
        let g1 = EngineModel { books: e1.books.insert(inst, c1), ..e1 };
        let g2 = EngineModel { books: e2.books.insert(inst, c2), ..e2 };
        assert(engines_alike(g1, g2)) by {
            assert forall|i: InstrumentId| books_alike(#[trigger] g1.book_or_empty(i), g2.book_or_empty(i)) by {
                if i != inst {
                    assert(books_alike(e1.book_or_empty(i), e2.book_or_empty(i)));
                }
            }
        }
        lemma_alike_terminals(g1, g2, events1, events2);
        lemma_terminals_keep_books(g1, events1);
        lemma_terminals_keep_books(g2, events2);
    }
    assert forall|i: InstrumentId| #[trigger] e2.cancel(id).unwrap().0.book_or_empty(i).next_sequence
        <= e1.cancel(id).unwrap().0.book_or_empty(i).next_sequence by {
        assert(e2.book_or_empty(i).next_sequence <= e1.book_or_empty(i).next_sequence);
    }
}


/// An engine alike a consistent engine, and no further on in its books' sequence numbers,
/// takes every command the consistent one takes, and stays alike and no further on.
proof fn lemma_alike_takes(e1: EngineModel, e2: EngineModel, command: EngineCommand)
    requires
        engines_alike(e1, e2),
        sequences_behind(e1, e2),
        consistent(e1),
        e1.apply(command) is Some,
    ensures
        e2.apply(command) is Some,
        sequences_behind(e1.apply(command).unwrap().0, e2.apply(command).unwrap().0),
{
    match command {
        EngineCommand::Submit(order) => lemma_alike_takes_submit(e1, e2, order),
        EngineCommand::Cancel { order_id } => lemma_alike_takes_cancel(e1, e2, order_id),
        EngineCommand::Replace(r) => {
            let id = r.order_id;
            if e1.live_orders.contains_key(id) && r.new_quantity != 0 {
                let x1 = e1.live_orders[id];
                let x2 = e2.live_orders[id];
                assert(lives_alike(x1, x2));
                assert(LiveOrderState { arrival_sequence: 0, ..x1 }.order == x1.order);
                assert(x1.order == x2.order);
                lemma_alike_takes_cancel(e1, e2, id);
                lemma_alike_engine_cancel(e1, e2, id);
                lemma_cancel_consistent(e1, id);
                let c1 = e1.cancel(id).unwrap().0;
                let c2 = e2.cancel(id).unwrap().0;
                lemma_alike_bump(c1, c2);
                lemma_consistent_frame_pub(c1, c1.bump());
                let order = EngineModel::replacement(x1, r);
                assert(EngineModel::replacement(x2, r) == order);
                assert(sequences_behind(c1.bump(), c2.bump())) by {
                    assert forall|i: InstrumentId| #[trigger] c2.bump().book_or_empty(i).next_sequence
                        <= c1.bump().book_or_empty(i).next_sequence by {
                        assert(c2.book_or_empty(i).next_sequence <= c1.book_or_empty(i).next_sequence);
                    }
                }
                lemma_alike_takes_submit(c1.bump(), c2.bump(), order);
            } else {
                assert forall|i: InstrumentId| #[trigger] e2.apply(command).unwrap().0.book_or_empty(i).next_sequence
                    <= e1.apply(command).unwrap().0.book_or_empty(i).next_sequence by {
                    assert(e2.book_or_empty(i).next_sequence <= e1.book_or_empty(i).next_sequence);
                }
            }
        },
        _ => {
            assert forall|i: InstrumentId| #[trigger] e2.apply(command).unwrap().0.book_or_empty(i).next_sequence
                <= e1.apply(command).unwrap().0.book_or_empty(i).next_sequence by {
                assert(e2.book_or_empty(i).next_sequence <= e1.book_or_empty(i).next_sequence);
            }
        },
    }
}


/// Putting back live orders that each arrived before the sequence number of `e`'s book of
/// their instrument leaves every rebuilt book no further on than `e`'s.
proof fn lemma_restore_behind(e: EngineModel, g: EngineModel, lives: Seq<LiveOrderState>)
    requires
        sequences_behind(e, g),
        forall|j: int| 0 <= j < lives.len() ==> (#[trigger] lives[j]).arrival_sequence < e.book_or_empty(
            lives[j].order.instrument,
        ).next_sequence,
    ensures
        g.restore_all(lives) matches Some(r) ==> sequences_behind(e, r),
    decreases lives.len(),
{
    if lives.len() > 0 {
        if let Some(g1) = g.restore_live(lives[0]) {
            let l = lives[0];
            assert(sequences_behind(e, g1)) by {
                assert forall|i: InstrumentId| #[trigger] g1.book_or_empty(i).next_sequence <= e.book_or_empty(
                    i,
                ).next_sequence by {
                    assert(g.book_or_empty(i).next_sequence <= e.book_or_empty(i).next_sequence);
                }
            }
            let rest = lives.subrange(1, lives.len() as int);
            assert forall|j: int| 0 <= j < rest.len() implies (#[trigger] rest[j]).arrival_sequence < e.book_or_empty(
                rest[j].order.instrument,
            ).next_sequence by {
                assert(rest[j] == lives[j + 1]);
            }
            lemma_restore_behind(e, g1, rest);
        }
    }
}

/// An engine rebuilt from what a consistent engine in arrival order exports is no further
/// on in its books' sequence numbers.
proof fn lemma_rebuilt_behind(e: EngineModel, st: EngineState)
    requires
        consistent(e),
        books_in_arrival_order(e),
        exports(e, st),
        EngineModel::recovered(st.live_orders@, accounts_view(st.accounts@), st.next_global_sequence) is Some,
    ensures
        sequences_behind(
            e,
            EngineModel::recovered(st.live_orders@, accounts_view(st.accounts@), st.next_global_sequence).unwrap(),
        ),
{
    let ids = choose|ids: Seq<OrderId>|
        {
            &&& ids.no_duplicates()
            &&& ids.to_set() == e.live_orders.dom()
            &&& st.live_orders@ == sort_live(ids.map_values(|id: OrderId| e.live_orders[id]))
        };
    assert(st.live_orders@ == snapshot_lives(e, ids));
    crate::recovery_laws::lemma_recovery_list(e, ids);
    let lives = sort_live(snapshot_lives(e, ids));
    assert forall|j: int| 0 <= j < lives.len() implies (#[trigger] lives[j]).arrival_sequence < e.book_or_empty(
        lives[j].order.instrument,
    ).next_sequence by {
        let id = lives[j].order.id;
        assert(e.live_orders.contains_key(id));
        let inst = lives[j].order.instrument;
        assert(crate::engine_laws::live_ok(e, id));
        assert(e.books.contains_key(inst));
        assert(crate::engine_laws::holds_book(e, inst, e.books[inst]));
        assert(e.books[inst].orders.contains_key(id));
        assert(crate::arrival_order::arrival_ordered(e.books[inst]));
    }
    let g0 = EngineModel::bare(accounts_view(st.accounts@), st.next_global_sequence);
    assert(sequences_behind(e, g0));
    lemma_restore_behind(e, g0, lives);
}

} // verus!
