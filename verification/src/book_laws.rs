use vstd::prelude::*;

use crate::book_model::{
    crosses, is_max_of, is_min_of, lemma_levels_finite, lemma_remove_order_wf, lemma_set_remaining_wf, max_key,
    min_key, BookModel,
};
use crate::events::Event;
use crate::types::{NewOrder, Price, Quantity, Sequence, Side};

verus! {

/// A finite non-empty set of prices has a largest and a smallest element.
pub proof fn lemma_extremes_exist(s: Set<u64>)
    requires
        s.finite(),
        !s.is_empty(),
    ensures
        exists|p: u64| is_max_of(s, p),
        exists|p: u64| is_min_of(s, p),
    decreases s.len(),
{
    let x = s.choose();
    let r = s.remove(x);
    if r.is_empty() {
        assert(is_max_of(s, x)) by {
            assert forall|q: u64| #[trigger] s.contains(q) implies q <= x by {
                if q != x {
                    assert(r.contains(q));
                }
            }
        }
        assert(is_min_of(s, x)) by {
            assert forall|q: u64| #[trigger] s.contains(q) implies x <= q by {
                if q != x {
                    assert(r.contains(q));
                }
            }
        }
    } else {
        lemma_extremes_exist(r);
        let p = choose|p: u64| is_max_of(r, p);
        if x <= p {
            assert(is_max_of(s, p)) by {
                assert forall|q: u64| #[trigger] s.contains(q) implies q <= p by {
                    if q != x {
                        assert(r.contains(q));
                    }
                }
            }
        } else {
            assert(is_max_of(s, x)) by {
                assert forall|q: u64| #[trigger] s.contains(q) implies q <= x by {
                    if q != x {
                        assert(r.contains(q));
                    }
                }
            }
        }
        let n = choose|p: u64| is_min_of(r, p);
        if n <= x {
            assert(is_min_of(s, n)) by {
                assert forall|q: u64| #[trigger] s.contains(q) implies n <= q by {
                    if q != x {
                        assert(r.contains(q));
                    }
                }
            }
        } else {
            assert(is_min_of(s, x)) by {
                assert forall|q: u64| #[trigger] s.contains(q) implies x <= q by {
                    if q != x {
                        assert(r.contains(q));
                    }
                }
            }
        }
    }
}

/// What `max_key` and `min_key` give.
pub proof fn lemma_key_extremes(s: Set<u64>)
    ensures
        max_key(s) matches Some(p) ==> is_max_of(s, p),
        min_key(s) matches Some(p) ==> is_min_of(s, p),
        s.finite() && !s.is_empty() ==> max_key(s) is Some && min_key(s) is Some,
        max_key(s) is None ==> !(exists|p: u64| s.contains(p)) || !s.finite(),
        min_key(s) is None ==> !(exists|p: u64| s.contains(p)) || !s.finite(),
{
    if s.finite() && !s.is_empty() {
        lemma_extremes_exist(s);
    }
    if exists|p: u64| s.contains(p) {
        let p = choose|p: u64| s.contains(p);
        if s.finite() {
            assert(!s.is_empty()) by {
                assert(s.contains(p));
            }
            lemma_extremes_exist(s);
        }
    }
}

/// The sequence number an event carries.
pub open spec fn event_sequence(e: Event) -> Sequence {
    match e {
        Event::Accepted { sequence, .. } => sequence,
        Event::Rejected { sequence, .. } => sequence,
        Event::Trade { sequence, .. } => sequence,
        Event::Rested { sequence, .. } => sequence,
        Event::Filled { sequence, .. } => sequence,
        Event::Cancelled { sequence, .. } => sequence,
        Event::Replaced { sequence, .. } => sequence,
        Event::LevelUpdated { sequence, .. } => sequence,
        Event::BestBidAskUpdated { sequence, .. } => sequence,
        Event::CashCredited { sequence, .. } => sequence,
        Event::PositionCredited { sequence, .. } => sequence,
    }
}

/// The quantity an event reports as traded (0 for events that are no trade).
pub open spec fn trade_qty(e: Event) -> int {
    match e {
        Event::Trade { quantity, .. } => quantity as int,
        _ => 0,
    }
}

/// The total quantity traded in a sequence of events.
pub open spec fn traded(evs: Seq<Event>) -> int
    decreases evs.len(),
{
    if evs.len() == 0 {
        0
    } else {
        trade_qty(evs[0]) + traded(evs.drop_first())
    }
}

/// The quantity of order `id` that events report as left resting or cancelled.
pub open spec fn unfilled_qty(e: Event, id: u64) -> int {
    match e {
        Event::Rested { order_id, remaining, .. } => if order_id == id {
            remaining as int
        } else {
            0
        },
        Event::Cancelled { order_id, cancelled_qty, .. } => if order_id == id {
            cancelled_qty as int
        } else {
            0
        },
        _ => 0,
    }
}

/// The total quantity of order `id` that a sequence of events reports as left resting or
/// cancelled.
pub open spec fn unfilled(evs: Seq<Event>, id: u64) -> int
    decreases evs.len(),
{
    if evs.len() == 0 {
        0
    } else {
        unfilled_qty(evs[0], id) + unfilled(evs.drop_first(), id)
    }
}

/// A trade of taker `order` is at a price its limit allows, and names it as the taker.
pub open spec fn trade_respects(order: NewOrder, e: Event) -> bool {
    match e {
        Event::Trade { price, taker_order_id, side, .. } => crosses(order, price) && taker_order_id == order.id
            && side == order.side,
        _ => true,
    }
}

/// No bid price of the book is at or above any of its ask prices.
pub open spec fn uncrossed(m: BookModel) -> bool {
    forall|b: Price, a: Price| #[trigger] m.bids.contains_key(b) && #[trigger] m.asks.contains_key(a) ==> b < a
}

/// The totals of two event sequences add up.
pub proof fn lemma_traded_concat(a: Seq<Event>, b: Seq<Event>)
    ensures
        traded(a + b) == traded(a) + traded(b),
    decreases a.len(),
{
    if a.len() == 0 {
        assert(a + b =~= b);
    } else {
        assert((a + b).drop_first() =~= a.drop_first() + b);
        lemma_traded_concat(a.drop_first(), b);
    }
}

/// The unfilled totals of two event sequences add up.
pub proof fn lemma_unfilled_concat(a: Seq<Event>, b: Seq<Event>, id: u64)
    ensures
        unfilled(a + b, id) == unfilled(a, id) + unfilled(b, id),
    decreases a.len(),
{
    if a.len() == 0 {
        assert(a + b =~= b);
    } else {
        assert((a + b).drop_first() =~= a.drop_first() + b);
        lemma_unfilled_concat(a.drop_first(), b, id);
    }
}

/// What matching a taker against a book gives: a well-formed book whose taker side is
/// untouched and whose opposite side only lost levels, the quantity left, events stamped
/// with the sequence whose trades respect the taker's limit and add up to what was
/// matched, and, where something is left, no opposite price that the taker would accept.
pub open spec fn match_result_ok(
    m: BookModel,
    order: NewOrder,
    remaining: Quantity,
    sequence: Sequence,
    r: (BookModel, Quantity, Seq<Event>),
) -> bool {
    &&& r.0.wf()
    &&& r.0.instrument == m.instrument
    &&& r.0.next_sequence == m.next_sequence
    &&& r.0.levels(order.side) == m.levels(order.side)
    &&& r.0.levels(order.side.opposite()).dom().subset_of(m.levels(order.side.opposite()).dom())
    &&& r.0.orders.dom().subset_of(m.orders.dom())
    &&& r.1 <= remaining
    &&& traded(r.2) + r.1 == remaining
    &&& forall|i: int| 0 <= i < r.2.len() ==> event_sequence(#[trigger] r.2[i]) == sequence
    &&& forall|i: int| 0 <= i < r.2.len() ==> trade_respects(order, #[trigger] r.2[i])
    &&& unfilled(r.2, order.id) == 0
    &&& r.1 > 0 ==> forall|p: Price| #[trigger] r.0.levels(order.side.opposite()).contains_key(p) ==> !crosses(order, p)
}

/// A limit the best opposite price does not reach is reached by no opposite price.
proof fn lemma_no_cross_beyond_best(m: BookModel, order: NewOrder, best: Price)
    requires
        m.wf(),
        m.best_price(order.side.opposite()) == Some(best),
        !crosses(order, best),
    ensures
        forall|p: Price| #[trigger] m.levels(order.side.opposite()).contains_key(p) ==> !crosses(order, p),
{
    lemma_key_extremes(m.bids.dom());
    lemma_key_extremes(m.asks.dom());
    assert forall|p: Price| #[trigger] m.levels(order.side.opposite()).contains_key(p) implies !crosses(order, p) by {
        match order.side {
            Side::Bid => {
                assert(m.asks.dom().contains(p));
                assert(best <= p);
            },
            Side::Ask => {
                assert(m.bids.dom().contains(p));
                assert(p <= best);
            },
        }
    }
}

/// Matching keeps the arrival of every order that stays, and the arrival order of the book.
pub proof fn lemma_match_taker_arrivals(m: BookModel, order: NewOrder, remaining: Quantity, sequence: Sequence)
    requires
        m.wf(),
    ensures
        forall|id: u64| #[trigger] m.match_taker(order, remaining, sequence).0.orders.contains_key(id)
            ==> m.orders.contains_key(id) && m.match_taker(order, remaining, sequence).0.orders[id].arrival_sequence
            == m.orders[id].arrival_sequence,
        crate::arrival_order::arrival_ordered(m) ==> crate::arrival_order::arrival_ordered(
            m.match_taker(order, remaining, sequence).0,
        ),
    decreases remaining, m.orders.dom().len(),
{
    let opp = order.side.opposite();
    let r = m.match_taker(order, remaining, sequence);
    lemma_levels_finite(m, opp);
    lemma_key_extremes(m.bids.dom());
    lemma_key_extremes(m.asks.dom());
    if remaining > 0 && m.best_price(opp) is Some {
        let p = m.best_price(opp).unwrap();
        assert(m.levels(opp).contains_key(p));
        assert(m.side_wf(opp));
        assert(m.level_wf(opp, p));
        let q = m.levels(opp)[p];
        assert(q.len() > 0);
        assert(m.orders.contains_key(q[0]));
        if crosses(order, p) {
            let maker = m.orders[q[0]];
            let traded_now = if remaining <= maker.remaining_qty { remaining } else { maker.remaining_qty };
            let maker_left = (maker.remaining_qty - traded_now) as u64;
            let taker_left = (remaining - traded_now) as u64;
            let after = m.set_remaining(q[0], maker_left);
            lemma_set_remaining_wf(m, q[0], maker_left);
            if crate::arrival_order::arrival_ordered(m) {
                crate::arrival_order::lemma_set_remaining_ordered(m, q[0], maker_left);
            }
            if maker_left == 0 {
                let next = after.remove_order(q[0]);
                lemma_remove_order_wf(after, q[0]);
                if crate::arrival_order::arrival_ordered(m) {
                    crate::arrival_order::lemma_remove_order_ordered(after, q[0]);
                }
                assert(next.orders.dom() =~= m.orders.dom().remove(q[0]));
                lemma_match_taker_arrivals(next, order, taker_left, sequence);
                assert(r.0 == next.match_taker(order, taker_left, sequence).0);
            } else {
                assert(r.0 == after);
            }
        }
    }
}

/// Matching a taker against a well-formed book satisfies `match_result_ok`.
#[verifier::rlimit(40)]
pub proof fn lemma_match_taker(m: BookModel, order: NewOrder, remaining: Quantity, sequence: Sequence)
    requires
        m.wf(),
    ensures
        match_result_ok(m, order, remaining, sequence, m.match_taker(order, remaining, sequence)),
    decreases remaining, m.orders.dom().len(),
{
    let opp = order.side.opposite();
    let r = m.match_taker(order, remaining, sequence);
    lemma_levels_finite(m, opp);
    lemma_key_extremes(m.bids.dom());
    lemma_key_extremes(m.asks.dom());
    if remaining == 0 {
        assert(r.2.len() == 0);
        assert(m.levels(opp).dom().subset_of(m.levels(opp).dom()));
    } else {
        match m.best_price(opp) {
            None => {
                assert(r.2.len() == 0);
                assert forall|p: Price| #[trigger] m.levels(opp).contains_key(p) implies !crosses(order, p) by {
                    assert(m.levels(opp).dom().contains(p));
                }
                assert(m.levels(opp).dom().subset_of(m.levels(opp).dom()));
            },
            Some(p) => {
                assert(m.levels(opp).contains_key(p));
                assert(m.side_wf(opp));
                assert(m.level_wf(opp, p));
                let q = m.levels(opp)[p];
                assert(q.len() > 0);
                assert(m.orders.contains_key(q[0]));
                if !crosses(order, p) {
                    assert(r.2.len() == 0);
                    lemma_no_cross_beyond_best(m, order, p);
                    assert(m.levels(opp).dom().subset_of(m.levels(opp).dom()));
                } else {
                    let maker = m.orders[q[0]];
                    let traded_now = if remaining <= maker.remaining_qty { remaining } else { maker.remaining_qty };
                    let maker_left = (maker.remaining_qty - traded_now) as u64;
                    let taker_left = (remaining - traded_now) as u64;
                    let after = m.set_remaining(q[0], maker_left);
                    lemma_set_remaining_wf(m, q[0], maker_left);
                    assert(maker.price == p);
                    assert(maker.side == opp);
                    let trade = Event::Trade {
                        instrument: m.instrument,
                        maker_order_id: maker.order_id,
                        taker_order_id: order.id,
                        side: order.side,
                        price: maker.price,
                        quantity: traded_now,
                        maker_remaining: maker_left,
                        taker_remaining: taker_left,
                        sequence,
                    };
                    let level = after.level_event(opp, p, sequence);
                    assert(trade_respects(order, trade));
                    if maker_left == 0 {
                        let filled = Event::Filled { instrument: m.instrument, order_id: maker.order_id, sequence };
                        let next = after.remove_order(q[0]);
                        lemma_remove_order_wf(after, q[0]);
                        assert(next.orders.dom() =~= m.orders.dom().remove(q[0]));
                        lemma_match_taker(next, order, taker_left, sequence);
                        let r2 = next.match_taker(order, taker_left, sequence);
                        let head = seq![trade, level, filled];
                        assert(r.2 == head + r2.2);
                        lemma_traded_concat(head, r2.2);
                        lemma_unfilled_concat(head, r2.2, order.id);
                        assert(traded(head) == traded_now) by {
                            reveal_with_fuel(traded, 4);
                        }
                        assert(unfilled(head, order.id) == 0) by {
                            reveal_with_fuel(unfilled, 4);
                        }
                        assert forall|i: int| 0 <= i < r.2.len() implies event_sequence(#[trigger] r.2[i]) == sequence
                            && trade_respects(order, r.2[i]) by {
                            if i >= 3 {
                                assert(r.2[i] == r2.2[i - 3]);
                            }
                        }
                        assert(next.levels(order.side) == m.levels(order.side));
                        assert(next.levels(opp).dom().subset_of(m.levels(opp).dom()));
                        assert(next.orders.dom().subset_of(m.orders.dom()));
                    } else {
                        assert(taker_left == 0);
                        assert(r.2 == seq![trade, level]);
                        assert(traded(r.2) == traded_now) by {
                            reveal_with_fuel(traded, 3);
                        }
                        assert(unfilled(r.2, order.id) == 0) by {
                            reveal_with_fuel(unfilled, 3);
                        }
                        assert forall|i: int| 0 <= i < r.2.len() implies event_sequence(#[trigger] r.2[i]) == sequence
                            && trade_respects(order, r.2[i]) by {
                        }
                        assert(after.levels(opp).dom().subset_of(m.levels(opp).dom()));
                        assert(after.orders.dom().subset_of(m.orders.dom()));
                    }
                }
            },
        }
    }
}

/// Taking a sequence number keeps a book well-formed.
pub proof fn lemma_bumped_wf(m: BookModel)
    requires
        m.wf(),
    ensures
        m.bump_sequence().wf(),
        m.bump_sequence().bids == m.bids,
        m.bump_sequence().asks == m.asks,
        m.bump_sequence().orders == m.orders,
{
    let m0 = m.bump_sequence();
    assert forall|side: Side, p: Price| #[trigger] m0.levels(side).contains_key(p) implies m0.level_wf(side, p) by {
        assert(m.side_wf(side));
        assert(m.level_wf(side, p));
    }
    assert(m0.side_wf(Side::Bid));
    assert(m0.side_wf(Side::Ask));
}

/// The totals of the events that close an accepted order: the tail after the trades.
proof fn lemma_tail_totals(head: Seq<Event>, trades: Seq<Event>, tail: Seq<Event>, id: u64)
    ensures
        traded(head + trades + tail) == traded(head) + traded(trades) + traded(tail),
        unfilled(head + trades + tail, id) == unfilled(head, id) + unfilled(trades, id) + unfilled(tail, id),
{
    lemma_traded_concat(head + trades, tail);
    lemma_traded_concat(head, trades);
    lemma_unfilled_concat(head + trades, tail, id);
    lemma_unfilled_concat(head, trades, id);
}

/// A submit that fits the counters leaves a well-formed book of the same instrument, in
/// which the submitted order rests exactly where it is left resting.
pub proof fn lemma_submit_outcome_wf(m: BookModel, order: NewOrder)
    requires
        m.wf(),
        m.submit_fits(order),
    ensures
        m.submit_outcome(order).0.wf(),
        m.submit_outcome(order).0.instrument == m.instrument,
        crate::arrival_order::arrival_ordered(m) ==> crate::arrival_order::arrival_ordered(m.submit_outcome(order).0),
{
    let sq = m.next_sequence;
    let m0 = m.bump_sequence();
    lemma_bumped_wf(m);
    if crate::arrival_order::arrival_ordered(m) {
        crate::arrival_order::lemma_bump_ordered(m);
    }
    if m.validation_error(order) is None {
        lemma_match_taker(m0, order, order.quantity, sq);
        lemma_match_taker_arrivals(m0, order, order.quantity, sq);
        let (m1, left, t) = m0.match_taker(order, order.quantity, sq);
        if left > 0 && BookModel::rests(order) {
            let res = m.resting_of(order, left, sq);
            crate::book_model::lemma_add_resting_wf(m1, res);
            if crate::arrival_order::arrival_ordered(m) {
                assert(m1.next_sequence == sq + 1);
                assert forall|id: u64| #[trigger] m1.orders.contains_key(id) implies m1.orders[id].arrival_sequence
                    < res.arrival_sequence by {
                    assert(m.orders.contains_key(id));
                }
                crate::arrival_order::lemma_add_resting_ordered(m1, res, m1.next_sequence);
                assert(BookModel { next_sequence: m1.next_sequence, ..m1.add_resting(res) } == m1.add_resting(res));
            }
        }
    }
}

/// A cancel leaves a well-formed book of the same instrument without the cancelled order.
pub proof fn lemma_cancel_outcome_wf(m: BookModel, id: u64)
    requires
        m.wf(),
    ensures
        m.cancel_outcome(id).0.wf(),
        m.cancel_outcome(id).0.instrument == m.instrument,
        m.cancel_outcome(id).0.orders == m.orders.remove(id),
        crate::arrival_order::arrival_ordered(m) && m.next_sequence < u64::MAX
            ==> crate::arrival_order::arrival_ordered(m.cancel_outcome(id).0),
{
    lemma_bumped_wf(m);
    if crate::arrival_order::arrival_ordered(m) && m.next_sequence < u64::MAX {
        crate::arrival_order::lemma_bump_ordered(m);
    }
    if m.orders.contains_key(id) {
        lemma_remove_order_wf(m.bump_sequence(), id);
        if crate::arrival_order::arrival_ordered(m) && m.next_sequence < u64::MAX {
            crate::arrival_order::lemma_remove_order_ordered(m.bump_sequence(), id);
        }
    } else {
        assert(m.orders.remove(id) =~= m.orders);
    }
}

/// One submit uses exactly one sequence number, and every event it reports carries it.
pub proof fn law_submit_uses_one_sequence(m: BookModel, order: NewOrder)
    requires
        m.wf(),
        m.next_sequence < u64::MAX,
    ensures
        m.submit_outcome(order).0.next_sequence == m.next_sequence + 1,
        forall|i: int|
            0 <= i < m.submit_outcome(order).1.len() ==> event_sequence(#[trigger] m.submit_outcome(order).1[i])
                == m.next_sequence,
{
    let sq = m.next_sequence;
    let m0 = m.bump_sequence();
    lemma_bumped_wf(m);
    let (m2, evs) = m.submit_outcome(order);
    if m.validation_error(order) is None {
        lemma_match_taker(m0, order, order.quantity, sq);
        let r = m0.match_taker(order, order.quantity, sq);
        let acc = seq![Event::Accepted { instrument: m.instrument, order_id: order.id, sequence: sq }];
        let t = r.2;
        assert forall|i: int| 0 <= i < evs.len() implies event_sequence(#[trigger] evs[i]) == sq by {
            if 1 <= i < 1 + t.len() {
                assert(evs[i] == t[i - 1]);
            }
        }
    }
}

/// Every lot of an accepted order is accounted for: traded, left resting, or cancelled.
pub proof fn law_submit_accounts_for_quantity(m: BookModel, order: NewOrder)
    requires
        m.wf(),
        m.validation_error(order) is None,
    ensures
        traded(m.submit_outcome(order).1) + unfilled(m.submit_outcome(order).1, order.id) == order.quantity,
        traded(m.submit_outcome(order).1) <= order.quantity,
{
    let sq = m.next_sequence;
    let m0 = m.bump_sequence();
    lemma_bumped_wf(m);
    lemma_match_taker(m0, order, order.quantity, sq);
    let r = m0.match_taker(order, order.quantity, sq);
    let (m1, left, t) = r;
    let acc = seq![Event::Accepted { instrument: m.instrument, order_id: order.id, sequence: sq }];
    assert(traded(acc) == 0 && unfilled(acc, order.id) == 0) by {
        reveal_with_fuel(traded, 2);
        reveal_with_fuel(unfilled, 2);
    }
    let evs = m.submit_outcome(order).1;
    if left == 0 {
        let tail = seq![
            Event::Filled { instrument: m.instrument, order_id: order.id, sequence: sq },
            m1.top_event(sq),
        ];
        assert(evs == acc + t + tail);
        lemma_tail_totals(acc, t, tail, order.id);
        assert(traded(tail) == 0 && unfilled(tail, order.id) == 0) by {
            reveal_with_fuel(traded, 3);
            reveal_with_fuel(unfilled, 3);
        }
    } else if BookModel::rests(order) {
        let price = order.price.unwrap();
        let m2 = m1.add_resting(m.resting_of(order, left, sq));
        let tail = seq![
            Event::Rested {
                instrument: m.instrument,
                order_id: order.id,
                side: order.side,
                price,
                remaining: left,
                sequence: sq,
            },
            m2.level_event(order.side, price, sq),
            m2.top_event(sq),
        ];
        assert(evs == acc + t + tail);
        lemma_tail_totals(acc, t, tail, order.id);
        assert(traded(tail) == 0 && unfilled(tail, order.id) == left) by {
            reveal_with_fuel(traded, 4);
            reveal_with_fuel(unfilled, 4);
        }
    } else {
        let tail = seq![
            Event::Cancelled { instrument: m.instrument, order_id: order.id, cancelled_qty: left, sequence: sq },
            m1.top_event(sq),
        ];
        assert(evs == acc + t + tail);
        lemma_tail_totals(acc, t, tail, order.id);
        assert(traded(tail) == 0 && unfilled(tail, order.id) == left) by {
            reveal_with_fuel(traded, 3);
            reveal_with_fuel(unfilled, 3);
        }
    }
}

/// No trade of a submitted order is at a price beyond its limit, and each names it as the
/// taker on its side.
pub proof fn law_submit_never_trades_through(m: BookModel, order: NewOrder)
    requires
        m.wf(),
    ensures
        forall|i: int|
            0 <= i < m.submit_outcome(order).1.len() ==> trade_respects(order, #[trigger] m.submit_outcome(order).1[i]),
{
    let sq = m.next_sequence;
    let m0 = m.bump_sequence();
    lemma_bumped_wf(m);
    let evs = m.submit_outcome(order).1;
    if m.validation_error(order) is None {
        lemma_match_taker(m0, order, order.quantity, sq);
        let t = m0.match_taker(order, order.quantity, sq).2;
        assert forall|i: int| 0 <= i < evs.len() implies trade_respects(order, #[trigger] evs[i]) by {
            if 1 <= i < 1 + t.len() {
                assert(evs[i] == t[i - 1]);
            }
        }
    }
}

/// A submit keeps the book well-formed and never leaves it crossed: after it, every bid is
/// still below every ask.
pub proof fn law_submit_keeps_book_uncrossed(m: BookModel, order: NewOrder)
    requires
        m.wf(),
        uncrossed(m),
        m.submit_fits(order),
    ensures
        m.submit_outcome(order).0.wf(),
        uncrossed(m.submit_outcome(order).0),
{
    let sq = m.next_sequence;
    let m0 = m.bump_sequence();
    lemma_bumped_wf(m);
    let m2 = m.submit_outcome(order).0;
    if m.validation_error(order) is None {
        lemma_match_taker(m0, order, order.quantity, sq);
        let (m1, left, t) = m0.match_taker(order, order.quantity, sq);
        let opp = order.side.opposite();
        assert(uncrossed(m1)) by {
            assert forall|b: Price, a: Price| #[trigger] m1.bids.contains_key(b) && #[trigger] m1.asks.contains_key(a) implies b < a by {
                assert(m1.levels(order.side) == m0.levels(order.side));
                assert(m1.levels(opp).dom().subset_of(m0.levels(opp).dom()));
                assert(m0.bids.contains_key(b) && m0.asks.contains_key(a));
            }
        }
        if left > 0 && BookModel::rests(order) {
            let price = order.price.unwrap();
            let res = m.resting_of(order, left, sq);
            crate::book_model::lemma_add_resting_wf(m1, res);
            assert forall|b: Price, a: Price| #[trigger] m2.bids.contains_key(b) && #[trigger] m2.asks.contains_key(a) implies b < a by {
                assert(m2.levels(opp) == m1.levels(opp));
                assert(m2.levels(order.side).dom() == m1.levels(order.side).dom().insert(price));
                match order.side {
                    Side::Bid => {
                        if b == price && !m1.bids.contains_key(b) {
                            assert(m1.levels(opp).contains_key(a));
                            assert(!crosses(order, a));
                        } else if b == price {
                            assert(m1.levels(opp).contains_key(a));
                            assert(!crosses(order, a));
                        }
                    },
                    Side::Ask => {
                        if a == price {
                            assert(m1.levels(opp).contains_key(b));
                            assert(!crosses(order, b));
                        }
                    },
                }
            }
        }
    }
}

/// A cancel keeps the book well-formed and uncrossed; a resting order that is cancelled
/// leaves the book, with nothing else changed, and its remaining quantity is reported.
pub proof fn law_cancel_removes_only_that_order(m: BookModel, id: u64)
    requires
        m.wf(),
        uncrossed(m),
    ensures
        m.cancel_outcome(id).0.wf(),
        uncrossed(m.cancel_outcome(id).0),
        m.cancel_outcome(id).0.orders == m.orders.remove(id),
        m.orders.contains_key(id) ==> m.cancel_outcome(id).1[0] == (Event::Cancelled {
            instrument: m.instrument,
            order_id: id,
            cancelled_qty: m.orders[id].remaining_qty,
            sequence: m.next_sequence,
        }),
{
    let m0 = m.bump_sequence();
    lemma_bumped_wf(m);
    if m.orders.contains_key(id) {
        lemma_remove_order_wf(m0, id);
        let m2 = m0.remove_order(id);
        let s = m.orders[id].side;
        assert forall|b: Price, a: Price| #[trigger] m2.bids.contains_key(b) && #[trigger] m2.asks.contains_key(a) implies b < a by {
            assert(m2.levels(s.opposite()) == m0.levels(s.opposite()));
            assert(m2.levels(s).dom().subset_of(m0.levels(s).dom()));
            assert(m0.bids.contains_key(b) && m0.asks.contains_key(a));
        }
    } else {
        assert(m.orders.remove(id) =~= m.orders);
    }
}

/// Price-time priority: an accepted order that crosses the best opposite level trades
/// first with the oldest order there, at that order's price.
pub proof fn law_first_trade_is_with_oldest_best_order(m: BookModel, order: NewOrder, best: Price)
    requires
        m.wf(),
        m.validation_error(order) is None,
        m.best_price(order.side.opposite()) == Some(best),
        crosses(order, best),
    ensures
        m.submit_outcome(order).1[1] matches Event::Trade { maker_order_id, price, .. } && maker_order_id
            == m.levels(order.side.opposite())[best][0] && price == best,
{
    let sq = m.next_sequence;
    let m0 = m.bump_sequence();
    lemma_bumped_wf(m);
    let opp = order.side.opposite();
    lemma_levels_finite(m, opp);
    lemma_key_extremes(m.bids.dom());
    lemma_key_extremes(m.asks.dom());
    assert(m.levels(opp).contains_key(best));
    assert(m.side_wf(opp));
    assert(m.level_wf(opp, best));
    let q = m.levels(opp)[best];
    assert(q.len() > 0);
    assert(m.orders.contains_key(q[0]));
    assert(m0.best_price(opp) == Some(best));
    let t = m0.match_taker(order, order.quantity, sq).2;
    assert(t[0] matches Event::Trade { maker_order_id, price, .. } && maker_order_id == q[0] && price == best);
    assert(m.submit_outcome(order).1[1] == t[0]);
}

/// What is left of a good-till-cancelled limit order rests at the tail of its level, and
/// reading it back gives its price, its side, and the quantity left.
pub proof fn law_rested_order_reads_back(m: BookModel, order: NewOrder)
    requires
        m.wf(),
        m.validation_error(order) is None,
        BookModel::rests(order),
        m.bump_sequence().match_taker(order, order.quantity, m.next_sequence).1 > 0,
    ensures
        m.submit_outcome(order).0.order(order.id) == Some(
            m.resting_of(order, m.bump_sequence().match_taker(order, order.quantity, m.next_sequence).1, m.next_sequence),
        ),
        m.submit_outcome(order).0.levels(order.side)[order.price.unwrap()].last() == order.id,
{
}

/// Cancelling an order that was just submitted and rested without trading gives the book
/// back: the same resting orders and the same levels, in the same queue order. Only the
/// two sequence numbers used remain.
pub proof fn law_cancel_undoes_resting_submit(m: BookModel, order: NewOrder)
    requires
        m.wf(),
        m.validation_error(order) is None,
        BookModel::rests(order),
        m.best_price(order.side.opposite()) matches Some(best) ==> !crosses(order, best),
        m.next_sequence + 1 < u64::MAX,
    ensures
        m.submit_outcome(order).0.cancel_outcome(order.id).0.orders == m.orders,
        m.submit_outcome(order).0.cancel_outcome(order.id).0.bids == m.bids,
        m.submit_outcome(order).0.cancel_outcome(order.id).0.asks == m.asks,
        m.submit_outcome(order).0.cancel_outcome(order.id).0.next_sequence == m.next_sequence + 2,
{
    let sq = m.next_sequence;
    let m0 = m.bump_sequence();
    let opp = order.side.opposite();
    assert(m0.best_price(opp) == m.best_price(opp));
    let r = m0.match_taker(order, order.quantity, sq);
    assert(r == (m0, order.quantity, Seq::<Event>::empty()));
    let id = order.id;
    let res = m.resting_of(order, order.quantity, sq);
    let m2 = m0.add_resting(res);
    assert(m.submit_outcome(order).0 == m2);
    let side = order.side;
    let p = order.price.unwrap();
    let lv = m.levels(side);
    let q2 = m2.levels(side)[p];
    let old_q = if lv.contains_key(p) { lv[p] } else { Seq::<u64>::empty() };
    assert(q2 == old_q.push(id));
    assert(!old_q.contains(id)) by {
        if old_q.contains(id) {
            crate::book_model::lemma_level_member(m, side, p, id);
        }
    }
    assert(q2[q2.len() - 1] == id);
    let k = q2.index_of(id);
    assert(0 <= k < q2.len() && q2[k] == id);
    assert(k == q2.len() - 1) by {
        if k < q2.len() - 1 {
            assert(old_q[k] == id);
            assert(old_q.contains(id));
        }
    }
    assert(q2.remove(k) =~= old_q);
    let m3 = m2.bump_sequence().remove_order(id);
    assert(m2.submit_outcome(order).0 == m2.submit_outcome(order).0);
    assert(m2.cancel_outcome(id).0 == m3);
    assert(m3.orders =~= m.orders);
    if lv.contains_key(p) {
        assert(m3.levels(side) =~= lv);
    } else {
        assert(m3.levels(side) =~= lv);
    }
    assert(m3.levels(opp) == m.levels(opp));
    match side {
        Side::Bid => {
            assert(m3.bids == m.bids);
            assert(m3.asks == m.asks);
        },
        Side::Ask => {
            assert(m3.bids == m.bids);
            assert(m3.asks == m.asks);
        },
    }
}

/// A new book is not crossed.
pub proof fn law_new_book_uncrossed(instrument: u64)
    ensures
        uncrossed(BookModel::empty(instrument)),
        BookModel::empty(instrument).wf(),
{
    crate::engine_laws::lemma_empty_book_wf(instrument);
}

/// Order `id` rests in the book on `side`.
pub open spec fn rests_on(m: BookModel, side: Side, id: u64) -> bool {
    m.orders.contains_key(id) && m.orders[id].side == side
}

/// Price `a` is at least as good as price `b` on `side`: higher for bids, lower for asks.
pub open spec fn at_least_as_good(side: Side, a: Price, b: Price) -> bool {
    match side {
        Side::Bid => a >= b,
        Side::Ask => a <= b,
    }
}

/// The top of the book reflects the resting orders: a side has no best level exactly when
/// no order rests on it; otherwise the best level's price is that of a resting order and
/// no resting order of the side has a better one, the level holds exactly the orders
/// resting at that price, its quantity is their total remaining quantity and its count is
/// their number.
pub proof fn law_snapshot_reflects_resting_orders(m: BookModel, side: Side)
    requires
        m.wf(),
    ensures
        m.best_level(side) is None <==> !(exists|id: u64| #[trigger] rests_on(m, side, id)),
        m.best_level(side) matches Some(l) ==> exists|id: u64| #[trigger] rests_on(m, side, id) && m.orders[id].price
            == l.price,
        m.best_level(side) matches Some(l) ==> forall|id: u64| #[trigger] rests_on(m, side, id) ==> at_least_as_good(
            side,
            l.price,
            m.orders[id].price,
        ),
        m.best_level(side) matches Some(l) ==> forall|id: u64| #[trigger] m.levels(side)[l.price].contains(id) <==> (
        rests_on(m, side, id) && m.orders[id].price == l.price),
        m.best_level(side) matches Some(l) ==> l.total_qty == crate::book_model::sum_remaining(
            m.orders,
            m.levels(side)[l.price],
        ) && l.order_count == m.levels(side)[l.price].len(),
{
    lemma_levels_finite(m, side);
    lemma_key_extremes(m.bids.dom());
    lemma_key_extremes(m.asks.dom());
    let dom = m.levels(side).dom();
    if exists|id: u64| #[trigger] rests_on(m, side, id) {
        let id = choose|id: u64| #[trigger] rests_on(m, side, id);
        let o = m.orders[id];
        assert(m.levels(side).contains_key(o.price));
        assert(dom.contains(o.price));
    }
    match m.best_price(side) {
        None => {
            assert forall|id: u64| !#[trigger] rests_on(m, side, id) by {
                if rests_on(m, side, id) {
                    assert(dom.contains(m.orders[id].price));
                }
            }
        },
        Some(p) => {
            assert(m.levels(side).contains_key(p));
            assert(m.side_wf(side));
            assert(m.level_wf(side, p));
            let q = m.levels(side)[p];
            assert(q.contains(q[0]));
            crate::book_model::lemma_level_member(m, side, p, q[0]);
            assert(rests_on(m, side, q[0]));
            assert forall|id: u64| #[trigger] rests_on(m, side, id) implies at_least_as_good(side, p, m.orders[id].price) by {
                assert(dom.contains(m.orders[id].price));
            }
            assert forall|id: u64| #[trigger] q.contains(id) <==> (rests_on(m, side, id) && m.orders[id].price == p) by {
                if q.contains(id) {
                    crate::book_model::lemma_level_member(m, side, p, id);
                }
            }
            crate::book_model::lemma_sum_nonneg(m.orders, q);
        },
    }
}


/// The book after a sequence of submits and cancels, from `m`; `None` where a command is
/// neither, or where a submit or cancel would overflow the book's counters.
pub open spec fn book_run(m: BookModel, commands: Seq<crate::types::EngineCommand>) -> Option<BookModel>
    decreases commands.len(),
{
    if commands.len() == 0 {
        Some(m)
    } else {
        let next = match commands[0] {
            crate::types::EngineCommand::Submit(order) => if m.submit_fits(order) {
                Some(m.submit_outcome(order).0)
            } else {
                None
            },
            crate::types::EngineCommand::Cancel { order_id } => if m.next_sequence < u64::MAX {
                Some(m.cancel_outcome(order_id).0)
            } else {
                None
            },
            _ => None,
        };
        match next {
            None => None,
            Some(m1) => book_run(m1, commands.subrange(1, commands.len() as int)),
        }
    }
}

/// A book reached from a new one by submits and cancels is never crossed: every bid price
/// is below every ask price, so its best bid is below its best ask.
pub proof fn law_reachable_books_uncrossed(instrument: u64, commands: Seq<crate::types::EngineCommand>)
    requires
        book_run(BookModel::empty(instrument), commands) is Some,
    ensures
        book_run(BookModel::empty(instrument), commands).unwrap().wf(),
        uncrossed(book_run(BookModel::empty(instrument), commands).unwrap()),
        ({
            let s = book_run(BookModel::empty(instrument), commands).unwrap().snapshot();
            (s.best_bid is Some && s.best_ask is Some) ==> s.best_bid.unwrap().price < s.best_ask.unwrap().price
        }),
{
    law_new_book_uncrossed(instrument);
    lemma_book_run_uncrossed(BookModel::empty(instrument), commands);
    let m = book_run(BookModel::empty(instrument), commands).unwrap();
    lemma_key_extremes(m.bids.dom());
    lemma_key_extremes(m.asks.dom());
    if let (Some(b), Some(a)) = (m.best_price(Side::Bid), m.best_price(Side::Ask)) {
        assert(is_max_of(m.bids.dom(), b));
        assert(is_min_of(m.asks.dom(), a));
        assert(m.bids.contains_key(b) && m.asks.contains_key(a));
        assert(m.snapshot().best_bid == Some(m.level_snapshot(Side::Bid, b)));
        assert(m.snapshot().best_ask == Some(m.level_snapshot(Side::Ask, a)));
        assert(uncrossed(m));
        assert(b < a);
    }
}

proof fn lemma_book_run_uncrossed(m: BookModel, commands: Seq<crate::types::EngineCommand>)
    requires
        m.wf(),
        uncrossed(m),
        book_run(m, commands) is Some,
    ensures
        book_run(m, commands).unwrap().wf(),
        uncrossed(book_run(m, commands).unwrap()),
    decreases commands.len(),
{
    if commands.len() > 0 {
        let rest = commands.subrange(1, commands.len() as int);
        match commands[0] {
            crate::types::EngineCommand::Submit(order) => {
                law_submit_keeps_book_uncrossed(m, order);
                lemma_book_run_uncrossed(m.submit_outcome(order).0, rest);
            },
            crate::types::EngineCommand::Cancel { order_id } => {
                law_cancel_removes_only_that_order(m, order_id);
                lemma_book_run_uncrossed(m.cancel_outcome(order_id).0, rest);
            },
            _ => {},
        }
    }
}

} // verus!
