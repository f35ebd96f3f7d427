use vstd::prelude::*;

use crate::engine::LiveOrderState;
use crate::engine_model::EngineModel;
use crate::events::Event;
use crate::book_model::{lemma_remove_order_wf, lemma_set_remaining_wf, BookModel};
use crate::book_laws::lemma_key_extremes;
use crate::engine_laws::{consistent, holds_book, live_ok};
use crate::types::{EngineCommand, NewOrder, Sequence};
use crate::risk::{
    account_of, buy_limit, release_outcome, reserve_fits, reserve_outcome, sat_mul, trade_fits, trade_outcome, AccountView,
    Reservation,
};
use crate::risk_laws::{total_cash, total_position};
use crate::book::BookSnapshot;
use crate::types::{AccountId, InstrumentId, OrderId, Price, Quantity, Side};

verus! {

/// The sum of `w` over the values of a map (0 where there are infinitely many).
pub open spec fn total_of<V>(lives: Map<u64, V>, w: spec_fn(V) -> int) -> int
    decreases lives.dom().len(),
{
    if lives.dom().finite() && lives.dom().len() > 0 {
        let k = lives.dom().choose();
        w(lives[k]) + total_of(lives.remove(k), w)
    } else {
        0
    }
}

/// A sum can be taken starting from any of its entries.
pub proof fn lemma_total_remove<V>(lives: Map<u64, V>, w: spec_fn(V) -> int, k: u64)
    requires
        lives.dom().finite(),
        lives.contains_key(k),
    ensures
        total_of(lives, w) == w(lives[k]) + total_of(lives.remove(k), w),
    decreases lives.dom().len(),
{
    assert(lives.dom().len() > 0);
    let c = lives.dom().choose();
    if c != k {
        lemma_total_remove(lives.remove(c), w, k);
        lemma_total_remove(lives.remove(k), w, c);
        assert(lives.remove(c).remove(k) =~= lives.remove(k).remove(c));
    }
}

/// Putting in an entry changes a sum by its weight, less the weight of the entry it
/// replaces.
pub proof fn lemma_total_insert<V>(lives: Map<u64, V>, w: spec_fn(V) -> int, k: u64, v: V)
    requires
        lives.dom().finite(),
    ensures
        total_of(lives.insert(k, v), w) == total_of(lives, w) - (if lives.contains_key(k) { w(lives[k]) } else { 0 })
            + w(v),
{
    lemma_total_remove(lives.insert(k, v), w, k);
    if lives.contains_key(k) {
        lemma_total_remove(lives, w, k);
        assert(lives.insert(k, v).remove(k) =~= lives.remove(k));
    } else {
        assert(lives.insert(k, v).remove(k) =~= lives);
    }
}

/// A sum of weights that are never negative is at least each of them.
pub proof fn lemma_total_at_least<V>(lives: Map<u64, V>, w: spec_fn(V) -> int, k: u64)
    requires
        lives.dom().finite(),
        forall|l: V| #[trigger] w(l) >= 0,
    ensures
        lives.contains_key(k) ==> total_of(lives, w) >= w(lives[k]),
        total_of(lives, w) >= 0,
    decreases lives.dom().len(),
{
    if lives.dom().len() > 0 {
        let c = lives.dom().choose();
        assert(lives.contains_key(c));
        lemma_total_at_least(lives.remove(c), w, k);
        if lives.contains_key(k) {
            lemma_total_remove(lives, w, k);
            lemma_total_at_least(lives.remove(k), w, k);
        }
    }
}


/// The cash that an order holds reserved for account `a`.
pub open spec fn held_cash(a: AccountId) -> spec_fn(LiveOrderState) -> int {
    |l: LiveOrderState|
        if l.order.account == a {
            match l.reservation {
                Reservation::BuyCash { reserved_cash, .. } => reserved_cash as int,
                Reservation::SellPosition { .. } => 0,
            }
        } else {
            0
        }
}

/// The quantity of instrument `i` that an order holds reserved for account `a`.
pub open spec fn held_qty(a: AccountId, i: InstrumentId) -> spec_fn(LiveOrderState) -> int {
    |l: LiveOrderState|
        if l.order.account == a && l.order.instrument == i {
            match l.reservation {
                Reservation::SellPosition { reserved_qty } => reserved_qty as int,
                Reservation::BuyCash { .. } => 0,
            }
        } else {
            0
        }
}

/// An order holds exactly what is left of it: a buy its limit price (its own price, where
/// it has one) times its remaining quantity in cash, a sell its remaining quantity.
pub open spec fn holds_exactly(l: LiveOrderState) -> bool {
    match l.reservation {
        Reservation::BuyCash { limit_price, reserved_cash } => l.order.side is Bid && reserved_cash == limit_price
            * l.remaining_qty && (l.order.price matches Some(p) ==> limit_price == p),
        Reservation::SellPosition { reserved_qty } => l.order.side is Ask && reserved_qty == l.remaining_qty,
    }
}

/// Accounts `m2` differ from `m` in reserved cash and reserved quantity exactly as order `l`
/// became `l2`.
pub open spec fn moved_with(m: Map<AccountId, AccountView>, m2: Map<AccountId, AccountView>, l: LiveOrderState, l2: LiveOrderState) -> bool {
    &&& forall|a: AccountId| #[trigger] account_of(m2, a).reserved_cash == account_of(m, a).reserved_cash
        - held_cash(a)(l) + held_cash(a)(l2)
    &&& forall|a: AccountId, i: InstrumentId| #[trigger] account_of(m2, a).position(i).reserved == account_of(m, a).position(
        i,
    ).reserved - held_qty(a, i)(l) + held_qty(a, i)(l2)
}

/// A trade of `quantity` out of what is left of an order that holds exactly what is left of
/// it takes the traded part out of the account's reserved cash or quantity and out of the
/// reservation alike.
pub proof fn lemma_trade_moves(
    m: Map<AccountId, AccountView>,
    l: LiveOrderState,
    price: Price,
    quantity: Quantity,
)
    requires
        holds_exactly(l),
        quantity <= l.remaining_qty,
        account_of(m, l.order.account).reserved_cash >= held_cash(l.order.account)(l),
        account_of(m, l.order.account).position(l.order.instrument).reserved >= held_qty(l.order.account, l.order.instrument)(l),
    ensures
        ({
            let (m2, r2) = trade_outcome(m, l.order.account, l.order.instrument, l.order.side, price, quantity, l.reservation);
            let l2 = LiveOrderState { reservation: r2, remaining_qty: (l.remaining_qty - quantity) as u64, ..l };
            holds_exactly(l2) && moved_with(m, m2, l, l2)
        }),
{
    let id = l.order.account;
    let inst = l.order.instrument;
    let (m2, r2) = trade_outcome(m, id, inst, l.order.side, price, quantity, l.reservation);
    let l2 = LiveOrderState { reservation: r2, remaining_qty: (l.remaining_qty - quantity) as u64, ..l };
    let a = account_of(m, id);
    match l.reservation {
        Reservation::BuyCash { limit_price, reserved_cash } => {
            let rem = l.remaining_qty;
            assert(limit_price * quantity <= limit_price * rem && limit_price * (rem - quantity) == limit_price * rem
                - limit_price * quantity) by (nonlinear_arith)
                requires
                    quantity <= rem,
            ;
            assert(crate::risk::sat_mul(limit_price, quantity) == limit_price * quantity);
            assert forall|x: AccountId| #[trigger] account_of(m2, x).reserved_cash == account_of(m, x).reserved_cash
                - held_cash(x)(l) + held_cash(x)(l2) by {}
            assert forall|x: AccountId, i: InstrumentId| #[trigger] account_of(m2, x).position(i).reserved == account_of(
                m,
                x,
            ).position(i).reserved - held_qty(x, i)(l) + held_qty(x, i)(l2) by {}
        },
        Reservation::SellPosition { reserved_qty } => {
            assert forall|x: AccountId| #[trigger] account_of(m2, x).reserved_cash == account_of(m, x).reserved_cash
                - held_cash(x)(l) + held_cash(x)(l2) by {}
            assert forall|x: AccountId, i: InstrumentId| #[trigger] account_of(m2, x).position(i).reserved == account_of(
                m,
                x,
            ).position(i).reserved - held_qty(x, i)(l) + held_qty(x, i)(l2) by {}
        },
    }
}

/// Giving back what an order holds takes it out of the account's reserved cash or quantity
/// and leaves the reservation empty.
pub proof fn lemma_release_moves(m: Map<AccountId, AccountView>, l: LiveOrderState)
    requires
        account_of(m, l.order.account).reserved_cash >= held_cash(l.order.account)(l),
        account_of(m, l.order.account).position(l.order.instrument).reserved >= held_qty(l.order.account, l.order.instrument)(l),
    ensures
        ({
            let (m2, r2) = release_outcome(m, l.order.account, l.order.instrument, l.reservation);
            let l2 = LiveOrderState { reservation: r2, ..l };
            moved_with(m, m2, l, l2) && forall|a: AccountId| held_cash(a)(l2) == 0 && forall|a: AccountId, i: InstrumentId|
                held_qty(a, i)(l2) == 0
        }),
{
    let (m2, r2) = release_outcome(m, l.order.account, l.order.instrument, l.reservation);
    let l2 = LiveOrderState { reservation: r2, ..l };
    assert forall|x: AccountId| #[trigger] account_of(m2, x).reserved_cash == account_of(m, x).reserved_cash
        - held_cash(x)(l) + held_cash(x)(l2) by {}
    assert forall|x: AccountId, i: InstrumentId| #[trigger] account_of(m2, x).position(i).reserved == account_of(
        m,
        x,
    ).position(i).reserved - held_qty(x, i)(l) + held_qty(x, i)(l2) by {}
}


/// Weights of reserved amounts are never negative.
proof fn lemma_held_nonneg(a: AccountId, i: InstrumentId)
    ensures
        forall|l: LiveOrderState| #[trigger] held_cash(a)(l) >= 0,
        forall|l: LiveOrderState| #[trigger] held_qty(a, i)(l) >= 0,
{
}

/// Each account holds reserved exactly what its live orders, and the order `t` being
/// submitted, hold; and each of them holds exactly what is left of it.
pub open spec fn totals_with(e: EngineModel, t: LiveOrderState) -> bool {
    &&& e.live_orders.dom().finite()
    &&& forall|id: OrderId| #[trigger] e.live_orders.contains_key(id) ==> holds_exactly(e.live_orders[id])
    &&& holds_exactly(t)
    &&& forall|a: AccountId| #[trigger] account_of(e.accounts, a).reserved_cash == total_of(e.live_orders, held_cash(a))
        + held_cash(a)(t)
    &&& forall|a: AccountId, i: InstrumentId| #[trigger] account_of(e.accounts, a).position(i).reserved == total_of(
        e.live_orders,
        held_qty(a, i),
    ) + held_qty(a, i)(t)
}

/// An account holds at least what one live order of it, or the order being submitted,
/// holds.
proof fn lemma_totals_cover(e: EngineModel, t: LiveOrderState, l: LiveOrderState, id: OrderId)
    requires
        totals_with(e, t),
        l == t || (e.live_orders.contains_key(id) && e.live_orders[id] == l),
    ensures
        account_of(e.accounts, l.order.account).reserved_cash >= held_cash(l.order.account)(l),
        account_of(e.accounts, l.order.account).position(l.order.instrument).reserved >= held_qty(
            l.order.account,
            l.order.instrument,
        )(l),
{
    let a = l.order.account;
    let i = l.order.instrument;
    lemma_held_nonneg(a, i);
    lemma_total_at_least(e.live_orders, held_cash(a), id);
    lemma_total_at_least(e.live_orders, held_qty(a, i), id);
}

/// Accounts that move as an order changes keep the totals, with the order in place of the
/// taker.
proof fn lemma_totals_taker_moves(e: EngineModel, t: LiveOrderState, m2: Map<AccountId, AccountView>, t2: LiveOrderState)
    requires
        totals_with(e, t),
        moved_with(e.accounts, m2, t, t2),
        holds_exactly(t2),
    ensures
        totals_with(EngineModel { accounts: m2, ..e }, t2),
{
}

/// Accounts that move as a live order changes keep the totals, with the changed order live.
proof fn lemma_totals_live_moves(
    e: EngineModel,
    t: LiveOrderState,
    m2: Map<AccountId, AccountView>,
    id: OrderId,
    l2: LiveOrderState,
)
    requires
        totals_with(e, t),
        e.live_orders.contains_key(id),
        moved_with(e.accounts, m2, e.live_orders[id], l2),
        holds_exactly(l2),
    ensures
        totals_with(EngineModel { accounts: m2, live_orders: e.live_orders.insert(id, l2), ..e }, t),
{
    let e2 = EngineModel { accounts: m2, live_orders: e.live_orders.insert(id, l2), ..e };
    assert(e2.live_orders.dom() =~= e.live_orders.dom());
    assert forall|a: AccountId| #[trigger] account_of(e2.accounts, a).reserved_cash == total_of(e2.live_orders, held_cash(a))
        + held_cash(a)(t) by {
        lemma_total_insert(e.live_orders, held_cash(a), id, l2);
    }
    assert forall|a: AccountId, i: InstrumentId| #[trigger] account_of(e2.accounts, a).position(i).reserved == total_of(
        e2.live_orders,
        held_qty(a, i),
    ) + held_qty(a, i)(t) by {
        lemma_total_insert(e.live_orders, held_qty(a, i), id, l2);
    }
}

/// Forgetting a live order that holds nothing keeps the totals.
proof fn lemma_totals_forget(e: EngineModel, t: LiveOrderState, id: OrderId)
    requires
        totals_with(e, t),
        e.live_orders.contains_key(id) ==> e.live_orders[id].remaining_qty == 0,
    ensures
        totals_with(e.forget(id), t),
{
    let e2 = e.forget(id);
    if e.live_orders.contains_key(id) {
        let l = e.live_orders[id];
        assert(holds_exactly(l));
        assert forall|a: AccountId| #[trigger] account_of(e2.accounts, a).reserved_cash == total_of(
            e2.live_orders,
            held_cash(a),
        ) + held_cash(a)(t) by {
            lemma_total_remove(e.live_orders, held_cash(a), id);
        }
        assert forall|a: AccountId, i: InstrumentId| #[trigger] account_of(e2.accounts, a).position(i).reserved
            == total_of(e2.live_orders, held_qty(a, i)) + held_qty(a, i)(t) by {
            lemma_total_remove(e.live_orders, held_qty(a, i), id);
        }
    } else {
        assert(e2.live_orders =~= e.live_orders);
    }
}

/// Engine `e2` holds the same cash, and the same quantity of each instrument, over all
/// accounts as `e`.
pub open spec fn balances_kept(e: EngineModel, e2: EngineModel) -> bool {
    &&& e2.accounts.dom().finite()
    &&& cash_total(e2.accounts) == cash_total(e.accounts)
    &&& forall|i: InstrumentId| #[trigger] position_total(e2.accounts, i) == position_total(e.accounts, i)
}

/// One trade settles the taker and a live maker and keeps the totals; where the accounts
/// are finitely many and a buying taker trades within its limit, it keeps the cash and
/// quantities over all accounts.
pub proof fn lemma_trade_totals(e: EngineModel, order: NewOrder, taker: LiveOrderState, id: OrderId, trade: Event, quantity: Quantity)
    requires
        totals_with(e, taker),
        taker.order == order,
        id != order.id,
        e.live_orders.contains_key(id),
        e.live_orders[id].order.instrument == order.instrument,
        e.live_orders[id].order.side != order.side,
        quantity <= e.live_orders[id].remaining_qty,
        quantity <= taker.remaining_qty,
        trade matches Event::Trade { price, .. } && e.live_orders[id].order.price == Some(price),
        trade matches Event::Trade {
            instrument,
            maker_order_id,
            taker_order_id,
            quantity: q,
            maker_remaining,
            taker_remaining,
            ..
        } && instrument == order.instrument && maker_order_id == id && taker_order_id == order.id && q == quantity
            && maker_remaining == e.live_orders[id].remaining_qty - quantity && taker_remaining == taker.remaining_qty
            - quantity,
    ensures
        match e.submit_effect(order, taker, trade) {
            None => true,
            Some((e1, t1)) => {
                &&& totals_with(e1, t1)
                &&& t1.remaining_qty == taker.remaining_qty - quantity
                &&& t1.order == order
                &&& (e.accounts.dom().finite() && (taker.reservation matches Reservation::BuyCash { limit_price, .. }
                    ==> trade->Trade_price <= limit_price)) ==> balances_kept(e, e1)
            },
        },
{
    if let Event::Trade { instrument, price, .. } = trade {
        if let Some((e2, t2)) = e.submit_effect(order, taker, trade) {
            lemma_totals_cover(e, taker, taker, id);
            lemma_trade_moves(e.accounts, taker, price, quantity);
            let (a1, r1) = trade_outcome(
                e.accounts,
                order.account,
                instrument,
                order.side,
                price,
                quantity,
                taker.reservation,
            );
            let t1 = LiveOrderState { reservation: r1, remaining_qty: (taker.remaining_qty - quantity) as u64, ..taker };
            lemma_totals_taker_moves(e, taker, a1, t1);
            let e1 = EngineModel { accounts: a1, ..e };
            let maker = e.live_orders[id];
            lemma_totals_cover(e1, t1, maker, id);
            lemma_trade_moves(a1, maker, price, quantity);
            let (a2, r2) = trade_outcome(a1, maker.order.account, instrument, maker.order.side, price, quantity, maker.reservation);
            let m2 = LiveOrderState { reservation: r2, remaining_qty: (maker.remaining_qty - quantity) as u64, ..maker };
            lemma_totals_live_moves(e1, t1, a2, id, m2);
            assert(t2 == t1);
            if e.accounts.dom().finite() && (taker.reservation matches Reservation::BuyCash { limit_price, .. }
                ==> price <= limit_price) {
                lemma_trade_balances(e.accounts, taker, price, quantity);
                lemma_trade_balances(a1, maker, price, quantity);
            }
        }
    }
}


/// The effects of the events of matching keep the totals and leave the taker with what
/// matching left of it.
#[verifier::rlimit(40)]
pub proof fn lemma_match_run_totals(
    e: EngineModel,
    order: NewOrder,
    taker: LiveOrderState,
    m: BookModel,
    remaining: Quantity,
    sequence: Sequence,
)
    requires
        m.wf(),
        m.instrument == order.instrument,
        holds_book(e, order.instrument, m),
        forall|id: OrderId| #[trigger] e.live_orders.contains_key(id) ==> live_ok(e, id),
        forall|id: OrderId| #[trigger] e.order_locations.contains_key(id) ==> e.live_orders.contains_key(id),
        !m.orders.contains_key(order.id),
        !e.live_orders.contains_key(order.id),
        taker.order == order,
        taker.remaining_qty == remaining,
        totals_with(e, taker),
    ensures
        match e.run(order, taker, m.match_taker(order, remaining, sequence).2) {
            None => true,
            Some((e2, t2)) => {
                &&& totals_with(e2, t2)
                &&& t2.remaining_qty == m.match_taker(order, remaining, sequence).1
                &&& t2.order == order
                &&& !e2.live_orders.contains_key(order.id)
                &&& (e.accounts.dom().finite() && !(order.side is Bid && order.order_type is Market)) ==> balances_kept(
                    e,
                    e2,
                )
            },
        },
    decreases remaining, m.orders.dom().len(),
{
    let opp = order.side.opposite();
    let r = m.match_taker(order, remaining, sequence);
    crate::book_model::lemma_levels_finite(m, opp);
    lemma_key_extremes(m.bids.dom());
    lemma_key_extremes(m.asks.dom());
    if remaining == 0 || m.best_price(opp) is None {
        assert(r.2.len() == 0);
        assert(e.run(order, taker, r.2) == Some((e, taker)));
    } else {
        let p = m.best_price(opp).unwrap();
        assert(m.levels(opp).contains_key(p));
        assert(m.side_wf(opp));
        assert(m.level_wf(opp, p));
        let q = m.levels(opp)[p];
        assert(q.len() > 0);
        assert(m.orders.contains_key(q[0]));
        if !crate::book_model::crosses(order, p) {
            assert(r.2.len() == 0);
            assert(e.run(order, taker, r.2) == Some((e, taker)));
        } else {
            let maker = m.orders[q[0]];
            let traded_now = if remaining <= maker.remaining_qty { remaining } else { maker.remaining_qty };
            let maker_left = (maker.remaining_qty - traded_now) as u64;
            let taker_left = (remaining - traded_now) as u64;
            let after = m.set_remaining(q[0], maker_left);
            lemma_set_remaining_wf(m, q[0], maker_left);
            let trade = Event::Trade {
                instrument: m.instrument,
                maker_order_id: maker.order_id,
                taker_order_id: order.id,
                side: order.side,
                price: maker.price,
                quantity: traded_now,
                maker_remaining: maker_left,
                taker_remaining: taker_left,
                sequence,
            };
            let level = after.level_event(opp, p, sequence);
            assert(maker.order_id == q[0]);
            assert(e.live_orders.contains_key(q[0]));
            assert(maker == crate::engine_laws::live_view(e.live_orders[q[0]]));
            crate::engine_laws::lemma_trade_effect(e, order, taker, m, q[0], trade, maker_left);
            lemma_trade_totals(e, order, taker, q[0], trade, traded_now);
            if order.side is Bid && !(order.order_type is Market) {
                assert(m.orders[q[0]].price == p);
                assert(order.price is Some && order.price.unwrap() >= p);
            }
            let head2 = seq![trade, level];
            crate::engine_laws::lemma_run_two(e, order, taker, trade, level);
            if maker_left == 0 {
                let filled = Event::Filled { instrument: m.instrument, order_id: maker.order_id, sequence };
                let next = after.remove_order(q[0]);
                let r2 = next.match_taker(order, taker_left, sequence);
                assert(r.2 == head2.push(filled) + r2.2);
                crate::engine_laws::lemma_run_concat(e, order, taker, head2.push(filled), r2.2);
                crate::engine_laws::lemma_run_concat(e, order, taker, head2, seq![filled]);
                assert(head2 + seq![filled] =~= head2.push(filled));
                match e.submit_effect(order, taker, trade) {
                    None => {},
                    Some((e1, t1)) => {
                        assert(e1.submit_effect(order, t1, level) == Some((e1, t1)));
                        assert(e.run(order, taker, head2) == Some((e1, t1)));
                        crate::engine_laws::lemma_filled_effect(e1, order, t1, after, q[0]);
                        crate::engine_laws::lemma_run_one(e1, order, t1, filled);
                        let e3 = e1.forget(q[0]);
                        assert(e1.submit_effect(order, t1, filled) == Some((e3, t1)));
                        assert(e1.run(order, t1, seq![filled]) == Some((e3, t1)));
                        assert(after.orders.contains_key(q[0]));
                        assert(after.orders[q[0]] == crate::engine_laws::live_view(e1.live_orders[q[0]]));
                        lemma_totals_forget(e1, t1, q[0]);
                        lemma_remove_order_wf(after, q[0]);
                        assert(next.orders.dom() =~= m.orders.dom().remove(q[0]));
                        lemma_match_run_totals(e3, order, t1, next, taker_left, sequence);
                    },
                }
            } else {
                assert(r.2 == head2);
                match e.submit_effect(order, taker, trade) {
                    None => {},
                    Some((e1, t1)) => {
                        assert(e1.submit_effect(order, t1, level) == Some((e1, t1)));
                        assert(e.run(order, taker, head2) == Some((e1, t1)));
                    },
                }
            }
        }
    }
}


/// Each account's reserved cash, and its reserved quantity of each instrument, is the sum
/// of what its live orders hold; and each live order holds exactly what is left of it.
pub open spec fn reserved_totals_match(e: EngineModel) -> bool {
    &&& e.live_orders.dom().finite()
    &&& forall|id: OrderId| #[trigger] e.live_orders.contains_key(id) ==> holds_exactly(e.live_orders[id])
    &&& forall|a: AccountId| #[trigger] account_of(e.accounts, a).reserved_cash == total_of(e.live_orders, held_cash(a))
    &&& forall|a: AccountId, i: InstrumentId| #[trigger] account_of(e.accounts, a).position(i).reserved == total_of(
        e.live_orders,
        held_qty(a, i),
    )
}

/// A taker with nothing left holds nothing.
proof fn lemma_totals_done(e: EngineModel, t: LiveOrderState)
    requires
        totals_with(e, t),
        t.remaining_qty == 0,
    ensures
        reserved_totals_match(e),
{
    assert(forall|a: AccountId| #[trigger] held_cash(a)(t) == 0);
    assert(forall|a: AccountId, i: InstrumentId| #[trigger] held_qty(a, i)(t) == 0);
}

/// A taker that gives back what it holds leaves the totals to the live orders.
proof fn lemma_totals_release(e: EngineModel, order: NewOrder, t: LiveOrderState)
    requires
        totals_with(e, t),
        t.order == order,
    ensures
        e.release_taker(order, t) matches Some((e2, _)) ==> reserved_totals_match(e2) && (e.accounts.dom().finite()
            ==> balances_kept(e, e2)),
{
    lemma_totals_cover(e, t, t, order.id);
    lemma_release_moves(e.accounts, t);
    if e.accounts.dom().finite() && e.release_taker(order, t) is Some {
        lemma_release_balances(e.accounts, t);
    }
}

/// A taker that rests becomes live with what it holds.
proof fn lemma_totals_rest(e: EngineModel, order: NewOrder, t: LiveOrderState, rested: Event)
    requires
        totals_with(e, t),
        t.order == order,
        !e.live_orders.contains_key(order.id),
        rested matches Event::Rested { order_id, remaining, .. } && order_id == order.id && remaining == t.remaining_qty,
    ensures
        e.submit_effect(order, t, rested) matches Some((e2, _)) ==> reserved_totals_match(e2),
{
    if let Some((e2, t2)) = e.submit_effect(order, t, rested) {
        assert(e2.live_orders == e.live_orders.insert(order.id, t2));
        assert(forall|a: AccountId| #[trigger] held_cash(a)(t2) == held_cash(a)(t));
        assert(forall|a: AccountId, i: InstrumentId| #[trigger] held_qty(a, i)(t2) == held_qty(a, i)(t));
        assert forall|a: AccountId| #[trigger] account_of(e2.accounts, a).reserved_cash == total_of(
            e2.live_orders,
            held_cash(a),
        ) by {
            lemma_total_insert(e.live_orders, held_cash(a), order.id, t2);
        }
        assert forall|a: AccountId, i: InstrumentId| #[trigger] account_of(e2.accounts, a).position(i).reserved
            == total_of(e2.live_orders, held_qty(a, i)) by {
            lemma_total_insert(e.live_orders, held_qty(a, i), order.id, t2);
        }
    }
}

/// Events that change nothing of the engine keep the totals.
proof fn lemma_totals_quiet(e: EngineModel, order: NewOrder, t: LiveOrderState, a: Event, b: Event)
    requires
        reserved_totals_match(e),
        a is LevelUpdated,
        b is BestBidAskUpdated,
    ensures
        e.run(order, t, seq![a, b]) matches Some((e2, _)) ==> reserved_totals_match(e2),
{
    crate::engine_laws::lemma_run_two(e, order, t, a, b);
}


/// The effects of the events of a submit to book `m` leave each account's reserved
/// amounts the sums of what its live orders hold.
#[verifier::rlimit(40)]
proof fn lemma_submit_totals(e: EngineModel, order: NewOrder, taker: LiveOrderState, m: BookModel)
    requires
        m.wf(),
        m.instrument == order.instrument,
        holds_book(e, order.instrument, m),
        forall|id: OrderId| #[trigger] e.live_orders.contains_key(id) ==> live_ok(e, id),
        forall|id: OrderId| #[trigger] e.order_locations.contains_key(id) ==> e.live_orders.contains_key(id),
        !e.live_orders.contains_key(order.id),
        taker.order == order,
        taker.remaining_qty == order.quantity,
        totals_with(e, taker),
    ensures
        e.submit_effects(order, taker, m.submit_outcome(order).1) matches Some(e3) ==> reserved_totals_match(e3) && ((
        e.accounts.dom().finite() && !(order.side is Bid && order.order_type is Market)) ==> balances_kept(e, e3)),
{
    let sq = m.next_sequence;
    let m0 = m.bump_sequence();
    crate::book_laws::lemma_bumped_wf(m);
    let events = m.submit_outcome(order).1;
    crate::engine_laws::lemma_run_effects(e, order, taker, events);
    assert(holds_book(e, order.instrument, m0));
    if let Some(reason) = m.validation_error(order) {
        let rej = Event::Rejected { instrument: Some(m.instrument), order_id: order.id, reason, sequence: sq };
        assert(events == seq![rej]);
        crate::engine_laws::lemma_run_one(e, order, taker, rej);
        lemma_totals_release(e, order, taker);
    } else {
        assert(!m.orders.contains_key(order.id));
        let acc = seq![Event::Accepted { instrument: m.instrument, order_id: order.id, sequence: sq }];
        let (m1, left, t) = m0.match_taker(order, order.quantity, sq);
        lemma_match_run_totals(e, order, taker, m0, order.quantity, sq);
        crate::engine_laws::lemma_run_one(e, order, taker, acc[0]);
        assert(acc =~= seq![acc[0]]);
        assert(e.run(order, taker, acc) == Some((e, taker)));
        crate::engine_laws::lemma_run_concat(e, order, taker, acc, t);
        let tail = if left == 0 {
            seq![Event::Filled { instrument: m.instrument, order_id: order.id, sequence: sq }, m1.top_event(sq)]
        } else if BookModel::rests(order) {
            let m2 = m1.add_resting(m.resting_of(order, left, sq));
            seq![
                Event::Rested {
                    instrument: m.instrument,
                    order_id: order.id,
                    side: order.side,
                    price: order.price.unwrap(),
                    remaining: left,
                    sequence: sq,
                },
                m2.level_event(order.side, order.price.unwrap(), sq),
                m2.top_event(sq),
            ]
        } else {
            seq![
                Event::Cancelled { instrument: m.instrument, order_id: order.id, cancelled_qty: left, sequence: sq },
                m1.top_event(sq),
            ]
        };
        assert(events == acc + t + tail);
        crate::engine_laws::lemma_run_concat(e, order, taker, acc + t, tail);
        if let Some((e4, t4)) = e.run(order, taker, t) {
            if left == 0 {
                assert(tail == seq![tail[0], tail[1]]);
                crate::engine_laws::lemma_run_two(e4, order, t4, tail[0], tail[1]);
                lemma_totals_done(e4, t4);
                if let Some((e5, t5)) = e4.run(order, t4, tail) {
                    assert(e5.accounts == e4.accounts);
                }
            } else if BookModel::rests(order) {
                assert(tail == seq![tail[0], tail[1], tail[2]]);
                crate::engine_laws::lemma_run_three(e4, order, t4, tail[0], tail[1], tail[2]);
                lemma_totals_rest(e4, order, t4, tail[0]);
                if let Some((e5, t5)) = e4.submit_effect(order, t4, tail[0]) {
                    lemma_totals_quiet(e5, order, t5, tail[1], tail[2]);
                    crate::engine_laws::lemma_run_two(e5, order, t5, tail[1], tail[2]);
                    assert(e5.accounts == e4.accounts);
                }
            } else {
                assert(tail == seq![tail[0], tail[1]]);
                crate::engine_laws::lemma_run_two(e4, order, t4, tail[0], tail[1]);
                lemma_totals_release(e4, order, t4);
            }
        }
    }
}


/// A refusal, or accounts that keep their reserved amounts, keep the totals.
proof fn lemma_totals_same_reserved(e: EngineModel, e2: EngineModel)
    requires
        reserved_totals_match(e),
        e2.live_orders == e.live_orders,
        forall|a: AccountId| #[trigger] account_of(e2.accounts, a).reserved_cash == account_of(e.accounts, a).reserved_cash,
        forall|a: AccountId, i: InstrumentId| #[trigger] account_of(e2.accounts, a).position(i).reserved == account_of(
            e.accounts,
            a,
        ).position(i).reserved,
    ensures
        reserved_totals_match(e2),
{
}

/// What a buy sets aside is its limit times its quantity, and that fits a `u64`.
pub open spec fn reserves_exactly(e: EngineModel, command: EngineCommand) -> bool {
    match command {
        EngineCommand::Submit(order) => order.side is Bid ==> buy_limit(order, e.snapshot(order.instrument))
            * order.quantity <= u64::MAX,
        EngineCommand::Replace(r) => (e.live_orders.contains_key(r.order_id) && e.live_orders[r.order_id].order.side is Bid)
            ==> r.new_price * r.new_quantity <= u64::MAX,
        _ => true,
    }
}

/// A submit keeps each account's reserved amounts the sums of what its live orders hold.
#[verifier::rlimit(40)]
proof fn lemma_submit_keeps_totals(e: EngineModel, order: NewOrder)
    requires
        consistent(e),
        reserved_totals_match(e),
        order.side is Bid ==> buy_limit(order, e.snapshot(order.instrument)) * order.quantity <= u64::MAX,
        e.submit(order) is Some,
    ensures
        reserved_totals_match(e.submit(order).unwrap().0),
        (e.accounts.dom().finite() && !(order.side is Bid && order.order_type is Market)) ==> balances_kept(
            e,
            e.submit(order).unwrap().0,
        ),
{
    let inst = order.instrument;
    if e.live_orders.contains_key(order.id) {
        lemma_totals_same_reserved(e, e.submit(order).unwrap().0);
    } else {
        let snapshot = e.snapshot(inst);
        let (accounts, reserved) = reserve_outcome(e.accounts, order, snapshot);
        if e.accounts.dom().finite() {
            lemma_reserve_balances(e.accounts, order, snapshot);
        }
        let a = account_of(e.accounts, order.account);
        assert forall|x: AccountId, i: InstrumentId| #[trigger] account_of(accounts, x).position(i).reserved == account_of(
            e.accounts,
            x,
        ).position(i).reserved + (if x == order.account && i == inst && order.side is Ask && reserved is Ok {
            order.quantity as int
        } else {
            0
        }) by {
            if x == order.account && order.side is Ask {
                if a.positions.contains_key(i) || i == inst {
                } else {
                }
            }
        }
        match reserved {
            Err(_) => {
                lemma_totals_same_reserved(e, EngineModel { accounts, ..e });
                lemma_totals_same_reserved(EngineModel { accounts, ..e }, e.submit(order).unwrap().0);
            },
            Ok(r) => {
                let book = e.book_or_empty(inst);
                crate::engine_laws::lemma_book_or_empty_pub(e, inst);
                let taker = LiveOrderState {
                    order,
                    remaining_qty: order.quantity,
                    arrival_sequence: 0,
                    reservation: r.reservation,
                };
                let e2 = EngineModel { books: e.books.insert(inst, book.submit_outcome(order).0), accounts, ..e };
                assert forall|id: OrderId| #[trigger] e2.live_orders.contains_key(id) implies live_ok(e2, id) by {
                    assert(live_ok(e, id));
                }
                assert(holds_book(e2, inst, book));
                if order.side is Bid {
                    assert(crate::risk::sat_mul(buy_limit(order, snapshot), order.quantity) == buy_limit(order, snapshot)
                        * order.quantity);
                }
                assert(holds_exactly(taker));
                assert forall|x: AccountId| #[trigger] account_of(e2.accounts, x).reserved_cash == total_of(
                    e2.live_orders,
                    held_cash(x),
                ) + held_cash(x)(taker) by {
                    assert(account_of(e.accounts, x).reserved_cash == total_of(e.live_orders, held_cash(x)));
                    if x == order.account {
                        if order.side is Bid {
                            let required = crate::risk::sat_mul(buy_limit(order, snapshot), order.quantity);
                            assert(r.reservation == Reservation::BuyCash {
                                limit_price: buy_limit(order, snapshot),
                                reserved_cash: required,
                            });
                            assert(account_of(accounts, x).reserved_cash == a.reserved_cash + required);
                            assert(held_cash(x)(taker) == required);
                        } else {
                            assert(account_of(accounts, x).reserved_cash == a.reserved_cash);
                            assert(held_cash(x)(taker) == 0);
                        }
                    } else {
                        assert(account_of(accounts, x) == account_of(e.accounts, x));
                        assert(held_cash(x)(taker) == 0);
                    }
                }
                assert forall|x: AccountId, i: InstrumentId| #[trigger] account_of(e2.accounts, x).position(i).reserved
                    == total_of(e2.live_orders, held_qty(x, i)) + held_qty(x, i)(taker) by {
                    assert(account_of(accounts, x).position(i).reserved == account_of(e.accounts, x).position(i).reserved
                        + (if x == order.account && i == inst && order.side is Ask && reserved is Ok {
                        order.quantity as int
                    } else {
                        0
                    }));
                }
                assert(totals_with(e2, taker));
                lemma_submit_totals(e2, order, taker, book);
            },
        }
    }
}


/// The effects of one or three events of a cancel, one after the other.
proof fn lemma_terminal_unfold(e: EngineModel, a: Event, b: Event, c: Event)
    ensures
        e.terminal_effects(seq![a]) == e.terminal_effect(a),
        e.terminal_effects(seq![a, b, c]) == match e.terminal_effect(a) {
            None => None,
            Some(e1) => match e1.terminal_effect(b) {
                None => None,
                Some(e2) => e2.terminal_effect(c),
            },
        },
{
    reveal_with_fuel(EngineModel::terminal_effects, 4);
    assert(seq![a][0] == a);
    assert(seq![a, b, c][0] == a);
    assert(seq![b, c][0] == b);
    assert(seq![a].subrange(1, 1) =~= Seq::<Event>::empty());
    assert(seq![a, b, c].subrange(1, 3) =~= seq![b, c]);
    assert(seq![b, c].subrange(1, 2) =~= seq![c]);
    assert(seq![c].subrange(1, 1) =~= Seq::<Event>::empty());
    if let Some(e1) = e.terminal_effect(a) {
        if let Some(e2) = e1.terminal_effect(b) {
            if let Some(e3) = e2.terminal_effect(c) {
                assert(e3.terminal_effects(Seq::<Event>::empty()) == Some(e3));
            }
        }
    }
}

/// A cancel keeps each account's reserved amounts the sums of what its live orders hold.
proof fn lemma_cancel_keeps_totals(e: EngineModel, id: OrderId)
    requires
        consistent(e),
        reserved_totals_match(e),
        e.cancel(id) is Some,
    ensures
        reserved_totals_match(e.cancel(id).unwrap().0),
        e.accounts.dom().finite() ==> balances_kept(e, e.cancel(id).unwrap().0),
{
    if !e.order_locations.contains_key(id) {
        lemma_totals_same_reserved(e, e.cancel(id).unwrap().0);
    } else {
        let inst = e.order_locations[id];
        let book = e.books[inst];
        let (book2, events) = book.cancel_outcome(id);
        let e1 = EngineModel { books: e.books.insert(inst, book2), ..e };
        assert(reserved_totals_match(e1));
        if book.orders.contains_key(id) {
            lemma_terminal_unfold(e1, events[0], events[1], events[2]);
            assert(events == seq![events[0], events[1], events[2]]);
            assert(holds_book(e, inst, book));
            let l = e1.live_orders[id];
            assert(l.order.instrument == inst);
            assert(book.instrument == inst);
            let a = l.order.account;
            let i = l.order.instrument;
            lemma_held_nonneg(a, i);
            lemma_total_at_least(e1.live_orders, held_cash(a), id);
            lemma_total_at_least(e1.live_orders, held_qty(a, i), id);
            lemma_release_moves(e1.accounts, l);
            if let Some(e2) = e1.terminal_effect(events[0]) {
                if e.accounts.dom().finite() {
                    lemma_release_balances(e1.accounts, l);
                }
                let (m2, r2) = release_outcome(e1.accounts, a, i, l.reservation);
                let l2 = LiveOrderState { reservation: r2, ..l };
                assert(e2 == EngineModel { accounts: m2, ..e1.forget(id) });
                assert forall|x: AccountId| #[trigger] account_of(e2.accounts, x).reserved_cash == total_of(
                    e2.live_orders,
                    held_cash(x),
                ) by {
                    lemma_total_remove(e1.live_orders, held_cash(x), id);
                }
                assert forall|x: AccountId, j: InstrumentId| #[trigger] account_of(e2.accounts, x).position(j).reserved
                    == total_of(e2.live_orders, held_qty(x, j)) by {
                    lemma_total_remove(e1.live_orders, held_qty(x, j), id);
                }
                assert(reserved_totals_match(e2));
            }
        } else {
            lemma_terminal_unfold(e1, events[0], events[0], events[0]);
            assert(events == seq![events[0]]);
        }
    }
}


/// Every command keeps each account's reserved cash the sum of what its live buys hold, and
/// its reserved quantity of each instrument the sum of what its live sells of it hold, each
/// live order holding exactly what is left of it (a buy its limit times its remaining
/// quantity, a sell its remaining quantity); where what a buy sets aside, its limit times
/// its quantity, fits a `u64`.
pub proof fn law_commands_keep_reserved_totals(e: EngineModel, command: EngineCommand)
    requires
        consistent(e),
        reserved_totals_match(e),
        reserves_exactly(e, command),
        e.apply(command) is Some,
    ensures
        reserved_totals_match(e.apply(command).unwrap().0),
{
    match command {
        EngineCommand::Submit(order) => lemma_submit_keeps_totals(e, order),
        EngineCommand::Cancel { order_id } => lemma_cancel_keeps_totals(e, order_id),
        EngineCommand::Replace(r) => {
            if e.live_orders.contains_key(r.order_id) && r.new_quantity != 0 {
                let existing = e.live_orders[r.order_id];
                lemma_cancel_keeps_totals(e, r.order_id);
                crate::engine_laws::lemma_cancel_consistent(e, r.order_id);
                let e1 = e.cancel(r.order_id).unwrap().0;
                crate::engine_laws::lemma_consistent_frame_pub(e1, e1.bump());
                lemma_totals_same_reserved(e1, e1.bump());
                let order = EngineModel::replacement(existing, r);
                assert(buy_limit(order, e1.bump().snapshot(order.instrument)) == r.new_price);
                lemma_submit_keeps_totals(e1.bump(), order);
            } else {
                lemma_totals_same_reserved(e, e.apply(command).unwrap().0);
            }
        },
        EngineCommand::CreditCash { account_id, .. } => {
            let e2 = e.apply(command).unwrap().0;
            assert forall|a: AccountId, i: InstrumentId| #[trigger] account_of(e2.accounts, a).position(i).reserved
                == account_of(e.accounts, a).position(i).reserved by {
                if a == account_id {
                    assert(account_of(e2.accounts, a).positions == account_of(e.accounts, a).positions);
                }
            }
            lemma_totals_same_reserved(e, e2);
        },
        EngineCommand::CreditPosition { account_id, instrument, .. } => {
            let e2 = e.apply(command).unwrap().0;
            assert forall|a: AccountId, i: InstrumentId| #[trigger] account_of(e2.accounts, a).position(i).reserved
                == account_of(e.accounts, a).position(i).reserved by {
                if a == account_id && i != instrument {
                    assert(account_of(e2.accounts, a).position(i) == account_of(e.accounts, a).position(i));
                }
            }
            lemma_totals_same_reserved(e, e2);
        },
    }
}

/// Whether each command of a sequence, from `e`, sets aside for a buy no more than fits a
/// `u64` (see `reserves_exactly`).
pub open spec fn all_reserve_exactly(e: EngineModel, commands: Seq<EngineCommand>) -> bool
    decreases commands.len(),
{
    commands.len() == 0 || (reserves_exactly(e, commands[0]) && match e.apply(commands[0]) {
        None => true,
        Some((e1, _)) => all_reserve_exactly(e1, commands.subrange(1, commands.len() as int)),
    })
}

/// In every engine reached from a new one by commands whose buys set aside what fits a
/// `u64`, each account's reserved cash is the sum of what its live buys hold and its
/// reserved quantity of each instrument the sum of what its live sells of it hold.
pub proof fn law_reachable_reserved_totals(commands: Seq<EngineCommand>)
    requires
        crate::engine_laws::apply_all(crate::engine_laws::new_engine(), commands) is Some,
        all_reserve_exactly(crate::engine_laws::new_engine(), commands),
    ensures
        reserved_totals_match(crate::engine_laws::apply_all(crate::engine_laws::new_engine(), commands).unwrap()),
{
    let e = crate::engine_laws::new_engine();
    crate::engine_laws::law_new_engine_consistent();
    assert(e.live_orders.dom() =~= Set::<OrderId>::empty());
    assert(e.accounts.dom() =~= Set::<AccountId>::empty());
    lemma_reachable_totals(e, commands);
}

/// In every engine reached from a new one by commands whose buys set aside what fits a
/// `u64`, the next cancel, replace or submit other than a market buy keeps the cash of all
/// accounts, available plus reserved, and each instrument's quantity over all accounts.
pub proof fn law_reachable_commands_conserve_balances(commands: Seq<EngineCommand>, command: EngineCommand)
    requires
        crate::engine_laws::apply_all(crate::engine_laws::new_engine(), commands) is Some,
        all_reserve_exactly(crate::engine_laws::new_engine(), commands),
        reserves_exactly(crate::engine_laws::apply_all(crate::engine_laws::new_engine(), commands).unwrap(), command),
        moves_only(command),
        crate::engine_laws::apply_all(crate::engine_laws::new_engine(), commands).unwrap().apply(command) is Some,
    ensures
        balances_kept(
            crate::engine_laws::apply_all(crate::engine_laws::new_engine(), commands).unwrap(),
            crate::engine_laws::apply_all(crate::engine_laws::new_engine(), commands).unwrap().apply(command).unwrap().0,
        ),
{
    let e = crate::engine_laws::new_engine();
    crate::engine_laws::law_new_engine_consistent();
    assert(e.live_orders.dom() =~= Set::<OrderId>::empty());
    assert(e.accounts.dom() =~= Set::<AccountId>::empty());
    lemma_reachable_totals(e, commands);
    let r = crate::engine_laws::apply_all(e, commands).unwrap();
    law_commands_conserve_balances(r, command);
}

proof fn lemma_reachable_totals(e: EngineModel, commands: Seq<EngineCommand>)
    requires
        consistent(e),
        reserved_totals_match(e),
        crate::engine_laws::apply_all(e, commands) is Some,
        all_reserve_exactly(e, commands),
        e.accounts.dom().finite(),
    ensures
        reserved_totals_match(crate::engine_laws::apply_all(e, commands).unwrap()),
        consistent(crate::engine_laws::apply_all(e, commands).unwrap()),
        crate::engine_laws::apply_all(e, commands).unwrap().accounts.dom().finite(),
    decreases commands.len(),
{
    if commands.len() > 0 {
        lemma_command_finite(e, commands[0]);
        law_commands_keep_reserved_totals(e, commands[0]);
        crate::engine_laws::law_commands_keep_engine_consistent(e, commands[0]);
        let e1 = e.apply(commands[0]).unwrap().0;
        lemma_reachable_totals(e1, commands.subrange(1, commands.len() as int));
    }
}


/// The cash of all accounts, available and reserved.
pub open spec fn cash_total(m: Map<AccountId, AccountView>) -> int {
    total_of(m, |a: AccountView| total_cash(a))
}

/// The quantity of an instrument that all accounts hold, available and reserved.
pub open spec fn position_total(m: Map<AccountId, AccountView>, i: InstrumentId) -> int {
    total_of(m, |a: AccountView| total_position(a, i))
}

/// Putting in an account changes the totals by its balances, less those of the account it
/// replaces (an account not there counts as empty).
pub proof fn lemma_account_insert(m: Map<AccountId, AccountView>, k: AccountId, v: AccountView)
    requires
        m.dom().finite(),
    ensures
        m.insert(k, v).dom().finite(),
        cash_total(m.insert(k, v)) == cash_total(m) - total_cash(account_of(m, k)) + total_cash(v),
        forall|i: InstrumentId| #[trigger] position_total(m.insert(k, v), i) == position_total(m, i) - total_position(
            account_of(m, k),
            i,
        ) + total_position(v, i),
{
    lemma_total_insert(m, |a: AccountView| total_cash(a), k, v);
    assert forall|i: InstrumentId| #[trigger] position_total(m.insert(k, v), i) == position_total(m, i) - total_position(
        account_of(m, k),
        i,
    ) + total_position(v, i) by {
        lemma_total_insert(m, |a: AccountView| total_position(a, i), k, v);
    }
}

/// What a trade of `quantity` out of an order that holds exactly what is left of it does
/// to the totals: a buy pays the price times the quantity and receives the quantity, a sell
/// hands over the quantity and receives the price times it; where a buy trades at no more
/// than its limit.
pub proof fn lemma_trade_balances(m: Map<AccountId, AccountView>, l: LiveOrderState, price: Price, quantity: Quantity)
    requires
        m.dom().finite(),
        holds_exactly(l),
        quantity <= l.remaining_qty,
        account_of(m, l.order.account).reserved_cash >= held_cash(l.order.account)(l),
        account_of(m, l.order.account).position(l.order.instrument).reserved >= held_qty(l.order.account, l.order.instrument)(l),
        trade_fits(m, l.order.account, l.order.instrument, l.order.side, price, quantity, l.reservation),
        l.reservation matches Reservation::BuyCash { limit_price, .. } ==> price <= limit_price,
    ensures
        ({
            let m2 = trade_outcome(m, l.order.account, l.order.instrument, l.order.side, price, quantity, l.reservation).0;
            &&& m2.dom().finite()
            &&& cash_total(m2) == cash_total(m) + (if l.order.side is Bid {
                -sat_mul(price, quantity)
            } else {
                sat_mul(price, quantity) as int
            })
            &&& forall|i: InstrumentId| #[trigger] position_total(m2, i) == position_total(m, i) + (if i
                == l.order.instrument {
                if l.order.side is Bid {
                    quantity as int
                } else {
                    -quantity
                }
            } else {
                0
            })
        }),
{
    let id = l.order.account;
    let inst = l.order.instrument;
    let a = account_of(m, id);
    let (m2, r2) = trade_outcome(m, id, inst, l.order.side, price, quantity, l.reservation);
    let v = m2[id];
    assert(m2 == m.insert(id, v));
    lemma_account_insert(m, id, v);
    match l.reservation {
        Reservation::BuyCash { limit_price, reserved_cash } => {
            let rem = l.remaining_qty;
            assert(limit_price * quantity <= limit_price * rem && price * quantity <= limit_price * quantity)
                by (nonlinear_arith)
                requires
                    quantity <= rem,
                    price <= limit_price,
            ;
            assert(sat_mul(limit_price, quantity) == limit_price * quantity);
            assert(sat_mul(price, quantity) == price * quantity);
            assert forall|i: InstrumentId| #[trigger] position_total(m2, i) == position_total(m, i) + (if i == inst {
                quantity as int
            } else {
                0
            }) by {
                lemma_account_insert(m, id, v);
            }
        },
        Reservation::SellPosition { reserved_qty } => {
            assert forall|i: InstrumentId| #[trigger] position_total(m2, i) == position_total(m, i) + (if i == inst {
                -quantity
            } else {
                0
            }) by {
                lemma_account_insert(m, id, v);
            }
        },
    }
}

/// Giving back what an order holds moves it from reserved to available and keeps the
/// totals.
pub proof fn lemma_release_balances(m: Map<AccountId, AccountView>, l: LiveOrderState)
    requires
        m.dom().finite(),
        account_of(m, l.order.account).reserved_cash >= held_cash(l.order.account)(l),
        account_of(m, l.order.account).position(l.order.instrument).reserved >= held_qty(l.order.account, l.order.instrument)(l),
        crate::risk::release_fits(m, l.order.account, l.order.instrument, l.reservation),
    ensures
        ({
            let m2 = release_outcome(m, l.order.account, l.order.instrument, l.reservation).0;
            &&& m2.dom().finite()
            &&& cash_total(m2) == cash_total(m)
            &&& forall|i: InstrumentId| #[trigger] position_total(m2, i) == position_total(m, i)
        }),
{
    let id = l.order.account;
    let m2 = release_outcome(m, id, l.order.instrument, l.reservation).0;
    let v = m2[id];
    assert(m2 == m.insert(id, v));
    lemma_account_insert(m, id, v);
    assert forall|i: InstrumentId| #[trigger] position_total(m2, i) == position_total(m, i) by {
        lemma_account_insert(m, id, v);
    }
}

/// Setting aside what an order needs moves it from available to reserved and keeps the
/// totals.
pub proof fn lemma_reserve_balances(m: Map<AccountId, AccountView>, order: NewOrder, snapshot: BookSnapshot)
    requires
        m.dom().finite(),
        reserve_fits(m, order, snapshot),
    ensures
        ({
            let m2 = reserve_outcome(m, order, snapshot).0;
            &&& m2.dom().finite()
            &&& cash_total(m2) == cash_total(m)
            &&& forall|i: InstrumentId| #[trigger] position_total(m2, i) == position_total(m, i)
        }),
{
    let id = order.account;
    let m2 = reserve_outcome(m, order, snapshot).0;
    let v = m2[id];
    assert(m2 == m.insert(id, v));
    lemma_account_insert(m, id, v);
    assert forall|i: InstrumentId| #[trigger] position_total(m2, i) == position_total(m, i) by {
        lemma_account_insert(m, id, v);
    }
}


/// Whether a command only moves cash and quantities between and within accounts: a cancel,
/// a replace, or a submit other than a market buy (which may trade above what it set
/// aside per unit).
pub open spec fn moves_only(command: EngineCommand) -> bool {
    match command {
        EngineCommand::Submit(order) => !(order.side is Bid && order.order_type is Market),
        EngineCommand::Cancel { .. } => true,
        EngineCommand::Replace(_) => true,
        _ => false,
    }
}

/// Trades, reservations and releases move cash and quantities between accounts, and
/// between available and reserved, and never create or destroy them: a cancel, a replace,
/// or a submit other than a market buy keeps the cash of all accounts, available plus
/// reserved, and each instrument's quantity over all accounts; where what a buy sets aside
/// fits a `u64`.
pub proof fn law_commands_conserve_balances(e: EngineModel, command: EngineCommand)
    requires
        consistent(e),
        reserved_totals_match(e),
        e.accounts.dom().finite(),
        reserves_exactly(e, command),
        moves_only(command),
        e.apply(command) is Some,
    ensures
        balances_kept(e, e.apply(command).unwrap().0),
{
    match command {
        EngineCommand::Submit(order) => lemma_submit_keeps_totals(e, order),
        EngineCommand::Cancel { order_id } => lemma_cancel_keeps_totals(e, order_id),
        EngineCommand::Replace(r) => {
            if e.live_orders.contains_key(r.order_id) && r.new_quantity != 0 {
                let existing = e.live_orders[r.order_id];
                lemma_cancel_keeps_totals(e, r.order_id);
                crate::engine_laws::lemma_cancel_consistent(e, r.order_id);
                let e1 = e.cancel(r.order_id).unwrap().0;
                crate::engine_laws::lemma_consistent_frame_pub(e1, e1.bump());
                lemma_totals_same_reserved(e1, e1.bump());
                let order = EngineModel::replacement(existing, r);
                assert(buy_limit(order, e1.bump().snapshot(order.instrument)) == r.new_price);
                lemma_submit_keeps_totals(e1.bump(), order);
            }
        },
        _ => {},
    }
}


/// The events of a submit keep the accounts finitely many.
proof fn lemma_effects_finite(e: EngineModel, order: NewOrder, t: LiveOrderState, events: Seq<Event>)
    requires
        e.accounts.dom().finite(),
    ensures
        e.submit_effects(order, t, events) matches Some(e2) ==> e2.accounts.dom().finite(),
    decreases events.len(),
{
    if events.len() > 0 {
        if let Some((e1, t1)) = e.submit_effect(order, t, events[0]) {
            assert(e1.accounts.dom().finite());
            lemma_effects_finite(e1, order, t1, events.subrange(1, events.len() as int));
        }
    }
}

/// The events of a cancel keep the accounts finitely many.
proof fn lemma_terminals_finite(e: EngineModel, events: Seq<Event>)
    requires
        e.accounts.dom().finite(),
    ensures
        e.terminal_effects(events) matches Some(e2) ==> e2.accounts.dom().finite(),
    decreases events.len(),
{
    if events.len() > 0 {
        if let Some(e1) = e.terminal_effect(events[0]) {
            assert(e1.accounts.dom().finite());
            lemma_terminals_finite(e1, events.subrange(1, events.len() as int));
        }
    }
}

proof fn lemma_submit_finite(e: EngineModel, order: NewOrder)
    requires
        e.accounts.dom().finite(),
        e.submit(order) is Some,
    ensures
        e.submit(order).unwrap().0.accounts.dom().finite(),
{
    if !e.live_orders.contains_key(order.id) {
        let (accounts, reserved) = reserve_outcome(e.accounts, order, e.snapshot(order.instrument));
        assert(accounts.dom().finite());
        if let Ok(r) = reserved {
            let book = e.book_or_empty(order.instrument);
            let e2 = EngineModel { books: e.books.insert(order.instrument, book.submit_outcome(order).0), accounts, ..e };
            let taker = LiveOrderState {
                order,
                remaining_qty: order.quantity,
                arrival_sequence: 0,
                reservation: r.reservation,
            };
            lemma_effects_finite(e2, order, taker, book.submit_outcome(order).1);
        }
    }
}

proof fn lemma_cancel_finite(e: EngineModel, id: OrderId)
    requires
        e.accounts.dom().finite(),
        e.cancel(id) is Some,
    ensures
        e.cancel(id).unwrap().0.accounts.dom().finite(),
{
    if e.order_locations.contains_key(id) {
        let inst = e.order_locations[id];
        let (book2, events) = e.books[inst].cancel_outcome(id);
        lemma_terminals_finite(EngineModel { books: e.books.insert(inst, book2), ..e }, events);
    }
}

/// Every command keeps the accounts finitely many.
proof fn lemma_command_finite(e: EngineModel, command: EngineCommand)
    requires
        e.accounts.dom().finite(),
        e.apply(command) is Some,
    ensures
        e.apply(command).unwrap().0.accounts.dom().finite(),
{
    match command {
        EngineCommand::Submit(order) => lemma_submit_finite(e, order),
        EngineCommand::Cancel { order_id } => lemma_cancel_finite(e, order_id),
        EngineCommand::Replace(r) => {
            if e.live_orders.contains_key(r.order_id) && r.new_quantity != 0 {
                lemma_cancel_finite(e, r.order_id);
                let e1 = e.cancel(r.order_id).unwrap().0;
                lemma_submit_finite(e1.bump(), EngineModel::replacement(e.live_orders[r.order_id], r));
            }
        },
        _ => {},
    }
}

} // verus!
