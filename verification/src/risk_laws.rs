use vstd::prelude::*;

use crate::book::BookSnapshot;
use crate::risk::{
    account_of, buy_limit, release_outcome, reserve_fits, reserve_outcome, sat_mul, trade_outcome, AccountView,
    Reservation, ReservedOrder,
};
use crate::events::RejectReason;
use crate::types::OrderType;
use crate::types::{AccountId, InstrumentId, NewOrder, Price, Quantity, Side};

verus! {

/// The total cash of an account: available and reserved.
pub open spec fn total_cash(a: AccountView) -> int {
    a.cash + a.reserved_cash
}

/// The total quantity of an instrument an account holds: available and reserved.
pub open spec fn total_position(a: AccountView, instrument: InstrumentId) -> int {
    a.position(instrument).available + a.position(instrument).reserved
}

/// The balances of account `id` after a reservation for `order` and then the release of
/// that reservation.
pub open spec fn reserve_then_release(
    m: Map<AccountId, AccountView>,
    order: NewOrder,
    snapshot: BookSnapshot,
    id: AccountId,
) -> AccountView {
    let (m1, r) = reserve_outcome(m, order, snapshot);
    account_of(release_outcome(m1, order.account, order.instrument, r->Ok_0.reservation).0, id)
}

/// Releasing a reservation right after it was made gives every account back exactly its
/// balances before: its cash, its reserved cash and each of its positions.
pub proof fn law_release_undoes_reserve(m: Map<AccountId, AccountView>, order: NewOrder, snapshot: BookSnapshot)
    requires
        reserve_fits(m, order, snapshot),
        reserve_outcome(m, order, snapshot).1 is Ok,
    ensures
        forall|id: AccountId| #[trigger] reserve_then_release(m, order, snapshot, id).cash == account_of(m, id).cash,
        forall|id: AccountId| #[trigger] reserve_then_release(m, order, snapshot, id).reserved_cash == account_of(
            m,
            id,
        ).reserved_cash,
        forall|id: AccountId, i: InstrumentId| #[trigger] reserve_then_release(m, order, snapshot, id).position(i)
            == account_of(m, id).position(i),
{
    let a = account_of(m, order.account);
    match order.side {
        Side::Bid => {
            let required = sat_mul(buy_limit(order, snapshot), order.quantity);
            assert(a.cash >= required);
        },
        Side::Ask => {
            let p = a.position(order.instrument);
            assert(p.available >= order.quantity);
        },
    }
}

/// A trade moves cash and the instrument between the buyer and the seller and creates or
/// destroys neither: the buyer pays `price * quantity` out of cash it reserved at a limit
/// no lower than the price and receives the quantity, the seller hands over reserved
/// quantity and receives the price. This holds where nothing saturates: the reservations
/// cover the trade and the balances stay within `u64`.
pub proof fn law_trade_conserves_cash_and_quantity(
    m: Map<AccountId, AccountView>,
    buyer: AccountId,
    seller: AccountId,
    instrument: InstrumentId,
    price: Price,
    quantity: Quantity,
    limit_price: Price,
    buyer_reserved: u64,
    seller_reserved: Quantity,
)
    requires
        price <= limit_price,
        limit_price * quantity <= u64::MAX,
        account_of(m, buyer).reserved_cash >= limit_price * quantity,
        account_of(m, buyer).cash + (limit_price - price) * quantity <= u64::MAX,
        account_of(m, buyer).position(instrument).available + quantity <= u64::MAX,
        buyer != seller ==> account_of(m, seller).position(instrument).reserved >= quantity,
        buyer != seller ==> account_of(m, seller).cash + price * quantity <= u64::MAX,
        buyer == seller ==> account_of(m, buyer).position(instrument).reserved >= quantity,
        buyer == seller ==> account_of(m, buyer).cash + limit_price * quantity <= u64::MAX,
    ensures
        ({
            let m1 = trade_outcome(
                m,
                buyer,
                instrument,
                Side::Bid,
                price,
                quantity,
                Reservation::BuyCash { limit_price, reserved_cash: buyer_reserved },
            ).0;
            let m2 = trade_outcome(
                m1,
                seller,
                instrument,
                Side::Ask,
                price,
                quantity,
                Reservation::SellPosition { reserved_qty: seller_reserved },
            ).0;
            &&& buyer != seller ==> total_cash(account_of(m2, buyer)) == total_cash(account_of(m, buyer)) - price
                * quantity
            &&& buyer != seller ==> total_cash(account_of(m2, seller)) == total_cash(account_of(m, seller)) + price
                * quantity
            &&& buyer != seller ==> account_of(m2, buyer).position(instrument).available == account_of(
                m,
                buyer,
            ).position(instrument).available + quantity
            &&& buyer != seller ==> account_of(m2, seller).position(instrument).reserved == account_of(
                m,
                seller,
            ).position(instrument).reserved - quantity
            &&& total_cash(account_of(m2, buyer)) + (if buyer != seller {
                total_cash(account_of(m2, seller))
            } else {
                0
            }) == total_cash(account_of(m, buyer)) + (if buyer != seller {
                total_cash(account_of(m, seller))
            } else {
                0
            })
            &&& total_position(account_of(m2, buyer), instrument) + (if buyer != seller {
                total_position(account_of(m2, seller), instrument)
            } else {
                0
            }) == total_position(account_of(m, buyer), instrument) + (if buyer != seller {
                total_position(account_of(m, seller), instrument)
            } else {
                0
            })
        }),
{
    let notional = price * quantity;
    let for_fill = limit_price * quantity;
    assert(notional <= for_fill) by (nonlinear_arith)
        requires
            price <= limit_price,
            notional == price * quantity,
            for_fill == limit_price * quantity,
    ;
    assert((limit_price - price) * quantity == for_fill - notional) by (nonlinear_arith)
        requires
            notional == price * quantity,
            for_fill == limit_price * quantity,
    ;
    assert(sat_mul(price, quantity) == notional);
    assert(sat_mul(limit_price, quantity) == for_fill);
}


/// The cash per unit that a market buy sets aside against a book top: twice the best ask
/// price, else twice the best bid price, else nothing; at most `u64::MAX`.
pub open spec fn market_estimate(snapshot: BookSnapshot) -> int {
    let reference: int = match snapshot.best_ask {
        Some(ask) => ask.price as int,
        None => match snapshot.best_bid {
            Some(bid) => bid.price as int,
            None => 0,
        },
    };
    if 2 * reference > u64::MAX {
        u64::MAX as int
    } else {
        2 * reference
    }
}

/// A market buy sets aside, per unit, the market estimate of the book at submission: it is
/// refused for insufficient cash exactly when the account's cash is below that estimate
/// times its quantity (at most `u64::MAX`); otherwise its reservation is cash at that
/// estimate, that amount moves from the account's cash to its reserved cash, and nothing
/// else of the accounts changes.
pub proof fn law_market_buy_reserves_the_estimate(m: Map<AccountId, AccountView>, order: NewOrder, snapshot: BookSnapshot)
    requires
        order.side is Bid,
        order.order_type is Market,
        order.price is None,
        reserve_fits(m, order, snapshot),
    ensures
        ({
            let per_unit = market_estimate(snapshot);
            let needed = if per_unit * order.quantity > u64::MAX {
                u64::MAX as int
            } else {
                per_unit * order.quantity
            };
            let a = account_of(m, order.account);
            let (m2, res) = reserve_outcome(m, order, snapshot);
            &&& (a.cash < needed) == (res == Err::<ReservedOrder, RejectReason>(RejectReason::InsufficientCash))
            &&& a.cash < needed ==> account_of(m2, order.account) == a
            &&& a.cash >= needed ==> res == Ok::<ReservedOrder, RejectReason>(
                ReservedOrder {
                    account_id: order.account,
                    reservation: Reservation::BuyCash { limit_price: per_unit as u64, reserved_cash: needed as u64 },
                },
            )
            &&& a.cash >= needed ==> account_of(m2, order.account).cash == a.cash - needed
                && account_of(m2, order.account).reserved_cash == a.reserved_cash + needed
                && account_of(m2, order.account).positions == a.positions
            &&& forall|x: AccountId| x != order.account ==> #[trigger] account_of(m2, x) == account_of(m, x)
        }),
{
    let per_unit = market_estimate(snapshot);
    assert(buy_limit(order, snapshot) == per_unit);
}


/// A market buy from an account whose cash is below the market estimate of the book times
/// the order's quantity is refused by the engine with one `InsufficientCash` rejection, and
/// changes no balance, book or live order.
pub proof fn law_market_buy_without_cash_is_refused(e: crate::engine_model::EngineModel, order: NewOrder)
    requires
        order.side is Bid,
        order.order_type is Market,
        order.price is None,
        !e.live_orders.contains_key(order.id),
        e.next_global_sequence < u64::MAX,
        account_of(e.accounts, order.account).cash < (if market_estimate(e.snapshot(order.instrument)) * order.quantity
            > u64::MAX {
            u64::MAX as int
        } else {
            market_estimate(e.snapshot(order.instrument)) * order.quantity
        }),
    ensures
        e.submit(order) is Some,
        e.submit(order).unwrap().1 == seq![
            crate::events::Event::Rejected {
                instrument: Some(order.instrument),
                order_id: order.id,
                reason: RejectReason::InsufficientCash,
                sequence: e.next_global_sequence,
            },
        ],
        e.submit(order).unwrap().0.books == e.books,
        e.submit(order).unwrap().0.live_orders == e.live_orders,
        forall|x: AccountId| #[trigger] account_of(e.submit(order).unwrap().0.accounts, x) == account_of(e.accounts, x),
{
    let snapshot = e.snapshot(order.instrument);
    assert(reserve_fits(e.accounts, order, snapshot)) by {
        assert(buy_limit(order, snapshot) == market_estimate(snapshot));
    }
    law_market_buy_reserves_the_estimate(e.accounts, order, snapshot);
}

} // verus!
