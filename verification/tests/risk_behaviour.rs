use trading_engine::book::{BookSnapshot, LevelSnapshot};
use trading_engine::events::RejectReason;
use trading_engine::risk::{estimate_market_buy_price, saturating_mul, AccountManager, PositionState, Reservation, ReservedOrder};
use trading_engine::types::{NewOrder, Side};

const INST: u64 = 3;

fn level(price: u64) -> Option<LevelSnapshot> {
    Some(LevelSnapshot { price, total_qty: 1, order_count: 1 })
}

#[test]
fn saturating_product() {
    assert_eq!(saturating_mul(6, 7), 42);
    assert_eq!(saturating_mul(u64::MAX, 2), u64::MAX);
    assert_eq!(saturating_mul(0, u64::MAX), 0);
}

#[test]
fn market_buy_reference_price() {
    let both = BookSnapshot { best_bid: level(90), best_ask: level(100) };
    assert_eq!(estimate_market_buy_price(both, 5), 200);
    let bid_only = BookSnapshot { best_bid: level(90), best_ask: None };
    assert_eq!(estimate_market_buy_price(bid_only, 5), 180);
    let empty = BookSnapshot { best_bid: None, best_ask: None };
    assert_eq!(estimate_market_buy_price(empty, 5), 0);
    let huge = BookSnapshot { best_bid: None, best_ask: level(u64::MAX) };
    assert_eq!(estimate_market_buy_price(huge, 1), u64::MAX);
}

#[test]
fn credits_return_new_balances() {
    let mut accounts = AccountManager::new();
    assert_eq!(accounts.credit_cash(1, 500), 500);
    assert_eq!(accounts.credit_cash(1, 250), 750);
    assert_eq!(accounts.credit_position(1, INST, 4), 4);
    assert_eq!(accounts.credit_position(1, INST, 6), 10);
    let state = accounts.state();
    assert_eq!(state[&1].cash, 750);
    assert_eq!(state[&1].positions[&INST], PositionState { available: 10, reserved: 0 });
}

#[test]
fn buy_reserves_limit_times_quantity_and_release_undoes_it() {
    let mut accounts = AccountManager::new();
    accounts.credit_cash(1, 1_000);
    let empty = BookSnapshot { best_bid: None, best_ask: None };
    let order = NewOrder::limit(9, INST, Side::Bid, 100, 7).with_account(1);
    let reserved = accounts.reserve_for_order(&order, empty).unwrap();
    assert_eq!(
        reserved,
        ReservedOrder { account_id: 1, reservation: Reservation::BuyCash { limit_price: 100, reserved_cash: 700 } }
    );
    assert_eq!(accounts.state()[&1].cash, 300);
    assert_eq!(accounts.state()[&1].reserved_cash, 700);

    let mut reservation = reserved.reservation;
    accounts.release_remaining(1, INST, &mut reservation);
    assert_eq!(reservation, Reservation::BuyCash { limit_price: 100, reserved_cash: 0 });
    assert_eq!(accounts.state()[&1].cash, 1_000);
    assert_eq!(accounts.state()[&1].reserved_cash, 0);
}

#[test]
fn refusals_for_cash_and_position() {
    let mut accounts = AccountManager::new();
    accounts.credit_cash(1, 10);
    let empty = BookSnapshot { best_bid: None, best_ask: None };
    let buy = NewOrder::limit(1, INST, Side::Bid, 100, 1).with_account(1);
    assert_eq!(accounts.reserve_for_order(&buy, empty), Err(RejectReason::InsufficientCash));
    let sell = NewOrder::limit(2, INST, Side::Ask, 100, 1).with_account(1);
    assert_eq!(accounts.reserve_for_order(&sell, empty), Err(RejectReason::InsufficientPosition));
    assert_eq!(accounts.state()[&1].cash, 10);
}

#[test]
fn a_trade_moves_cash_and_quantity_between_accounts() {
    let mut accounts = AccountManager::new();
    accounts.credit_cash(1, 1_000);
    accounts.credit_position(2, INST, 10);
    let empty = BookSnapshot { best_bid: None, best_ask: None };
    let buy = NewOrder::limit(1, INST, Side::Bid, 100, 5).with_account(1);
    let sell = NewOrder::limit(2, INST, Side::Ask, 90, 5).with_account(2);
    let mut buyer = accounts.reserve_for_order(&buy, empty).unwrap().reservation;
    let mut seller = accounts.reserve_for_order(&sell, empty).unwrap().reservation;

    accounts.apply_trade(1, INST, Side::Bid, 95, 5, &mut buyer);
    accounts.apply_trade(2, INST, Side::Ask, 95, 5, &mut seller);

    let state = accounts.state();
    // Buyer: paid 475 of the 500 it reserved, got 25 back.
    assert_eq!(state[&1].cash, 525);
    assert_eq!(state[&1].reserved_cash, 0);
    assert_eq!(state[&1].positions[&INST].available, 5);
    // Seller: handed over 5, received 475.
    assert_eq!(state[&2].cash, 475);
    assert_eq!(state[&2].positions[&INST], PositionState { available: 5, reserved: 0 });
    // Nothing created or destroyed.
    assert_eq!(state[&1].cash + state[&1].reserved_cash + state[&2].cash + state[&2].reserved_cash, 1_000);
    assert_eq!(buyer, Reservation::BuyCash { limit_price: 100, reserved_cash: 0 });
    assert_eq!(seller, Reservation::SellPosition { reserved_qty: 0 });
}

#[test]
fn manager_round_trips_through_its_state() {
    let mut accounts = AccountManager::new();
    accounts.credit_cash(4, 12);
    let copy = AccountManager::from_state(accounts.state().clone());
    assert_eq!(copy, accounts);
}
