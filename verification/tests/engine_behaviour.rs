use trading_engine::book::{BookSnapshot, OrderBook};
use trading_engine::engine::{EngineState, MatchingEngine};
use trading_engine::risk::{AccountManager, Reservation};
use trading_engine::events::{Event, RejectReason};
use trading_engine::gateway::GatewayRequest;
use trading_engine::persistence::{recover_engine, replay_log, CommandRecord, SnapshotRecord};
use trading_engine::types::{EngineCommand, NewOrder, ReplaceOrder, Side};

const BTC: u64 = 1;
const SELLER: u64 = 10;
const BUYER: u64 = 20;

fn funded_engine() -> MatchingEngine {
    let mut engine = MatchingEngine::new();
    engine.apply(EngineCommand::CreditCash { account_id: BUYER, amount: 10_000 });
    engine.apply(EngineCommand::CreditPosition { account_id: SELLER, instrument: BTC, quantity: 10 });
    engine
}

#[test]
fn credits_report_new_balances_with_global_sequence() {
    let mut engine = MatchingEngine::new();
    assert_eq!(
        engine.apply(EngineCommand::CreditCash { account_id: BUYER, amount: 7 }),
        vec![Event::CashCredited { account_id: BUYER, amount: 7, new_cash_balance: 7, sequence: 0 }]
    );
    assert_eq!(
        engine.apply(EngineCommand::CreditCash { account_id: BUYER, amount: 3 }),
        vec![Event::CashCredited { account_id: BUYER, amount: 3, new_cash_balance: 10, sequence: 1 }]
    );
    assert_eq!(
        engine.apply(EngineCommand::CreditPosition { account_id: SELLER, instrument: BTC, quantity: 4 }),
        vec![Event::PositionCredited { account_id: SELLER, instrument: BTC, quantity: 4, new_position: 4, sequence: 2 }]
    );
}

#[test]
fn duplicate_live_order_id_is_rejected() {
    let mut engine = funded_engine();
    engine.apply(EngineCommand::Submit(NewOrder::limit(1, BTC, Side::Ask, 101, 5).with_account(SELLER)));
    let events = engine.apply(EngineCommand::Submit(NewOrder::limit(1, BTC, Side::Ask, 102, 1).with_account(SELLER)));
    assert_eq!(
        events,
        vec![Event::Rejected { instrument: Some(BTC), order_id: 1, reason: RejectReason::DuplicateOrderId, sequence: 2 }]
    );
}

#[test]
fn sell_without_position_is_rejected() {
    let mut engine = MatchingEngine::new();
    let events = engine.apply(EngineCommand::Submit(NewOrder::limit(1, BTC, Side::Ask, 101, 5).with_account(SELLER)));
    assert_eq!(
        events,
        vec![Event::Rejected {
            instrument: Some(BTC),
            order_id: 1,
            reason: RejectReason::InsufficientPosition,
            sequence: 0
        }]
    );
}

#[test]
fn unknown_cancel_and_replace_are_rejected() {
    let mut engine = MatchingEngine::new();
    assert_eq!(
        engine.apply(EngineCommand::Cancel { order_id: 9 }),
        vec![Event::Rejected { instrument: None, order_id: 9, reason: RejectReason::UnknownOrderId, sequence: 0 }]
    );
    assert_eq!(
        engine.apply(EngineCommand::Replace(ReplaceOrder { order_id: 9, new_price: 1, new_quantity: 1 })),
        vec![Event::Rejected { instrument: None, order_id: 9, reason: RejectReason::UnknownOrderId, sequence: 1 }]
    );
}

#[test]
fn replace_with_zero_quantity_is_rejected() {
    let mut engine = funded_engine();
    engine.apply(EngineCommand::Submit(NewOrder::limit(1, BTC, Side::Ask, 101, 5).with_account(SELLER)));
    let events = engine.apply(EngineCommand::Replace(ReplaceOrder { order_id: 1, new_price: 100, new_quantity: 0 }));
    assert_eq!(
        events,
        vec![Event::Rejected { instrument: Some(BTC), order_id: 1, reason: RejectReason::InvalidQuantity, sequence: 2 }]
    );
    assert_eq!(engine.snapshot(BTC).best_ask.map(|l| l.price), Some(101));
}

#[test]
fn cancel_releases_the_reservation() {
    let mut engine = funded_engine();
    engine.apply(EngineCommand::Submit(NewOrder::limit(1, BTC, Side::Ask, 101, 5).with_account(SELLER)));
    let before = engine.export_state();
    assert_eq!(before.accounts[&SELLER].positions[&BTC].reserved, 5);
    let events = engine.apply(EngineCommand::Cancel { order_id: 1 });
    assert!(events.contains(&Event::Cancelled { instrument: BTC, order_id: 1, cancelled_qty: 5, sequence: 1 }));
    let after = engine.export_state();
    assert_eq!(after.accounts[&SELLER].positions[&BTC].reserved, 0);
    assert_eq!(after.accounts[&SELLER].positions[&BTC].available, 10);
    assert!(after.live_orders.is_empty());
}

#[test]
fn checked_apply_answers_like_apply() {
    let mut a = funded_engine();
    let mut b = funded_engine();
    let command = EngineCommand::Submit(NewOrder::limit(1, BTC, Side::Ask, 101, 5).with_account(SELLER));
    assert_eq!(a.checked_apply(command), Some(b.apply(command)));
}

#[test]
fn export_and_rebuild_keep_live_orders_and_accounts() {
    let mut engine = funded_engine();
    engine.apply(EngineCommand::Submit(NewOrder::limit(1, BTC, Side::Ask, 101, 3).with_account(SELLER)));
    engine.apply(EngineCommand::Submit(NewOrder::limit(2, BTC, Side::Ask, 101, 2).with_account(SELLER)));
    engine.apply(EngineCommand::Submit(NewOrder::limit(3, BTC, Side::Ask, 103, 4).with_account(SELLER)));
    let state = engine.export_state();
    assert_eq!(state.live_orders.len(), 3);
    let rebuilt = MatchingEngine::from_state(state.clone());
    let again = rebuilt.export_state();
    assert_eq!(again.live_orders, state.live_orders);
    assert_eq!(again.accounts, state.accounts);
    assert_eq!(again.next_global_sequence, state.next_global_sequence);
    assert_eq!(rebuilt.snapshot(BTC), engine.snapshot(BTC));
    assert!(MatchingEngine::try_from_state(state).is_some());
}

#[test]
fn snapshot_and_log_recover_live_orders() {
    let mut engine = funded_engine();
    engine.apply(EngineCommand::Submit(NewOrder::limit(1, BTC, Side::Ask, 101, 5).with_account(SELLER)));
    let snapshot = SnapshotRecord { last_log_index: 3, state: engine.export_state() };
    let records = vec![
        CommandRecord { index: 1, command: EngineCommand::CreditCash { account_id: BUYER, amount: 10_000 } },
        CommandRecord { index: 3, command: EngineCommand::Cancel { order_id: 1 } },
        CommandRecord {
            index: 4,
            command: EngineCommand::Submit(NewOrder::limit(2, BTC, Side::Bid, 100, 2).with_account(BUYER)),
        },
    ];
    let (recovered, last) = recover_engine(Some(snapshot), &records).unwrap();
    assert_eq!(last, 4);
    // The record already in the snapshot is skipped: order 1 still rests.
    assert_eq!(recovered.snapshot(BTC).best_ask.map(|l| l.price), Some(101));
    assert_eq!(recovered.snapshot(BTC).best_bid.map(|l| l.price), Some(100));
}

#[test]
fn replay_from_scratch_applies_every_new_record() {
    let records = vec![
        CommandRecord { index: 1, command: EngineCommand::CreditPosition { account_id: SELLER, instrument: BTC, quantity: 10 } },
        CommandRecord {
            index: 2,
            command: EngineCommand::Submit(NewOrder::limit(1, BTC, Side::Ask, 105, 4).with_account(SELLER)),
        },
        CommandRecord { index: 2, command: EngineCommand::Cancel { order_id: 1 } },
    ];
    let (engine, last) = recover_engine(None, &records).unwrap();
    assert_eq!(last, 2);
    assert_eq!(engine.snapshot(BTC).best_ask.map(|l| l.total_qty), Some(4));

    let mut fresh = MatchingEngine::new();
    assert_eq!(replay_log(&mut fresh, &records, 1), Some(2));
    // The position credit was skipped, so the sell was refused.
    assert_eq!(fresh.snapshot(BTC).best_ask, None);
}

#[test]
fn gateway_requests_map_to_commands() {
    let order = NewOrder::limit(1, BTC, Side::Bid, 100, 1);
    assert_eq!(GatewayRequest::Submit { order }.command(), Some(EngineCommand::Submit(order)));
    assert_eq!(GatewayRequest::Cancel { order_id: 4 }.command(), Some(EngineCommand::Cancel { order_id: 4 }));
    let replace = ReplaceOrder { order_id: 4, new_price: 9, new_quantity: 2 };
    assert_eq!(GatewayRequest::Replace { replace }.command(), Some(EngineCommand::Replace(replace)));
    assert_eq!(
        GatewayRequest::CreditCash { account_id: 2, amount: 5 }.command(),
        Some(EngineCommand::CreditCash { account_id: 2, amount: 5 })
    );
    assert_eq!(
        GatewayRequest::CreditPosition { account_id: 2, instrument: BTC, quantity: 5 }.command(),
        Some(EngineCommand::CreditPosition { account_id: 2, instrument: BTC, quantity: 5 })
    );
    assert_eq!(GatewayRequest::Snapshot { instrument: BTC }.command(), None);
}

#[test]
fn constructors_fill_in_defaults() {
    let limit = NewOrder::limit(1, BTC, Side::Bid, 100, 3);
    assert_eq!(limit.account, 0);
    assert_eq!(limit.price, Some(100));
    let market = NewOrder::market(2, BTC, Side::Ask, 3).with_account(SELLER);
    assert_eq!(market.price, None);
    assert_eq!(market.account, SELLER);
}

#[test]
fn rebuilt_engine_keeps_time_priority() {
    let mut engine = funded_engine();
    engine.apply(EngineCommand::Submit(NewOrder::limit(1, BTC, Side::Ask, 101, 3).with_account(SELLER)));
    engine.apply(EngineCommand::Submit(NewOrder::limit(2, BTC, Side::Ask, 101, 3).with_account(SELLER)));
    engine.apply(EngineCommand::Submit(NewOrder::limit(3, BTC, Side::Ask, 101, 3).with_account(SELLER)));
    // Order 1 leaves; 2 then 3 keep their places.
    engine.apply(EngineCommand::Cancel { order_id: 1 });
    let mut rebuilt = MatchingEngine::from_state(engine.export_state());
    let events = rebuilt.apply(EngineCommand::Submit(NewOrder::limit(4, BTC, Side::Bid, 101, 4).with_account(BUYER)));
    let makers: Vec<(u64, u64)> = events
        .iter()
        .filter_map(|e| match e {
            Event::Trade { maker_order_id, quantity, .. } => Some((*maker_order_id, *quantity)),
            _ => None,
        })
        .collect();
    assert_eq!(makers, vec![(2, 3), (3, 1)]);
}

#[test]
fn refused_order_leaves_balances_alone() {
    let mut engine = funded_engine();
    let before = engine.export_state();
    let events = engine.apply(EngineCommand::Submit(NewOrder::limit(1, BTC, Side::Bid, 1_000, 11).with_account(BUYER)));
    assert_eq!(
        events,
        vec![Event::Rejected { instrument: Some(BTC), order_id: 1, reason: RejectReason::InsufficientCash, sequence: 2 }]
    );
    let after = engine.export_state();
    assert_eq!(after.accounts, before.accounts);
    assert_eq!(after.live_orders, before.live_orders);
}

#[test]
fn defaults_are_empty() {
    let book = OrderBook::default();
    assert_eq!(book.instrument(), 0);
    assert_eq!(book.snapshot(), BookSnapshot { best_bid: None, best_ask: None });
    let engine = MatchingEngine::default();
    assert_eq!(engine.export_state(), EngineState::default());
    assert_eq!(AccountManager::default(), AccountManager::new());
    let state = EngineState::default();
    assert_eq!(state.next_global_sequence, 0);
    assert!(state.live_orders.is_empty() && state.accounts.is_empty());
}

#[test]
fn export_is_the_same_every_time_and_survives_a_rebuild() {
    let mut engine = funded_engine();
    engine.apply(EngineCommand::CreditPosition { account_id: SELLER, instrument: 2, quantity: 10 });
    engine.apply(EngineCommand::Submit(NewOrder::limit(7, 2, Side::Ask, 50, 1).with_account(SELLER)));
    engine.apply(EngineCommand::Submit(NewOrder::limit(1, BTC, Side::Ask, 101, 3).with_account(SELLER)));
    engine.apply(EngineCommand::Submit(NewOrder::limit(2, BTC, Side::Bid, 99, 3).with_account(BUYER)));
    let first = engine.export_state();
    assert_eq!(engine.export_state(), first);
    let ids: Vec<u64> = first.live_orders.iter().map(|l| l.order.id).collect();
    assert_eq!(ids, vec![1, 2, 7]);
    let rebuilt = MatchingEngine::from_state(first.clone());
    assert_eq!(rebuilt.export_state(), first);
    assert_eq!(rebuilt.snapshot(2), engine.snapshot(2));
}

#[test]
fn live_reservations_track_what_is_left() {
    let mut engine = funded_engine();
    engine.apply(EngineCommand::Submit(NewOrder::limit(1, BTC, Side::Bid, 100, 10).with_account(BUYER)));
    engine.apply(EngineCommand::Submit(NewOrder::limit(2, BTC, Side::Ask, 100, 4).with_account(SELLER)));
    engine.apply(EngineCommand::Submit(NewOrder::limit(3, BTC, Side::Ask, 105, 2).with_account(SELLER)));
    let state = engine.export_state();
    let live: Vec<(u64, u64, Reservation)> =
        state.live_orders.iter().map(|l| (l.order.id, l.remaining_qty, l.reservation)).collect();
    assert_eq!(
        live,
        vec![
            (1, 6, Reservation::BuyCash { limit_price: 100, reserved_cash: 600 }),
            (3, 2, Reservation::SellPosition { reserved_qty: 2 }),
        ]
    );
    assert_eq!(state.accounts[&BUYER].reserved_cash, 600);
    assert_eq!(state.accounts[&SELLER].positions[&BTC].reserved, 2);
}
