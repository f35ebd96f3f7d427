use trading_engine::book::OrderBook;
use trading_engine::engine::{EngineState, LiveOrderState, MatchingEngine};
use trading_engine::events::Event;
use trading_engine::persistence::{recover_engine, CommandRecord, SnapshotRecord};
use trading_engine::risk::Reservation;
use trading_engine::types::{EngineCommand, NewOrder, ReplaceOrder, Side};

const BTC: u64 = 1;
const ETH: u64 = 2;
const SELLER: u64 = 10;
const BUYER: u64 = 20;

fn credits() -> Vec<EngineCommand> {
    vec![
        EngineCommand::CreditCash { account_id: BUYER, amount: 10_000 },
        EngineCommand::CreditCash { account_id: SELLER, amount: 500 },
        EngineCommand::CreditPosition { account_id: SELLER, instrument: BTC, quantity: 10 },
        EngineCommand::CreditPosition { account_id: SELLER, instrument: ETH, quantity: 5 },
    ]
}

fn trading() -> Vec<EngineCommand> {
    vec![
        EngineCommand::Submit(NewOrder::limit(1, BTC, Side::Ask, 101, 4).with_account(SELLER)),
        EngineCommand::Submit(NewOrder::limit(2, BTC, Side::Ask, 103, 3).with_account(SELLER)),
        EngineCommand::Submit(NewOrder::limit(3, BTC, Side::Bid, 103, 5).with_account(BUYER)),
        EngineCommand::Submit(NewOrder::limit(4, ETH, Side::Ask, 50, 5).with_account(SELLER)),
        EngineCommand::Submit(NewOrder::limit(5, ETH, Side::Bid, 49, 2).with_account(BUYER)),
        EngineCommand::Replace(ReplaceOrder { order_id: 5, new_price: 50, new_quantity: 3 }),
        EngineCommand::Cancel { order_id: 2 },
        EngineCommand::Submit(NewOrder::limit(6, BTC, Side::Bid, 99, 7).with_account(BUYER)),
    ]
}

fn totals(state: &EngineState) -> (u64, u64, u64) {
    let mut cash = 0;
    let mut btc = 0;
    let mut eth = 0;
    for account in state.accounts.values() {
        cash += account.cash + account.reserved_cash;
        if let Some(p) = account.positions.get(&BTC) {
            btc += p.available + p.reserved;
        }
        if let Some(p) = account.positions.get(&ETH) {
            eth += p.available + p.reserved;
        }
    }
    (cash, btc, eth)
}

fn without_arrival(lives: &[LiveOrderState]) -> Vec<(u64, u64, Reservation)> {
    lives.iter().map(|l| (l.order.id, l.remaining_qty, l.reservation)).collect()
}

fn trades(events: &[Event]) -> Vec<(u64, u64, u64, u64)> {
    events
        .iter()
        .filter_map(|e| match e {
            Event::Trade { maker_order_id, taker_order_id, price, quantity, .. } => {
                Some((*maker_order_id, *taker_order_id, *price, *quantity))
            },
            _ => None,
        })
        .collect()
}

#[test]
fn trading_commands_conserve_cash_and_positions() {
    let mut engine = MatchingEngine::new();
    for command in credits() {
        engine.apply(command);
    }
    let before = totals(&engine.export_state());
    assert_eq!(before, (10_500, 10, 5));
    for command in trading() {
        engine.apply(command);
        assert_eq!(totals(&engine.export_state()), before);
    }
}

#[test]
fn reserved_amounts_are_what_live_orders_hold() {
    let mut engine = MatchingEngine::new();
    for command in credits().into_iter().chain(trading()) {
        engine.apply(command);
    }
    let state = engine.export_state();
    let mut buyer_cash = 0;
    let mut seller_btc = 0;
    let mut seller_eth = 0;
    for live in &state.live_orders {
        match (live.order.account, live.reservation) {
            (BUYER, Reservation::BuyCash { reserved_cash, .. }) => buyer_cash += reserved_cash,
            (SELLER, Reservation::SellPosition { reserved_qty }) if live.order.instrument == BTC => seller_btc += reserved_qty,
            (SELLER, Reservation::SellPosition { reserved_qty }) => seller_eth += reserved_qty,
            _ => {},
        }
    }
    assert_eq!(buyer_cash, 693);
    assert_eq!(state.accounts[&BUYER].reserved_cash, buyer_cash);
    assert_eq!(state.accounts[&SELLER].positions[&BTC].reserved, seller_btc);
    assert_eq!(state.accounts[&SELLER].positions[&ETH].reserved, seller_eth);
    assert_eq!(seller_eth, 2);
}

#[test]
fn restart_after_later_log_records_gives_back_the_engine() {
    let mut commands = credits();
    commands.extend(trading());
    let records: Vec<CommandRecord> =
        commands.iter().enumerate().map(|(i, c)| CommandRecord { index: i as u64 + 1, command: *c }).collect();

    let mut engine = MatchingEngine::new();
    let mut snapshot = None;
    for record in &records {
        engine.apply(record.command);
        if record.index == 6 {
            snapshot = Some(SnapshotRecord { last_log_index: 6, state: engine.export_state() });
        }
    }
    let (recovered, last) = recover_engine(snapshot, &records).unwrap();
    assert_eq!(last, 12);
    let a = engine.export_state();
    let b = recovered.export_state();
    assert_eq!(a.next_global_sequence, b.next_global_sequence);
    assert_eq!(a.accounts, b.accounts);
    assert_eq!(without_arrival(&a.live_orders), without_arrival(&b.live_orders));
    assert_eq!(engine.snapshot(BTC), recovered.snapshot(BTC));
    assert_eq!(engine.snapshot(ETH), recovered.snapshot(ETH));
}

#[test]
fn rebuilt_engine_answers_the_next_command_alike() {
    let mut engine = MatchingEngine::new();
    for command in credits().into_iter().chain(trading()) {
        engine.apply(command);
    }
    let mut rebuilt = MatchingEngine::from_state(engine.export_state());
    let next = EngineCommand::Submit(NewOrder::limit(7, BTC, Side::Ask, 99, 5).with_account(SELLER));
    let original = engine.apply(next);
    let again = rebuilt.apply(next);
    assert_eq!(trades(&original), vec![(6, 7, 99, 5)]);
    assert_eq!(trades(&again), trades(&original));
    assert_eq!(original.len(), again.len());
    assert_eq!(engine.export_state().accounts, rebuilt.export_state().accounts);
}

#[test]
fn book_of_submits_and_cancels_is_never_crossed() {
    let mut book = OrderBook::new(BTC);
    let orders = vec![
        NewOrder::limit(1, BTC, Side::Bid, 100, 5),
        NewOrder::limit(2, BTC, Side::Ask, 102, 5),
        NewOrder::limit(3, BTC, Side::Bid, 103, 2),
        NewOrder::limit(4, BTC, Side::Ask, 99, 9),
        NewOrder::limit(5, BTC, Side::Bid, 101, 1),
    ];
    for order in orders {
        book.submit(order);
        let s = book.snapshot();
        if let (Some(bid), Some(ask)) = (s.best_bid, s.best_ask) {
            assert!(bid.price < ask.price);
        }
    }
    book.cancel(2);
    let s = book.snapshot();
    assert_eq!(s.best_bid, None);
    assert_eq!(s.best_ask.map(|l| (l.price, l.total_qty)), Some((99, 3)));
}

#[test]
fn engines_fed_the_same_commands_agree() {
    let mut first = MatchingEngine::new();
    let mut second = MatchingEngine::new();
    for command in credits().into_iter().chain(trading()) {
        assert_eq!(first.apply(command), second.apply(command));
    }
    assert_eq!(first.export_state(), second.export_state());
    assert_eq!(first.snapshot(BTC), second.snapshot(BTC));
    assert_eq!(first.snapshot(ETH), second.snapshot(ETH));
}

#[test]
fn restart_from_the_log_alone_gives_back_the_engine() {
    let commands: Vec<EngineCommand> = credits().into_iter().chain(trading()).collect();
    let records: Vec<CommandRecord> =
        commands.iter().enumerate().map(|(i, c)| CommandRecord { index: i as u64 + 1, command: *c }).collect();
    let mut engine = MatchingEngine::new();
    for command in &commands {
        engine.apply(*command);
    }
    let (recovered, last) = recover_engine(None, &records).unwrap();
    assert_eq!(last, 12);
    assert_eq!(recovered.export_state(), engine.export_state());
}
