use trading_engine::book::OrderBook;
use trading_engine::engine::MatchingEngine;
use trading_engine::events::{Event, RejectReason};
use trading_engine::types::{EngineCommand, NewOrder, ReplaceOrder, Side};

const BTC_USD: u64 = 1;
const ETH_USD: u64 = 2;
const MAKER: u64 = 10;
const TAKER: u64 = 20;

#[test]
fn limit_order_rests_on_empty_book() {
    let mut book = OrderBook::new(BTC_USD);
    let events = book.submit(NewOrder::limit(1, BTC_USD, Side::Bid, 100, 10));

    assert!(events.contains(&Event::Accepted {
        instrument: BTC_USD,
        order_id: 1,
        sequence: 0,
    }));
    assert!(events.contains(&Event::Rested {
        instrument: BTC_USD,
        order_id: 1,
        side: Side::Bid,
        price: 100,
        remaining: 10,
        sequence: 0,
    }));
}

#[test]
fn price_time_priority_is_fifo_within_level() {
    let mut book = OrderBook::new(BTC_USD);
    book.submit(NewOrder::limit(1, BTC_USD, Side::Ask, 101, 5));
    book.submit(NewOrder::limit(2, BTC_USD, Side::Ask, 101, 5));

    let events = book.submit(NewOrder::limit(3, BTC_USD, Side::Bid, 101, 7));
    let trades: Vec<_> = events
        .iter()
        .filter_map(|event| match event {
            Event::Trade {
                maker_order_id,
                quantity,
                ..
            } => Some((*maker_order_id, *quantity)),
            _ => None,
        })
        .collect();

    assert_eq!(trades, vec![(1, 5), (2, 2)]);
}

#[test]
fn risk_rejects_buy_without_cash() {
    let mut engine = MatchingEngine::new();
    let events = engine.apply(EngineCommand::Submit(
        NewOrder::limit(1, BTC_USD, Side::Bid, 100, 10).with_account(TAKER),
    ));

    assert_eq!(
        events,
        vec![Event::Rejected {
            instrument: Some(BTC_USD),
            order_id: 1,
            reason: RejectReason::InsufficientCash,
            sequence: 0,
        }]
    );
}

#[test]
fn engine_matches_and_updates_balances() {
    let mut engine = MatchingEngine::new();
    engine.apply(EngineCommand::CreditCash {
        account_id: TAKER,
        amount: 10_000,
    });
    engine.apply(EngineCommand::CreditPosition {
        account_id: MAKER,
        instrument: BTC_USD,
        quantity: 10,
    });

    engine.apply(EngineCommand::Submit(
        NewOrder::limit(1, BTC_USD, Side::Ask, 101, 5).with_account(MAKER),
    ));
    let events = engine.apply(EngineCommand::Submit(
        NewOrder::market(2, BTC_USD, Side::Bid, 5).with_account(TAKER),
    ));

    assert!(events.iter().any(|event| matches!(
        event,
        Event::Trade {
            instrument,
            maker_order_id: 1,
            taker_order_id: 2,
            price: 101,
            quantity: 5,
            ..
        } if *instrument == BTC_USD
    )));
    assert!(engine.snapshot(BTC_USD).best_ask.is_none());
}

#[test]
fn matching_engine_routes_independent_books_by_instrument() {
    let mut engine = MatchingEngine::new();
    engine.apply(EngineCommand::CreditCash {
        account_id: MAKER,
        amount: 100_000,
    });
    engine.apply(EngineCommand::CreditPosition {
        account_id: TAKER,
        instrument: ETH_USD,
        quantity: 5,
    });

    engine.apply(EngineCommand::Submit(
        NewOrder::limit(1, BTC_USD, Side::Bid, 100, 10).with_account(MAKER),
    ));
    engine.apply(EngineCommand::Submit(
        NewOrder::limit(2, ETH_USD, Side::Ask, 200, 5).with_account(TAKER),
    ));

    let btc = engine.snapshot(BTC_USD);
    let eth = engine.snapshot(ETH_USD);

    assert_eq!(btc.best_bid.map(|level| level.price), Some(100));
    assert_eq!(eth.best_ask.map(|level| level.price), Some(200));
}

#[test]
fn replace_reprices_order_and_requeues_priority() {
    let mut engine = MatchingEngine::new();
    engine.apply(EngineCommand::CreditPosition {
        account_id: MAKER,
        instrument: BTC_USD,
        quantity: 10,
    });
    engine.apply(EngineCommand::CreditCash {
        account_id: TAKER,
        amount: 10_000,
    });

    engine.apply(EngineCommand::Submit(
        NewOrder::limit(1, BTC_USD, Side::Ask, 101, 5).with_account(MAKER),
    ));
    engine.apply(EngineCommand::Submit(
        NewOrder::limit(2, BTC_USD, Side::Ask, 101, 5).with_account(MAKER),
    ));

    let replace_events = engine.apply(EngineCommand::Replace(ReplaceOrder {
        order_id: 1,
        new_price: 100,
        new_quantity: 4,
    }));
    assert!(replace_events.iter().any(|event| matches!(
        event,
        Event::Replaced {
            instrument,
            order_id,
            old_price,
            new_price,
            ..
        } if *instrument == BTC_USD && *order_id == 1 && *old_price == 101 && *new_price == 100
    )));

    let trade_events = engine.apply(EngineCommand::Submit(
        NewOrder::limit(3, BTC_USD, Side::Bid, 101, 6).with_account(TAKER),
    ));
    let trades: Vec<_> = trade_events
        .iter()
        .filter_map(|event| match event {
            Event::Trade {
                maker_order_id,
                quantity,
                ..
            } => Some((*maker_order_id, *quantity)),
            _ => None,
        })
        .collect();

    assert_eq!(trades, vec![(1, 4), (2, 2)]);
}
