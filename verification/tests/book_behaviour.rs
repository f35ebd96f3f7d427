use trading_engine::book::{BookSnapshot, LevelSnapshot, OrderBook, RestingOrder};
use trading_engine::events::{Event, RejectReason};
use trading_engine::types::{NewOrder, OrderType, Side, TimeInForce};

const INST: u64 = 7;

fn traded(events: &[Event]) -> u64 {
    events
        .iter()
        .map(|e| match e {
            Event::Trade { quantity, .. } => *quantity,
            _ => 0,
        })
        .sum()
}

fn sequences(events: &[Event]) -> Vec<u64> {
    events
        .iter()
        .map(|e| match e {
            Event::Accepted { sequence, .. }
            | Event::Rejected { sequence, .. }
            | Event::Trade { sequence, .. }
            | Event::Rested { sequence, .. }
            | Event::Filled { sequence, .. }
            | Event::Cancelled { sequence, .. }
            | Event::Replaced { sequence, .. }
            | Event::LevelUpdated { sequence, .. }
            | Event::BestBidAskUpdated { sequence, .. }
            | Event::CashCredited { sequence, .. }
            | Event::PositionCredited { sequence, .. } => *sequence,
        })
        .collect()
}

#[test]
fn empty_book_has_no_top() {
    let book = OrderBook::new(INST);
    assert_eq!(book.instrument(), INST);
    assert_eq!(book.snapshot(), BookSnapshot { best_bid: None, best_ask: None });
    assert!(!book.contains_order(1));
    assert!(!book.sequence_exhausted());
}

#[test]
fn resting_limit_order_exact_events() {
    let mut book = OrderBook::new(INST);
    let events = book.submit(NewOrder::limit(1, INST, Side::Bid, 100, 10));
    assert_eq!(
        events,
        vec![
            Event::Accepted { instrument: INST, order_id: 1, sequence: 0 },
            Event::Rested { instrument: INST, order_id: 1, side: Side::Bid, price: 100, remaining: 10, sequence: 0 },
            Event::LevelUpdated { instrument: INST, side: Side::Bid, price: 100, total_qty: 10, order_count: 1, sequence: 0 },
            Event::BestBidAskUpdated { instrument: INST, best_bid: Some(100), best_ask: None, sequence: 0 },
        ]
    );
    assert_eq!(
        book.resting_order(1),
        Some(RestingOrder {
            instrument: INST,
            order_id: 1,
            side: Side::Bid,
            price: 100,
            original_qty: 10,
            remaining_qty: 10,
            arrival_sequence: 0,
        })
    );
    assert_eq!(
        book.snapshot().best_bid,
        Some(LevelSnapshot { price: 100, total_qty: 10, order_count: 1 })
    );
}

#[test]
fn each_reject_reason_of_the_book() {
    let mut book = OrderBook::new(INST);
    book.submit(NewOrder::limit(1, INST, Side::Bid, 100, 10));

    let dup = book.submit(NewOrder::limit(1, INST, Side::Ask, 105, 1));
    assert_eq!(
        dup,
        vec![Event::Rejected { instrument: Some(INST), order_id: 1, reason: RejectReason::DuplicateOrderId, sequence: 1 }]
    );

    let zero = book.submit(NewOrder::limit(2, INST, Side::Ask, 105, 0));
    assert_eq!(
        zero,
        vec![Event::Rejected { instrument: Some(INST), order_id: 2, reason: RejectReason::InvalidQuantity, sequence: 2 }]
    );

    let mut no_price = NewOrder::limit(3, INST, Side::Ask, 105, 1);
    no_price.price = None;
    assert_eq!(
        book.submit(no_price),
        vec![Event::Rejected { instrument: Some(INST), order_id: 3, reason: RejectReason::MissingPrice, sequence: 3 }]
    );

    let mut priced_market = NewOrder::market(4, INST, Side::Ask, 1);
    priced_market.price = Some(99);
    assert_eq!(
        book.submit(priced_market),
        vec![Event::Rejected {
            instrument: Some(INST),
            order_id: 4,
            reason: RejectReason::PriceNotAllowedForMarket,
            sequence: 4
        }]
    );

    assert_eq!(
        book.cancel(42),
        vec![Event::Rejected { instrument: Some(INST), order_id: 42, reason: RejectReason::UnknownOrderId, sequence: 5 }]
    );
    // The refused orders changed nothing.
    assert_eq!(book.snapshot().best_bid, Some(LevelSnapshot { price: 100, total_qty: 10, order_count: 1 }));
    assert_eq!(book.snapshot().best_ask, None);
}

#[test]
fn every_submit_uses_one_sequence_number() {
    let mut book = OrderBook::new(INST);
    for (i, price) in [101u64, 102, 103].iter().enumerate() {
        let events = book.submit(NewOrder::limit(i as u64 + 1, INST, Side::Ask, *price, 2));
        assert!(sequences(&events).iter().all(|s| *s == i as u64));
    }
    let events = book.submit(NewOrder::limit(10, INST, Side::Bid, 103, 5));
    assert!(sequences(&events).iter().all(|s| *s == 3));
    let events = book.cancel(3);
    assert!(sequences(&events).iter().all(|s| *s == 4));
}

#[test]
fn quantity_is_traded_rested_or_cancelled() {
    let mut book = OrderBook::new(INST);
    book.submit(NewOrder::limit(1, INST, Side::Ask, 101, 3));
    book.submit(NewOrder::limit(2, INST, Side::Ask, 102, 4));

    // A limit bid that sweeps one level and rests the rest.
    let events = book.submit(NewOrder::limit(3, INST, Side::Bid, 101, 5));
    assert_eq!(traded(&events), 3);
    assert!(events.contains(&Event::Rested {
        instrument: INST,
        order_id: 3,
        side: Side::Bid,
        price: 101,
        remaining: 2,
        sequence: 2
    }));

    // An immediate-or-cancel market sell: 2 trade against the bid, the rest is cancelled.
    let events = book.submit(NewOrder::market(4, INST, Side::Ask, 5));
    assert_eq!(traded(&events), 2);
    assert!(events.contains(&Event::Cancelled { instrument: INST, order_id: 4, cancelled_qty: 3, sequence: 3 }));
}

#[test]
fn limit_is_never_traded_through() {
    let mut book = OrderBook::new(INST);
    book.submit(NewOrder::limit(1, INST, Side::Ask, 100, 1));
    book.submit(NewOrder::limit(2, INST, Side::Ask, 105, 1));
    let events = book.submit(NewOrder::limit(3, INST, Side::Bid, 104, 5));
    for e in &events {
        if let Event::Trade { price, .. } = e {
            assert!(*price <= 104);
        }
    }
    assert_eq!(traded(&events), 1);
    // The book is not crossed afterwards: best bid below best ask.
    let snap = book.snapshot();
    assert_eq!(snap.best_bid.map(|l| l.price), Some(104));
    assert_eq!(snap.best_ask.map(|l| l.price), Some(105));
}

#[test]
fn trades_happen_at_the_makers_price() {
    let mut book = OrderBook::new(INST);
    book.submit(NewOrder::limit(1, INST, Side::Bid, 99, 2));
    let events = book.submit(NewOrder::limit(2, INST, Side::Ask, 90, 2));
    assert!(events.contains(&Event::Trade {
        instrument: INST,
        maker_order_id: 1,
        taker_order_id: 2,
        side: Side::Ask,
        price: 99,
        quantity: 2,
        maker_remaining: 0,
        taker_remaining: 0,
        sequence: 1
    }));
    assert!(events.contains(&Event::Filled { instrument: INST, order_id: 1, sequence: 1 }));
    assert!(events.contains(&Event::Filled { instrument: INST, order_id: 2, sequence: 1 }));
    assert_eq!(book.snapshot(), BookSnapshot { best_bid: None, best_ask: None });
}

#[test]
fn cancel_removes_only_that_order() {
    let mut book = OrderBook::new(INST);
    book.submit(NewOrder::limit(1, INST, Side::Bid, 100, 4));
    book.submit(NewOrder::limit(2, INST, Side::Bid, 100, 6));
    let events = book.cancel(1);
    assert_eq!(events[0], Event::Cancelled { instrument: INST, order_id: 1, cancelled_qty: 4, sequence: 2 });
    assert!(events.contains(&Event::LevelUpdated {
        instrument: INST,
        side: Side::Bid,
        price: 100,
        total_qty: 6,
        order_count: 1,
        sequence: 2
    }));
    assert!(!book.contains_order(1));
    assert!(book.contains_order(2));
    assert_eq!(book.resting_order(1), None);
}

#[test]
fn ioc_limit_order_does_not_rest() {
    let mut book = OrderBook::new(INST);
    let mut order = NewOrder::limit(1, INST, Side::Bid, 100, 3);
    order.time_in_force = TimeInForce::Ioc;
    let events = book.submit(order);
    assert!(events.contains(&Event::Cancelled { instrument: INST, order_id: 1, cancelled_qty: 3, sequence: 0 }));
    assert_eq!(book.snapshot().best_bid, None);
    assert_eq!(order.order_type, OrderType::Limit);
}

#[test]
fn restored_order_keeps_its_arrival_and_moves_the_sequence() {
    let mut book = OrderBook::new(INST);
    book.restore_resting_order(NewOrder::limit(5, INST, Side::Ask, 110, 8), 3, 41);
    assert_eq!(
        book.resting_order(5),
        Some(RestingOrder {
            instrument: INST,
            order_id: 5,
            side: Side::Ask,
            price: 110,
            original_qty: 8,
            remaining_qty: 3,
            arrival_sequence: 41,
        })
    );
    let events = book.submit(NewOrder::limit(6, INST, Side::Ask, 111, 1));
    assert!(sequences(&events).iter().all(|s| *s == 42));
}

#[test]
fn try_submit_answers_like_submit() {
    let mut a = OrderBook::new(INST);
    let mut b = OrderBook::new(INST);
    let order = NewOrder::limit(1, INST, Side::Ask, 100, 5);
    assert_eq!(a.try_submit(order), Some(b.submit(order)));
}

#[test]
fn opposite_sides() {
    assert_eq!(Side::Bid.opposite(), Side::Ask);
    assert_eq!(Side::Ask.opposite(), Side::Bid);
}

#[test]
fn cancel_undoes_a_resting_submit() {
    let mut book = OrderBook::new(INST);
    book.submit(NewOrder::limit(1, INST, Side::Ask, 105, 2));
    book.submit(NewOrder::limit(2, INST, Side::Bid, 100, 3));
    let before = book.snapshot();
    book.submit(NewOrder::limit(3, INST, Side::Bid, 100, 4));
    assert_eq!(book.snapshot().best_bid, Some(LevelSnapshot { price: 100, total_qty: 7, order_count: 2 }));
    book.cancel(3);
    assert_eq!(book.snapshot(), before);
    assert!(!book.contains_order(3));
    // The next order gets the sequence after the two just used.
    let events = book.submit(NewOrder::limit(4, INST, Side::Bid, 99, 1));
    assert!(sequences(&events).iter().all(|s| *s == 4));
}

#[test]
fn top_of_book_is_highest_bid_and_lowest_ask() {
    let mut book = OrderBook::new(INST);
    book.submit(NewOrder::limit(1, INST, Side::Bid, 98, 1));
    book.submit(NewOrder::limit(2, INST, Side::Bid, 100, 2));
    book.submit(NewOrder::limit(3, INST, Side::Bid, 99, 3));
    book.submit(NewOrder::limit(4, INST, Side::Ask, 103, 4));
    book.submit(NewOrder::limit(5, INST, Side::Ask, 101, 5));
    book.submit(NewOrder::limit(6, INST, Side::Ask, 102, 6));
    assert_eq!(
        book.snapshot(),
        BookSnapshot {
            best_bid: Some(LevelSnapshot { price: 100, total_qty: 2, order_count: 1 }),
            best_ask: Some(LevelSnapshot { price: 101, total_qty: 5, order_count: 1 }),
        }
    );
    book.cancel(2);
    book.cancel(5);
    assert_eq!(book.snapshot().best_bid.map(|l| l.price), Some(99));
    assert_eq!(book.snapshot().best_ask.map(|l| l.price), Some(102));
}
