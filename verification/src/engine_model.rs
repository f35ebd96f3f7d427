use vstd::prelude::*;

use crate::book::BookSnapshot;
use crate::book_model::BookModel;
use crate::engine::LiveOrderState;
use crate::events::{Event, RejectReason};
use crate::risk::{
    account_of, release_fits, release_outcome, reserve_fits, reserve_outcome, trade_fits, trade_outcome,
    AccountView, PositionState, Reservation, ReservedOrder,
};
use crate::types::{
    AccountId, Cash, EngineCommand, InstrumentId, NewOrder, OrderId, OrderType, Quantity, ReplaceOrder, Sequence,
    TimeInForce,
};

verus! {

/// The abstract state of a matching engine: a book per instrument, the live (resting)
/// orders with what they reserved, where each rests, the accounts, and the next global
/// sequence number.
pub struct EngineModel {
    pub books: Map<InstrumentId, BookModel>,
    pub live_orders: Map<OrderId, LiveOrderState>,
    pub order_locations: Map<OrderId, InstrumentId>,
    pub accounts: Map<AccountId, AccountView>,
    pub next_global_sequence: Sequence,
}

/// Whether live order `a` comes no later than `b` in a snapshot: by instrument, then by
/// arrival sequence.
pub open spec fn live_key_le(a: LiveOrderState, b: LiveOrderState) -> bool {
    a.order.instrument < b.order.instrument || (a.order.instrument == b.order.instrument
        && a.arrival_sequence <= b.arrival_sequence)
}

/// `x` inserted into `t` after the last element that comes no later than it.
pub open spec fn insert_sorted(t: Seq<LiveOrderState>, x: LiveOrderState) -> Seq<LiveOrderState>
    decreases t.len(),
{
    if t.len() == 0 {
        seq![x]
    } else if live_key_le(t.last(), x) {
        t.push(x)
    } else {
        insert_sorted(t.drop_last(), x).push(t.last())
    }
}

/// The live orders sorted by instrument and arrival sequence; orders with equal keys keep
/// their order (a stable sort).
pub open spec fn sort_live(s: Seq<LiveOrderState>) -> Seq<LiveOrderState>
    decreases s.len(),
{
    if s.len() == 0 {
        s
    } else {
        insert_sorted(sort_live(s.drop_last()), s.last())
    }
}

impl EngineModel {
    /// An engine with the given accounts and sequence, and nothing else.
    pub open spec fn bare(accounts: Map<AccountId, AccountView>, next_global_sequence: Sequence) -> EngineModel {
        EngineModel {
            books: Map::empty(),
            live_orders: Map::empty(),
            order_locations: Map::empty(),
            accounts,
            next_global_sequence,
        }
    }

    /// The engine after a recorded live order is put back into the book of its instrument.
    /// `None` where it cannot be: it has no price, its id already rests in that book, its
    /// level's counters would overflow, or its arrival is the last sequence number.
    pub open spec fn restore_live(self, live: LiveOrderState) -> Option<EngineModel> {
        let instrument = live.order.instrument;
        let book = self.book_or_empty(instrument);
        if live.order.price is None || book.orders.contains_key(live.order.id) || !book.can_rest(
            live.order.side,
            live.order.price.unwrap(),
            live.remaining_qty,
        ) || live.arrival_sequence == u64::MAX {
            None
        } else {
            Some(
                EngineModel {
                    books: self.books.insert(
                        instrument,
                        book.restore(live.order, live.remaining_qty, live.arrival_sequence),
                    ),
                    order_locations: self.order_locations.insert(live.order.id, instrument),
                    live_orders: self.live_orders.insert(live.order.id, live),
                    ..self
                },
            )
        }
    }

    /// The engine after recorded live orders are put back, in order.
    pub open spec fn restore_all(self, lives: Seq<LiveOrderState>) -> Option<EngineModel>
        decreases lives.len(),
    {
        if lives.len() == 0 {
            Some(self)
        } else {
            match self.restore_live(lives[0]) {
                None => None,
                Some(e) => e.restore_all(lives.subrange(1, lives.len() as int)),
            }
        }
    }

    /// The engine rebuilt from a snapshot: its accounts and sequence, and its live orders put
    /// back in instrument and arrival order.
    pub open spec fn recovered(
        live_orders: Seq<LiveOrderState>,
        accounts: Map<AccountId, AccountView>,
        next_global_sequence: Sequence,
    ) -> Option<EngineModel> {
        Self::bare(accounts, next_global_sequence).restore_all(sort_live(live_orders))
    }

    /// The book of an instrument; a book without orders where there is none yet.
    pub open spec fn book_or_empty(self, instrument: InstrumentId) -> BookModel {
        if self.books.contains_key(instrument) {
            self.books[instrument]
        } else {
            BookModel::empty(instrument)
        }
    }

    /// The top of the book of an instrument.
    pub open spec fn snapshot(self, instrument: InstrumentId) -> BookSnapshot {
        self.book_or_empty(instrument).snapshot()
    }

    pub open spec fn bump(self) -> EngineModel {
        EngineModel { next_global_sequence: (self.next_global_sequence + 1) as u64, ..self }
    }

    /// A refusal by the engine itself: one `Rejected` event with the next global sequence.
    pub open spec fn reject(self, instrument: Option<InstrumentId>, order_id: OrderId, reason: RejectReason) -> Option<
        (EngineModel, Seq<Event>),
    > {
        if self.next_global_sequence == u64::MAX {
            None
        } else {
            Some(
                (
                    self.bump(),
                    seq![
                        Event::Rejected {
                            instrument,
                            order_id,
                            reason,
                            sequence: self.next_global_sequence,
                        },
                    ],
                ),
            )
        }
    }

    /// The engine after a live order is forgotten.
    pub open spec fn forget(self, order_id: OrderId) -> EngineModel {
        EngineModel {
            live_orders: self.live_orders.remove(order_id),
            order_locations: self.order_locations.remove(order_id),
            ..self
        }
    }

    /// What one event of a submit does to the accounts and live orders, given the state of
    /// the taker so far: trades settle the taker and a live maker, a resting taker becomes
    /// live, a cancelled or rejected taker gives back its reservation, and a filled maker is
    /// forgotten. `None` where a balance overflows.
    pub open spec fn submit_effect(self, order: NewOrder, taker: LiveOrderState, event: Event) -> Option<
        (EngineModel, LiveOrderState),
    > {
        match event {
            Event::Trade {
                instrument,
                maker_order_id,
                taker_order_id,
                price,
                quantity,
                maker_remaining,
                taker_remaining,
                ..
            } => {
                let step = if taker_order_id == order.id {
                    if !trade_fits(self.accounts, order.account, instrument, order.side, price, quantity, taker.reservation) {
                        None
                    } else {
                        let (a, r) = trade_outcome(
                            self.accounts,
                            order.account,
                            instrument,
                            order.side,
                            price,
                            quantity,
                            taker.reservation,
                        );
                        Some(
                            (
                                EngineModel { accounts: a, ..self },
                                LiveOrderState { reservation: r, remaining_qty: taker_remaining, ..taker },
                            ),
                        )
                    }
                } else {
                    Some((self, taker))
                };
                match step {
                    None => None,
                    Some((e1, t1)) => {
                        if e1.live_orders.contains_key(maker_order_id) {
                            let maker = e1.live_orders[maker_order_id];
                            if !trade_fits(
                                e1.accounts,
                                maker.order.account,
                                instrument,
                                maker.order.side,
                                price,
                                quantity,
                                maker.reservation,
                            ) {
                                None
                            } else {
                                let (a, r) = trade_outcome(
                                    e1.accounts,
                                    maker.order.account,
                                    instrument,
                                    maker.order.side,
                                    price,
                                    quantity,
                                    maker.reservation,
                                );
                                Some(
                                    (
                                        EngineModel {
                                            accounts: a,
                                            live_orders: e1.live_orders.insert(
                                                maker_order_id,
                                                LiveOrderState { reservation: r, remaining_qty: maker_remaining, ..maker },
                                            ),
                                            ..e1
                                        },
                                        t1,
                                    ),
                                )
                            }
                        } else {
                            Some((e1, t1))
                        }
                    },
                }
            },
            Event::Rested { instrument, order_id, remaining, sequence, .. } => {
                if order_id == order.id {
                    let t = LiveOrderState { remaining_qty: remaining, arrival_sequence: sequence, ..taker };
                    Some(
                        (
                            EngineModel {
                                order_locations: self.order_locations.insert(order.id, instrument),
                                live_orders: self.live_orders.insert(order.id, t),
                                ..self
                            },
                            t,
                        ),
                    )
                } else {
                    Some((self, taker))
                }
            },
            Event::Cancelled { order_id, .. } => {
                if order_id == order.id {
                    self.release_taker(order, taker)
                } else {
                    Some((self, taker))
                }
            },
            Event::Rejected { order_id, .. } => {
                if order_id == order.id {
                    self.release_taker(order, taker)
                } else {
                    Some((self, taker))
                }
            },
            Event::Filled { order_id, .. } => {
                if order_id == order.id {
                    Some((self, taker))
                } else {
                    Some((self.forget(order_id), taker))
                }
            },
            _ => Some((self, taker)),
        }
    }

    /// The taker gives back what is left of its reservation.
    pub open spec fn release_taker(self, order: NewOrder, taker: LiveOrderState) -> Option<(EngineModel, LiveOrderState)> {
        if !release_fits(self.accounts, order.account, order.instrument, taker.reservation) {
            None
        } else {
            let (a, r) = release_outcome(self.accounts, order.account, order.instrument, taker.reservation);
            Some((EngineModel { accounts: a, ..self }, LiveOrderState { reservation: r, ..taker }))
        }
    }

    /// The effects of the events of a submit, in order.
    pub open spec fn submit_effects(self, order: NewOrder, taker: LiveOrderState, events: Seq<Event>) -> Option<EngineModel>
        decreases events.len(),
    {
        if events.len() == 0 {
            Some(self)
        } else {
            match self.submit_effect(order, taker, events[0]) {
                None => None,
                Some((e, t)) => e.submit_effects(order, t, events.subrange(1, events.len() as int)),
            }
        }
    }

    /// The effect of one event of a cancel: a cancelled live order gives back its
    /// reservation and is forgotten; a filled one is forgotten.
    pub open spec fn terminal_effect(self, event: Event) -> Option<EngineModel> {
        match event {
            Event::Cancelled { instrument, order_id, .. } => {
                if self.live_orders.contains_key(order_id) {
                    let live = self.live_orders[order_id];
                    if !release_fits(self.accounts, live.order.account, instrument, live.reservation) {
                        None
                    } else {
                        let (a, r) = release_outcome(self.accounts, live.order.account, instrument, live.reservation);
                        Some(EngineModel { accounts: a, ..self.forget(order_id) })
                    }
                } else {
                    Some(EngineModel { order_locations: self.order_locations.remove(order_id), ..self })
                }
            },
            Event::Filled { order_id, .. } => Some(self.forget(order_id)),
            _ => Some(self),
        }
    }

    /// The effects of the events of a cancel, in order.
    pub open spec fn terminal_effects(self, events: Seq<Event>) -> Option<EngineModel>
        decreases events.len(),
    {
        if events.len() == 0 {
            Some(self)
        } else {
            match self.terminal_effect(events[0]) {
                None => None,
                Some(e) => e.terminal_effects(events.subrange(1, events.len() as int)),
            }
        }
    }

    /// Submit: a duplicate of a live order id is refused; then the account reserves what the
    /// order needs (refused where it has too little); then the order goes to the book of its
    /// instrument and the book's events settle accounts and live orders. `None` where a
    /// counter or balance overflows.
    pub open spec fn submit(self, order: NewOrder) -> Option<(EngineModel, Seq<Event>)> {
        if self.live_orders.contains_key(order.id) {
            self.reject(Some(order.instrument), order.id, RejectReason::DuplicateOrderId)
        } else {
            let snapshot = self.snapshot(order.instrument);
            if !reserve_fits(self.accounts, order, snapshot) {
                None
            } else {
                let (accounts, reserved) = reserve_outcome(self.accounts, order, snapshot);
                let e1 = EngineModel { accounts, ..self };
                match reserved {
                    Err(reason) => e1.reject(Some(order.instrument), order.id, reason),
                    Ok(r) => {
                        let book = self.book_or_empty(order.instrument);
                        if !book.submit_fits(order) {
                            None
                        } else {
                            let (book2, events) = book.submit_outcome(order);
                            let e2 = EngineModel { books: self.books.insert(order.instrument, book2), ..e1 };
                            let taker = LiveOrderState {
                                order,
                                remaining_qty: order.quantity,
                                arrival_sequence: 0,
                                reservation: r.reservation,
                            };
                            match e2.submit_effects(order, taker, events) {
                                None => None,
                                Some(e3) => Some((e3, events)),
                            }
                        }
                    },
                }
            }
        }
    }

    /// Cancel: an order that rests nowhere is refused; otherwise its book cancels it and
    /// the events release its reservation.
    pub open spec fn cancel(self, order_id: OrderId) -> Option<(EngineModel, Seq<Event>)> {
        if !self.order_locations.contains_key(order_id) {
            self.reject(None, order_id, RejectReason::UnknownOrderId)
        } else {
            let instrument = self.order_locations[order_id];
            if !self.books.contains_key(instrument) || self.books[instrument].next_sequence == u64::MAX {
                None
            } else {
                let (book2, events) = self.books[instrument].cancel_outcome(order_id);
                let e1 = EngineModel { books: self.books.insert(instrument, book2), ..self };
                match e1.terminal_effects(events) {
                    None => None,
                    Some(e2) => Some((e2, events)),
                }
            }
        }
    }

    /// The new order that a replace submits: a good-till-cancelled limit order of the same
    /// id, account, instrument and side at the new price and quantity.
    pub open spec fn replacement(existing: LiveOrderState, replace: ReplaceOrder) -> NewOrder {
        NewOrder {
            id: replace.order_id,
            account: existing.order.account,
            instrument: existing.order.instrument,
            side: existing.order.side,
            order_type: OrderType::Limit,
            price: Some(replace.new_price),
            quantity: replace.new_quantity,
            time_in_force: TimeInForce::Gtc,
        }
    }

    /// Replace: an unknown order or a zero quantity is refused; otherwise the order is
    /// cancelled, a `Replaced` event follows, and the replacement is submitted.
    pub open spec fn replace(self, replace: ReplaceOrder) -> Option<(EngineModel, Seq<Event>)> {
        if !self.live_orders.contains_key(replace.order_id) {
            self.reject(None, replace.order_id, RejectReason::UnknownOrderId)
        } else {
            let existing = self.live_orders[replace.order_id];
            if replace.new_quantity == 0 {
                self.reject(Some(existing.order.instrument), replace.order_id, RejectReason::InvalidQuantity)
            } else {
                match self.cancel(replace.order_id) {
                    None => None,
                    Some((e1, cancel_events)) => {
                        if e1.next_global_sequence == u64::MAX {
                            None
                        } else {
                            let replaced = Event::Replaced {
                                instrument: existing.order.instrument,
                                order_id: replace.order_id,
                                old_price: match existing.order.price {
                                    Some(p) => p,
                                    None => 0,
                                },
                                new_price: replace.new_price,
                                old_remaining: existing.remaining_qty,
                                new_quantity: replace.new_quantity,
                                sequence: e1.next_global_sequence,
                            };
                            match e1.bump().submit(Self::replacement(existing, replace)) {
                                None => None,
                                Some((e2, submit_events)) => Some((e2, cancel_events.push(replaced) + submit_events)),
                            }
                        }
                    },
                }
            }
        }
    }

    /// Credit of cash to an account, reported with its new balance.
    pub open spec fn credit_cash(self, account_id: AccountId, amount: Cash) -> Option<(EngineModel, Seq<Event>)> {
        let a = account_of(self.accounts, account_id);
        if self.next_global_sequence == u64::MAX || a.cash + amount > u64::MAX {
            None
        } else {
            let cash = (a.cash + amount) as u64;
            Some(
                (
                    EngineModel { accounts: self.accounts.insert(account_id, AccountView { cash, ..a }), ..self.bump() },
                    seq![
                        Event::CashCredited {
                            account_id,
                            amount,
                            new_cash_balance: cash,
                            sequence: self.next_global_sequence,
                        },
                    ],
                ),
            )
        }
    }

    /// Credit of a quantity of an instrument to an account, reported with its new position.
    pub open spec fn credit_position(self, account_id: AccountId, instrument: InstrumentId, quantity: Quantity) -> Option<
        (EngineModel, Seq<Event>),
    > {
        let a = account_of(self.accounts, account_id);
        let p = a.position(instrument);
        if self.next_global_sequence == u64::MAX || p.available + quantity > u64::MAX {
            None
        } else {
            let available = (p.available + quantity) as u64;
            Some(
                (
                    EngineModel {
                        accounts: self.accounts.insert(
                            account_id,
                            a.with_position(instrument, PositionState { available, ..p }),
                        ),
                        ..self.bump()
                    },
                    seq![
                        Event::PositionCredited {
                            account_id,
                            instrument,
                            quantity,
                            new_position: available,
                            sequence: self.next_global_sequence,
                        },
                    ],
                ),
            )
        }
    }

    /// The engine and events after a command; `None` where a counter or balance would
    /// overflow, or a live order's book is missing.
    pub open spec fn apply(self, command: EngineCommand) -> Option<(EngineModel, Seq<Event>)> {
        match command {
            EngineCommand::Submit(order) => self.submit(order),
            EngineCommand::Cancel { order_id } => self.cancel(order_id),
            EngineCommand::Replace(r) => self.replace(r),
            EngineCommand::CreditCash { account_id, amount } => self.credit_cash(account_id, amount),
            EngineCommand::CreditPosition { account_id, instrument, quantity } => self.credit_position(
                account_id,
                instrument,
                quantity,
            ),
        }
    }
}

} // verus!
