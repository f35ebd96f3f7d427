use vstd::prelude::*;

verus! {

/// Identifier of an order, unique among the live orders of an engine.
pub type OrderId = u64;

/// Identifier of a trading account.
pub type AccountId = u64;

/// Identifier of an instrument; each instrument has its own order book.
pub type InstrumentId = u64;

/// A price in ticks.
pub type Price = u64;

/// A quantity in lots.
pub type Quantity = u64;

/// A sequence number stamped on events.
pub type Sequence = u64;

/// An amount of cash.
pub type Cash = u64;

/// The side of an order: a bid buys, an ask sells.
#[derive(Debug, Clone, Copy, PartialEq, Eq, Hash, Structural)]
pub enum Side {
    Bid,
    Ask,
}

impl Side {
    /// The side on which the orders that a taker of this side trades against rest.
    pub open spec fn spec_opposite(self) -> Side {
        match self {
            Side::Bid => Side::Ask,
            Side::Ask => Side::Bid,
        }
    }

    /// The other side of the book.
    #[verifier::when_used_as_spec(spec_opposite)]
    pub fn opposite(self) -> (r: Self)
        ensures
            r == self.spec_opposite(),
    {
        match self {
            Side::Bid => Side::Ask,
            Side::Ask => Side::Bid,
        }
    }
}

/// Whether an order trades only against the book (market) or carries a limit price.
#[derive(Debug, Clone, Copy, PartialEq, Eq, Structural)]
pub enum OrderType {
    Market,
    Limit,
}

/// What happens to the quantity of an order that does not trade at once.
#[derive(Debug, Clone, Copy, PartialEq, Eq, Structural)]
pub enum TimeInForce {
    /// Good till cancelled: a limit order rests in the book.
    Gtc,
    /// Immediate or cancel: what does not trade at once is cancelled.
    Ioc,
}

/// An order as a client submits it.
#[derive(Debug, Clone, Copy, PartialEq, Eq, Structural)]
pub struct NewOrder {
    pub id: OrderId,
    pub account: AccountId,
    pub instrument: InstrumentId,
    pub side: Side,
    pub order_type: OrderType,
    pub price: Option<Price>,
    pub quantity: Quantity,
    pub time_in_force: TimeInForce,
}

impl NewOrder {
    /// A good-till-cancelled limit order of account 0.
    pub fn limit(id: OrderId, instrument: InstrumentId, side: Side, price: Price, quantity: Quantity) -> (r: Self)
        ensures
            r == (NewOrder {
                id,
                account: 0,
                instrument,
                side,
                order_type: OrderType::Limit,
                price: Some(price),
                quantity,
                time_in_force: TimeInForce::Gtc,
            }),
    {
        NewOrder {
            id,
            account: 0,
            instrument,
            side,
            order_type: OrderType::Limit,
            price: Some(price),
            quantity,
            time_in_force: TimeInForce::Gtc,
        }
    }

    /// An immediate-or-cancel market order of account 0.
    pub fn market(id: OrderId, instrument: InstrumentId, side: Side, quantity: Quantity) -> (r: Self)
        ensures
            r == (NewOrder {
                id,
                account: 0,
                instrument,
                side,
                order_type: OrderType::Market,
                price: None,
                quantity,
                time_in_force: TimeInForce::Ioc,
            }),
    {
        NewOrder {
            id,
            account: 0,
            instrument,
            side,
            order_type: OrderType::Market,
            price: None,
            quantity,
            time_in_force: TimeInForce::Ioc,
        }
    }

    /// The same order, placed for `account`.
    pub fn with_account(self, account: AccountId) -> (r: Self)
        ensures
            r == (NewOrder { account, ..self }),
    {
        let mut order = self;
        order.account = account;
        order
    }
}

/// A request to move a resting order to a new price and quantity.
#[derive(Debug, Clone, Copy, PartialEq, Eq, Structural)]
pub struct ReplaceOrder {
    pub order_id: OrderId,
    pub new_price: Price,
    pub new_quantity: Quantity,
}

/// A command to the matching engine.
#[derive(Debug, Clone, Copy, PartialEq, Eq, Structural)]
pub enum EngineCommand {
    Submit(NewOrder),
    Cancel { order_id: OrderId },
    Replace(ReplaceOrder),
    CreditCash { account_id: AccountId, amount: Cash },
    CreditPosition { account_id: AccountId, instrument: InstrumentId, quantity: Quantity },
}

} // verus!
