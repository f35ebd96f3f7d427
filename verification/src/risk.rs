use vstd::prelude::*;

use std::collections::HashMap;

use crate::book::BookSnapshot;
use crate::events::RejectReason;
use crate::types::{AccountId, Cash, InstrumentId, NewOrder, Price, Quantity, Side};

verus! {

broadcast use vstd::std_specs::hash::group_hash_axioms;

/// `a * b`, or the largest `u64` where the product does not fit.
pub open spec fn sat_mul(a: u64, b: u64) -> u64 {
    if a * b > u64::MAX {
        u64::MAX
    } else {
        (a * b) as u64
    }
}

/// `a - b`, or 0 where `b` is larger.
pub open spec fn sat_sub(a: u64, b: u64) -> u64 {
    if a >= b {
        (a - b) as u64
    } else {
        0
    }
}

/// The product of two amounts, saturated at the largest `u64`.
pub fn saturating_mul(a: u64, b: u64) -> (r: u64)
    ensures
        r == sat_mul(a, b),
{
    match a.checked_mul(b) {
        Some(v) => v,
        None => u64::MAX,
    }
}

/// The quantity of an instrument that an account holds: free to sell, or set aside for
/// resting sell orders.
#[derive(Debug, Clone, Copy, PartialEq, Eq, Structural)]
pub struct PositionState {
    pub available: Quantity,
    pub reserved: Quantity,
}

impl Default for PositionState {
    fn default() -> (r: Self)
        ensures
            r == (PositionState { available: 0, reserved: 0 }),
    {
        PositionState { available: 0, reserved: 0 }
    }
}

/// The balances of one account.
#[derive(Debug, Clone, PartialEq, Eq)]
pub struct AccountState {
    pub cash: Cash,
    pub reserved_cash: Cash,
    pub positions: HashMap<InstrumentId, PositionState>,
}

/// The abstract balances of one account.
pub struct AccountView {
    pub cash: Cash,
    pub reserved_cash: Cash,
    pub positions: Map<InstrumentId, PositionState>,
}

impl View for AccountState {
    type V = AccountView;

    open spec fn view(&self) -> AccountView {
        AccountView { cash: self.cash, reserved_cash: self.reserved_cash, positions: self.positions@ }
    }
}

impl Default for AccountState {
    fn default() -> (r: Self)
        ensures
            r@ == AccountView::empty(),
    {
        AccountState { cash: 0, reserved_cash: 0, positions: HashMap::new() }
    }
}

impl AccountView {
    /// An account with nothing in it.
    pub open spec fn empty() -> AccountView {
        AccountView { cash: 0, reserved_cash: 0, positions: Map::empty() }
    }

    /// The position in an instrument, zero where there is none.
    pub open spec fn position(self, instrument: InstrumentId) -> PositionState {
        if self.positions.contains_key(instrument) {
            self.positions[instrument]
        } else {
            PositionState { available: 0, reserved: 0 }
        }
    }

    pub open spec fn with_position(self, instrument: InstrumentId, p: PositionState) -> AccountView {
        AccountView { positions: self.positions.insert(instrument, p), ..self }
    }
}

/// The abstract balances of a map of accounts.
pub open spec fn accounts_view(m: Map<AccountId, AccountState>) -> Map<AccountId, AccountView> {
    m.map_values(|a: AccountState| a@)
}

/// An account of a map, empty where there is none.
pub open spec fn account_of(m: Map<AccountId, AccountView>, id: AccountId) -> AccountView {
    if m.contains_key(id) {
        m[id]
    } else {
        AccountView::empty()
    }
}

/// What an accepted order set aside: cash for a buy, at a limit price, or quantity for a
/// sell. It shrinks as the order trades.
#[derive(Debug, Clone, Copy, PartialEq, Eq, Structural)]
pub enum Reservation {
    BuyCash { limit_price: Price, reserved_cash: Cash },
    SellPosition { reserved_qty: Quantity },
}

/// The reservation of an accepted order and the account that made it.
#[derive(Debug, Clone, Copy, PartialEq, Eq, Structural)]
pub struct ReservedOrder {
    pub account_id: AccountId,
    pub reservation: Reservation,
}

/// The price at which a market buy reserves cash: twice the best ask, else twice the best
/// bid, else 0 (saturated).
pub open spec fn market_buy_price(snapshot: BookSnapshot) -> Price {
    let reference = match snapshot.best_ask {
        Some(ask) => ask.price,
        None => match snapshot.best_bid {
            Some(bid) => bid.price,
            None => 0,
        },
    };
    sat_mul(reference, 2)
}

/// The cash that a buy order reserves per unit.
pub open spec fn buy_limit(order: NewOrder, snapshot: BookSnapshot) -> Price {
    match order.price {
        Some(p) => p,
        None => market_buy_price(snapshot),
    }
}

/// The accounts and result after an order asks for its reservation. A buy sets aside its
/// limit price (or the market estimate) times its quantity in cash, a sell its quantity of
/// the instrument; an account that has too little is refused. The account, and for a sell
/// the position, exist afterwards in any case.
pub open spec fn reserve_outcome(m: Map<AccountId, AccountView>, order: NewOrder, snapshot: BookSnapshot) -> (
    Map<AccountId, AccountView>,
    Result<ReservedOrder, RejectReason>,
) {
    let a = account_of(m, order.account);
    match order.side {
        Side::Bid => {
            let limit = buy_limit(order, snapshot);
            let required = sat_mul(limit, order.quantity);
            if a.cash < required {
                (m.insert(order.account, a), Err(RejectReason::InsufficientCash))
            } else {
                (
                    m.insert(
                        order.account,
                        AccountView {
                            cash: (a.cash - required) as u64,
                            reserved_cash: (a.reserved_cash + required) as u64,
                            ..a
                        },
                    ),
                    Ok(
                        ReservedOrder {
                            account_id: order.account,
                            reservation: Reservation::BuyCash { limit_price: limit, reserved_cash: required },
                        },
                    ),
                )
            }
        },
        Side::Ask => {
            let p = a.position(order.instrument);
            if p.available < order.quantity {
                (m.insert(order.account, a.with_position(order.instrument, p)), Err(RejectReason::InsufficientPosition))
            } else {
                (
                    m.insert(
                        order.account,
                        a.with_position(
                            order.instrument,
                            PositionState {
                                available: (p.available - order.quantity) as u64,
                                reserved: (p.reserved + order.quantity) as u64,
                            },
                        ),
                    ),
                    Ok(
                        ReservedOrder {
                            account_id: order.account,
                            reservation: Reservation::SellPosition { reserved_qty: order.quantity },
                        },
                    ),
                )
            }
        },
    }
}

/// Whether a reservation stays within the counters.
pub open spec fn reserve_fits(m: Map<AccountId, AccountView>, order: NewOrder, snapshot: BookSnapshot) -> bool {
    let a = account_of(m, order.account);
    match order.side {
        Side::Bid => {
            let required = sat_mul(buy_limit(order, snapshot), order.quantity);
            a.cash >= required ==> a.reserved_cash + required <= u64::MAX
        },
        Side::Ask => {
            let p = a.position(order.instrument);
            p.available >= order.quantity ==> p.reserved + order.quantity <= u64::MAX
        },
    }
}

/// The accounts and reservation after what is left of a reservation is given back.
pub open spec fn release_outcome(
    m: Map<AccountId, AccountView>,
    account_id: AccountId,
    instrument: InstrumentId,
    reservation: Reservation,
) -> (Map<AccountId, AccountView>, Reservation) {
    let a = account_of(m, account_id);
    match reservation {
        Reservation::BuyCash { limit_price, reserved_cash } => (
            m.insert(
                account_id,
                AccountView {
                    reserved_cash: sat_sub(a.reserved_cash, reserved_cash),
                    cash: (a.cash + reserved_cash) as u64,
                    ..a
                },
            ),
            Reservation::BuyCash { limit_price, reserved_cash: 0 },
        ),
        Reservation::SellPosition { reserved_qty } => {
            let p = a.position(instrument);
            (
                m.insert(
                    account_id,
                    a.with_position(
                        instrument,
                        PositionState {
                            reserved: sat_sub(p.reserved, reserved_qty),
                            available: (p.available + reserved_qty) as u64,
                        },
                    ),
                ),
                Reservation::SellPosition { reserved_qty: 0 },
            )
        },
    }
}

/// Whether giving back a reservation stays within the counters.
pub open spec fn release_fits(
    m: Map<AccountId, AccountView>,
    account_id: AccountId,
    instrument: InstrumentId,
    reservation: Reservation,
) -> bool {
    let a = account_of(m, account_id);
    match reservation {
        Reservation::BuyCash { reserved_cash, .. } => a.cash + reserved_cash <= u64::MAX,
        Reservation::SellPosition { reserved_qty } => a.position(instrument).available + reserved_qty <= u64::MAX,
    }
}

/// The accounts and reservation after an order of `account_id` trades `quantity` at
/// `price`. A buyer pays the price out of what it reserved at its limit and gets the rest
/// of that back, and receives the quantity; a seller hands over reserved quantity and
/// receives the price. A reservation of the other kind than the side changes nothing but
/// leaves the account in place.
pub open spec fn trade_outcome(
    m: Map<AccountId, AccountView>,
    account_id: AccountId,
    instrument: InstrumentId,
    side: Side,
    price: Price,
    quantity: Quantity,
    reservation: Reservation,
) -> (Map<AccountId, AccountView>, Reservation) {
    let a = account_of(m, account_id);
    let notional = sat_mul(price, quantity);
    match (side, reservation) {
        (Side::Bid, Reservation::BuyCash { limit_price, reserved_cash }) => {
            let for_fill = sat_mul(limit_price, quantity);
            let a1 = AccountView {
                reserved_cash: sat_sub(a.reserved_cash, for_fill),
                cash: (a.cash + sat_sub(for_fill, notional)) as u64,
                ..a
            };
            let p = a1.position(instrument);
            (
                m.insert(
                    account_id,
                    a1.with_position(instrument, PositionState { available: (p.available + quantity) as u64, ..p }),
                ),
                Reservation::BuyCash { limit_price, reserved_cash: sat_sub(reserved_cash, for_fill) },
            )
        },
        (Side::Ask, Reservation::SellPosition { reserved_qty }) => {
            let p = a.position(instrument);
            (
                m.insert(
                    account_id,
                    AccountView {
                        cash: (a.cash + notional) as u64,
                        ..a.with_position(instrument, PositionState { reserved: sat_sub(p.reserved, quantity), ..p })
                    },
                ),
                Reservation::SellPosition { reserved_qty: sat_sub(reserved_qty, quantity) },
            )
        },
        _ => (m.insert(account_id, a), reservation),
    }
}

/// Whether a trade stays within the counters.
pub open spec fn trade_fits(
    m: Map<AccountId, AccountView>,
    account_id: AccountId,
    instrument: InstrumentId,
    side: Side,
    price: Price,
    quantity: Quantity,
    reservation: Reservation,
) -> bool {
    let a = account_of(m, account_id);
    let notional = sat_mul(price, quantity);
    match (side, reservation) {
        (Side::Bid, Reservation::BuyCash { limit_price, .. }) => {
            &&& a.cash + sat_sub(sat_mul(limit_price, quantity), notional) <= u64::MAX
            &&& a.position(instrument).available + quantity <= u64::MAX
        },
        (Side::Ask, Reservation::SellPosition { .. }) => a.cash + notional <= u64::MAX,
        _ => true,
    }
}

/// The price at which a market buy reserves cash, from the top of the book.
pub fn estimate_market_buy_price(snapshot: BookSnapshot, quantity: Quantity) -> (r: Price)
    ensures
        r == market_buy_price(snapshot),
{
    let reference = match snapshot.best_ask {
        Some(ask) => ask.price,
        None => match snapshot.best_bid {
            Some(bid) => bid.price,
            None => 0,
        },
    };
    let _ = quantity;
    saturating_mul(reference, 2)
}

/// The cash and positions of all accounts, with what resting orders have set aside.
#[derive(Debug, Clone, PartialEq, Eq)]
pub struct AccountManager {
    accounts: HashMap<AccountId, AccountState>,
}

impl View for AccountManager {
    type V = Map<AccountId, AccountView>;

    closed spec fn view(&self) -> Map<AccountId, AccountView> {
        accounts_view(self.accounts@)
    }
}

impl AccountManager {
    /// No accounts.
    pub fn new() -> (r: Self)
        ensures
            r@ == Map::<AccountId, AccountView>::empty(),
    {
        let r = AccountManager { accounts: HashMap::new() };
        assert(r@ =~= Map::<AccountId, AccountView>::empty());
        r
    }

    /// Takes the account `id` out of the map, empty if it was not there.
    fn take_account(&mut self, id: AccountId) -> (a: AccountState)
        ensures
            a@ == account_of(old(self)@, id),
            final(self)@ == old(self)@.remove(id),
    {
        let a = match self.accounts.remove(&id) {
            Some(a) => a,
            None => AccountState::default(),
        };
        assert(self@ =~= old(self)@.remove(id));
        a
    }

    /// Puts the account `id` (back) into the map.
    fn put_account(&mut self, id: AccountId, a: AccountState)
        ensures
            final(self)@ == old(self)@.insert(id, a@),
    {
        self.accounts.insert(id, a);
        assert(self@ =~= old(self)@.insert(id, a@));
    }

    /// Adds cash to an account (created empty if new); returns its new cash balance.
    pub fn credit_cash(&mut self, account_id: AccountId, amount: Cash) -> (r: Cash)
        requires
            account_of(old(self)@, account_id).cash + amount <= u64::MAX,
        ensures
            final(self)@ == old(self)@.insert(
                account_id,
                AccountView { cash: r, ..account_of(old(self)@, account_id) },
            ),
            r == account_of(old(self)@, account_id).cash + amount,
    {
        let mut account = self.take_account(account_id);
        account.cash = account.cash + amount;
        let cash = account.cash;
        self.put_account(account_id, account);
        assert(self@ =~= old(self)@.insert(account_id, AccountView { cash, ..account_of(old(self)@, account_id) }));
        cash
    }

    /// Adds quantity of an instrument to an account (created empty if new); returns the new
    /// available quantity.
    pub fn credit_position(&mut self, account_id: AccountId, instrument: InstrumentId, quantity: Quantity) -> (r: Quantity)
        requires
            account_of(old(self)@, account_id).position(instrument).available + quantity <= u64::MAX,
        ensures
            final(self)@ == old(self)@.insert(
                account_id,
                account_of(old(self)@, account_id).with_position(
                    instrument,
                    PositionState { available: r, ..account_of(old(self)@, account_id).position(instrument) },
                ),
            ),
            r == account_of(old(self)@, account_id).position(instrument).available + quantity,
    {
        let mut account = self.take_account(account_id);
        let mut position = match account.positions.get(&instrument) {
            Some(p) => *p,
            None => PositionState::default(),
        };
        position.available = position.available + quantity;
        account.positions.insert(instrument, position);
        let available = position.available;
        self.put_account(account_id, account);
        available
    }

    /// Reserves what an order needs, as `reserve_for_order` does, but stops with `None`
    /// where a balance would overflow.
    pub(crate) fn try_reserve_for_order(&mut self, order: &NewOrder, snapshot: BookSnapshot) -> (r: Option<
        Result<ReservedOrder, RejectReason>,
    >)
        ensures
            r is None <==> !reserve_fits(old(self)@, *order, snapshot),
            r matches Some(res) ==> (final(self)@, res) == reserve_outcome(old(self)@, *order, snapshot),
    {
        let mut account = self.take_account(order.account);
        let ghost a = account_of(old(self)@, order.account);
        match order.side {
            Side::Bid => {
                let limit_price = match order.price {
                    Some(price) => price,
                    None => estimate_market_buy_price(snapshot, order.quantity),
                };
                let required_cash = saturating_mul(limit_price, order.quantity);
                if account.cash < required_cash {
                    self.put_account(order.account, account);
                    return Some(Err(RejectReason::InsufficientCash));
                }
                if account.reserved_cash > u64::MAX - required_cash {
                    return None;
                }
                account.cash = account.cash - required_cash;
                account.reserved_cash = account.reserved_cash + required_cash;
                self.put_account(order.account, account);
                assert(self@ =~= reserve_outcome(old(self)@, *order, snapshot).0);
                Some(Ok(ReservedOrder {
                    account_id: order.account,
                    reservation: Reservation::BuyCash { limit_price, reserved_cash: required_cash },
                }))
            },
            Side::Ask => {
                let mut position = match account.positions.get(&order.instrument) {
                    Some(p) => *p,
                    None => PositionState::default(),
                };
                if position.available < order.quantity {
                    account.positions.insert(order.instrument, position);
                    self.put_account(order.account, account);
                    return Some(Err(RejectReason::InsufficientPosition));
                }
                if position.reserved > u64::MAX - order.quantity {
                    return None;
                }
                position.available = position.available - order.quantity;
                position.reserved = position.reserved + order.quantity;
                account.positions.insert(order.instrument, position);
                self.put_account(order.account, account);
                Some(Ok(ReservedOrder {
                    account_id: order.account,
                    reservation: Reservation::SellPosition { reserved_qty: order.quantity },
                }))
            },
        }
    }

    /// Reserves what an order needs before it enters the book: for a buy, cash at its
    /// limit price (a market buy at twice the best price of the book) times its quantity;
    /// for a sell, its quantity of the instrument. Refused where the account has too
    /// little.
    pub fn reserve_for_order(&mut self, order: &NewOrder, snapshot: BookSnapshot) -> (r: Result<
        ReservedOrder,
        RejectReason,
    >)
        requires
            reserve_fits(old(self)@, *order, snapshot),
        ensures
            (final(self)@, r) == reserve_outcome(old(self)@, *order, snapshot),
    {
        self.try_reserve_for_order(order, snapshot).unwrap()
    }

    /// Gives back what is left of a reservation, as `release_remaining` does, but stops
    /// with `false` where a balance would overflow.
    pub(crate) fn try_release_remaining(
        &mut self,
        account_id: AccountId,
        instrument: InstrumentId,
        reservation: &mut Reservation,
    ) -> (ok: bool)
        ensures
            ok == release_fits(old(self)@, account_id, instrument, *old(reservation)),
            ok ==> (final(self)@, *final(reservation)) == release_outcome(
                old(self)@,
                account_id,
                instrument,
                *old(reservation),
            ),
    {
        let mut account = self.take_account(account_id);
        match reservation {
            Reservation::BuyCash { reserved_cash, .. } => {
                if account.cash > u64::MAX - *reserved_cash {
                    return false;
                }
                account.reserved_cash = if account.reserved_cash >= *reserved_cash {
                    account.reserved_cash - *reserved_cash
                } else {
                    0
                };
                account.cash = account.cash + *reserved_cash;
                *reserved_cash = 0;
            },
            Reservation::SellPosition { reserved_qty } => {
                let mut position = match account.positions.get(&instrument) {
                    Some(p) => *p,
                    None => PositionState::default(),
                };
                if position.available > u64::MAX - *reserved_qty {
                    return false;
                }
                position.reserved = if position.reserved >= *reserved_qty {
                    position.reserved - *reserved_qty
                } else {
                    0
                };
                position.available = position.available + *reserved_qty;
                *reserved_qty = 0;
                account.positions.insert(instrument, position);
            },
        }
        self.put_account(account_id, account);
        proof {
            let target = release_outcome(old(self)@, account_id, instrument, *old(reservation));
            assert(self@ =~= target.0);
        }
        true
    }

    /// Gives back to the account what is left of a reservation, and empties it.
    pub fn release_remaining(&mut self, account_id: AccountId, instrument: InstrumentId, reservation: &mut Reservation)
        requires
            release_fits(old(self)@, account_id, instrument, *old(reservation)),
        ensures
            (final(self)@, *final(reservation)) == release_outcome(old(self)@, account_id, instrument, *old(reservation)),
    {
        let ok = self.try_release_remaining(account_id, instrument, reservation);
        assert(ok);
    }

    /// Settles one trade of an order, as `apply_trade` does, but stops with `false` where
    /// a balance would overflow.
    pub(crate) fn try_apply_trade(
        &mut self,
        account_id: AccountId,
        instrument: InstrumentId,
        side: Side,
        price: Price,
        quantity: Quantity,
        reservation: &mut Reservation,
    ) -> (ok: bool)
        ensures
            ok == trade_fits(old(self)@, account_id, instrument, side, price, quantity, *old(reservation)),
            ok ==> (final(self)@, *final(reservation)) == trade_outcome(
                old(self)@,
                account_id,
                instrument,
                side,
                price,
                quantity,
                *old(reservation),
            ),
    {
        let mut account = self.take_account(account_id);
        let notional = saturating_mul(price, quantity);
        match (side, reservation) {
            (Side::Bid, Reservation::BuyCash { limit_price, reserved_cash }) => {
                let reserved_for_fill = saturating_mul(*limit_price, quantity);
                let refund = if reserved_for_fill >= notional { reserved_for_fill - notional } else { 0 };
                let mut position = match account.positions.get(&instrument) {
                    Some(p) => *p,
                    None => PositionState::default(),
                };
                if account.cash > u64::MAX - refund || position.available > u64::MAX - quantity {
                    return false;
                }
                account.reserved_cash = if account.reserved_cash >= reserved_for_fill {
                    account.reserved_cash - reserved_for_fill
                } else {
                    0
                };
                account.cash = account.cash + refund;
                *reserved_cash = if *reserved_cash >= reserved_for_fill { *reserved_cash - reserved_for_fill } else { 0 };
                position.available = position.available + quantity;
                account.positions.insert(instrument, position);
            },
            (Side::Ask, Reservation::SellPosition { reserved_qty }) => {
                if account.cash > u64::MAX - notional {
                    return false;
                }
                let mut position = match account.positions.get(&instrument) {
                    Some(p) => *p,
                    None => PositionState::default(),
                };
                position.reserved = if position.reserved >= quantity { position.reserved - quantity } else { 0 };
                *reserved_qty = if *reserved_qty >= quantity { *reserved_qty - quantity } else { 0 };
                account.positions.insert(instrument, position);
                account.cash = account.cash + notional;
            },
            _ => {},
        }
        self.put_account(account_id, account);
        proof {
            let target = trade_outcome(old(self)@, account_id, instrument, side, price, quantity, *old(reservation));
            assert(self@ =~= target.0);
        }
        true
    }

    /// Settles one trade of an order of `account_id` on `side`: a buyer receives the
    /// quantity and gets back what it reserved at its limit beyond the price paid; a seller
    /// hands over reserved quantity and receives the price times the quantity. The
    /// reservation shrinks by what was used.
    pub fn apply_trade(
        &mut self,
        account_id: AccountId,
        instrument: InstrumentId,
        side: Side,
        price: Price,
        quantity: Quantity,
        reservation: &mut Reservation,
    )
        requires
            trade_fits(old(self)@, account_id, instrument, side, price, quantity, *old(reservation)),
        ensures
            (final(self)@, *final(reservation)) == trade_outcome(
                old(self)@,
                account_id,
                instrument,
                side,
                price,
                quantity,
                *old(reservation),
            ),
    {
        let ok = self.try_apply_trade(account_id, instrument, side, price, quantity, reservation);
        assert(ok);
    }

    /// Whether `amount` more cash fits the balance of an account.
    pub(crate) fn cash_fits(&self, account_id: AccountId, amount: Cash) -> (r: bool)
        ensures
            r == (account_of(self@, account_id).cash + amount <= u64::MAX),
    {
        match self.accounts.get(&account_id) {
            Some(a) => a.cash <= u64::MAX - amount,
            None => true,
        }
    }

    /// Whether `quantity` more fits the available position of an account.
    pub(crate) fn position_fits(&self, account_id: AccountId, instrument: InstrumentId, quantity: Quantity) -> (r: bool)
        ensures
            r == (account_of(self@, account_id).position(instrument).available + quantity <= u64::MAX),
    {
        match self.accounts.get(&account_id) {
            Some(a) => match a.positions.get(&instrument) {
                Some(p) => p.available <= u64::MAX - quantity,
                None => true,
            },
            None => true,
        }
    }

    /// The accounts.
    pub fn state(&self) -> (r: &HashMap<AccountId, AccountState>)
        ensures
            accounts_view(r@) == self@,
    {
        &self.accounts
    }

    /// A manager holding these accounts.
    pub fn from_state(accounts: HashMap<AccountId, AccountState>) -> (r: Self)
        ensures
            r@ == accounts_view(accounts@),
    {
        AccountManager { accounts }
    }
}

impl Default for AccountManager {
    /// No accounts.
    fn default() -> (r: Self)
        ensures
            r@ == Map::<AccountId, AccountView>::empty(),
    {
        AccountManager::new()
    }
}

} // verus!
