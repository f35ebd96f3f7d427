use vstd::prelude::*;

use crate::book::BookSnapshot;
use crate::events::Event;
use crate::types::{AccountId, Cash, EngineCommand, InstrumentId, NewOrder, OrderId, Quantity, ReplaceOrder};

verus! {

/// A request of a gateway client.
#[derive(Debug, Clone, Copy, PartialEq, Eq, Structural)]
pub enum GatewayRequest {
    Submit { order: NewOrder },
    Cancel { order_id: OrderId },
    Replace { replace: ReplaceOrder },
    CreditCash { account_id: AccountId, amount: Cash },
    CreditPosition { account_id: AccountId, instrument: InstrumentId, quantity: Quantity },
    Snapshot { instrument: InstrumentId },
}

/// The gateway's answer to a request.
#[derive(Debug, Clone)]
pub enum GatewayResponse {
    Events { events: Vec<Event> },
    Snapshot { snapshot: BookSnapshot },
    Error { message: String },
}

impl GatewayRequest {
    /// The engine command that a request asks for; a snapshot request asks for none.
    pub open spec fn spec_command(self) -> Option<EngineCommand> {
        match self {
            GatewayRequest::Submit { order } => Some(EngineCommand::Submit(order)),
            GatewayRequest::Cancel { order_id } => Some(EngineCommand::Cancel { order_id }),
            GatewayRequest::Replace { replace } => Some(EngineCommand::Replace(replace)),
            GatewayRequest::CreditCash { account_id, amount } => Some(EngineCommand::CreditCash { account_id, amount }),
            GatewayRequest::CreditPosition { account_id, instrument, quantity } => Some(
                EngineCommand::CreditPosition { account_id, instrument, quantity },
            ),
            GatewayRequest::Snapshot { .. } => None,
        }
    }

    /// The engine command that a request asks for, if it is not a snapshot request.
    #[verifier::when_used_as_spec(spec_command)]
    pub fn command(self) -> (r: Option<EngineCommand>)
        ensures
            r == self.spec_command(),
    {
        match self {
            GatewayRequest::Submit { order } => Some(EngineCommand::Submit(order)),
            GatewayRequest::Cancel { order_id } => Some(EngineCommand::Cancel { order_id }),
            GatewayRequest::Replace { replace } => Some(EngineCommand::Replace(replace)),
            GatewayRequest::CreditCash { account_id, amount } => Some(EngineCommand::CreditCash { account_id, amount }),
            GatewayRequest::CreditPosition { account_id, instrument, quantity } => Some(
                EngineCommand::CreditPosition { account_id, instrument, quantity },
            ),
            GatewayRequest::Snapshot { .. } => None,
        }
    }
}

} // verus!
