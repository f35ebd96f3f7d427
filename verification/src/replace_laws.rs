use vstd::prelude::*;

use crate::engine_laws::{consistent, holds_book, live_ok, live_view};
use crate::engine_model::EngineModel;
use crate::events::Event;
use crate::types::ReplaceOrder;

verus! {

/// A replace of a live order reports what was left of it: its first event cancels the
/// order with its remaining quantity, and the `Replaced` event that follows the cancel's
/// level and top updates carries that same remaining quantity as the old remaining, the
/// order's old price, and the new price and quantity.
pub proof fn law_replace_reports_what_was_left(e: EngineModel, replace: ReplaceOrder)
    requires
        consistent(e),
        e.live_orders.contains_key(replace.order_id),
        replace.new_quantity != 0,
        e.replace(replace) is Some,
    ensures
        e.replace(replace).unwrap().1.len() >= 4,
        e.replace(replace).unwrap().1[0] matches Event::Cancelled { order_id, cancelled_qty, .. } && order_id
            == replace.order_id && cancelled_qty == e.live_orders[replace.order_id].remaining_qty,
        e.replace(replace).unwrap().1[3] matches Event::Replaced {
            order_id,
            old_price,
            new_price,
            old_remaining,
            new_quantity,
            ..
        } && order_id == replace.order_id && old_remaining == e.live_orders[replace.order_id].remaining_qty
            && old_remaining == e.replace(replace).unwrap().1[0]->Cancelled_cancelled_qty && Some(old_price)
            == e.live_orders[replace.order_id].order.price && new_price == replace.new_price && new_quantity
            == replace.new_quantity,
{
    let id = replace.order_id;
    let l = e.live_orders[id];
    assert(live_ok(e, id));
    let inst = e.order_locations[id];
    assert(e.books.contains_key(inst));
    let book = e.books[inst];
    assert(holds_book(e, inst, book));
    assert(book.orders.contains_key(id));
    assert(book.orders[id] == live_view(l));
    let (e1, cancel_events) = e.cancel(id).unwrap();
    assert(cancel_events == book.cancel_outcome(id).1);
    assert(cancel_events.len() == 3);
    let evs = e.replace(replace).unwrap().1;
    let replaced = cancel_events.push(evs[3]);
    assert(evs[0] == cancel_events[0]);
}


} // verus!
