use vstd::prelude::*;

use crate::book_model::{lemma_level_member, lemma_restore_wf, lemma_sum_agree, lemma_sum_subset, BookModel};
use crate::engine::{EngineState, LiveOrderState};
use crate::risk::accounts_view;
use crate::engine_laws::{consistent, holds_book, live_ok, live_view};
use crate::engine_model::{insert_sorted, live_key_le, sort_live, EngineModel};
use crate::types::{InstrumentId, OrderId, Side};

verus! {

broadcast use vstd::seq_lib::group_to_multiset_ensures;

/// Inserting into a sorted sequence adds the element and keeps the others.
pub proof fn lemma_insert_sorted_mset(t: Seq<LiveOrderState>, x: LiveOrderState)
    ensures
        insert_sorted(t, x).to_multiset() =~= t.to_multiset().insert(x),
    decreases t.len(),
{
    if t.len() == 0 {
        assert(seq![x] =~= t.push(x));
    } else if crate::engine_model::live_key_le(t.last(), x) {
    } else {
        lemma_insert_sorted_mset(t.drop_last(), x);
        assert(t.drop_last().push(t.last()) =~= t);
    }
}

/// Sorting the live orders keeps exactly the same orders.
pub proof fn lemma_sort_live_mset(s: Seq<LiveOrderState>)
    ensures
        sort_live(s).to_multiset() =~= s.to_multiset(),
    decreases s.len(),
{
    if s.len() > 0 {
        lemma_sort_live_mset(s.drop_last());
        lemma_insert_sorted_mset(sort_live(s.drop_last()), s.last());
        assert(s.drop_last().push(s.last()) =~= s);
    }
}

/// The live orders come in instrument order, and in arrival order within an instrument.
pub open spec fn sorted_live(s: Seq<LiveOrderState>) -> bool {
    forall|i: int, j: int| 0 <= i < j < s.len() ==> live_key_le(#[trigger] s[i], #[trigger] s[j])
}

/// Inserting into a sorted sequence keeps it sorted.
pub proof fn lemma_insert_sorted_sorted(t: Seq<LiveOrderState>, x: LiveOrderState)
    requires
        sorted_live(t),
    ensures
        sorted_live(insert_sorted(t, x)),
    decreases t.len(),
{
    if t.len() == 0 {
    } else if live_key_le(t.last(), x) {
        let r = t.push(x);
        assert forall|i: int, j: int| 0 <= i < j < r.len() implies live_key_le(#[trigger] r[i], #[trigger] r[j]) by {
            if j == t.len() && i < t.len() - 1 {
                assert(live_key_le(t[i], t[t.len() - 1]));
            }
        }
    } else {
        let d = t.drop_last();
        assert forall|i: int, j: int| 0 <= i < j < d.len() implies live_key_le(#[trigger] d[i], #[trigger] d[j]) by {
            assert(d[i] == t[i] && d[j] == t[j]);
        }
        lemma_insert_sorted_sorted(d, x);
        lemma_insert_sorted_mset(d, x);
        let inner = insert_sorted(d, x);
        let r = inner.push(t.last());
        assert forall|i: int, j: int| 0 <= i < j < r.len() implies live_key_le(#[trigger] r[i], #[trigger] r[j]) by {
            if j == inner.len() {
                let y = inner[i];
                assert(inner.contains(y));
                assert(inner.to_multiset().count(y) > 0);
                if y != x {
                    assert(d.to_multiset().count(y) > 0);
                    assert(d.contains(y));
                    let k = choose|k: int| 0 <= k < d.len() && d[k] == y;
                    assert(t[k] == y);
                    assert(live_key_le(t[k], t[t.len() - 1]));
                }
            }
        }
    }
}

/// Sorting the live orders sorts them.
pub proof fn lemma_sort_live_sorted(s: Seq<LiveOrderState>)
    ensures
        sorted_live(sort_live(s)),
    decreases s.len(),
{
    if s.len() > 0 {
        lemma_sort_live_sorted(s.drop_last());
        lemma_insert_sorted_sorted(sort_live(s.drop_last()), s.last());
    }
}

/// Engine `g` holds exactly the live orders of `e` whose ids are in `done`: the same live
/// records and locations, the same accounts and sequence, and books that are well-formed
/// and hold those orders as `e`'s books do.
pub open spec fn restored_upto(e: EngineModel, g: EngineModel, done: Set<OrderId>) -> bool {
    &&& forall|id: OrderId| #[trigger] g.live_orders.contains_key(id) <==> done.contains(id)
    &&& forall|id: OrderId| #[trigger] done.contains(id) ==> e.live_orders.contains_key(id) && g.live_orders[id]
        == e.live_orders[id] && g.order_locations.contains_key(id) && g.order_locations[id]
        == e.order_locations[id]
    &&& forall|id: OrderId| #[trigger] g.order_locations.contains_key(id) ==> done.contains(id)
    &&& g.accounts == e.accounts
    &&& g.next_global_sequence == e.next_global_sequence
    &&& forall|inst: InstrumentId| #[trigger] g.books.contains_key(inst) ==> g.books[inst].wf()
        && g.books[inst].instrument == inst
    &&& forall|inst: InstrumentId, id: OrderId| #[trigger] g.book_or_empty(inst).orders.contains_key(id) <==> done.contains(
        id,
    ) && e.live_orders[id].order.instrument == inst
    &&& forall|inst: InstrumentId, id: OrderId| #[trigger] g.book_or_empty(inst).orders.contains_key(id) ==> g.book_or_empty(
        inst,
    ).orders[id] == live_view(e.live_orders[id])
}

/// The level of the book being rebuilt where the next order goes has room for it: it holds
/// only orders that the full level also holds.
proof fn lemma_restore_has_room(e: EngineModel, g: EngineModel, done: Set<OrderId>, l: LiveOrderState)
    requires
        consistent(e),
        restored_upto(e, g, done),
        e.live_orders.contains_key(l.order.id),
        e.live_orders[l.order.id] == l,
        !done.contains(l.order.id),
    ensures
        g.book_or_empty(l.order.instrument).wf(),
        g.book_or_empty(l.order.instrument).instrument == l.order.instrument,
        g.book_or_empty(l.order.instrument).can_rest(l.order.side, l.order.price.unwrap(), l.remaining_qty),
        !g.book_or_empty(l.order.instrument).orders.contains_key(l.order.id),
{
    let id = l.order.id;
    let inst = l.order.instrument;
    let side = l.order.side;
    let price = l.order.price.unwrap();
    let pb = g.book_or_empty(inst);
    if !g.books.contains_key(inst) {
        crate::engine_laws::lemma_empty_book_wf(inst);
    }
    assert(live_ok(e, id));
    assert(e.books.contains_key(inst));
    let fb = e.books[inst];
    assert(holds_book(e, inst, fb));
    assert(fb.wf());
    assert(fb.orders.contains_key(id));
    assert(fb.orders[id] == live_view(l));
    assert(fb.levels(side).contains_key(price));
    let q2 = fb.levels(side)[price];
    assert(q2.contains(id));
    assert(fb.side_wf(side));
    assert(fb.level_wf(side, price));
    assert(q2.no_duplicates());
    let q1 = if pb.levels(side).contains_key(price) { pb.levels(side)[price] } else { Seq::<OrderId>::empty() };
    if pb.levels(side).contains_key(price) {
        assert(pb.side_wf(side));
        assert(pb.level_wf(side, price));
    }
    assert(q1.no_duplicates());
    assert(!q1.contains(id)) by {
        if q1.contains(id) {
            lemma_level_member(pb, side, price, id);
        }
    }
    let q3 = q1.push(id);
    assert forall|x: OrderId| #[trigger] q3.contains(x) implies q2.contains(x) by {
        if x != id {
            let j = choose|j: int| 0 <= j < q3.len() && q3[j] == x;
            assert(q1[j] == x);
            assert(q1.contains(x));
            lemma_level_member(pb, side, price, x);
            assert(e.live_orders[x].order.instrument == inst);
            assert(pb.orders[x] == live_view(e.live_orders[x]));
            assert(fb.orders.contains_key(x));
            assert(fb.orders[x] == live_view(e.live_orders[x]));
        }
    }
    assert(q3.no_duplicates()) by {
        assert forall|a: int, b: int| 0 <= a < q3.len() && 0 <= b < q3.len() && a != b implies q3[a] != q3[b] by {
            if a < q1.len() && b < q1.len() {
            } else if a < q1.len() {
                assert(q1.contains(q1[a]));
            } else if b < q1.len() {
                assert(q1.contains(q1[b]));
            }
        }
    }
    lemma_sum_subset(fb.orders, q3, q2);
    assert(q3.drop_last() =~= q1);
    assert forall|i: int| 0 <= i < q1.len() implies (#[trigger] pb.orders[q1[i]]).remaining_qty == fb.orders[q1[i]].remaining_qty by {
        assert(q1.contains(q1[i]));
        lemma_level_member(pb, side, price, q1[i]);
        assert(fb.orders[q1[i]] == live_view(e.live_orders[q1[i]]));
    }
    lemma_sum_agree(pb.orders, fb.orders, q1);
    assert(crate::book_model::sum_remaining(fb.orders, q3) == crate::book_model::sum_remaining(fb.orders, q1)
        + l.remaining_qty);
}

/// Putting back the next live order of `e` extends what is rebuilt by that order.
#[verifier::rlimit(40)]
proof fn lemma_restore_step(e: EngineModel, g: EngineModel, done: Set<OrderId>, l: LiveOrderState)
    requires
        consistent(e),
        restored_upto(e, g, done),
        e.live_orders.contains_key(l.order.id),
        e.live_orders[l.order.id] == l,
        !done.contains(l.order.id),
    ensures
        g.restore_live(l) matches Some(g2) && restored_upto(e, g2, done.insert(l.order.id)),
{
    let id = l.order.id;
    let inst = l.order.instrument;
    lemma_restore_has_room(e, g, done, l);
    assert(live_ok(e, id));
    let pb = g.book_or_empty(inst);
    lemma_restore_wf(pb, l.order, l.remaining_qty, l.arrival_sequence);
    let nb = pb.restore(l.order, l.remaining_qty, l.arrival_sequence);
    assert(pb.resting_of(l.order, l.remaining_qty, l.arrival_sequence) == live_view(l));
    let g2 = g.restore_live(l).unwrap();
    let d2 = done.insert(id);
    assert(g2.books == g.books.insert(inst, nb));
    assert forall|i: InstrumentId, x: OrderId| #[trigger] g2.book_or_empty(i).orders.contains_key(x) <==> d2.contains(x)
        && e.live_orders[x].order.instrument == i by {
        if i != inst {
            assert(g2.book_or_empty(i) == g.book_or_empty(i));
        }
    }
    assert forall|i: InstrumentId, x: OrderId| #[trigger] g2.book_or_empty(i).orders.contains_key(x) implies g2.book_or_empty(
        i,
    ).orders[x] == live_view(e.live_orders[x]) by {
        if i != inst {
            assert(g2.book_or_empty(i) == g.book_or_empty(i));
        }
    }
    assert forall|x: OrderId| #[trigger] d2.contains(x) implies e.live_orders.contains_key(x) && g2.live_orders[x]
        == e.live_orders[x] && g2.order_locations.contains_key(x) && g2.order_locations[x] == e.order_locations[x] by {
        if x != id {
            assert(done.contains(x));
        }
    }
}

/// Putting back the rest of the live orders of `e`, one after another, rebuilds all of
/// them.
pub proof fn lemma_restore_all(e: EngineModel, g: EngineModel, done: Set<OrderId>, lives: Seq<LiveOrderState>)
    requires
        consistent(e),
        restored_upto(e, g, done),
        lives.no_duplicates(),
        forall|j: int| 0 <= j < lives.len() ==> e.live_orders.contains_key((#[trigger] lives[j]).order.id)
            && e.live_orders[lives[j].order.id] == lives[j] && !done.contains(lives[j].order.id),
        forall|id: OrderId| #[trigger] e.live_orders.contains_key(id) ==> done.contains(id) || exists|j: int|
            0 <= j < lives.len() && (#[trigger] lives[j]).order.id == id,
    ensures
        g.restore_all(lives) matches Some(r) && restored_upto(e, r, e.live_orders.dom()),
    decreases lives.len(),
{
    if lives.len() == 0 {
        assert(done =~= e.live_orders.dom()) by {
            assert forall|id: OrderId| #[trigger] e.live_orders.dom().contains(id) implies done.contains(id) by {
                assert(e.live_orders.contains_key(id));
            }
            assert forall|id: OrderId| #[trigger] done.contains(id) implies e.live_orders.dom().contains(id) by {}
        }
    } else {
        let l = lives[0];
        lemma_restore_step(e, g, done, l);
        let g2 = g.restore_live(l).unwrap();
        let rest = lives.subrange(1, lives.len() as int);
        let d2 = done.insert(l.order.id);
        assert forall|j: int| 0 <= j < rest.len() implies e.live_orders.contains_key((#[trigger] rest[j]).order.id)
            && e.live_orders[rest[j].order.id] == rest[j] && !d2.contains(rest[j].order.id) by {
            assert(rest[j] == lives[j + 1]);
            if rest[j].order.id == l.order.id {
                assert(lives[j + 1] == lives[0]);
            }
        }
        assert forall|id: OrderId| #[trigger] e.live_orders.contains_key(id) implies d2.contains(id) || exists|j: int|
            0 <= j < rest.len() && (#[trigger] rest[j]).order.id == id by {
            if !d2.contains(id) {
                let j = choose|j: int| 0 <= j < lives.len() && (#[trigger] lives[j]).order.id == id;
                assert(j != 0);
                assert(rest[j - 1] == lives[j]);
            }
        }
        assert(rest.no_duplicates()) by {
            assert forall|a: int, b: int| 0 <= a < rest.len() && 0 <= b < rest.len() && a != b implies rest[a]
                != rest[b] by {
                assert(rest[a] == lives[a + 1]);
                assert(rest[b] == lives[b + 1]);
            }
        }
        lemma_restore_all(e, g2, d2, rest);
    }
}

/// The live orders of `e` listed by `ids`, in the order in which a snapshot records them.
pub open spec fn snapshot_lives(e: EngineModel, ids: Seq<OrderId>) -> Seq<LiveOrderState> {
    sort_live(ids.map_values(|id: OrderId| e.live_orders[id]))
}

/// Two engines have the same live orders, order locations, accounts and sequence, and
/// their books belong to the same instruments and hold the same resting orders.
pub open spec fn same_state(r: EngineModel, e: EngineModel) -> bool {
    &&& r.live_orders == e.live_orders
    &&& r.order_locations == e.order_locations
    &&& r.accounts == e.accounts
    &&& r.next_global_sequence == e.next_global_sequence
    &&& forall|inst: InstrumentId| #[trigger] r.book_or_empty(inst).orders == e.book_or_empty(inst).orders
    &&& forall|inst: InstrumentId| #[trigger] r.book_or_empty(inst).instrument == e.book_or_empty(inst).instrument
}

/// The live orders that recovery puts back, in the order it puts them back: each live order
/// of `e` once.
pub(crate) proof fn lemma_recovery_list(e: EngineModel, ids: Seq<OrderId>)
    requires
        consistent(e),
        ids.no_duplicates(),
        ids.to_set() == e.live_orders.dom(),
    ensures
        sort_live(snapshot_lives(e, ids)).no_duplicates(),
        sorted_live(sort_live(snapshot_lives(e, ids))),
        forall|j: int| 0 <= j < sort_live(snapshot_lives(e, ids)).len() ==> e.live_orders.contains_key(
            (#[trigger] sort_live(snapshot_lives(e, ids))[j]).order.id,
        ) && e.live_orders[sort_live(snapshot_lives(e, ids))[j].order.id] == sort_live(snapshot_lives(e, ids))[j]
            && !Set::<OrderId>::empty().contains(sort_live(snapshot_lives(e, ids))[j].order.id),
        forall|id: OrderId| #[trigger] e.live_orders.contains_key(id) ==> Set::<OrderId>::empty().contains(id)
            || exists|j: int| 0 <= j < sort_live(snapshot_lives(e, ids)).len() && (#[trigger] sort_live(
                snapshot_lives(e, ids),
            )[j]).order.id == id,
{
    let f = |id: OrderId| e.live_orders[id];
    let raw = ids.map_values(f);
    let sorted = snapshot_lives(e, ids);
    let lives = sort_live(sorted);
    lemma_sort_live_mset(raw);
    lemma_sort_live_mset(sorted);
    // The raw list holds each live order once.
    assert forall|j: int| 0 <= j < raw.len() implies e.live_orders.contains_key((#[trigger] raw[j]).order.id)
        && e.live_orders[raw[j].order.id] == raw[j] by {
        assert(ids.to_set().contains(ids[j]));
        assert(live_ok(e, ids[j]));
    }
    assert(raw.no_duplicates()) by {
        assert forall|a: int, b: int| 0 <= a < raw.len() && 0 <= b < raw.len() && a != b implies raw[a] != raw[b] by {
            assert(ids.to_set().contains(ids[a]));
            assert(ids.to_set().contains(ids[b]));
            assert(live_ok(e, ids[a]));
            assert(live_ok(e, ids[b]));
        }
    }
    raw.lemma_multiset_has_no_duplicates();
    lives.lemma_multiset_has_no_duplicates_conv();
    assert forall|j: int| 0 <= j < lives.len() implies e.live_orders.contains_key((#[trigger] lives[j]).order.id)
        && e.live_orders[lives[j].order.id] == lives[j] && !Set::<OrderId>::empty().contains(lives[j].order.id) by {
        assert(lives.contains(lives[j]));
        assert(lives.to_multiset().count(lives[j]) > 0);
        assert(raw.contains(lives[j]));
    }
    assert forall|id: OrderId| #[trigger] e.live_orders.contains_key(id) implies Set::<OrderId>::empty().contains(id)
        || exists|j: int| 0 <= j < lives.len() && (#[trigger] lives[j]).order.id == id by {
        assert(e.live_orders.dom().contains(id));
        assert(ids.to_set().contains(id));
        let k = choose|k: int| 0 <= k < ids.len() && ids[k] == id;
        assert(raw[k] == e.live_orders[id]);
        assert(raw.contains(raw[k]));
        assert(lives.to_multiset().count(raw[k]) > 0);
        assert(lives.contains(raw[k]));
        let j = choose|j: int| 0 <= j < lives.len() && lives[j] == raw[k];
        assert(live_ok(e, id));
        assert(lives[j].order.id == id);
    }
    lemma_sort_live_sorted(sorted);
}

/// Recovery from a snapshot gives the engine back: rebuilding from the live orders, the
/// accounts and the sequence that a snapshot of a consistent engine records succeeds, and
/// the rebuilt engine has the same live orders, order locations, accounts and sequence,
/// and every book holds the same resting orders as before.
pub proof fn law_recovery_restores_engine(e: EngineModel, ids: Seq<OrderId>)
    requires
        consistent(e),
        ids.no_duplicates(),
        ids.to_set() == e.live_orders.dom(),
    ensures
        EngineModel::recovered(snapshot_lives(e, ids), e.accounts, e.next_global_sequence) is Some,
        same_state(EngineModel::recovered(snapshot_lives(e, ids), e.accounts, e.next_global_sequence).unwrap(), e),
{
    lemma_recovery_list(e, ids);
    let lives = sort_live(snapshot_lives(e, ids));
    let g0 = EngineModel::bare(e.accounts, e.next_global_sequence);
    assert(restored_upto(e, g0, Set::<OrderId>::empty())) by {
        assert forall|inst: InstrumentId, id: OrderId| #[trigger] g0.book_or_empty(inst).orders.contains_key(id) <==> Set::<
            OrderId,
        >::empty().contains(id) && e.live_orders[id].order.instrument == inst by {}
    }
    lemma_restore_all(e, g0, Set::<OrderId>::empty(), lives);
    let r = g0.restore_all(lives).unwrap();
    assert(r.live_orders =~= e.live_orders) by {
        assert forall|id: OrderId| #[trigger] r.live_orders.contains_key(id) <==> e.live_orders.contains_key(id) by {
            assert(r.live_orders.contains_key(id) <==> e.live_orders.dom().contains(id));
        }
        assert forall|id: OrderId| #[trigger] r.live_orders.contains_key(id) implies r.live_orders[id] == e.live_orders[id] by {
            assert(e.live_orders.dom().contains(id));
        }
    }
    assert(r.order_locations =~= e.order_locations) by {
        assert forall|id: OrderId| #[trigger] r.order_locations.contains_key(id) <==> e.order_locations.contains_key(id) by {
            if e.order_locations.contains_key(id) {
                assert(e.live_orders.contains_key(id));
                assert(e.live_orders.dom().contains(id));
            }
            if r.order_locations.contains_key(id) {
                assert(e.live_orders.dom().contains(id));
                assert(live_ok(e, id));
            }
        }
        assert forall|id: OrderId| #[trigger] r.order_locations.contains_key(id) implies r.order_locations[id]
            == e.order_locations[id] by {
            assert(e.live_orders.dom().contains(id));
        }
    }
    assert forall|inst: InstrumentId| #[trigger] r.book_or_empty(inst).orders == e.book_or_empty(inst).orders by {
        crate::engine_laws::lemma_empty_book_wf(inst);
        let rb = r.book_or_empty(inst);
        let eb = e.book_or_empty(inst);
        if e.books.contains_key(inst) {
            assert(holds_book(e, inst, e.books[inst]));
        }
        assert forall|id: OrderId| #[trigger] rb.orders.contains_key(id) <==> eb.orders.contains_key(id) by {
            assert(rb.orders.contains_key(id) <==> e.live_orders.dom().contains(id) && e.live_orders[id].order.instrument
                == inst);
            if e.live_orders.contains_key(id) && e.live_orders[id].order.instrument == inst {
                assert(live_ok(e, id));
                assert(e.books.contains_key(inst));
            }
        }
        assert forall|id: OrderId| #[trigger] rb.orders.contains_key(id) implies rb.orders[id] == eb.orders[id] by {
            assert(e.live_orders.dom().contains(id));
            assert(live_ok(e, id));
            assert(e.books.contains_key(inst));
        }
        assert(rb.orders =~= eb.orders);
    }
    assert forall|inst: InstrumentId| #[trigger] r.book_or_empty(inst).instrument == e.book_or_empty(inst).instrument by {
        if r.books.contains_key(inst) {
            assert(r.books[inst].instrument == inst);
        }
        if e.books.contains_key(inst) {
            assert(e.books[inst].instrument == inst);
        }
    }
}

/// Putting back live orders in instrument and arrival order keeps every rebuilt book in
/// arrival order.
pub proof fn lemma_restore_all_ordered(e: EngineModel, g: EngineModel, done: Set<OrderId>, lives: Seq<LiveOrderState>)
    requires
        consistent(e),
        crate::engine_laws::books_in_arrival_order(e),
        restored_upto(e, g, done),
        crate::engine_laws::books_in_arrival_order(g),
        sorted_live(lives),
        lives.no_duplicates(),
        forall|j: int| 0 <= j < lives.len() ==> e.live_orders.contains_key((#[trigger] lives[j]).order.id)
            && e.live_orders[lives[j].order.id] == lives[j] && !done.contains(lives[j].order.id),
        forall|j: int, id: OrderId|
            0 <= j < lives.len() && #[trigger] g.book_or_empty((#[trigger] lives[j]).order.instrument).orders.contains_key(
                id,
            ) ==> g.book_or_empty(lives[j].order.instrument).orders[id].arrival_sequence < lives[j].arrival_sequence,
    ensures
        g.restore_all(lives) matches Some(r) ==> crate::engine_laws::books_in_arrival_order(r),
    decreases lives.len(),
{
    if lives.len() > 0 {
        let l = lives[0];
        let id = l.order.id;
        let inst = l.order.instrument;
        lemma_restore_step(e, g, done, l);
        lemma_restore_has_room(e, g, done, l);
        let g2 = g.restore_live(l).unwrap();
        let pb = g.book_or_empty(inst);
        let nb = pb.restore(l.order, l.remaining_qty, l.arrival_sequence);
        assert(live_ok(e, id));
        if !g.books.contains_key(inst) {
            assert(crate::arrival_order::arrival_ordered(pb)) by {
                assert(pb.orders.dom() =~= Set::<OrderId>::empty());
            }
        }
        let res = pb.resting_of(l.order, l.remaining_qty, l.arrival_sequence);
        let next = if pb.next_sequence <= l.arrival_sequence { (l.arrival_sequence + 1) as u64 } else { pb.next_sequence };
        assert forall|x: OrderId| #[trigger] pb.orders.contains_key(x) implies pb.orders[x].arrival_sequence
            < res.arrival_sequence by {
            assert(lives[0] == l);
        }
        crate::arrival_order::lemma_add_resting_ordered(pb, res, next);
        assert(nb == BookModel { next_sequence: next, ..pb.add_resting(res) });
        assert(g2.books == g.books.insert(inst, nb));
        assert forall|i: InstrumentId| #[trigger] g2.books.contains_key(i) implies crate::arrival_order::arrival_ordered(
            g2.books[i],
        ) by {
            if i != inst {
                assert(g.books.contains_key(i));
            }
        }
        let rest = lives.subrange(1, lives.len() as int);
        let d2 = done.insert(id);
        assert forall|j: int| 0 <= j < rest.len() implies e.live_orders.contains_key((#[trigger] rest[j]).order.id)
            && e.live_orders[rest[j].order.id] == rest[j] && !d2.contains(rest[j].order.id) by {
            assert(rest[j] == lives[j + 1]);
            if rest[j].order.id == id {
                assert(lives[j + 1] == lives[0]);
            }
        }
        assert(rest.no_duplicates()) by {
            assert forall|a: int, b: int| 0 <= a < rest.len() && 0 <= b < rest.len() && a != b implies rest[a]
                != rest[b] by {
                assert(rest[a] == lives[a + 1]);
                assert(rest[b] == lives[b + 1]);
            }
        }
        assert forall|i: int, j: int| 0 <= i < j < rest.len() implies live_key_le(#[trigger] rest[i], #[trigger] rest[j]) by {
            assert(rest[i] == lives[i + 1] && rest[j] == lives[j + 1]);
        }
        assert forall|j: int, x: OrderId|
            0 <= j < rest.len() && #[trigger] g2.book_or_empty((#[trigger] rest[j]).order.instrument).orders.contains_key(
                x,
            ) implies g2.book_or_empty(rest[j].order.instrument).orders[x].arrival_sequence < rest[j].arrival_sequence by {
            let y = rest[j];
            assert(y == lives[j + 1]);
            assert(live_key_le(lives[0], lives[j + 1]));
            if y.order.instrument == inst {
                if x == id {
                    // Two live orders of one book arrived at different sequence numbers.
                    assert(y.order.id != id) by {
                        if y.order.id == id {
                            assert(lives[j + 1] == lives[0]);
                        }
                    }
                    assert(live_ok(e, y.order.id));
                    let eb = e.books[inst];
                    assert(holds_book(e, inst, eb));
                    assert(eb.orders.contains_key(id) && eb.orders.contains_key(y.order.id));
                    assert(crate::arrival_order::arrival_ordered(eb));
                    assert(eb.orders[id].arrival_sequence != eb.orders[y.order.id].arrival_sequence);
                } else {
                    assert(pb.orders.contains_key(x));
                }
            } else {
                assert(g2.book_or_empty(y.order.instrument) == g.book_or_empty(y.order.instrument));
            }
        }
        lemma_restore_all_ordered(e, g2, d2, rest);
    }
}

/// Recovery from a snapshot keeps price-time priority: rebuilding a consistent engine whose
/// books are in arrival order gives back, besides its live orders, accounts and sequence,
/// every level of every book with its orders in the same queue order.
pub proof fn law_recovery_restores_price_time_priority(e: EngineModel, ids: Seq<OrderId>)
    requires
        consistent(e),
        crate::engine_laws::books_in_arrival_order(e),
        ids.no_duplicates(),
        ids.to_set() == e.live_orders.dom(),
    ensures
        EngineModel::recovered(snapshot_lives(e, ids), e.accounts, e.next_global_sequence) is Some,
        same_state(EngineModel::recovered(snapshot_lives(e, ids), e.accounts, e.next_global_sequence).unwrap(), e),
        forall|inst: InstrumentId| #[trigger] EngineModel::recovered(
            snapshot_lives(e, ids),
            e.accounts,
            e.next_global_sequence,
        ).unwrap().book_or_empty(inst).bids == e.book_or_empty(inst).bids && EngineModel::recovered(
            snapshot_lives(e, ids),
            e.accounts,
            e.next_global_sequence,
        ).unwrap().book_or_empty(inst).asks == e.book_or_empty(inst).asks,
        forall|inst: InstrumentId| #[trigger] EngineModel::recovered(
            snapshot_lives(e, ids),
            e.accounts,
            e.next_global_sequence,
        ).unwrap().snapshot(inst) == e.snapshot(inst),
{
    law_recovery_restores_engine(e, ids);
    lemma_recovery_list(e, ids);
    let lives = sort_live(snapshot_lives(e, ids));
    let g0 = EngineModel::bare(e.accounts, e.next_global_sequence);
    assert(restored_upto(e, g0, Set::<OrderId>::empty())) by {
        assert forall|inst: InstrumentId, id: OrderId| #[trigger] g0.book_or_empty(inst).orders.contains_key(id) <==> Set::<
            OrderId,
        >::empty().contains(id) && e.live_orders[id].order.instrument == inst by {}
    }
    lemma_restore_all(e, g0, Set::<OrderId>::empty(), lives);
    lemma_restore_all_ordered(e, g0, Set::<OrderId>::empty(), lives);
    let r = g0.restore_all(lives).unwrap();
    assert(r == EngineModel::recovered(snapshot_lives(e, ids), e.accounts, e.next_global_sequence).unwrap());
    assert forall|inst: InstrumentId| #[trigger] r.book_or_empty(inst).bids == e.book_or_empty(inst).bids
        && r.book_or_empty(inst).asks == e.book_or_empty(inst).asks by {
        crate::engine_laws::lemma_empty_book_wf(inst);
        let rb = r.book_or_empty(inst);
        let eb = e.book_or_empty(inst);
        if !r.books.contains_key(inst) {
            assert(crate::arrival_order::arrival_ordered(rb)) by {
                assert(rb.orders.dom() =~= Set::<OrderId>::empty());
            }
        }
        if !e.books.contains_key(inst) {
            assert(crate::arrival_order::arrival_ordered(eb)) by {
                assert(eb.orders.dom() =~= Set::<OrderId>::empty());
            }
        }
        assert(rb.orders == eb.orders);
        crate::arrival_order::lemma_same_levels(rb, eb);
    }
    assert forall|inst: InstrumentId| #[trigger] r.snapshot(inst) == e.snapshot(inst) by {
        let rb = r.book_or_empty(inst);
        let eb = e.book_or_empty(inst);
        assert(rb.bids == eb.bids && rb.asks == eb.asks && rb.orders == eb.orders);
        assert(rb.levels(Side::Bid) == eb.levels(Side::Bid));
        assert(rb.levels(Side::Ask) == eb.levels(Side::Ask));
        assert(rb.snapshot() == eb.snapshot());
    }
}

/// `st` is what `MatchingEngine::export_state` gives for an engine whose view is `e`: its
/// sequence, its accounts, and its live orders listed once each in some order and then
/// sorted.
pub open spec fn exports(e: EngineModel, st: EngineState) -> bool {
    &&& st.next_global_sequence == e.next_global_sequence
    &&& accounts_view(st.accounts@) == e.accounts
    &&& exists|ids: Seq<OrderId>|
        {
            &&& ids.no_duplicates()
            &&& ids.to_set() == e.live_orders.dom()
            &&& st.live_orders@ == sort_live(ids.map_values(|id: OrderId| e.live_orders[id]))
        }
}

/// Rebuilding an engine from what it exports gives it back: rebuilding succeeds, with the
/// same live orders, order locations, accounts and sequence, and every book with the same
/// orders, the same levels in the same queue order, and the same top of the book.
pub proof fn law_export_then_rebuild(e: EngineModel, st: EngineState)
    requires
        consistent(e),
        crate::engine_laws::books_in_arrival_order(e),
        exports(e, st),
    ensures
        EngineModel::recovered(st.live_orders@, accounts_view(st.accounts@), st.next_global_sequence) is Some,
        same_state(
            EngineModel::recovered(st.live_orders@, accounts_view(st.accounts@), st.next_global_sequence).unwrap(),
            e,
        ),
        forall|inst: InstrumentId| #[trigger] EngineModel::recovered(
            st.live_orders@,
            accounts_view(st.accounts@),
            st.next_global_sequence,
        ).unwrap().book_or_empty(inst).bids == e.book_or_empty(inst).bids && EngineModel::recovered(
            st.live_orders@,
            accounts_view(st.accounts@),
            st.next_global_sequence,
        ).unwrap().book_or_empty(inst).asks == e.book_or_empty(inst).asks,
        forall|inst: InstrumentId| #[trigger] EngineModel::recovered(
            st.live_orders@,
            accounts_view(st.accounts@),
            st.next_global_sequence,
        ).unwrap().snapshot(inst) == e.snapshot(inst),
{
    let ids = choose|ids: Seq<OrderId>|
        {
            &&& ids.no_duplicates()
            &&& ids.to_set() == e.live_orders.dom()
            &&& st.live_orders@ == sort_live(ids.map_values(|id: OrderId| e.live_orders[id]))
        };
    assert(st.live_orders@ == snapshot_lives(e, ids));
    law_recovery_restores_price_time_priority(e, ids);
}

/// Two sorted lists of the same live orders, no two of them with the same instrument and
/// arrival, are the same list.
pub proof fn lemma_sorted_live_unique(a: Seq<LiveOrderState>, b: Seq<LiveOrderState>)
    requires
        a.to_multiset() == b.to_multiset(),
        a.no_duplicates(),
        sorted_live(a),
        sorted_live(b),
        forall|x: LiveOrderState, y: LiveOrderState|
            #[trigger] a.contains(x) && #[trigger] a.contains(y) && x != y ==> !(live_key_le(x, y) && live_key_le(y, x)),
    ensures
        a == b,
    decreases a.len(),
{
    assert(a.len() == b.len()) by {
        assert(a.len() == a.to_multiset().len());
        assert(b.len() == b.to_multiset().len());
    }
    if a.len() > 0 {
        assert(a.to_multiset().count(b[0]) > 0) by {
            assert(b.contains(b[0]));
        }
        assert(b.to_multiset().count(a[0]) > 0) by {
            assert(a.contains(a[0]));
        }
        assert(a.contains(b[0]));
        assert(b.contains(a[0]));
        let i = choose|i: int| 0 <= i < a.len() && a[i] == b[0];
        let j = choose|j: int| 0 <= j < b.len() && b[j] == a[0];
        if i > 0 {
            assert(live_key_le(a[0], a[i]));
        }
        if j > 0 {
            assert(live_key_le(b[0], b[j]));
        }
        assert(live_key_le(a[0], b[0]) && live_key_le(b[0], a[0]));
        assert(a.contains(a[0]));
        assert(a[0] == b[0]);
        let ra = a.remove(0);
        let rb = b.remove(0);
        assert(ra.to_multiset() == a.to_multiset().remove(a[0]));
        assert(rb.to_multiset() == b.to_multiset().remove(b[0]));
        a.remove_ensures(0);
        b.remove_ensures(0);
        assert(ra.no_duplicates()) by {
            crate::book_model::lemma_remove_distinct_live(a, 0);
        }
        assert forall|x: int, y: int| 0 <= x < y < ra.len() implies live_key_le(#[trigger] ra[x], #[trigger] ra[y]) by {
            assert(ra[x] == a[x + 1] && ra[y] == a[y + 1]);
        }
        assert forall|x: int, y: int| 0 <= x < y < rb.len() implies live_key_le(#[trigger] rb[x], #[trigger] rb[y]) by {
            assert(rb[x] == b[x + 1] && rb[y] == b[y + 1]);
        }
        assert forall|x: LiveOrderState, y: LiveOrderState|
            #[trigger] ra.contains(x) && #[trigger] ra.contains(y) && x != y implies !(live_key_le(x, y) && live_key_le(
            y,
            x,
        )) by {
            let k1 = choose|k: int| 0 <= k < ra.len() && ra[k] == x;
            let k2 = choose|k: int| 0 <= k < ra.len() && ra[k] == y;
            assert(a[k1 + 1] == x && a[k2 + 1] == y);
            assert(a.contains(x) && a.contains(y));
        }
        lemma_sorted_live_unique(ra, rb);
        assert(a =~= seq![a[0]] + ra);
        assert(b =~= seq![b[0]] + rb);
    }
}

/// No two live orders of a consistent engine whose books are in arrival order share an
/// instrument and an arrival.
proof fn lemma_live_keys_distinct(e: EngineModel, x: LiveOrderState, y: LiveOrderState)
    requires
        consistent(e),
        crate::engine_laws::books_in_arrival_order(e),
        e.live_orders.contains_key(x.order.id),
        e.live_orders[x.order.id] == x,
        e.live_orders.contains_key(y.order.id),
        e.live_orders[y.order.id] == y,
        x != y,
    ensures
        !(live_key_le(x, y) && live_key_le(y, x)),
{
    if x.order.instrument == y.order.instrument {
        let inst = x.order.instrument;
        assert(live_ok(e, x.order.id));
        let b = e.books[inst];
        assert(holds_book(e, inst, b));
        assert(b.orders.contains_key(x.order.id) && b.orders.contains_key(y.order.id));
        assert(crate::arrival_order::arrival_ordered(b));
        assert(b.orders[x.order.id].arrival_sequence != b.orders[y.order.id].arrival_sequence);
    }
}

/// What an engine exports is determined by its state: sorted by instrument and arrival,
/// each live order once, whatever order the live orders were listed in.
pub proof fn law_export_is_determined(e: EngineModel, st1: EngineState, st2: EngineState)
    requires
        consistent(e),
        crate::engine_laws::books_in_arrival_order(e),
        exports(e, st1),
        exports(e, st2),
    ensures
        st1.live_orders@ == st2.live_orders@,
        sorted_live(st1.live_orders@),
        st1.live_orders@.no_duplicates(),
        forall|i: int, j: int| 0 <= i < j < st1.live_orders@.len() ==> (#[trigger] st1.live_orders@[i]).order.id
            != (#[trigger] st1.live_orders@[j]).order.id,
        st1.next_global_sequence == st2.next_global_sequence,
        accounts_view(st1.accounts@) == accounts_view(st2.accounts@),
{
    let ids1 = choose|ids: Seq<OrderId>|
        {
            &&& ids.no_duplicates()
            &&& ids.to_set() == e.live_orders.dom()
            &&& st1.live_orders@ == sort_live(ids.map_values(|id: OrderId| e.live_orders[id]))
        };
    let ids2 = choose|ids: Seq<OrderId>|
        {
            &&& ids.no_duplicates()
            &&& ids.to_set() == e.live_orders.dom()
            &&& st2.live_orders@ == sort_live(ids.map_values(|id: OrderId| e.live_orders[id]))
        };
    assert forall|id: OrderId| #[trigger] e.live_orders.contains_key(id) implies e.live_orders[id].order.id == id by {
        assert(live_ok(e, id));
    }
    let a = st1.live_orders@;
    let b = st2.live_orders@;
    let raw1 = ids1.map_values(|id: OrderId| e.live_orders[id]);
    let raw2 = ids2.map_values(|id: OrderId| e.live_orders[id]);
    lemma_sort_live_mset(raw1);
    lemma_sort_live_mset(raw2);
    lemma_sort_live_sorted(raw1);
    lemma_sort_live_sorted(raw2);
    // Both raw lists hold each live order exactly once.
    assert forall|x: LiveOrderState| #[trigger] raw1.to_multiset().count(x) == raw2.to_multiset().count(x) by {
        lemma_live_list_count(e, ids1, x);
        lemma_live_list_count(e, ids2, x);
    }
    assert(raw1.to_multiset() =~= raw2.to_multiset());
    assert forall|x: LiveOrderState| a.to_multiset().count(x) <= 1 by {
        lemma_live_list_count(e, ids1, x);
    }
    a.lemma_multiset_has_no_duplicates_conv();
    assert forall|x: LiveOrderState, y: LiveOrderState|
        #[trigger] a.contains(x) && #[trigger] a.contains(y) && x != y implies !(live_key_le(x, y) && live_key_le(y, x)) by {
        assert(a.to_multiset().count(x) > 0 && a.to_multiset().count(y) > 0);
        lemma_live_list_count(e, ids1, x);
        lemma_live_list_count(e, ids1, y);
        lemma_live_keys_distinct(e, x, y);
    }
    lemma_sorted_live_unique(a, b);
    assert forall|i: int, j: int| 0 <= i < j < a.len() implies (#[trigger] a[i]).order.id != (#[trigger] a[j]).order.id by {
        assert(a.contains(a[i]) && a.contains(a[j]));
        assert(a.to_multiset().count(a[i]) > 0 && a.to_multiset().count(a[j]) > 0);
        lemma_live_list_count(e, ids1, a[i]);
        lemma_live_list_count(e, ids1, a[j]);
    }
}

/// A listing of the live orders by distinct ids holds each live order once and nothing
/// else.
proof fn lemma_live_list_count(e: EngineModel, ids: Seq<OrderId>, x: LiveOrderState)
    requires
        forall|id: OrderId| #[trigger] e.live_orders.contains_key(id) ==> e.live_orders[id].order.id == id,
        ids.no_duplicates(),
        ids.to_set() == e.live_orders.dom(),
    ensures
        ids.map_values(|id: OrderId| e.live_orders[id]).to_multiset().count(x) == (if e.live_orders.contains_key(
            x.order.id,
        ) && e.live_orders[x.order.id] == x {
            1nat
        } else {
            0nat
        }),
{
    let raw = ids.map_values(|id: OrderId| e.live_orders[id]);
    assert forall|j: int| 0 <= j < raw.len() implies e.live_orders.contains_key((#[trigger] raw[j]).order.id)
        && e.live_orders[raw[j].order.id] == raw[j] by {
        assert(ids.to_set().contains(ids[j]));
    }
    assert(raw.no_duplicates()) by {
        assert forall|a: int, b: int| 0 <= a < raw.len() && 0 <= b < raw.len() && a != b implies raw[a] != raw[b] by {
            assert(ids.to_set().contains(ids[a]));
            assert(ids.to_set().contains(ids[b]));
        }
    }
    raw.lemma_multiset_has_no_duplicates();
    if e.live_orders.contains_key(x.order.id) && e.live_orders[x.order.id] == x {
        assert(ids.to_set().contains(x.order.id));
        let k = choose|k: int| 0 <= k < ids.len() && ids[k] == x.order.id;
        assert(raw[k] == x);
        assert(raw.contains(x));
    } else {
        if raw.contains(x) {
            let k = choose|k: int| 0 <= k < raw.len() && raw[k] == x;
            assert(e.live_orders[raw[k].order.id] == raw[k]);
        }
        assert(!raw.contains(x));
    }
}

/// What putting back a list of live orders with distinct ids does to the live orders: each
/// one listed becomes live as recorded, the others stay as they were; accounts and sequence
/// do not change.
proof fn lemma_restore_all_live(g: EngineModel, lives: Seq<LiveOrderState>)
    requires
        forall|i: int, j: int| 0 <= i < j < lives.len() ==> (#[trigger] lives[i]).order.id != (#[trigger] lives[j]).order.id,
        g.restore_all(lives) is Some,
    ensures
        forall|id: OrderId| #[trigger] g.restore_all(lives).unwrap().live_orders.contains_key(id) <==> (
        g.live_orders.contains_key(id) || exists|j: int| 0 <= j < lives.len() && (#[trigger] lives[j]).order.id == id),
        forall|j: int| 0 <= j < lives.len() ==> g.restore_all(lives).unwrap().live_orders[(#[trigger] lives[j]).order.id]
            == lives[j],
        forall|id: OrderId| #[trigger] g.live_orders.contains_key(id) && !(exists|j: int| 0 <= j < lives.len()
            && (#[trigger] lives[j]).order.id == id) ==> g.restore_all(lives).unwrap().live_orders[id] == g.live_orders[id],
        g.restore_all(lives).unwrap().accounts == g.accounts,
        g.restore_all(lives).unwrap().next_global_sequence == g.next_global_sequence,
    decreases lives.len(),
{
    if lives.len() > 0 {
        let l = lives[0];
        assert(g.restore_live(l) is Some);
        let g2 = g.restore_live(l).unwrap();
        assert(g2.live_orders == g.live_orders.insert(l.order.id, l));
        let rest = lives.subrange(1, lives.len() as int);
        assert forall|i: int, j: int| 0 <= i < j < rest.len() implies (#[trigger] rest[i]).order.id != (#[trigger] rest[j]).order.id by {
            assert(rest[i] == lives[i + 1] && rest[j] == lives[j + 1]);
        }
        lemma_restore_all_live(g2, rest);
        assert(!(exists|k: int| 0 <= k < rest.len() && (#[trigger] rest[k]).order.id == l.order.id)) by {
            if exists|k: int| 0 <= k < rest.len() && (#[trigger] rest[k]).order.id == l.order.id {
                let k = choose|k: int| 0 <= k < rest.len() && (#[trigger] rest[k]).order.id == l.order.id;
                assert(rest[k] == lives[k + 1]);
            }
        }
        let r = g.restore_all(lives).unwrap();
        assert(r == g2.restore_all(rest).unwrap());
        assert forall|id: OrderId| #[trigger] r.live_orders.contains_key(id) <==> (g.live_orders.contains_key(id)
            || exists|j: int| 0 <= j < lives.len() && (#[trigger] lives[j]).order.id == id) by {
            if r.live_orders.contains_key(id) && !g.live_orders.contains_key(id) && id != l.order.id {
                let j = choose|j: int| 0 <= j < rest.len() && (#[trigger] rest[j]).order.id == id;
                assert(lives[j + 1] == rest[j]);
            }
            if exists|j: int| 0 <= j < lives.len() && (#[trigger] lives[j]).order.id == id {
                let j = choose|j: int| 0 <= j < lives.len() && (#[trigger] lives[j]).order.id == id;
                if j > 0 {
                    assert(rest[j - 1] == lives[j]);
                }
            }
        }
        assert forall|j: int| 0 <= j < lives.len() implies r.live_orders[(#[trigger] lives[j]).order.id] == lives[j] by {
            if j > 0 {
                assert(rest[j - 1] == lives[j]);
            } else {
                assert(g2.live_orders.contains_key(l.order.id));
            }
        }
        assert forall|id: OrderId| #[trigger] g.live_orders.contains_key(id) && !(exists|j: int| 0 <= j < lives.len()
            && (#[trigger] lives[j]).order.id == id) implies r.live_orders[id] == g.live_orders[id] by {
            assert(lives[0].order.id != id);
            if exists|j: int| 0 <= j < rest.len() && (#[trigger] rest[j]).order.id == id {
                let j = choose|j: int| 0 <= j < rest.len() && (#[trigger] rest[j]).order.id == id;
                assert(lives[j + 1] == rest[j]);
            }
            assert(g2.live_orders.contains_key(id));
            assert(g2.live_orders[id] == g.live_orders[id]);
        }
    }
}

/// Exporting an engine rebuilt from a recorded state gives that state back, where the state
/// is sorted by instrument and arrival, holds each order id once and no two orders with the
/// same instrument and arrival, and can be rebuilt (every order has a price, and no level
/// counter overflows).
pub proof fn law_rebuild_then_export(st: EngineState, st2: EngineState)
    requires
        sorted_live(st.live_orders@),
        forall|i: int, j: int|
            0 <= i < j < st.live_orders@.len() ==> (#[trigger] st.live_orders@[i]).order.id
                != (#[trigger] st.live_orders@[j]).order.id,
        forall|i: int, j: int|
            0 <= i < j < st.live_orders@.len() ==> !(#[trigger] st.live_orders@[i].order.instrument
                == #[trigger] st.live_orders@[j].order.instrument && st.live_orders@[i].arrival_sequence
                == st.live_orders@[j].arrival_sequence),
        EngineModel::recovered(st.live_orders@, accounts_view(st.accounts@), st.next_global_sequence) is Some,
        exports(EngineModel::recovered(st.live_orders@, accounts_view(st.accounts@), st.next_global_sequence).unwrap(), st2),
    ensures
        st2.live_orders@ == st.live_orders@,
        st2.next_global_sequence == st.next_global_sequence,
        accounts_view(st2.accounts@) == accounts_view(st.accounts@),
{
    let s = st.live_orders@;
    let ls = sort_live(s);
    lemma_sort_live_mset(s);
    lemma_sort_live_sorted(s);
    assert(s.no_duplicates()) by {
        assert forall|a: int, b: int| 0 <= a < s.len() && 0 <= b < s.len() && a != b implies s[a] != s[b] by {
            if a < b {
                assert(s[a].order.id != s[b].order.id);
            } else {
                assert(s[b].order.id != s[a].order.id);
            }
        }
    }
    // Two entries of the list never share an instrument and an arrival.
    assert forall|x: LiveOrderState, y: LiveOrderState|
        #[trigger] s.contains(x) && #[trigger] s.contains(y) && x != y implies !(live_key_le(x, y) && live_key_le(y, x)) by {
        let i = choose|i: int| 0 <= i < s.len() && s[i] == x;
        let j = choose|j: int| 0 <= j < s.len() && s[j] == y;
        assert(i != j);
        if i < j {
            assert(!(s[i].order.instrument == s[j].order.instrument && s[i].arrival_sequence == s[j].arrival_sequence));
        } else {
            assert(!(s[j].order.instrument == s[i].order.instrument && s[j].arrival_sequence == s[i].arrival_sequence));
        }
    }
    s.lemma_multiset_has_no_duplicates();
    ls.lemma_multiset_has_no_duplicates_conv();
    assert forall|x: LiveOrderState, y: LiveOrderState|
        #[trigger] ls.contains(x) && #[trigger] ls.contains(y) && x != y implies !(live_key_le(x, y) && live_key_le(y, x)) by {
        assert(ls.to_multiset().count(x) > 0 && ls.to_multiset().count(y) > 0);
        assert(s.contains(x) && s.contains(y));
    }
    lemma_sorted_live_unique(ls, s);
    // The rebuilt engine's live orders are exactly the recorded ones.
    let g0 = EngineModel::bare(accounts_view(st.accounts@), st.next_global_sequence);
    let r = EngineModel::recovered(s, accounts_view(st.accounts@), st.next_global_sequence).unwrap();
    assert(r == g0.restore_all(s).unwrap());
    lemma_restore_all_live(g0, s);
    assert forall|id: OrderId| #[trigger] r.live_orders.contains_key(id) implies r.live_orders[id].order.id == id by {
        let j = choose|j: int| 0 <= j < s.len() && (#[trigger] s[j]).order.id == id;
    }
    let ids = choose|ids: Seq<OrderId>|
        {
            &&& ids.no_duplicates()
            &&& ids.to_set() == r.live_orders.dom()
            &&& st2.live_orders@ == sort_live(ids.map_values(|id: OrderId| r.live_orders[id]))
        };
    let raw = ids.map_values(|id: OrderId| r.live_orders[id]);
    lemma_sort_live_mset(raw);
    lemma_sort_live_sorted(raw);
    assert forall|x: LiveOrderState| #[trigger] raw.to_multiset().count(x) == s.to_multiset().count(x) by {
        lemma_live_list_count(r, ids, x);
        if s.contains(x) {
            let j = choose|j: int| 0 <= j < s.len() && s[j] == x;
            assert(r.live_orders[s[j].order.id] == s[j]);
        } else if r.live_orders.contains_key(x.order.id) && r.live_orders[x.order.id] == x {
            let j = choose|j: int| 0 <= j < s.len() && (#[trigger] s[j]).order.id == x.order.id;
            assert(r.live_orders[s[j].order.id] == s[j]);
            assert(s.contains(s[j]));
        }
    }
    assert(raw.to_multiset() =~= s.to_multiset());
    lemma_sorted_live_unique(s, st2.live_orders@);
}


/// What an engine reached from a new one exports is sorted by instrument and arrival, lists
/// only orders that rest at a price, and rebuilds the engine: the same live orders, order
/// locations, accounts and sequence, the same queues, and the same top of every book.
pub proof fn law_reachable_export_rebuilds(commands: Seq<crate::types::EngineCommand>, st: EngineState)
    requires
        crate::engine_laws::apply_all(crate::engine_laws::new_engine(), commands) is Some,
        exports(crate::engine_laws::apply_all(crate::engine_laws::new_engine(), commands).unwrap(), st),
    ensures
        sorted_live(st.live_orders@),
        forall|j: int| 0 <= j < st.live_orders@.len() ==> (#[trigger] st.live_orders@[j]).order.price is Some,
        EngineModel::recovered(st.live_orders@, accounts_view(st.accounts@), st.next_global_sequence) is Some,
        same_state(
            EngineModel::recovered(st.live_orders@, accounts_view(st.accounts@), st.next_global_sequence).unwrap(),
            crate::engine_laws::apply_all(crate::engine_laws::new_engine(), commands).unwrap(),
        ),
        forall|inst: InstrumentId| #[trigger] EngineModel::recovered(
            st.live_orders@,
            accounts_view(st.accounts@),
            st.next_global_sequence,
        ).unwrap().snapshot(inst) == crate::engine_laws::apply_all(crate::engine_laws::new_engine(), commands).unwrap().snapshot(
            inst,
        ),
{
    let e0 = crate::engine_laws::new_engine();
    crate::engine_laws::law_new_engine_consistent();
    crate::engine_laws::law_reachable_engines_are_consistent(e0, commands);
    let e = crate::engine_laws::apply_all(e0, commands).unwrap();
    law_export_then_rebuild(e, st);
    let ids = choose|ids: Seq<OrderId>|
        {
            &&& ids.no_duplicates()
            &&& ids.to_set() == e.live_orders.dom()
            &&& st.live_orders@ == sort_live(ids.map_values(|id: OrderId| e.live_orders[id]))
        };
    lemma_sort_live_sorted(ids.map_values(|id: OrderId| e.live_orders[id]));
    lemma_recovery_list(e, ids);
    lemma_sort_live_mset(snapshot_lives(e, ids));
    assert forall|j: int| 0 <= j < st.live_orders@.len() implies (#[trigger] st.live_orders@[j]).order.price is Some by {
        let x = st.live_orders@[j];
        let lives = sort_live(snapshot_lives(e, ids));
        assert(snapshot_lives(e, ids).contains(x));
        assert(lives.to_multiset().count(x) > 0);
        assert(lives.contains(x));
        let k = choose|k: int| 0 <= k < lives.len() && lives[k] == x;
        assert(e.live_orders.contains_key(lives[k].order.id));
        assert(crate::engine_laws::live_ok(e, lives[k].order.id));
    }
}

} // verus!
