use vstd::prelude::*;

use crate::book::RestingOrder;
use crate::book_model::{lemma_level_member, lemma_remove_distinct, BookModel};
use crate::types::{OrderId, Price, Quantity, Side};

verus! {

/// The queue lists its orders in strictly increasing arrival sequence.
pub open spec fn queue_in_arrival_order(orders: Map<OrderId, RestingOrder>, q: Seq<OrderId>) -> bool {
    forall|i: int, j: int|
        0 <= i < j < q.len() ==> (#[trigger] orders[q[i]]).arrival_sequence < (#[trigger] orders[q[j]]).arrival_sequence
}

/// Every order of the book arrived before the book's next sequence number, no two orders
/// arrived at the same sequence, and every level is in arrival order: time priority is
/// arrival order.
pub open spec fn arrival_ordered(m: BookModel) -> bool {
    &&& forall|id: OrderId| #[trigger] m.orders.contains_key(id) ==> m.orders[id].arrival_sequence < m.next_sequence
    &&& forall|a: OrderId, b: OrderId|
        #[trigger] m.orders.contains_key(a) && #[trigger] m.orders.contains_key(b) && a != b
            ==> m.orders[a].arrival_sequence != m.orders[b].arrival_sequence
    &&& forall|side: Side, p: Price| #[trigger] m.levels(side).contains_key(p) ==> queue_in_arrival_order(
        m.orders,
        m.levels(side)[p],
    )
}

/// Lowering a remaining quantity keeps the arrival order.
pub proof fn lemma_set_remaining_ordered(m: BookModel, id: OrderId, r: Quantity)
    requires
        arrival_ordered(m),
        m.orders.contains_key(id),
    ensures
        arrival_ordered(m.set_remaining(id, r)),
{
    let m2 = m.set_remaining(id, r);
    assert(m2.orders.dom() =~= m.orders.dom());
    assert forall|x: OrderId| #[trigger] m2.orders.contains_key(x) implies m2.orders[x].arrival_sequence
        == m.orders[x].arrival_sequence by {}
    assert forall|side: Side, p: Price| #[trigger] m2.levels(side).contains_key(p) implies queue_in_arrival_order(
        m2.orders,
        m2.levels(side)[p],
    ) by {
        assert(m2.levels(side) == m.levels(side));
        let q = m.levels(side)[p];
        assert(queue_in_arrival_order(m.orders, q));
        assert forall|i: int, j: int| 0 <= i < j < q.len() implies (#[trigger] m2.orders[q[i]]).arrival_sequence
            < (#[trigger] m2.orders[q[j]]).arrival_sequence by {
            assert(m.orders[q[i]].arrival_sequence < m.orders[q[j]].arrival_sequence);
        }
    }
}

/// Taking an order out keeps the arrival order.
pub proof fn lemma_remove_order_ordered(m: BookModel, id: OrderId)
    requires
        m.wf(),
        arrival_ordered(m),
        m.orders.contains_key(id),
    ensures
        arrival_ordered(m.remove_order(id)),
{
    let m2 = m.remove_order(id);
    let o = m.orders[id];
    crate::book_model::lemma_remove_order_wf(m, id);
    assert(m.levels(o.side).contains_key(o.price));
    let q0 = m.levels(o.side)[o.price];
    assert(m.side_wf(o.side));
    assert(m.level_wf(o.side, o.price));
    assert(q0.contains(id));
    let k = q0.index_of(id);
    assert(0 <= k < q0.len() && q0[k] == id);
    q0.remove_ensures(k);
    assert forall|side: Side, p: Price| #[trigger] m2.levels(side).contains_key(p) implies queue_in_arrival_order(
        m2.orders,
        m2.levels(side)[p],
    ) by {
        let q = m2.levels(side)[p];
        if side == o.side && p == o.price {
            assert(q == q0.remove(k));
            assert(queue_in_arrival_order(m.orders, q0));
            lemma_remove_distinct(q0, k);
            assert forall|i: int, j: int| 0 <= i < j < q.len() implies (#[trigger] m2.orders[q[i]]).arrival_sequence
                < (#[trigger] m2.orders[q[j]]).arrival_sequence by {
                let ii = if i < k { i } else { i + 1 };
                let jj = if j < k { j } else { j + 1 };
                assert(q[i] == q0[ii]);
                assert(q[j] == q0[jj]);
                assert(q.contains(q[i]) && q.contains(q[j]));
                assert(q[i] != id && q[j] != id);
                assert(m.orders[q0[ii]].arrival_sequence < m.orders[q0[jj]].arrival_sequence);
            }
        } else {
            assert(m.levels(side).contains_key(p));
            assert(q == m.levels(side)[p]);
            assert(queue_in_arrival_order(m.orders, q));
            assert forall|i: int, j: int| 0 <= i < j < q.len() implies (#[trigger] m2.orders[q[i]]).arrival_sequence
                < (#[trigger] m2.orders[q[j]]).arrival_sequence by {
                assert(m.orders[q[i]].arrival_sequence < m.orders[q[j]].arrival_sequence);
                assert(m2.side_wf(side));
                assert(m2.level_wf(side, p));
                assert(m2.orders.contains_key(q[i]) && m2.orders.contains_key(q[j]));
            }
        }
    }
}

/// Appending an order that arrived after every order of the book keeps the arrival order,
/// where the book's next sequence number moves past it.
pub proof fn lemma_add_resting_ordered(m: BookModel, r: RestingOrder, next: u64)
    requires
        m.wf(),
        arrival_ordered(m),
        !m.orders.contains_key(r.order_id),
        forall|id: OrderId| #[trigger] m.orders.contains_key(id) ==> m.orders[id].arrival_sequence < r.arrival_sequence,
        m.next_sequence <= next,
        r.arrival_sequence < next,
    ensures
        arrival_ordered(BookModel { next_sequence: next, ..m.add_resting(r) }),
{
    let m1 = m.add_resting(r);
    let m2 = BookModel { next_sequence: next, ..m1 };
    let id = r.order_id;
    assert(m2.orders == m.orders.insert(id, r));
    assert forall|side: Side, p: Price| #[trigger] m2.levels(side).contains_key(p) implies queue_in_arrival_order(
        m2.orders,
        m2.levels(side)[p],
    ) by {
        let q = m2.levels(side)[p];
        if side == r.side && p == r.price {
            let old_q = if m.levels(side).contains_key(p) { m.levels(side)[p] } else { Seq::<OrderId>::empty() };
            assert(q == old_q.push(id));
            if m.levels(side).contains_key(p) {
                assert(queue_in_arrival_order(m.orders, old_q));
            }
            assert forall|i: int, j: int| 0 <= i < j < q.len() implies (#[trigger] m2.orders[q[i]]).arrival_sequence
                < (#[trigger] m2.orders[q[j]]).arrival_sequence by {
                assert(old_q.contains(q[i]));
                lemma_level_member(m, side, p, q[i]);
                assert(q[i] != id);
                if j < old_q.len() {
                    assert(old_q.contains(q[j]));
                    lemma_level_member(m, side, p, q[j]);
                    assert(q[j] != id);
                    assert(m.orders[old_q[i]].arrival_sequence < m.orders[old_q[j]].arrival_sequence);
                } else {
                    assert(q[j] == id);
                }
            }
        } else {
            assert(m.levels(side).contains_key(p));
            assert(q == m.levels(side)[p]);
            assert(queue_in_arrival_order(m.orders, q));
            assert forall|i: int, j: int| 0 <= i < j < q.len() implies (#[trigger] m2.orders[q[i]]).arrival_sequence
                < (#[trigger] m2.orders[q[j]]).arrival_sequence by {
                assert(q.contains(q[i]) && q.contains(q[j]));
                lemma_level_member(m, side, p, q[i]);
                lemma_level_member(m, side, p, q[j]);
                assert(q[i] != id && q[j] != id);
                assert(m.orders[q[i]].arrival_sequence < m.orders[q[j]].arrival_sequence);
            }
        }
    }
    assert forall|a: OrderId, b: OrderId| #[trigger] m2.orders.contains_key(a) && #[trigger] m2.orders.contains_key(b)
        && a != b implies m2.orders[a].arrival_sequence != m2.orders[b].arrival_sequence by {
        if a != id && b != id {
            assert(m.orders.contains_key(a) && m.orders.contains_key(b));
        } else if a == id {
            assert(m.orders.contains_key(b));
        } else {
            assert(m.orders.contains_key(a));
        }
    }
    assert forall|x: OrderId| #[trigger] m2.orders.contains_key(x) implies m2.orders[x].arrival_sequence
        < m2.next_sequence by {
        if x != id {
            assert(m.orders.contains_key(x));
        }
    }
}

/// Taking a sequence number keeps the arrival order.
pub proof fn lemma_bump_ordered(m: BookModel)
    requires
        arrival_ordered(m),
        m.next_sequence < u64::MAX,
    ensures
        arrival_ordered(m.bump_sequence()),
{
    let m2 = m.bump_sequence();
    assert forall|side: Side, p: Price| #[trigger] m2.levels(side).contains_key(p) implies queue_in_arrival_order(
        m2.orders,
        m2.levels(side)[p],
    ) by {
        assert(m.levels(side).contains_key(p));
    }
}

/// Two queues without duplicates that hold the same orders, both in strictly increasing
/// arrival order, are the same queue.
pub proof fn lemma_sorted_unique(orders: Map<OrderId, RestingOrder>, qa: Seq<OrderId>, qb: Seq<OrderId>)
    requires
        qa.no_duplicates(),
        qb.no_duplicates(),
        forall|x: OrderId| qa.contains(x) <==> qb.contains(x),
        queue_in_arrival_order(orders, qa),
        queue_in_arrival_order(orders, qb),
    ensures
        qa == qb,
    decreases qa.len(),
{
    if qa.len() == 0 {
        if qb.len() > 0 {
            assert(qb.contains(qb[0]));
        }
        assert(qa =~= qb);
    } else {
        assert(qa.contains(qa[0]));
        assert(qb.len() > 0);
        assert(qb.contains(qb[0]));
        let i = choose|i: int| 0 <= i < qb.len() && qb[i] == qa[0];
        let j = choose|j: int| 0 <= j < qa.len() && qa[j] == qb[0];
        if j > 0 {
            assert(orders[qa[0]].arrival_sequence < orders[qa[j]].arrival_sequence);
        }
        if i > 0 {
            assert(orders[qb[0]].arrival_sequence < orders[qb[i]].arrival_sequence);
        }
        assert(i == 0 && j == 0);
        let ra = qa.drop_first();
        let rb = qb.drop_first();
        assert forall|x: OrderId| ra.contains(x) <==> rb.contains(x) by {
            if ra.contains(x) {
                let k = choose|k: int| 0 <= k < ra.len() && ra[k] == x;
                assert(qa[k + 1] == x);
                assert(qa.contains(x));
                assert(x != qa[0]);
                let kb = choose|kb: int| 0 <= kb < qb.len() && qb[kb] == x;
                assert(kb != 0);
                assert(rb[kb - 1] == x);
            }
            if rb.contains(x) {
                let k = choose|k: int| 0 <= k < rb.len() && rb[k] == x;
                assert(qb[k + 1] == x);
                assert(qb.contains(x));
                assert(x != qb[0]);
                let ka = choose|ka: int| 0 <= ka < qa.len() && qa[ka] == x;
                assert(ka != 0);
                assert(ra[ka - 1] == x);
            }
        }
        assert forall|a: int, b: int| 0 <= a < b < ra.len() implies (#[trigger] orders[ra[a]]).arrival_sequence
            < (#[trigger] orders[ra[b]]).arrival_sequence by {
            assert(ra[a] == qa[a + 1] && ra[b] == qa[b + 1]);
        }
        assert forall|a: int, b: int| 0 <= a < b < rb.len() implies (#[trigger] orders[rb[a]]).arrival_sequence
            < (#[trigger] orders[rb[b]]).arrival_sequence by {
            assert(rb[a] == qb[a + 1] && rb[b] == qb[b + 1]);
        }
        lemma_sorted_unique(orders, ra, rb);
        assert(qa =~= seq![qa[0]] + ra);
        assert(qb =~= seq![qb[0]] + rb);
    }
}

/// Two well-formed books in arrival order that hold the same orders have the same levels.
pub proof fn lemma_same_levels(a: BookModel, b: BookModel)
    requires
        a.wf(),
        b.wf(),
        arrival_ordered(a),
        arrival_ordered(b),
        a.orders == b.orders,
    ensures
        a.bids == b.bids,
        a.asks == b.asks,
{
    assert forall|side: Side| #[trigger] a.levels(side) == b.levels(side) by {
        assert forall|p: Price| a.levels(side).contains_key(p) implies b.levels(side).contains_key(p) by {
            assert(a.side_wf(side));
            assert(a.level_wf(side, p));
            let q = a.levels(side)[p];
            assert(q.contains(q[0]));
            lemma_level_member(a, side, p, q[0]);
        }
        assert forall|p: Price| b.levels(side).contains_key(p) implies a.levels(side).contains_key(p) by {
            assert(b.side_wf(side));
            assert(b.level_wf(side, p));
            let q = b.levels(side)[p];
            assert(q.contains(q[0]));
            lemma_level_member(b, side, p, q[0]);
        }
        assert forall|p: Price| #[trigger] a.levels(side).contains_key(p) implies a.levels(side)[p] == b.levels(
            side,
        )[p] by {
            let qa = a.levels(side)[p];
            let qb = b.levels(side)[p];
            assert(a.side_wf(side) && b.side_wf(side));
            assert(a.level_wf(side, p) && b.level_wf(side, p));
            assert(qa.no_duplicates() && qb.no_duplicates());
            assert forall|x: OrderId| qa.contains(x) <==> qb.contains(x) by {
                if qa.contains(x) {
                    lemma_level_member(a, side, p, x);
                }
                if qb.contains(x) {
                    lemma_level_member(b, side, p, x);
                }
            }
            assert(queue_in_arrival_order(a.orders, qa));
            assert(queue_in_arrival_order(b.orders, qb));
            lemma_sorted_unique(a.orders, qa, qb);
        }
        assert(a.levels(side) =~= b.levels(side));
    }
    assert(a.levels(Side::Bid) == b.levels(Side::Bid));
    assert(a.levels(Side::Ask) == b.levels(Side::Ask));
}

} // verus!
