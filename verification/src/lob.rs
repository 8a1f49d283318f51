use vstd::prelude::*;

use std::collections::HashMap;

use crate::skiplist::{contains_key, orders_at, LevelsView, SkipList};
use crate::types::{level_order_ok, LimitOrder, OrderError, OrderOutcome, OrderRequest, OrderType, PriceLevel, Side, Trade};

verus! {

broadcast use vstd::std_specs::hash::group_hash_axioms;

/// Where a resting order lives: its side and its price level. The queue
/// position is found by scanning the level, which also serves cancellation.
#[derive(Clone, Copy, Debug, PartialEq, Eq, Structural)]
pub struct OrderLocation {
    pub side: Side,
    pub price: u64,
}

/// One price level's queue and an incoming order's remaining quantity,
/// consumed strictly in arrival order: the front order trades
/// `min(remaining, resting)`; a fully consumed order leaves the queue, a
/// partially consumed one stays at the front with the remainder. Returns
/// the new queue, the trades (stamped `seq0`, `seq0 + 1`, ...), the ids of
/// fully filled orders, and the incoming order's remainder.
pub open spec fn spec_match_level(q: Seq<LimitOrder>, rem: int, aggressor: u64, seq0: int) -> (
    Seq<LimitOrder>,
    Seq<Trade>,
    Seq<u64>,
    int,
)
    decreases q.len(),
{
    if rem <= 0 || q.len() == 0 {
        (q, Seq::<Trade>::empty(), Seq::<u64>::empty(), rem)
    } else {
        let o = q[0];
        if o.quantity <= rem {
            let t = Trade {
                price: o.price,
                quantity: o.quantity,
                aggressor_order_id: aggressor,
                resting_order_id: o.order_id,
                sequence: seq0 as u64,
            };
            let rest = spec_match_level(q.skip(1), rem - o.quantity, aggressor, seq0 + 1);
            (rest.0, seq![t] + rest.1, seq![o.order_id] + rest.2, rest.3)
        } else {
            let t = Trade {
                price: o.price,
                quantity: rem as u64,
                aggressor_order_id: aggressor,
                resting_order_id: o.order_id,
                sequence: seq0 as u64,
            };
            let o2 = LimitOrder {
                order_id: o.order_id,
                side: o.side,
                price: o.price,
                quantity: (o.quantity - rem) as u64,
                arrival_sequence: o.arrival_sequence,
            };
            (q.update(0, o2), seq![t], Seq::<u64>::empty(), 0)
        }
    }
}

/// Executable level matcher, exactly the recursive rule above.
pub fn match_level(queue: Vec<LimitOrder>, remaining: u64, aggressor: u64, seq0: u64) -> (r: (
    Vec<LimitOrder>,
    Vec<Trade>,
    Vec<u64>,
    u64,
))
    requires
        forall|j: int| 0 <= j < queue@.len() ==> (#[trigger] queue@[j]).quantity > 0,
        seq0 + queue@.len() <= u64::MAX,
    ensures
        ({
            let m = spec_match_level(queue@, remaining as int, aggressor, seq0 as int);
            r.0@ == m.0 && r.1@ == m.1 && r.2@ == m.2 && r.3 == m.3
        }),
{
    let mut q = queue;
    let mut rem = remaining;
    let mut trades: Vec<Trade> = Vec::new();
    let mut filled: Vec<u64> = Vec::new();
    let mut seq = seq0;
    while rem > 0 && q.len() > 0
        invariant
            forall|j: int| 0 <= j < q@.len() ==> (#[trigger] q@[j]).quantity > 0,
            rem > 0 ==> seq == seq0 + trades@.len(),
            seq + q@.len() <= u64::MAX,
            ({
                let full = spec_match_level(queue@, remaining as int, aggressor, seq0 as int);
                let sub = spec_match_level(q@, rem as int, aggressor, seq as int);
                full.0 == sub.0 && full.1 == trades@ + sub.1 && full.2 == filled@ + sub.2
                    && full.3 == sub.3
            }),
        decreases rem,
    {
        let ghost qp = q@;
        let ghost remp = rem as int;
        let ghost seqp = seq as int;
        let ghost tradesp = trades@;
        let ghost filledp = filled@;
        let o = q[0];
        if o.quantity <= rem {
            let t = Trade {
                price: o.price,
                quantity: o.quantity,
                aggressor_order_id: aggressor,
                resting_order_id: o.order_id,
                sequence: seq,
            };
            trades.push(t);
            filled.push(o.order_id);
            rem = rem - o.quantity;
            q.remove(0);
            seq = seq + 1;
            proof {
                assert(q@ =~= qp.skip(1));
                let sp = spec_match_level(qp, remp, aggressor, seqp);
                let sub = spec_match_level(q@, rem as int, aggressor, seq as int);
                assert(sp.1 =~= seq![t] + sub.1);
                assert(sp.2 =~= seq![o.order_id] + sub.2);
                assert(tradesp + sp.1 =~= trades@ + sub.1);
                assert(filledp + sp.2 =~= filled@ + sub.2);
            }
        } else {
            let t = Trade {
                price: o.price,
                quantity: rem,
                aggressor_order_id: aggressor,
                resting_order_id: o.order_id,
                sequence: seq,
            };
            trades.push(t);
            let o2 = LimitOrder {
                order_id: o.order_id,
                side: o.side,
                price: o.price,
                quantity: o.quantity - rem,
                arrival_sequence: o.arrival_sequence,
            };
            q[0] = o2;
            rem = 0;
            proof {
                let sp = spec_match_level(qp, remp, aggressor, seqp);
                let sub = spec_match_level(q@, rem as int, aggressor, seq as int);
                assert(sub.0 == q@ && sub.1 =~= Seq::<Trade>::empty());
                assert(sp.0 =~= qp.update(0, o2));
                assert(sp.0 =~= q@);
                assert(sp.1 =~= seq![t]);
                assert(tradesp + sp.1 =~= trades@ + sub.1);
                assert(filledp + sp.2 =~= filled@ + sub.2);
            }
        }
    }
    proof {
        let full = spec_match_level(queue@, remaining as int, aggressor, seq0 as int);
        let sub = spec_match_level(q@, rem as int, aggressor, seq as int);
        assert(sub.0 == q@ && sub.3 == rem as int);
        assert(full.1 =~= trades@);
        assert(full.2 =~= filled@);
    }
    (q, trades, filled, rem)
}

/// Total quantity of a run of trades.
pub open spec fn trades_qty(ts: Seq<Trade>) -> int
    decreases ts.len(),
{
    if ts.len() == 0 {
        0
    } else {
        ts[0].quantity + trades_qty(ts.skip(1))
    }
}

/// Number of resting orders on one side.
pub open spec fn side_order_count(v: LevelsView) -> int
    decreases v.len(),
{
    if v.len() == 0 {
        0
    } else {
        v[0].1.len() + side_order_count(v.skip(1))
    }
}

pub open spec fn queue_has_order(q: Seq<LimitOrder>, id: u64) -> bool {
    exists|j: int| 0 <= j < q.len() && (#[trigger] q[j]).order_id == id
}

/// One level's well-formedness within a side: a non-empty queue whose
/// orders carry the level's price, positive quantity, the side, strictly
/// increasing arrival below `bound`, and distinct ids.
pub open spec fn level_queue_wf(lv: (u64, Seq<LimitOrder>), side: Side, bound: u64) -> bool {
    &&& lv.1.len() > 0
    &&& forall|j: int| 0 <= j < lv.1.len() ==> level_order_ok(lv.0, side, #[trigger] lv.1[j])
    &&& forall|j: int| 0 <= j < lv.1.len() ==> (#[trigger] lv.1[j]).arrival_sequence < bound
    &&& forall|j1: int, j2: int|
        0 <= j1 < j2 < lv.1.len() ==> lv.1[j1].arrival_sequence < lv.1[j2].arrival_sequence
    &&& forall|j1: int, j2: int|
        0 <= j1 < j2 < lv.1.len() ==> lv.1[j1].order_id != lv.1[j2].order_id
}

pub open spec fn side_wf(v: LevelsView, side: Side, bound: u64) -> bool {
    forall|i: int| 0 <= i < v.len() ==> level_queue_wf(#[trigger] v[i], side, bound)
}

/// The book never crosses: the best bid is below the best ask, or a side is
/// empty.
pub open spec fn uncrossed(bids: LevelsView, asks: LevelsView) -> bool {
    bids.len() > 0 && asks.len() > 0 ==> bids[bids.len() - 1].0 < asks[0].0
}

proof fn lemma_trades_qty_concat(a: Seq<Trade>, b: Seq<Trade>)
    ensures
        trades_qty(a + b) == trades_qty(a) + trades_qty(b),
    decreases a.len(),
{
    if a.len() == 0 {
        assert(a + b =~= b);
    } else {
        assert((a + b)[0] == a[0]);
        assert((a + b).skip(1) =~= a.skip(1) + b);
        lemma_trades_qty_concat(a.skip(1), b);
    }
}

proof fn lemma_side_count_concat(a: LevelsView, b: LevelsView)
    ensures
        side_order_count(a + b) == side_order_count(a) + side_order_count(b),
    decreases a.len(),
{
    if a.len() == 0 {
        assert(a + b =~= b);
    } else {
        assert((a + b)[0] == a[0]);
        assert((a + b).skip(1) =~= a.skip(1) + b);
        lemma_side_count_concat(a.skip(1), b);
    }
}

/// Splits a side's order count at a level.
proof fn lemma_side_count_split(v: LevelsView, i: int)
    requires
        0 <= i < v.len(),
    ensures
        side_order_count(v) == side_order_count(v.take(i)) + v[i].1.len() + side_order_count(
            v.skip(i + 1),
        ),
        v[i].1.len() <= side_order_count(v),
        side_order_count(v) >= 0,
{
    lemma_side_count_nonneg(v.take(i));
    lemma_side_count_nonneg(v.skip(i + 1));
    lemma_side_count_concat(v.take(i), seq![v[i]] + v.skip(i + 1));
    lemma_side_count_concat(seq![v[i]], v.skip(i + 1));
    assert(v =~= v.take(i) + (seq![v[i]] + v.skip(i + 1)));
    assert(side_order_count(seq![v[i]]) == v[i].1.len() + side_order_count(
        seq![v[i]].skip(1),
    ));
    assert(seq![v[i]].skip(1) =~= Seq::<(u64, Seq<LimitOrder>)>::empty());
}

proof fn lemma_side_count_nonneg(v: LevelsView)
    ensures
        side_order_count(v) >= 0,
    decreases v.len(),
{
    if v.len() > 0 {
        lemma_side_count_nonneg(v.skip(1));
    }
}

/// Structure of the queue that the level matcher leaves behind: a suffix of
/// the original queue whose first order may have a reduced quantity; every
/// other field is untouched, and everything stays positive.
pub proof fn lemma_match_level_queue(q: Seq<LimitOrder>, rem: int, aggressor: u64, seq0: int)
    requires
        forall|j: int| 0 <= j < q.len() ==> (#[trigger] q[j]).quantity > 0,
    ensures
        ({
            let m = spec_match_level(q, rem, aggressor, seq0);
            let d = q.len() - m.0.len();
            &&& 0 <= d <= q.len()
            &&& forall|i: int|
                0 <= i < m.0.len() ==> {
                    let a = #[trigger] m.0[i];
                    let b = q[d + i];
                    a.order_id == b.order_id && a.side == b.side && a.price == b.price
                        && a.arrival_sequence == b.arrival_sequence && 0 < a.quantity
                        <= b.quantity
                }
            &&& forall|i: int| 1 <= i < m.0.len() ==> #[trigger] m.0[i] == q[d + i]
        }),
    decreases q.len(),
{
    let m = spec_match_level(q, rem, aggressor, seq0);
    if rem <= 0 || q.len() == 0 {
    } else {
        let o = q[0];
        if o.quantity <= rem {
            lemma_match_level_queue(q.skip(1), rem - o.quantity, aggressor, seq0 + 1);
            let ms = spec_match_level(q.skip(1), rem - o.quantity, aggressor, seq0 + 1);
            let ds = q.skip(1).len() - ms.0.len();
            assert forall|i: int| 0 <= i < m.0.len() implies {
                let a = #[trigger] m.0[i];
                let b = q[q.len() - m.0.len() + i];
                a.order_id == b.order_id && a.side == b.side && a.price == b.price
                    && a.arrival_sequence == b.arrival_sequence && 0 < a.quantity <= b.quantity
            } by {
                assert(m.0[i] == ms.0[i]);
                assert(q.skip(1)[ds + i] == q[1 + ds + i]);
            }
            assert forall|i: int| 1 <= i < m.0.len() implies #[trigger] m.0[i] == q[q.len()
                - m.0.len() + i] by {
                assert(m.0[i] == ms.0[i]);
                assert(q.skip(1)[ds + i] == q[1 + ds + i]);
            }
        } else {
            assert(m.0 == q.update(0, m.0[0]));
        }
    }
}

/// Structure of the trades and filled ids that the level matcher produces:
/// trade k executes against queue position k in arrival order, carrying
/// consecutive sequence numbers from `seq0`; the filled ids are exactly the
/// ids of the consumed prefix; quantity is conserved.
pub proof fn lemma_match_level_trades(q: Seq<LimitOrder>, rem: int, aggressor: u64, seq0: int)
    requires
        forall|j: int| 0 <= j < q.len() ==> (#[trigger] q[j]).quantity > 0,
        0 <= rem,
    ensures
        ({
            let m = spec_match_level(q, rem, aggressor, seq0);
            let d = q.len() - m.0.len();
            &&& m.1.len() <= q.len()
            &&& d <= m.1.len() <= d + 1
            &&& m.2.len() == d
            &&& forall|i: int| 0 <= i < d ==> #[trigger] m.2[i] == q[i].order_id
            &&& forall|k: int|
                0 <= k < m.1.len() ==> {
                    let t = #[trigger] m.1[k];
                    &&& t.resting_order_id == q[k].order_id
                    &&& t.price == q[k].price
                    &&& t.aggressor_order_id == aggressor
                    &&& t.sequence == (seq0 + k) as u64
                    &&& 0 < t.quantity <= q[k].quantity
                }
            &&& trades_qty(m.1) == rem - m.3
            &&& 0 <= m.3 <= rem
            &&& (m.3 > 0 ==> m.0.len() == 0)
            &&& (rem > 0 && q.len() > 0 ==> m.3 < rem)
        }),
    decreases q.len(),
{
    let m = spec_match_level(q, rem, aggressor, seq0);
    if rem <= 0 || q.len() == 0 {
    } else {
        let o = q[0];
        if o.quantity <= rem {
            lemma_match_level_trades(q.skip(1), rem - o.quantity, aggressor, seq0 + 1);
            let ms = spec_match_level(q.skip(1), rem - o.quantity, aggressor, seq0 + 1);
            let t0 = m.1[0];
            assert(m.1.skip(1) =~= ms.1);
            assert(m.2.skip(1) =~= ms.2);
            lemma_trades_qty_concat(seq![t0], ms.1);
            assert(seq![t0] + ms.1 =~= m.1);
            assert(trades_qty(seq![t0]) == t0.quantity + trades_qty(seq![t0].skip(1)));
            assert(seq![t0].skip(1) =~= Seq::<Trade>::empty());
            assert forall|k: int| 0 <= k < m.1.len() implies {
                let t = #[trigger] m.1[k];
                &&& t.resting_order_id == q[k].order_id
                &&& t.price == q[k].price
                &&& t.aggressor_order_id == aggressor
                &&& t.sequence == (seq0 + k) as u64
                &&& 0 < t.quantity <= q[k].quantity
            } by {
                if k > 0 {
                    assert(m.1[k] == ms.1[k - 1]);
                    assert(q.skip(1)[k - 1] == q[k]);
                }
            }
            assert forall|i: int| 0 <= i < q.len() - m.0.len() implies #[trigger] m.2[i]
                == q[i].order_id by {
                if i > 0 {
                    assert(m.2[i] == ms.2[i - 1]);
                    assert(q.skip(1)[i - 1] == q[i]);
                }
            }
            assert(m.0 == ms.0 && m.3 == ms.3);
            assert(trades_qty(m.1) == rem - m.3);
        } else {
            let t = m.1[0];
            assert(m.1 =~= seq![t]);
            assert(seq![t].skip(1) =~= Seq::<Trade>::empty());
            assert(trades_qty(m.1) == t.quantity + trades_qty(seq![t].skip(1)));
            assert(m.0.len() == q.len());
        }
    }
}

/// Removing the last (greatest) key of a sorted view drops its last level.
pub proof fn lemma_spec_remove_last(v: LevelsView)
    requires
        crate::skiplist::keys_sorted(v),
        v.len() > 0,
    ensures
        crate::skiplist::spec_remove(v, v[v.len() - 1].0) == v.take(v.len() - 1),
{
    crate::skiplist::lemma_spec_remove_at(v, v[v.len() - 1].0, v.len() - 1);
    assert(v.take(v.len() - 1) + v.skip(v.len() as int) =~= v.take(v.len() - 1));
}

/// Inserting a key greater than every key of a sorted view appends it.
pub proof fn lemma_spec_insert_back(v: LevelsView, key: u64, orders: Seq<LimitOrder>)
    requires
        crate::skiplist::keys_sorted(v),
        forall|i: int| 0 <= i < v.len() ==> (#[trigger] v[i]).0 < key,
    ensures
        crate::skiplist::spec_insert(v, key, orders) == v + seq![(key, orders)],
{
    crate::skiplist::lemma_spec_insert_at(v, key, orders, v.len() as int);
    assert(v.take(v.len() as int) + seq![(key, orders)] + v.skip(v.len() as int) =~= v + seq![
        (key, orders),
    ]);
}

/// Total resting quantity of a queue.
pub open spec fn queue_qty(q: Seq<LimitOrder>) -> int
    decreases q.len(),
{
    if q.len() == 0 {
        0
    } else {
        q[0].quantity + queue_qty(q.skip(1))
    }
}

/// Every queued order of one side is registered in the map, at that side
/// and that level's price.
pub open spec fn side_covered(v: LevelsView, side: Side, m: Map<u64, OrderLocation>) -> bool {
    forall|i: int, j: int|
        0 <= i < v.len() && 0 <= j < v[i].1.len() ==> {
            let o = #[trigger] v[i].1[j];
            m.contains_key(o.order_id) && m[o.order_id] == OrderLocation { side, price: v[i].0 }
        }
}

/// Every registered id is found where the map says: at an existing level of
/// the named side, inside that level's queue.
pub open spec fn locs_sound(bids: LevelsView, asks: LevelsView, m: Map<u64, OrderLocation>) -> bool {
    forall|id: u64|
        #[trigger] m.contains_key(id) ==> {
            let loc = m[id];
            if loc.side is Buy {
                contains_key(bids, loc.price) && queue_has_order(orders_at(bids, loc.price), id)
            } else {
                contains_key(asks, loc.price) && queue_has_order(orders_at(asks, loc.price), id)
            }
        }
}

/// An incoming order is marketable against a contra level at `best`.
pub open spec fn crosses_spec(side: Side, is_market: bool, lp: u64, best: u64) -> bool {
    is_market || (if side is Buy {
        lp >= best
    } else {
        lp <= best
    })
}

/// A side's levels with the best level first: asks are already ascending,
/// bids are read backwards.
pub open spec fn rev_levels(v: LevelsView) -> LevelsView {
    Seq::new(v.len(), |i: int| v[v.len() - 1 - i])
}

/// The contra side an incoming order matches against, best level first.
pub open spec fn contra_best_first(b: &LimitOrderBook, side: Side) -> LevelsView {
    if side is Buy {
        b.asks_view()
    } else {
        rev_levels(b.bids_view())
    }
}

/// The crossing algorithm, as a fold over the contra side (best level
/// first): while the incoming order has remaining quantity and is
/// marketable against the best level, consume that level through
/// `spec_match_level`; an exhausted level is dropped and matching moves to
/// the next; a partially consumed level keeps its remaining queue. Returns
/// the contra levels left (best first), the trades in emission order
/// (stamped from `seq0`), and the incoming order's remainder.
pub open spec fn spec_cross(
    contra: LevelsView,
    rem: int,
    is_market: bool,
    lp: u64,
    side: Side,
    ag: u64,
    seq0: int,
) -> (LevelsView, Seq<Trade>, int)
    decreases contra.len(),
{
    if rem <= 0 || contra.len() == 0 || !crosses_spec(side, is_market, lp, contra[0].0) {
        (contra, Seq::<Trade>::empty(), rem)
    } else {
        let m = spec_match_level(contra[0].1, rem, ag, seq0);
        if m.0.len() == 0 {
            let rest = spec_cross(contra.skip(1), m.3, is_market, lp, side, ag, seq0 + m.1.len());
            (rest.0, m.1 + rest.1, rest.2)
        } else {
            (contra.update(0, (contra[0].0, m.0)), m.1, m.3)
        }
    }
}

/// Consuming the whole front order of the best level advances the crossing
/// fold by exactly one trade.
proof fn lemma_cross_step_full(
    cbf: LevelsView,
    rem: int,
    is_market: bool,
    lp: u64,
    side: Side,
    ag: u64,
    s: int,
)
    requires
        cbf.len() > 0,
        cbf[0].1.len() > 0,
        forall|j: int| 0 <= j < cbf[0].1.len() ==> (#[trigger] cbf[0].1[j]).quantity > 0,
        crosses_spec(side, is_market, lp, cbf[0].0),
        cbf[0].1[0].quantity <= rem,
    ensures
        ({
            let q = cbf[0].1;
            let o1 = q[0];
            let t1 = Trade {
                price: o1.price,
                quantity: o1.quantity,
                aggressor_order_id: ag,
                resting_order_id: o1.order_id,
                sequence: s as u64,
            };
            let cbf2 = if q.len() == 1 {
                cbf.skip(1)
            } else {
                cbf.update(0, (cbf[0].0, q.skip(1)))
            };
            let rest = spec_cross(cbf2, rem - o1.quantity, is_market, lp, side, ag, s + 1);
            spec_cross(cbf, rem, is_market, lp, side, ag, s) == (
                rest.0,
                seq![t1] + rest.1,
                rest.2,
            )
        }),
{
    let q = cbf[0].1;
    let p = cbf[0].0;
    let o1 = q[0];
    let t1 = Trade {
        price: o1.price,
        quantity: o1.quantity,
        aggressor_order_id: ag,
        resting_order_id: o1.order_id,
        sequence: s as u64,
    };
    let m = spec_match_level(q, rem, ag, s);
    let mr = spec_match_level(q.skip(1), rem - o1.quantity, ag, s + 1);
    assert(m.0 == mr.0 && m.1 == seq![t1] + mr.1 && m.3 == mr.3);
    let cbf2 = if q.len() == 1 {
        cbf.skip(1)
    } else {
        cbf.update(0, (p, q.skip(1)))
    };
    let rest = spec_cross(cbf2, rem - o1.quantity, is_market, lp, side, ag, s + 1);
    if q.len() == 1 {
        assert(q.skip(1).len() == 0);
        assert(mr.1 =~= Seq::<Trade>::empty());
        assert(m.1 =~= seq![t1]);
        assert(m.0.len() == 0);
        let restl = spec_cross(cbf.skip(1), m.3, is_market, lp, side, ag, s + m.1.len());
        assert(s + m.1.len() == s + 1);
        assert(restl == rest);
        assert(spec_cross(cbf, rem, is_market, lp, side, ag, s) == (
            restl.0,
            m.1 + restl.1,
            restl.2,
        ));
        assert(m.1 + restl.1 =~= seq![t1] + rest.1);
    } else {
        assert(cbf2[0] == (p, q.skip(1)));
        assert(cbf2[0].1.len() > 0);
        if rem == o1.quantity {
            assert(mr.1 =~= Seq::<Trade>::empty());
            assert(mr == (q.skip(1), Seq::<Trade>::empty(), Seq::<u64>::empty(), 0int));
            assert(m.0 == q.skip(1) && m.0.len() > 0);
            assert(spec_cross(cbf, rem, is_market, lp, side, ag, s) == (
                cbf.update(0, (p, q.skip(1))),
                m.1,
                0int,
            ));
            assert(rest == (cbf2, Seq::<Trade>::empty(), 0int));
            assert(m.1 =~= seq![t1] + rest.1);
        } else {
            assert(rem - o1.quantity > 0);
            assert(crosses_spec(side, is_market, lp, cbf2[0].0));
            let m2 = spec_match_level(cbf2[0].1, rem - o1.quantity, ag, s + 1);
            assert(m2 == mr);
            if mr.0.len() == 0 {
                let restl = spec_cross(cbf.skip(1), mr.3, is_market, lp, side, ag, s + m.1.len());
                let restr = spec_cross(
                    cbf2.skip(1),
                    mr.3,
                    is_market,
                    lp,
                    side,
                    ag,
                    s + 1 + mr.1.len(),
                );
                assert(cbf2.skip(1) =~= cbf.skip(1));
                assert(m.1.len() == 1 + mr.1.len());
                assert(restl == restr);
                assert(spec_cross(cbf, rem, is_market, lp, side, ag, s) == (
                    restl.0,
                    m.1 + restl.1,
                    restl.2,
                ));
                assert(rest == (restr.0, mr.1 + restr.1, restr.2));
                assert(m.1 + restl.1 =~= seq![t1] + (mr.1 + restr.1));
            } else {
                assert(spec_cross(cbf, rem, is_market, lp, side, ag, s) == (
                    cbf.update(0, (p, mr.0)),
                    m.1,
                    mr.3,
                ));
                assert(rest == (cbf2.update(0, (p, mr.0)), mr.1, mr.3));
                assert(cbf2.update(0, (p, mr.0)) =~= cbf.update(0, (p, mr.0)));
                assert(m.1 =~= seq![t1] + mr.1);
            }
        }
    }
}

/// Partially consuming the front order of the best level ends the crossing
/// fold with a single trade for the incoming remainder.
proof fn lemma_cross_step_partial(
    cbf: LevelsView,
    rem: int,
    is_market: bool,
    lp: u64,
    side: Side,
    ag: u64,
    s: int,
)
    requires
        cbf.len() > 0,
        cbf[0].1.len() > 0,
        crosses_spec(side, is_market, lp, cbf[0].0),
        0 < rem < cbf[0].1[0].quantity,
    ensures
        ({
            let q = cbf[0].1;
            let o1 = q[0];
            let t1 = Trade {
                price: o1.price,
                quantity: rem as u64,
                aggressor_order_id: ag,
                resting_order_id: o1.order_id,
                sequence: s as u64,
            };
            let o2 = LimitOrder {
                order_id: o1.order_id,
                side: o1.side,
                price: o1.price,
                quantity: (o1.quantity - rem) as u64,
                arrival_sequence: o1.arrival_sequence,
            };
            spec_cross(cbf, rem, is_market, lp, side, ag, s) == (
                cbf.update(0, (cbf[0].0, q.update(0, o2))),
                seq![t1],
                0int,
            )
        }),
{
    let q = cbf[0].1;
    let m = spec_match_level(q, rem, ag, s);
    assert(m.0 == q.update(0, m.0[0]));
    assert(m.0.len() == q.len());
}

/// Price-time priority through the crossing algorithm: an incoming order
/// no larger than the earliest resting order at the best contra level
/// fills that order exclusively, at its level's price; every other resting
/// order and level is left exactly as it was. `add_order`'s contract names
/// this fold, so the property holds of the book.
pub proof fn lemma_cross_price_time_priority(
    cbf: LevelsView,
    rem: int,
    is_market: bool,
    lp: u64,
    side: Side,
    ag: u64,
    s: int,
)
    requires
        cbf.len() > 0,
        cbf[0].1.len() > 0,
        forall|j: int| 0 <= j < cbf[0].1.len() ==> (#[trigger] cbf[0].1[j]).quantity > 0,
        crosses_spec(side, is_market, lp, cbf[0].0),
        0 < rem <= cbf[0].1[0].quantity,
    ensures
        ({
            let cr = spec_cross(cbf, rem, is_market, lp, side, ag, s);
            let q = cbf[0].1;
            let o1 = q[0];
            let o2 = LimitOrder {
                order_id: o1.order_id,
                side: o1.side,
                price: o1.price,
                quantity: (o1.quantity - rem) as u64,
                arrival_sequence: o1.arrival_sequence,
            };
            &&& cr.1.len() == 1
            &&& cr.1[0].resting_order_id == o1.order_id
            &&& cr.1[0].quantity == rem
            &&& cr.1[0].price == o1.price
            &&& cr.2 == 0
            &&& (rem < o1.quantity ==> cr.0 == cbf.update(0, (cbf[0].0, q.update(0, o2))))
            &&& (rem == o1.quantity && q.len() > 1 ==> cr.0 == cbf.update(
                0,
                (cbf[0].0, q.skip(1)),
            ))
            &&& (rem == o1.quantity && q.len() == 1 ==> cr.0 == cbf.skip(1))
        }),
{
    let q = cbf[0].1;
    let o1 = q[0];
    if rem < o1.quantity {
        lemma_cross_step_partial(cbf, rem, is_market, lp, side, ag, s);
        let cr = spec_cross(cbf, rem, is_market, lp, side, ag, s);
        assert(cr.1 =~= seq![cr.1[0]]);
    } else {
        lemma_cross_step_full(cbf, rem, is_market, lp, side, ag, s);
        let cbf2 = if q.len() == 1 {
            cbf.skip(1)
        } else {
            cbf.update(0, (cbf[0].0, q.skip(1)))
        };
        let rest = spec_cross(cbf2, 0, is_market, lp, side, ag, s + 1);
        assert(rest == (cbf2, Seq::<Trade>::empty(), 0int));
        let cr = spec_cross(cbf, rem, is_market, lp, side, ag, s);
        assert(cr.1 =~= seq![cr.1[0]]);
    }
}

/// Partial-fill persistence through the crossing algorithm: an incoming
/// order at least as large as the best contra level's aggregate quantity
/// fully drains that level, filling each of its orders in arrival order,
/// and matching continues against the remaining levels with the reduced
/// remainder. `add_order`'s contract names this fold, so the property
/// holds of the book.
pub proof fn lemma_cross_level_drain(
    cbf: LevelsView,
    rem: int,
    is_market: bool,
    lp: u64,
    side: Side,
    ag: u64,
    s: int,
)
    requires
        cbf.len() > 0,
        cbf[0].1.len() > 0,
        forall|j: int| 0 <= j < cbf[0].1.len() ==> (#[trigger] cbf[0].1[j]).quantity > 0,
        crosses_spec(side, is_market, lp, cbf[0].0),
        rem >= queue_qty(cbf[0].1),
    ensures
        ({
            let q = cbf[0].1;
            let m = spec_match_level(q, rem, ag, s);
            let rest = spec_cross(
                cbf.skip(1),
                rem - queue_qty(q),
                is_market,
                lp,
                side,
                ag,
                s + q.len(),
            );
            let cr = spec_cross(cbf, rem, is_market, lp, side, ag, s);
            &&& m.1.len() == q.len()
            &&& forall|k: int|
                0 <= k < q.len() ==> (#[trigger] m.1[k]).quantity == q[k].quantity
                    && m.1[k].resting_order_id == q[k].order_id
            &&& cr == (rest.0, m.1 + rest.1, rest.2)
        }),
{
    let q = cbf[0].1;
    lemma_queue_qty_nonneg(q.skip(1));
    assert(queue_qty(q) == q[0].quantity + queue_qty(q.skip(1)));
    assert(rem > 0);
    lemma_level_drain(q, rem, ag, s);
    let m = spec_match_level(q, rem, ag, s);
    assert(m.0.len() == 0 && m.3 == rem - queue_qty(q));
}

/// What an admitted order came to: trades plus a terminal state.
#[derive(Debug, PartialEq, Eq)]
pub struct AddReport {
    pub trades: Vec<Trade>,
    pub outcome: OrderOutcome,
}

/// The matching core: two price-indexed side books, the order-id location
/// map, and the admission and event counters.
pub struct LimitOrderBook {
    bids: SkipList,
    asks: SkipList,
    locations: HashMap<u64, OrderLocation>,
    next_arrival: u64,
    next_sequence: u64,
}

pub open spec fn own_view(b: &LimitOrderBook, side: Side) -> LevelsView {
    if side is Buy {
        b.bids_view()
    } else {
        b.asks_view()
    }
}

pub open spec fn contra_view(b: &LimitOrderBook, side: Side) -> LevelsView {
    if side is Buy {
        b.asks_view()
    } else {
        b.bids_view()
    }
}

impl LimitOrderBook {
    pub closed spec fn bids_view(&self) -> LevelsView {
        self.bids@
    }

    pub closed spec fn asks_view(&self) -> LevelsView {
        self.asks@
    }

    pub closed spec fn locations_view(&self) -> Map<u64, OrderLocation> {
        self.locations@
    }

    /// Admission counter: how many orders have been admitted, plus one.
    pub closed spec fn admissions(&self) -> int {
        self.next_arrival as int
    }

    /// Event counter: the sequence number the next emitted event will get.
    pub closed spec fn events(&self) -> int {
        self.next_sequence as int
    }

    /// Engine invariant: both side indexes well formed, every level's queue
    /// well formed, the book uncrossed, the location map exactly mirroring
    /// the resting orders, and the counters within their working range.
    pub closed spec fn wf(&self) -> bool {
        &&& self.bids.wf()
        &&& self.asks.wf()
        &&& side_wf(self.bids@, Side::Buy, self.next_arrival)
        &&& side_wf(self.asks@, Side::Sell, self.next_arrival)
        &&& uncrossed(self.bids@, self.asks@)
        &&& side_covered(self.bids@, Side::Buy, self.locations@)
        &&& side_covered(self.asks@, Side::Sell, self.locations@)
        &&& locs_sound(self.bids@, self.asks@, self.locations@)
        &&& 1 <= self.next_arrival
        &&& self.next_sequence as int + side_order_count(self.bids@) + side_order_count(
            self.asks@,
        ) <= 2 * (self.next_arrival as int)
    }

    /// The counters have room for another admission. A machine limit: the
    /// counters are 64-bit; this bound can never be reached in practice.
    pub open spec fn can_admit(&self) -> bool {
        self.admissions() < 0x4000_0000_0000_0000
    }

    /// Runtime form of `can_admit`, for unverified callers.
    pub fn can_accept(&self) -> (r: bool)
        ensures
            r == self.can_admit(),
    {
        self.next_arrival < 0x4000_0000_0000_0000
    }

    /// An empty book. `seed` drives the indexes' height randomness.
    pub fn new(seed: u64) -> (r: LimitOrderBook)
        ensures
            r.wf(),
            r.can_admit(),
            r.bids_view() == Seq::<(u64, Seq<LimitOrder>)>::empty(),
            r.asks_view() == Seq::<(u64, Seq<LimitOrder>)>::empty(),
            r.locations_view() == Map::<u64, OrderLocation>::empty(),
            r.admissions() == 1,
            r.events() == 0,
    {
        let r = LimitOrderBook {
            bids: SkipList::new(seed),
            asks: SkipList::new(seed.wrapping_add(1)),
            locations: HashMap::new(),
            next_arrival: 1,
            next_sequence: 0,
        };
        r
    }

    /// Highest resting buy price.
    pub fn best_bid(&self) -> (r: Option<u64>)
        requires
            self.wf(),
        ensures
            r == (if self.bids_view().len() == 0 {
                None::<u64>
            } else {
                Some(self.bids_view()[self.bids_view().len() - 1].0)
            }),
    {
        self.bids.max()
    }

    /// Lowest resting sell price.
    pub fn best_ask(&self) -> (r: Option<u64>)
        requires
            self.wf(),
        ensures
            r == (if self.asks_view().len() == 0 {
                None::<u64>
            } else {
                Some(self.asks_view()[0].0)
            }),
    {
        self.asks.min()
    }

/// One cancellation, seen at the level of views: removing order `order_id`
/// from position `j` of the level at index `i` of its own side (dropping
/// the level if it empties) and dropping its registration restores every
/// book invariant.
#[verifier::rlimit(100)]
proof fn lemma_cancel_restores(
    own0: LevelsView,
    other0: LevelsView,
    m0: Map<u64, OrderLocation>,
    side: Side,
    na0: u64,
    price: u64,
    order_id: u64,
    i: int,
    j: int,
    own_n: LevelsView,
    mn: Map<u64, OrderLocation>,
)
    requires
        side_wf(own0, side, na0),
        side_wf(other0, side.spec_opposite(), na0),
        crate::skiplist::keys_sorted(own0),
        crate::skiplist::keys_sorted(other0),
        side_covered(own0, side, m0),
        side_covered(other0, side.spec_opposite(), m0),
        locs_sound(
            if side is Buy {
                own0
            } else {
                other0
            },
            if side is Buy {
                other0
            } else {
                own0
            },
            m0,
        ),
        m0.contains_key(order_id),
        m0[order_id] == (OrderLocation { side, price }),
        0 <= i < own0.len(),
        own0[i].0 == price,
        0 <= j < own0[i].1.len(),
        own0[i].1[j].order_id == order_id,
        own_n == (if own0[i].1.len() == 1 {
            own0.take(i) + own0.skip(i + 1)
        } else {
            own0.update(i, (price, own0[i].1.remove(j)))
        }),
        mn == m0.remove(order_id),
    ensures
        side_wf(own_n, side, na0),
        crate::skiplist::keys_sorted(own_n),
        side_covered(own_n, side, mn),
        side_covered(other0, side.spec_opposite(), mn),
        locs_sound(
            if side is Buy {
                own_n
            } else {
                other0
            },
            if side is Buy {
                other0
            } else {
                own_n
            },
            mn,
        ),
        side_order_count(own_n) == side_order_count(own0) - 1,
        own_n.len() > 0 ==> own_n[0].0 >= own0[0].0 && own_n[own_n.len() - 1].0 <= own0[own0.len()
            - 1].0,
{
    let q = own0[i].1;
    let q2 = q.remove(j);
    let emptied = q.len() == 1;
    // the edited level keeps its shape if it survives
    if !emptied {
        assert(level_queue_wf((price, q2), side, na0)) by {
            assert forall|k: int| 0 <= k < q2.len() implies level_order_ok(
                price,
                side,
                #[trigger] q2[k],
            ) && q2[k].arrival_sequence < na0 by {
                assert(q2[k] == (if k < j {
                    q[k]
                } else {
                    q[k + 1]
                }));
            }
            assert forall|k1: int, k2: int|
                0 <= k1 < k2 < q2.len() implies q2[k1].arrival_sequence < q2[k2].arrival_sequence
                && q2[k1].order_id != q2[k2].order_id by {
                assert(q2[k1] == (if k1 < j {
                    q[k1]
                } else {
                    q[k1 + 1]
                }));
                assert(q2[k2] == (if k2 < j {
                    q[k2]
                } else {
                    q[k2 + 1]
                }));
            }
        }
        lemma_update_level(own0, i, q2, side, na0);
    } else {
        lemma_remove_level(own0, i, side, na0);
        assert(q2 =~= Seq::<LimitOrder>::empty());
    }
    // own side stays covered
    assert forall|i2: int, j2: int|
        0 <= i2 < own_n.len() && 0 <= j2 < own_n[i2].1.len() implies {
        let o = #[trigger] own_n[i2].1[j2];
        mn.contains_key(o.order_id) && mn[o.order_id] == OrderLocation {
            side,
            price: own_n[i2].0,
        }
    } by {
        let o = own_n[i2].1[j2];
        if emptied {
            let oi = if i2 < i {
                i2
            } else {
                i2 + 1
            };
            assert(own_n[i2] == own0[oi]);
            assert(o.order_id != order_id) by {
                if o.order_id == order_id {
                    assert(m0[o.order_id].price == own0[oi].0);
                    assert(own0[oi].0 != price);
                }
            }
        } else {
            assert(own_n[i2].0 == own0[i2].0);
            if i2 != i {
                assert(own_n[i2] == own0[i2]);
                assert(o.order_id != order_id) by {
                    if o.order_id == order_id {
                        assert(m0[o.order_id].price == own0[i2].0);
                        assert(own0[i2].0 != own0[i].0);
                    }
                }
            } else {
                assert(own_n[i2].1 == q2);
                assert(o == (if j2 < j {
                    q[j2]
                } else {
                    q[j2 + 1]
                }));
                assert(o.order_id != order_id);
            }
        }
    }
    // the untouched side stays covered
    assert forall|i2: int, j2: int|
        0 <= i2 < other0.len() && 0 <= j2 < other0[i2].1.len() implies {
        let o = #[trigger] other0[i2].1[j2];
        mn.contains_key(o.order_id) && mn[o.order_id] == OrderLocation {
            side: side.spec_opposite(),
            price: other0[i2].0,
        }
    } by {
        let o = other0[i2].1[j2];
        assert(o.order_id != order_id) by {
            if o.order_id == order_id {
                assert(m0[o.order_id].side == side.spec_opposite());
            }
        }
    }
    // every surviving registration still points at its order
    assert forall|id2: u64| #[trigger] mn.contains_key(id2) && mn[id2].side == side implies {
        contains_key(own_n, mn[id2].price) && queue_has_order(
            orders_at(own_n, mn[id2].price),
            id2,
        )
    } by {
        let l2 = mn[id2];
        assert(m0.contains_key(id2) && m0[id2] == l2 && id2 != order_id);
        let i3 = choose|i3: int| 0 <= i3 < own0.len() && (#[trigger] own0[i3]).0 == l2.price;
        crate::skiplist::lemma_orders_at_index(own0, i3, l2.price);
        let j3 = choose|j3: int|
            0 <= j3 < own0[i3].1.len() && (#[trigger] own0[i3].1[j3]).order_id == id2;
        if emptied {
            assert(i3 != i) by {
                if i3 == i {
                    assert(own0[i].1[j3].order_id == id2);
                    assert(j3 == 0 && j == 0);
                }
            }
            if i3 < i {
                assert(own_n[i3] == own0[i3]);
                crate::skiplist::lemma_orders_at_index(own_n, i3, l2.price);
                assert(own_n[i3].1[j3].order_id == id2);
            } else {
                assert(own_n[i3 - 1] == own0[i3]);
                crate::skiplist::lemma_orders_at_index(own_n, i3 - 1, l2.price);
                assert(own_n[i3 - 1].1[j3].order_id == id2);
            }
        } else {
            assert(own_n[i3].0 == own0[i3].0);
            crate::skiplist::lemma_orders_at_index(own_n, i3, l2.price);
            if i3 != i {
                assert(own_n[i3] == own0[i3]);
                assert(own_n[i3].1[j3].order_id == id2);
            } else {
                assert(j3 != j) by {
                    if j3 == j {
                        assert(q[j].order_id == id2);
                    }
                }
                if j3 < j {
                    assert(q2[j3] == q[j3]);
                    assert(own_n[i3].1[j3].order_id == id2);
                } else {
                    assert(q2[j3 - 1] == q[j3]);
                    assert(own_n[i3].1[j3 - 1].order_id == id2);
                }
            }
        }
    }
    assert forall|id2: u64| #[trigger] mn.contains_key(id2) && mn[id2].side != side implies {
        contains_key(other0, mn[id2].price) && queue_has_order(
            orders_at(other0, mn[id2].price),
            id2,
        )
    } by {
        assert(m0.contains_key(id2) && m0[id2] == mn[id2]);
    }
    if side is Buy {
        assert(locs_sound(own_n, other0, mn)) by {
            assert forall|id2: u64| #[trigger] mn.contains_key(id2) implies {
                let l2 = mn[id2];
                if l2.side is Buy {
                    contains_key(own_n, l2.price) && queue_has_order(
                        orders_at(own_n, l2.price),
                        id2,
                    )
                } else {
                    contains_key(other0, l2.price) && queue_has_order(
                        orders_at(other0, l2.price),
                        id2,
                    )
                }
            } by {
                if mn[id2].side is Buy {
                    assert(mn[id2].side == side);
                } else {
                    assert(mn[id2].side != side);
                }
            }
        }
    } else {
        assert(locs_sound(other0, own_n, mn)) by {
            assert forall|id2: u64| #[trigger] mn.contains_key(id2) implies {
                let l2 = mn[id2];
                if l2.side is Buy {
                    contains_key(other0, l2.price) && queue_has_order(
                        orders_at(other0, l2.price),
                        id2,
                    )
                } else {
                    contains_key(own_n, l2.price) && queue_has_order(
                        orders_at(own_n, l2.price),
                        id2,
                    )
                }
            } by {
                if mn[id2].side is Buy {
                    assert(mn[id2].side != side);
                } else {
                    assert(mn[id2].side == side);
                }
            }
        }
    }
    // boundary keys, for the uncrossed invariant
    if own_n.len() > 0 {
        if emptied {
            if i == own0.len() - 1 {
                assert(own_n[own_n.len() - 1] == own0[own0.len() - 2]);
                assert(own0[own0.len() - 2].0 < own0[own0.len() - 1].0);
            } else {
                assert(own_n[own_n.len() - 1] == own0[own_n.len() as int]);
            }
            if i == 0 {
                assert(own_n[0] == own0[1]);
                assert(own0[0].0 < own0[1].0);
            } else {
                assert(own_n[0] == own0[0]);
            }
        } else {
            assert(own_n[0].0 == own0[0].0);
            assert(own_n[own_n.len() - 1].0 == own0[own0.len() - 1].0);
        }
    }
}

    /// Cancels a resting order: removes it from its level's queue, deletes
    /// the level if it empties, and drops the id registration. Unknown or
    /// already-removed ids fail with OrderNotFound and change nothing.
    #[verifier::rlimit(100)]
    pub fn cancel_order(&mut self, order_id: u64) -> (r: Result<(), OrderError>)
        requires
            old(self).wf(),
        ensures
            final(self).wf(),
            (r == Err::<(), OrderError>(OrderError::OrderNotFound)) <==> !old(self).locations_view().contains_key(order_id),
            (r is Ok) <==> old(self).locations_view().contains_key(order_id),
            r is Err ==> final(self).bids_view() == old(self).bids_view()
                && final(self).asks_view() == old(self).asks_view()
                && final(self).locations_view() == old(self).locations_view()
                && final(self).events() == old(self).events()
                && final(self).admissions() == old(self).admissions(),
            r is Ok ==> ({
                let loc = old(self).locations_view()[order_id];
                let v = own_view(old(self), loc.side);
                &&& final(self).locations_view() == old(self).locations_view().remove(order_id)
                &&& final(self).events() == old(self).events()
                &&& final(self).admissions() == old(self).admissions()
                &&& (loc.side is Buy ==> final(self).asks_view() == old(self).asks_view())
                &&& (loc.side is Sell ==> final(self).bids_view() == old(self).bids_view())
                &&& exists|i: int, j: int|
                    0 <= i < v.len() && v[i].0 == loc.price && 0 <= j < v[i].1.len() && (
                    #[trigger] v[i].1[j]).order_id == order_id && own_view(final(self), loc.side)
                        == (if v[i].1.len() == 1 {
                        v.take(i) + v.skip(i + 1)
                    } else {
                        v.update(i, (loc.price, v[i].1.remove(j)))
                    })
            }),
    {
        let loc = match self.locations.get(&order_id) {
            None => {
                return Err(OrderError::OrderNotFound);
            },
            Some(l) => *l,
        };
        let ghost m0 = self.locations@;
        let ghost b0 = self.bids@;
        let ghost a0 = self.asks@;
        let ghost na0 = self.next_arrival;
        proof {
            assert(m0.contains_key(order_id) && m0[order_id] == loc);
            self.bids.lemma_view_sorted();
            self.asks.lemma_view_sorted();
        }
        match loc.side {
            Side::Buy => {
                let ghost i = choose|i2: int| 0 <= i2 < b0.len() && (#[trigger] b0[i2]).0
                    == loc.price;
                let ghost q = b0[i].1;
                proof {
                    assert(contains_key(b0, loc.price));
                    crate::skiplist::lemma_orders_at_index(b0, i, loc.price);
                    assert(queue_has_order(q, order_id));
                }
                let lvl_opt = self.bids.delete(loc.price);
                let mut lvl = match lvl_opt {
                    Some(l) => l,
                    None => {
                        proof {
                            assert(false);
                        }
                        PriceLevel::new(loc.price)
                    },
                };
                proof {
                    crate::skiplist::lemma_spec_remove_at(b0, loc.price, i);
                }
                let ghost b1 = self.bids@;
                let removed = lvl.remove(order_id);
                let ghost j = choose|j2: int| 0 <= j2 < q.len() && (#[trigger] q[j2]).order_id
                    == order_id;
                proof {
                    assert(level_queue_wf(b0[i], Side::Buy, na0));
                    assert(removed == Some(q[j]) && lvl@ == q.remove(j)) by {
                        let j2 = choose|j2: int|
                            0 <= j2 < q.len() && q[j2].order_id == order_id && removed == Some(
                                q[j2],
                            ) && lvl@ == q.remove(j2);
                        assert(j2 == j);
                    }
                }
                let empty_now = lvl.is_empty();
                if !empty_now {
                    proof {
                        assert(!contains_key(b1, loc.price)) by {
                            lemma_remove_level(b0, i, Side::Buy, na0);
                        }
                    }
                    let ir = self.bids.insert(lvl);
                    proof {
                        assert(ir is Ok);
                        assert(b1 =~= b0.take(i) + b0.skip(i + 1));
                        lemma_remove_level(b0, i, Side::Buy, na0);
                        crate::skiplist::lemma_spec_insert_at(b1, loc.price, q.remove(j), i);
                        assert(self.bids@ =~= b0.update(i, (loc.price, q.remove(j))));
                    }
                } else {
                    proof {
                        assert(q.remove(j) =~= Seq::<LimitOrder>::empty());
                        assert(q.len() == 1);
                    }
                }
                self.locations.remove(&order_id);
                proof {
                    assert(self.locations@ =~= m0.remove(order_id));
                    Self::lemma_cancel_restores(
                        b0,
                        a0,
                        m0,
                        Side::Buy,
                        na0,
                        loc.price,
                        order_id,
                        i,
                        j,
                        self.bids@,
                        self.locations@,
                    );
                    assert(uncrossed(self.bids@, a0)) by {
                        if self.bids@.len() > 0 && a0.len() > 0 {
                            assert(self.bids@[self.bids@.len() - 1].0 <= b0[b0.len() - 1].0);
                        }
                    }
                    assert(self.wf());
                    if q.len() == 1 {
                        assert(self.bids@ =~= b0.take(i) + b0.skip(i + 1));
                    }
                    assert(0 <= i < b0.len() && b0[i].0 == loc.price && 0 <= j < b0[i].1.len()
                        && (b0[i].1[j]).order_id == order_id && self.bids@ == (if b0[i].1.len()
                        == 1 {
                        b0.take(i) + b0.skip(i + 1)
                    } else {
                        b0.update(i, (loc.price, b0[i].1.remove(j)))
                    }));
                    let gv = own_view(old(self), loc.side);
                    assert(gv == b0);
                    assert(0 <= i < gv.len() && gv[i].0 == loc.price && 0 <= j < gv[i].1.len()
                        && (gv[i].1[j]).order_id == order_id);
                    assert((if gv[i].1.len() == 1 {
                        gv.take(i) + gv.skip(i + 1)
                    } else {
                        gv.update(i, (loc.price, gv[i].1.remove(j)))
                    }) == self.bids@);
                }
                Ok(())
            },
            Side::Sell => {
                let ghost i = choose|i2: int| 0 <= i2 < a0.len() && (#[trigger] a0[i2]).0
                    == loc.price;
                let ghost q = a0[i].1;
                proof {
                    assert(contains_key(a0, loc.price));
                    crate::skiplist::lemma_orders_at_index(a0, i, loc.price);
                    assert(queue_has_order(q, order_id));
                }
                let lvl_opt = self.asks.delete(loc.price);
                let mut lvl = match lvl_opt {
                    Some(l) => l,
                    None => {
                        proof {
                            assert(false);
                        }
                        PriceLevel::new(loc.price)
                    },
                };
                proof {
                    crate::skiplist::lemma_spec_remove_at(a0, loc.price, i);
                }
                let ghost a1 = self.asks@;
                let removed = lvl.remove(order_id);
                let ghost j = choose|j2: int| 0 <= j2 < q.len() && (#[trigger] q[j2]).order_id
                    == order_id;
                proof {
                    assert(level_queue_wf(a0[i], Side::Sell, na0));
                    assert(removed == Some(q[j]) && lvl@ == q.remove(j)) by {
                        let j2 = choose|j2: int|
                            0 <= j2 < q.len() && q[j2].order_id == order_id && removed == Some(
                                q[j2],
                            ) && lvl@ == q.remove(j2);
                        assert(j2 == j);
                    }
                }
                let empty_now = lvl.is_empty();
                if !empty_now {
                    proof {
                        assert(!contains_key(a1, loc.price)) by {
                            lemma_remove_level(a0, i, Side::Sell, na0);
                        }
                    }
                    let ir = self.asks.insert(lvl);
                    proof {
                        assert(ir is Ok);
                        assert(a1 =~= a0.take(i) + a0.skip(i + 1));
                        lemma_remove_level(a0, i, Side::Sell, na0);
                        crate::skiplist::lemma_spec_insert_at(a1, loc.price, q.remove(j), i);
                        assert(self.asks@ =~= a0.update(i, (loc.price, q.remove(j))));
                    }
                } else {
                    proof {
                        assert(q.remove(j) =~= Seq::<LimitOrder>::empty());
                        assert(q.len() == 1);
                    }
                }
                self.locations.remove(&order_id);
                proof {
                    assert(self.locations@ =~= m0.remove(order_id));
                    Self::lemma_cancel_restores(
                        a0,
                        b0,
                        m0,
                        Side::Sell,
                        na0,
                        loc.price,
                        order_id,
                        i,
                        j,
                        self.asks@,
                        self.locations@,
                    );
                    assert(uncrossed(b0, self.asks@)) by {
                        if self.asks@.len() > 0 && b0.len() > 0 {
                            assert(self.asks@[0].0 >= a0[0].0);
                        }
                    }
                    assert(self.wf());
                    if q.len() == 1 {
                        assert(self.asks@ =~= a0.take(i) + a0.skip(i + 1));
                    }
                    assert(0 <= i < a0.len() && a0[i].0 == loc.price && 0 <= j < a0[i].1.len()
                        && (a0[i].1[j]).order_id == order_id && self.asks@ == (if a0[i].1.len()
                        == 1 {
                        a0.take(i) + a0.skip(i + 1)
                    } else {
                        a0.update(i, (loc.price, a0[i].1.remove(j)))
                    }));
                    let gv = own_view(old(self), loc.side);
                    assert(gv == a0);
                    assert(0 <= i < gv.len() && gv[i].0 == loc.price && 0 <= j < gv[i].1.len()
                        && (gv[i].1[j]).order_id == order_id);
                    assert((if gv[i].1.len() == 1 {
                        gv.take(i) + gv.skip(i + 1)
                    } else {
                        gv.update(i, (loc.price, gv[i].1.remove(j)))
                    }) == self.asks@);
                }
                Ok(())
            },
        }
    }
}

/// The book never self-crosses: whenever both sides are non-empty, the best
/// bid is strictly below the best ask.
pub proof fn lemma_no_self_crossing(b: &LimitOrderBook)
    requires
        b.wf(),
    ensures
        b.bids_view().len() > 0 && b.asks_view().len() > 0 ==> b.bids_view()[b.bids_view().len()
            - 1].0 < b.asks_view()[0].0,
{
}

/// Price-time priority within a level: an incoming quantity no larger than
/// the front (earliest-arrival) resting order's quantity fills that order
/// exclusively; every later order is left exactly as it was.
pub proof fn lemma_price_time_priority(q: Seq<LimitOrder>, rem: int, aggressor: u64, seq0: int)
    requires
        forall|j: int| 0 <= j < q.len() ==> (#[trigger] q[j]).quantity > 0,
        q.len() >= 1,
        0 < rem <= q[0].quantity,
    ensures
        ({
            let m = spec_match_level(q, rem, aggressor, seq0);
            &&& m.1.len() == 1
            &&& m.1[0].resting_order_id == q[0].order_id
            &&& m.1[0].quantity == rem
            &&& m.3 == 0
            &&& (rem < q[0].quantity ==> m.0.len() == q.len() && forall|i: int|
                1 <= i < q.len() ==> #[trigger] m.0[i] == q[i])
            &&& (rem == q[0].quantity ==> m.0 == q.skip(1))
        }),
{
    let m = spec_match_level(q, rem, aggressor, seq0);
    if rem == q[0].quantity {
        let ms = spec_match_level(q.skip(1), 0, aggressor, seq0 + 1);
        assert(ms.1 =~= Seq::<Trade>::empty());
        assert(m.1 =~= seq![m.1[0]]);
        assert(m.0 == ms.0 && ms.0 == q.skip(1));
    }
}

/// A marketable order at least as large as a level's aggregate quantity
/// drains the level completely: every resting order there is fully filled,
/// in arrival order.
pub proof fn lemma_level_drain(q: Seq<LimitOrder>, rem: int, aggressor: u64, seq0: int)
    requires
        forall|j: int| 0 <= j < q.len() ==> (#[trigger] q[j]).quantity > 0,
        rem >= queue_qty(q),
        rem >= 0,
    ensures
        ({
            let m = spec_match_level(q, rem, aggressor, seq0);
            &&& m.0.len() == 0
            &&& m.3 == rem - queue_qty(q)
            &&& m.1.len() == q.len()
            &&& forall|k: int|
                0 <= k < q.len() ==> (#[trigger] m.1[k]).quantity == q[k].quantity
                    && m.1[k].resting_order_id == q[k].order_id
        }),
    decreases q.len(),
{
    let m = spec_match_level(q, rem, aggressor, seq0);
    if q.len() == 0 {
    } else {
        lemma_queue_qty_nonneg(q.skip(1));
        let o = q[0];
        assert(queue_qty(q) == o.quantity + queue_qty(q.skip(1)));
        if rem > 0 {
            lemma_level_drain(q.skip(1), rem - o.quantity, aggressor, seq0 + 1);
            let ms = spec_match_level(q.skip(1), rem - o.quantity, aggressor, seq0 + 1);
            assert forall|k: int|
                0 <= k < q.len() implies (#[trigger] m.1[k]).quantity == q[k].quantity
                && m.1[k].resting_order_id == q[k].order_id by {
                if k > 0 {
                    assert(m.1[k] == ms.1[k - 1]);
                    assert(q.skip(1)[k - 1] == q[k]);
                }
            }
        } else {
            assert(queue_qty(q) > 0);
        }
    }
}

proof fn lemma_queue_qty_nonneg(q: Seq<LimitOrder>)
    ensures
        queue_qty(q) >= 0,
    decreases q.len(),
{
    if q.len() > 0 {
        lemma_queue_qty_nonneg(q.skip(1));
    }
}

/// Replacing one level's queue (same key) preserves a side's shape.
proof fn lemma_update_level(v: LevelsView, i: int, newq: Seq<LimitOrder>, side: Side, bound: u64)
    requires
        side_wf(v, side, bound),
        crate::skiplist::keys_sorted(v),
        0 <= i < v.len(),
        level_queue_wf((v[i].0, newq), side, bound),
    ensures
        ({
            let nv = v.update(i, (v[i].0, newq));
            &&& side_wf(nv, side, bound)
            &&& crate::skiplist::keys_sorted(nv)
            &&& nv.len() == v.len()
            &&& forall|j: int| 0 <= j < v.len() ==> (#[trigger] nv[j]).0 == v[j].0
            &&& side_order_count(nv) == side_order_count(v) - v[i].1.len() + newq.len()
            &&& forall|k: u64| contains_key(nv, k) == contains_key(v, k)
        }),
{
    let nv = v.update(i, (v[i].0, newq));
    lemma_side_count_split(v, i);
    lemma_side_count_split(nv, i);
    assert(nv.take(i) =~= v.take(i));
    assert(nv.skip(i + 1) =~= v.skip(i + 1));
    assert forall|k: u64| contains_key(nv, k) == contains_key(v, k) by {
        if contains_key(nv, k) {
            let a = choose|a: int| 0 <= a < nv.len() && (#[trigger] nv[a]).0 == k;
            assert(v[a].0 == k);
        }
        if contains_key(v, k) {
            let a = choose|a: int| 0 <= a < v.len() && (#[trigger] v[a]).0 == k;
            assert(nv[a].0 == k);
        }
    }
}

/// Dropping one level preserves a side's shape; the other levels shift.
proof fn lemma_remove_level(v: LevelsView, i: int, side: Side, bound: u64)
    requires
        side_wf(v, side, bound),
        crate::skiplist::keys_sorted(v),
        0 <= i < v.len(),
    ensures
        ({
            let nv = v.take(i) + v.skip(i + 1);
            &&& side_wf(nv, side, bound)
            &&& crate::skiplist::keys_sorted(nv)
            &&& nv.len() == v.len() - 1
            &&& forall|j: int| 0 <= j < i ==> #[trigger] nv[j] == v[j]
            &&& forall|j: int| i <= j < nv.len() ==> #[trigger] nv[j] == v[j + 1]
            &&& side_order_count(nv) == side_order_count(v) - v[i].1.len()
            &&& forall|k: u64| contains_key(nv, k) == (contains_key(v, k) && k != v[i].0)
        }),
{
    let nv = v.take(i) + v.skip(i + 1);
    lemma_side_count_split(v, i);
    lemma_side_count_concat(v.take(i), v.skip(i + 1));
    assert forall|k: u64|
        contains_key(nv, k) == (contains_key(v, k) && k != v[i].0) by {
        if contains_key(nv, k) {
            let a = choose|a: int| 0 <= a < nv.len() && (#[trigger] nv[a]).0 == k;
            if a < i {
                assert(v[a].0 == k);
                assert(v[a].0 < v[i].0);
            } else {
                assert(v[a + 1].0 == k);
                assert(v[i].0 < v[a + 1].0);
            }
        }
        if contains_key(v, k) && k != v[i].0 {
            let a = choose|a: int| 0 <= a < v.len() && (#[trigger] v[a]).0 == k;
            if a < i {
                assert(nv[a].0 == k);
            } else {
                assert(a != i);
                assert(nv[a - 1].0 == k);
            }
        }
    }
}

/// Splicing in a new level at its sorted position preserves a side's shape.
proof fn lemma_insert_level(
    v: LevelsView,
    pidx: int,
    key: u64,
    newq: Seq<LimitOrder>,
    side: Side,
    bound: u64,
)
    requires
        side_wf(v, side, bound),
        crate::skiplist::keys_sorted(v),
        0 <= pidx <= v.len(),
        forall|j: int| 0 <= j < pidx ==> (#[trigger] v[j]).0 < key,
        pidx < v.len() ==> v[pidx].0 > key,
        level_queue_wf((key, newq), side, bound),
    ensures
        ({
            let nv = v.take(pidx) + seq![(key, newq)] + v.skip(pidx);
            &&& side_wf(nv, side, bound)
            &&& crate::skiplist::keys_sorted(nv)
            &&& nv.len() == v.len() + 1
            &&& forall|j: int| 0 <= j < pidx ==> #[trigger] nv[j] == v[j]
            &&& nv[pidx] == (key, newq)
            &&& forall|j: int| pidx < j < nv.len() ==> #[trigger] nv[j] == v[j - 1]
            &&& side_order_count(nv) == side_order_count(v) + newq.len()
            &&& forall|k: u64| contains_key(nv, k) == (contains_key(v, k) || k == key)
        }),
{
    let nv = v.take(pidx) + seq![(key, newq)] + v.skip(pidx);
    lemma_side_count_concat(v.take(pidx), seq![(key, newq)]);
    lemma_side_count_concat(v.take(pidx) + seq![(key, newq)], v.skip(pidx));
    lemma_side_count_concat(v.take(pidx), v.skip(pidx));
    assert(v.take(pidx) + v.skip(pidx) =~= v);
    assert(side_order_count(seq![(key, newq)]) == newq.len() + side_order_count(
        seq![(key, newq)].skip(1),
    ));
    assert(seq![(key, newq)].skip(1) =~= Seq::<(u64, Seq<LimitOrder>)>::empty());
    assert forall|ci: int, cj: int|
        0 <= ci < cj < nv.len() implies (#[trigger] nv[ci]).0 < (#[trigger] nv[cj]).0 by {
        if cj < pidx {
        } else if ci > pidx {
            assert(nv[ci] == v[ci - 1] && nv[cj] == v[cj - 1]);
        } else if ci < pidx && cj == pidx {
            assert(nv[ci] == v[ci]);
        } else if ci == pidx && cj > pidx {
            assert(nv[cj] == v[cj - 1]);
            assert(v[pidx].0 <= v[cj - 1].0);
        } else {
            assert(ci < pidx && cj > pidx);
            assert(nv[ci] == v[ci] && nv[cj] == v[cj - 1]);
            assert(v[ci].0 < key);
            assert(v[pidx].0 <= v[cj - 1].0);
        }
    }
    assert forall|k: u64|
        contains_key(nv, k) == (contains_key(v, k) || k == key) by {
        if contains_key(nv, k) {
            let a = choose|a: int| 0 <= a < nv.len() && (#[trigger] nv[a]).0 == k;
            if a < pidx {
                assert(v[a].0 == k);
            } else if a > pidx {
                assert(v[a - 1].0 == k);
            }
        }
        if contains_key(v, k) {
            let a = choose|a: int| 0 <= a < v.len() && (#[trigger] v[a]).0 == k;
            if a < pidx {
                assert(nv[a].0 == k);
            } else {
                assert(nv[a + 1].0 == k);
            }
        }
        if k == key {
            assert(nv[pidx].0 == k);
        }
    }
}

/// Position of a key in a sorted view: everything before it is smaller.
proof fn lemma_find_position(v: LevelsView, key: u64) -> (r: int)
    requires
        crate::skiplist::keys_sorted(v),
    ensures
        0 <= r <= v.len(),
        forall|i: int| 0 <= i < r ==> (#[trigger] v[i]).0 < key,
        r < v.len() ==> v[r].0 >= key,
    decreases v.len(),
{
    if v.len() == 0 {
        0
    } else if v[0].0 < key {
        crate::skiplist::lemma_sorted_skip(v);
        let rs = lemma_find_position(v.skip(1), key);
        assert forall|i: int| 0 <= i < rs + 1 implies (#[trigger] v[i]).0 < key by {
            if i > 0 {
                assert(v.skip(1)[i - 1] == v[i]);
            }
        }
        if rs + 1 < v.len() {
            assert(v.skip(1)[rs] == v[rs + 1]);
        }
        rs + 1
    } else {
        0
    }
}

impl LimitOrderBook {
    /// Reducing the front order's quantity at one level touches no id and
    /// no registration: every book invariant survives.
    #[verifier::rlimit(100)]
    proof fn lemma_reduce_front_restores(
        own0: LevelsView,
        other0: LevelsView,
        m0: Map<u64, OrderLocation>,
        side: Side,
        na0: u64,
        i: int,
        newo: LimitOrder,
        own_n: LevelsView,
    )
        requires
            side_wf(own0, side, na0),
            crate::skiplist::keys_sorted(own0),
            side_covered(own0, side, m0),
            side_covered(other0, side.spec_opposite(), m0),
            locs_sound(
                if side is Buy {
                    own0
                } else {
                    other0
                },
                if side is Buy {
                    other0
                } else {
                    own0
                },
                m0,
            ),
            0 <= i < own0.len(),
            own0[i].1.len() > 0,
            newo.order_id == own0[i].1[0].order_id,
            newo.side == own0[i].1[0].side,
            newo.price == own0[i].1[0].price,
            newo.arrival_sequence == own0[i].1[0].arrival_sequence,
            0 < newo.quantity <= own0[i].1[0].quantity,
            own_n == own0.update(i, (own0[i].0, own0[i].1.update(0, newo))),
        ensures
            side_wf(own_n, side, na0),
            crate::skiplist::keys_sorted(own_n),
            side_covered(own_n, side, m0),
            locs_sound(
                if side is Buy {
                    own_n
                } else {
                    other0
                },
                if side is Buy {
                    other0
                } else {
                    own_n
                },
                m0,
            ),
            side_order_count(own_n) == side_order_count(own0),
            own_n.len() == own0.len(),
            forall|j: int| 0 <= j < own0.len() ==> (#[trigger] own_n[j]).0 == own0[j].0,
    {
        let q = own0[i].1;
        let q2 = q.update(0, newo);
        assert(level_queue_wf((own0[i].0, q2), side, na0)) by {
            assert forall|k: int| 0 <= k < q2.len() implies level_order_ok(
                own0[i].0,
                side,
                #[trigger] q2[k],
            ) && q2[k].arrival_sequence < na0 by {
                if k > 0 {
                    assert(q2[k] == q[k]);
                }
            }
            assert forall|k1: int, k2: int|
                0 <= k1 < k2 < q2.len() implies q2[k1].arrival_sequence < q2[k2].arrival_sequence
                && q2[k1].order_id != q2[k2].order_id by {
                if k1 > 0 {
                    assert(q2[k1] == q[k1]);
                }
                assert(q2[k2] == q[k2]);
            }
        }
        lemma_update_level(own0, i, q2, side, na0);
        assert forall|i2: int, j2: int|
            0 <= i2 < own_n.len() && 0 <= j2 < own_n[i2].1.len() implies {
            let o = #[trigger] own_n[i2].1[j2];
            m0.contains_key(o.order_id) && m0[o.order_id] == OrderLocation {
                side,
                price: own_n[i2].0,
            }
        } by {
            if i2 != i {
                assert(own_n[i2] == own0[i2]);
            } else {
                assert(own_n[i2].1[j2].order_id == own0[i].1[j2].order_id);
            }
        }
        assert forall|id2: u64| #[trigger] m0.contains_key(id2) && m0[id2].side == side implies {
            contains_key(own_n, m0[id2].price) && queue_has_order(
                orders_at(own_n, m0[id2].price),
                id2,
            )
        } by {
            let l2 = m0[id2];
            let own_old = if side is Buy {
                own0
            } else {
                own0
            };
            let i3 = choose|i3: int| 0 <= i3 < own0.len() && (#[trigger] own0[i3]).0 == l2.price;
            crate::skiplist::lemma_orders_at_index(own0, i3, l2.price);
            let j3 = choose|j3: int|
                0 <= j3 < own0[i3].1.len() && (#[trigger] own0[i3].1[j3]).order_id == id2;
            crate::skiplist::lemma_orders_at_index(own_n, i3, l2.price);
            if i3 != i {
                assert(own_n[i3] == own0[i3]);
            } else {
                assert(own_n[i3].1[j3].order_id == id2);
            }
        }
        if side is Buy {
            assert forall|id2: u64| #[trigger] m0.contains_key(id2) implies {
                let l2 = m0[id2];
                if l2.side is Buy {
                    contains_key(own_n, l2.price) && queue_has_order(
                        orders_at(own_n, l2.price),
                        id2,
                    )
                } else {
                    contains_key(other0, l2.price) && queue_has_order(
                        orders_at(other0, l2.price),
                        id2,
                    )
                }
            } by {
                if m0[id2].side is Buy {
                    assert(m0[id2].side == side);
                }
            }
        } else {
            assert forall|id2: u64| #[trigger] m0.contains_key(id2) implies {
                let l2 = m0[id2];
                if l2.side is Buy {
                    contains_key(other0, l2.price) && queue_has_order(
                        orders_at(other0, l2.price),
                        id2,
                    )
                } else {
                    contains_key(own_n, l2.price) && queue_has_order(
                        orders_at(own_n, l2.price),
                        id2,
                    )
                }
            } by {
                if !(m0[id2].side is Buy) {
                    assert(m0[id2].side == side);
                }
            }
        }
    }

    /// Resting an order: appending a fresh-id order at the back of its own
    /// level (creating the level if absent) and registering it restores
    /// every book invariant.
    #[verifier::rlimit(100)]
    proof fn lemma_rest_restores(
        own0: LevelsView,
        other0: LevelsView,
        m0: Map<u64, OrderLocation>,
        side: Side,
        na0: u64,
        o: LimitOrder,
        existed: bool,
        i: int,
        own_n: LevelsView,
        mn: Map<u64, OrderLocation>,
    )
        requires
            side_wf(own0, side, na0),
            side_wf(other0, side.spec_opposite(), na0),
            crate::skiplist::keys_sorted(own0),
            side_covered(own0, side, m0),
            side_covered(other0, side.spec_opposite(), m0),
            locs_sound(
                if side is Buy {
                    own0
                } else {
                    other0
                },
                if side is Buy {
                    other0
                } else {
                    own0
                },
                m0,
            ),
            na0 < u64::MAX,
            !m0.contains_key(o.order_id),
            o.side == side,
            o.quantity > 0,
            o.arrival_sequence == na0,
            existed ==> 0 <= i < own0.len() && own0[i].0 == o.price && own_n == own0.update(
                i,
                (o.price, own0[i].1.push(o)),
            ),
            !existed ==> 0 <= i <= own0.len() && (forall|k: int|
                0 <= k < i ==> (#[trigger] own0[k]).0 < o.price) && (i < own0.len()
                ==> own0[i].0 > o.price) && own_n == own0.take(i) + seq![(o.price, seq![o])]
                + own0.skip(i),
            mn == m0.insert(o.order_id, OrderLocation { side, price: o.price }),
        ensures
            side_wf(own_n, side, (na0 + 1) as u64),
            side_wf(other0, side.spec_opposite(), (na0 + 1) as u64),
            crate::skiplist::keys_sorted(own_n),
            side_covered(own_n, side, mn),
            side_covered(other0, side.spec_opposite(), mn),
            locs_sound(
                if side is Buy {
                    own_n
                } else {
                    other0
                },
                if side is Buy {
                    other0
                } else {
                    own_n
                },
                mn,
            ),
            side_order_count(own_n) == side_order_count(own0) + 1,
            contains_key(own_n, o.price),
            orders_at(own_n, o.price).len() > 0,
            orders_at(own_n, o.price).last() == o,
            own_n.len() > 0,
            own_n[own_n.len() - 1].0 == (if own0.len() > 0 && own0[own0.len() - 1].0 > o.price {
                own0[own0.len() - 1].0
            } else {
                o.price
            }),
            own_n[0].0 == (if own0.len() > 0 && own0[0].0 < o.price {
                own0[0].0
            } else {
                o.price
            }),
    {
        let na1 = (na0 + 1) as u64;
        assert(na0 < na1);
        // arrival bounds relax monotonically
        assert forall|i2: int| 0 <= i2 < own0.len() implies level_queue_wf(
            #[trigger] own0[i2],
            side,
            na1,
        ) by {}
        assert forall|i2: int| 0 <= i2 < other0.len() implies level_queue_wf(
            #[trigger] other0[i2],
            side.spec_opposite(),
            na1,
        ) by {}
        // the grown or created level keeps the level shape
        let q = if existed {
            own0[i].1
        } else {
            Seq::<LimitOrder>::empty()
        };
        let q2 = q.push(o);
        assert(level_queue_wf((o.price, q2), side, na1)) by {
            if existed {
                assert(level_queue_wf(own0[i], side, na0));
            }
            assert forall|k: int| 0 <= k < q2.len() implies level_order_ok(
                o.price,
                side,
                #[trigger] q2[k],
            ) && q2[k].arrival_sequence < na1 by {
                if k < q.len() {
                    assert(q2[k] == q[k]);
                } else {
                    assert(q2[k] == o);
                }
            }
            assert forall|k1: int, k2: int|
                0 <= k1 < k2 < q2.len() implies q2[k1].arrival_sequence < q2[k2].arrival_sequence
                && q2[k1].order_id != q2[k2].order_id by {
                assert(q2[k1] == q[k1]);
                if k2 < q.len() {
                    assert(q2[k2] == q[k2]);
                } else {
                    assert(q2[k2] == o);
                    assert(q[k1].order_id != o.order_id) by {
                        if q[k1].order_id == o.order_id {
                            assert(m0.contains_key(o.order_id));
                        }
                    }
                }
            }
        }
        if existed {
            lemma_update_level(own0, i, q2, side, na1);
        } else {
            lemma_insert_level(own0, i, o.price, q2, side, na1);
        }
        // covered: the new order is registered; the others keep their entry
        assert forall|i2: int, j2: int|
            0 <= i2 < own_n.len() && 0 <= j2 < own_n[i2].1.len() implies {
            let ord = #[trigger] own_n[i2].1[j2];
            mn.contains_key(ord.order_id) && mn[ord.order_id] == OrderLocation {
                side,
                price: own_n[i2].0,
            }
        } by {
            let ord = own_n[i2].1[j2];
            if existed {
                if i2 != i {
                    assert(own_n[i2] == own0[i2]);
                    assert(ord.order_id != o.order_id) by {
                        if ord.order_id == o.order_id {
                            assert(m0.contains_key(o.order_id));
                        }
                    }
                } else {
                    if j2 < q.len() {
                        assert(ord == q[j2]);
                        assert(ord.order_id != o.order_id) by {
                            if ord.order_id == o.order_id {
                                assert(m0.contains_key(o.order_id));
                            }
                        }
                    } else {
                        assert(ord == o);
                    }
                }
            } else {
                if i2 < i {
                    assert(own_n[i2] == own0[i2]);
                    assert(ord.order_id != o.order_id) by {
                        if ord.order_id == o.order_id {
                            assert(m0.contains_key(o.order_id));
                        }
                    }
                } else if i2 > i {
                    assert(own_n[i2] == own0[i2 - 1]);
                    assert(ord.order_id != o.order_id) by {
                        if ord.order_id == o.order_id {
                            assert(m0.contains_key(o.order_id));
                        }
                    }
                } else {
                    assert(ord == o);
                }
            }
        }
        assert forall|i2: int, j2: int|
            0 <= i2 < other0.len() && 0 <= j2 < other0[i2].1.len() implies {
            let ord = #[trigger] other0[i2].1[j2];
            mn.contains_key(ord.order_id) && mn[ord.order_id] == OrderLocation {
                side: side.spec_opposite(),
                price: other0[i2].0,
            }
        } by {
            let ord = other0[i2].1[j2];
            assert(ord.order_id != o.order_id) by {
                if ord.order_id == o.order_id {
                    assert(m0.contains_key(o.order_id));
                }
            }
        }
        // sound: old registrations still point home; the new one points at o
        assert(contains_key(own_n, o.price)) by {
            if existed {
                assert(own_n[i].0 == o.price);
            } else {
                assert(own_n[i] == (o.price, q2));
            }
        }
        crate::skiplist::lemma_orders_at_index(own_n, i, o.price);
        assert(orders_at(own_n, o.price) == q2);
        assert(q2.last() == o);
        assert forall|id2: u64| #[trigger] mn.contains_key(id2) && mn[id2].side == side implies {
            contains_key(own_n, mn[id2].price) && queue_has_order(
                orders_at(own_n, mn[id2].price),
                id2,
            )
        } by {
            if id2 == o.order_id {
                assert(queue_has_order(q2, id2)) by {
                    assert(q2[q2.len() - 1].order_id == id2);
                }
            } else {
                let l2 = m0[id2];
                assert(mn[id2] == l2);
                let i3 = choose|i3: int|
                    0 <= i3 < own0.len() && (#[trigger] own0[i3]).0 == l2.price;
                crate::skiplist::lemma_orders_at_index(own0, i3, l2.price);
                let j3 = choose|j3: int|
                    0 <= j3 < own0[i3].1.len() && (#[trigger] own0[i3].1[j3]).order_id == id2;
                if existed {
                    crate::skiplist::lemma_orders_at_index(own_n, i3, l2.price);
                    if i3 != i {
                        assert(own_n[i3] == own0[i3]);
                    } else {
                        assert(own_n[i3].1[j3] == q[j3]);
                    }
                } else {
                    if i3 < i {
                        assert(own_n[i3] == own0[i3]);
                        crate::skiplist::lemma_orders_at_index(own_n, i3, l2.price);
                    } else {
                        assert(own_n[i3 + 1] == own0[i3]);
                        crate::skiplist::lemma_orders_at_index(own_n, i3 + 1, l2.price);
                    }
                }
            }
        }
        assert forall|id2: u64| #[trigger] mn.contains_key(id2) && mn[id2].side != side implies {
            contains_key(other0, mn[id2].price) && queue_has_order(
                orders_at(other0, mn[id2].price),
                id2,
            )
        } by {
            assert(id2 != o.order_id);
            assert(m0.contains_key(id2) && m0[id2] == mn[id2]);
        }
        if side is Buy {
            assert forall|id2: u64| #[trigger] mn.contains_key(id2) implies {
                let l2 = mn[id2];
                if l2.side is Buy {
                    contains_key(own_n, l2.price) && queue_has_order(
                        orders_at(own_n, l2.price),
                        id2,
                    )
                } else {
                    contains_key(other0, l2.price) && queue_has_order(
                        orders_at(other0, l2.price),
                        id2,
                    )
                }
            } by {
                if mn[id2].side is Buy {
                    assert(mn[id2].side == side);
                } else {
                    assert(mn[id2].side != side);
                }
            }
        } else {
            assert forall|id2: u64| #[trigger] mn.contains_key(id2) implies {
                let l2 = mn[id2];
                if l2.side is Buy {
                    contains_key(other0, l2.price) && queue_has_order(
                        orders_at(other0, l2.price),
                        id2,
                    )
                } else {
                    contains_key(own_n, l2.price) && queue_has_order(
                        orders_at(own_n, l2.price),
                        id2,
                    )
                }
            } by {
                if mn[id2].side is Buy {
                    assert(mn[id2].side != side);
                } else {
                    assert(mn[id2].side == side);
                }
            }
        }
        // boundary keys
        if existed {
            assert(own_n[own_n.len() - 1].0 == own0[own0.len() - 1].0);
            assert(own_n[0].0 == own0[0].0);
            if own0.len() > 0 {
                if i < own0.len() - 1 {
                    assert(own0[i].0 < own0[own0.len() - 1].0);
                }
                if i > 0 {
                    assert(own0[0].0 < own0[i].0);
                }
            }
        } else {
            if i == own0.len() {
                assert(own_n[own_n.len() - 1] == (o.price, q2));
                if own0.len() > 0 {
                    assert(own0[own0.len() - 1].0 < o.price);
                }
            } else {
                assert(own_n[own_n.len() - 1] == own0[own0.len() - 1]);
                assert(o.price < own0[i].0);
                assert(own0[i].0 <= own0[own0.len() - 1].0);
            }
            if i == 0 {
                assert(own_n[0] == (o.price, q2));
                if own0.len() > 0 {
                    assert(own0[0].0 > o.price);
                }
            } else {
                assert(own_n[0] == own0[0]);
                assert(own0[0].0 < o.price);
            }
        }
    }
}

impl LimitOrderBook {
    /// Admits an incoming order: validates it, crosses it against the
    /// contra side best-price-first and in arrival order within each level,
    /// and rests any Limit remainder at its own price. Failures change
    /// nothing.
    #[verifier::rlimit(100)]
    pub fn add_order(&mut self, req: OrderRequest) -> (r: Result<AddReport, OrderError>)
        requires
            old(self).wf(),
            old(self).can_admit(),
        ensures
            final(self).wf(),
            (r == Err::<AddReport, OrderError>(OrderError::InvalidQuantity)) <==> req.quantity == 0,
            (r == Err::<AddReport, OrderError>(OrderError::InvalidPrice)) <==> (req.quantity > 0
                && req.order_type is Limit && (req.price is None || req.price->Some_0 == 0)),
            (r == Err::<AddReport, OrderError>(OrderError::DuplicateOrderId)) <==> (req.quantity
                > 0 && (req.order_type is Limit ==> req.price is Some && req.price->Some_0 > 0)
                && old(self).locations_view().contains_key(req.order_id)),
            (r == Err::<AddReport, OrderError>(OrderError::UnfillableMarketOrder)) <==> (
            req.quantity > 0 && req.order_type is Market
                && !old(self).locations_view().contains_key(req.order_id)
                && contra_view(old(self), req.side).len() == 0),
            (r is Ok) <==> (req.quantity > 0 && (req.order_type is Limit ==> req.price is Some
                && req.price->Some_0 > 0) && !old(self).locations_view().contains_key(req.order_id)
                && (req.order_type is Market ==> contra_view(old(self), req.side).len() > 0)),
            r is Err ==> final(self).bids_view() == old(self).bids_view()
                && final(self).asks_view() == old(self).asks_view()
                && final(self).locations_view() == old(self).locations_view()
                && final(self).events() == old(self).events()
                && final(self).admissions() == old(self).admissions(),
            r matches Ok(rep) ==> ({
                let ts = rep.trades@;
                let sum = trades_qty(ts);
                let lp = req.price->Some_0;
                &&& final(self).admissions() == old(self).admissions() + 1
                &&& final(self).events() == old(self).events() + ts.len()
                &&& 0 <= sum <= req.quantity
                &&& forall|k: int|
                    0 <= k < ts.len() ==> {
                        let t = #[trigger] ts[k];
                        &&& t.aggressor_order_id == req.order_id
                        &&& 0 < t.quantity
                        &&& t.sequence == (old(self).events() + k) as u64
                        &&& (req.order_type is Limit ==> (if req.side is Buy {
                            t.price <= lp
                        } else {
                            t.price >= lp
                        }))
                    }
                &&& forall|k1: int, k2: int|
                    0 <= k1 < k2 < ts.len() ==> (if req.side is Buy {
                        ts[k1].price <= ts[k2].price
                    } else {
                        ts[k1].price >= ts[k2].price
                    })
                &&& ({
                    let cr = spec_cross(
                        contra_best_first(old(self), req.side),
                        req.quantity as int,
                        req.order_type is Market,
                        req.price->Some_0,
                        req.side,
                        req.order_id,
                        old(self).events(),
                    );
                    &&& ts == cr.1
                    &&& contra_best_first(final(self), req.side) == cr.0
                    &&& cr.2 == req.quantity - sum
                })
                &&& (rep.outcome == OrderOutcome::FullyFilled <==> sum == req.quantity)
                &&& (rep.outcome == OrderOutcome::Rested ==> req.order_type is Limit && sum
                    < req.quantity && final(self).locations_view().contains_key(req.order_id)
                    && contains_key(own_view(final(self), req.side), lp) && orders_at(
                    own_view(final(self), req.side),
                    lp,
                ).len() > 0 && orders_at(own_view(final(self), req.side), lp).last()
                    == (LimitOrder {
                    order_id: req.order_id,
                    side: req.side,
                    price: lp,
                    quantity: (req.quantity - sum) as u64,
                    arrival_sequence: old(self).admissions() as u64,
                }))
                &&& (rep.outcome == OrderOutcome::Discarded ==> req.order_type is Market && sum
                    < req.quantity && contra_view(final(self), req.side).len() == 0)
                &&& (rep.outcome != OrderOutcome::Rested ==> own_view(final(self), req.side)
                    == own_view(old(self), req.side)
                    && !final(self).locations_view().contains_key(req.order_id))
            }),
    {
        if req.quantity == 0 {
            return Err(OrderError::InvalidQuantity);
        }
        let is_limit = match req.order_type {
            OrderType::Limit => true,
            OrderType::Market => false,
        };
        let lp = match req.price {
            Some(p) => p,
            None => 0,
        };
        if is_limit && lp == 0 {
            return Err(OrderError::InvalidPrice);
        }
        if self.locations.contains_key(&req.order_id) {
            return Err(OrderError::DuplicateOrderId);
        }
        let contra_empty = match req.side {
            Side::Buy => self.asks.len() == 0,
            Side::Sell => self.bids.len() == 0,
        };
        if !is_limit && contra_empty {
            return Err(OrderError::UnfillableMarketOrder);
        }
        let arrival = self.next_arrival;
        self.next_arrival = self.next_arrival + 1;
        let ghost seq_base = self.next_sequence;
        let ghost b0 = self.bids@;
        let ghost a0 = self.asks@;
        let mut rem = req.quantity;
        let mut trades: Vec<Trade> = Vec::new();
        let ghost glp = req.price->Some_0;
        let ghost c0all = if req.side is Buy {
            a0
        } else {
            rev_levels(b0)
        };
        let ghost fullg = spec_cross(
            c0all,
            req.quantity as int,
            !is_limit,
            glp,
            req.side,
            req.order_id,
            seq_base as int,
        );
        proof {
            lemma_side_count_nonneg(self.bids@);
            lemma_side_count_nonneg(self.asks@);
            assert(trades@ + fullg.1 =~= fullg.1);
        }
        match req.side {
            Side::Buy => {
                let mut go = true;
                while go
                    invariant
                        self.bids.wf(),
                        self.asks.wf(),
                        self.bids@ == b0,
                        side_wf(self.bids@, Side::Buy, arrival),
                        side_wf(self.asks@, Side::Sell, arrival),
                        uncrossed(self.bids@, self.asks@),
                        side_covered(self.bids@, Side::Buy, self.locations@),
                        side_covered(self.asks@, Side::Sell, self.locations@),
                        locs_sound(self.bids@, self.asks@, self.locations@),
                        !self.locations@.contains_key(req.order_id),
                        self.next_arrival == arrival + 1,
                        1 <= arrival < 0x4000_0000_0000_0000,
                        self.next_sequence == seq_base + trades@.len(),
                        self.next_sequence as int + side_order_count(self.bids@)
                            + side_order_count(self.asks@) <= 2 * (arrival as int) + (if rem > 0 {
                            0int
                        } else {
                            1int
                        }),
                        side_order_count(self.bids@) >= 0,
                        side_order_count(self.asks@) >= 0,
                        rem <= req.quantity,
                        req.quantity > 0,
                        trades_qty(trades@) == req.quantity - rem,
                        is_limit ==> glp == lp && lp > 0,
                        req.side is Buy,
                        is_limit == (req.order_type is Limit),
                        glp == req.price->Some_0,
                        c0all == a0,
                        fullg == spec_cross(
                            c0all,
                            req.quantity as int,
                            !is_limit,
                            glp,
                            req.side,
                            req.order_id,
                            seq_base as int,
                        ),
                        ({
                            let sub = spec_cross(
                                self.asks@,
                                rem as int,
                                !is_limit,
                                glp,
                                req.side,
                                req.order_id,
                                self.next_sequence as int,
                            );
                            fullg.0 == sub.0 && fullg.1 == trades@ + sub.1 && fullg.2 == sub.2
                        }),
                        forall|k: int|
                            0 <= k < trades@.len() ==> {
                                let t = #[trigger] trades@[k];
                                t.aggressor_order_id == req.order_id && 0 < t.quantity
                                    && t.sequence == (seq_base + k) as u64 && (is_limit
                                    ==> t.price <= lp)
                            },
                        forall|k1: int, k2: int|
                            0 <= k1 < k2 < trades@.len() ==> trades@[k1].price <= trades@[k2].price,
                        self.asks@.len() > 0 ==> forall|k: int|
                            0 <= k < trades@.len() ==> (#[trigger] trades@[k]).price <= self.asks@[0].0,
                        !go ==> (rem == 0 || self.asks@.len() == 0 || (is_limit && lp < self.asks@[0].0)),
                    decreases rem, (if go { 1int } else { 0int }),
                {
                    if rem == 0 {
                        go = false;
                    } else {
                        let best = self.asks.min();
                        match best {
                            None => {
                                go = false;
                            },
                            Some(bp) => {
                                if is_limit && lp < bp {
                                    go = false;
                                } else {
                                    let ghost a_pre = self.asks@;
                                    let ghost m_pre = self.locations@;
                                    let ghost tr_pre = trades@;
                                    let ghost rem_pre = rem;
                                    let ghost seq_pre = self.next_sequence;
                                    let ghost bi = 0int;
                                    proof {
                                        self.asks.lemma_view_sorted();
                                        self.bids.lemma_view_sorted();
                                        assert(a_pre[bi].0 == bp);
                                        assert(contains_key(a_pre, bp));
                                        crate::skiplist::lemma_orders_at_index(a_pre, bi, bp);
                                        lemma_side_count_split(a_pre, bi);
                                    }
                                    let lvl_opt = self.asks.delete(bp);
                                    let mut lvl = match lvl_opt {
                                        Some(l) => l,
                                        None => {
                                            proof {
                                                assert(false);
                                            }
                                            PriceLevel::new(bp)
                                        },
                                    };
                                    let ghost q = a_pre[bi].1;
                                    let ghost a1 = self.asks@;
                                    proof {
                                        crate::skiplist::lemma_spec_remove_at(a_pre, bp, bi);
                                        assert(a1 =~= a_pre.skip(1));
                                        assert(level_queue_wf(a_pre[bi], Side::Sell, arrival));
                                        assert(q.len() > 0);
                                        assert(lvl@ == q && lvl.price == bp);
                                    }
                                    let o1 = lvl.orders[0];
                                    proof {
                                        assert(o1 == q[0]);
                                        assert(o1.quantity > 0 && o1.price == bp);
                                        assert(m_pre.contains_key(o1.order_id) && m_pre[o1.order_id]
                                            == OrderLocation { side: Side::Sell, price: bp });
                                    }
                                    let tq = if o1.quantity <= rem {
                                        o1.quantity
                                    } else {
                                        rem
                                    };
                                    let t = Trade {
                                        price: bp,
                                        quantity: tq,
                                        aggressor_order_id: req.order_id,
                                        resting_order_id: o1.order_id,
                                        sequence: self.next_sequence,
                                    };
                                    trades.push(t);
                                    self.next_sequence = self.next_sequence + 1;
                                    proof {
                                        assert(trades@ =~= tr_pre + seq![t]);
                                        lemma_trades_qty_concat(tr_pre, seq![t]);
                                        assert(trades_qty(seq![t]) == t.quantity + trades_qty(
                                            seq![t].skip(1),
                                        ));
                                        assert(seq![t].skip(1) =~= Seq::<Trade>::empty());
                                    }
                                    if o1.quantity <= rem {
                                        let popped = lvl.pop_front();
                                        rem = rem - o1.quantity;
                                        let emptied = lvl.is_empty();
                                        proof {
                                            assert(lvl@ =~= q.remove(0));
                                        }
                                        if !emptied {
                                            proof {
                                                lemma_remove_level(a_pre, bi, Side::Sell, arrival);
                                                assert(!contains_key(a1, bp));
                                                assert(level_queue_wf(
                                                    (bp, q.remove(0)),
                                                    Side::Sell,
                                                    arrival,
                                                )) by {
                                                    let q2 = q.remove(0);
                                                    assert(forall|k: int|
                                                        0 <= k < q2.len() ==> #[trigger] q2[k] == q[
                                                        k + 1]);
                                                }
                                            }
                                            let ir = self.asks.insert(lvl);
                                            proof {
                                                assert(ir is Ok);
                                                crate::skiplist::lemma_sorted_skip(a_pre);
                                                crate::skiplist::lemma_spec_insert_at(a1, bp, q.remove(0), 0);
                                                assert(self.asks@ =~= a_pre.update(
                                                    bi,
                                                    (bp, q.remove(0)),
                                                ));
                                            }
                                        }
                                        let rid = o1.order_id;
                                        self.locations.remove(&rid);
                                        proof {
                                            assert(self.locations@ =~= m_pre.remove(o1.order_id));
                                            if q.len() == 1 {
                                                assert(lvl@ == q.remove(0) && q.remove(0).len()
                                                    == 0);
                                                assert(a_pre[bi].1.len() == 1);
                                            }
                                            assert(self.asks@ == (if a_pre[bi].1.len() == 1 {
                                                a_pre.take(bi) + a_pre.skip(bi + 1)
                                            } else {
                                                a_pre.update(bi, (a_pre[bi].0, a_pre[bi].1.remove(0)))
                                            })) by {
                                                if a_pre[bi].1.len() == 1 {
                                                    assert(self.asks@ =~= a_pre.take(bi) + a_pre.skip(bi + 1));
                                                } else {
                                                    assert(self.asks@ =~= a_pre.update(bi, (a_pre[bi].0, q.remove(0))));
                                                }
                                            }
                                            Self::lemma_cancel_restores(
                                                a_pre,
                                                b0,
                                                m_pre,
                                                Side::Sell,
                                                arrival,
                                                bp,
                                                o1.order_id,
                                                bi,
                                                0,
                                                self.asks@,
                                                self.locations@,
                                            );
                                            lemma_side_count_nonneg(self.bids@);
                                            lemma_side_count_nonneg(self.asks@);
                                            assert(uncrossed(self.bids@, self.asks@)) by {
                                                if self.bids@.len() > 0 && self.asks@.len() > 0 {
                                                    assert(self.asks@[0].0 >= a_pre[0].0);
                                                }
                                            };
                                            // the crossing fold advances by this one trade
                                            assert(crosses_spec(req.side, !is_limit, glp, bp));
                                            assert(q.remove(0) =~= q.skip(1));
                                            assert(forall|j: int|
                                                0 <= j < q.len() ==> (#[trigger] q[j]).quantity
                                                    > 0);
                                            lemma_cross_step_full(
                                                a_pre,
                                                rem_pre as int,
                                                !is_limit,
                                                glp,
                                                req.side,
                                                req.order_id,
                                                seq_pre as int,
                                            );
                                            let subp = spec_cross(
                                                a_pre,
                                                rem_pre as int,
                                                !is_limit,
                                                glp,
                                                req.side,
                                                req.order_id,
                                                seq_pre as int,
                                            );
                                            let subn = spec_cross(
                                                self.asks@,
                                                rem as int,
                                                !is_limit,
                                                glp,
                                                req.side,
                                                req.order_id,
                                                self.next_sequence as int,
                                            );
                                            assert(self.asks@ == (if q.len() == 1 {
                                                a_pre.skip(1)
                                            } else {
                                                a_pre.update(0, (a_pre[0].0, q.skip(1)))
                                            })) by {
                                                if q.len() == 1 {
                                                    assert(self.asks@ =~= a_pre.skip(1));
                                                } else {
                                                    assert(a_pre.update(
                                                        0,
                                                        (a_pre[0].0, q.remove(0)),
                                                    ) =~= a_pre.update(
                                                        0,
                                                        (a_pre[0].0, q.skip(1)),
                                                    ));
                                                }
                                            }
                                            assert(t.price == q[0].price);
                                            assert(subp == (subn.0, seq![t] + subn.1, subn.2));
                                            assert(fullg.1 == trades@ + subn.1) by {
                                                assert(fullg.1 == tr_pre + subp.1);
                                                assert(tr_pre + (seq![t] + subn.1) =~= (tr_pre
                                                    + seq![t]) + subn.1);
                                                assert(trades@ == tr_pre + seq![t]);
                                            }
                                            assert(fullg.0 == subn.0 && fullg.2 == subn.2);
                                        }
                                    } else {
                                        let newo = LimitOrder {
                                            order_id: o1.order_id,
                                            side: o1.side,
                                            price: o1.price,
                                            quantity: o1.quantity - rem,
                                            arrival_sequence: o1.arrival_sequence,
                                        };
                                        lvl.orders[0] = newo;
                                        rem = 0;
                                        proof {
                                            lemma_remove_level(a_pre, bi, Side::Sell, arrival);
                                            assert(!contains_key(a1, bp));
                                            assert(lvl@ =~= q.update(0, newo));
                                            assert(level_queue_wf(
                                                (bp, q.update(0, newo)),
                                                Side::Sell,
                                                arrival,
                                            )) by {
                                                let q2 = q.update(0, newo);
                                                assert(forall|k: int|
                                                    1 <= k < q2.len() ==> #[trigger] q2[k] == q[k]);
                                            }
                                        }
                                        let ir = self.asks.insert(lvl);
                                        proof {
                                            assert(ir is Ok);
                                            crate::skiplist::lemma_sorted_skip(a_pre);
                                                crate::skiplist::lemma_spec_insert_at(a1, bp, q.update(0, newo), 0);
                                            assert(self.asks@ =~= a_pre.update(
                                                bi,
                                                (bp, q.update(0, newo)),
                                            ));
                                            Self::lemma_reduce_front_restores(
                                                a_pre,
                                                b0,
                                                m_pre,
                                                Side::Sell,
                                                arrival,
                                                bi,
                                                newo,
                                                self.asks@,
                                            );
                                            lemma_side_count_nonneg(self.bids@);
                                            lemma_side_count_nonneg(self.asks@);
                                            assert(uncrossed(self.bids@, self.asks@)) by {
                                                if self.bids@.len() > 0 && self.asks@.len() > 0 {
                                                    assert(self.asks@[0].0 == a_pre[0].0);
                                                }
                                            };
                                            // the crossing fold ends with this partial trade
                                            assert(crosses_spec(req.side, !is_limit, glp, bp));
                                            lemma_cross_step_partial(
                                                a_pre,
                                                rem_pre as int,
                                                !is_limit,
                                                glp,
                                                req.side,
                                                req.order_id,
                                                seq_pre as int,
                                            );
                                            let subp = spec_cross(
                                                a_pre,
                                                rem_pre as int,
                                                !is_limit,
                                                glp,
                                                req.side,
                                                req.order_id,
                                                seq_pre as int,
                                            );
                                            let subn = spec_cross(
                                                self.asks@,
                                                rem as int,
                                                !is_limit,
                                                glp,
                                                req.side,
                                                req.order_id,
                                                self.next_sequence as int,
                                            );
                                            assert(t.price == q[0].price && t.quantity == rem_pre);
                                            assert(subp == (self.asks@, seq![t], 0int));
                                            assert(subn == (
                                                self.asks@,
                                                Seq::<Trade>::empty(),
                                                0int,
                                            ));
                                            assert(fullg.1 == trades@ + subn.1) by {
                                                assert(fullg.1 == tr_pre + subp.1);
                                                assert(tr_pre + seq![t] =~= trades@);
                                                assert(trades@ + Seq::<Trade>::empty()
                                                    =~= trades@);
                                            }
                                            assert(fullg.0 == subn.0 && fullg.2 == subn.2);
                                        }
                                    }
                                }
                            },
                        }
                    }
                }
                proof {
                    let cnow = self.asks@;
                    let subx = spec_cross(
                        cnow,
                        rem as int,
                        !is_limit,
                        glp,
                        req.side,
                        req.order_id,
                        self.next_sequence as int,
                    );
                    assert(subx == (cnow, Seq::<Trade>::empty(), rem as int)) by {
                        if rem > 0 && cnow.len() > 0 {
                            assert(is_limit && lp < cnow[0].0);
                            assert(!crosses_spec(req.side, !is_limit, glp, cnow[0].0));
                        }
                    }
                    assert(trades@ + subx.1 =~= trades@);
                    assert(fullg.0 == cnow && fullg.1 == trades@ && fullg.2 == rem as int);
                }
            },
            Side::Sell => {
                let mut go = true;
                while go
                    invariant
                        self.bids.wf(),
                        self.asks.wf(),
                        self.asks@ == a0,
                        side_wf(self.bids@, Side::Buy, arrival),
                        side_wf(self.asks@, Side::Sell, arrival),
                        uncrossed(self.bids@, self.asks@),
                        side_covered(self.bids@, Side::Buy, self.locations@),
                        side_covered(self.asks@, Side::Sell, self.locations@),
                        locs_sound(self.bids@, self.asks@, self.locations@),
                        !self.locations@.contains_key(req.order_id),
                        self.next_arrival == arrival + 1,
                        1 <= arrival < 0x4000_0000_0000_0000,
                        self.next_sequence == seq_base + trades@.len(),
                        self.next_sequence as int + side_order_count(self.bids@)
                            + side_order_count(self.asks@) <= 2 * (arrival as int) + (if rem > 0 {
                            0int
                        } else {
                            1int
                        }),
                        side_order_count(self.bids@) >= 0,
                        side_order_count(self.asks@) >= 0,
                        rem <= req.quantity,
                        req.quantity > 0,
                        trades_qty(trades@) == req.quantity - rem,
                        is_limit ==> glp == lp && lp > 0,
                        req.side is Sell,
                        is_limit == (req.order_type is Limit),
                        glp == req.price->Some_0,
                        c0all == rev_levels(b0),
                        fullg == spec_cross(
                            c0all,
                            req.quantity as int,
                            !is_limit,
                            glp,
                            req.side,
                            req.order_id,
                            seq_base as int,
                        ),
                        ({
                            let sub = spec_cross(
                                rev_levels(self.bids@),
                                rem as int,
                                !is_limit,
                                glp,
                                req.side,
                                req.order_id,
                                self.next_sequence as int,
                            );
                            fullg.0 == sub.0 && fullg.1 == trades@ + sub.1 && fullg.2 == sub.2
                        }),
                        forall|k: int|
                            0 <= k < trades@.len() ==> {
                                let t = #[trigger] trades@[k];
                                t.aggressor_order_id == req.order_id && 0 < t.quantity
                                    && t.sequence == (seq_base + k) as u64 && (is_limit
                                    ==> t.price >= lp)
                            },
                        forall|k1: int, k2: int|
                            0 <= k1 < k2 < trades@.len() ==> trades@[k1].price >= trades@[k2].price,
                        self.bids@.len() > 0 ==> forall|k: int|
                            0 <= k < trades@.len() ==> (#[trigger] trades@[k]).price >= self.bids@[self.bids@.len() - 1].0,
                        !go ==> (rem == 0 || self.bids@.len() == 0 || (is_limit && lp > self.bids@[self.bids@.len() - 1].0)),
                    decreases rem, (if go { 1int } else { 0int }),
                {
                    if rem == 0 {
                        go = false;
                    } else {
                        let best = self.bids.max();
                        match best {
                            None => {
                                go = false;
                            },
                            Some(bp) => {
                                if is_limit && lp > bp {
                                    go = false;
                                } else {
                                    let ghost a_pre = self.bids@;
                                    let ghost m_pre = self.locations@;
                                    let ghost tr_pre = trades@;
                                    let ghost rem_pre = rem;
                                    let ghost seq_pre = self.next_sequence;
                                    let ghost bi = a_pre.len() - 1;
                                    proof {
                                        self.bids.lemma_view_sorted();
                                        self.asks.lemma_view_sorted();
                                        assert(a_pre[bi].0 == bp);
                                        assert(contains_key(a_pre, bp));
                                        crate::skiplist::lemma_orders_at_index(a_pre, bi, bp);
                                        lemma_side_count_split(a_pre, bi);
                                    }
                                    let lvl_opt = self.bids.delete(bp);
                                    let mut lvl = match lvl_opt {
                                        Some(l) => l,
                                        None => {
                                            proof {
                                                assert(false);
                                            }
                                            PriceLevel::new(bp)
                                        },
                                    };
                                    let ghost q = a_pre[bi].1;
                                    let ghost a1 = self.bids@;
                                    proof {
                                        lemma_spec_remove_last(a_pre);
                                        assert(a1 =~= a_pre.take(a_pre.len() - 1));
                                        assert(level_queue_wf(a_pre[bi], Side::Buy, arrival));
                                        assert(q.len() > 0);
                                        assert(lvl@ == q && lvl.price == bp);
                                    }
                                    let o1 = lvl.orders[0];
                                    proof {
                                        assert(o1 == q[0]);
                                        assert(o1.quantity > 0 && o1.price == bp);
                                        assert(m_pre.contains_key(o1.order_id) && m_pre[o1.order_id]
                                            == OrderLocation { side: Side::Buy, price: bp });
                                    }
                                    let tq = if o1.quantity <= rem {
                                        o1.quantity
                                    } else {
                                        rem
                                    };
                                    let t = Trade {
                                        price: bp,
                                        quantity: tq,
                                        aggressor_order_id: req.order_id,
                                        resting_order_id: o1.order_id,
                                        sequence: self.next_sequence,
                                    };
                                    trades.push(t);
                                    self.next_sequence = self.next_sequence + 1;
                                    proof {
                                        assert(trades@ =~= tr_pre + seq![t]);
                                        lemma_trades_qty_concat(tr_pre, seq![t]);
                                        assert(trades_qty(seq![t]) == t.quantity + trades_qty(
                                            seq![t].skip(1),
                                        ));
                                        assert(seq![t].skip(1) =~= Seq::<Trade>::empty());
                                    }
                                    if o1.quantity <= rem {
                                        let popped = lvl.pop_front();
                                        rem = rem - o1.quantity;
                                        let emptied = lvl.is_empty();
                                        proof {
                                            assert(lvl@ =~= q.remove(0));
                                        }
                                        if !emptied {
                                            proof {
                                                lemma_remove_level(a_pre, bi, Side::Buy, arrival);
                                                assert(!contains_key(a1, bp));
                                                assert(level_queue_wf(
                                                    (bp, q.remove(0)),
                                                    Side::Buy,
                                                    arrival,
                                                )) by {
                                                    let q2 = q.remove(0);
                                                    assert(forall|k: int|
                                                        0 <= k < q2.len() ==> #[trigger] q2[k] == q[
                                                        k + 1]);
                                                }
                                            }
                                            let ir = self.bids.insert(lvl);
                                            proof {
                                                assert(ir is Ok);
                                                lemma_spec_insert_back(a1, bp, q.remove(0));
                                                assert(self.bids@ =~= a_pre.update(
                                                    bi,
                                                    (bp, q.remove(0)),
                                                ));
                                            }
                                        }
                                        let rid = o1.order_id;
                                        self.locations.remove(&rid);
                                        proof {
                                            assert(self.locations@ =~= m_pre.remove(o1.order_id));
                                            if q.len() == 1 {
                                                assert(lvl@ == q.remove(0) && q.remove(0).len()
                                                    == 0);
                                                assert(a_pre[bi].1.len() == 1);
                                            }
                                            assert(self.bids@ == (if a_pre[bi].1.len() == 1 {
                                                a_pre.take(bi) + a_pre.skip(bi + 1)
                                            } else {
                                                a_pre.update(bi, (a_pre[bi].0, a_pre[bi].1.remove(0)))
                                            })) by {
                                                if a_pre[bi].1.len() == 1 {
                                                    assert(self.bids@ =~= a_pre.take(bi) + a_pre.skip(bi + 1));
                                                } else {
                                                    assert(self.bids@ =~= a_pre.update(bi, (a_pre[bi].0, q.remove(0))));
                                                }
                                            }
                                            Self::lemma_cancel_restores(
                                                a_pre,
                                                a0,
                                                m_pre,
                                                Side::Buy,
                                                arrival,
                                                bp,
                                                o1.order_id,
                                                bi,
                                                0,
                                                self.bids@,
                                                self.locations@,
                                            );
                                            lemma_side_count_nonneg(self.bids@);
                                            lemma_side_count_nonneg(self.asks@);
                                            assert(uncrossed(self.bids@, self.asks@)) by {
                                                if self.bids@.len() > 0 && self.asks@.len() > 0 {
                                                    assert(self.bids@[self.bids@.len() - 1].0 <= a_pre[a_pre.len() - 1].0);
                                                }
                                            };
                                            // the crossing fold advances by this one trade
                                            assert(crosses_spec(req.side, !is_limit, glp, bp));
                                            let cpre = rev_levels(a_pre);
                                            let cnew = rev_levels(self.bids@);
                                            assert(cpre.len() == a_pre.len() && cpre[0]
                                                == a_pre[bi]);
                                            assert(q.remove(0) =~= q.skip(1));
                                            assert(forall|j: int|
                                                0 <= j < q.len() ==> (#[trigger] q[j]).quantity
                                                    > 0);
                                            assert(cnew == (if q.len() == 1 {
                                                cpre.skip(1)
                                            } else {
                                                cpre.update(0, (cpre[0].0, q.skip(1)))
                                            })) by {
                                                if q.len() == 1 {
                                                    assert forall|i2: int|
                                                        0 <= i2 < cnew.len() implies cnew[i2]
                                                        == cpre.skip(1)[i2] by {
                                                        assert(cnew[i2] == self.bids@[
                                                            self.bids@.len() - 1 - i2]);
                                                        assert(cpre.skip(1)[i2] == a_pre[
                                                            a_pre.len() - 1 - (i2 + 1)]);
                                                    }
                                                    assert(cnew =~= cpre.skip(1));
                                                } else {
                                                    let tgt = cpre.update(
                                                        0,
                                                        (cpre[0].0, q.skip(1)),
                                                    );
                                                    assert forall|i2: int|
                                                        0 <= i2 < cnew.len() implies cnew[i2]
                                                        == tgt[i2] by {
                                                        assert(cnew[i2] == self.bids@[
                                                            self.bids@.len() - 1 - i2]);
                                                        if i2 > 0 {
                                                            assert(self.bids@[self.bids@.len() - 1
                                                                - i2] == a_pre[a_pre.len() - 1
                                                                - i2]);
                                                        }
                                                    }
                                                    assert(cnew =~= tgt);
                                                }
                                            }
                                            lemma_cross_step_full(
                                                cpre,
                                                rem_pre as int,
                                                !is_limit,
                                                glp,
                                                req.side,
                                                req.order_id,
                                                seq_pre as int,
                                            );
                                            let subp = spec_cross(
                                                cpre,
                                                rem_pre as int,
                                                !is_limit,
                                                glp,
                                                req.side,
                                                req.order_id,
                                                seq_pre as int,
                                            );
                                            let subn = spec_cross(
                                                cnew,
                                                rem as int,
                                                !is_limit,
                                                glp,
                                                req.side,
                                                req.order_id,
                                                self.next_sequence as int,
                                            );
                                            assert(t.price == q[0].price);
                                            assert(subp == (subn.0, seq![t] + subn.1, subn.2));
                                            assert(fullg.1 == trades@ + subn.1) by {
                                                assert(fullg.1 == tr_pre + subp.1);
                                                assert(tr_pre + (seq![t] + subn.1) =~= (tr_pre
                                                    + seq![t]) + subn.1);
                                                assert(trades@ == tr_pre + seq![t]);
                                            }
                                            assert(fullg.0 == subn.0 && fullg.2 == subn.2);
                                        }
                                    } else {
                                        let newo = LimitOrder {
                                            order_id: o1.order_id,
                                            side: o1.side,
                                            price: o1.price,
                                            quantity: o1.quantity - rem,
                                            arrival_sequence: o1.arrival_sequence,
                                        };
                                        lvl.orders[0] = newo;
                                        rem = 0;
                                        proof {
                                            lemma_remove_level(a_pre, bi, Side::Buy, arrival);
                                            assert(!contains_key(a1, bp));
                                            assert(lvl@ =~= q.update(0, newo));
                                            assert(level_queue_wf(
                                                (bp, q.update(0, newo)),
                                                Side::Buy,
                                                arrival,
                                            )) by {
                                                let q2 = q.update(0, newo);
                                                assert(forall|k: int|
                                                    1 <= k < q2.len() ==> #[trigger] q2[k] == q[k]);
                                            }
                                        }
                                        let ir = self.bids.insert(lvl);
                                        proof {
                                            assert(ir is Ok);
                                            lemma_spec_insert_back(a1, bp, q.update(0, newo));
                                            assert(self.bids@ =~= a_pre.update(
                                                bi,
                                                (bp, q.update(0, newo)),
                                            ));
                                            Self::lemma_reduce_front_restores(
                                                a_pre,
                                                a0,
                                                m_pre,
                                                Side::Buy,
                                                arrival,
                                                bi,
                                                newo,
                                                self.bids@,
                                            );
                                            lemma_side_count_nonneg(self.bids@);
                                            lemma_side_count_nonneg(self.asks@);
                                            assert(uncrossed(self.bids@, self.asks@)) by {
                                                if self.bids@.len() > 0 && self.asks@.len() > 0 {
                                                    assert(self.bids@[self.bids@.len() - 1].0 == a_pre[a_pre.len() - 1].0);
                                                }
                                            };
                                            // the crossing fold ends with this partial trade
                                            assert(crosses_spec(req.side, !is_limit, glp, bp));
                                            let cpre = rev_levels(a_pre);
                                            let cnew = rev_levels(self.bids@);
                                            assert(cpre.len() == a_pre.len() && cpre[0]
                                                == a_pre[bi]);
                                            assert(cnew == cpre.update(
                                                0,
                                                (cpre[0].0, q.update(0, newo)),
                                            )) by {
                                                let tgt = cpre.update(
                                                    0,
                                                    (cpre[0].0, q.update(0, newo)),
                                                );
                                                assert forall|i2: int|
                                                    0 <= i2 < cnew.len() implies cnew[i2]
                                                    == tgt[i2] by {
                                                    assert(cnew[i2] == self.bids@[self.bids@.len()
                                                        - 1 - i2]);
                                                    if i2 > 0 {
                                                        assert(self.bids@[self.bids@.len() - 1
                                                            - i2] == a_pre[a_pre.len() - 1 - i2]);
                                                    }
                                                }
                                                assert(cnew =~= tgt);
                                            }
                                            lemma_cross_step_partial(
                                                cpre,
                                                rem_pre as int,
                                                !is_limit,
                                                glp,
                                                req.side,
                                                req.order_id,
                                                seq_pre as int,
                                            );
                                            let subp = spec_cross(
                                                cpre,
                                                rem_pre as int,
                                                !is_limit,
                                                glp,
                                                req.side,
                                                req.order_id,
                                                seq_pre as int,
                                            );
                                            let subn = spec_cross(
                                                cnew,
                                                rem as int,
                                                !is_limit,
                                                glp,
                                                req.side,
                                                req.order_id,
                                                self.next_sequence as int,
                                            );
                                            assert(t.price == q[0].price && t.quantity == rem_pre);
                                            assert(subp == (cnew, seq![t], 0int));
                                            assert(subn == (cnew, Seq::<Trade>::empty(), 0int));
                                            assert(fullg.1 == trades@ + subn.1) by {
                                                assert(fullg.1 == tr_pre + subp.1);
                                                assert(tr_pre + seq![t] =~= trades@);
                                                assert(trades@ + Seq::<Trade>::empty()
                                                    =~= trades@);
                                            }
                                            assert(fullg.0 == subn.0 && fullg.2 == subn.2);
                                        }
                                    }
                                }
                            },
                        }
                    }
                }
                proof {
                    let cnow = rev_levels(self.bids@);
                    let subx = spec_cross(
                        cnow,
                        rem as int,
                        !is_limit,
                        glp,
                        req.side,
                        req.order_id,
                        self.next_sequence as int,
                    );
                    assert(subx == (cnow, Seq::<Trade>::empty(), rem as int)) by {
                        if rem > 0 && cnow.len() > 0 {
                            assert(cnow[0].0 == self.bids@[self.bids@.len() - 1].0);
                            assert(is_limit && lp > self.bids@[self.bids@.len() - 1].0);
                            assert(!crosses_spec(req.side, !is_limit, glp, cnow[0].0));
                        }
                    }
                    assert(trades@ + subx.1 =~= trades@);
                    assert(fullg.0 == cnow && fullg.1 == trades@ && fullg.2 == rem as int);
                }
            },
        }
        let outcome: OrderOutcome;
        if rem == 0 {
            outcome = OrderOutcome::FullyFilled;
            proof {
                assert(self.wf());
            }
        } else if is_limit {
            outcome = OrderOutcome::Rested;
            match req.side {
                Side::Buy => {
            let ghost b_pre = self.bids@;
            let ghost m_pre2 = self.locations@;
            let ghost oth = self.asks@;
            proof {
                self.bids.lemma_view_sorted();
            }
            let o = LimitOrder {
                order_id: req.order_id,
                side: req.side,
                price: lp,
                quantity: rem,
                arrival_sequence: arrival,
            };
            let lvl_opt = self.bids.delete(lp);
            let (mut lvl, existed) = match lvl_opt {
                Some(l) => (l, true),
                None => (PriceLevel::new(lp), false),
            };
            let ghost i = if existed {
                choose|i2: int| 0 <= i2 < b_pre.len() && (#[trigger] b_pre[i2]).0 == lp
            } else {
                lemma_find_position(b_pre, lp)
            };
            proof {
                if existed {
                    assert(contains_key(b_pre, lp));
                    crate::skiplist::lemma_orders_at_index(b_pre, i, lp);
                    crate::skiplist::lemma_spec_remove_at(b_pre, lp, i);
                    lemma_remove_level(b_pre, i, Side::Buy, arrival);
                    assert(lvl@ == b_pre[i].1 && lvl.price == lp);
                } else {
                    assert(self.bids@ == b_pre);
                }
            }
            let ghost b1 = self.bids@;
            let ghost q3 = lvl@;
            lvl.push_back(o);
            let ir = self.bids.insert(lvl);
            proof {
                assert(ir is Ok);
                if existed {
                    assert(b1 =~= b_pre.take(i) + b_pre.skip(i + 1));
                    crate::skiplist::lemma_spec_insert_at(b1, lp, q3.push(o), i);
                    assert(self.bids@ =~= b_pre.update(i, (lp, b_pre[i].1.push(o))));
                } else {
                    assert(q3 =~= Seq::<LimitOrder>::empty());
                    assert(!contains_key(b_pre, lp)) by {
                        if contains_key(b_pre, lp) {
                            let i4 = choose|i4: int|
                                0 <= i4 < b_pre.len() && (#[trigger] b_pre[i4]).0 == lp;
                        }
                    }
                    assert(i < b_pre.len() ==> b_pre[i as int].0 > lp);
                    crate::skiplist::lemma_spec_insert_at(b_pre, lp, seq![o], i);
                    assert(self.bids@ =~= b_pre.take(i) + seq![(lp, seq![o])] + b_pre.skip(i));
                }
            }
            self.locations.insert(req.order_id, OrderLocation { side: req.side, price: lp });
            proof {
                assert(self.locations@ =~= m_pre2.insert(
                    req.order_id,
                    OrderLocation { side: req.side, price: lp },
                ));
                assert(q3.push(o) =~= (if existed {
                    b_pre[i as int].1.push(o)
                } else {
                    seq![o]
                }));
                Self::lemma_rest_restores(
                    b_pre,
                    oth,
                    m_pre2,
                    Side::Buy,
                    arrival,
                    o,
                    existed,
                    i,
                    self.bids@,
                    self.locations@,
                );
                assert(uncrossed(self.bids@, self.asks@)) by {
                    if self.asks@.len() > 0 {
                        assert(lp < self.asks@[0].0);
                        if b_pre.len() > 0 {
                            assert(b_pre[b_pre.len() - 1].0 < self.asks@[0].0);
                        }
                    }
                };
                assert(self.wf());
            }
                },
                Side::Sell => {
            let ghost b_pre = self.asks@;
            let ghost m_pre2 = self.locations@;
            let ghost oth = self.bids@;
            let ghost a_pre0 = self.asks@;
            proof {
                self.asks.lemma_view_sorted();
            }
            let o = LimitOrder {
                order_id: req.order_id,
                side: req.side,
                price: lp,
                quantity: rem,
                arrival_sequence: arrival,
            };
            let lvl_opt = self.asks.delete(lp);
            let (mut lvl, existed) = match lvl_opt {
                Some(l) => (l, true),
                None => (PriceLevel::new(lp), false),
            };
            let ghost i = if existed {
                choose|i2: int| 0 <= i2 < b_pre.len() && (#[trigger] b_pre[i2]).0 == lp
            } else {
                lemma_find_position(b_pre, lp)
            };
            proof {
                if existed {
                    assert(contains_key(b_pre, lp));
                    crate::skiplist::lemma_orders_at_index(b_pre, i, lp);
                    crate::skiplist::lemma_spec_remove_at(b_pre, lp, i);
                    lemma_remove_level(b_pre, i, Side::Sell, arrival);
                    assert(lvl@ == b_pre[i].1 && lvl.price == lp);
                } else {
                    assert(self.asks@ == b_pre);
                }
            }
            let ghost b1 = self.asks@;
            let ghost q3 = lvl@;
            lvl.push_back(o);
            let ir = self.asks.insert(lvl);
            proof {
                assert(ir is Ok);
                if existed {
                    assert(b1 =~= b_pre.take(i) + b_pre.skip(i + 1));
                    crate::skiplist::lemma_spec_insert_at(b1, lp, q3.push(o), i);
                    assert(self.asks@ =~= b_pre.update(i, (lp, b_pre[i].1.push(o))));
                } else {
                    assert(q3 =~= Seq::<LimitOrder>::empty());
                    assert(!contains_key(b_pre, lp)) by {
                        if contains_key(b_pre, lp) {
                            let i4 = choose|i4: int|
                                0 <= i4 < b_pre.len() && (#[trigger] b_pre[i4]).0 == lp;
                        }
                    }
                    assert(i < b_pre.len() ==> b_pre[i as int].0 > lp);
                    crate::skiplist::lemma_spec_insert_at(b_pre, lp, seq![o], i);
                    assert(self.asks@ =~= b_pre.take(i) + seq![(lp, seq![o])] + b_pre.skip(i));
                }
            }
            self.locations.insert(req.order_id, OrderLocation { side: req.side, price: lp });
            proof {
                assert(self.locations@ =~= m_pre2.insert(
                    req.order_id,
                    OrderLocation { side: req.side, price: lp },
                ));
                assert(q3.push(o) =~= (if existed {
                    b_pre[i as int].1.push(o)
                } else {
                    seq![o]
                }));
                Self::lemma_rest_restores(
                    b_pre,
                    oth,
                    m_pre2,
                    Side::Sell,
                    arrival,
                    o,
                    existed,
                    i,
                    self.asks@,
                    self.locations@,
                );
                assert(uncrossed(self.bids@, self.asks@)) by {
                    if self.bids@.len() > 0 {
                        assert(lp > self.bids@[self.bids@.len() - 1].0);
                        if a_pre0.len() > 0 {
                            assert(self.bids@[self.bids@.len() - 1].0 < a_pre0[0].0);
                        }
                    }
                };
                assert(self.wf());
            }
                },
            }
        } else {
            outcome = OrderOutcome::Discarded;
            proof {
                assert(self.wf());
            }
        }
        proof {
            assert(trades_qty(trades@) == req.quantity - rem);
            let cr = spec_cross(
                contra_best_first(old(self), req.side),
                req.quantity as int,
                req.order_type is Market,
                req.price->Some_0,
                req.side,
                req.order_id,
                old(self).events(),
            );
            assert(contra_best_first(old(self), req.side) == c0all);
            assert((req.order_type is Market) == !is_limit);
            assert(cr == fullg);
            assert(trades@ == cr.1);
            assert((if req.side is Buy {
                self.asks@
            } else {
                rev_levels(self.bids@)
            }) == cr.0);
            assert(cr.2 == req.quantity - trades_qty(trades@));
        }
        Ok(AddReport { trades, outcome })
    }
}

} // verus!
