//! What holds of the order book across its operations.

use crate::book::{
    best_level, cancel_result, levels_nonempty, fill_level, first_with_id, orders_placed, holds_order, level_qty, limit_allows, opposite, rejection,
    submit_fits, submit_result, submit_sweep, sweep, without_order, BookView, OrderBook,
};
use crate::events::BookEvent;
use crate::keys::{greatest_below, is_greatest_below, is_least_above, least_above};
use crate::level::qty_sum;
use crate::order::{Order, OrderId, OrderType, Price, Side};
use vstd::prelude::*;

verus! {

/// The quantity resting on one side of the book.
pub open spec fn side_total(m: Map<i64, Seq<Order>>) -> int
    decreases m.dom().len(),
{
    if m.dom().finite() && m.dom().len() > 0 {
        let k = m.dom().choose();
        qty_sum(m[k]) + side_total(m.remove(k))
    } else {
        0
    }
}

/// The quantity resting in the whole book.
pub open spec fn resting_qty(v: BookView) -> int {
    side_total(v.bids) + side_total(v.asks)
}

/// The quantity of one event: that of a trade, nothing for the others.
pub open spec fn event_qty(e: BookEvent) -> int {
    match e {
        BookEvent::Trade { qty, .. } => qty as int,
        _ => 0,
    }
}

/// The quantity traded in a stream of events.
pub open spec fn traded_qty(events: Seq<BookEvent>) -> int
    decreases events.len(),
{
    if events.len() == 0 {
        0
    } else {
        event_qty(events[0]) + traded_qty(events.drop_first())
    }
}

pub proof fn lemma_traded_qty_append(a: Seq<BookEvent>, b: Seq<BookEvent>)
    ensures
        traded_qty(a + b) == traded_qty(a) + traded_qty(b),
    decreases a.len(),
{
    if a.len() == 0 {
        assert(a + b =~= b);
    } else {
        assert((a + b).drop_first() =~= a.drop_first() + b);
        lemma_traded_qty_append(a.drop_first(), b);
    }
}

pub proof fn lemma_side_total_remove(m: Map<i64, Seq<Order>>, k: i64)
    requires
        m.dom().finite(),
        m.contains_key(k),
    ensures
        side_total(m) == qty_sum(m[k]) + side_total(m.remove(k)),
    decreases m.dom().len(),
{
    let c = m.dom().choose();
    if c != k {
        let mc = m.remove(c);
        let mk = m.remove(k);
        lemma_side_total_remove(mc, k);
        lemma_side_total_remove(mk, c);
        assert(mc.remove(k) =~= mk.remove(c));
    }
}

pub proof fn lemma_side_total_insert(m: Map<i64, Seq<Order>>, k: i64, s: Seq<Order>)
    requires
        m.dom().finite(),
    ensures
        side_total(m.insert(k, s)) == qty_sum(s) + side_total(m) - level_qty(m, k),
{
    lemma_side_total_remove(m.insert(k, s), k);
    assert(m.insert(k, s).remove(k) =~= m.remove(k));
    if m.contains_key(k) {
        lemma_side_total_remove(m, k);
    } else {
        assert(m.remove(k) =~= m);
    }
}

pub proof fn lemma_fill_conserves(orders: Seq<Order>, taker: OrderId, price: Price, remaining: u64)
    ensures
        qty_sum(orders) == qty_sum(fill_level(orders, taker, price, remaining).rest)
            + traded_qty(fill_level(orders, taker, price, remaining).trades),
        traded_qty(fill_level(orders, taker, price, remaining).trades)
            + fill_level(orders, taker, price, remaining).remaining == remaining,
    decreases orders.len(),
{
    let f = fill_level(orders, taker, price, remaining);
    if remaining == 0 || orders.len() == 0 {
        assert(traded_qty(Seq::<BookEvent>::empty()) == 0);
    } else {
        let front = orders[0];
        let q = crate::book::min_qty(remaining, front.qty);
        let trade = BookEvent::Trade { maker: front.id, taker, price, qty: q };
        assert(traded_qty(seq![trade]) == q) by {
            assert(seq![trade].drop_first() =~= Seq::<BookEvent>::empty());
            assert(traded_qty(Seq::<BookEvent>::empty()) == 0);
            assert(seq![trade][0] == trade);
        }
        if q == front.qty {
            let next = fill_level(orders.drop_first(), taker, price, (remaining - q) as u64);
            lemma_fill_conserves(orders.drop_first(), taker, price, (remaining - q) as u64);
            lemma_traded_qty_append(seq![trade], next.trades);
        } else {
            crate::level::lemma_qty_sum_update_front(orders, Order { qty: (front.qty - q) as u64, ..front });
        }
    }
}

pub proof fn lemma_sweep_conserves(
    levels: Map<i64, Seq<Order>>,
    taker_side: Side,
    limit: Option<i64>,
    taker: OrderId,
    remaining: u64,
)
    requires
        levels.dom().finite(),
    ensures
        side_total(levels) == side_total(sweep(levels, taker_side, limit, taker, remaining).levels)
            + traded_qty(sweep(levels, taker_side, limit, taker, remaining).trades),
        traded_qty(sweep(levels, taker_side, limit, taker, remaining).trades)
            + sweep(levels, taker_side, limit, taker, remaining).remaining == remaining,
    decreases levels.dom().len(),
{
    assert(traded_qty(Seq::<BookEvent>::empty()) == 0);
    if remaining > 0 {
        match best_level(levels, taker_side) {
            None => {},
            Some(best) => {
                if limit_allows(taker_side, limit, best) && levels.dom().contains(best) {
                    let f = fill_level(levels[best], taker, Price(best), remaining);
                    lemma_fill_conserves(levels[best], taker, Price(best), remaining);
                    lemma_side_total_remove(levels, best);
                    if f.rest.len() == 0 {
                        assert(qty_sum(f.rest) == 0);
                        let next = sweep(levels.remove(best), taker_side, limit, taker, f.remaining);
                        lemma_sweep_conserves(levels.remove(best), taker_side, limit, taker, f.remaining);
                        lemma_traded_qty_append(f.trades, next.trades);
                    } else {
                        lemma_side_total_insert(levels, best, f.rest);
                    }
                }
            },
        }
    }
}

/// Law: a book that holds its invariant is never crossed — whenever it has
/// both a best bid and a best ask, the bid lies strictly below the ask.
pub proof fn law_never_crossed(book: OrderBook)
    requires
        book.wf(),
    ensures
        greatest_below(book@.bids.dom(), None) is Some && least_above(book@.asks.dom(), None) is Some
            ==> greatest_below(book@.bids.dom(), None).unwrap() < least_above(book@.asks.dom(), None).unwrap(),
{
    assert(book@.bids.dom() =~= book.bids@.dom());
    assert(book@.asks.dom() =~= book.asks@.dom());
    if greatest_below(book@.bids.dom(), None) is Some && least_above(book@.asks.dom(), None) is Some {
        let b = greatest_below(book@.bids.dom(), None).unwrap();
        let a = least_above(book@.asks.dom(), None).unwrap();
        assert(is_greatest_below(book@.bids.dom(), None, b));
        assert(is_least_above(book@.asks.dom(), None, a));
    }
}

/// Law: quantity is conserved. After an order is accepted, what rests in the
/// book plus twice what traded (once for the taker, once for the makers),
/// plus what a market order could not fill, equals what rested before plus
/// the order's quantity. A refused order changes nothing and trades nothing.
pub proof fn law_quantity_conserved(book: OrderBook, order: Order)
    requires
        book.consistent(),
    ensures
        rejection(order) is Some ==> submit_result(book@, order).0 == book@
            && traded_qty(submit_result(book@, order).1) == 0,
        rejection(order) is None ==> resting_qty(submit_result(book@, order).0)
            + 2 * traded_qty(submit_result(book@, order).1)
            + (if order.kind == OrderType::Market { submit_sweep(book@, order).remaining as int } else { 0 })
            == resting_qty(book@) + order.qty,
{
    assert(book@.bids.dom() =~= book.bids@.dom());
    assert(book@.asks.dom() =~= book.asks@.dom());
    lemma_submit_conserves(book@, order);
}

/// The quantity of `order` if the book accepts it, zero if it refuses it.
pub open spec fn accepted_qty(order: Order) -> int {
    if rejection(order) is None { order.qty as int } else { 0 }
}

proof fn lemma_submit_conserves(v: BookView, order: Order)
    requires
        v.bids.dom().finite(),
        v.asks.dom().finite(),
    ensures
        submit_result(v, order).0.bids.dom().finite(),
        submit_result(v, order).0.asks.dom().finite(),
        rejection(order) is Some ==> submit_result(v, order).0 == v && traded_qty(submit_result(v, order).1) == 0,
        rejection(order) is None ==> resting_qty(submit_result(v, order).0)
            + 2 * traded_qty(submit_result(v, order).1)
            + (if order.kind == OrderType::Market { submit_sweep(v, order).remaining as int } else { 0 })
            == resting_qty(v) + order.qty,
{
    let (after, events) = submit_result(v, order);
    match rejection(order) {
        Some(reason) => {
            let r = BookEvent::Rejected { id: order.id, reason };
            assert(traded_qty(seq![r]) == 0) by {
                assert(seq![r].drop_first() =~= Seq::<BookEvent>::empty());
                assert(traded_qty(Seq::<BookEvent>::empty()) == 0);
                assert(seq![r][0] == r);
            }
        },
        None => {
            let s = submit_sweep(v, order);
            let opp = v.side(opposite(order.side));
            assert(opp.dom().finite() && v.side(order.side).dom().finite()) by {
                match order.side {
                    Side::Bid => {},
                    Side::Ask => {},
                }
            }
            lemma_sweep_conserves(opp, order.side, crate::book::limit_of(order), order.id, order.qty);
            crate::book::lemma_sweep_stops(opp, order.side, crate::book::limit_of(order), order.id, order.qty);
            assert(s.levels.dom().finite()) by {
                vstd::set_lib::lemma_len_subset(s.levels.dom(), opp.dom());
            }
            let acc = BookEvent::Accepted { id: order.id };
            assert(traded_qty(seq![acc]) == 0) by {
                assert(seq![acc].drop_first() =~= Seq::<BookEvent>::empty());
                assert(traded_qty(Seq::<BookEvent>::empty()) == 0);
                assert(seq![acc][0] == acc);
            }
            lemma_traded_qty_append(seq![acc], s.trades);
            if s.remaining > 0 && order.kind == OrderType::Limit {
                let p = order.price.unwrap();
                let own = v.side(order.side);
                let level = if own.contains_key(p.0) { own[p.0] } else { Seq::<Order>::empty() };
                let rested = Order { qty: s.remaining, ..order };
                assert(qty_sum(Seq::<Order>::empty()) == 0);
                crate::level::lemma_qty_sum_push(level, rested);
                lemma_side_total_insert(own, p.0, level.push(rested));
            }
        },
    }
}

/// The book and the events after `orders` are submitted in turn.
pub open spec fn submit_all(v: BookView, orders: Seq<Order>) -> (BookView, Seq<BookEvent>)
    decreases orders.len(),
{
    if orders.len() == 0 {
        (v, seq![])
    } else {
        let first = submit_result(v, orders[0]);
        let rest = submit_all(first.0, orders.drop_first());
        (rest.0, first.1 + rest.1)
    }
}

/// The total quantity the book accepts of `orders`.
pub open spec fn accepted_total(orders: Seq<Order>) -> int
    decreases orders.len(),
{
    if orders.len() == 0 {
        0
    } else {
        accepted_qty(orders[0]) + accepted_total(orders.drop_first())
    }
}

proof fn lemma_run_conserves(v: BookView, orders: Seq<Order>)
    requires
        v.bids.dom().finite(),
        v.asks.dom().finite(),
        forall|i: int| 0 <= i < orders.len() ==> (#[trigger] orders[i]).kind == OrderType::Limit,
    ensures
        resting_qty(submit_all(v, orders).0) + 2 * traded_qty(submit_all(v, orders).1) == resting_qty(v)
            + accepted_total(orders),
    decreases orders.len(),
{
    if orders.len() == 0 {
        assert(traded_qty(Seq::<BookEvent>::empty()) == 0);
    } else {
        let o = orders[0];
        let first = submit_result(v, o);
        lemma_submit_conserves(v, o);
        let rest = orders.drop_first();
        assert forall|i: int| 0 <= i < rest.len() implies (#[trigger] rest[i]).kind == OrderType::Limit by {
            assert(rest[i] == orders[i + 1]);
        }
        lemma_run_conserves(first.0, rest);
        lemma_traded_qty_append(first.1, submit_all(first.0, rest).1);
    }
}

/// Law: quantity is conserved over a run of limit orders. After submitting
/// limit orders in turn, what rests in the book plus twice what traded equals
/// what rested before plus the quantities of the orders the book accepted.
pub proof fn law_quantity_conserved_over_run(book: OrderBook, orders: Seq<Order>)
    requires
        book.consistent(),
        forall|i: int| 0 <= i < orders.len() ==> (#[trigger] orders[i]).kind == OrderType::Limit,
    ensures
        resting_qty(submit_all(book@, orders).0) + 2 * traded_qty(submit_all(book@, orders).1) == resting_qty(
            book@,
        ) + accepted_total(orders),
{
    assert(book@.bids.dom() =~= book.bids@.dom());
    assert(book@.asks.dom() =~= book.asks@.dom());
    lemma_run_conserves(book@, orders);
}

proof fn lemma_submit_not_crossed(v: BookView, order: Order)
    requires
        v.bids.dom().finite(),
        v.asks.dom().finite(),
        crate::book::not_crossed(v.bids.dom(), v.asks.dom()),
    ensures
        submit_result(v, order).0.bids.dom().finite(),
        submit_result(v, order).0.asks.dom().finite(),
        crate::book::not_crossed(submit_result(v, order).0.bids.dom(), submit_result(v, order).0.asks.dom()),
{
    if rejection(order) is None {
        let sd = opposite(order.side);
        let s = submit_sweep(v, order);
        crate::book::lemma_sweep_stops(v.side(sd), order.side, crate::book::limit_of(order), order.id, order.qty);
        let w = submit_result(v, order).0;
        match order.side {
            Side::Bid => {
                assert(v.side(sd) == v.asks);
                assert forall|b: i64, a: i64| #[trigger] w.bids.dom().contains(b) && #[trigger] w.asks.dom().contains(a)
                    implies b < a by {
                    assert(s.levels.dom().contains(a));
                    if !v.bids.dom().contains(b) {
                        assert(!limit_allows(order.side, crate::book::limit_of(order), a));
                    }
                }
            },
            Side::Ask => {
                assert(v.side(sd) == v.bids);
                assert forall|b: i64, a: i64| #[trigger] w.bids.dom().contains(b) && #[trigger] w.asks.dom().contains(a)
                    implies b < a by {
                    assert(s.levels.dom().contains(b));
                    if !v.asks.dom().contains(a) {
                        assert(!limit_allows(order.side, crate::book::limit_of(order), b));
                    }
                }
            },
        }
    }
}

proof fn lemma_run_not_crossed(v: BookView, orders: Seq<Order>)
    requires
        v.bids.dom().finite(),
        v.asks.dom().finite(),
        crate::book::not_crossed(v.bids.dom(), v.asks.dom()),
    ensures
        crate::book::not_crossed(submit_all(v, orders).0.bids.dom(), submit_all(v, orders).0.asks.dom()),
    decreases orders.len(),
{
    if orders.len() > 0 {
        lemma_submit_not_crossed(v, orders[0]);
        lemma_run_not_crossed(submit_result(v, orders[0]).0, orders.drop_first());
    }
}

/// Law: the book never crosses, whatever orders come. Submitting any orders
/// in turn to a book that is not crossed leaves every bid price strictly below
/// every ask price.
pub proof fn law_run_never_crossed(book: OrderBook, orders: Seq<Order>)
    requires
        book.wf(),
    ensures
        crate::book::not_crossed(submit_all(book@, orders).0.bids.dom(), submit_all(book@, orders).0.asks.dom()),
{
    assert(book@.bids.dom() =~= book.bids@.dom());
    assert(book@.asks.dom() =~= book.asks@.dom());
    lemma_run_not_crossed(book@, orders);
}

proof fn lemma_run_placed(v: BookView, orders: Seq<Order>)
    requires
        orders_placed(v.bids, Side::Bid),
        orders_placed(v.asks, Side::Ask),
    ensures
        orders_placed(submit_all(v, orders).0.bids, Side::Bid),
        orders_placed(submit_all(v, orders).0.asks, Side::Ask),
    decreases orders.len(),
{
    if orders.len() > 0 {
        lemma_submit_placed(v, orders[0]);
        lemma_run_placed(submit_result(v, orders[0]).0, orders.drop_first());
    }
}

/// Law: over any run of submits, every resting order keeps quantity left and
/// rests on its own side at its own price.
pub proof fn law_run_keeps_placement(book: OrderBook, orders: Seq<Order>)
    requires
        book.wf(),
    ensures
        orders_placed(submit_all(book@, orders).0.bids, Side::Bid),
        orders_placed(submit_all(book@, orders).0.asks, Side::Ask),
{
    lemma_run_placed(book@, orders);
}

/// After a fill the level keeps a suffix of its orders, ids unchanged; the
/// makers it lost are exactly the ones reported as filled.
pub proof fn lemma_fill_shape(orders: Seq<Order>, taker: OrderId, price: Price, remaining: u64)
    ensures
        fill_level(orders, taker, price, remaining).rest.len() <= orders.len(),
        forall|i: int|
            0 <= i < fill_level(orders, taker, price, remaining).rest.len() ==> (#[trigger] fill_level(
                orders,
                taker,
                price,
                remaining,
            ).rest[i]).id == orders[i + orders.len() - fill_level(orders, taker, price, remaining).rest.len()].id,
        forall|i: int|
            0 <= i < orders.len() - fill_level(orders, taker, price, remaining).rest.len()
                ==> fill_level(orders, taker, price, remaining).filled.contains(#[trigger] orders[i].id),
        forall|x: OrderId|
            #[trigger] fill_level(orders, taker, price, remaining).filled.contains(x) ==> exists|i: int|
                0 <= i < orders.len() - fill_level(orders, taker, price, remaining).rest.len()
                    && #[trigger] orders[i].id == x,
    decreases orders.len(),
{
    let f = fill_level(orders, taker, price, remaining);
    if remaining == 0 || orders.len() == 0 {
    } else {
        let front = orders[0];
        let q = crate::book::min_qty(remaining, front.qty);
        if q == front.qty {
            let rest = orders.drop_first();
            lemma_fill_shape(rest, taker, price, (remaining - q) as u64);
            let next = fill_level(rest, taker, price, (remaining - q) as u64);
            assert forall|i: int| 0 <= i < f.rest.len() implies (#[trigger] f.rest[i]).id == orders[i
                + orders.len() - f.rest.len()].id by {
                assert(rest[i + rest.len() - next.rest.len()] == orders[i + orders.len() - f.rest.len()]);
            }
            assert forall|i: int| 0 <= i < orders.len() - f.rest.len() implies f.filled.contains(
                #[trigger] orders[i].id,
            ) by {
                if i > 0 {
                    assert(rest[i - 1] == orders[i]);
                }
            }
            assert forall|x: OrderId| #[trigger] f.filled.contains(x) implies exists|i: int|
                0 <= i < orders.len() - f.rest.len() && #[trigger] orders[i].id == x by {
                if x == front.id {
                    assert(orders[0].id == x);
                } else {
                    let j = choose|j: int| 0 <= j < rest.len() - next.rest.len() && #[trigger] rest[j].id == x;
                    assert(orders[j + 1] == rest[j]);
                }
            }
        } else {
            assert forall|i: int| 0 <= i < f.rest.len() implies (#[trigger] f.rest[i]).id == orders[i
                + orders.len() - f.rest.len()].id by {}
        }
    }
}

/// Position `i` of the level at `k` in `before` is gone from `after`.
pub open spec fn removed(before: Map<i64, Seq<Order>>, after: Map<i64, Seq<Order>>, k: i64, i: int) -> bool {
    &&& before.contains_key(k)
    &&& 0 <= i < before[k].len()
    &&& (!after.contains_key(k) || i < before[k].len() - after[k].len())
}

/// After a sweep every level left keeps a suffix of its orders, ids
/// unchanged; the orders gone are exactly the makers reported as filled.
pub proof fn lemma_sweep_shape(
    levels: Map<i64, Seq<Order>>,
    taker_side: Side,
    limit: Option<i64>,
    taker: OrderId,
    remaining: u64,
)
    requires
        levels.dom().finite(),
    ensures
        swept_shape(
            levels,
            sweep(levels, taker_side, limit, taker, remaining).levels,
            sweep(levels, taker_side, limit, taker, remaining).filled,
        ),
    decreases levels.dom().len(),
{
    let s = sweep(levels, taker_side, limit, taker, remaining);
    if remaining == 0 || !levels.dom().finite() {
    } else {
        match best_level(levels, taker_side) {
            None => {},
            Some(best) => {
                if !limit_allows(taker_side, limit, best) || !levels.dom().contains(best) {
                } else {
                    let lv = levels[best];
                    let f = fill_level(lv, taker, Price(best), remaining);
                    lemma_fill_shape(lv, taker, Price(best), remaining);
                    if f.rest.len() == 0 {
                        let l1 = levels.remove(best);
                        lemma_sweep_shape(l1, taker_side, limit, taker, f.remaining);
                        let next = sweep(l1, taker_side, limit, taker, f.remaining);
                        assert forall|k: i64, i: int| #[trigger] removed(levels, s.levels, k, i) implies s.filled.contains(
                            levels[k][i].id,
                        ) by {
                            if k == best {
                                assert(f.filled.contains(lv[i].id));
                            } else {
                                assert(removed(l1, next.levels, k, i));
                            }
                        }
                        assert forall|x: OrderId| #[trigger] s.filled.contains(x) implies exists|k: i64, i: int|
                            #[trigger] removed(levels, s.levels, k, i) && levels[k][i].id == x by {
                            if f.filled.contains(x) {
                                let i = choose|i: int| 0 <= i < lv.len() - f.rest.len() && #[trigger] lv[i].id == x;
                                assert(removed(levels, s.levels, best, i));
                            } else {
                                assert(next.filled.contains(x));
                                let (k, i) = choose|k: i64, i: int|
                                    #[trigger] removed(l1, next.levels, k, i) && l1[k][i].id == x;
                                assert(removed(levels, s.levels, k, i));
                            }
                        }
                    } else {
                        assert forall|k: i64, i: int| #[trigger] removed(levels, s.levels, k, i) implies s.filled.contains(
                            levels[k][i].id,
                        ) by {
                            if k == best {
                                assert(f.filled.contains(lv[i].id));
                            }
                        }
                        assert forall|x: OrderId| #[trigger] s.filled.contains(x) implies exists|k: i64, i: int|
                            #[trigger] removed(levels, s.levels, k, i) && levels[k][i].id == x by {
                            let i = choose|i: int| 0 <= i < lv.len() - f.rest.len() && #[trigger] lv[i].id == x;
                            assert(removed(levels, s.levels, best, i));
                        }
                    }
                }
            },
        }
    }
}

/// Every order resting on `levels` (the side `side`) is indexed at its level.
pub open spec fn side_indexed(levels: Map<i64, Seq<Order>>, side: Side, index: Map<OrderId, (Side, Price)>) -> bool {
    forall|k: i64, i: int|
        levels.contains_key(k) && 0 <= i < levels[k].len() ==> index.contains_key(
            (#[trigger] levels[k][i]).id,
        ) && index[levels[k][i].id] == (side, Price(k))
}

/// No two orders of one level share an id.
pub open spec fn ids_unique(levels: Map<i64, Seq<Order>>) -> bool {
    forall|k: i64, i: int, j: int|
        levels.contains_key(k) && 0 <= i < j < levels[k].len() ==> (#[trigger] levels[k][i]).id != (
        #[trigger] levels[k][j]).id
}

/// Every indexed id rests at the level the index names for it.
pub open spec fn index_resolves(v: BookView) -> bool {
    forall|id: OrderId| #[trigger]
        v.index.contains_key(id) ==> holds_order(v.side(v.index[id].0), v.index[id].1.0, id)
}

/// The index names exactly the resting orders and where they rest, and no id
/// rests twice.
pub open spec fn index_consistent(v: BookView) -> bool {
    &&& side_indexed(v.bids, Side::Bid, v.index)
    &&& side_indexed(v.asks, Side::Ask, v.index)
    &&& ids_unique(v.bids)
    &&& ids_unique(v.asks)
    &&& index_resolves(v)
}

/// No order with id `id` rests on `levels`.
pub open spec fn absent(levels: Map<i64, Seq<Order>>, id: OrderId) -> bool {
    forall|k: i64, i: int| levels.contains_key(k) && 0 <= i < levels[k].len() ==> (#[trigger] levels[k][i]).id != id
}

/// `after` keeps a suffix of each level of `before` it still has, ids
/// unchanged, and the orders gone are exactly those whose ids are `filled`.
pub open spec fn swept_shape(before: Map<i64, Seq<Order>>, after: Map<i64, Seq<Order>>, filled: Set<OrderId>) -> bool {
    &&& after.dom().subset_of(before.dom())
    &&& forall|k: i64| #[trigger] after.contains_key(k) ==> after[k].len() <= before[k].len()
    &&& forall|k: i64, i: int|
        after.contains_key(k) && 0 <= i < after[k].len() ==> (#[trigger] after[k][i]).id
            == before[k][i + before[k].len() - after[k].len()].id
    &&& forall|k: i64, i: int| #[trigger] removed(before, after, k, i) ==> filled.contains(before[k][i].id)
    &&& forall|x: OrderId|
        #[trigger] filled.contains(x) ==> exists|k: i64, i: int|
            #[trigger] removed(before, after, k, i) && before[k][i].id == x
}

proof fn lemma_swept_side(
    l: Map<i64, Seq<Order>>,
    nl: Map<i64, Seq<Order>>,
    filled: Set<OrderId>,
    i0: Map<OrderId, (Side, Price)>,
    sd: Side,
)
    requires
        swept_shape(l, nl, filled),
        side_indexed(l, sd, i0),
        ids_unique(l),
    ensures
        side_indexed(nl, sd, i0.remove_keys(filled)),
        ids_unique(nl),
{
    let i1 = i0.remove_keys(filled);
    assert forall|k: i64, i: int| nl.contains_key(k) && 0 <= i < nl[k].len() implies i1.contains_key(
        (#[trigger] nl[k][i]).id,
    ) && i1[nl[k][i].id] == (sd, Price(k)) by {
        let d = l[k].len() - nl[k].len();
        let id = nl[k][i].id;
        assert(id == l[k][i + d].id);
        assert(i0.contains_key(l[k][i + d].id));
        if filled.contains(id) {
            let (k2, i2) = choose|k2: i64, i2: int| #[trigger] removed(l, nl, k2, i2) && l[k2][i2].id == id;
            assert(i0.contains_key(l[k2][i2].id));
            assert(k2 == k);
            if i2 < i + d {
                assert(l[k][i2].id != l[k][i + d].id);
            } else {
                assert(l[k][i + d].id != l[k][i2].id);
            }
        }
    }
    assert forall|k: i64, i: int, j: int| nl.contains_key(k) && 0 <= i < j < nl[k].len() implies (
    #[trigger] nl[k][i]).id != (#[trigger] nl[k][j]).id by {
        let d = l[k].len() - nl[k].len();
        assert(nl[k][i].id == l[k][i + d].id);
        assert(nl[k][j].id == l[k][j + d].id);
        assert(l[k][i + d].id != l[k][j + d].id);
    }
}

proof fn lemma_unswept_side(
    o: Map<i64, Seq<Order>>,
    side: Side,
    l: Map<i64, Seq<Order>>,
    nl: Map<i64, Seq<Order>>,
    filled: Set<OrderId>,
    i0: Map<OrderId, (Side, Price)>,
    sd: Side,
)
    requires
        sd != side,
        swept_shape(l, nl, filled),
        side_indexed(l, sd, i0),
        side_indexed(o, side, i0),
    ensures
        side_indexed(o, side, i0.remove_keys(filled)),
{
    let i1 = i0.remove_keys(filled);
    assert forall|k: i64, i: int| o.contains_key(k) && 0 <= i < o[k].len() implies i1.contains_key(
        (#[trigger] o[k][i]).id,
    ) && i1[o[k][i].id] == (side, Price(k)) by {
        let id = o[k][i].id;
        assert(i0.contains_key(id) && i0[id] == (side, Price(k)));
        if filled.contains(id) {
            let (k2, i2) = choose|k2: i64, i2: int| #[trigger] removed(l, nl, k2, i2) && l[k2][i2].id == id;
            assert(i0.contains_key(l[k2][i2].id));
        }
    }
}

proof fn lemma_swept_holds(
    l: Map<i64, Seq<Order>>,
    nl: Map<i64, Seq<Order>>,
    filled: Set<OrderId>,
    p: i64,
    id: OrderId,
)
    requires
        swept_shape(l, nl, filled),
        holds_order(l, p, id),
        !filled.contains(id),
    ensures
        holds_order(nl, p, id),
{
    let lv = l[p];
    let f0 = choose|f0: int| first_with_id(lv, id, f0);
    assert(lv[f0].id == id);
    if !nl.contains_key(p) {
        assert(removed(l, nl, p, f0));
    } else {
        let d = lv.len() - nl[p].len();
        if f0 < d {
            assert(removed(l, nl, p, f0));
        } else {
            let nv = nl[p];
            assert(nv[f0 - d].id == lv[f0].id);
            assert forall|j: int| 0 <= j < f0 - d implies #[trigger] nv[j].id != id by {
                assert(nv[j].id == lv[j + d].id);
            }
            assert(first_with_id(nv, id, f0 - d));
        }
    }
}

/// Law: a sweep alone keeps the index consistent with the book: the makers it
/// fills leave both the book and the index, and every other order keeps its
/// entry.
pub proof fn law_sweep_keeps_index(v: BookView, taker_side: Side, limit: Option<i64>, taker: OrderId, remaining: u64)
    requires
        index_consistent(v),
        v.side(opposite(taker_side)).dom().finite(),
    ensures
        index_consistent(
            v.with_side(
                opposite(taker_side),
                sweep(v.side(opposite(taker_side)), taker_side, limit, taker, remaining).levels,
            ).with_index(v.index.remove_keys(sweep(v.side(opposite(taker_side)), taker_side, limit, taker, remaining).filled)),
        ),
{
    let sd = opposite(taker_side);
    let l = v.side(sd);
    let o = v.side(taker_side);
    let s = sweep(l, taker_side, limit, taker, remaining);
    let i0 = v.index;
    let i1 = i0.remove_keys(s.filled);
    let w = v.with_side(sd, s.levels).with_index(i1);
    lemma_sweep_shape(l, taker_side, limit, taker, remaining);
    assert(swept_shape(l, s.levels, s.filled));
    assert(sd != taker_side && side_indexed(l, sd, i0) && side_indexed(o, taker_side, i0) && ids_unique(l) && ids_unique(o)
        && w.side(sd) == s.levels && w.side(taker_side) == o && w.index == i1) by {
        match taker_side {
            Side::Bid => {},
            Side::Ask => {},
        }
    }
    lemma_swept_side(l, s.levels, s.filled, i0, sd);
    lemma_unswept_side(o, taker_side, l, s.levels, s.filled, i0, sd);
    assert forall|id: OrderId| #[trigger] i1.contains_key(id) implies holds_order(w.side(i1[id].0), i1[id].1.0, id) by {
        assert(i0.contains_key(id) && !s.filled.contains(id));
        let e = i0[id];
        assert(holds_order(v.side(e.0), e.1.0, id));
        if e.0 == sd {
            lemma_swept_holds(l, s.levels, s.filled, e.1.0, id);
        } else {
            assert(e.0 == taker_side) by {
                match e.0 {
                    Side::Bid => {},
                    Side::Ask => {},
                }
                match taker_side {
                    Side::Bid => {},
                    Side::Ask => {},
                }
            }
        }
    }
    assert(index_consistent(w)) by {
        match taker_side {
            Side::Bid => {},
            Side::Ask => {},
        }
    }
}

proof fn lemma_fresh_absent(levels: Map<i64, Seq<Order>>, side: Side, index: Map<OrderId, (Side, Price)>, id: OrderId)
    requires
        side_indexed(levels, side, index),
        !index.contains_key(id),
    ensures
        absent(levels, id),
{
    assert forall|k: i64, i: int| levels.contains_key(k) && 0 <= i < levels[k].len() implies (
    #[trigger] levels[k][i]).id != id by {
        assert(index.contains_key(levels[k][i].id));
    }
}

proof fn lemma_rest_keeps_index(w: BookView, side: Side, p: Price, rested: Order)
    requires
        index_consistent(w),
        !w.index.contains_key(rested.id),
    ensures
        ({
            let own = w.side(side);
            let level = if own.contains_key(p.0) { own[p.0] } else { Seq::<Order>::empty() };
            index_consistent(
                w.with_side(side, own.insert(p.0, level.push(rested))).with_index(
                    w.index.insert(rested.id, (side, p)),
                ),
            )
        }),
{
    let own = w.side(side);
    let other = w.side(opposite(side));
    let level = if own.contains_key(p.0) { own[p.0] } else { Seq::<Order>::empty() };
    let nown = own.insert(p.0, level.push(rested));
    let i0 = w.index;
    let i2 = i0.insert(rested.id, (side, p));
    let w2 = w.with_side(side, nown).with_index(i2);
    let id = rested.id;
    assert(side_indexed(own, side, i0) && side_indexed(other, opposite(side), i0) && ids_unique(own) && ids_unique(other)
        && w2.side(side) == nown && w2.side(opposite(side)) == other && w2.index == i2) by {
        match side {
            Side::Bid => {},
            Side::Ask => {},
        }
    }
    lemma_fresh_absent(own, side, i0, id);
    lemma_fresh_absent(other, opposite(side), i0, id);
    assert(p == Price(p.0));
    assert forall|k: i64, i: int| nown.contains_key(k) && 0 <= i < nown[k].len() implies i2.contains_key(
        (#[trigger] nown[k][i]).id,
    ) && i2[nown[k][i].id] == (side, Price(k)) by {
        if k == p.0 {
            if i < level.len() {
                assert(nown[k][i] == own[k][i]);
            }
        } else {
            assert(nown[k][i] == own[k][i]);
        }
    }
    assert forall|k: i64, i: int| other.contains_key(k) && 0 <= i < other[k].len() implies i2.contains_key(
        (#[trigger] other[k][i]).id,
    ) && i2[other[k][i].id] == (opposite(side), Price(k)) by {
        assert(other[k][i].id != id);
    }
    assert forall|k: i64, i: int, j: int| nown.contains_key(k) && 0 <= i < j < nown[k].len() implies (
    #[trigger] nown[k][i]).id != (#[trigger] nown[k][j]).id by {
        if k == p.0 {
            assert(nown[k][i] == own[k][i]);
            if j < level.len() {
                assert(nown[k][j] == own[k][j]);
            }
        } else {
            assert(nown[k][i] == own[k][i]);
            assert(nown[k][j] == own[k][j]);
        }
    }
    assert forall|x: OrderId| #[trigger] i2.contains_key(x) implies holds_order(w2.side(i2[x].0), i2[x].1.0, x) by {
        if x == id {
            let last = level.len() as int;
            assert forall|j: int| 0 <= j < last implies #[trigger] nown[p.0][j].id != id by {
                assert(nown[p.0][j] == own[p.0][j]);
            }
            assert(first_with_id(nown[p.0], id, last));
            assert(i2[x] == (side, p));
            assert(holds_order(nown, p.0, id));
        } else {
            let e = i0[x];
            assert(holds_order(w.side(e.0), e.1.0, x));
            if e.0 == side {
                if e.1.0 == p.0 {
                    let f0 = choose|f0: int| first_with_id(own[p.0], x, f0);
                    assert forall|j: int| 0 <= j < f0 implies #[trigger] nown[p.0][j].id != x by {
                        assert(nown[p.0][j] == own[p.0][j]);
                    }
                    assert(nown[p.0][f0] == own[p.0][f0]);
                    assert(first_with_id(nown[p.0], x, f0));
                } else {
                    assert(nown[e.1.0] == own[e.1.0]);
                    let f0 = choose|f0: int| first_with_id(own[e.1.0], x, f0);
                    assert(first_with_id(nown[e.1.0], x, f0));
                }
            } else {
                assert(e.0 == opposite(side)) by {
                    match e.0 {
                        Side::Bid => {},
                        Side::Ask => {},
                    }
                    match side {
                        Side::Bid => {},
                        Side::Ask => {},
                    }
                }
            }
        }
    }
    assert(index_consistent(w2)) by {
        match side {
            Side::Bid => {},
            Side::Ask => {},
        }
    }
}

/// Law: the index stays consistent with the book. When the book's index names
/// exactly the resting orders and where they rest, submitting an order whose
/// id rests nowhere keeps it so.
pub proof fn law_submit_keeps_index(book: OrderBook, order: Order)
    requires
        book.consistent(),
        index_consistent(book@),
        !book@.index.contains_key(order.id),
    ensures
        index_consistent(submit_result(book@, order).0),
{
    assert(book@.bids.dom() =~= book.bids@.dom());
    assert(book@.asks.dom() =~= book.asks@.dom());
    lemma_submit_index(book@, order);
}

proof fn lemma_submit_index(v: BookView, order: Order)
    requires
        v.bids.dom().finite(),
        v.asks.dom().finite(),
        index_consistent(v),
        !v.index.contains_key(order.id),
    ensures
        index_consistent(submit_result(v, order).0),
        submit_result(v, order).0.index.dom().subset_of(v.index.dom().insert(order.id)),
{
    if rejection(order) is None {
        let s = submit_sweep(v, order);
        assert(v.side(opposite(order.side)).dom().finite()) by {
            match order.side {
                Side::Bid => {},
                Side::Ask => {},
            }
        }
        law_sweep_keeps_index(v, order.side, crate::book::limit_of(order), order.id, order.qty);
        let swept = v.with_side(opposite(order.side), s.levels).with_index(v.index.remove_keys(s.filled));
        if s.remaining > 0 && order.kind == OrderType::Limit {
            let rested = Order { qty: s.remaining, ..order };
            lemma_rest_keeps_index(swept, order.side, order.price.unwrap(), rested);
        }
    }
}

/// No two orders of `orders` share an id, and none of their ids is indexed in `v`.
pub open spec fn fresh_ids(v: BookView, orders: Seq<Order>) -> bool {
    &&& forall|i: int, j: int| 0 <= i < j < orders.len() ==> (#[trigger] orders[i]).id != (#[trigger] orders[j]).id
    &&& forall|i: int| 0 <= i < orders.len() ==> !v.index.contains_key((#[trigger] orders[i]).id)
}

proof fn lemma_run_index(v: BookView, orders: Seq<Order>)
    requires
        v.bids.dom().finite(),
        v.asks.dom().finite(),
        index_consistent(v),
        fresh_ids(v, orders),
    ensures
        index_consistent(submit_all(v, orders).0),
    decreases orders.len(),
{
    if orders.len() > 0 {
        let o = orders[0];
        let first = submit_result(v, o);
        lemma_submit_index(v, o);
        lemma_submit_conserves(v, o);
        let rest = orders.drop_first();
        assert forall|i: int, j: int| 0 <= i < j < rest.len() implies (#[trigger] rest[i]).id != (#[trigger] rest[j]).id by {
            assert(rest[i] == orders[i + 1] && rest[j] == orders[j + 1]);
        }
        assert forall|i: int| 0 <= i < rest.len() implies !first.0.index.contains_key((#[trigger] rest[i]).id) by {
            assert(rest[i] == orders[i + 1]);
            assert(orders[0].id != orders[i + 1].id);
        }
        lemma_run_index(first.0, rest);
    }
}

/// Law: the index stays consistent over a run of submits. When the index is
/// consistent with the book, submitting orders with distinct ids, none of them
/// resting already, keeps it so; in particular from an empty book.
pub proof fn law_run_keeps_index(book: OrderBook, orders: Seq<Order>)
    requires
        book.consistent(),
        index_consistent(book@),
        fresh_ids(book@, orders),
    ensures
        index_consistent(submit_all(book@, orders).0),
{
    assert(book@.bids.dom() =~= book.bids@.dom());
    assert(book@.asks.dom() =~= book.asks@.dom());
    lemma_run_index(book@, orders);
}

/// Law: canceling a resting order takes it out of the book. When the index
/// is consistent with the book, canceling an indexed id answers `Canceled`,
/// and afterwards the id is neither indexed nor resting anywhere; the index
/// stays consistent whatever id is canceled.
pub proof fn law_cancel_removes_order(book: OrderBook, id: OrderId)
    requires
        index_consistent(book@),
    ensures
        index_consistent(crate::book::cancel_result(book@, id).0),
        book@.index.contains_key(id) ==> {
            let (after, answer) = crate::book::cancel_result(book@, id);
            &&& answer == Some(BookEvent::Canceled { id })
            &&& !after.index.contains_key(id)
            &&& absent(after.bids, id)
            &&& absent(after.asks, id)
        },
{
    lemma_cancel_view(book@, id);
}

proof fn lemma_cancel_view(v: BookView, id: OrderId)
    requires
        index_consistent(v),
    ensures
        index_consistent(crate::book::cancel_result(v, id).0),
        v.index.contains_key(id) ==> {
            let (after, answer) = crate::book::cancel_result(v, id);
            &&& answer == Some(BookEvent::Canceled { id })
            &&& !after.index.contains_key(id)
            &&& absent(after.bids, id)
            &&& absent(after.asks, id)
        },
{
    if v.index.contains_key(id) {
        let e = v.index[id];
        let sd = e.0;
        let p = e.1.0;
        let l = v.side(sd);
        let o = v.side(opposite(sd));
        let i0 = v.index;
        let i1 = i0.remove(id);
        assert(side_indexed(l, sd, i0) && side_indexed(o, opposite(sd), i0) && ids_unique(l) && ids_unique(o)) by {
            match sd {
                Side::Bid => {},
                Side::Ask => {},
            }
        }
        assert(holds_order(l, p, id));
        let f = choose|f: int| first_with_id(l[p], id, f);
        let rest = l[p].remove(f);
        let nl = without_order(l, p, id);
        let w = v.with_index(i1).with_side(sd, nl);
        assert(w.side(sd) == nl && w.side(opposite(sd)) == o && w.index == i1) by {
            match sd {
                Side::Bid => {},
                Side::Ask => {},
            }
        }
        // Entries of the other levels keep what they had.
        assert forall|k: i64| #[trigger] nl.contains_key(k) && k != p implies nl[k] == l[k] by {}
        assert forall|k: i64, i: int| nl.contains_key(k) && 0 <= i < nl[k].len() implies (
        #[trigger] nl[k][i]).id != id && i1.contains_key(nl[k][i].id) && i1[nl[k][i].id] == (sd, Price(k)) by {
            if k == p {
                assert(nl[k] == rest);
                if i < f {
                    assert(rest[i] == l[p][i]);
                } else {
                    assert(rest[i] == l[p][i + 1]);
                    assert(l[p][f].id != l[p][i + 1].id);
                }
            } else {
                assert(nl[k][i] == l[k][i]);
                assert(i0.contains_key(l[k][i].id));
                if l[k][i].id == id {
                    assert(Price(k) == e.1);
                }
            }
        }
        assert forall|k: i64, i: int| o.contains_key(k) && 0 <= i < o[k].len() implies (#[trigger] o[k][i]).id
            != id && i1.contains_key(o[k][i].id) && i1[o[k][i].id] == (opposite(sd), Price(k)) by {
            assert(i0.contains_key(o[k][i].id));
            if o[k][i].id == id {
                match sd {
                    Side::Bid => {},
                    Side::Ask => {},
                }
            }
        }
        assert forall|k: i64, i: int, j: int| nl.contains_key(k) && 0 <= i < j < nl[k].len() implies (
        #[trigger] nl[k][i]).id != (#[trigger] nl[k][j]).id by {
            if k == p {
                let a = if i < f { i } else { i + 1 };
                let b = if j < f { j } else { j + 1 };
                assert(nl[k][i] == l[p][a]);
                assert(nl[k][j] == l[p][b]);
                assert(l[p][a].id != l[p][b].id);
            } else {
                assert(nl[k][i] == l[k][i]);
                assert(nl[k][j] == l[k][j]);
            }
        }
        assert forall|x: OrderId| #[trigger] i1.contains_key(x) implies holds_order(w.side(i1[x].0), i1[x].1.0, x) by {
            let ex = i0[x];
            assert(holds_order(v.side(ex.0), ex.1.0, x));
            if ex.0 == sd {
                let k = ex.1.0;
                let g = choose|g: int| first_with_id(l[k], x, g);
                if k == p {
                    assert(g != f);
                    let ng = if g < f { g } else { g - 1 };
                    assert(rest[ng] == l[p][g]);
                    assert forall|j: int| 0 <= j < ng implies #[trigger] rest[j].id != x by {
                        if j < f {
                            assert(rest[j] == l[p][j]);
                        } else {
                            assert(rest[j] == l[p][j + 1]);
                        }
                    }
                    assert(first_with_id(rest, x, ng));
                    assert(nl[p] == rest);
                } else {
                    assert(nl[k] == l[k]);
                    assert(first_with_id(nl[k], x, g));
                }
            } else {
                assert(ex.0 == opposite(sd)) by {
                    match ex.0 {
                        Side::Bid => {},
                        Side::Ask => {},
                    }
                    match sd {
                        Side::Bid => {},
                        Side::Ask => {},
                    }
                }
            }
        }
        assert(index_consistent(w) && absent(w.bids, id) && absent(w.asks, id)) by {
            match sd {
                Side::Bid => {},
                Side::Ask => {},
            }
        }
    }
}

/// The price of a trade event (nothing for the other events).
pub open spec fn trade_price(e: BookEvent) -> i64 {
    match e {
        BookEvent::Trade { price, .. } => price.0,
        _ => 0,
    }
}

/// Price `a` is at least as good for a taker on `taker_side` as price `b`:
/// no higher for a buyer, no lower for a seller.
pub open spec fn better_or_equal(taker_side: Side, a: i64, b: i64) -> bool {
    match taker_side {
        Side::Bid => a <= b,
        Side::Ask => a >= b,
    }
}

proof fn lemma_fill_trades(orders: Seq<Order>, taker: OrderId, price: Price, remaining: u64)
    ensures
        forall|i: int|
            0 <= i < fill_level(orders, taker, price, remaining).trades.len() ==> {
                let e = #[trigger] fill_level(orders, taker, price, remaining).trades[i];
                &&& e is Trade
                &&& trade_price(e) == price.0
                &&& e->taker == taker
            },
    decreases orders.len(),
{
    if remaining > 0 && orders.len() > 0 {
        let front = orders[0];
        let q = crate::book::min_qty(remaining, front.qty);
        if q == front.qty {
            lemma_fill_trades(orders.drop_first(), taker, price, (remaining - q) as u64);
        }
    }
}

proof fn lemma_sweep_trades(
    levels: Map<i64, Seq<Order>>,
    taker_side: Side,
    limit: Option<i64>,
    taker: OrderId,
    remaining: u64,
)
    requires
        forall|k: i64| #[trigger] levels.contains_key(k) ==> levels[k].len() > 0,
    ensures
        ({
            let t = sweep(levels, taker_side, limit, taker, remaining).trades;
            &&& forall|i: int|
                0 <= i < t.len() ==> {
                    &&& (#[trigger] t[i]) is Trade
                    &&& t[i]->taker == taker
                    &&& levels.contains_key(trade_price(t[i]))
                    &&& limit_allows(taker_side, limit, trade_price(t[i]))
                    &&& (match taker_side {
                        Side::Bid => is_least_above(levels.dom(), None, trade_price(t[0])),
                        Side::Ask => is_greatest_below(levels.dom(), None, trade_price(t[0])),
                    })
                }
            &&& forall|i: int, j: int|
                0 <= i < j < t.len() ==> better_or_equal(taker_side, trade_price(#[trigger] t[i]), trade_price(
                    #[trigger] t[j],
                ))
        }),
    decreases levels.dom().len(),
{
    let s = sweep(levels, taker_side, limit, taker, remaining);
    if remaining == 0 || !levels.dom().finite() {
    } else {
        match best_level(levels, taker_side) {
            None => {},
            Some(best) => {
                if limit_allows(taker_side, limit, best) && levels.dom().contains(best) {
                    match taker_side {
                        Side::Bid => assert(is_least_above(levels.dom(), None, best)),
                        Side::Ask => assert(is_greatest_below(levels.dom(), None, best)),
                    }
                    let f = fill_level(levels[best], taker, Price(best), remaining);
                    lemma_fill_trades(levels[best], taker, Price(best), remaining);
                    if f.rest.len() == 0 {
                        let rest = levels.remove(best);
                        let next = sweep(rest, taker_side, limit, taker, f.remaining);
                        lemma_sweep_trades(rest, taker_side, limit, taker, f.remaining);
                        let t = s.trades;
                        assert(t =~= f.trades + next.trades);
                        assert forall|i: int| 0 <= i < t.len() implies better_or_equal(
                            taker_side,
                            best,
                            trade_price(#[trigger] t[i]),
                        ) && levels.contains_key(trade_price(t[i])) by {
                            if i >= f.trades.len() {
                                assert(t[i] == next.trades[i - f.trades.len()]);
                                assert(rest.contains_key(trade_price(t[i])));
                            } else {
                                assert(t[i] == f.trades[i]);
                            }
                        }
                        assert(f.trades.len() > 0);
                        assert(t[0] == f.trades[0]);
                        assert forall|i: int, j: int| 0 <= i < j < t.len() implies better_or_equal(
                            taker_side,
                            trade_price(#[trigger] t[i]),
                            trade_price(#[trigger] t[j]),
                        ) by {
                            let n = f.trades.len() as int;
                            if j < n {
                                assert(t[i] == f.trades[i] && t[j] == f.trades[j]);
                            } else if i < n {
                                assert(t[i] == f.trades[i]);
                                assert(t[j] == next.trades[j - n]);
                            } else {
                                assert(t[i] == next.trades[i - n] && t[j] == next.trades[j - n]);
                            }
                        }
                    } else {
                        assert forall|i: int, j: int| 0 <= i < j < s.trades.len() implies better_or_equal(
                            taker_side,
                            trade_price(#[trigger] s.trades[i]),
                            trade_price(#[trigger] s.trades[j]),
                        ) by {}
                    }
                }
            },
        }
    }
}

/// Law: price priority. The trades of a submitted order are all its own, at
/// prices where the opposite side had orders and its limit allows, starting
/// at the opposite side's best price and never getting better for the maker
/// side as they go (rising for a buyer, falling for a seller).
pub proof fn law_price_priority(book: OrderBook, order: Order)
    requires
        book.wf(),
        rejection(order) is None,
    ensures
        ({
            let events = submit_result(book@, order).1;
            let opp = book@.side(opposite(order.side));
            &&& events[0] == BookEvent::Accepted { id: order.id }
            &&& forall|i: int|
                1 <= i < events.len() ==> {
                    &&& (#[trigger] events[i]) is Trade
                    &&& events[i]->taker == order.id
                    &&& opp.contains_key(trade_price(events[i]))
                    &&& limit_allows(order.side, crate::book::limit_of(order), trade_price(events[i]))
                }
            &&& events.len() > 1 ==> (match order.side {
                Side::Bid => is_least_above(opp.dom(), None, trade_price(events[1])),
                Side::Ask => is_greatest_below(opp.dom(), None, trade_price(events[1])),
            })
            &&& forall|i: int, j: int|
                1 <= i < j < events.len() ==> better_or_equal(order.side, trade_price(#[trigger] events[i]), trade_price(
                    #[trigger] events[j],
                ))
        }),
{
    let v = book@;
    let s = submit_sweep(v, order);
    assert(forall|k: i64| #[trigger] v.bids.contains_key(k) ==> v.bids[k].len() > 0);
    assert(forall|k: i64| #[trigger] v.asks.contains_key(k) ==> v.asks[k].len() > 0);
    assert(forall|k: i64| #[trigger] v.side(opposite(order.side)).contains_key(k) ==> v.side(opposite(order.side))[k].len() > 0) by {
        match order.side {
            Side::Bid => {},
            Side::Ask => {},
        }
    }
    lemma_sweep_trades(v.side(opposite(order.side)), order.side, crate::book::limit_of(order), order.id, order.qty);
    let events = submit_result(v, order).1;
    assert(events =~= seq![BookEvent::Accepted { id: order.id }] + s.trades);
    assert forall|i: int| 1 <= i < events.len() implies #[trigger] events[i] == s.trades[i - 1] by {}
    assert forall|i: int, j: int| 1 <= i < j < events.len() implies better_or_equal(
        order.side,
        trade_price(#[trigger] events[i]),
        trade_price(#[trigger] events[j]),
    ) by {
        assert(events[i] == s.trades[i - 1] && events[j] == s.trades[j - 1]);
    }
}

proof fn lemma_fill_placed(orders: Seq<Order>, taker: OrderId, price: Price, remaining: u64, side: Side, k: i64)
    requires
        forall|i: int|
            0 <= i < orders.len() ==> (#[trigger] orders[i]).qty > 0 && orders[i].side == side && orders[i].price
                == Some(Price(k)),
    ensures
        forall|i: int|
            0 <= i < fill_level(orders, taker, price, remaining).rest.len() ==> {
                let o = #[trigger] fill_level(orders, taker, price, remaining).rest[i];
                o.qty > 0 && o.side == side && o.price == Some(Price(k))
            },
    decreases orders.len(),
{
    if remaining > 0 && orders.len() > 0 {
        let front = orders[0];
        let q = crate::book::min_qty(remaining, front.qty);
        if q == front.qty {
            let rest = orders.drop_first();
            assert forall|i: int| 0 <= i < rest.len() implies (#[trigger] rest[i]).qty > 0 && rest[i].side == side
                && rest[i].price == Some(Price(k)) by {
                assert(rest[i] == orders[i + 1]);
            }
            lemma_fill_placed(rest, taker, price, (remaining - q) as u64, side, k);
        }
    }
}

/// Law: a match leaves every order still resting on the swept side with
/// quantity left, that side, and its level's price.
pub proof fn law_sweep_keeps_placement(
    levels: Map<i64, Seq<Order>>,
    taker_side: Side,
    limit: Option<i64>,
    taker: OrderId,
    remaining: u64,
    side: Side,
)
    requires
        orders_placed(levels, side),
    ensures
        orders_placed(sweep(levels, taker_side, limit, taker, remaining).levels, side),
    decreases levels.dom().len(),
{
    if remaining > 0 && levels.dom().finite() {
        match best_level(levels, taker_side) {
            None => {},
            Some(best) => {
                if limit_allows(taker_side, limit, best) && levels.dom().contains(best) {
                    let lv = levels[best];
                    assert forall|i: int| 0 <= i < lv.len() implies (#[trigger] lv[i]).qty > 0 && lv[i].side == side
                        && lv[i].price == Some(Price(best)) by {}
                    lemma_fill_placed(lv, taker, Price(best), remaining, side, best);
                    let f = fill_level(lv, taker, Price(best), remaining);
                    if f.rest.len() == 0 {
                        law_sweep_keeps_placement(levels.remove(best), taker_side, limit, taker, f.remaining, side);
                    }
                }
            },
        }
    }
}

/// Submitting keeps every resting order with quantity left and its side and
/// level price.
pub(crate) proof fn lemma_submit_placed(v: BookView, order: Order)
    requires
        orders_placed(v.bids, Side::Bid),
        orders_placed(v.asks, Side::Ask),
    ensures
        orders_placed(submit_result(v, order).0.bids, Side::Bid),
        orders_placed(submit_result(v, order).0.asks, Side::Ask),
{
    if rejection(order) is None {
        let sd = opposite(order.side);
        let s = submit_sweep(v, order);
        assert(orders_placed(v.side(sd), sd) && orders_placed(v.side(order.side), order.side)) by {
            match order.side {
                Side::Bid => {},
                Side::Ask => {},
            }
        }
        law_sweep_keeps_placement(v.side(sd), order.side, crate::book::limit_of(order), order.id, order.qty, sd);
        let swept = v.with_side(sd, s.levels).with_index(v.index.remove_keys(s.filled));
        assert(orders_placed(swept.side(sd), sd) && orders_placed(swept.side(order.side), order.side)) by {
            match order.side {
                Side::Bid => {},
                Side::Ask => {},
            }
        }
        if s.remaining > 0 && order.kind == OrderType::Limit {
            let p = order.price.unwrap();
            let own = swept.side(order.side);
            let level = if own.contains_key(p.0) { own[p.0] } else { Seq::<Order>::empty() };
            let rested = Order { qty: s.remaining, ..order };
            let nown = own.insert(p.0, level.push(rested));
            assert(p == Price(p.0));
            assert forall|k: i64, i: int| nown.contains_key(k) && 0 <= i < nown[k].len() implies {
                &&& (#[trigger] nown[k][i]).qty > 0
                &&& nown[k][i].side == order.side
                &&& nown[k][i].price == Some(Price(k))
            } by {
                if k == p.0 && i < level.len() {
                    assert(nown[k][i] == own[k][i]);
                } else if k != p.0 {
                    assert(nown[k][i] == own[k][i]);
                }
            }
            let after = swept.with_side(order.side, nown).with_index(swept.index.insert(order.id, (order.side, p)));
            assert(orders_placed(after.bids, Side::Bid) && orders_placed(after.asks, Side::Ask)) by {
                match order.side {
                    Side::Bid => {},
                    Side::Ask => {},
                }
            }
        } else {
            assert(orders_placed(swept.bids, Side::Bid) && orders_placed(swept.asks, Side::Ask)) by {
                match order.side {
                    Side::Bid => {},
                    Side::Ask => {},
                }
            }
        }
    }
}

/// Canceling keeps every resting order with quantity left and its side and
/// level price.
pub(crate) proof fn lemma_cancel_placed(v: BookView, id: OrderId)
    requires
        orders_placed(v.bids, Side::Bid),
        orders_placed(v.asks, Side::Ask),
    ensures
        orders_placed(cancel_result(v, id).0.bids, Side::Bid),
        orders_placed(cancel_result(v, id).0.asks, Side::Ask),
{
    if v.index.contains_key(id) {
        let (sd, price) = v.index[id];
        let l = v.side(sd);
        assert(orders_placed(l, sd)) by {
            match sd {
                Side::Bid => {},
                Side::Ask => {},
            }
        }
        if holds_order(l, price.0, id) {
            let p = price.0;
            let f = choose|f: int| first_with_id(l[p], id, f);
            let nl = without_order(l, p, id);
            assert forall|k: i64, i: int| nl.contains_key(k) && 0 <= i < nl[k].len() implies {
                &&& (#[trigger] nl[k][i]).qty > 0
                &&& nl[k][i].side == sd
                &&& nl[k][i].price == Some(Price(k))
            } by {
                if k == p {
                    if i < f {
                        assert(nl[k][i] == l[p][i]);
                    } else {
                        assert(nl[k][i] == l[p][i + 1]);
                    }
                } else {
                    assert(nl[k][i] == l[k][i]);
                }
            }
            let after = v.with_index(v.index.remove(id)).with_side(sd, nl);
            assert(orders_placed(after.bids, Side::Bid) && orders_placed(after.asks, Side::Ask)) by {
                match sd {
                    Side::Bid => {},
                    Side::Ask => {},
                }
            }
        }
    }
}

/// Law: canceling undoes a submit that only rested. When the index is
/// consistent with a book that holds its invariant, a limit order with a fresh
/// id that the opposite side's best price does not reach comes to rest, and
/// canceling it answers `Canceled` and gives back the book as it was.
pub proof fn law_cancel_undoes_rest(book: OrderBook, order: Order)
    requires
        book.wf(),
        index_consistent(book@),
        rejection(order) is None,
        order.kind == OrderType::Limit,
        !book@.index.contains_key(order.id),
        match best_level(book@.side(opposite(order.side)), order.side) {
            None => true,
            Some(b) => !limit_allows(order.side, crate::book::limit_of(order), b),
        },
    ensures
        cancel_result(submit_result(book@, order).0, order.id) == (book@, Some(BookEvent::Canceled { id: order.id })),
{
    let v = book@;
    assert(v.bids.dom() =~= book.bids@.dom());
    assert(v.asks.dom() =~= book.asks@.dom());
    let sd = opposite(order.side);
    let s = submit_sweep(v, order);
    assert(v.side(sd).dom().finite()) by {
        match order.side {
            Side::Bid => {},
            Side::Ask => {},
        }
    }
    assert(s.levels == v.side(sd) && s.trades.len() == 0 && s.filled == Set::<OrderId>::empty() && s.remaining == order.qty);
    let swept = v.with_side(sd, s.levels).with_index(v.index.remove_keys(s.filled));
    assert(v.index.remove_keys(s.filled) =~= v.index);
    assert(swept == v) by {
        match order.side {
            Side::Bid => {},
            Side::Ask => {},
        }
    }
    let p = order.price.unwrap();
    let own = v.side(order.side);
    let level = if own.contains_key(p.0) { own[p.0] } else { Seq::<Order>::empty() };
    let rested = Order { qty: s.remaining, ..order };
    let nl = level.push(rested);
    let nown = own.insert(p.0, nl);
    let after = v.with_side(order.side, nown).with_index(v.index.insert(order.id, (order.side, p)));
    assert(submit_result(v, order).0 == after);
    assert(after.side(order.side) == nown && after.index[order.id] == (order.side, p)) by {
        match order.side {
            Side::Bid => {},
            Side::Ask => {},
        }
    }
    assert(side_indexed(own, order.side, v.index) && levels_nonempty(book.bids@) && levels_nonempty(book.asks@)) by {
        match order.side {
            Side::Bid => {},
            Side::Ask => {},
        }
    }
    lemma_fresh_absent(own, order.side, v.index, order.id);
    let last = level.len() as int;
    assert forall|j: int| 0 <= j < last implies #[trigger] nl[j].id != order.id by {
        assert(nl[j] == own[p.0][j]);
    }
    assert(first_with_id(nl, order.id, last));
    assert(nown.contains_key(p.0) && nown[p.0] == nl);
    assert(holds_order(nown, p.0, order.id));
    let f = choose|f: int| first_with_id(nl, order.id, f);
    if f < last {
        assert(nl[f].id != order.id);
    }
    assert(f == last);
    assert(nl.remove(last) =~= level);
    if own.contains_key(p.0) {
        assert(own[p.0].len() > 0) by {
            match order.side {
                Side::Bid => assert(book.bids@.contains_key(p.0)),
                Side::Ask => assert(book.asks@.contains_key(p.0)),
            }
        }
        assert(without_order(nown, p.0, order.id) =~= own);
    } else {
        assert(without_order(nown, p.0, order.id) =~= own);
    }
    assert(after.index.remove(order.id) =~= v.index);
    let back = after.with_index(after.index.remove(order.id)).with_side(order.side, without_order(nown, p.0, order.id));
    assert(back == v) by {
        match order.side {
            Side::Bid => {},
            Side::Ask => {},
        }
    }
}

/// Every level of the book holds at least one order.
pub open spec fn view_nonempty(v: BookView) -> bool {
    &&& forall|k: i64| #[trigger] v.bids.contains_key(k) ==> v.bids[k].len() > 0
    &&& forall|k: i64| #[trigger] v.asks.contains_key(k) ==> v.asks[k].len() > 0
}

/// The book and the answers after the ids `ids` are canceled in turn.
pub open spec fn cancel_all(v: BookView, ids: Seq<OrderId>) -> (BookView, Seq<Option<BookEvent>>)
    decreases ids.len(),
{
    if ids.len() == 0 {
        (v, seq![])
    } else {
        let first = cancel_result(v, ids[0]);
        let rest = cancel_all(first.0, ids.drop_first());
        (rest.0, seq![first.1] + rest.1)
    }
}

proof fn lemma_cancel_nonempty(v: BookView, id: OrderId)
    requires
        view_nonempty(v),
    ensures
        view_nonempty(cancel_result(v, id).0),
{
    if v.index.contains_key(id) {
        let (sd, price) = v.index[id];
        let l = v.side(sd);
        assert(forall|k: i64| #[trigger] l.contains_key(k) ==> l[k].len() > 0) by {
            match sd {
                Side::Bid => {},
                Side::Ask => {},
            }
        }
        if holds_order(l, price.0, id) {
            let nl = without_order(l, price.0, id);
            assert(forall|k: i64| #[trigger] nl.contains_key(k) ==> nl[k].len() > 0);
            let after = v.with_index(v.index.remove(id)).with_side(sd, nl);
            assert(view_nonempty(after)) by {
                match sd {
                    Side::Bid => {},
                    Side::Ask => {},
                }
            }
        }
    }
}

proof fn lemma_cancel_all(v: BookView, ids: Seq<OrderId>)
    requires
        index_consistent(v),
        view_nonempty(v),
        ids.no_duplicates(),
        ids.to_set() == v.index.dom(),
    ensures
        cancel_all(v, ids).1.len() == ids.len(),
        forall|i: int| 0 <= i < ids.len() ==> #[trigger] cancel_all(v, ids).1[i] == Some(BookEvent::Canceled { id: ids[i] }),
        cancel_all(v, ids).0.index == Map::<OrderId, (Side, Price)>::empty(),
        cancel_all(v, ids).0.bids == Map::<i64, Seq<Order>>::empty(),
        cancel_all(v, ids).0.asks == Map::<i64, Seq<Order>>::empty(),
    decreases ids.len(),
{
    if ids.len() == 0 {
        assert(v.index.dom() =~= Set::<OrderId>::empty());
        assert(v.index =~= Map::<OrderId, (Side, Price)>::empty());
        assert forall|k: i64| !(#[trigger] v.bids.contains_key(k)) by {
            if v.bids.contains_key(k) {
                assert(v.index.contains_key(v.bids[k][0].id));
            }
        }
        assert forall|k: i64| !(#[trigger] v.asks.contains_key(k)) by {
            if v.asks.contains_key(k) {
                assert(v.index.contains_key(v.asks[k][0].id));
            }
        }
        assert(v.bids =~= Map::<i64, Seq<Order>>::empty());
        assert(v.asks =~= Map::<i64, Seq<Order>>::empty());
    } else {
        let id = ids[0];
        assert(ids.to_set().contains(id));
        let first = cancel_result(v, id);
        lemma_cancel_view(v, id);
        lemma_cancel_nonempty(v, id);
        let rest = ids.drop_first();
        assert(first.0.index == v.index.remove(id));
        assert(rest.no_duplicates()) by {
            assert forall|i: int, j: int| 0 <= i < rest.len() && 0 <= j < rest.len() && i != j implies rest[i] != rest[j] by {
                assert(rest[i] == ids[i + 1] && rest[j] == ids[j + 1]);
            }
        }
        assert(rest.to_set() =~= first.0.index.dom()) by {
            assert forall|x: OrderId| rest.to_set().contains(x) implies first.0.index.dom().contains(x) by {
                let i = choose|i: int| 0 <= i < rest.len() && rest[i] == x;
                assert(ids[i + 1] == x);
                assert(ids.to_set().contains(x));
                assert(x != id);
            }
            assert forall|x: OrderId| first.0.index.dom().contains(x) implies rest.to_set().contains(x) by {
                assert(ids.to_set().contains(x));
                let i = choose|i: int| 0 <= i < ids.len() && ids[i] == x;
                assert(i != 0);
                assert(rest[i - 1] == x);
            }
        }
        lemma_cancel_all(first.0, rest);
        let r = cancel_all(first.0, rest);
        assert forall|i: int| 0 <= i < ids.len() implies #[trigger] cancel_all(v, ids).1[i] == Some(
            BookEvent::Canceled { id: ids[i] },
        ) by {
            if i > 0 {
                assert(cancel_all(v, ids).1[i] == r.1[i - 1]);
                assert(rest[i - 1] == ids[i]);
            }
        }
    }
}

/// Law: canceling every resting order empties the book. When the index is
/// consistent with a book that holds its invariant, canceling each indexed id
/// once, in any order, answers `Canceled` every time and leaves the book and
/// the index empty.
pub proof fn law_cancel_all(book: OrderBook, ids: Seq<OrderId>)
    requires
        book.wf(),
        index_consistent(book@),
        ids.no_duplicates(),
        ids.to_set() == book@.index.dom(),
    ensures
        cancel_all(book@, ids).1.len() == ids.len(),
        forall|i: int| 0 <= i < ids.len() ==> #[trigger] cancel_all(book@, ids).1[i] == Some(BookEvent::Canceled { id: ids[i] }),
        cancel_all(book@, ids).0.index == Map::<OrderId, (Side, Price)>::empty(),
        cancel_all(book@, ids).0.bids == Map::<i64, Seq<Order>>::empty(),
        cancel_all(book@, ids).0.asks == Map::<i64, Seq<Order>>::empty(),
{
    assert(view_nonempty(book@)) by {
        assert forall|k: i64| #[trigger] book@.bids.contains_key(k) implies book@.bids[k].len() > 0 by {
            assert(book.bids@.contains_key(k));
        }
        assert forall|k: i64| #[trigger] book@.asks.contains_key(k) implies book@.asks[k].len() > 0 by {
            assert(book.asks@.contains_key(k));
        }
    }
    lemma_cancel_all(book@, ids);
}

} // verus!
