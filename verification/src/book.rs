//! The order-level book and its price-time priority matching engine.

use std::collections::{BTreeMap, HashMap};

use crate::events::BookEvent;
use crate::keys::{greatest_below, greatest_key_below, least_above, least_key_above};
use crate::level::{
    lemma_qty_sum_ge_element, lemma_qty_sum_push, lemma_qty_sum_remove,
    lemma_qty_sum_update_front, qty_sum, PriceLevel,
};
use crate::order::{Order, OrderId, OrderType, Price, Side};
use vstd::prelude::*;

verus! {

broadcast use {
    vstd::std_specs::hash::group_hash_axioms,
    vstd::std_specs::btree::group_btree_axioms,
    vstd::std_specs::vecdeque::group_vec_dequeue_axioms,
};

/// The orders of every level of one side, by price.
pub open spec fn side_view(m: Map<i64, PriceLevel>) -> Map<i64, Seq<Order>> {
    m.map_values(|l: PriceLevel| l@)
}

/// What one sweep through a single level leaves behind.
pub struct Fill {
    /// The orders still resting at the level, oldest first.
    pub rest: Seq<Order>,
    /// The trades, in the order they happened.
    pub trades: Seq<BookEvent>,
    /// The makers that were filled completely.
    pub filled: Set<OrderId>,
    /// The taker's quantity still unfilled.
    pub remaining: u64,
}

/// The smaller of two quantities.
pub open spec fn min_qty(a: u64, b: u64) -> u64 {
    if a <= b { a } else { b }
}

/// A taker with `remaining` quantity trades against the orders of one level
/// at `price`, oldest first: each trade is for the smaller of what the taker
/// still wants and what the maker still offers; a maker filled completely
/// leaves the level, one filled in part stays at the front with less.
pub open spec fn fill_level(orders: Seq<Order>, taker: OrderId, price: Price, remaining: u64) -> Fill
    decreases orders.len(),
{
    if remaining == 0 || orders.len() == 0 {
        Fill { rest: orders, trades: seq![], filled: Set::empty(), remaining }
    } else {
        let front = orders[0];
        let q = min_qty(remaining, front.qty);
        let trade = BookEvent::Trade { maker: front.id, taker, price, qty: q };
        if q == front.qty {
            let next = fill_level(orders.drop_first(), taker, price, (remaining - q) as u64);
            Fill {
                rest: next.rest,
                trades: seq![trade] + next.trades,
                filled: next.filled.insert(front.id),
                remaining: next.remaining,
            }
        } else {
            Fill {
                rest: orders.update(0, Order { qty: (front.qty - q) as u64, ..front }),
                trades: seq![trade],
                filled: Set::empty(),
                remaining: (remaining - q) as u64,
            }
        }
    }
}

pub proof fn lemma_fill_rest_means_done(orders: Seq<Order>, taker: OrderId, price: Price, remaining: u64)
    ensures
        fill_level(orders, taker, price, remaining).rest.len() > 0
            ==> fill_level(orders, taker, price, remaining).remaining == 0,
        fill_level(orders, taker, price, remaining).remaining <= remaining,
    decreases orders.len(),
{
    if remaining > 0 && orders.len() > 0 {
        let q = min_qty(remaining, orders[0].qty);
        if q == orders[0].qty {
            lemma_fill_rest_means_done(orders.drop_first(), taker, price, (remaining - q) as u64);
        }
    }
}

/// Fills a taker against the orders of `level`, oldest first, as
/// `fill_level` describes; filled makers leave the index.
fn fill_front(
    level: &mut PriceLevel,
    index: &mut HashMap<OrderId, (Side, Price)>,
    taker: OrderId,
    price: Price,
    remaining: u64,
    events: &mut Vec<BookEvent>,
) -> (left: u64)
    requires
        old(level).total_matches(),
    ensures
        final(level)@ == fill_level(old(level)@, taker, price, remaining).rest,
        final(level).total_matches(),
        final(index)@ == old(index)@.remove_keys(fill_level(old(level)@, taker, price, remaining).filled),
        final(events)@ == old(events)@ + fill_level(old(level)@, taker, price, remaining).trades,
        left == fill_level(old(level)@, taker, price, remaining).remaining,
{
    let ghost f0 = fill_level(level@, taker, price, remaining);
    let ghost events0 = events@;
    let ghost index0 = index@;
    let ghost mut trades_done: Seq<BookEvent> = seq![];
    let ghost mut filled_done: Set<OrderId> = Set::empty();
    let mut remaining = remaining;
    assert(index0.remove_keys(filled_done) =~= index0);
    while remaining > 0 && level.orders.len() > 0
        invariant
            level.total_matches(),
            f0.rest == fill_level(level@, taker, price, remaining).rest,
            f0.remaining == fill_level(level@, taker, price, remaining).remaining,
            f0.trades == trades_done + fill_level(level@, taker, price, remaining).trades,
            f0.filled == filled_done + fill_level(level@, taker, price, remaining).filled,
            events@ == events0 + trades_done,
            index@ == index0.remove_keys(filled_done),
        decreases level@.len(), remaining,
    {
        let ghost s = level@;
        let front = level.orders[0];
        let q = if remaining <= front.qty { remaining } else { front.qty };
        let trade = BookEvent::Trade { maker: front.id, taker, price, qty: q };
        events.push(trade);
        proof {
            lemma_qty_sum_ge_element(s, 0);
        }
        level.total_qty = level.total_qty - q;
        remaining = remaining - q;
        if front.qty == q {
            level.orders.pop_front();
            index.remove(&front.id);
            proof {
                assert(level@ =~= s.drop_first());
                assert(index@ =~= index0.remove_keys(filled_done.insert(front.id)));
                let next = fill_level(s.drop_first(), taker, price, remaining);
                assert(f0.trades =~= (trades_done + seq![trade]) + next.trades);
                assert(f0.filled =~= filled_done.insert(front.id) + next.filled);
                trades_done = trades_done + seq![trade];
                filled_done = filled_done.insert(front.id);
            }
        } else {
            let updated = Order { qty: front.qty - q, ..front };
            level.orders.pop_front();
            level.orders.push_front(updated);
            proof {
                assert(level@ =~= s.update(0, updated));
                lemma_qty_sum_update_front(s, updated);
                assert(f0.trades =~= (trades_done + seq![trade]) + seq![]);
                assert(f0.filled =~= filled_done + Set::empty());
                trades_done = trades_done + seq![trade];
            }
        }
    }
    proof {
        assert(trades_done + seq![] =~= trades_done);
        assert(filled_done + Set::<OrderId>::empty() =~= filled_done);
    }
    remaining
}

/// What sweeping one side of the book leaves behind.
pub struct Sweep {
    /// The levels of the swept side afterwards.
    pub levels: Map<i64, Seq<Order>>,
    /// The trades, in the order they happened.
    pub trades: Seq<BookEvent>,
    /// The makers that were filled completely.
    pub filled: Set<OrderId>,
    /// The taker's quantity still unfilled.
    pub remaining: u64,
}

/// The best level a taker on `taker_side` meets: the lowest ask for a buyer,
/// the highest bid for a seller.
pub open spec fn best_level(levels: Map<i64, Seq<Order>>, taker_side: Side) -> Option<i64> {
    match taker_side {
        Side::Bid => least_above(levels.dom(), None),
        Side::Ask => greatest_below(levels.dom(), None),
    }
}

/// A taker with limit `limit` (none for a market order) may trade at `best`:
/// a buyer up to its limit, a seller down to it.
pub open spec fn limit_allows(taker_side: Side, limit: Option<i64>, best: i64) -> bool {
    match limit {
        None => true,
        Some(p) => match taker_side {
            Side::Bid => best <= p,
            Side::Ask => p <= best,
        },
    }
}

/// A taker sweeps the opposite side level by level, best price first, while
/// it has quantity left and its limit allows the price.
pub open spec fn sweep(
    levels: Map<i64, Seq<Order>>,
    taker_side: Side,
    limit: Option<i64>,
    taker: OrderId,
    remaining: u64,
) -> Sweep
    decreases levels.dom().len(),
{
    let done = Sweep { levels, trades: seq![], filled: Set::empty(), remaining };
    if remaining == 0 || !levels.dom().finite() {
        done
    } else {
        match best_level(levels, taker_side) {
            None => done,
            Some(best) => {
                if !limit_allows(taker_side, limit, best) || !levels.dom().contains(best) {
                    done
                } else {
                    let f = fill_level(levels[best], taker, Price(best), remaining);
                    if f.rest.len() == 0 {
                        let next = sweep(levels.remove(best), taker_side, limit, taker, f.remaining);
                        Sweep {
                            levels: next.levels,
                            trades: f.trades + next.trades,
                            filled: f.filled + next.filled,
                            remaining: next.remaining,
                        }
                    } else {
                        Sweep {
                            levels: levels.insert(best, f.rest),
                            trades: f.trades,
                            filled: f.filled,
                            remaining: f.remaining,
                        }
                    }
                }
            },
        }
    }
}

/// The cached total of every level of a side is the sum of its orders'
/// quantities.
pub open spec fn levels_consistent(m: Map<i64, PriceLevel>) -> bool {
    &&& m.dom().finite()
    &&& forall|k: i64| #[trigger] m.contains_key(k) ==> m[k].total_matches()
}

/// Every order resting on `levels`, the side `side`, has quantity left and
/// carries that side and its level's price.
pub open spec fn orders_placed(levels: Map<i64, Seq<Order>>, side: Side) -> bool {
    forall|k: i64, i: int|
        levels.contains_key(k) && 0 <= i < levels[k].len() ==> {
            &&& (#[trigger] levels[k][i]).qty > 0
            &&& levels[k][i].side == side
            &&& levels[k][i].price == Some(Price(k))
        }
}

/// Every level of a side holds at least one order.
pub open spec fn levels_nonempty(m: Map<i64, PriceLevel>) -> bool {
    forall|k: i64| #[trigger] m.contains_key(k) ==> m[k]@.len() > 0
}

/// The best level of a side as the wrappers find it.
fn best_key(levels: &BTreeMap<i64, PriceLevel>, taker_side: Side) -> (r: Option<i64>)
    ensures
        r == best_level(side_view(levels@), taker_side),
{
    proof {
        assert(side_view(levels@).dom() =~= levels@.dom());
    }
    match taker_side {
        Side::Bid => least_key_above(levels, None),
        Side::Ask => greatest_key_below(levels, None),
    }
}

/// Sweeps one side of the book for a taker as `sweep` describes.
fn sweep_side(
    levels: &mut BTreeMap<i64, PriceLevel>,
    index: &mut HashMap<OrderId, (Side, Price)>,
    taker_side: Side,
    limit: Option<i64>,
    taker: OrderId,
    remaining: u64,
    events: &mut Vec<BookEvent>,
) -> (left: u64)
    requires
        levels_consistent(old(levels)@),
    ensures
        levels_consistent(final(levels)@),
        levels_nonempty(old(levels)@) ==> levels_nonempty(final(levels)@),
        side_view(final(levels)@) == sweep(side_view(old(levels)@), taker_side, limit, taker, remaining).levels,
        final(index)@ == old(index)@.remove_keys(
            sweep(side_view(old(levels)@), taker_side, limit, taker, remaining).filled,
        ),
        final(events)@ == old(events)@ + sweep(side_view(old(levels)@), taker_side, limit, taker, remaining).trades,
        left == sweep(side_view(old(levels)@), taker_side, limit, taker, remaining).remaining,
{
    let ghost s0 = sweep(side_view(levels@), taker_side, limit, taker, remaining);
    let ghost events0 = events@;
    let ghost index0 = index@;
    let ghost mut trades_done: Seq<BookEvent> = seq![];
    let ghost mut filled_done: Set<OrderId> = Set::empty();
    let mut remaining = remaining;
    assert(index0.remove_keys(filled_done) =~= index0);
    assert(s0.trades =~= trades_done + s0.trades);
    assert(s0.filled =~= filled_done + s0.filled);
    let ghost nonempty0 = levels_nonempty(levels@);
    loop
        invariant
            levels_consistent(levels@),
            nonempty0 ==> levels_nonempty(levels@),
            s0.levels == sweep(side_view(levels@), taker_side, limit, taker, remaining).levels,
            s0.remaining == sweep(side_view(levels@), taker_side, limit, taker, remaining).remaining,
            s0.trades == trades_done + sweep(side_view(levels@), taker_side, limit, taker, remaining).trades,
            s0.filled == filled_done + sweep(side_view(levels@), taker_side, limit, taker, remaining).filled,
            events@ == events0 + trades_done,
            index@ == index0.remove_keys(filled_done),
        ensures
            sweep(side_view(levels@), taker_side, limit, taker, remaining).levels == side_view(levels@),
            sweep(side_view(levels@), taker_side, limit, taker, remaining).trades == Seq::<BookEvent>::empty(),
            sweep(side_view(levels@), taker_side, limit, taker, remaining).filled == Set::<OrderId>::empty(),
            sweep(side_view(levels@), taker_side, limit, taker, remaining).remaining == remaining,
        decreases levels@.dom().len(), remaining,
    {
        let ghost view = side_view(levels@);
        assert(view.dom() =~= levels@.dom());
        if remaining == 0 {
            break;
        }
        let best = match best_key(levels, taker_side) {
            Some(b) => b,
            None => break,
        };
        let allowed = match limit {
            None => true,
            Some(p) => match taker_side {
                Side::Bid => best <= p,
                Side::Ask => p <= best,
            },
        };
        if !allowed {
            break;
        }
        assert(view.dom().contains(best));
        let ghost rem_before = remaining;
        let ghost levels_before = levels@;
        let mut level = levels.remove(&best).unwrap();
        let ghost lv = level@;
        let ghost f = fill_level(lv, taker, Price(best), rem_before);
        assert(lv == view[best]);
        remaining = fill_front(&mut level, index, taker, Price(best), remaining, events);
        proof {
            lemma_fill_rest_means_done(lv, taker, Price(best), rem_before);
        }
        if level.orders.len() > 0 {
            levels.insert(best, level);
            proof {
                assert(side_view(levels@) =~= view.insert(best, f.rest));
                assert(levels@.dom() =~= levels_before.dom());
            }
        } else {
            proof {
                assert(side_view(levels@) =~= view.remove(best));
            }
        }
        proof {
            let next = sweep(side_view(levels@), taker_side, limit, taker, remaining);
            assert(s0.trades =~= (trades_done + f.trades) + next.trades);
            assert(s0.filled =~= (filled_done + f.filled) + next.filled);
            assert(index@ =~= index0.remove_keys(filled_done + f.filled));
            trades_done = trades_done + f.trades;
            filled_done = filled_done + f.filled;
        }
    }
    proof {
        assert(trades_done + Seq::<BookEvent>::empty() =~= trades_done);
        assert(filled_done + Set::<OrderId>::empty() =~= filled_done);
    }
    remaining
}

/// The book as the contracts see it: the orders of each level of each side,
/// by price, and the index from order ids to where they rest.
pub struct BookView {
    pub bids: Map<i64, Seq<Order>>,
    pub asks: Map<i64, Seq<Order>>,
    pub index: Map<OrderId, (Side, Price)>,
}

/// The side an order on `side` trades against.
pub open spec fn opposite(side: Side) -> Side {
    match side {
        Side::Bid => Side::Ask,
        Side::Ask => Side::Bid,
    }
}

impl BookView {
    /// The levels of one side.
    pub open spec fn side(self, side: Side) -> Map<i64, Seq<Order>> {
        match side {
            Side::Bid => self.bids,
            Side::Ask => self.asks,
        }
    }

    /// The book with the levels of one side replaced.
    pub open spec fn with_side(self, side: Side, levels: Map<i64, Seq<Order>>) -> BookView {
        match side {
            Side::Bid => BookView { bids: levels, ..self },
            Side::Ask => BookView { asks: levels, ..self },
        }
    }

    /// The book with the index replaced.
    pub open spec fn with_index(self, index: Map<OrderId, (Side, Price)>) -> BookView {
        BookView { index, ..self }
    }
}

/// Every bid price lies strictly below every ask price.
pub open spec fn not_crossed(bids: Set<i64>, asks: Set<i64>) -> bool {
    forall|b: i64, a: i64| #[trigger] bids.contains(b) && #[trigger] asks.contains(a) ==> b < a
}

/// The limit a submitted order trades up (or down) to: its price for a limit
/// order, none for a market order.
pub open spec fn limit_of(order: Order) -> Option<i64> {
    limit_for(order.kind, order.price)
}

/// The limit of an order of kind `kind` at `price`.
pub open spec fn limit_for(kind: OrderType, price: Option<Price>) -> Option<i64> {
    match kind {
        OrderType::Limit => Some(price.unwrap().0),
        OrderType::Market => None,
    }
}

/// The sweep of the opposite side that an accepted order makes.
pub open spec fn submit_sweep(v: BookView, order: Order) -> Sweep {
    sweep(v.side(opposite(order.side)), order.side, limit_of(order), order.id, order.qty)
}

/// Why the book refuses an order, if it does.
pub open spec fn rejection(order: Order) -> Option<&'static str> {
    if order.qty == 0 {
        Some("zero quantity")
    } else if order.kind == OrderType::Limit && order.price is None {
        Some("limit without price")
    } else {
        None
    }
}

/// The quantity resting at one level of a side (zero when there is no level).
pub open spec fn level_qty(levels: Map<i64, Seq<Order>>, price: i64) -> int {
    if levels.contains_key(price) {
        qty_sum(levels[price])
    } else {
        0
    }
}

/// The book and the events after `order` is submitted to the book `v`.
/// A refused order changes nothing and yields one `Rejected` event. An
/// accepted one yields `Accepted`, then the trades of its sweep of the
/// opposite side; the makers it fills completely leave the book and the
/// index; what is left of a limit order rests at the back of its own level.
pub open spec fn submit_result(v: BookView, order: Order) -> (BookView, Seq<BookEvent>) {
    match rejection(order) {
        Some(reason) => (v, seq![BookEvent::Rejected { id: order.id, reason }]),
        None => {
            let s = submit_sweep(v, order);
            let swept = v.with_side(opposite(order.side), s.levels).with_index(
                v.index.remove_keys(s.filled),
            );
            let events = seq![BookEvent::Accepted { id: order.id }] + s.trades;
            if s.remaining > 0 && order.kind == OrderType::Limit {
                let p = order.price.unwrap();
                let own = swept.side(order.side);
                let level = if own.contains_key(p.0) { own[p.0] } else { Seq::<Order>::empty() };
                let rested = Order { qty: s.remaining, ..order };
                (
                    swept.with_side(order.side, own.insert(p.0, level.push(rested))).with_index(
                        swept.index.insert(order.id, (order.side, p)),
                    ),
                    events,
                )
            } else {
                (swept, events)
            }
        },
    }
}

/// The resting total at the order's own level stays within a `u64` when what
/// is left of it comes to rest there.
pub open spec fn submit_fits(v: BookView, order: Order) -> bool {
    rejection(order) is None && order.kind == OrderType::Limit && submit_sweep(v, order).remaining > 0
        ==> level_qty(v.side(order.side), order.price.unwrap().0) + submit_sweep(v, order).remaining
        <= u64::MAX
}

/// A price-time priority limit order book.
#[derive(Debug)]
pub struct OrderBook {
    /// Bid levels by price in ticks.
    pub bids: BTreeMap<i64, PriceLevel>,
    /// Ask levels by price in ticks.
    pub asks: BTreeMap<i64, PriceLevel>,
    /// Where each resting order rests.
    pub index: HashMap<OrderId, (Side, Price)>,
}

impl View for OrderBook {
    type V = BookView;

    open spec fn view(&self) -> BookView {
        BookView { bids: side_view(self.bids@), asks: side_view(self.asks@), index: self.index@ }
    }
}

impl Default for OrderBook {
    /// An empty book.
    fn default() -> (book: Self)
        ensures
            book.wf(),
            book@.bids == Map::<i64, Seq<Order>>::empty(),
            book@.asks == Map::<i64, Seq<Order>>::empty(),
            book@.index == Map::<OrderId, (Side, Price)>::empty(),
    {
        OrderBook::new()
    }
}

impl OrderBook {
    /// Every level's cached total matches its orders.
    pub open spec fn consistent(&self) -> bool {
        &&& levels_consistent(self.bids@)
        &&& levels_consistent(self.asks@)
    }

    /// The book's invariant: totals match, every level holds orders, every
    /// resting order has quantity left and carries its side and level price,
    /// and the book is not crossed.
    pub open spec fn wf(&self) -> bool {
        &&& self.consistent()
        &&& levels_nonempty(self.bids@)
        &&& levels_nonempty(self.asks@)
        &&& orders_placed(self@.bids, Side::Bid)
        &&& orders_placed(self@.asks, Side::Ask)
        &&& not_crossed(self.bids@.dom(), self.asks@.dom())
    }

    /// An empty book.
    pub fn new() -> (book: Self)
        ensures
            book.wf(),
            book@.bids == Map::<i64, Seq<Order>>::empty(),
            book@.asks == Map::<i64, Seq<Order>>::empty(),
            book@.index == Map::<OrderId, (Side, Price)>::empty(),
            crate::laws::index_consistent(book@),
    {
        let book = OrderBook { bids: BTreeMap::new(), asks: BTreeMap::new(), index: HashMap::new() };
        proof {
            assert(book@.bids =~= Map::<i64, Seq<Order>>::empty());
            assert(book@.asks =~= Map::<i64, Seq<Order>>::empty());
        }
        book
    }

    /// The highest bid price.
    pub fn best_bid(&self) -> (r: Option<Price>)
        ensures
            r == match greatest_below(self@.bids.dom(), None) {
                Some(k) => Some(Price(k)),
                None => None::<Price>,
            },
    {
        proof {
            assert(self@.bids.dom() =~= self.bids@.dom());
        }
        match greatest_key_below(&self.bids, None) {
            Some(k) => Some(Price(k)),
            None => None,
        }
    }

    /// The lowest ask price.
    pub fn best_ask(&self) -> (r: Option<Price>)
        ensures
            r == match least_above(self@.asks.dom(), None) {
                Some(k) => Some(Price(k)),
                None => None::<Price>,
            },
    {
        proof {
            assert(self@.asks.dom() =~= self.asks@.dom());
        }
        match least_key_above(&self.asks, None) {
            Some(k) => Some(Price(k)),
            None => None,
        }
    }
}

/// Once a sweep stops with quantity left, its limit allows none of the levels
/// still there; and a sweep only ever takes levels away.
pub proof fn lemma_sweep_stops(
    levels: Map<i64, Seq<Order>>,
    taker_side: Side,
    limit: Option<i64>,
    taker: OrderId,
    remaining: u64,
)
    requires
        levels.dom().finite(),
    ensures
        sweep(levels, taker_side, limit, taker, remaining).levels.dom().subset_of(levels.dom()),
        sweep(levels, taker_side, limit, taker, remaining).remaining <= remaining,
        sweep(levels, taker_side, limit, taker, remaining).remaining > 0 ==> forall|k: i64|
            #[trigger] sweep(levels, taker_side, limit, taker, remaining).levels.dom().contains(k)
                ==> !limit_allows(taker_side, limit, k),
    decreases levels.dom().len(),
{
    let s = sweep(levels, taker_side, limit, taker, remaining);
    if remaining == 0 {
    } else {
        match best_level(levels, taker_side) {
            None => {
                if levels.dom().len() > 0 {
                    match taker_side {
                        Side::Bid => crate::keys::lemma_least_exists(levels.dom()),
                        Side::Ask => crate::keys::lemma_greatest_exists(levels.dom()),
                    }
                }
                assert(levels.dom() =~= Set::<i64>::empty());
            },
            Some(best) => {
                match taker_side {
                    Side::Bid => assert(crate::keys::is_least_above(levels.dom(), None, best)),
                    Side::Ask => assert(crate::keys::is_greatest_below(levels.dom(), None, best)),
                }
                if !limit_allows(taker_side, limit, best) {
                    assert forall|k: i64| #[trigger] s.levels.dom().contains(k) implies !limit_allows(
                        taker_side,
                        limit,
                        k,
                    ) by {
                        assert(levels.dom().contains(k));
                    }
                } else {
                    let f = fill_level(levels[best], taker, Price(best), remaining);
                    lemma_fill_rest_means_done(levels[best], taker, Price(best), remaining);
                    if f.rest.len() == 0 {
                        lemma_sweep_stops(levels.remove(best), taker_side, limit, taker, f.remaining);
                    }
                }
            },
        }
    }
}

/// Puts `rested` at the back of the level at `price`, opening the level if
/// there is none.
fn rest_in(levels: &mut BTreeMap<i64, PriceLevel>, price: i64, rested: Order)
    requires
        levels_consistent(old(levels)@),
        level_qty(side_view(old(levels)@), price) + rested.qty <= u64::MAX,
    ensures
        levels_consistent(final(levels)@),
        levels_nonempty(old(levels)@) ==> levels_nonempty(final(levels)@),
        side_view(final(levels)@) == side_view(old(levels)@).insert(
            price,
            (if side_view(old(levels)@).contains_key(price) {
                side_view(old(levels)@)[price]
            } else {
                Seq::<Order>::empty()
            }).push(rested),
        ),
{
    let ghost before = side_view(levels@);
    let mut level = match levels.remove(&price) {
        Some(l) => l,
        None => PriceLevel::new(),
    };
    proof {
        assert(qty_sum(Seq::<Order>::empty()) == 0);
        lemma_qty_sum_push(level@, rested);
    }
    level.orders.push_back(rested);
    level.total_qty = level.total_qty + rested.qty;
    levels.insert(price, level);
    proof {
        assert(side_view(levels@) =~= before.insert(
            price,
            (if before.contains_key(price) { before[price] } else { Seq::<Order>::empty() }).push(rested),
        ));
    }
}

impl OrderBook {
    /// Sweeps the asks for a buyer.
    fn match_buy(
        &mut self,
        taker_id: OrderId,
        taker_kind: OrderType,
        taker_price: Option<Price>,
        remaining: u64,
        events: &mut Vec<BookEvent>,
    ) -> (left: u64)
        requires
            old(self).consistent(),
            taker_kind == OrderType::Limit ==> taker_price is Some,
        ensures
            final(self).bids == old(self).bids,
            levels_consistent(final(self).asks@),
            levels_nonempty(old(self).asks@) ==> levels_nonempty(final(self).asks@),
            final(self)@.asks == sweep(old(self)@.asks, Side::Bid, limit_for(taker_kind, taker_price), taker_id, remaining).levels,
            final(self)@.index == old(self)@.index.remove_keys(
                sweep(old(self)@.asks, Side::Bid, limit_for(taker_kind, taker_price), taker_id, remaining).filled,
            ),
            final(events)@ == old(events)@ + sweep(old(self)@.asks, Side::Bid, limit_for(taker_kind, taker_price), taker_id, remaining).trades,
            left == sweep(old(self)@.asks, Side::Bid, limit_for(taker_kind, taker_price), taker_id, remaining).remaining,
    {
        let limit = match taker_kind {
            OrderType::Limit => Some(taker_price.unwrap().0),
            OrderType::Market => None,
        };
        sweep_side(&mut self.asks, &mut self.index, Side::Bid, limit, taker_id, remaining, events)
    }

    /// Sweeps the bids for a seller.
    fn match_sell(
        &mut self,
        taker_id: OrderId,
        taker_kind: OrderType,
        taker_price: Option<Price>,
        remaining: u64,
        events: &mut Vec<BookEvent>,
    ) -> (left: u64)
        requires
            old(self).consistent(),
            taker_kind == OrderType::Limit ==> taker_price is Some,
        ensures
            final(self).asks == old(self).asks,
            levels_consistent(final(self).bids@),
            levels_nonempty(old(self).bids@) ==> levels_nonempty(final(self).bids@),
            final(self)@.bids == sweep(old(self)@.bids, Side::Ask, limit_for(taker_kind, taker_price), taker_id, remaining).levels,
            final(self)@.index == old(self)@.index.remove_keys(
                sweep(old(self)@.bids, Side::Ask, limit_for(taker_kind, taker_price), taker_id, remaining).filled,
            ),
            final(events)@ == old(events)@ + sweep(old(self)@.bids, Side::Ask, limit_for(taker_kind, taker_price), taker_id, remaining).trades,
            left == sweep(old(self)@.bids, Side::Ask, limit_for(taker_kind, taker_price), taker_id, remaining).remaining,
    {
        let limit = match taker_kind {
            OrderType::Limit => Some(taker_price.unwrap().0),
            OrderType::Market => None,
        };
        sweep_side(&mut self.bids, &mut self.index, Side::Ask, limit, taker_id, remaining, events)
    }

    /// Submits an order: refuses it when it has no quantity or is a limit
    /// order without a price; otherwise matches it against the opposite side
    /// and rests what is left of a limit order.
    pub fn submit(&mut self, order: Order) -> (events: Vec<BookEvent>)
        requires
            old(self).consistent(),
            submit_fits(old(self)@, order),
        ensures
            final(self).consistent(),
            old(self).wf() ==> final(self).wf(),
            final(self)@ == submit_result(old(self)@, order).0,
            events@ == submit_result(old(self)@, order).1,
    {
        let mut events: Vec<BookEvent> = Vec::new();
        if order.qty == 0 {
            events.push(BookEvent::Rejected { id: order.id, reason: "zero quantity" });
            return events;
        }
        let is_limit = match order.kind {
            OrderType::Limit => true,
            OrderType::Market => false,
        };
        if is_limit && order.price.is_none() {
            events.push(BookEvent::Rejected { id: order.id, reason: "limit without price" });
            return events;
        }
        events.push(BookEvent::Accepted { id: order.id });
        let ghost v0 = self@;
        let ghost s = submit_sweep(v0, order);
        proof {
            assert(v0.bids.dom() =~= old(self).bids@.dom());
            assert(v0.asks.dom() =~= old(self).asks@.dom());
            lemma_sweep_stops(v0.side(opposite(order.side)), order.side, limit_of(order), order.id, order.qty);
        }
        let remaining = match order.side {
            Side::Bid => self.match_buy(order.id, order.kind, order.price, order.qty, &mut events),
            Side::Ask => self.match_sell(order.id, order.kind, order.price, order.qty, &mut events),
        };
        let ghost swept = v0.with_side(opposite(order.side), s.levels).with_index(v0.index.remove_keys(s.filled));
        assert(self@ == swept);
        if remaining > 0 && is_limit {
            let price = order.price.unwrap();
            let rested = Order { qty: remaining, ..order };
            match order.side {
                Side::Bid => rest_in(&mut self.bids, price.0, rested),
                Side::Ask => rest_in(&mut self.asks, price.0, rested),
            }
            self.index.insert(order.id, (order.side, price));
        }
        proof {
            assert(self.bids@.dom() =~= self@.bids.dom());
            assert(self.asks@.dom() =~= self@.asks.dom());
            assert(v0.bids.dom() =~= old(self).bids@.dom());
            assert(v0.asks.dom() =~= old(self).asks@.dom());
            if old(self).wf() {
                crate::laws::lemma_submit_placed(v0, order);
            }
        }
        events
    }
}

/// Position `i` holds the first order of `orders` with id `id`.
pub open spec fn first_with_id(orders: Seq<Order>, id: OrderId, i: int) -> bool {
    &&& 0 <= i < orders.len()
    &&& orders[i].id == id
    &&& forall|j: int| 0 <= j < i ==> #[trigger] orders[j].id != id
}

/// A side after the first order with id `id` leaves the level at `price`; the
/// level goes when it is left empty.
pub open spec fn without_order(levels: Map<i64, Seq<Order>>, price: i64, id: OrderId) -> Map<i64, Seq<Order>> {
    let i = choose|i: int| first_with_id(levels[price], id, i);
    let rest = levels[price].remove(i);
    if rest.len() == 0 {
        levels.remove(price)
    } else {
        levels.insert(price, rest)
    }
}

/// The level at `price` of `levels` holds an order with id `id`.
pub open spec fn holds_order(levels: Map<i64, Seq<Order>>, price: i64, id: OrderId) -> bool {
    levels.contains_key(price) && exists|i: int| first_with_id(levels[price], id, i)
}

/// The book and the answer after canceling `id`. The id leaves the index if
/// it is there; the order leaves the level the index names for it, and the
/// answer is `Canceled` exactly when such an order was found there.
pub open spec fn cancel_result(v: BookView, id: OrderId) -> (BookView, Option<BookEvent>) {
    if !v.index.contains_key(id) {
        (v, None)
    } else {
        let (side, price) = v.index[id];
        let unindexed = v.with_index(v.index.remove(id));
        if holds_order(v.side(side), price.0, id) {
            (
                unindexed.with_side(side, without_order(v.side(side), price.0, id)),
                Some(BookEvent::Canceled { id }),
            )
        } else {
            (unindexed, None)
        }
    }
}

/// Takes the first order with id `id` out of the level at `price`.
fn remove_order(levels: &mut BTreeMap<i64, PriceLevel>, price: i64, id: OrderId) -> (found: bool)
    requires
        levels_consistent(old(levels)@),
    ensures
        levels_consistent(final(levels)@),
        levels_nonempty(old(levels)@) ==> levels_nonempty(final(levels)@),
        found == holds_order(side_view(old(levels)@), price, id),
        found ==> side_view(final(levels)@) == without_order(side_view(old(levels)@), price, id),
        !found ==> final(levels)@ == old(levels)@,
        final(levels)@.dom().subset_of(old(levels)@.dom()),
{
    let ghost before = levels@;
    let ghost view = side_view(levels@);
    let mut level = match levels.remove(&price) {
        Some(l) => l,
        None => {
            return false;
        },
    };
    let ghost orders = level@;
    assert(view[price] == orders);
    let n = level.orders.len();
    let mut pos: usize = 0;
    while pos < n && level.orders[pos].id != id
        invariant
            n == level@.len(),
            level@ == orders,
            0 <= pos <= n,
            forall|j: int| 0 <= j < pos ==> #[trigger] orders[j].id != id,
        decreases n - pos,
    {
        pos = pos + 1;
    }
    if pos == n {
        levels.insert(price, level);
        proof {
            assert(levels@ =~= before);
            if holds_order(view, price, id) {
                let i = choose|i: int| first_with_id(view[price], id, i);
                assert(orders[i].id == id);
            }
        }
        return false;
    }
    proof {
        assert(first_with_id(orders, id, pos as int));
        let i = choose|i: int| first_with_id(view[price], id, i);
        if i < pos {
            assert(orders[i].id != id);
        } else if pos < i {
            assert(orders[pos as int].id != id);
        }
        assert(i == pos);
        lemma_qty_sum_remove(orders, pos as int);
        crate::level::lemma_qty_sum_nonneg(orders.remove(pos as int));
    }
    let removed = level.orders.remove(pos).unwrap();
    level.total_qty = level.total_qty - removed.qty;
    if level.orders.len() > 0 {
        levels.insert(price, level);
        proof {
            assert(side_view(levels@) =~= without_order(view, price, id));
        }
    } else {
        proof {
            assert(side_view(levels@) =~= without_order(view, price, id));
        }
    }
    true
}

impl OrderBook {
    /// Cancels a resting order by id, through the index.
    pub fn cancel(&mut self, id: OrderId) -> (r: Option<BookEvent>)
        requires
            old(self).consistent(),
        ensures
            final(self).consistent(),
            old(self).wf() ==> final(self).wf(),
            final(self)@ == cancel_result(old(self)@, id).0,
            r == cancel_result(old(self)@, id).1,
    {
        let ghost v0 = self@;
        let (side, price) = match self.index.remove(&id) {
            Some(entry) => entry,
            None => {
                proof {
                    assert(self.index@ =~= v0.index);
                }
                return None;
            },
        };
        let found = match side {
            Side::Bid => remove_order(&mut self.bids, price.0, id),
            Side::Ask => remove_order(&mut self.asks, price.0, id),
        };
        proof {
            assert(self.bids@.dom().subset_of(old(self).bids@.dom()));
            assert(self.asks@.dom().subset_of(old(self).asks@.dom()));
            if old(self).wf() {
                crate::laws::lemma_cancel_placed(v0, id);
            }
        }
        if found {
            Some(BookEvent::Canceled { id })
        } else {
            None
        }
    }
}

} // verus!
