use cc_order_book_sim::book::OrderBook;
use cc_order_book_sim::events::BookEvent;
use cc_order_book_sim::feed::random::RandomFeed;
use cc_order_book_sim::order::{Order, OrderId, OrderType, Price, Side};

fn limit(id: OrderId, side: Side, price: i64, qty: u64) -> Order {
    Order { id, side, kind: OrderType::Limit, price: Some(Price(price)), qty, ts: id }
}

fn market(id: OrderId, side: Side, qty: u64) -> Order {
    Order { id, side, kind: OrderType::Market, price: None, qty, ts: id }
}

fn trades(events: &[BookEvent]) -> Vec<(OrderId, OrderId, i64, u64)> {
    events
        .iter()
        .filter_map(|e| match e {
            BookEvent::Trade { maker, taker, price, qty } => Some((*maker, *taker, price.0, *qty)),
            _ => None,
        })
        .collect()
}

fn resting_qty(book: &OrderBook) -> u64 {
    book.bids.values().map(|l| l.total_qty).sum::<u64>() + book.asks.values().map(|l| l.total_qty).sum::<u64>()
}

const SEEDS: [u64; 6] = [0, 1, 7, 42, 123_456_789, u64::MAX];

#[test]
fn best_bid_strictly_below_best_ask() {
    for seed in SEEDS {
        let mut book = OrderBook::new();
        let mut feed = RandomFeed::new(seed);
        for _ in 0..500 {
            let order = feed.next().unwrap();
            book.submit(order);
            if let (Some(b), Some(a)) = (book.best_bid(), book.best_ask()) {
                assert!(b < a, "crossed book: bid={:?} ask={:?}", b, a);
            }
        }
    }
}

#[test]
fn quantity_is_conserved() {
    for seed in SEEDS {
        let mut book = OrderBook::new();
        let mut feed = RandomFeed::new(seed);
        let mut accepted_qty: u64 = 0;
        let mut traded_qty: u64 = 0;
        for _ in 0..500 {
            let order = feed.next().unwrap();
            let q = order.qty;
            let events = book.submit(order);
            let rejected = events.iter().any(|e| matches!(e, BookEvent::Rejected { .. }));
            if !rejected {
                accepted_qty += q;
            }
            for (_, _, _, qty) in trades(&events) {
                traded_qty += qty;
            }
        }
        assert_eq!(accepted_qty, resting_qty(&book) + 2 * traded_qty);
    }
}

#[test]
fn cancel_removes_order() {
    for seed in SEEDS {
        let mut book = OrderBook::new();
        let mut feed = RandomFeed::new(seed);
        for _ in 0..200 {
            book.submit(feed.next().unwrap());
        }
        let resting_ids: Vec<_> = book.index.keys().copied().collect();
        for id in resting_ids {
            let result = book.cancel(id);
            assert!(matches!(result, Some(BookEvent::Canceled { id: c }) if c == id));
            assert!(!book.index.contains_key(&id));
            for level in book.bids.values().chain(book.asks.values()) {
                assert!(level.orders.iter().all(|o| o.id != id));
            }
        }
        assert!(book.bids.is_empty() && book.asks.is_empty());
    }
}

#[test]
fn level_total_qty_matches_sum() {
    for seed in SEEDS {
        let mut book = OrderBook::new();
        let mut feed = RandomFeed::new(seed);
        for _ in 0..500 {
            book.submit(feed.next().unwrap());
        }
        for level in book.bids.values().chain(book.asks.values()) {
            let sum: u64 = level.orders.iter().map(|o| o.qty).sum();
            assert_eq!(level.total_qty, sum);
            assert!(!level.orders.is_empty());
        }
    }
}

#[test]
fn rejects_zero_quantity() {
    let mut book = OrderBook::new();
    let events = book.submit(limit(1, Side::Bid, 100, 0));
    assert_eq!(events.len(), 1);
    assert!(matches!(events[0], BookEvent::Rejected { id: 1, reason: "zero quantity" }));
    assert!(book.bids.is_empty() && book.asks.is_empty() && book.index.is_empty());
}

#[test]
fn rejects_limit_without_price() {
    let mut book = OrderBook::new();
    let order = Order { id: 3, side: Side::Ask, kind: OrderType::Limit, price: None, qty: 5, ts: 0 };
    let events = book.submit(order);
    assert_eq!(events.len(), 1);
    assert!(matches!(events[0], BookEvent::Rejected { id: 3, reason: "limit without price" }));
    assert!(book.asks.is_empty());
}

#[test]
fn limit_order_rests_when_nothing_crosses() {
    let mut book = OrderBook::new();
    let events = book.submit(limit(1, Side::Bid, 100, 5));
    assert_eq!(events.len(), 1);
    assert!(matches!(events[0], BookEvent::Accepted { id: 1 }));
    assert_eq!(book.best_bid(), Some(Price(100)));
    assert_eq!(book.best_ask(), None);
    assert_eq!(book.index.get(&1), Some(&(Side::Bid, Price(100))));
    let events = book.submit(limit(2, Side::Ask, 101, 4));
    assert_eq!(events.len(), 1);
    assert_eq!(book.best_ask(), Some(Price(101)));
}

#[test]
fn crossing_limit_trades_at_maker_price_then_rests() {
    let mut book = OrderBook::new();
    book.submit(limit(1, Side::Ask, 101, 5));
    let events = book.submit(limit(2, Side::Bid, 102, 8));
    assert!(matches!(events[0], BookEvent::Accepted { id: 2 }));
    assert_eq!(trades(&events), vec![(1, 2, 101, 5)]);
    assert!(book.asks.is_empty());
    assert!(!book.index.contains_key(&1));
    assert_eq!(book.best_bid(), Some(Price(102)));
    let level = &book.bids[&102];
    assert_eq!(level.total_qty, 3);
    assert_eq!(level.orders.len(), 1);
    assert_eq!(level.orders[0].qty, 3);
    assert_eq!(level.orders[0].id, 2);
}

#[test]
fn partial_fill_leaves_maker_at_front() {
    let mut book = OrderBook::new();
    book.submit(limit(1, Side::Ask, 101, 5));
    book.submit(limit(2, Side::Ask, 101, 7));
    let events = book.submit(limit(3, Side::Bid, 101, 3));
    assert_eq!(trades(&events), vec![(1, 3, 101, 3)]);
    let level = &book.asks[&101];
    assert_eq!(level.orders.iter().map(|o| (o.id, o.qty)).collect::<Vec<_>>(), vec![(1, 2), (2, 7)]);
    assert_eq!(level.total_qty, 9);
    assert!(!book.index.contains_key(&3));
}

#[test]
fn time_priority_within_a_level() {
    let mut book = OrderBook::new();
    book.submit(limit(1, Side::Bid, 99, 2));
    book.submit(limit(2, Side::Bid, 99, 2));
    book.submit(limit(3, Side::Bid, 99, 2));
    let events = book.submit(limit(4, Side::Ask, 99, 5));
    assert_eq!(trades(&events), vec![(1, 4, 99, 2), (2, 4, 99, 2), (3, 4, 99, 1)]);
    assert_eq!(book.bids[&99].orders[0].id, 3);
    assert_eq!(book.bids[&99].total_qty, 1);
}

#[test]
fn sweep_walks_levels_best_price_first_and_stops_at_limit() {
    let mut book = OrderBook::new();
    book.submit(limit(1, Side::Ask, 103, 1));
    book.submit(limit(2, Side::Ask, 101, 1));
    book.submit(limit(3, Side::Ask, 102, 1));
    let events = book.submit(limit(4, Side::Bid, 102, 5));
    assert_eq!(trades(&events), vec![(2, 4, 101, 1), (3, 4, 102, 1)]);
    assert_eq!(book.best_ask(), Some(Price(103)));
    assert_eq!(book.best_bid(), Some(Price(102)));
    assert_eq!(book.bids[&102].total_qty, 3);
}

#[test]
fn sell_sweeps_highest_bid_first() {
    let mut book = OrderBook::new();
    book.submit(limit(1, Side::Bid, 98, 2));
    book.submit(limit(2, Side::Bid, 100, 2));
    book.submit(limit(3, Side::Bid, 99, 2));
    let events = book.submit(limit(4, Side::Ask, 99, 3));
    assert_eq!(trades(&events), vec![(2, 4, 100, 2), (3, 4, 99, 1)]);
    assert_eq!(book.best_bid(), Some(Price(99)));
    assert_eq!(book.best_ask(), None);
}

#[test]
fn market_order_never_rests() {
    let mut book = OrderBook::new();
    book.submit(limit(1, Side::Ask, 101, 2));
    book.submit(limit(2, Side::Ask, 150, 2));
    let events = book.submit(market(3, Side::Bid, 10));
    assert_eq!(trades(&events), vec![(1, 3, 101, 2), (2, 3, 150, 2)]);
    assert!(book.asks.is_empty() && book.bids.is_empty());
    assert!(!book.index.contains_key(&3));
    let events = book.submit(market(4, Side::Ask, 1));
    assert_eq!(events.len(), 1);
    assert!(matches!(events[0], BookEvent::Accepted { id: 4 }));
    assert!(book.bids.is_empty() && book.asks.is_empty());
}

#[test]
fn cancel_unknown_id_answers_none() {
    let mut book = OrderBook::new();
    book.submit(limit(1, Side::Bid, 100, 5));
    assert!(book.cancel(2).is_none());
    assert_eq!(book.bids[&100].total_qty, 5);
}

#[test]
fn cancel_from_the_middle_of_a_level() {
    let mut book = OrderBook::new();
    book.submit(limit(1, Side::Ask, 105, 1));
    book.submit(limit(2, Side::Ask, 105, 2));
    book.submit(limit(3, Side::Ask, 105, 3));
    assert!(matches!(book.cancel(2), Some(BookEvent::Canceled { id: 2 })));
    let level = &book.asks[&105];
    assert_eq!(level.orders.iter().map(|o| o.id).collect::<Vec<_>>(), vec![1, 3]);
    assert_eq!(level.total_qty, 4);
    assert!(book.cancel(2).is_none());
    book.cancel(1);
    book.cancel(3);
    assert!(book.asks.is_empty());
    assert_eq!(book.best_ask(), None);
}

#[test]
fn cancel_of_filled_order_answers_none() {
    let mut book = OrderBook::new();
    book.submit(limit(1, Side::Ask, 101, 2));
    book.submit(limit(2, Side::Bid, 101, 2));
    assert!(book.cancel(1).is_none());
    assert!(book.cancel(2).is_none());
}

#[test]
fn best_prices_are_the_extremes_not_the_first_inserted() {
    let mut book = OrderBook::new();
    book.submit(limit(1, Side::Bid, 90, 1));
    book.submit(limit(2, Side::Bid, 95, 1));
    book.submit(limit(3, Side::Bid, 93, 1));
    book.submit(limit(4, Side::Ask, 120, 1));
    book.submit(limit(5, Side::Ask, 110, 1));
    book.submit(limit(6, Side::Ask, 115, 1));
    assert_eq!(book.best_bid(), Some(Price(95)));
    assert_eq!(book.best_ask(), Some(Price(110)));
}

fn levels(book: &OrderBook) -> Vec<(Side, i64, u64, Vec<(OrderId, u64)>)> {
    let mut out = Vec::new();
    for (p, l) in book.bids.iter() {
        out.push((Side::Bid, *p, l.total_qty, l.orders.iter().map(|o| (o.id, o.qty)).collect()));
    }
    for (p, l) in book.asks.iter() {
        out.push((Side::Ask, *p, l.total_qty, l.orders.iter().map(|o| (o.id, o.qty)).collect()));
    }
    out
}

fn index(book: &OrderBook) -> Vec<(OrderId, Side, i64)> {
    let mut out: Vec<_> = book.index.iter().map(|(id, (s, p))| (*id, *s, p.0)).collect();
    out.sort_by_key(|e| e.0);
    out
}

#[test]
fn cancel_undoes_a_submit_that_only_rested() {
    let mut book = OrderBook::new();
    book.submit(limit(1, Side::Bid, 99, 5));
    book.submit(limit(2, Side::Bid, 98, 3));
    book.submit(limit(3, Side::Ask, 101, 4));
    let before = (levels(&book), index(&book));
    for order in [limit(4, Side::Bid, 99, 7), limit(5, Side::Ask, 100, 2), limit(6, Side::Ask, 101, 1)] {
        let events = book.submit(order);
        assert!(trades(&events).is_empty());
        let answer = book.cancel(order.id);
        assert!(matches!(answer, Some(BookEvent::Canceled { id }) if id == order.id));
        assert_eq!((levels(&book), index(&book)), before);
    }
}

#[test]
fn resting_orders_keep_side_price_and_quantity() {
    for seed in SEEDS {
        let mut book = OrderBook::new();
        for order in RandomFeed::new(seed).take(400) {
            book.submit(order);
        }
        for (p, level) in book.bids.iter() {
            assert!(level.orders.iter().all(|o| o.side == Side::Bid && o.price == Some(Price(*p)) && o.qty > 0));
        }
        for (p, level) in book.asks.iter() {
            assert!(level.orders.iter().all(|o| o.side == Side::Ask && o.price == Some(Price(*p)) && o.qty > 0));
        }
        for (id, (side, p)) in book.index.iter() {
            let levels = if *side == Side::Bid { &book.bids } else { &book.asks };
            assert_eq!(levels[&p.0].orders.iter().filter(|o| o.id == *id).count(), 1);
        }
    }
}
