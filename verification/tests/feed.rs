use cc_order_book_sim::feed::lobster::{convert, LobsterEvent, MessageRow};
use cc_order_book_sim::feed::random::RandomFeed;
use cc_order_book_sim::order::{OrderType, Price, Side};

#[test]
fn random_feed_first_orders_for_seed_one() {
    let mut feed = RandomFeed::new(1);
    let a = feed.next().unwrap();
    assert_eq!((a.id, a.ts, a.side, a.price, a.qty), (1, 1, Side::Ask, Some(Price(10003)), 6));
    assert_eq!(a.kind, OrderType::Limit);
    let b = feed.next().unwrap();
    assert_eq!((b.id, b.ts, b.side, b.price, b.qty), (2, 2, Side::Ask, Some(Price(10009)), 2));
    let c = feed.next().unwrap();
    assert_eq!((c.id, c.ts, c.side, c.price, c.qty), (3, 3, Side::Ask, Some(Price(9998)), 5));
}

#[test]
fn random_feed_zero_seed_counts_as_one() {
    let mut zero = RandomFeed::new(0);
    let mut one = RandomFeed::new(1);
    for _ in 0..50 {
        let a = zero.next().unwrap();
        let b = one.next().unwrap();
        assert_eq!((a.id, a.side, a.price, a.qty), (b.id, b.side, b.price, b.qty));
    }
}

#[test]
fn random_feed_walks() {
    let mut feed = RandomFeed::new(987_654_321);
    let mut bids = 0;
    let (mut lo, mut hi) = (i64::MAX, i64::MIN);
    let mut prev: Option<i64> = None;
    for n in 1..=1000u64 {
        let o = feed.next().unwrap();
        assert_eq!(o.id, n);
        assert_eq!(o.ts, n);
        assert_eq!(o.kind, OrderType::Limit);
        let p = o.price.unwrap().0;
        if let Some(q) = prev {
            assert!((p - q).abs() <= 21);
        }
        prev = Some(p);
        lo = lo.min(p);
        hi = hi.max(p);
        assert!((1..=10).contains(&o.qty));
        if o.side == Side::Bid {
            bids += 1;
        }
    }
    assert_eq!((lo, hi), (9974, 10030));
    assert!(bids > 300 && bids < 700);
}

fn row(event_type: u8, direction: i8) -> MessageRow {
    MessageRow { event_type, order_id: 16113575, size: 18, price: 5853300, direction }
}

#[test]
fn convert_submit() {
    match convert(row(1, 1), 7) {
        LobsterEvent::Submit(o) => {
            assert_eq!((o.id, o.side, o.kind, o.price, o.qty, o.ts), (16113575, Side::Bid, OrderType::Limit, Some(Price(5853300)), 18, 7));
        },
        other => panic!("unexpected {:?}", other),
    }
    match convert(row(1, -1), 8) {
        LobsterEvent::Submit(o) => assert_eq!(o.side, Side::Ask),
        other => panic!("unexpected {:?}", other),
    }
}

#[test]
fn convert_cancel_delete_execute() {
    assert!(matches!(convert(row(2, 1), 1), LobsterEvent::Cancel { id: 16113575, qty: 18 }));
    assert!(matches!(convert(row(3, -1), 1), LobsterEvent::Delete { id: 16113575 }));
    assert!(matches!(convert(row(4, 1), 1), LobsterEvent::Execute { id: 16113575, qty: 18 }));
}

#[test]
fn convert_other() {
    assert!(matches!(convert(row(5, 1), 1), LobsterEvent::Other));
    assert!(matches!(convert(row(7, -1), 1), LobsterEvent::Other));
    assert!(matches!(convert(row(1, 0), 1), LobsterEvent::Other));
    assert!(matches!(convert(row(1, 2), 1), LobsterEvent::Other));
}

#[test]
fn convert_negative_id_wraps() {
    let r = MessageRow { event_type: 3, order_id: -1, size: 0, price: 0, direction: 1 };
    assert!(matches!(convert(r, 1), LobsterEvent::Delete { id: u64::MAX }));
}

#[test]
fn random_feed_take_gives_the_orders_next_gives() {
    let mut stepped = RandomFeed::new(42);
    let mut batched = RandomFeed::new(42);
    let first = batched.take(40);
    assert_eq!(first.len(), 40);
    for (k, o) in first.iter().enumerate() {
        let p = stepped.next().unwrap();
        assert_eq!((o.id, o.ts, o.side, o.kind, o.price, o.qty), (p.id, p.ts, p.side, p.kind, p.price, p.qty));
        assert_eq!(o.id, k as u64 + 1);
    }
    let after = batched.next().unwrap();
    let p = stepped.next().unwrap();
    assert_eq!((after.id, after.side, after.price, after.qty), (p.id, p.side, p.price, p.qty));
    assert_eq!(after.id, 41);
}

#[test]
fn random_feed_take_of_seed_one() {
    let orders = RandomFeed::new(1).take(3);
    let got: Vec<_> = orders.iter().map(|o| (o.id, o.side, o.price, o.qty)).collect();
    assert_eq!(
        got,
        vec![(1, Side::Ask, Some(Price(10003)), 6), (2, Side::Ask, Some(Price(10009)), 2), (3, Side::Ask, Some(Price(9998)), 5)]
    );
    assert!(RandomFeed::new(5).take(0).is_empty());
}
