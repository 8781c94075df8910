use cc_order_book_sim::feed::lobster::MessageRow;
use cc_order_book_sim::replay::{
    column_of, first_difference, parse_row, replay_step, step_fits, Field, LobsterBook, ReplayStats, RowError, ASK_EMPTY, BID_EMPTY,
};
use cc_order_book_sim::text::IntError;

fn msg(event_type: u8, price: i64, size: u64, direction: i8) -> MessageRow {
    MessageRow { event_type, order_id: 1, size, price, direction }
}

#[test]
fn apply_adds_and_reduces_levels() {
    let mut book = LobsterBook::new();
    book.apply(msg(1, 100, 5, 1));
    book.apply(msg(1, 100, 3, 1));
    book.apply(msg(1, 105, 2, -1));
    assert_eq!(book.bids.get(&100), Some(&8));
    assert_eq!(book.asks.get(&105), Some(&2));
    book.apply(msg(2, 100, 6, 1));
    assert_eq!(book.bids.get(&100), Some(&2));
    book.apply(msg(4, 105, 2, -1));
    assert!(book.asks.is_empty());
    book.apply(msg(3, 100, 9, 1));
    assert!(book.bids.is_empty());
}

#[test]
fn apply_ignores_unknown_levels_types_and_directions() {
    let mut book = LobsterBook::new();
    book.apply(msg(1, 100, 5, 1));
    book.apply(msg(2, 101, 5, 1));
    book.apply(msg(5, 100, 5, 1));
    book.apply(msg(1, 100, 5, 0));
    book.apply(msg(7, 100, 5, -1));
    assert_eq!(book.bids.len(), 1);
    assert_eq!(book.bids.get(&100), Some(&5));
    assert!(book.asks.is_empty());
}

#[test]
fn seed_and_top_n_round_trip() {
    let snap = vec![101, 5, 99, 7, 102, 3, 98, 1, ASK_EMPTY, 0, BID_EMPTY, 0];
    let mut book = LobsterBook::new();
    book.seed_from_snapshot(&snap, 3);
    assert_eq!(book.asks.len(), 2);
    assert_eq!(book.bids.len(), 2);
    assert_eq!(book.top_n(3), snap);
    assert_eq!(book.top_n(1), vec![101, 5, 99, 7]);
    assert_eq!(book.top_n(0), Vec::<i64>::new());
}

#[test]
fn seed_skips_markers_and_non_positive_sizes() {
    let snap = vec![ASK_EMPTY, 4, 99, 0, 101, -3, BID_EMPTY, 2];
    let mut book = LobsterBook::new();
    book.seed_from_snapshot(&snap, 2);
    assert!(book.asks.is_empty());
    assert!(book.bids.is_empty());
}

#[test]
fn top_n_orders_levels_and_pads() {
    let mut book = LobsterBook::new();
    for (p, s) in [(110, 1), (105, 2), (120, 3)] {
        book.apply(msg(1, p, s, -1));
    }
    for (p, s) in [(90, 4), (95, 5)] {
        book.apply(msg(1, p, s, 1));
    }
    assert_eq!(
        book.top_n(4),
        vec![105, 2, 95, 5, 110, 1, 90, 4, 120, 3, BID_EMPTY, 0, ASK_EMPTY, 0, BID_EMPTY, 0]
    );
}

#[test]
fn parse_row_reads_trimmed_integers() {
    assert_eq!(parse_row("1, -2,+3 ,\t4", 1), Ok(vec![1, -2, 3, 4]));
    assert_eq!(parse_row("\u{a0}5\u{3000},6,7,8", 1), Ok(vec![5, 6, 7, 8]));
    assert_eq!(parse_row("9223372036854775807,-9223372036854775808,0,-0", 1), Ok(vec![i64::MAX, i64::MIN, 0, 0]));
}

#[test]
fn parse_row_counts_columns_first() {
    assert_eq!(parse_row("1,2,3", 1), Err(RowError::Columns { expected: 4, got: 3 }));
    assert_eq!(parse_row("x,2,3,4,5", 1), Err(RowError::Columns { expected: 4, got: 5 }));
    assert_eq!(parse_row("", 1), Err(RowError::Columns { expected: 4, got: 1 }));
    assert_eq!(parse_row("", 0), Err(RowError::Columns { expected: 0, got: 1 }));
    assert_eq!(parse_row("1,2,3,4", 2), Err(RowError::Columns { expected: 8, got: 4 }));
}

#[test]
fn parse_row_integer_errors() {
    assert_eq!(parse_row("1,,3,4", 1), Err(RowError::Integer(IntError::Empty)));
    assert_eq!(parse_row("1, ,3,4", 1), Err(RowError::Integer(IntError::Empty)));
    assert_eq!(parse_row("1,2a,3,4", 1), Err(RowError::Integer(IntError::InvalidDigit)));
    assert_eq!(parse_row("1,-,3,4", 1), Err(RowError::Integer(IntError::InvalidDigit)));
    assert_eq!(parse_row("1,+,3,4", 1), Err(RowError::Integer(IntError::InvalidDigit)));
    assert_eq!(parse_row("1,2 3,3,4", 1), Err(RowError::Integer(IntError::InvalidDigit)));
    assert_eq!(parse_row("1,9223372036854775808,3,4", 1), Err(RowError::Integer(IntError::PosOverflow)));
    assert_eq!(parse_row("1,-9223372036854775809,3,4", 1), Err(RowError::Integer(IntError::NegOverflow)));
    assert_eq!(parse_row("1,99999999999999999999x,3,4", 1), Err(RowError::Integer(IntError::PosOverflow)));
    assert_eq!(parse_row("1,1x99999999999999999999,3,4", 1), Err(RowError::Integer(IntError::InvalidDigit)));
    assert_eq!(parse_row("y,9223372036854775808,3,4", 1), Err(RowError::Integer(IntError::InvalidDigit)));
}

#[test]
fn parse_row_errors_agree_with_std() {
    for s in ["", " ", "+", "-", "++1", "-+1", "1-", "12", "-12", "+12", "0x10", "1_000", "٣", "9223372036854775807", "9223372036854775808", "-9223372036854775808", "-9223372036854775809", "00000000000000000000001"] {
        let line = format!("{},0,0,0", s);
        let ours = parse_row(&line, 1);
        let theirs: Result<i64, std::num::ParseIntError> = s.trim().parse::<i64>();
        match (ours, theirs) {
            (Ok(v), Ok(w)) => assert_eq!(v[0], w, "{:?}", s),
            (Err(RowError::Integer(k)), Err(e)) => {
                let expected = match e.kind() {
                    std::num::IntErrorKind::Empty => IntError::Empty,
                    std::num::IntErrorKind::InvalidDigit => IntError::InvalidDigit,
                    std::num::IntErrorKind::PosOverflow => IntError::PosOverflow,
                    std::num::IntErrorKind::NegOverflow => IntError::NegOverflow,
                    _ => panic!("unexpected kind"),
                };
                assert_eq!(k, expected, "{:?}", s);
            },
            (a, b) => panic!("{:?}: {:?} vs {:?}", s, a, b),
        }
    }
}

#[test]
fn replay_step_counts_matches_and_mismatches() {
    let prev = vec![101, 5, 99, 7, 102, 3, 98, 1];
    let mut stats = ReplayStats::started();
    let add = msg(1, 101, 2, -1);
    assert!(step_fits(&prev, &add, 2));
    replay_step(&mut stats, &prev, add, vec![101, 7, 99, 7, 555, 555, 555, 555], 2);
    assert_eq!(stats.processed, 2);
    assert_eq!(stats.mismatches, 0);
    assert_eq!(stats.first_mismatch_at, None);

    let wrong = vec![101, 6, 99, 7, 102, 3, 98, 1];
    replay_step(&mut stats, &prev, add, wrong.clone(), 2);
    assert_eq!(stats.processed, 3);
    assert_eq!(stats.mismatches, 1);
    assert_eq!(stats.first_mismatch_at, Some(3));
    assert_eq!(stats.first_mismatch_ours, Some(vec![101, 7, 99, 7, 102, 3, 98, 1]));
    assert_eq!(stats.first_mismatch_lobster, Some(wrong));

    let del = msg(3, 99, 7, 1);
    replay_step(&mut stats, &prev, del, vec![101, 5, 98, 1, 0, 0, 0, 0], 2);
    assert_eq!(stats.processed, 4);
    assert_eq!(stats.mismatches, 1);

    replay_step(&mut stats, &prev, del, vec![0, 0, 0, 0, 0, 0, 0, 0], 2);
    assert_eq!(stats.mismatches, 2);
    assert_eq!(stats.first_mismatch_at, Some(3));
}

#[test]
fn step_fits_detects_overflowing_add() {
    let prev = vec![101, 5, 99, i64::MAX];
    assert!(step_fits(&prev, &msg(1, 99, u64::MAX - (i64::MAX as u64), 1), 1));
    assert!(!step_fits(&prev, &msg(1, 99, u64::MAX - (i64::MAX as u64) + 1, 1), 1));
    assert!(step_fits(&prev, &msg(1, 98, u64::MAX, 1), 1));
    assert!(step_fits(&prev, &msg(2, 99, u64::MAX, 1), 1));
}

#[test]
fn deeper_top_n_extends_shallower() {
    let mut book = LobsterBook::new();
    for (p, s) in [(110, 1), (105, 2), (120, 3)] {
        book.apply(msg(1, p, s, -1));
    }
    for (p, s) in [(90, 4), (95, 5)] {
        book.apply(msg(1, p, s, 1));
    }
    let deep = book.top_n(5);
    assert_eq!(deep.len(), 20);
    for k in 0..=5 {
        assert_eq!(book.top_n(k)[..], deep[..4 * k]);
    }
}

#[test]
fn book_seeded_from_its_top_n_is_the_same_book() {
    let mut book = LobsterBook::new();
    for (p, s) in [(110, 1), (105, 2), (120, 3)] {
        book.apply(msg(1, p, s, -1));
    }
    for (p, s) in [(90, 4), (95, 5)] {
        book.apply(msg(1, p, s, 1));
    }
    let snap = book.top_n(3);
    let mut copy = LobsterBook::new();
    copy.seed_from_snapshot(&snap, 3);
    assert_eq!(copy.asks, book.asks);
    assert_eq!(copy.bids, book.bids);
}

#[test]
fn first_difference_finds_the_first_differing_column() {
    assert_eq!(first_difference(&vec![1, 2, 3, 4], &vec![1, 2, 9, 8]), Some(2));
    assert_eq!(first_difference(&vec![1, 2, 3], &vec![1, 2, 3, 4]), None);
    assert_eq!(first_difference(&vec![5], &vec![6]), Some(0));
    assert_eq!(first_difference(&vec![], &vec![6]), None);
}

#[test]
fn column_of_names_level_and_field() {
    assert_eq!(column_of(0), (1, Field::AskPrice));
    assert_eq!(column_of(5), (2, Field::AskSize));
    assert_eq!(column_of(10), (3, Field::BidPrice));
    assert_eq!(column_of(39), (10, Field::BidSize));
}
