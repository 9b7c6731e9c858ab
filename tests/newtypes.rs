use lotto_quick_pick::error::LottoError;
use lotto_quick_pick::newtypes::{BallNumber, BallRange, GameCount, PickCount, Ticket};

#[test]
fn test_ball_number_creation() {
    let ball = BallNumber::new(42);
    assert_eq!(ball.value(), 42);
}

#[test]
fn test_ball_number_display() {
    assert_eq!(BallNumber::new(5).to_string(), "05");
    assert_eq!(BallNumber::new(42).to_string(), "42");
}

#[test]
fn test_ball_range_valid() {
    let range = BallRange::new(BallNumber::new(1), BallNumber::new(60)).unwrap();
    assert_eq!(range.start().value(), 1);
    assert_eq!(range.end().value(), 60);
    assert_eq!(range.size(), 60);
}

#[test]
fn test_ball_range_invalid() {
    let result = BallRange::new(BallNumber::new(60), BallNumber::new(1));
    assert!(matches!(result, Err(LottoError::InvalidRange { .. })));
}

#[test]
fn test_ball_range_equal() {
    let result = BallRange::new(BallNumber::new(10), BallNumber::new(10));
    assert!(matches!(result, Err(LottoError::InvalidRange { .. })));
}

#[test]
fn test_pick_count_valid() {
    let range = BallRange::new(BallNumber::new(1), BallNumber::new(60)).unwrap();
    let pick = PickCount::new(6, &range).unwrap();
    assert_eq!(pick.value(), 6);
}

#[test]
fn test_pick_count_exceeds_range() {
    let range = BallRange::new(BallNumber::new(1), BallNumber::new(10)).unwrap();
    let result = PickCount::new(11, &range);
    assert!(matches!(result, Err(LottoError::PickExceedsRange { .. })));
}

#[test]
fn test_pick_count_zero() {
    let range = BallRange::new(BallNumber::new(1), BallNumber::new(60)).unwrap();
    let result = PickCount::new(0, &range);
    assert!(matches!(result, Err(LottoError::PickExceedsRange { .. })));
}

#[test]
fn test_game_count_valid() {
    let count = GameCount::new(10).unwrap();
    assert_eq!(count.value(), 10);
}

#[test]
fn test_game_count_zero() {
    let result = GameCount::new(0);
    assert!(matches!(result, Err(LottoError::ZeroGames)));
}

#[test]
fn test_ticket_creation() {
    let ticket = Ticket::new(vec![
        BallNumber::new(15),
        BallNumber::new(5),
        BallNumber::new(10),
    ]);

    // Should be sorted
    assert_eq!(ticket.balls()[0].value(), 5);
    assert_eq!(ticket.balls()[1].value(), 10);
    assert_eq!(ticket.balls()[2].value(), 15);
}

#[test]
fn test_ticket_display() {
    let ticket = Ticket::new(vec![
        BallNumber::new(5),
        BallNumber::new(10),
        BallNumber::new(15),
    ]);
    assert_eq!(ticket.to_string(), "05 10 15");
}

#[test]
fn test_ticket_equality() {
    let ticket1 = Ticket::new(vec![BallNumber::new(5), BallNumber::new(10)]);
    let ticket2 = Ticket::new(vec![BallNumber::new(10), BallNumber::new(5)]);
    // Should be equal even if created in different order
    assert_eq!(ticket1, ticket2);
}

#[test]
fn ball_range_error_reports_both_ends() {
    let result = BallRange::new(BallNumber::new(60), BallNumber::new(1));
    assert_eq!(result, Err(LottoError::InvalidRange { start: 60, end: 1 }));
}

#[test]
fn ball_range_full_byte_has_size_256() {
    let range = BallRange::new(BallNumber::new(0), BallNumber::new(255)).unwrap();
    assert_eq!(range.size(), 256);
}

#[test]
fn pick_count_error_reports_available() {
    let range = BallRange::new(BallNumber::new(1), BallNumber::new(10)).unwrap();
    assert_eq!(
        PickCount::new(11, &range),
        Err(LottoError::PickExceedsRange { pick: 11, available: 10 })
    );
    assert_eq!(
        PickCount::new(0, &range),
        Err(LottoError::PickExceedsRange { pick: 0, available: 10 })
    );
    assert_eq!(PickCount::new(10, &range).unwrap().value(), 10);
}

#[test]
fn ball_range_iter_lists_every_ball() {
    let range = BallRange::new(BallNumber::new(1), BallNumber::new(5)).unwrap();
    let balls: Vec<u8> = range.iter().iter().map(|b| b.value()).collect();
    assert_eq!(balls, vec![1, 2, 3, 4, 5]);
}

#[test]
fn ball_range_contains_bounds() {
    let range = BallRange::mega_sena();
    assert!(range.contains(BallNumber::new(1)));
    assert!(range.contains(BallNumber::new(30)));
    assert!(range.contains(BallNumber::new(60)));
    assert!(!range.contains(BallNumber::new(0)));
    assert!(!range.contains(BallNumber::new(61)));
}

#[test]
fn preset_ranges_have_expected_sizes() {
    assert_eq!(BallRange::mega_sena().size(), 60);
    assert_eq!(BallRange::lotomania().size(), 100);
    assert_eq!(BallRange::powerball().size(), 69);
    assert_eq!(BallRange::lotomania().start().value(), 0);
    assert_eq!(BallRange::powerball().end().value(), 69);
}

#[test]
fn ticket_new_drops_repeats() {
    let ticket = Ticket::new(vec![
        BallNumber::new(9),
        BallNumber::new(3),
        BallNumber::new(9),
        BallNumber::new(1),
    ]);
    let values: Vec<u8> = ticket.balls().iter().map(|b| b.value()).collect();
    assert_eq!(values, vec![1, 3, 9]);
    assert_eq!(ticket.len(), 3);
}

#[test]
fn ticket_queries() {
    let ticket = Ticket::new(vec![BallNumber::new(5), BallNumber::new(10), BallNumber::new(15)]);
    assert_eq!(ticket.len(), 3);
    assert!(!ticket.is_empty());
    assert!(ticket.contains(&BallNumber::new(10)));
    assert!(!ticket.contains(&BallNumber::new(20)));
    assert!(Ticket::new(vec![]).is_empty());
}

#[test]
fn three_digit_balls_print_in_full() {
    assert_eq!(BallNumber::new(0).to_string(), "00");
    assert_eq!(BallNumber::new(100).to_string(), "100");
    assert_eq!(BallNumber::new(255).to_string(), "255");
    let ticket = Ticket::new(vec![BallNumber::new(200), BallNumber::new(7)]);
    assert_eq!(ticket.to_string(), "07 200");
    assert_eq!(Ticket::new(vec![]).to_string(), "");
}
