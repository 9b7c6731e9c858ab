use lotto_quick_pick::newtypes::BallNumber;
use lotto_quick_pick::Parameters;

fn assert_sorted_ticket(values: &[u8], start: u8, end: u8, pick: usize) {
    assert_eq!(values.len(), pick);
    assert!(values.windows(2).all(|w| w[0] < w[1]));
    assert!(values.iter().all(|&v| v >= start && v <= end));
}

#[test]
fn parameters_ticket_by_insertion() {
    // 8 of 18: fewer than half are picked, so balls are drawn one by one.
    let params = Parameters::new(1, 1, 18, 8).unwrap();
    for _ in 0..50 {
        assert_sorted_ticket(&params.generate_ticket(), 1, 18, 8);
    }
}

#[test]
fn parameters_ticket_by_exclusion() {
    let params = Parameters::new(1, 1, 18, 10).unwrap();
    for _ in 0..50 {
        assert_sorted_ticket(&params.generate_ticket(), 1, 18, 10);
    }
    let full = Parameters::new(1, 0, 255, 255).unwrap();
    assert_sorted_ticket(&full.generate_ticket(), 0, 255, 255);
}

#[test]
fn parameters_ticket_whole_range() {
    let params = Parameters::new(1, 5, 9, 5).unwrap();
    assert_eq!(params.generate_ticket(), vec![5, 6, 7, 8, 9]);
}

#[test]
fn ball_number_conversions() {
    assert_eq!(u8::from(BallNumber::new(17)), 17);
    assert_eq!(BallNumber::try_from(0u8).unwrap().value(), 0);
    assert_eq!(BallNumber::try_from(255u8).unwrap(), BallNumber::new(255));
}
