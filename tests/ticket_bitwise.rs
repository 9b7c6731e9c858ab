use lotto_quick_pick::newtypes::{BallNumber, BallRange, PickCount};
use lotto_quick_pick::ticket_bitwise::{
    generate_ticket_bitwise, generate_ticket_u128_bitmap, generate_ticket_u64_bitmap,
    generate_ticket_vec_bitmap, generate_ticketkey_bitwise, generate_ticketkey_u128_bitmap,
    generate_ticketkey_u64_bitmap, generate_ticketkey_vec_bitmap, BitwiseStrategy,
};
use lotto_quick_pick::error::LottoError;
use lotto_quick_pick::rng::RandomNumberGenerator;
use lotto_quick_pick::ticket_key::TicketKey;

#[test]
fn test_strategy_selection_u64() {
    let range = BallRange::mega_sena(); // 1-60
    let strategy = BitwiseStrategy::select(&range).unwrap();
    assert_eq!(strategy, BitwiseStrategy::U64);
}

#[test]
fn test_strategy_selection_u128() {
    let range = BallRange::lotomania(); // 0-99
    let strategy = BitwiseStrategy::select(&range).unwrap();
    assert_eq!(strategy, BitwiseStrategy::U128);
}

#[test]
fn test_strategy_selection_vec_u64() {
    let range = BallRange::new(BallNumber::new(1), BallNumber::new(200)).unwrap();
    let strategy = BitwiseStrategy::select(&range).unwrap();
    assert_eq!(strategy, BitwiseStrategy::VecU64);
}

#[test]
fn test_strategy_selection_max_u8() {
    // Test with max u8 value (255)
    let range = BallRange::new(BallNumber::new(1), BallNumber::new(255)).unwrap();
    let strategy = BitwiseStrategy::select(&range);
    assert!(strategy.is_ok());
    assert_eq!(strategy.unwrap(), BitwiseStrategy::VecU64);
}

#[test]
fn test_u64_bitmap_mega_sena() {
    let range = BallRange::mega_sena();
    let count = PickCount::new(6, &range).unwrap();
    let mut rng = rand::rng();

    let key = generate_ticketkey_u64_bitmap(&range, count, &mut rng).unwrap();
    let ticket = key.to_balls(&range);

    assert_eq!(ticket.len(), 6);

    // Check all numbers are unique
    for i in 0..ticket.len() {
        for j in (i + 1)..ticket.len() {
            assert_ne!(ticket[i], ticket[j]);
        }
    }

    // Check all numbers are in range
    for ball in &ticket {
        assert!(range.contains(*ball));
    }
}

#[test]
fn test_u128_bitmap_lotomania() {
    let range = BallRange::lotomania();
    let count = PickCount::new(50, &range).unwrap();
    let mut rng = rand::rng();

    let key = generate_ticketkey_u128_bitmap(&range, count, &mut rng).unwrap();
    let ticket = key.to_balls(&range);

    assert_eq!(ticket.len(), 50);

    // Check all numbers are unique
    for i in 0..ticket.len() {
        for j in (i + 1)..ticket.len() {
            assert_ne!(ticket[i], ticket[j]);
        }
    }

    // Check all numbers are in range
    for ball in &ticket {
        assert!(range.contains(*ball));
    }
}

#[test]
fn test_vec_bitmap_large_range() {
    let range = BallRange::new(BallNumber::new(1), BallNumber::new(200)).unwrap();
    let count = PickCount::new(10, &range).unwrap();
    let mut rng = rand::rng();

    let key = generate_ticketkey_vec_bitmap(&range, count, &mut rng).unwrap();
    let ticket = key.to_balls(&range);

    assert_eq!(ticket.len(), 10);

    // Check all numbers are unique
    for i in 0..ticket.len() {
        for j in (i + 1)..ticket.len() {
            assert_ne!(ticket[i], ticket[j]);
        }
    }

    // Check all numbers are in range
    for ball in &ticket {
        assert!(range.contains(*ball));
    }
}

#[test]
fn test_generate_ticket_bitwise_auto_selection() {
    let mut rng = rand::rng();

    // Test u64 strategy
    let range1 = BallRange::mega_sena();
    let key1 =
        generate_ticketkey_bitwise(&range1, PickCount::new(6, &range1).unwrap(), &mut rng)
            .unwrap();
    assert_eq!(key1.count_balls(), 6);

    // Test u128 strategy
    let range2 = BallRange::lotomania();
    let key2 =
        generate_ticketkey_bitwise(&range2, PickCount::new(50, &range2).unwrap(), &mut rng)
            .unwrap();
    assert_eq!(key2.count_balls(), 50);

    // Test Vec<u64> strategy
    let range3 = BallRange::new(BallNumber::new(1), BallNumber::new(200)).unwrap();
    let key3 =
        generate_ticketkey_bitwise(&range3, PickCount::new(10, &range3).unwrap(), &mut rng)
            .unwrap();
    assert_eq!(key3.count_balls(), 10);
}

#[test]
fn test_u64_bitmap_invalid_range() {
    let range = BallRange::new(BallNumber::new(1), BallNumber::new(100)).unwrap();
    let count = PickCount::new(5, &range).unwrap();
    let mut rng = rand::rng();

    let result = generate_ticketkey_u64_bitmap(&range, count, &mut rng);
    assert!(result.is_err());
}

#[test]
fn test_u128_bitmap_invalid_range() {
    let range = BallRange::new(BallNumber::new(1), BallNumber::new(200)).unwrap();
    let count = PickCount::new(5, &range).unwrap();
    let mut rng = rand::rng();

    let result = generate_ticketkey_u128_bitmap(&range, count, &mut rng);
    assert!(result.is_err());
}

// Strategy selection goes by size, not by the largest ball.

#[test]
fn test_bug_range_large_value_small_size() {
    // Range 200..=255 has size 56 although end()=255: U64 fits it.
    let range = BallRange::new(BallNumber::new(200), BallNumber::new(255)).unwrap();
    assert_eq!(range.size(), 56);

    let strategy = BitwiseStrategy::select(&range).unwrap();
    assert_eq!(
        strategy,
        BitwiseStrategy::U64,
        "Range 200-255 (size=56) should use U64, not {:?}",
        strategy
    );
}

#[test]
fn test_bug_range_0_to_64_should_not_be_u64() {
    // Range 0..=64 has size 65: U64 would need bit 64, past its width.
    let range = BallRange::new(BallNumber::new(0), BallNumber::new(64)).unwrap();
    assert_eq!(range.size(), 65);

    let strategy = BitwiseStrategy::select(&range).unwrap();
    assert_ne!(
        strategy,
        BitwiseStrategy::U64,
        "Range 0-64 (size=65) CANNOT use U64 (would cause shift overflow)"
    );
}

#[test]
fn test_u64_precondition_validation_by_size() {
    // Must reject range with size > 64, even if end <= 64
    let range = BallRange::new(BallNumber::new(0), BallNumber::new(64)).unwrap();
    assert_eq!(range.size(), 65);

    let count = PickCount::new(5, &range).unwrap();
    let mut rng = rand::rng();

    let result = generate_ticketkey_u64_bitmap(&range, count, &mut rng);
    assert!(
        result.is_err(),
        "u64_bitmap must reject range with size=65 (> 64)"
    );
}

#[test]
fn test_u128_precondition_validation_by_size() {
    // Must reject range with size > 128, even if end <= 128
    let range = BallRange::new(BallNumber::new(0), BallNumber::new(128)).unwrap();
    assert_eq!(range.size(), 129);

    let count = PickCount::new(5, &range).unwrap();
    let mut rng = rand::rng();

    let result = generate_ticketkey_u128_bitmap(&range, count, &mut rng);
    assert!(
        result.is_err(),
        "u128_bitmap must reject range with size=129 (> 128)"
    );
}

#[test]
fn test_range_1_to_64_should_use_u64() {
    // Valid case: Range 1..=64 has size 64 (OK for U64)
    let range = BallRange::new(BallNumber::new(1), BallNumber::new(64)).unwrap();
    assert_eq!(range.size(), 64);

    let strategy = BitwiseStrategy::select(&range).unwrap();
    assert_eq!(
        strategy,
        BitwiseStrategy::U64,
        "Range 1-64 (size=64) should use U64"
    );
}

#[test]
fn test_range_1_to_65_should_not_use_u64() {
    // Range 1..=65 has size 65 (too large for U64)
    let range = BallRange::new(BallNumber::new(1), BallNumber::new(65)).unwrap();
    assert_eq!(range.size(), 65);

    let strategy = BitwiseStrategy::select(&range).unwrap();
    assert_ne!(
        strategy,
        BitwiseStrategy::U64,
        "Range 1-65 (size=65) CANNOT use U64"
    );
}

// Tests for TicketKey generation functions

#[test]
fn test_ticketkey_u64_validates_bit_count() {
    let range = BallRange::mega_sena();
    let pick = PickCount::new(6, &range).unwrap();
    let mut rng = rand::rng();

    let key = generate_ticketkey_u64_bitmap(&range, pick, &mut rng).unwrap();
    assert_eq!(key.count_balls(), 6);
}

#[test]
fn test_ticketkey_u64_rejects_size_65() {
    let range = BallRange::new(BallNumber::new(0), BallNumber::new(64)).unwrap();
    assert_eq!(range.size(), 65);

    let count = PickCount::new(5, &range).unwrap();
    let mut rng = rand::rng();

    let result = generate_ticketkey_u64_bitmap(&range, count, &mut rng);
    assert!(result.is_err(), "Should reject range size > 64");
}

#[test]
fn test_ticketkey_u64_max_range_boundary() {
    let range = BallRange::new(BallNumber::new(0), BallNumber::new(63)).unwrap();
    assert_eq!(range.size(), 64);

    let count = PickCount::new(10, &range).unwrap();
    let mut rng = rand::rng();

    let key = generate_ticketkey_u64_bitmap(&range, count, &mut rng).unwrap();
    assert_eq!(key.count_balls(), 10);
}

#[test]
fn test_ticketkey_u128_validates_bit_count() {
    let range = BallRange::lotomania();
    let pick = PickCount::new(50, &range).unwrap();
    let mut rng = rand::rng();

    let key = generate_ticketkey_u128_bitmap(&range, pick, &mut rng).unwrap();
    assert_eq!(key.count_balls(), 50);
}

#[test]
fn test_ticketkey_u128_max_range_boundary() {
    let range = BallRange::new(BallNumber::new(0), BallNumber::new(127)).unwrap();
    assert_eq!(range.size(), 128);

    let count = PickCount::new(20, &range).unwrap();
    let mut rng = rand::rng();

    let key = generate_ticketkey_u128_bitmap(&range, count, &mut rng).unwrap();
    assert_eq!(key.count_balls(), 20);
}

#[test]
fn test_ticketkey_vec_validates_bit_count() {
    let range = BallRange::new(BallNumber::new(0), BallNumber::new(200)).unwrap();
    let pick = PickCount::new(15, &range).unwrap();
    let mut rng = rand::rng();

    let key = generate_ticketkey_vec_bitmap(&range, pick, &mut rng).unwrap();
    assert_eq!(key.count_balls(), 15);
}

#[test]
fn test_ticketkey_roundtrip_preserves_all_balls() {
    let range = BallRange::mega_sena();
    let pick = PickCount::new(6, &range).unwrap();
    let mut rng = rand::rng();

    let key = generate_ticketkey_bitwise(&range, pick, &mut rng).unwrap();
    let balls = key.to_balls(&range);

    assert_eq!(balls.len(), pick.value());
    for &ball in &balls {
        assert!(range.contains(ball), "Ball {:?} is outside range", ball);
    }
}

#[test]
fn test_ticketkey_no_duplicates() {
    let range = BallRange::mega_sena();
    let pick = PickCount::new(6, &range).unwrap();
    let mut rng = rand::rng();

    let key = generate_ticketkey_bitwise(&range, pick, &mut rng).unwrap();
    let balls = key.to_balls(&range);

    let mut seen = std::collections::HashSet::new();
    for ball in balls {
        assert!(seen.insert(ball), "Duplicate ball: {:?}", ball);
    }
}

#[test]
fn test_ticketkey_single_value_range() {
    let range = BallRange::new(BallNumber::new(42), BallNumber::new(43)).unwrap();
    assert_eq!(range.size(), 2);

    let count = PickCount::new(1, &range).unwrap();
    let mut rng = rand::rng();

    let key = generate_ticketkey_bitwise(&range, count, &mut rng).unwrap();
    let balls = key.to_balls(&range);

    assert_eq!(balls.len(), 1);
    assert!(balls[0].value() == 42 || balls[0].value() == 43);
}

#[test]
fn test_ticketkey_full_range_selection() {
    let range = BallRange::new(BallNumber::new(1), BallNumber::new(10)).unwrap();
    let count = PickCount::new(10, &range).unwrap();
    let mut rng = rand::rng();

    let key = generate_ticketkey_bitwise(&range, count, &mut rng).unwrap();
    let balls = key.to_balls(&range);

    assert_eq!(balls.len(), 10);
    let mut sorted = balls.clone();
    sorted.sort_by_key(|b| b.value());
    for (i, &ball) in sorted.iter().enumerate() {
        assert_eq!(ball.value(), (i + 1) as u8);
    }
}

fn assert_ticket(values: &[u8], start: u8, end: u8, pick: usize) {
    assert_eq!(values.len(), pick);
    assert!(values.windows(2).all(|w| w[0] < w[1]));
    assert!(values.iter().all(|&v| v >= start && v <= end));
}

fn assert_distinct_draw(values: &[u8], start: u8, end: u8, pick: usize) {
    let mut sorted = values.to_vec();
    sorted.sort();
    assert_ticket(&sorted, start, end, pick);
}

/// Answers from a fixed cycle of values, ignoring the bounds.
struct ScriptedRng {
    values: Vec<u8>,
    index: usize,
}

impl RandomNumberGenerator for ScriptedRng {
    fn gen_range_u8(&mut self, _low: u8, _high: u8) -> u8 {
        let value = self.values[self.index % self.values.len()];
        self.index += 1;
        value
    }
}

#[test]
fn strategy_selection_boundaries() {
    let sized = |start: u8, end: u8| BallRange::new(BallNumber::new(start), BallNumber::new(end)).unwrap();
    assert_eq!(BitwiseStrategy::select(&sized(0, 63)).unwrap(), BitwiseStrategy::U64);
    assert_eq!(BitwiseStrategy::select(&sized(0, 64)).unwrap(), BitwiseStrategy::U128);
    assert_eq!(BitwiseStrategy::select(&sized(0, 127)).unwrap(), BitwiseStrategy::U128);
    assert_eq!(BitwiseStrategy::select(&sized(0, 128)).unwrap(), BitwiseStrategy::VecU64);
    assert_eq!(BitwiseStrategy::select(&sized(127, 255)).unwrap(), BitwiseStrategy::VecU64);
    assert_eq!(BitwiseStrategy::select(&sized(128, 255)).unwrap(), BitwiseStrategy::U128);
    assert_eq!(BitwiseStrategy::select(&sized(192, 255)).unwrap(), BitwiseStrategy::U64);
}

#[test]
fn strategy_generate_uses_its_representation() {
    let mut rng = rand::rng();
    let range = BallRange::new(BallNumber::new(1), BallNumber::new(60)).unwrap();
    let count = PickCount::new(6, &range).unwrap();
    let key = BitwiseStrategy::U64.generate(&range, count, &mut rng).unwrap();
    assert!(matches!(key, TicketKey::U64(_)));
    let key = BitwiseStrategy::U128.generate(&range, count, &mut rng).unwrap();
    assert!(matches!(key, TicketKey::U128(_)));
    assert_eq!(key.count_balls(), 6);
    let key = BitwiseStrategy::VecU64.generate(&range, count, &mut rng).unwrap();
    assert!(matches!(key, TicketKey::VecU64(_)));
    assert_eq!(key.count_balls(), 6);
}

#[test]
fn narrow_generation_rejects_wide_ranges_with_their_bounds() {
    let mut rng = rand::rng();
    let range = BallRange::new(BallNumber::new(0), BallNumber::new(64)).unwrap();
    let count = PickCount::new(5, &range).unwrap();
    assert_eq!(
        generate_ticketkey_u64_bitmap(&range, count, &mut rng),
        Err(LottoError::InvalidRange { start: 0, end: 64 })
    );
    assert_eq!(
        BitwiseStrategy::U64.generate(&range, count, &mut rng),
        Err(LottoError::InvalidRange { start: 0, end: 64 })
    );
    let wide = BallRange::new(BallNumber::new(0), BallNumber::new(128)).unwrap();
    let count = PickCount::new(5, &wide).unwrap();
    assert_eq!(
        generate_ticket_u128_bitmap(&wide, count, &mut rng),
        Err(LottoError::InvalidRange { start: 0, end: 128 })
    );
}

#[test]
fn ball_list_generators_give_distinct_draws() {
    let mut rng = rand::rng();
    let range = BallRange::mega_sena();
    let count = PickCount::new(6, &range).unwrap();
    let balls = generate_ticket_u64_bitmap(&range, count, &mut rng).unwrap();
    assert_distinct_draw(&balls.iter().map(|b| b.value()).collect::<Vec<_>>(), 1, 60, 6);

    let range = BallRange::lotomania();
    let count = PickCount::new(50, &range).unwrap();
    let balls = generate_ticket_u128_bitmap(&range, count, &mut rng).unwrap();
    assert_distinct_draw(&balls.iter().map(|b| b.value()).collect::<Vec<_>>(), 0, 99, 50);

    let range = BallRange::new(BallNumber::new(0), BallNumber::new(255)).unwrap();
    let count = PickCount::new(256, &range).unwrap();
    let balls = generate_ticket_vec_bitmap(&range, count, &mut rng).unwrap();
    assert_distinct_draw(&balls.iter().map(|b| b.value()).collect::<Vec<_>>(), 0, 255, 256);

    let range = BallRange::new(BallNumber::new(200), BallNumber::new(255)).unwrap();
    let count = PickCount::new(56, &range).unwrap();
    let balls = generate_ticket_bitwise(&range, count, &mut rng).unwrap();
    assert_distinct_draw(&balls.iter().map(|b| b.value()).collect::<Vec<_>>(), 200, 255, 56);
}

#[test]
fn high_offsets_use_the_narrow_word() {
    let mut rng = rand::rng();
    let range = BallRange::new(BallNumber::new(200), BallNumber::new(255)).unwrap();
    let count = PickCount::new(10, &range).unwrap();
    let key = generate_ticketkey_bitwise(&range, count, &mut rng).unwrap();
    assert!(matches!(key, TicketKey::U64(_)));
    let values: Vec<u8> = key.to_balls(&range).iter().map(|b| b.value()).collect();
    assert_ticket(&values, 200, 255, 10);
}

#[test]
fn ball_lists_keep_the_order_of_drawing() {
    let range = BallRange::mega_sena();
    let count = PickCount::new(4, &range).unwrap();
    let expected = vec![30u8, 5, 44, 12];
    let mut rng = ScriptedRng { values: vec![30, 5, 30, 0, 44, 61, 12], index: 0 };
    let balls = generate_ticket_u64_bitmap(&range, count, &mut rng).unwrap();
    assert_eq!(balls.iter().map(|b| b.value()).collect::<Vec<_>>(), expected);
    let mut rng = ScriptedRng { values: vec![30, 5, 30, 0, 44, 61, 12], index: 0 };
    let balls = generate_ticket_u128_bitmap(&range, count, &mut rng).unwrap();
    assert_eq!(balls.iter().map(|b| b.value()).collect::<Vec<_>>(), expected);
    let mut rng = ScriptedRng { values: vec![30, 5, 30, 0, 44, 61, 12], index: 0 };
    let balls = generate_ticket_vec_bitmap(&range, count, &mut rng).unwrap();
    assert_eq!(balls.iter().map(|b| b.value()).collect::<Vec<_>>(), expected);
    let mut rng = ScriptedRng { values: vec![30, 5, 30, 0, 44, 61, 12], index: 0 };
    let balls = generate_ticket_bitwise(&range, count, &mut rng).unwrap();
    assert_eq!(balls.iter().map(|b| b.value()).collect::<Vec<_>>(), expected);
}

#[test]
fn word_array_keys_hold_one_word_per_64_values() {
    let mut rng = rand::rng();
    for (start, end, words) in [(0u8, 128u8, 3usize), (0, 191, 3), (0, 192, 4), (0, 255, 4), (1, 255, 4)] {
        let range = BallRange::new(BallNumber::new(start), BallNumber::new(end)).unwrap();
        let count = PickCount::new(3, &range).unwrap();
        match generate_ticketkey_vec_bitmap(&range, count, &mut rng).unwrap() {
            TicketKey::VecU64(w) => assert_eq!(w.len(), words),
            other => panic!("expected a word array, got {:?}", other),
        }
        let balls = vec![BallNumber::new(start)];
        if let TicketKey::VecU64(w) = TicketKey::from_balls(&balls, &range) {
            assert_eq!(w.len(), words);
        }
    }
}
