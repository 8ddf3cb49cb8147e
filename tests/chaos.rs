use embeddenator_testkit::ChaosInjector;

#[test]
fn test_corrupt_bytes() {
    let mut data = vec![0u8; 100];
    let injector = ChaosInjector::new(42);

    injector.corrupt_bytes(&mut data, 100_000);

    let corrupted_count = data.iter().filter(|&&b| b != 0).count();
    assert!(corrupted_count > 0);
}

#[test]
fn test_corrupt_copy() {
    let data = vec![0xFF; 100];
    let injector = ChaosInjector::new(42);

    let corrupted = injector.corrupt_copy(&data, 100_000);

    // Input unchanged
    assert!(data.iter().all(|&b| b == 0xFF));

    // Corrupted is different
    assert_ne!(data, corrupted);
}

#[test]
fn test_simulate_packet_loss() {
    let mut data = vec![0xFF; 100];
    let injector = ChaosInjector::new(42);

    injector.simulate_packet_loss(&mut data, 200_000, 10); // 20% loss, 10 byte packets

    let zero_count = data.iter().filter(|&&b| b == 0).count();
    assert!(zero_count > 0);
}

#[test]
fn test_inject_erasures() {
    let mut data = vec![0xFF; 100];
    let injector = ChaosInjector::new(42);

    let erased = injector.inject_erasures(&mut data, 10);

    assert!(erased.len() <= 10);

    // Check that erased positions are now zero
    for &pos in &erased {
        assert_eq!(data[pos], 0);
    }
}

#[test]
fn test_determinism() {
    let data = vec![0xFF; 100];

    let injector1 = ChaosInjector::new(42);
    let corrupted1 = injector1.corrupt_copy(&data, 100_000);

    let injector2 = ChaosInjector::new(42);
    let corrupted2 = injector2.corrupt_copy(&data, 100_000);

    assert_eq!(corrupted1, corrupted2);
}

#[test]
fn ten_percent_of_hundred_bytes_is_ten_flips() {
    let mut data = vec![0xFFu8; 100];
    ChaosInjector::new(42).corrupt_bytes(&mut data, 100_000);
    let changed: Vec<(usize, u8)> =
        data.iter().enumerate().filter(|(_, &b)| b != 0xFF).map(|(i, &b)| (i, b)).collect();
    assert_eq!(
        changed,
        vec![
            (0, 253), (20, 247), (41, 223), (50, 239), (57, 223),
            (60, 127), (71, 247), (87, 223), (94, 239), (99, 223)
        ]
    );
    let flipped_bits: u32 = data.iter().map(|&b| (!b).count_ones()).sum();
    assert!(flipped_bits <= 10);

    let mut again = vec![0xFFu8; 100];
    ChaosInjector::new(42).corrupt_bytes(&mut again, 100_000);
    assert_eq!(again, data);
}

#[test]
fn corruption_of_empty_buffer_is_a_no_op() {
    let injector = ChaosInjector::new(7);
    let mut empty: Vec<u8> = Vec::new();
    injector.corrupt_bytes(&mut empty, 1_000_000);
    injector.simulate_packet_loss(&mut empty, 1_000_000, 4);
    assert!(injector.inject_erasures(&mut empty, 5).is_empty());
    assert!(empty.is_empty());
    assert!(injector.corrupt_copy(&[], 500_000).is_empty());
}

#[test]
fn zero_rate_changes_nothing() {
    let data: Vec<u8> = (0..=255).collect();
    assert_eq!(ChaosInjector::new(3).corrupt_copy(&data, 0), data);
}

#[test]
fn packet_loss_zeroes_whole_selected_packets() {
    let mut data = vec![0xFFu8; 100];
    ChaosInjector::new(42).simulate_packet_loss(&mut data, 200_000, 10);
    for (i, &b) in data.iter().enumerate() {
        let dropped = i / 10 == 0 || i / 10 == 7;
        assert_eq!(b, if dropped { 0 } else { 0xFF }, "byte {}", i);
    }
}

#[test]
fn packet_loss_with_zero_packet_size_leaves_data() {
    let mut data = vec![0xABu8; 33];
    ChaosInjector::new(1).simulate_packet_loss(&mut data, 1_000_000, 0);
    assert_eq!(data, vec![0xABu8; 33]);
}

#[test]
fn packet_loss_clears_short_last_packet_only_within_buffer() {
    let mut data = vec![1u8; 25];
    ChaosInjector::new(9).simulate_packet_loss(&mut data, 1_000_000, 10);
    assert_eq!(data.len(), 25);
    assert!(data.iter().any(|&b| b == 0));
}

#[test]
fn erasures_list_exact_positions() {
    let mut data = vec![0xFFu8; 100];
    let erased = ChaosInjector::new(42).inject_erasures(&mut data, 10);
    assert_eq!(erased, vec![68, 17, 10, 31, 92, 25, 86, 67, 88, 89]);
    assert_eq!(data.iter().filter(|&&b| b == 0).count(), 10);
}

#[test]
fn erasures_skip_bytes_already_zero() {
    let mut data = vec![0u8; 50];
    let erased = ChaosInjector::new(42).inject_erasures(&mut data, 50);
    assert!(erased.is_empty());
    let mut small = vec![5u8; 3];
    let erased = ChaosInjector::new(42).inject_erasures(&mut small, 100);
    assert!(erased.len() <= 3);
    for &p in &erased {
        assert_eq!(small[p], 0);
    }
}

#[test]
fn probability_is_clamped_and_seed_kept() {
    let data = vec![0u8; 64];
    let a = ChaosInjector::new(11).with_probability(5_000_000);
    let b = ChaosInjector::new(11);
    assert_eq!(a.corrupt_copy(&data, 250_000), b.corrupt_copy(&data, 250_000));
}

#[test]
fn default_injector_uses_seed_zero() {
    let data = vec![0x55u8; 40];
    assert_eq!(
        ChaosInjector::default().corrupt_copy(&data, 500_000),
        ChaosInjector::new(0).corrupt_copy(&data, 500_000)
    );
}
