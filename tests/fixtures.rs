use embeddenator_testkit::fixtures::{verify_data_sampled, SampleMismatch};
use embeddenator_testkit::{create_test_data, create_test_data_bytes, TestDataPattern};

#[test]
fn test_create_test_data() {
    let data = create_test_data(1, TestDataPattern::Zeros);
    assert_eq!(data.len(), 1024 * 1024);
    assert!(data.iter().all(|&b| b == 0));

    let data = create_test_data(1, TestDataPattern::Ones);
    assert!(data.iter().all(|&b| b == 0xFF));
}

#[test]
fn test_sequential_pattern() {
    let data = create_test_data_bytes(512, TestDataPattern::Sequential);
    assert_eq!(data.len(), 512);
    for i in 0..256 {
        assert_eq!(data[i], i as u8);
    }
    // Should wrap around
    for i in 256..512 {
        assert_eq!(data[i], (i % 256) as u8);
    }
}

#[test]
fn test_compressible_pattern() {
    let data = create_test_data_bytes(100, TestDataPattern::Compressible);
    let pattern = b"The quick brown fox jumps over the lazy dog. ";

    // Check first occurrence
    assert_eq!(&data[0..pattern.len()], pattern);
}

#[test]
fn test_verify_data_sampled() {
    let data = create_test_data_bytes(10000, TestDataPattern::Sequential);
    // Should not panic
    verify_data_sampled(&data, TestDataPattern::Sequential, 100).unwrap();
}

#[test]
fn sampled_check_reports_first_mismatch() {
    let mut data = create_test_data_bytes(1000, TestDataPattern::Sequential);
    data[500] = 0xFF;
    let err = verify_data_sampled(&data, TestDataPattern::Sequential, 100).unwrap_err();
    assert_eq!(err, SampleMismatch { position: 500, sample: 50, expected: 500u32 as u8, actual: 0xFF });
}

#[test]
fn random_and_text_patterns_follow_their_formulas() {
    let data = create_test_data_bytes(300, TestDataPattern::Random);
    for (i, &b) in data.iter().enumerate() {
        assert_eq!(b, (i.wrapping_mul(2654435761) % 256) as u8);
    }
    let text = create_test_data_bytes(130, TestDataPattern::Text);
    let chars = b"ABCDEFGHIJKLMNOPQRSTUVWXYZabcdefghijklmnopqrstuvwxyz0123456789 \n";
    for (i, &b) in text.iter().enumerate() {
        assert_eq!(b, chars[i % chars.len()]);
    }
    for p in [TestDataPattern::Random, TestDataPattern::Text, TestDataPattern::Compressible] {
        let d = create_test_data_bytes(5000, p);
        assert!(verify_data_sampled(&d, p, 37).is_ok());
    }
}

#[test]
fn sampling_more_points_than_bytes_checks_the_first_byte() {
    let data = vec![0xFFu8; 3];
    assert!(verify_data_sampled(&data, TestDataPattern::Ones, 10).is_ok());
    let err = verify_data_sampled(&data, TestDataPattern::Zeros, 10).unwrap_err();
    assert_eq!(err.position, 0);
    assert_eq!(err.sample, 0);
    assert!(verify_data_sampled(&[], TestDataPattern::Zeros, 4).is_ok());
}
