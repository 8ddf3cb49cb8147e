use embeddenator_testkit::testkit_smoke;

#[test]
fn test_smoke() {
    assert!(testkit_smoke());
}
