use corn::Integer;

#[test]
fn signed_integers_read_back() {
    let i = Integer::from(-5i64);
    assert!(i.is_i64());
    assert!(!i.is_u64());
    assert_eq!(i.as_i64(), Some(-5));
    assert_eq!(i.as_u64(), None);
    assert_eq!(Integer::from(i64::MIN).as_i64(), Some(i64::MIN));
}

#[test]
fn unsigned_integers_read_back() {
    let i = Integer::from(42u64);
    assert!(i.is_i64());
    assert!(i.is_u64());
    assert_eq!(i.as_i64(), Some(42));
    assert_eq!(i.as_u64(), Some(42));
    let big = Integer::from(u64::MAX);
    assert!(!big.is_i64());
    assert_eq!(big.as_i64(), None);
    assert_eq!(big.as_u64(), Some(u64::MAX));
    let edge = Integer::from(i64::MAX as u64);
    assert_eq!(edge.as_i64(), Some(i64::MAX));
    assert_eq!(Integer::from(i64::MAX as u64 + 1).as_i64(), None);
}

#[test]
fn integers_print_in_decimal() {
    assert_eq!(Integer::from(-1234i64).to_decimal_string(), "-1234");
    assert_eq!(Integer::from(0u64).to_decimal_string(), "0");
    assert_eq!(Integer::from(u64::MAX).to_decimal_string(), "18446744073709551615");
    assert_eq!(Integer::from(i64::MIN).to_decimal_string(), "-9223372036854775808");
}

#[test]
fn integers_compare_by_storage() {
    assert_eq!(Integer::from(3i64), Integer::from_i64(3));
    assert_eq!(Integer::from(3u64), Integer::from_u64(3));
    assert_ne!(Integer::from(3i64), Integer::from(3u64));
}
