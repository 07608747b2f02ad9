use storage::amount::{Amount, AmountError};
use std::cmp::Ordering;

fn amt(s: &str) -> Amount {
    Amount::parse(s).unwrap()
}

#[test]
fn parse_gives_canonical_text() {
    assert_eq!(amt("007").to_text(), "7");
    assert_eq!(amt("0").to_text(), "0");
    assert_eq!(amt("000").to_text(), "0");
    assert_eq!(amt("1200").to_text(), "1200");
}

#[test]
fn parse_rejects_malformed_text() {
    assert!(matches!(Amount::parse(""), Err(AmountError::InvalidAmount)));
    assert!(matches!(Amount::parse("-3"), Err(AmountError::InvalidAmount)));
    assert!(matches!(Amount::parse("1.5"), Err(AmountError::InvalidAmount)));
    assert!(matches!(Amount::parse("12a"), Err(AmountError::InvalidAmount)));
    assert!(matches!(Amount::parse(" 1"), Err(AmountError::InvalidAmount)));
}

#[test]
fn round_trip_through_text() {
    for s in ["0", "00", "42", "000123", "340282366920938463463374607431768211456"] {
        let once = amt(s);
        let again = amt(&once.to_text());
        assert_eq!(once.compare(&again), Ordering::Equal);
        assert_eq!(once.to_text(), again.to_text());
    }
}

#[test]
fn add_carries_past_sixty_four_bits() {
    assert_eq!(amt("18446744073709551615").add(&amt("1")).to_text(), "18446744073709551616");
    assert_eq!(amt("999").add(&amt("1")).to_text(), "1000");
    assert_eq!(amt("0").add(&amt("0")).to_text(), "0");
    assert_eq!(amt("25").add(&amt("17")).to_text(), "42");
}

#[test]
fn subtract_clamped_never_goes_negative() {
    assert_eq!(amt("100").subtract_clamped(&amt("30")).to_text(), "70");
    assert_eq!(amt("30").subtract_clamped(&amt("1000")).to_text(), "0");
    assert_eq!(amt("1000").subtract_clamped(&amt("1")).to_text(), "999");
    assert_eq!(amt("100000000000000000000").subtract_clamped(&amt("1")).to_text(), "99999999999999999999");
}

#[test]
fn subtract_clamped_self_and_from_zero_is_zero() {
    for s in ["0", "5", "123456789012345678901234567890"] {
        assert!(amt(s).subtract_clamped(&amt(s)).is_zero());
        assert!(Amount::zero().subtract_clamped(&amt(s)).is_zero());
    }
}

#[test]
fn compare_orders_by_value() {
    assert_eq!(amt("9").compare(&amt("10")), Ordering::Less);
    assert_eq!(amt("010").compare(&amt("10")), Ordering::Equal);
    assert_eq!(amt("100").compare(&amt("99")), Ordering::Greater);
    assert_eq!(Amount::zero().compare(&amt("0")), Ordering::Equal);
}
