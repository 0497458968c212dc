use whilex::natural::Natural;

fn num(s: &str) -> Natural {
    Natural::parse_decimal(s).expect("a decimal number")
}

#[test]
fn add_carries_into_a_new_limb() {
    let a = Natural::from_limbs(vec![4294967295]);
    let b = Natural::from_limbs(vec![1]);
    let sum = a.add(&b);
    assert_eq!(sum.to_limbs(), vec![0, 1]);
    assert_eq!(sum.to_decimal(), "4294967296");
}

#[test]
fn add_of_large_numbers() {
    let a = num("123456789012345678901234567890");
    let b = num("987654321098765432109876543210");
    assert_eq!(a.add(&b).to_decimal(), "1111111110111111111011111111100");
}

#[test]
fn saturating_sub_below_zero_is_zero() {
    let three = num("3");
    let five = num("5");
    assert!(three.saturating_sub(&five).is_zero());
    assert_eq!(five.saturating_sub(&three).to_decimal(), "2");
    assert!(five.saturating_sub(&five).is_zero());
}

#[test]
fn less_than_compares_values() {
    assert!(num("99999999999999999999").less_than(&num("100000000000000000000")));
    assert!(!num("7").less_than(&num("7")));
    assert!(!num("8").less_than(&num("7")));
}

#[test]
fn zero_and_is_zero() {
    assert!(Natural::zero().is_zero());
    assert_eq!(Natural::zero().to_decimal(), "0");
    assert!(Natural::from_limbs(vec![0, 0]).is_zero());
    assert!(!Natural::from_limbs(vec![0, 1]).is_zero());
}

#[test]
fn parse_decimal_accepts_plus_and_underscores() {
    assert_eq!(num("+1_000").to_decimal(), "1000");
    assert_eq!(num("007").to_decimal(), "7");
    assert_eq!(num("1__2_").to_decimal(), "12");
}

#[test]
fn parse_decimal_refuses_malformed_text() {
    assert!(Natural::parse_decimal("").is_none());
    assert!(Natural::parse_decimal("+").is_none());
    assert!(Natural::parse_decimal("++5").is_none());
    assert!(Natural::parse_decimal("_5").is_none());
    assert!(Natural::parse_decimal("+_5").is_none());
    assert!(Natural::parse_decimal("12a").is_none());
    assert!(Natural::parse_decimal("-3").is_none());
    assert!(Natural::parse_decimal(" 3").is_none());
}

#[test]
fn decimal_roundtrip_on_values() {
    for text in ["0", "9", "10", "4294967296", "18446744073709551616", "340282366920938463463374607431768211457"] {
        let n = num(text);
        assert_eq!(n.to_decimal(), text);
        assert_eq!(num(&n.to_decimal()).to_limbs(), n.to_limbs());
    }
}

#[test]
fn duplicate_keeps_the_value() {
    let n = num("123456789123456789123456789");
    assert_eq!(n.duplicate().to_decimal(), "123456789123456789123456789");
}
