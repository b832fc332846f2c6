use ticker_relay::decimal::{Decimal, Relation};

fn dec(text: &str) -> Decimal {
    Decimal::parse(text).unwrap()
}

#[test]
fn parse_writes_back_the_shortest_form() {
    assert_eq!(dec("12.50").to_string(), "12.5");
    assert_eq!(dec("0012").to_string(), "12");
    assert_eq!(dec("+7").to_string(), "7");
    assert_eq!(dec(".5").to_string(), "0.5");
    assert_eq!(dec("5.").to_string(), "5");
    assert_eq!(dec("-.25").to_string(), "-0.25");
    assert_eq!(dec("0").to_string(), "0");
    assert_eq!(dec("000.000").to_string(), "0");
    assert_eq!(dec("-17.0300").to_string(), "-17.03");
    assert_eq!(dec("0.00001234").to_string(), "0.00001234");
    assert_eq!(dec("43251.10").to_string(), "43251.1");
    assert_eq!(dec("100").to_string(), "100");
}

#[test]
fn parse_keeps_every_digit_of_a_long_number() {
    let text = "123456789012345678901234567890123456789012345678901234567890.000000000100";
    assert_eq!(
        dec(text).to_string(),
        "123456789012345678901234567890123456789012345678901234567890.0000000001"
    );
}

#[test]
fn parse_has_no_negative_zero() {
    let zero = dec("-0.0");
    assert!(zero.is_zero());
    assert!(!zero.is_negative());
    assert_eq!(zero, Decimal::zero());
    assert_eq!(zero.to_string(), "0");
}

#[test]
fn parse_refuses_what_is_not_plain_decimal_notation() {
    let refused = [
        "", "+", "-", ".", "+.", "-.", "abc", "1e3", "1E3", "1.2.3", " 1", "1 ", "1,5", "0x10",
        "inf", "NaN", "1-", "--1", "+-1", "1_000", "١٢", "1.5é", "$5",
    ];
    for text in refused {
        assert!(Decimal::parse(text).is_none(), "accepted {:?}", text);
    }
}

#[test]
fn parse_or_zero_degrades_to_zero() {
    assert_eq!(Decimal::parse_or_zero("abc"), Decimal::zero());
    assert_eq!(Decimal::parse_or_zero(""), Decimal::zero());
    assert_eq!(Decimal::parse_or_zero("7.25"), dec("7.25"));
    assert!(Decimal::parse_or_zero("abc").is_zero());
    assert!(!Decimal::parse_or_zero("0.001").is_zero());
}

#[test]
fn equal_numbers_are_equal_decimals() {
    assert_eq!(dec("1.5"), dec("1.50"));
    assert_eq!(dec("01.5"), dec("+1.5"));
    assert_eq!(dec("100.0"), dec("100"));
    assert_ne!(dec("1.5"), dec("-1.5"));
    assert_ne!(dec("1.5"), dec("15"));
    assert_eq!(dec("1.5").relation_to(&dec("1.50")), Relation::Equal);
}

#[test]
fn relation_follows_numeric_order() {
    let rising = [
        "-1000000000000000000000000000000", "-2", "-1.5", "-1", "-0.5", "-0.25", "-0.0001", "0",
        "0.0001", "0.09", "0.1", "0.11", "0.5", "1", "1.999", "2", "9", "10", "99.999", "100",
        "123", "123.0001", "1000000000000000000000000000000",
    ];
    for i in 0..rising.len() {
        for k in 0..rising.len() {
            let a = dec(rising[i]);
            let b = dec(rising[k]);
            let expected = if i < k {
                Relation::Below
            } else if i > k {
                Relation::Above
            } else {
                Relation::Equal
            };
            assert_eq!(a.relation_to(&b), expected, "{} against {}", rising[i], rising[k]);
            assert_eq!(a.less_than(&b), i < k);
        }
    }
}

#[test]
fn is_negative_reads_the_sign() {
    assert!(dec("-3").is_negative());
    assert!(!dec("3").is_negative());
    assert!(!dec("0").is_negative());
}

#[test]
fn clone_is_the_same_number() {
    let a = dec("-12345.6789");
    let b = a.clone();
    assert_eq!(a, b);
    assert_eq!(b.to_string(), "-12345.6789");
}

#[test]
fn written_form_is_read_back() {
    for text in ["0", "-0.5", "12", "1200", "0.0012", "98765432109876543210.0123456789"] {
        let once = dec(text);
        let again = dec(&once.to_string());
        assert_eq!(once, again);
        assert_eq!(once.to_string(), text);
    }
}
