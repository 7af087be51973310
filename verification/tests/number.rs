use tjson::number::Number;

#[test]
fn parse_valid() {
    for s in ["0", "-0", "1", "-1", "42", "3.45", "-3.45", "1e10", "1E10",
              "1.5e-3", "1.5E+3", "0.0", "99999999999999999999"] {
        assert!(s.parse::<Number>().is_ok(), "expected valid: {s}");
    }
}

#[test]
fn parse_invalid() {
    for s in ["", "nan", "NaN", "inf", "Infinity", "-inf",
              "1.", ".5", "1e", "1e+", "01", "--1", "+1"] {
        assert!(s.parse::<Number>().is_err(), "expected invalid: {s}");
    }
}

#[test]
fn roundtrip_string() {
    for s in ["42", "-3.45", "1e100", "1E10", "99999999999999999999"] {
        let n: Number = s.parse().unwrap();
        assert_eq!(n.as_str(), s, "roundtrip failed for {s}");
    }
}

#[test]
fn from_integers() {
    assert_eq!(Number::from_i64(42i64).as_str(), "42");
    assert_eq!(Number::from_u64(u64::MAX).as_str(), "18446744073709551615");
    assert_eq!(Number::from_i64(-1i64).as_str(), "-1");
}

#[test]
fn as_accessors_for_integers() {
    let n: Number = "42".parse().unwrap();
    assert_eq!(n.as_i64(), Some(42));
    assert_eq!(n.as_u64(), Some(42));

    let n: Number = "-5".parse().unwrap();
    assert_eq!(n.as_i64(), Some(-5));
    assert_eq!(n.as_u64(), None);

    let n: Number = "3.45".parse().unwrap();
    assert_eq!(n.as_i64(), None);
}

#[test]
fn is_integer_still_reads_the_spelling() {
    assert!("42".parse::<Number>().unwrap().is_integer());
    assert!(!"3.45".parse::<Number>().unwrap().is_integer());
    assert!(!"1e10".parse::<Number>().unwrap().is_integer());

    assert!(!"1e2".parse::<Number>().unwrap().is_integer());
    assert!("-0".parse::<Number>().unwrap().is_integer());
    assert!(!"-0".parse::<Number>().unwrap().is_plain_integer());
}

#[test]
fn spelling_predicates() {
    let has_exponent = |s: &str| s.parse::<Number>().unwrap().has_exponent();
    assert!(has_exponent("1e2"));
    assert!(has_exponent("1E2"), "the capital spelling counts too");
    assert!(has_exponent("1.5e-3"));
    assert!(!has_exponent("100"));
    assert!(!has_exponent("1.5"));

    let has_decimal = |s: &str| s.parse::<Number>().unwrap().has_decimal();
    assert!(has_decimal("1.5"));
    assert!(has_decimal("1.0e2"));
    assert!(!has_decimal("1"));
    assert!(!has_decimal("1e2"), "an exponent is not a decimal point");

    let is_sign_negative = |s: &str| s.parse::<Number>().unwrap().is_sign_negative();
    assert!(is_sign_negative("-1"));
    assert!(is_sign_negative("-0"), "the value this predicate exists for");
    assert!(is_sign_negative("-0.0"));
    assert!(!is_sign_negative("0"));
    assert!(
        !is_sign_negative("1e-5"),
        "the minus belongs to the exponent, not the number"
    );

    let is_plain_integer = |s: &str| s.parse::<Number>().unwrap().is_plain_integer();
    assert!(is_plain_integer("42"));
    assert!(is_plain_integer("-1"), "an ordinary negative integer still is one");
    assert!(is_plain_integer("0"));
    assert!(
        is_plain_integer("999999999999999999999999"),
        "form, not range -- as_i64 gives None for this and it is still plain"
    );
    assert!(!is_plain_integer("3.45"), "carries a fraction marker");
    assert!(!is_plain_integer("1e2"), "carries exponent notation");
    assert!(!is_plain_integer("-0"), "carries a sign the value does not have");
}

#[test]
fn from_small_integers_spell_them_in_decimal() {
    assert_eq!(Number::from_i32(-7).as_str(), "-7");
    assert_eq!(Number::from_u32(0).as_str(), "0");
    assert_eq!(Number::from_i64(i64::MIN).as_str(), "-9223372036854775808");
}

#[test]
fn an_invalid_number_names_the_text_it_refused() {
    let error = "1.".parse::<Number>().unwrap_err();
    assert_eq!(error.text(), "1.");
    assert_eq!(error.display(), "invalid JSON number: 1.");
}

#[test]
fn negative_zero_is_no_unsigned_integer() {
    let n: Number = "-0".parse().unwrap();
    assert_eq!(n.as_u64(), None);
    assert_eq!(n.as_i64(), Some(0));
    let n: Number = "0".parse().unwrap();
    assert_eq!(n.as_u64(), Some(0));
}
