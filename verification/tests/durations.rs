use firelog::decimal::scan;
use firelog::time::Duration;
use firelog::utils::{dur_format, str_as_days, str_as_mins, value_since};

#[test]
fn durations_carry_and_compare() {
    assert_eq!(Duration::new(1, 2_500_000_000), Some(Duration::new(3, 500_000_000).unwrap()));
    assert_eq!(Duration::new(u64::MAX, 1_000_000_000), None);
    assert_eq!(Duration::new(u64::MAX, 999_999_999).unwrap().as_secs(), u64::MAX);
    let a = Duration::new(5, 10).unwrap();
    let b = Duration::new(5, 11).unwrap();
    assert!(a.is_lt(&b));
    assert!(b.is_gt(&a));
    assert!(!a.is_lt(&a));
    assert!(Duration::from_secs(4).is_lt(&a));
    assert!(Duration::zero().is_zero());
    assert!(!a.is_zero());
    assert_eq!(a.subsec_nanos(), 10);
}

#[test]
fn durations_add_and_subtract() {
    let a = Duration::new(5, 100).unwrap();
    let b = Duration::new(2, 999_999_999).unwrap();
    assert_eq!(a.checked_sub(&b), Some(Duration::new(2, 101).unwrap()));
    assert_eq!(b.checked_sub(&a), None);
    assert_eq!(a.checked_sub(&a), Some(Duration::zero()));
    assert_eq!(a.checked_add(&b), Some(Duration::new(8, 99).unwrap()));
    let top = Duration::new(u64::MAX, 999_999_999).unwrap();
    assert_eq!(top.checked_add(&Duration::new(0, 1).unwrap()), None);
    assert_eq!(top.checked_add(&Duration::zero()), Some(top));
    assert_eq!(Duration::from_secs(u64::MAX).checked_add(&Duration::from_secs(1)), None);
}

#[test]
fn spans_are_shown_with_one_decimal_place() {
    assert_eq!(dur_format(Duration::from_secs(0)), "0.0m");
    assert_eq!(dur_format(Duration::from_secs(90)), "1.5m");
    assert_eq!(dur_format(Duration::from_secs(3600)), "60.0m");
    assert_eq!(dur_format(Duration::from_secs(3601)), "1.0h");
    assert_eq!(dur_format(Duration::from_secs(5400)), "1.5h");
    assert_eq!(dur_format(Duration::from_secs(86400)), "24.0h");
    assert_eq!(dur_format(Duration::new(86400, 1).unwrap()), "1.0d");
    assert_eq!(dur_format(Duration::from_secs(86400 * 10 + 43200)), "10.5d");
    assert_eq!(dur_format(Duration::from_secs(1_000_000_000)), "11574.1d");
}

#[test]
fn spans_are_rounded_to_the_nearest_tenth() {
    assert_eq!(dur_format(Duration::from_secs(2)), "0.0m");
    assert_eq!(dur_format(Duration::from_secs(3)), "0.1m");
    assert_eq!(dur_format(Duration::from_secs(8)), "0.1m");
    assert_eq!(dur_format(Duration::from_secs(9)), "0.2m");
    assert_eq!(dur_format(Duration::from_secs(59)), "1.0m");
    assert_eq!(dur_format(Duration::new(u64::MAX, 999_999_999).unwrap()), "213503982334601.3d");
}

#[test]
fn minutes_are_read_from_decimal_numbers() {
    assert_eq!(str_as_mins("1"), Some(Duration::from_secs(60)));
    assert_eq!(str_as_mins("1.5"), Some(Duration::from_secs(90)));
    assert_eq!(str_as_mins("0.5"), Some(Duration::from_secs(30)));
    assert_eq!(str_as_mins(".5"), Some(Duration::from_secs(30)));
    assert_eq!(str_as_mins("2."), Some(Duration::from_secs(120)));
    assert_eq!(str_as_mins("0"), Some(Duration::zero()));
    assert_eq!(str_as_mins("007"), Some(Duration::from_secs(420)));
    assert_eq!(str_as_mins("0.01"), Some(Duration::new(0, 600_000_000).unwrap()));
    assert_eq!(str_as_mins("0.000000000001"), Some(Duration::zero()));
    assert_eq!(str_as_mins("0.0000000000166667"), Some(Duration::new(0, 1).unwrap()));
}

#[test]
fn days_are_read_from_decimal_numbers() {
    assert_eq!(str_as_days("1"), Some(Duration::from_secs(86400)));
    assert_eq!(str_as_days("0.5"), Some(Duration::from_secs(43200)));
    assert_eq!(str_as_days("7"), Some(Duration::from_secs(604800)));
    assert_eq!(str_as_days("1.000001"), Some(Duration::new(86400, 86_400_000).unwrap()));
}

#[test]
fn what_is_no_decimal_number_is_not_read() {
    for s in [
        "", ".", "abc", "1.2.3", " 1", "1 ", "1,5", "inf", "+inf", "infinity", "NaN", "nan",
        "1.x", "٣", "+", "-", "++1", "+-1", "1+", "1e", "1e+", "1e-", "e5", "+e5", ".e5", "1e5.5",
        "1e5e5", "1e 5", "1_000", "0x10",
    ] {
        assert_eq!(str_as_mins(s), None);
        assert_eq!(str_as_days(s), None);
    }
}

#[test]
fn a_sign_and_an_exponent_are_read() {
    assert_eq!(str_as_mins("1e3"), Some(Duration::from_secs(60_000)));
    assert_eq!(str_as_days("1e3"), Some(Duration::from_secs(86_400_000)));
    assert_eq!(str_as_mins("+1"), Some(Duration::from_secs(60)));
    assert_eq!(str_as_mins("+2"), Some(Duration::from_secs(120)));
    assert_eq!(str_as_mins("1E2"), Some(Duration::from_secs(6_000)));
    assert_eq!(str_as_mins("1e+2"), Some(Duration::from_secs(6_000)));
    assert_eq!(str_as_mins("1.5e1"), Some(Duration::from_secs(900)));
    assert_eq!(str_as_mins("15e-1"), Some(Duration::from_secs(90)));
    assert_eq!(str_as_mins("1.e1"), Some(Duration::from_secs(600)));
    assert_eq!(str_as_mins(".5e1"), Some(Duration::from_secs(300)));
    assert_eq!(str_as_mins("0.00001e5"), Some(Duration::from_secs(60)));
    assert_eq!(str_as_mins("+0.5E+1"), Some(Duration::from_secs(300)));
    assert_eq!(str_as_mins("1e0"), Some(Duration::from_secs(60)));
    assert_eq!(str_as_mins("1e-0"), Some(Duration::from_secs(60)));
    assert_eq!(str_as_mins("1e17"), Some(Duration::from_secs(6_000_000_000_000_000_000)));
    assert_eq!(str_as_days("25e-2"), Some(Duration::from_secs(21_600)));
    assert_eq!(str_as_mins("12345e-4"), Some(Duration::new(74, 70_000_000).unwrap()));
}

#[test]
fn a_number_below_zero_is_no_span() {
    assert_eq!(str_as_mins("-1"), None);
    assert_eq!(str_as_days("-0.5"), None);
    assert_eq!(str_as_mins("-1e-50"), None);
    assert_eq!(str_as_mins("-1e5"), None);
    assert_eq!(str_as_mins("-0"), Some(Duration::zero()));
    assert_eq!(str_as_mins("-0.000e7"), Some(Duration::zero()));
    assert_eq!(str_as_days("-.0"), Some(Duration::zero()));
}

#[test]
fn exponents_of_any_size_are_read() {
    let huge = "9".repeat(60);
    assert_eq!(str_as_mins(&format!("1e{huge}")), None);
    assert_eq!(str_as_mins(&format!("0.001e{huge}")), None);
    assert_eq!(str_as_mins(&format!("0e{huge}")), Some(Duration::zero()));
    assert_eq!(str_as_mins(&format!("1e-{huge}")), Some(Duration::zero()));
    assert_eq!(str_as_mins(&format!("{huge}e-{huge}")), Some(Duration::zero()));
    assert_eq!(str_as_mins("1e20"), None);
    assert_eq!(str_as_mins("1e19"), None);
    assert_eq!(str_as_mins("1e-50"), Some(Duration::zero()));
    assert_eq!(str_as_mins("1e-11"), Some(Duration::zero()));
    assert_eq!(str_as_mins("2e-11"), Some(Duration::new(0, 1).unwrap()));
    let long = format!("{}e-40", "1".repeat(41));
    assert_eq!(str_as_mins(&long), Some(Duration::new(66, 666_666_666).unwrap()));
    let shifted = format!("0.{}1e41", "0".repeat(40));
    assert_eq!(str_as_mins(&shifted), Some(Duration::from_secs(60)));
}

#[test]
fn what_is_too_long_to_hold_is_not_read() {
    assert_eq!(str_as_mins("307445734561825860"), Some(Duration::from_secs(18446744073709551600)));
    assert_eq!(str_as_mins("307445734561825861"), None);
    assert_eq!(
        str_as_mins("307445734561825860.25"),
        Some(Duration::from_secs(18446744073709551615))
    );
    assert_eq!(str_as_mins("307445734561825860.27"), None);
    assert_eq!(str_as_mins("99999999999999999999999999999999999999999999"), None);
    assert_eq!(str_as_days("213503982334601.5"), None);
}

#[test]
fn every_decimal_place_counts() {
    assert_eq!(str_as_mins("0.0000000000000000009"), Some(Duration::zero()));
    assert_eq!(
        str_as_mins("1.9999999999999999999999999"),
        Some(Duration::new(119, 999_999_999).unwrap())
    );
    assert_eq!(str_as_mins("0.0000000000166666666666666666666"), Some(Duration::zero()));
    assert_eq!(
        str_as_mins("0.0000000000166666666666666666667"),
        Some(Duration::new(0, 1).unwrap())
    );
    assert_eq!(
        str_as_mins("0.016666666666666666666666666666666666666"),
        Some(Duration::new(0, 999_999_999).unwrap())
    );
    assert_eq!(str_as_mins("1.000000000000000000x"), None);
}

#[test]
fn windows_of_accrued_value() {
    assert_eq!(value_since("1"), Duration::from_secs(86400));
    assert_eq!(value_since("2"), Duration::from_secs(86400 * 7));
    assert_eq!(value_since("3"), Duration::from_secs(86400 * 30));
    assert_eq!(value_since("4"), Duration::from_secs(1000000000));
}

#[test]
fn a_number_is_taken_apart() {
    let found = scan("-012.340e-56").unwrap();
    assert!(found.negative);
    assert_eq!(found.digits, vec!['0', '1', '2', '3', '4', '0']);
    assert!(found.nonzero);
    assert_eq!(found.places, 3);
    assert!(found.exponent_negative);
    assert_eq!(found.exponent_size, 56);
    assert!(!found.exponent_huge);

    let found = scan("+.000").unwrap();
    assert!(!found.negative);
    assert!(!found.nonzero);
    assert_eq!(found.places, 3);
    assert_eq!(found.exponent_size, 0);
    assert!(!found.exponent_negative);

    let found = scan(&format!("7E+{}", "1".repeat(40))).unwrap();
    assert!(found.exponent_huge);
    assert!(!found.exponent_negative);
    assert_eq!(found.digits, vec!['7']);
    assert_eq!(found.places, 0);

    assert!(scan("1.2.3").is_none());
    assert!(scan("e1").is_none());
    assert!(scan("12e").is_none());
    assert!(scan("").is_none());
}
