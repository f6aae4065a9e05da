use std::str::FromStr;

use radix_convert::{Base, Number, ParseNumberError};

#[test]
fn same_base_gives_none() {
    let n = Number::from_str("0.25").unwrap();
    assert!(n.to_base(Base(10)).is_none());
    let m = n.to_base(Base(60)).unwrap();
    assert!(m.to_base(Base(60)).is_none());
    assert_eq!(60, m.base().0);
}

#[test]
fn sign_is_kept() {
    let n = Number::from_str("-0.5").unwrap();
    assert!(n.is_negative());
    let m = n.to_base(Base(60)).unwrap();
    assert!(m.is_negative());
    assert_eq!("-0.30", m.to_display_string());
    assert_eq!("-0.5", n.to_dec_string());

    let p = Number::from_str("5").unwrap();
    assert!(!p.to_base(Base(2)).unwrap().is_negative());
}

#[test]
fn digits_stay_below_base() {
    let n = Number::from_str("987654321.987654321").unwrap();
    for base in [2usize, 3, 7, 16, 60, 1000] {
        let m = n.to_base(Base(base)).unwrap();
        assert!(m.int_digits().iter().all(|d| *d < base));
        assert!(m.dec_digits().iter().all(|d| *d < base));
    }
}

#[test]
fn digit_sequences_are_never_empty() {
    for text in ["0", "0.0", "69.", "0.5", "7", "1/3"] {
        let n = Number::from_str(text).unwrap();
        assert!(!n.int_digits().is_empty());
        assert!(!n.dec_digits().is_empty());
        let m = n.to_base(Base(2)).unwrap();
        assert!(!m.int_digits().is_empty());
        assert!(!m.dec_digits().is_empty());
    }
    let z = Number::from_str("0").unwrap().to_base(Base(2)).unwrap();
    assert_eq!("0.0", z.to_display_string());
}

#[test]
fn parse_errors() {
    assert_eq!(Some(ParseNumberError::Malformed), Number::from_str("Hello, Prof. Kennedy!").err());
    assert_eq!(Some(ParseNumberError::Malformed), Number::from_str("1.2.3").err());
    assert_eq!(Some(ParseNumberError::NotFinite), Number::from_str("NaN").err());
    assert_eq!(Some(ParseNumberError::NotFinite), Number::from_str("inf").err());
}

#[test]
fn reading_is_turned_into_digits() {
    let whole: Vec<char> = "0".chars().collect();
    let part: Vec<char> = "0.25".chars().collect();
    let n = Number::from_reading("1/4", Some(true), &whole, &part).unwrap();
    assert_eq!(vec![0], *n.int_digits());
    assert_eq!(vec![2, 5], *n.dec_digits());
    assert!(n.is_negative());
    assert_eq!(10, n.base().0);

    let whole: Vec<char> = "34".chars().collect();
    let part: Vec<char> = "0".chars().collect();
    let n = Number::from_reading("-034.", Some(false), &whole, &part).unwrap();
    assert_eq!(vec![0, 3, 4], *n.int_digits());
    assert_eq!(vec![0], *n.dec_digits());

    let whole: Vec<char> = "inf".chars().collect();
    assert_eq!(
        Some(ParseNumberError::NotFinite),
        Number::from_reading("inf", Some(false), &whole, &part).err()
    );
    let whole: Vec<char> = "0".chars().collect();
    assert_eq!(Some(ParseNumberError::NotFinite), Number::from_reading("NaN", None, &whole, &part).err());
}

#[test]
fn integral_part_converts_exactly() {
    assert_eq!("1;0;0;0;1;0;1.0", display_of("69", 2));
    assert_eq!("15;15.0", display_of("255", 16));
    assert_eq!("1;0;0.0", display_of("3600", 60));
    assert_eq!("1000000.0", Number::from_str("64").unwrap().to_base(Base(2)).unwrap().to_dec_string());
}

#[test]
fn fraction_stops_at_cycle_or_cap() {
    // 1/10 in base three repeats after four digits.
    assert_eq!("0.0;0;2;2", display_of("0.1", 3));
    // No repeat within reach: the cap of eight digits applies.
    assert_eq!("0.0;0;0;1;1;1;1;1", display_of("0.123", 2));
    // A ratio with a repeating expansion ends well before the cap.
    assert_eq!("0.0;1", display_of("1/3", 2));
}

#[test]
fn default_is_decimal_zero() {
    let n = Number::default();
    assert_eq!("0.0", n.to_dec_string());
    assert_eq!(10, n.base().0);
    assert_eq!(Base(10), Base::default());
    assert_eq!(Base(7), Base::from(7));
}

fn display_of(text: &str, base: usize) -> String {
    Number::from_str(text).unwrap().to_base(Base(base)).unwrap().to_display_string()
}

#[test]
fn zero_denominator_is_refused() {
    for text in ["1/0", "0/0", "-3/00", "1/+0", "1/0_0"] {
        assert_eq!(Some(ParseNumberError::Malformed), Number::from_str(text).err());
    }
    let n = Number::from_str("3/4").unwrap();
    assert_eq!("0.75", n.to_dec_string());
}

#[test]
fn negative_zero_is_positive() {
    for text in ["-0", "-0.0", "-00.000"] {
        let n = Number::from_str(text).unwrap();
        assert!(!n.is_negative());
        assert!(!n.to_dec_string().starts_with('-'));
    }
    let whole: Vec<char> = "0".chars().collect();
    let part: Vec<char> = "0".chars().collect();
    let n = Number::from_reading("-0", Some(true), &whole, &part).unwrap();
    assert!(!n.is_negative());
    let part: Vec<char> = "0.5".chars().collect();
    let n = Number::from_reading("-0.5", Some(true), &whole, &part).unwrap();
    assert!(n.is_negative());
}

#[test]
fn largest_base_converts() {
    let n = Number::from_str("123.5").unwrap();
    let m = n.to_base(Base(usize::MAX)).unwrap();
    assert_eq!(vec![123], *m.int_digits());
    assert_eq!(usize::MAX / 2, m.dec_digits()[0]);
    assert!(m.dec_digits().iter().all(|d| *d < usize::MAX));
    let back = m.to_base(Base(10)).unwrap();
    assert_eq!(vec![1, 2, 3], *back.int_digits());
}
