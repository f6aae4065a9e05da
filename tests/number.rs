use std::str::FromStr;

use radix_convert::{Base, Number, ParseNumberError};


#[test]
fn number_parse_number() -> Result<(), ParseNumberError> {
    let n = Number::from_str("Hello, Prof. Kennedy!");
    assert!(n.is_err());

    let n = Number::from_str("6.9")?;
    assert_ne!(vec![3, 4], *n.int_digits());
    assert_eq!(vec![6], *n.int_digits());
    assert_eq!(vec![9], *n.dec_digits());

    let n = Number::from_str("0.69")?;
    assert_eq!(vec![0], *n.int_digits());
    assert_eq!(vec![6, 9], *n.dec_digits());

    // Leading zeros of a plainly written numeral are kept as digits.
    let n = Number::from_str("034.69")?;
    assert_eq!(vec![0, 3, 4], *n.int_digits());
    assert_eq!(vec![6, 9], *n.dec_digits());

    let n = Number::from_str("0.69")?;
    assert_eq!(vec![0], *n.int_digits());
    assert_eq!(vec![6, 9], *n.dec_digits());

    let n = Number::from_str("69")?;
    assert_eq!(vec![6, 9], *n.int_digits());
    assert_eq!(vec![0], *n.dec_digits());

    let n = Number::from_str("69.")?;
    assert_eq!(vec![6, 9], *n.int_digits());
    assert_eq!(vec![0], *n.dec_digits());

    let n = Number::from_str("69.0")?;
    assert_eq!(vec![6, 9], *n.int_digits());
    assert_eq!(vec![0], *n.dec_digits());

    let n = Number::from_str("69.00")?;
    assert_eq!(vec![6, 9], *n.int_digits());
    assert_eq!(vec![0], *n.dec_digits());
    Ok(())
}

#[test]
fn number_display_number() -> Result<(), ParseNumberError> {
    let n = Number::from_str("12.34")?;
    assert_eq!("12.34", format!("{}", n.to_dec_string()));
    assert_eq!("1;2.3;4", format!("{}", n.to_display_string()));
    Ok(())
}

#[test]
fn number_convert() -> Result<(), ParseNumberError> {
    let n = Number::from_str("0.2")?;
    let c = n.to_base(Base(10));
    assert!(c.is_none());

    let n = Number::from_str("0.2")?;
    let c = n.to_base(Base(2));
    assert!(c.is_some());
    assert_eq!("0.0;0;1;1", c.unwrap().to_display_string());

    let n = Number::from_str("0.1")?;
    let c = n.to_base(Base(2));
    assert!(c.is_some());
    assert_eq!("0.0;0;0;1;1", c.unwrap().to_display_string());

    let n = Number::from_str("1/7")?;
    let c = n.to_base(Base(2));
    assert!(c.is_some());
    assert_eq!("0.0;0;1", c.unwrap().to_display_string());

    let n = Number::from_str("0.5")?;
    let c = n.to_base(Base(60));
    assert!(c.is_some());
    assert_eq!("0.30", c.unwrap().to_display_string());

    let n = Number::from_str("0.25")?;
    let c = n.to_base(Base(60));
    assert!(c.is_some());
    assert_eq!("0.15", c.unwrap().to_display_string());

    let n = Number::from_str("0.75")?;
    let c = n.to_base(Base(60));
    assert!(c.is_some());
    assert_eq!("0.45", c.unwrap().to_display_string());

    let n = Number::from_str("0.8")?;
    let c = n.to_base(Base(60));
    assert!(c.is_some());
    assert_eq!("0.48", c.unwrap().to_display_string());

    let n = Number::from_str("0.16666")?;
    assert_eq!("0.16666", format!("{}", n.to_dec_string()));
    let c = n.to_base(Base(60));
    assert!(c.is_some());
    assert_eq!("0.9;59;58;33;36", c.unwrap().to_display_string());

    Ok(())
}

#[test]
fn main_display_number() -> Result<(), ParseNumberError> {
    let n = Number::from_str("12.34")?;
    assert_eq!("12.34", n.to_dec_string());
    Ok(())
}

#[test]
fn main_convert() -> Result<(), ParseNumberError> {
    let n = Number::from_str("0.2")?;
    assert_eq!("0.0011", n.to_base(Base(2)).unwrap().to_dec_string());

    let n = Number::from_str("0.1")?;
    assert_eq!("0.00011", n.to_base(Base(2)).unwrap().to_dec_string());

    let n = Number::from_str("1/7")?;
    assert_eq!("0.001", n.to_base(Base(2)).unwrap().to_dec_string());
    Ok(())
}
