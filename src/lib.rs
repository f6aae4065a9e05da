//! Conversion of signed decimal numerals into digit sequences of any base.

pub mod base;
pub mod convert;
pub mod decimal;
pub mod digits;
pub mod number;
pub mod text;

pub use base::Base;
pub use number::{Number, NumberModel, ParseNumberError};
