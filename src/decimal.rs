use vstd::prelude::*;

use crate::number::zero_denominator;

verus! {

#[verifier::external_type_specification]
#[verifier::external_body]
pub struct ExDecimalParseError(fraction::error::ParseError);

/// What `fraction`'s decimal reader makes of a text, shown at a given precision: `None`
/// when it refuses the text; else whether the value is negative (`None` for a value
/// without a sign), then the integral magnitude and the fractional magnitude as
/// rendered.
pub uninterp spec fn decimal_reading(s: Seq<char>, precision: nat) -> Option<
    (Option<bool>, Seq<char>, Seq<char>),
>;

/// Relies on `fraction::BigDecimal`: `from_str` to read the text (refusing what is no
/// numeral), `sign`, then `abs`, `trunc` / `fract`, `set_precision` and `to_string` to
/// render the integral and fractional magnitudes. A ratio text with a zero denominator
/// makes the reader panic, so it is left out. The outcome depends on the text and
/// the precision alone.
#[verifier::external_body]
pub(crate) fn read_decimal(s: &str, precision: usize) -> (r: Result<
    (Option<bool>, Vec<char>, Vec<char>),
    fraction::error::ParseError,
>)
    requires
        !zero_denominator(s@),
    ensures
        match r {
            Ok((neg, whole, part)) => decimal_reading(s@, precision as nat) == Some(
                (neg, whole@, part@),
            ),
            Err(_) => decimal_reading(s@, precision as nat).is_none(),
        },
{
    let d: fraction::BigDecimal = s.parse()?;
    let negative = match d.sign() {
        Some(fraction::Sign::Minus) => Some(true),
        Some(fraction::Sign::Plus) => Some(false),
        None => None,
    };
    let magnitude = d.abs();
    let whole = magnitude.trunc().set_precision(precision).to_string().chars().collect();
    let part = magnitude.fract().set_precision(precision).to_string().chars().collect();
    Ok((negative, whole, part))
}

} // verus!
