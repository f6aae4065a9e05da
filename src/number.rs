use vstd::prelude::*;
use vstd::string::StrSliceExecFns;

use crate::base::{Base, DECIMAL_RADIX};
use crate::convert::{
    cycle_at, digits_in, frac_digit, fractional_digits, integral_digits, lemma_digits_in,
    lemma_frac_digit_below,
    MAX_FRACTION_DIGITS,
};
use crate::decimal::{decimal_reading, read_decimal};
use crate::digits::{digits_below, is_zero, lemma_value_zero, value_of};
use crate::text::{
    concat_digits, concat_numerals, push_chars, separated_digits, separated_numerals,
};

verus! {

/// Digits a number's text is rendered with while parsing.
pub const WORKING_PRECISION: usize = 256;

/// Why a text is not read as a number.
#[derive(Debug, Clone, Copy, PartialEq, Eq, Structural)]
pub enum ParseNumberError {
    /// The text is not a numeral.
    Malformed,
    /// The text reads as a value without finite digits (not a number, or infinite).
    NotFinite,
}

/// A signed number written in the digits of some base.
#[derive(Debug, Clone)]
pub struct Number {
    base: Base,
    negative: bool,
    integral: Vec<usize>,
    fractional: Vec<usize>,
}

/// The mathematical content of a `Number`.
pub struct NumberModel {
    pub base: nat,
    pub negative: bool,
    /// Integral digits, most significant first.
    pub integral: Seq<usize>,
    /// Fractional digits, the one nearest the point first.
    pub fractional: Seq<usize>,
}

impl View for Number {
    type V = NumberModel;

    closed spec fn view(&self) -> NumberModel {
        NumberModel { base: self.base.0 as nat, negative: self.negative, integral: self.integral@, fractional: self.fractional@ }
    }
}

/// A model is well formed: a base of at least two, and non-empty sequences of digits
/// below it.
pub open spec fn model_wf(m: NumberModel) -> bool {
    &&& m.base >= 2
    &&& m.integral.len() >= 1
    &&& m.fractional.len() >= 1
    &&& digits_below(m.integral, m.base)
    &&& digits_below(m.fractional, m.base)
}

/// `r` is the expansion in radix `t` of the fraction `ds` spells in radix `radix`:
/// one to `MAX_FRACTION_DIGITS` digits, each the true digit, cut before the first point
/// where the expansion is seen to repeat.
pub open spec fn is_fraction_expansion(r: Seq<usize>, ds: Seq<usize>, radix: nat, t: nat) -> bool {
    &&& 1 <= r.len() <= MAX_FRACTION_DIGITS
    &&& forall|i: int| 0 <= i < r.len() ==> r[i] as nat == frac_digit(ds, radix, t, i as nat)
    &&& forall|i: nat| i < r.len() ==> !#[trigger] cycle_at(ds, radix, t, i)
    &&& r.len() < MAX_FRACTION_DIGITS ==> cycle_at(ds, radix, t, r.len() as nat)
}

/// `m` is `src` written in base `t`.
pub open spec fn is_conversion(m: NumberModel, src: NumberModel, t: nat) -> bool {
    &&& m.base == t
    &&& m.negative == src.negative
    &&& m.integral == digits_in(value_of(src.integral, src.base), t)
    &&& is_fraction_expansion(m.fractional, src.fractional, src.base, t)
}

pub open spec fn is_digit_char(c: char) -> bool {
    '0' <= c <= '9'
}

pub open spec fn all_digit_chars(cs: Seq<char>) -> bool {
    forall|i: int| 0 <= i < cs.len() ==> is_digit_char(#[trigger] cs[i])
}

/// The value of each decimal digit character.
pub open spec fn digit_values(cs: Seq<char>) -> Seq<usize> {
    cs.map_values(|c: char| (c as u32 - '0' as u32) as usize)
}

/// Every digit is zero.
pub open spec fn all_zero(ds: Seq<usize>) -> bool {
    forall|i: int| 0 <= i < ds.len() ==> ds[i] == 0
}

/// A digit sequence, or a single zero in place of none.
pub open spec fn or_zero(ds: Seq<usize>) -> Seq<usize> {
    if ds.len() == 0 {
        seq![0usize]
    } else {
        ds
    }
}

/// The characters before the first `sep`, or all of them.
pub open spec fn before_char(cs: Seq<char>, sep: char) -> Seq<char>
    decreases cs.len(),
{
    if cs.len() == 0 {
        cs
    } else {
        let p = before_char(cs.drop_last(), sep);
        if p.len() < cs.len() - 1 {
            p
        } else if cs.last() == sep {
            cs.drop_last()
        } else {
            cs
        }
    }
}

/// The characters after the last point, or all of them.
pub open spec fn after_point(cs: Seq<char>) -> Seq<char>
    decreases cs.len(),
{
    if cs.len() == 0 {
        cs
    } else if cs.last() == '.' {
        seq![]
    } else {
        after_point(cs.drop_last()).push(cs.last())
    }
}

/// The text without a leading sign character.
pub open spec fn unsigned(s: Seq<char>) -> Seq<char> {
    if s.len() > 0 && (s[0] == '-' || s[0] == '+') {
        s.skip(1)
    } else {
        s
    }
}

/// The leading run of decimal digit characters.
pub open spec fn leading_digit_chars(cs: Seq<char>) -> Seq<char>
    decreases cs.len(),
{
    if cs.len() == 0 {
        cs
    } else {
        let p = leading_digit_chars(cs.drop_last());
        if p.len() < cs.len() - 1 {
            p
        } else if is_digit_char(cs.last()) {
            cs
        } else {
            cs.drop_last()
        }
    }
}

/// The denominator text of a ratio with its one permitted leading `+` taken off.
pub open spec fn unsigned_denominator(t: Seq<char>) -> Seq<char> {
    if t.len() > 0 && t[0] == '+' && !(t.len() > 1 && t[1] == '+') {
        t.skip(1)
    } else {
        t
    }
}

/// The text is a ratio whose denominator reads as zero: no point, and after the first
/// `/` an optional `+`, then `0`, then only `0` and `_` separators. The decimal reader
/// cannot form such a ratio.
pub open spec fn zero_denominator(s: Seq<char>) -> bool {
    let n = before_char(s, '/').len();
    let u = unsigned_denominator(s.skip(n as int + 1));
    &&& before_char(s, '.').len() == s.len()
    &&& n < s.len()
    &&& u.len() > 0
    &&& u[0] == '0'
    &&& forall|i: int| 0 <= i < u.len() ==> (#[trigger] u[i] == '0' || u[i] == '_')
}

/// The text is written in plain positional notation: digits, then the end or a point.
pub open spec fn is_plain(s: Seq<char>) -> bool {
    let u = unsigned(s);
    let w = leading_digit_chars(u);
    w.len() == u.len() || u[w.len() as int] == '.'
}

/// The integral digit characters of a number read from `s`: as written where `s` is
/// plain, so that leading zeros stay; else as the reader rendered them.
pub open spec fn integral_chars(s: Seq<char>, whole: Seq<char>) -> Seq<char> {
    if is_plain(s) {
        leading_digit_chars(unsigned(s))
    } else {
        before_char(whole, '.')
    }
}

/// The number made of text `s` and of what the decimal reader gave for it.
pub open spec fn reading_model(
    s: Seq<char>,
    negative: Option<bool>,
    whole: Seq<char>,
    part: Seq<char>,
) -> Result<NumberModel, ParseNumberError> {
    let ic = integral_chars(s, whole);
    let fc = after_point(part);
    if negative.is_some() && all_digit_chars(ic) && all_digit_chars(fc) {
        Ok(
            NumberModel {
                base: DECIMAL_RADIX as nat,
                negative: negative.unwrap() && !(all_zero(or_zero(digit_values(ic))) && all_zero(
                    or_zero(digit_values(fc)),
                )),
                integral: or_zero(digit_values(ic)),
                fractional: or_zero(digit_values(fc)),
            },
        )
    } else {
        Err(ParseNumberError::NotFinite)
    }
}

/// The number that text `s` reads as.
pub open spec fn parse_model(s: Seq<char>) -> Result<NumberModel, ParseNumberError> {
    if zero_denominator(s) {
        Err(ParseNumberError::Malformed)
    } else {
        match decimal_reading(s, WORKING_PRECISION as nat) {
            None => Err(ParseNumberError::Malformed),
            Some((negative, whole, part)) => reading_model(s, negative, whole, part),
        }
    }
}

/// The sign prefix of a rendering.
pub open spec fn sign_text(negative: bool) -> Seq<char> {
    if negative {
        seq!['-']
    } else {
        seq![]
    }
}

/// The characters of a text.
fn text_chars(s: &str) -> (r: Vec<char>)
    ensures
        r@ == s@,
{
    let n = s.unicode_len();
    let mut r: Vec<char> = Vec::new();
    let mut i: usize = 0;
    while i < n
        invariant
            n == s@.len(),
            i <= n,
            r@ == s@.take(i as int),
        decreases n - i,
    {
        r.push(s.get_char(i));
        i += 1;
        assert(r@ =~= s@.take(i as int));
    }
    assert(s@.take(n as int) =~= s@);
    r
}

/// The characters of `cs` before its first `sep`.
fn chars_before(cs: &Vec<char>, sep: char) -> (r: Vec<char>)
    ensures
        r@ == before_char(cs@, sep),
{
    let mut r: Vec<char> = Vec::new();
    let mut found = false;
    let mut i: usize = 0;
    while i < cs.len()
        invariant
            i <= cs@.len(),
            r@ == before_char(cs@.take(i as int), sep),
            found == (r@.len() < i),
        decreases cs@.len() - i,
    {
        assert(cs@.take(i as int + 1).drop_last() =~= cs@.take(i as int));
        if !found {
            if cs[i] == sep {
                found = true;
                assert(r@ =~= cs@.take(i as int));
            } else {
                r.push(cs[i]);
                assert(r@ =~= cs@.take(i as int + 1));
            }
        }
        i += 1;
    }
    assert(cs@.take(cs@.len() as int) =~= cs@);
    r
}

/// Tells whether the text is a ratio whose denominator reads as zero.
fn has_zero_denominator(cs: &Vec<char>) -> (r: bool)
    ensures
        r == zero_denominator(cs@),
{
    let point = chars_before(cs, '.');
    let slash = chars_before(cs, '/');
    if point.len() != cs.len() || slash.len() >= cs.len() {
        return false;
    }
    let mut start: usize = slash.len() + 1;
    let ghost t = cs@.skip(start as int);
    if start < cs.len() && cs[start] == '+' && !(start + 1 < cs.len() && cs[start + 1] == '+') {
        start = start + 1;
    }
    let ghost u = unsigned_denominator(t);
    assert(u =~= cs@.skip(start as int));
    if start >= cs.len() {
        return false;
    }
    if cs[start] != '0' {
        assert(u[0] == cs@[start as int]);
        return false;
    }
    let mut i: usize = start;
    while i < cs.len()
        invariant
            start <= i <= cs@.len(),
            u == cs@.skip(start as int),
            u == unsigned_denominator(cs@.skip(before_char(cs@, '/').len() as int + 1)),
            before_char(cs@, '.').len() == cs@.len(),
            before_char(cs@, '/').len() < cs@.len(),
            u.len() > 0 && u[0] == '0',
            forall|j: int| 0 <= j < i - start ==> (#[trigger] u[j] == '0' || u[j] == '_'),
        decreases cs@.len() - i,
    {
        if cs[i] != '0' && cs[i] != '_' {
            assert(!(u[i - start] == '0' || u[i - start] == '_'));
            return false;
        }
        i += 1;
    }
    true
}

/// The characters of `cs` after its last point.
fn chars_after_point(cs: &Vec<char>) -> (r: Vec<char>)
    ensures
        r@ == after_point(cs@),
{
    let mut r: Vec<char> = Vec::new();
    let mut i: usize = 0;
    while i < cs.len()
        invariant
            i <= cs@.len(),
            r@ == after_point(cs@.take(i as int)),
        decreases cs@.len() - i,
    {
        assert(cs@.take(i as int + 1).drop_last() =~= cs@.take(i as int));
        if cs[i] == '.' {
            r = Vec::new();
        } else {
            r.push(cs[i]);
        }
        i += 1;
    }
    assert(cs@.take(cs@.len() as int) =~= cs@);
    r
}

/// The leading run of digit characters of `cs` from index `start` on.
fn leading_digits_from(cs: &Vec<char>, start: usize) -> (r: Vec<char>)
    requires
        start <= cs@.len(),
    ensures
        r@ == leading_digit_chars(cs@.skip(start as int)),
{
    let ghost u = cs@.skip(start as int);
    let mut r: Vec<char> = Vec::new();
    let mut stopped = false;
    let mut i: usize = start;
    assert(u.take(0).len() == 0);
    while i < cs.len()
        invariant
            start <= i <= cs@.len(),
            u == cs@.skip(start as int),
            r@ == leading_digit_chars(u.take(i - start)),
            stopped == (r@.len() < i - start),
        decreases cs@.len() - i,
    {
        let ghost k = (i - start) as int;
        assert(u.take(k + 1).drop_last() =~= u.take(k));
        assert(u.take(k + 1).last() == cs@[i as int]);
        if !stopped {
            let c = cs[i];
            if '0' <= c && c <= '9' {
                r.push(c);
                assert(r@ =~= u.take(k + 1));
            } else {
                stopped = true;
                assert(r@ =~= u.take(k));
            }
        }
        i += 1;
    }
    assert(u.take(u.len() as int) =~= u);
    r
}

/// Tells whether all of `cs` are decimal digit characters.
fn all_digits(cs: &Vec<char>) -> (r: bool)
    ensures
        r == all_digit_chars(cs@),
{
    let mut i: usize = 0;
    while i < cs.len()
        invariant
            i <= cs@.len(),
            forall|j: int| 0 <= j < i ==> is_digit_char(#[trigger] cs@[j]),
        decreases cs@.len() - i,
    {
        if !('0' <= cs[i] && cs[i] <= '9') {
            assert(!is_digit_char(cs@[i as int]));
            return false;
        }
        i += 1;
    }
    true
}

/// The values of decimal digit characters, or a single zero for none.
fn values_or_zero(cs: &Vec<char>) -> (r: Vec<usize>)
    requires
        all_digit_chars(cs@),
    ensures
        r@ == or_zero(digit_values(cs@)),
        digits_below(r@, DECIMAL_RADIX as nat),
{
    let mut r: Vec<usize> = Vec::new();
    let mut i: usize = 0;
    while i < cs.len()
        invariant
            i <= cs@.len(),
            all_digit_chars(cs@),
            r@ == digit_values(cs@.take(i as int)),
            digits_below(r@, DECIMAL_RADIX as nat),
        decreases cs@.len() - i,
    {
        let c = cs[i];
        assert(is_digit_char(cs@[i as int]));
        let v = (c as u32 - '0' as u32) as usize;
        r.push(v);
        i += 1;
        assert(r@ =~= digit_values(cs@.take(i as int)));
    }
    assert(cs@.take(cs@.len() as int) =~= cs@);
    if r.len() == 0 {
        r.push(0);
        assert(r@ =~= seq![0usize]);
    }
    r
}

impl Number {
    /// The number is well formed: a base of at least two, and non-empty digit sequences
    /// below it.
    pub open spec fn wf(&self) -> bool {
        model_wf(self@)
    }

    /// The number that text `text` reads as, given what the decimal reader made of it:
    /// the sign (`None` for a value without one), and the rendered integral and fractional
    /// magnitudes.
    pub fn from_reading(text: &str, negative: Option<bool>, whole: &Vec<char>, part: &Vec<char>) -> (r:
        Result<Number, ParseNumberError>)
        ensures
            match r {
                Ok(n) => n.wf() && reading_model(text@, negative, whole@, part@) == Result::<
                    NumberModel,
                    ParseNumberError,
                >::Ok(n@),
                Err(e) => reading_model(text@, negative, whole@, part@) == Result::<
                    NumberModel,
                    ParseNumberError,
                >::Err(e),
            },
    {
        let cs = text_chars(text);
        let start: usize = if cs.len() > 0 && (cs[0] == '-' || cs[0] == '+') {
            1
        } else {
            0
        };
        assert(cs@.skip(start as int) == unsigned(text@));
        let written = leading_digits_from(&cs, start);
        let plain = written.len() == cs.len() - start || cs[start + written.len()] == '.';
        assert(plain == is_plain(text@));
        let ic = if plain {
            written
        } else {
            chars_before(whole, '.')
        };
        let fc = chars_after_point(part);
        let sign = match negative {
            Some(neg) => neg,
            None => {
                return Err(ParseNumberError::NotFinite);
            },
        };
        if !all_digits(&ic) || !all_digits(&fc) {
            return Err(ParseNumberError::NotFinite);
        }
        let integral = values_or_zero(&ic);
        let fractional = values_or_zero(&fc);
        let zero = is_zero(&integral, DECIMAL_RADIX) && is_zero(&fractional, DECIMAL_RADIX);
        proof {
            lemma_value_zero(integral@, DECIMAL_RADIX as nat);
            lemma_value_zero(fractional@, DECIMAL_RADIX as nat);
        }
        Ok(Number { base: Base::decimal(), negative: sign && !zero, integral, fractional })
    }

    /// Reads a decimal numeral, optionally signed, with an optional point and fractional
    /// part (or a ratio such as `1/7`), as a number in base ten.
    pub fn parse(s: &str) -> (r: Result<Number, ParseNumberError>)
        ensures
            match r {
                Ok(n) => n.wf() && parse_model(s@) == Result::<NumberModel, ParseNumberError>::Ok(
                    n@,
                ),
                Err(e) => parse_model(s@) == Result::<NumberModel, ParseNumberError>::Err(e),
            },
    {
        let cs = text_chars(s);
        if has_zero_denominator(&cs) {
            return Err(ParseNumberError::Malformed);
        }
        match read_decimal(s, WORKING_PRECISION) {
            Ok((negative, whole, part)) => Number::from_reading(s, negative, &whole, &part),
            Err(_) => Err(ParseNumberError::Malformed),
        }
    }

    /// This number written in base `target`, or `None` where it is in that base already.
    /// Integral digits are exact; fractional digits are truncated to at most
    /// `MAX_FRACTION_DIGITS`, ending early where the expansion is seen to repeat.
    pub fn to_base(&self, target: Base) -> (r: Option<Number>)
        requires
            self.wf(),
            target.0 >= 2,
        ensures
            r.is_none() <==> self@.base == target.0,
            r matches Some(m) ==> m.wf() && is_conversion(m@, self@, target.0 as nat),
    {
        if self.base.0 == target.0 {
            return None;
        }
        let integral = integral_digits(&self.integral, self.base.0, target.0);
        let fractional = fractional_digits(&self.fractional, self.base.0, target.0);
        proof {
            lemma_digits_in(value_of(self.integral@, self.base.0 as nat), target.0 as nat);
        }
        Some(Number { base: target, negative: self.negative, integral, fractional })
    }

    /// The digits as plain decimal numerals run together, a point between the two parts,
    /// and a `-` in front of a negative number. Unambiguous in bases up to ten.
    pub fn to_dec_string(&self) -> (r: String)
        ensures
            r@ == sign_text(self@.negative) + concat_numerals(self@.integral) + seq!['.']
                + concat_numerals(self@.fractional),
    {
        let mut out = String::new();
        let mut head: Vec<char> = Vec::new();
        if self.negative {
            head.push('-');
        }
        push_chars(&mut out, &head);
        let integral = concat_digits(&self.integral);
        let fractional = concat_digits(&self.fractional);
        let mut rest: Vec<char> = Vec::new();
        rest.push('.');
        proof {
            assert(head@ =~= sign_text(self@.negative));
        }
        out.append(integral.as_str());
        push_chars(&mut out, &rest);
        out.append(fractional.as_str());
        assert(out@ =~= sign_text(self@.negative) + concat_numerals(self@.integral) + seq!['.']
            + concat_numerals(self@.fractional));
        out
    }

    /// The digits as decimal numerals separated by `;` in each part, a point between the
    /// two parts, and a `-` in front of a negative number. Unambiguous in every base.
    pub fn to_display_string(&self) -> (r: String)
        ensures
            r@ == sign_text(self@.negative) + separated_numerals(self@.integral) + seq!['.']
                + separated_numerals(self@.fractional),
    {
        let mut out = String::new();
        let mut head: Vec<char> = Vec::new();
        if self.negative {
            head.push('-');
        }
        push_chars(&mut out, &head);
        let integral = separated_digits(&self.integral);
        let fractional = separated_digits(&self.fractional);
        let mut rest: Vec<char> = Vec::new();
        rest.push('.');
        proof {
            assert(head@ =~= sign_text(self@.negative));
        }
        out.append(integral.as_str());
        push_chars(&mut out, &rest);
        out.append(fractional.as_str());
        assert(out@ =~= sign_text(self@.negative) + separated_numerals(self@.integral) + seq!['.']
            + separated_numerals(self@.fractional));
        out
    }

    /// The base the digits are written in.
    pub fn base(&self) -> (r: Base)
        ensures
            r.0 == self@.base,
    {
        self.base
    }

    /// Whether the number is negative.
    pub fn is_negative(&self) -> (r: bool)
        ensures
            r == self@.negative,
    {
        self.negative
    }

    /// The integral digits, most significant first.
    pub fn int_digits(&self) -> (r: &Vec<usize>)
        ensures
            r@ == self@.integral,
    {
        &self.integral
    }

    /// The fractional digits, the one nearest the point first.
    pub fn dec_digits(&self) -> (r: &Vec<usize>)
        ensures
            r@ == self@.fractional,
    {
        &self.fractional
    }
}

/// Converting a well-formed number keeps the value of its integral part: the new
/// integral digits are worth, in the new base, what the old ones were worth in the old.
pub proof fn law_integral_value_kept(m: NumberModel, src: NumberModel, t: nat)
    requires
        model_wf(src),
        2 <= t <= usize::MAX,
        is_conversion(m, src, t),
    ensures
        value_of(m.integral, m.base) == value_of(src.integral, src.base),
{
    lemma_digits_in(value_of(src.integral, src.base), t);
}

/// A converted number is well formed in its new base, so that its digits can be shown
/// in either rendering and converted again.
pub proof fn law_conversion_well_formed(m: NumberModel, src: NumberModel, t: nat)
    requires
        model_wf(src),
        2 <= t <= usize::MAX,
        is_conversion(m, src, t),
    ensures
        model_wf(m),
{
    lemma_digits_in(value_of(src.integral, src.base), t);
    assert forall|i: int| 0 <= i < m.fractional.len() implies (#[trigger] m.fractional[i]) < t by {
        lemma_frac_digit_below(src.fractional, src.base, t, i as nat);
    }
}

impl Default for Number {
    /// Zero in base ten.
    fn default() -> (r: Number)
        ensures
            r.wf(),
            r@.base == DECIMAL_RADIX,
            !r@.negative,
            r@.integral == seq![0usize],
            r@.fractional == seq![0usize],
    {
        let mut integral: Vec<usize> = Vec::new();
        integral.push(0);
        let mut fractional: Vec<usize> = Vec::new();
        fractional.push(0);
        let r = Number { base: Base::decimal(), negative: false, integral, fractional };
        assert(r@.integral =~= seq![0usize]);
        assert(r@.fractional =~= seq![0usize]);
        r
    }
}

impl core::str::FromStr for Number {
    type Err = ParseNumberError;

    fn from_str(s: &str) -> (r: Result<Number, ParseNumberError>)
        ensures
            match r {
                Ok(n) => n.wf() && parse_model(s@) == Result::<NumberModel, ParseNumberError>::Ok(
                    n@,
                ),
                Err(e) => parse_model(s@) == Result::<NumberModel, ParseNumberError>::Err(e),
            },
    {
        Number::parse(s)
    }
}

} // verus!
