use vstd::prelude::*;

use crate::digits::{
    digits_below, divide_digits, is_zero, lemma_power_positive, lemma_value_bound,
    lemma_value_injective, lemma_value_prefix, multiply_digits, power, value_of,
};

verus! {

/// The most fractional digits a conversion produces.
pub const MAX_FRACTION_DIGITS: usize = 8;

/// How many leading digits of a fractional remainder are compared when looking for a
/// repeating expansion.
pub const PRECISION: usize = 128;

/// The digits of `v` in radix `b`, least significant last; none for zero.
pub open spec fn digits_tail(v: nat, b: nat) -> Seq<usize>
    decreases v,
    via digits_tail_decreases
{
    if b < 2 || v == 0 {
        seq![]
    } else {
        digits_tail(v / b, b).push((v % b) as usize)
    }
}

#[via_fn]
proof fn digits_tail_decreases(v: nat, b: nat) {
    if !(b < 2 || v == 0) {
        assert(v / b < v) by (nonlinear_arith)
            requires
                b >= 2,
                v > 0,
        ;
    }
}

/// The digits of `v` in radix `b`, most significant first, with a single zero for zero.
pub open spec fn digits_in(v: nat, b: nat) -> Seq<usize> {
    if v == 0 {
        seq![0usize]
    } else {
        digits_tail(v, b)
    }
}

/// The digits of a whole number are valid digits and are worth that number.
pub proof fn lemma_digits_in(v: nat, b: nat)
    requires
        2 <= b <= usize::MAX,
    ensures
        digits_below(digits_in(v, b), b),
        value_of(digits_in(v, b), b) == v,
        digits_in(v, b).len() >= 1,
{
    lemma_digits_tail(v, b);
    if v == 0 {
        let z = seq![0usize];
        assert(z.drop_last().len() == 0);
        assert(value_of(z.drop_last(), b) == 0);
        assert(value_of(z, b) == 0 * b + 0);
    }
}

proof fn lemma_digits_tail(v: nat, b: nat)
    requires
        2 <= b <= usize::MAX,
    ensures
        digits_below(digits_tail(v, b), b),
        value_of(digits_tail(v, b), b) == v,
        v > 0 ==> digits_tail(v, b).len() >= 1,
    decreases v,
{
    if v > 0 {
        assert(v / b < v) by (nonlinear_arith)
            requires
                b >= 2,
                v > 0,
        ;
        lemma_digits_tail(v / b, b);
        let s = digits_tail(v, b);
        assert(s.drop_last() =~= digits_tail(v / b, b));
        assert(v % b < b);
        assert(s.last() as nat == v % b);
        vstd::arithmetic::div_mod::lemma_fundamental_div_mod(v as int, b as int);
        assert(v == b * (v / b) + v % b);
        assert(b * (v / b) == (v / b) * b) by (nonlinear_arith);
        assert forall|i: int| 0 <= i < s.len() implies (#[trigger] s[i]) < b by {
            if i < s.len() - 1 {
                assert(s[i] == digits_tail(v / b, b)[i]);
            }
        }
    }
}

/// The integral digits in radix `target` of the whole number that `ds` spells in radix
/// `radix`: repeated division, least significant digit first.
pub fn integral_digits(ds: &Vec<usize>, radix: usize, target: usize) -> (r: Vec<usize>)
    requires
        radix >= 2,
        target >= 2,
        digits_below(ds@, radix as nat),
    ensures
        r@ == digits_in(value_of(ds@, radix as nat), target as nat),
        digits_below(r@, target as nat),
        value_of(r@, target as nat) == value_of(ds@, radix as nat),
{
    let ghost v0 = value_of(ds@, radix as nat);
    let ghost t = target as nat;
    let mut cur: Vec<usize> = ds.clone();
    let mut out: Vec<usize> = Vec::new();
    assert(digits_tail(v0, t) =~= digits_tail(v0, t) + out@);
    while !is_zero(&cur, radix)
        invariant
            radix >= 2,
            target >= 2,
            t == target as nat,
                digits_below(cur@, radix as nat),
            digits_tail(v0, t) == digits_tail(value_of(cur@, radix as nat), t) + out@,
        decreases value_of(cur@, radix as nat),
    {
        let (q, rem) = divide_digits(&cur, radix, target);
        let ghost v = value_of(cur@, radix as nat);
        proof {
            vstd::arithmetic::div_mod::lemma_fundamental_div_mod_converse(
                v as int,
                t as int,
                value_of(q@, radix as nat) as int,
                rem as int,
            );
            assert(v / t < v) by (nonlinear_arith)
                requires
                    t >= 2,
                    v > 0,
            ;
        }
        let ghost old_out = out@;
        out.insert(0, rem);
        proof {
            assert(digits_tail(v, t) == digits_tail(v / t, t).push((v % t) as usize));
            assert(digits_tail(v, t) + old_out =~= digits_tail(v / t, t) + out@);
        }
        cur = q;
    }
    proof {
        assert(digits_tail(0, t).len() == 0);
        assert(digits_tail(v0, t) =~= out@);
        lemma_digits_tail(v0, t);
        lemma_digits_in(v0, t);
    }
    if out.len() == 0 {
        out.push(0);
        proof {
            assert(out@ =~= seq![0usize]);
        }
    }
    out
}

/// The remainder, as a numerator over `radix` to the length of `ds`, after `i` digits
/// of the expansion in radix `t` of the fraction that `ds` spells.
pub open spec fn frac_rem(ds: Seq<usize>, radix: nat, t: nat, i: nat) -> nat
    decreases i,
{
    if i == 0 {
        value_of(ds, radix)
    } else {
        (frac_rem(ds, radix, t, (i - 1) as nat) * t) % power(radix, ds.len())
    }
}

/// Digit `i` of the expansion in radix `t` of the fraction that `ds` spells.
pub open spec fn frac_digit(ds: Seq<usize>, radix: nat, t: nat, i: nat) -> nat {
    (frac_rem(ds, radix, t, i) * t) / power(radix, ds.len())
}

/// A remainder cut to its leading `PRECISION` digits.
pub open spec fn rem_key(ds: Seq<usize>, radix: nat, r: nat) -> nat {
    let k = ds.len();
    let p = if k < PRECISION {
        k
    } else {
        PRECISION as nat
    };
    r / power(radix, (k - p) as nat)
}

/// The expansion stops before digit `i`: that digit is zero and the remainder it leaves
/// agrees, at the working precision, with one left by an earlier digit.
pub open spec fn cycle_at(ds: Seq<usize>, radix: nat, t: nat, i: nat) -> bool {
    frac_digit(ds, radix, t, i) == 0 && exists|j: nat|
        1 <= j <= i && rem_key(ds, radix, frac_rem(ds, radix, t, i + 1)) == rem_key(
            ds,
            radix,
            #[trigger] frac_rem(ds, radix, t, j),
        )
}

/// Every digit of a fractional expansion is a valid digit of the target radix.
pub proof fn lemma_frac_digit_below(ds: Seq<usize>, radix: nat, t: nat, i: nat)
    requires
        radix >= 2,
        t >= 1,
        digits_below(ds, radix),
    ensures
        frac_digit(ds, radix, t, i) < t,
{
    let s = power(radix, ds.len());
    lemma_power_positive(radix, ds.len());
    let r = frac_rem(ds, radix, t, i);
    if i == 0 {
        lemma_value_bound(ds, radix);
    } else {
        vstd::arithmetic::div_mod::lemma_mod_bound(
            (frac_rem(ds, radix, t, (i - 1) as nat) * t) as int,
            s as int,
        );
    }
    assert(r < s);
    assert((r * t) / s < t) by (nonlinear_arith)
        requires
            r < s,
            s >= 1,
            t >= 1,
    ;
}

/// Tells whether two digit sequences are equal.
fn same_digits(a: &Vec<usize>, b: &Vec<usize>) -> (r: bool)
    ensures
        r == (a@ == b@),
{
    if a.len() != b.len() {
        return false;
    }
    let mut i: usize = 0;
    while i < a.len()
        invariant
            a@.len() == b@.len(),
            i <= a@.len(),
            forall|j: int| 0 <= j < i ==> a@[j] == b@[j],
        decreases a@.len() - i,
    {
        if a[i] != b[i] {
            return false;
        }
        i += 1;
    }
    assert(a@ =~= b@);
    true
}

/// Tells whether `key` is one of `seen`.
fn seen_before(seen: &Vec<Vec<usize>>, key: &Vec<usize>) -> (r: bool)
    ensures
        r == exists|j: int| 0 <= j < seen@.len() && (#[trigger] seen@[j])@ == key@,
{
    let mut i: usize = 0;
    while i < seen.len()
        invariant
            i <= seen@.len(),
            forall|j: int| 0 <= j < i ==> (#[trigger] seen@[j])@ != key@,
        decreases seen@.len() - i,
    {
        if same_digits(&seen[i], key) {
            return true;
        }
        i += 1;
    }
    false
}

/// The first `n` digits of `ds`.
fn leading(ds: &Vec<usize>, n: usize) -> (r: Vec<usize>)
    requires
        n <= ds@.len(),
    ensures
        r@ == ds@.take(n as int),
{
    let mut r: Vec<usize> = Vec::new();
    let mut i: usize = 0;
    while i < n
        invariant
            n <= ds@.len(),
            i <= n,
            r@ == ds@.take(i as int),
        decreases n - i,
    {
        r.push(ds[i]);
        i += 1;
        assert(r@ =~= ds@.take(i as int));
    }
    r
}

/// The fractional digits in radix `target` of the fraction that `ds` spells in radix
/// `radix`: repeated multiplication, at most `MAX_FRACTION_DIGITS` digits, stopping
/// early where the expansion is seen to repeat. The result is truncated, not rounded.
pub fn fractional_digits(ds: &Vec<usize>, radix: usize, target: usize) -> (r: Vec<usize>)
    requires
        radix >= 2,
        target >= 2,
        digits_below(ds@, radix as nat),
    ensures
        1 <= r@.len() <= MAX_FRACTION_DIGITS,
        digits_below(r@, target as nat),
        forall|i: int|
            0 <= i < r@.len() ==> r@[i] as nat == frac_digit(ds@, radix as nat, target as nat, i as nat),
        forall|i: nat| i < r@.len() ==> !#[trigger] cycle_at(ds@, radix as nat, target as nat, i),
        r@.len() < MAX_FRACTION_DIGITS ==> cycle_at(ds@, radix as nat, target as nat, r@.len() as nat),
{
    let ghost b = radix as nat;
    let ghost t = target as nat;
    let ghost k = ds@.len();
    let ghost s = power(b, k);
    let p: usize = if ds.len() < PRECISION {
        ds.len()
    } else {
        PRECISION
    };
    let mut cur: Vec<usize> = ds.clone();
    let mut out: Vec<usize> = Vec::new();
    let mut seen: Vec<Vec<usize>> = Vec::new();
    let mut stopped = false;
    let mut i: usize = 0;
    proof {
        lemma_power_positive(b, k);
    }
    while i < MAX_FRACTION_DIGITS && !stopped
        invariant
            b == radix as nat,
            t == target as nat,
            k == ds@.len(),
            s == power(b, k),
            s >= 1,
            radix >= 2,
            target >= 2,
                digits_below(ds@, b),
            p as nat == (if k < PRECISION { k } else { PRECISION as nat }),
            i <= MAX_FRACTION_DIGITS,
            out@.len() == i,
            seen@.len() == i,
            cur@.len() == k,
            digits_below(cur@, b),
            digits_below(out@, t),
            value_of(cur@, b) == frac_rem(ds@, b, t, i as nat),
            forall|j: int| 0 <= j < i ==> out@[j] as nat == frac_digit(ds@, b, t, j as nat),
            forall|j: nat| j < i ==> !#[trigger] cycle_at(ds@, b, t, j),
            forall|j: int|
                0 <= j < i ==> (#[trigger] seen@[j])@.len() == p && digits_below(seen@[j]@, b)
                    && value_of(seen@[j]@, b) == rem_key(ds@, b, frac_rem(ds@, b, t, (j + 1) as nat)),
            stopped ==> i >= 1 && cycle_at(ds@, b, t, i as nat),
        decreases MAX_FRACTION_DIGITS - i, if stopped { 0int } else { 1int },
    {
        let (next, digit) = multiply_digits(&cur, radix, target);
        let key = leading(&next, p);
        let ghost rem = value_of(cur@, b);
        proof {
            lemma_value_bound(next@, b);
            assert(rem * t == t * rem) by (nonlinear_arith);
            vstd::arithmetic::div_mod::lemma_fundamental_div_mod_converse(
                (rem * t) as int,
                s as int,
                digit as int,
                value_of(next@, b) as int,
            );
            assert(value_of(next@, b) == frac_rem(ds@, b, t, (i + 1) as nat));
            assert(digit as nat == frac_digit(ds@, b, t, i as nat));
            lemma_value_prefix(next@, p as int, b);
            assert(value_of(key@, b) == rem_key(ds@, b, frac_rem(ds@, b, t, (i + 1) as nat)));
            assert(digits_below(key@, b));
        }
        let repeated = seen_before(&seen, &key);
        proof {
            let nk = rem_key(ds@, b, frac_rem(ds@, b, t, (i + 1) as nat));
            if repeated {
                let j = choose|j: int| 0 <= j < seen@.len() && (#[trigger] seen@[j])@ == key@;
                assert(rem_key(ds@, b, frac_rem(ds@, b, t, (j + 1) as nat)) == nk);
                let jn = (j + 1) as nat;
                assert(1 <= jn <= i && nk == rem_key(ds@, b, frac_rem(ds@, b, t, jn)));
            } else {
                assert forall|j: nat| 1 <= j <= i implies nk != rem_key(
                    ds@,
                    b,
                    #[trigger] frac_rem(ds@, b, t, j),
                ) by {
                    let jj = j - 1;
                    assert(seen@[jj]@ != key@);
                    if nk == rem_key(ds@, b, frac_rem(ds@, b, t, j)) {
                        lemma_value_injective(seen@[jj]@, key@, b);
                    }
                }
            }
        }
        if digit == 0 && repeated {
            stopped = true;
        } else {
            out.push(digit);
            seen.push(key);
            cur = next;
            i += 1;
            proof {
                assert forall|j: int| 0 <= j < i implies (#[trigger] seen@[j])@.len() == p
                    && digits_below(seen@[j]@, b) && value_of(seen@[j]@, b) == rem_key(
                    ds@,
                    b,
                    frac_rem(ds@, b, t, (j + 1) as nat),
                ) by {}
            }
        }
    }
    out
}

} // verus!
