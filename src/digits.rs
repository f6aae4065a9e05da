use vstd::prelude::*;

verus! {

/// `b` raised to the power `e`.
pub open spec fn power(b: nat, e: nat) -> nat
    decreases e,
{
    if e == 0 {
        1
    } else {
        b * power(b, (e - 1) as nat)
    }
}

/// The value of a digit sequence, most significant digit first, in radix `b`.
pub open spec fn value_of(ds: Seq<usize>, b: nat) -> nat
    decreases ds.len(),
{
    if ds.len() == 0 {
        0
    } else {
        value_of(ds.drop_last(), b) * b + ds.last() as nat
    }
}

/// Every digit of `ds` is a valid digit of radix `b`.
pub open spec fn digits_below(ds: Seq<usize>, b: nat) -> bool {
    forall|i: int| 0 <= i < ds.len() ==> (#[trigger] ds[i]) < b
}

pub proof fn lemma_power_positive(b: nat, e: nat)
    requires
        b >= 1,
    ensures
        power(b, e) >= 1,
    decreases e,
{
    if e > 0 {
        lemma_power_positive(b, (e - 1) as nat);
        assert(b * power(b, (e - 1) as nat) >= 1) by (nonlinear_arith)
            requires
                b >= 1,
                power(b, (e - 1) as nat) >= 1,
        ;
    }
}

/// A sequence of valid digits stays below the radix raised to its length.
pub proof fn lemma_value_bound(ds: Seq<usize>, b: nat)
    requires
        digits_below(ds, b),
    ensures
        value_of(ds, b) < power(b, ds.len()),
    decreases ds.len(),
{
    if ds.len() > 0 {
        let init = ds.drop_last();
        assert(digits_below(init, b));
        lemma_value_bound(init, b);
        let v = value_of(init, b);
        let p = power(b, init.len());
        let d = ds.last() as nat;
        assert(d < b);
        assert(v * b + d < b * p) by (nonlinear_arith)
            requires
                v < p,
                d < b,
        ;
    }
}

/// Splitting a digit sequence at `j` splits its value.
pub proof fn lemma_value_split(ds: Seq<usize>, j: int, b: nat)
    requires
        0 <= j <= ds.len(),
    ensures
        value_of(ds, b) == value_of(ds.take(j), b) * power(b, (ds.len() - j) as nat) + value_of(
            ds.skip(j),
            b,
        ),
    decreases ds.len(),
{
    if j == ds.len() {
        assert(ds.take(j) =~= ds);
        assert(ds.skip(j).len() == 0);
        assert(value_of(ds.skip(j), b) == 0);
        assert(power(b, 0) == 1);
        assert(value_of(ds, b) * 1 == value_of(ds, b));
    } else {
        let init = ds.drop_last();
        lemma_value_split(init, j, b);
        assert(init.take(j) =~= ds.take(j));
        assert(ds.skip(j).drop_last() =~= init.skip(j));
        assert(ds.skip(j).last() == ds.last());
        let a = value_of(ds.take(j), b);
        let p = power(b, (init.len() - j) as nat);
        let r = value_of(init.skip(j), b);
        let d = ds.last() as nat;
        assert(power(b, (ds.len() - j) as nat) == b * p);
        assert(value_of(ds, b) == value_of(init, b) * b + d);
        assert(value_of(ds.skip(j), b) == value_of(ds.skip(j).drop_last(), b) * b + d);
        assert(value_of(ds.skip(j), b) == r * b + d);
        assert(value_of(init, b) == a * p + r);
        assert((a * p + r) * b + d == a * (b * p) + (r * b + d)) by (nonlinear_arith);
    }
}

/// The value of a non-empty sequence is its leading digit in place plus the rest.
pub proof fn lemma_value_front(ds: Seq<usize>, b: nat)
    requires
        ds.len() > 0,
    ensures
        value_of(ds, b) == ds[0] as nat * power(b, (ds.len() - 1) as nat) + value_of(ds.skip(1), b),
{
    lemma_value_split(ds, 1, b);
    let t = ds.take(1);
    assert(t.drop_last().len() == 0);
    assert(value_of(t.drop_last(), b) == 0);
    assert(value_of(t, b) == value_of(t.drop_last(), b) * b + t.last() as nat);
    assert(t.last() == ds[0]);
    let z = value_of(t.drop_last(), b);
    assert(z * b + ds[0] as nat == ds[0] as nat) by (nonlinear_arith)
        requires
            z == 0,
    ;
}

/// The leading `j` digits are the value divided by the weight of the rest.
pub proof fn lemma_value_prefix(ds: Seq<usize>, j: int, b: nat)
    requires
        0 <= j <= ds.len(),
        b >= 2,
        digits_below(ds, b),
    ensures
        value_of(ds.take(j), b) == value_of(ds, b) / power(b, (ds.len() - j) as nat),
{
    lemma_value_split(ds, j, b);
    let rest = ds.skip(j);
    assert(digits_below(rest, b));
    lemma_value_bound(rest, b);
    assert(rest.len() == ds.len() - j);
    let p = power(b, (ds.len() - j) as nat);
    lemma_power_positive(b, (ds.len() - j) as nat);
    vstd::arithmetic::div_mod::lemma_fundamental_div_mod_converse(
        value_of(ds, b) as int,
        p as int,
        value_of(ds.take(j), b) as int,
        value_of(rest, b) as int,
    );
}

/// Two digit sequences of one length with one value are the same sequence.
pub proof fn lemma_value_injective(x: Seq<usize>, y: Seq<usize>, b: nat)
    requires
        x.len() == y.len(),
        b >= 2,
        digits_below(x, b),
        digits_below(y, b),
        value_of(x, b) == value_of(y, b),
    ensures
        x == y,
    decreases x.len(),
{
    if x.len() > 0 {
        let xi = x.drop_last();
        let yi = y.drop_last();
        assert(digits_below(xi, b));
        assert(digits_below(yi, b));
        let dx = x.last() as nat;
        let dy = y.last() as nat;
        assert(dx < b && dy < b);
        vstd::arithmetic::div_mod::lemma_fundamental_div_mod_converse(
            value_of(x, b) as int,
            b as int,
            value_of(xi, b) as int,
            dx as int,
        );
        vstd::arithmetic::div_mod::lemma_fundamental_div_mod_converse(
            value_of(y, b) as int,
            b as int,
            value_of(yi, b) as int,
            dy as int,
        );
        lemma_value_injective(xi, yi, b);
        assert(x =~= xi.push(x.last()));
        assert(y =~= yi.push(y.last()));
    } else {
        assert(x =~= y);
    }
}

/// A sequence is worth zero exactly when all its digits are zero.
pub proof fn lemma_value_zero(ds: Seq<usize>, b: nat)
    requires
        b >= 1,
    ensures
        value_of(ds, b) == 0 <==> (forall|i: int| 0 <= i < ds.len() ==> ds[i] == 0),
    decreases ds.len(),
{
    if ds.len() > 0 {
        let init = ds.drop_last();
        lemma_value_zero(init, b);
        let v = value_of(init, b);
        assert(v * b == 0 <==> v == 0) by (nonlinear_arith)
            requires
                b >= 1,
        ;
        if value_of(ds, b) == 0 {
            assert forall|i: int| 0 <= i < ds.len() implies ds[i] == 0 by {
                if i < ds.len() - 1 {
                    assert(init[i] == ds[i]);
                }
            }
        }
        if forall|i: int| 0 <= i < ds.len() ==> ds[i] == 0 {
            assert forall|i: int| 0 <= i < init.len() implies init[i] == 0 by {
                assert(init[i] == ds[i]);
            }
        }
    }
}

/// Tells whether a digit sequence is worth zero.
pub fn is_zero(ds: &Vec<usize>, radix: usize) -> (r: bool)
    requires
        radix >= 1,
    ensures
        r == (value_of(ds@, radix as nat) == 0),
{
    proof {
        lemma_value_zero(ds@, radix as nat);
    }
    let mut i: usize = 0;
    while i < ds.len()
        invariant
            i <= ds@.len(),
            radix >= 1,
            forall|j: int| 0 <= j < i ==> ds@[j] == 0,
        decreases ds@.len() - i,
    {
        if ds[i] != 0 {
            assert(ds@[i as int] != 0);
            proof {
                lemma_value_zero(ds@, radix as nat);
            }
            return false;
        }
        i += 1;
    }
    true
}

/// A product of two machine words fits in 128 bits.
proof fn lemma_wide_product(a: usize, b: usize)
    ensures
        a * b <= u128::MAX,
{
    assert(usize::MAX <= u64::MAX);
    let m = u64::MAX as int;
    assert(a * b <= m * m) by (nonlinear_arith)
        requires
            0 <= a <= m,
            0 <= b <= m,
    ;
    assert(m * m <= u128::MAX);
}

/// Long division of a digit sequence by a small divisor: quotient digits of the same
/// length, and the remainder.
pub fn divide_digits(ds: &Vec<usize>, radix: usize, divisor: usize) -> (r: (Vec<usize>, usize))
    requires
        radix >= 2,
        divisor >= 1,
        digits_below(ds@, radix as nat),
    ensures
        r.0@.len() == ds@.len(),
        digits_below(r.0@, radix as nat),
        r.1 < divisor,
        value_of(ds@, radix as nat) == value_of(r.0@, radix as nat) * divisor as nat + r.1 as nat,
{
    let mut quotient: Vec<usize> = Vec::new();
    let mut rem: usize = 0;
    assert(ds@.take(0).len() == 0);
    assert(value_of(ds@.take(0), radix as nat) == 0);
    assert(value_of(quotient@, radix as nat) == 0);
    let mut i: usize = 0;
    while i < ds.len()
        invariant
            i <= ds@.len(),
            quotient@.len() == i,
            radix >= 2,
            divisor >= 1,
                digits_below(ds@, radix as nat),
            digits_below(quotient@, radix as nat),
            rem < divisor,
            value_of(ds@.take(i as int), radix as nat) == value_of(quotient@, radix as nat)
                * divisor as nat + rem as nat,
        decreases ds@.len() - i,
    {
        let d = ds[i];
        assert(d < radix);
        assert(rem * radix + d < radix * divisor) by (nonlinear_arith)
            requires
                rem < divisor,
                d < radix,
        ;
        proof {
            lemma_wide_product(radix, divisor);
        }
        let cur: u128 = rem as u128 * radix as u128 + d as u128;
        let q128: u128 = cur / divisor as u128;
        let ghost q = q128;
        assert(q < radix) by (nonlinear_arith)
            requires
                cur < radix * divisor,
                q == cur / divisor as u128,
                divisor >= 1,
        ;
        let q = q128 as usize;
        let new_rem = (cur % divisor as u128) as usize;
        let ghost old_q = quotient@;
        let ghost vq = value_of(old_q, radix as nat);
        quotient.push(q);
        proof {
            let pre = ds@.take(i as int);
            assert(ds@.take(i as int + 1).drop_last() =~= pre);
            assert(quotient@.drop_last() =~= old_q);
            assert(value_of(ds@.take(i as int + 1), radix as nat) == value_of(pre, radix as nat)
                * radix as nat + d as nat);
            assert(value_of(quotient@, radix as nat) == vq * radix as nat + q as nat);
            assert((vq * divisor + rem) * radix + d == (vq * radix + q) * divisor + new_rem)
                by (nonlinear_arith)
                requires
                    cur == rem * radix + d,
                    q == cur / divisor as u128,
                    new_rem == cur % divisor as u128,
                    divisor >= 1,
            ;
        }
        rem = new_rem;
        i += 1;
    }
    assert(ds@.take(ds@.len() as int) =~= ds@);
    (quotient, rem)
}

/// Multiplies the fraction that a digit sequence stands for (a point before its first
/// digit) by a small factor: the digits of the new fraction, and the whole part that
/// carries out past the point.
pub fn multiply_digits(ds: &Vec<usize>, radix: usize, factor: usize) -> (r: (Vec<usize>, usize))
    requires
        radix >= 2,
        factor >= 1,
        digits_below(ds@, radix as nat),
    ensures
        r.0@.len() == ds@.len(),
        digits_below(r.0@, radix as nat),
        r.1 < factor,
        r.1 as nat * power(radix as nat, ds@.len()) + value_of(r.0@, radix as nat) == factor as nat
            * value_of(ds@, radix as nat),
{
    let n = ds.len();
    let mut out: Vec<usize> = ds.clone();
    let mut carry: usize = 0;
    let mut i: usize = n;
    assert(out@.skip(n as int).len() == 0 && ds@.skip(n as int).len() == 0);
    assert(value_of(out@.skip(n as int), radix as nat) == 0);
    assert(value_of(ds@.skip(n as int), radix as nat) == 0);
    while i > 0
        invariant
            n == ds@.len(),
            i <= n,
            out@.len() == n,
            radix >= 2,
            factor >= 1,
                digits_below(ds@, radix as nat),
            forall|j: int| i <= j < n ==> #[trigger] out@[j] < radix,
            carry < factor,
            carry as nat * power(radix as nat, (n - i) as nat) + value_of(out@.skip(i as int), radix as nat)
                == factor as nat * value_of(ds@.skip(i as int), radix as nat),
        decreases i,
    {
        let ghost old_out = out@;
        let ghost old_i = i;
        i -= 1;
        let d = ds[i];
        assert(d < radix);
        assert(d * factor + carry < radix * factor) by (nonlinear_arith)
            requires
                d < radix,
                carry < factor,
        ;
        proof {
            lemma_wide_product(radix, factor);
        }
        let t: u128 = d as u128 * factor as u128 + carry as u128;
        let digit = (t % radix as u128) as usize;
        let next128: u128 = t / radix as u128;
        assert(next128 < factor) by (nonlinear_arith)
            requires
                t < radix * factor,
                next128 == t / radix as u128,
                radix >= 2,
        ;
        let next = next128 as usize;
        out.set(i, digit);
        proof {
            let b = radix as nat;
            let p = power(b, (n - i - 1) as nat);
            assert(out@.skip(i as int + 1) =~= old_out.skip(old_i as int));
            lemma_value_front(out@.skip(i as int), b);
            lemma_value_front(ds@.skip(i as int), b);
            assert(out@.skip(i as int).skip(1) =~= out@.skip(i as int + 1));
            assert(ds@.skip(i as int).skip(1) =~= ds@.skip(i as int + 1));
            assert(power(b, (n - i) as nat) == b * p);
            let ro = value_of(old_out.skip(old_i as int), b);
            let rd = value_of(ds@.skip(old_i as int), b);
            assert(carry * p + ro == factor * rd);
            assert(next * (b * p) + (digit * p + ro) == factor * (d * p + rd)) by (nonlinear_arith)
                requires
                    carry * p + ro == factor * rd,
                    t == d * factor + carry,
                    digit == t % radix as u128,
                    next == t / radix as u128,
                    b == radix,
                    b >= 2,
            ;
        }
        carry = next;
    }
    assert(out@.skip(0) =~= out@);
    assert(ds@.skip(0) =~= ds@);
    (out, carry)
}

} // verus!
