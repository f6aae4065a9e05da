use vstd::prelude::*;

verus! {

/// The character of a decimal digit.
pub open spec fn digit_char(d: nat) -> char {
    ((d + '0' as nat) as u32) as char
}

/// The decimal numeral of `n`, without leading zeros.
pub open spec fn numeral_text(n: nat) -> Seq<char>
    decreases n,
{
    if n < 10 {
        seq![digit_char(n)]
    } else {
        numeral_text(n / 10).push(digit_char(n % 10))
    }
}

/// The numerals of all digits, one after another.
pub open spec fn concat_numerals(ds: Seq<usize>) -> Seq<char>
    decreases ds.len(),
{
    if ds.len() == 0 {
        seq![]
    } else {
        concat_numerals(ds.drop_last()) + numeral_text(ds.last() as nat)
    }
}

/// Texts joined with `sep` between neighbours.
pub open spec fn join_texts(parts: Seq<Seq<char>>, sep: Seq<char>) -> Seq<char>
    decreases parts.len(),
{
    if parts.len() == 0 {
        seq![]
    } else if parts.len() == 1 {
        parts[0]
    } else {
        join_texts(parts.drop_last(), sep) + sep + parts.last()
    }
}

/// The numerals of all digits, separated by `;`.
pub open spec fn separated_numerals(ds: Seq<usize>) -> Seq<char> {
    join_texts(ds.map_values(|d: usize| numeral_text(d as nat)), seq![';'])
}

/// Relies on `String::push`: appends one character.
#[verifier::external_body]
fn push_char(s: &mut String, c: char)
    ensures
        final(s)@ == old(s)@.push(c),
{
    s.push(c)
}

/// Relies on `itertools::intersperse`, collected into a `String`: the parts in order
/// with `sep` between each two neighbours.
#[verifier::external_body]
fn intersperse_texts(parts: Vec<String>, sep: String) -> (r: String)
    ensures
        r@ == join_texts(parts@.map_values(|p: String| p@), sep@),
{
    itertools::intersperse(parts, sep).collect()
}

/// Appends `cs` to `s`.
pub fn push_chars(s: &mut String, cs: &Vec<char>)
    ensures
        final(s)@ == old(s)@ + cs@,
{
    let mut i: usize = 0;
    while i < cs.len()
        invariant
            i <= cs@.len(),
            s@ == old(s)@ + cs@.take(i as int),
        decreases cs@.len() - i,
    {
        push_char(s, cs[i]);
        i += 1;
        assert(s@ =~= old(s)@ + cs@.take(i as int));
    }
    assert(cs@.take(cs@.len() as int) =~= cs@);
}

/// Appends the decimal numeral of `n` to `s`.
pub fn push_numeral(s: &mut String, n: usize)
    ensures
        final(s)@ == old(s)@ + numeral_text(n as nat),
{
    let mut rev: Vec<char> = Vec::new();
    let mut m: usize = n;
    while m >= 10
        invariant
            numeral_text(n as nat) == numeral_text(m as nat) + rev@.reverse(),
        decreases m,
    {
        let c = ((m % 10) as u8 + 48u8) as char;
        proof {
            assert(numeral_text(m as nat) == numeral_text((m / 10) as nat).push(
                digit_char((m % 10) as nat),
            ));
            assert(c == digit_char((m % 10) as nat));
        }
        let ghost old_rev = rev@;
        rev.push(c);
        assert(rev@.reverse() =~= seq![c] + old_rev.reverse());
        m = m / 10;
    }
    let c = (m as u8 + 48u8) as char;
    assert(c == digit_char(m as nat));
    rev.push(c);
    let mut i: usize = rev.len();
    let ghost total = rev@.reverse();
    assert(total =~= numeral_text(n as nat));
    while i > 0
        invariant
            i <= rev@.len(),
            total == rev@.reverse(),
            s@ == old(s)@ + total.take((rev@.len() - i) as int),
        decreases i,
    {
        i -= 1;
        push_char(s, rev[i]);
        assert(s@ =~= old(s)@ + total.take((rev@.len() - i) as int));
    }
    assert(total.take(rev@.len() as int) =~= total);
}

/// The decimal numeral of `n`.
pub fn numeral(n: usize) -> (r: String)
    ensures
        r@ == numeral_text(n as nat),
{
    let mut s = String::new();
    push_numeral(&mut s, n);
    assert(s@ =~= numeral_text(n as nat));
    s
}

/// The numerals of `ds` one after another.
pub fn concat_digits(ds: &Vec<usize>) -> (r: String)
    ensures
        r@ == concat_numerals(ds@),
{
    let mut s = String::new();
    let mut i: usize = 0;
    while i < ds.len()
        invariant
            i <= ds@.len(),
            s@ == concat_numerals(ds@.take(i as int)),
        decreases ds@.len() - i,
    {
        push_numeral(&mut s, ds[i]);
        assert(ds@.take(i as int + 1).drop_last() =~= ds@.take(i as int));
        i += 1;
    }
    assert(ds@.take(ds@.len() as int) =~= ds@);
    s
}

/// The numerals of `ds` separated by `;`.
pub fn separated_digits(ds: &Vec<usize>) -> (r: String)
    ensures
        r@ == separated_numerals(ds@),
{
    let mut parts: Vec<String> = Vec::new();
    let mut i: usize = 0;
    while i < ds.len()
        invariant
            i <= ds@.len(),
            parts@.len() == i,
            forall|j: int| 0 <= j < i ==> (#[trigger] parts@[j])@ == numeral_text(ds@[j] as nat),
        decreases ds@.len() - i,
    {
        let p = numeral(ds[i]);
        parts.push(p);
        i += 1;
    }
    assert(parts@.map_values(|p: String| p@) =~= ds@.map_values(|d: usize| numeral_text(d as nat)));
    let mut sep = String::new();
    push_char(&mut sep, ';');
    assert(sep@ =~= seq![';']);
    intersperse_texts(parts, sep)
}

} // verus!
