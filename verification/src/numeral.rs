//! Decimal numerals over characters: rendering a number as its digit
//! sequence, reading a digit run back, and the proofs that the two agree.

use vstd::prelude::*;

verus! {

/// The character for one decimal digit value.
pub open spec fn digit_char(d: int) -> char {
    if d == 0 {
        '0'
    } else if d == 1 {
        '1'
    } else if d == 2 {
        '2'
    } else if d == 3 {
        '3'
    } else if d == 4 {
        '4'
    } else if d == 5 {
        '5'
    } else if d == 6 {
        '6'
    } else if d == 7 {
        '7'
    } else if d == 8 {
        '8'
    } else {
        '9'
    }
}

/// Whether `c` is a decimal digit character.
pub open spec fn is_digit(c: char) -> bool {
    48 <= c as u32 <= 57
}

/// The numeric value of a digit character.
pub open spec fn digit_val(c: char) -> int {
    c as u32 - 48
}

/// The decimal digit sequence of `n`, most significant digit first,
/// without a sign and without leading zeros (zero itself is "0").
pub open spec fn dec_digits(n: nat) -> Seq<char>
    decreases n,
{
    if n < 10 {
        seq![digit_char(n as int)]
    } else {
        dec_digits(n / 10).push(digit_char((n % 10) as int))
    }
}

/// The value of a digit sequence read as a decimal numeral.
pub open spec fn dec_val(s: Seq<char>) -> int
    decreases s.len(),
{
    if s.len() == 0 {
        0
    } else {
        dec_val(s.drop_last()) * 10 + digit_val(s.last())
    }
}

/// Every character of `dec_digits(n)` is a digit, and there is at least one.
pub proof fn lemma_dec_digits_shape(n: nat)
    ensures
        dec_digits(n).len() >= 1,
        forall|i: int| 0 <= i < dec_digits(n).len() ==> is_digit(#[trigger] dec_digits(n)[i]),
    decreases n,
{
    if n < 10 {
        assert(is_digit(digit_char(n as int)));
    } else {
        lemma_dec_digits_shape(n / 10);
        assert(is_digit(digit_char((n % 10) as int)));
        assert(forall|i: int|
            0 <= i < dec_digits(n / 10).len() ==> #[trigger] dec_digits(n)[i] == dec_digits(
                n / 10,
            )[i]);
    }
}

/// Reading the digits of `n` back yields `n`.
pub proof fn lemma_dec_val_of_digits(n: nat)
    ensures
        dec_val(dec_digits(n)) == n,
    decreases n,
{
    if n < 10 {
        let s = dec_digits(n);
        assert(s.drop_last() =~= Seq::<char>::empty());
        assert(digit_val(digit_char(n as int)) == n);
        assert(dec_val(s) == dec_val(Seq::<char>::empty()) * 10 + n);
    } else {
        lemma_dec_val_of_digits(n / 10);
        let s = dec_digits(n);
        assert(s.drop_last() =~= dec_digits(n / 10));
        assert(dec_val(s) == (n / 10) * 10 + n % 10);
        assert((n / 10) * 10 + n % 10 == n) by (nonlinear_arith);
    }
}

/// The character for one decimal digit value.
pub fn digit_char_exec(d: u8) -> (c: char)
    requires
        d < 10,
    ensures
        c == digit_char(d as int),
{
    match d {
        0 => '0',
        1 => '1',
        2 => '2',
        3 => '3',
        4 => '4',
        5 => '5',
        6 => '6',
        7 => '7',
        8 => '8',
        _ => '9',
    }
}

/// Appends the decimal digits of `n` to `out`.
pub fn push_u64_dec(out: &mut Vec<char>, n: u64)
    ensures
        final(out)@ == old(out)@ + dec_digits(n as nat),
    decreases n,
{
    if n < 10 {
        out.push(digit_char_exec(n as u8));
        assert(out@ =~= old(out)@ + dec_digits(n as nat));
    } else {
        push_u64_dec(out, n / 10);
        out.push(digit_char_exec((n % 10) as u8));
        assert(out@ =~= old(out)@ + dec_digits(n as nat));
    }
}

/// Whether `c` is a decimal digit character.
pub fn is_digit_exec(c: char) -> (r: bool)
    ensures
        r == is_digit(c),
{
    let u = c as u32;
    48 <= u && u <= 57
}

/// Where the run of digit characters that starts at `i` ends.
pub open spec fn digit_run_end(s: Seq<char>, i: int) -> int
    decreases s.len() - i,
{
    if 0 <= i < s.len() && is_digit(s[i]) {
        digit_run_end(s, i + 1)
    } else {
        i
    }
}

pub proof fn lemma_digit_run_end_bounds(s: Seq<char>, i: int)
    requires
        0 <= i <= s.len(),
    ensures
        i <= digit_run_end(s, i) <= s.len(),
        forall|j: int| i <= j < digit_run_end(s, i) ==> is_digit(s[j]),
        digit_run_end(s, i) < s.len() ==> !is_digit(s[digit_run_end(s, i)]),
    decreases s.len() - i,
{
    if i < s.len() && is_digit(s[i]) {
        lemma_digit_run_end_bounds(s, i + 1);
    }
}

/// A digit run that is followed by a non-digit (or by the end of the text)
/// ends exactly at that boundary.
pub proof fn lemma_digit_run_of_digits(s: Seq<char>, i: int, k: int)
    requires
        0 <= i,
        i + k <= s.len(),
        k >= 0,
        forall|j: int| i <= j < i + k ==> is_digit(s[j]),
        i + k < s.len() ==> !is_digit(s[i + k]),
    ensures
        digit_run_end(s, i) == i + k,
    decreases k,
{
    if k == 0 {
    } else {
        assert(is_digit(s[i]));
        lemma_digit_run_of_digits(s, i + 1, k - 1);
    }
}

/// The number denoted by the digit run starting at `i` in `s`, together with
/// the position just past it: `None` if the run is empty or the value
/// exceeds `bound`.
pub open spec fn parse_nat(s: Seq<char>, i: int, bound: int) -> Option<(int, int)> {
    let e = digit_run_end(s, i);
    if e == i {
        None
    } else if dec_val(s.subrange(i, e)) > bound {
        None
    } else {
        Some((dec_val(s.subrange(i, e)), e))
    }
}

/// Reads a decimal number from `s` starting at `i`: the digit run must be
/// nonempty and denote a value at most `bound`.
pub fn parse_nat_exec(s: &Vec<char>, i: usize, bound: u64) -> (r: Option<(u64, usize)>)
    requires
        i <= s@.len(),
    ensures
        match r {
            Some((v, j)) => parse_nat(s@, i as int, bound as int) == Some((v as int, j as int))
                && i < j <= s@.len() && v <= bound,
            None => parse_nat(s@, i as int, bound as int) is None,
        },
{
    proof {
        lemma_digit_run_end_bounds(s@, i as int);
    }
    let ghost e = digit_run_end(s@, i as int);
    let mut j: usize = i;
    let mut acc: u64 = 0;
    let mut overflowed: bool = false;
    while j < s.len() && is_digit_exec(s[j])
        invariant
            i <= j <= s@.len(),
            j <= e <= s@.len(),
            forall|t: int| i <= t < e ==> is_digit(s@[t]),
            e < s@.len() ==> !is_digit(s@[e]),
            e == digit_run_end(s@, i as int),
            !overflowed ==> acc == dec_val(s@.subrange(i as int, j as int)) && acc <= bound,
            overflowed ==> dec_val(s@.subrange(i as int, j as int)) > bound,
        decreases s@.len() - j,
    {
        assert(j < e) by {
            if j == e {
                assert(e < s@.len());
                assert(!is_digit(s@[e as int]));
            }
        }
        assert(is_digit(s@[j as int]));
        let d: u32 = s[j] as u32 - 48;
        assert(s@.subrange(i as int, j + 1 as int).drop_last() =~= s@.subrange(i as int, j as int));
        assert(s@.subrange(i as int, j + 1 as int).last() == s@[j as int]);
        let ghost oldval = dec_val(s@.subrange(i as int, j as int));
        assert(dec_val(s@.subrange(i as int, j + 1 as int)) == oldval * 10 + d);
        if !overflowed {
            if d as u64 > bound {
                // A single digit already exceeds the bound.
                overflowed = true;
                assert(oldval * 10 + d > bound) by (nonlinear_arith)
                    requires
                        0 <= d,
                        d > bound,
                        oldval >= 0,
                ;
            } else if acc > (bound - d as u64) / 10 {
                overflowed = true;
                assert(oldval * 10 + d > bound) by (nonlinear_arith)
                    requires
                        oldval == acc,
                        acc > (bound - d) / 10,
                        bound >= d,
                        0 <= d <= 9,
                        acc >= 0,
                ;
            } else {
                assert(acc * 10 + d <= bound) by (nonlinear_arith)
                    requires
                        acc <= (bound - d) / 10,
                        0 <= d <= 9,
                        0 <= acc,
                        d <= bound,
                ;
                acc = acc * 10 + d as u64;
            }
        } else {
            assert(oldval * 10 + d > bound) by (nonlinear_arith)
                requires
                    oldval > bound,
                    bound >= 0,
                    d >= 0,
            ;
        }
        j = j + 1;
    }
    assert(j == e) by {
        if j < e {
            assert(is_digit(s@[j as int]));
        }
    }
    if j == i || overflowed {
        None
    } else {
        Some((acc, j))
    }
}

/// Reading back the rendered digits of `n` finds exactly `n`, provided the
/// digits sit at `i` and the character after them (if any) is not a digit.
pub proof fn lemma_parse_nat_of_digits(s: Seq<char>, i: int, n: nat, bound: int)
    requires
        0 <= i,
        i + dec_digits(n).len() <= s.len(),
        s.subrange(i, i + dec_digits(n).len() as int) =~= dec_digits(n),
        i + dec_digits(n).len() < s.len() ==> !is_digit(s[i + dec_digits(n).len()]),
        n <= bound,
    ensures
        parse_nat(s, i, bound) == Some((n as int, i + dec_digits(n).len())),
{
    let k = dec_digits(n).len() as int;
    lemma_dec_digits_shape(n);
    assert forall|j: int| i <= j < i + k implies is_digit(s[j]) by {
        assert(s[j] == s.subrange(i, i + k)[j - i]);
        assert(is_digit(dec_digits(n)[j - i]));
    }
    lemma_digit_run_of_digits(s, i, k);
    lemma_dec_val_of_digits(n);
    assert(s.subrange(i, i + k) =~= dec_digits(n));
}

/// Appends the decimal digits of `n` to `out`.
pub fn push_u128_dec(out: &mut Vec<char>, n: u128)
    ensures
        final(out)@ == old(out)@ + dec_digits(n as nat),
    decreases n,
{
    if n < 10 {
        out.push(digit_char_exec(n as u8));
        assert(out@ =~= old(out)@ + dec_digits(n as nat));
    } else {
        push_u128_dec(out, n / 10);
        out.push(digit_char_exec((n % 10) as u8));
        assert(out@ =~= old(out)@ + dec_digits(n as nat));
    }
}

} // verus!
