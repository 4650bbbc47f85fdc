//! Decimal numerals over bytes: rendering an `i32` the way `format!` does,
//! and the facts about digit runs that the wire-format decoder needs.

use vstd::prelude::*;

verus! {

/// Is `b` an ASCII decimal digit?
pub open spec fn is_digit(b: u8) -> bool {
    0x30 <= b <= 0x39
}

/// The decimal digits of `n`, most significant first, no leading zeros
/// (the numeral of 0 is "0").
pub open spec fn dec_nat(n: nat) -> Seq<u8>
    decreases n,
{
    if n < 10 {
        seq![(0x30 + n) as u8]
    } else {
        dec_nat(n / 10).push((0x30 + n % 10) as u8)
    }
}

/// The decimal numeral of an `i32` value: a minus sign for negative values,
/// then the digits.
pub open spec fn dec_i32(n: int) -> Seq<u8> {
    if n < 0 {
        seq![0x2du8] + dec_nat((-n) as nat)
    } else {
        dec_nat(n as nat)
    }
}

/// 10 to the `k`.
pub open spec fn pow10(k: nat) -> int
    decreases k,
{
    if k == 0 {
        1
    } else {
        10 * pow10((k - 1) as nat)
    }
}

/// Powers of ten grow with the exponent.
pub proof fn lemma_pow10_mono(a: nat, b: nat)
    requires
        a <= b,
    ensures
        0 < pow10(a) <= pow10(b),
    decreases b,
{
    if a == b {
        if b > 0 {
            lemma_pow10_mono((a - 1) as nat, (b - 1) as nat);
        }
    } else {
        lemma_pow10_mono(a, (b - 1) as nat);
    }
}

/// The first position at or after `i` that holds no decimal digit
/// (or the end of `s`).
pub open spec fn digits_end(s: Seq<u8>, i: int) -> int
    decreases s.len() - i,
{
    if i < s.len() && is_digit(s[i]) {
        digits_end(s, i + 1)
    } else {
        i
    }
}

/// The value of the digit run `s[i..j)`, most significant first.
pub open spec fn digits_val(s: Seq<u8>, i: int, j: int) -> int
    decreases j - i,
{
    if i < j {
        digits_val(s, i, j - 1) * 10 + (s[j - 1] - 0x30)
    } else {
        0
    }
}

/// Where a digit run ends: everything before is a digit, what follows is not.
pub proof fn lemma_digits_end(s: Seq<u8>, i: int)
    requires
        0 <= i <= s.len(),
    ensures
        i <= digits_end(s, i) <= s.len(),
        forall|k: int| i <= k < digits_end(s, i) ==> is_digit(s[k]),
        digits_end(s, i) < s.len() ==> !is_digit(s[digits_end(s, i)]),
    decreases s.len() - i,
{
    if i < s.len() && is_digit(s[i]) {
        lemma_digits_end(s, i + 1);
    }
}

/// `digits_end` is pinned by its characterization: a run of digits followed
/// by a non-digit (or the end) ends exactly there.
pub proof fn lemma_digits_end_exact(s: Seq<u8>, i: int, j: int)
    requires
        0 <= i <= j <= s.len(),
        forall|k: int| i <= k < j ==> is_digit(s[k]),
        j < s.len() ==> !is_digit(s[j]),
    ensures
        digits_end(s, i) == j,
    decreases j - i,
{
    if i < j {
        assert(is_digit(s[i]));
        lemma_digits_end_exact(s, i + 1, j);
    }
}

/// A digit run's value is nonnegative and below `pow10` of its length.
pub proof fn lemma_digits_val_bounds(s: Seq<u8>, i: int, j: int)
    requires
        0 <= i <= j <= s.len(),
        forall|k: int| i <= k < j ==> is_digit(s[k]),
    ensures
        0 <= digits_val(s, i, j) < pow10((j - i) as nat),
    decreases j - i,
{
    if i < j {
        lemma_digits_val_bounds(s, i, j - 1);
        assert(is_digit(s[j - 1]));
        assert(digits_val(s, i, j - 1) * 10 + (s[j - 1] - 0x30) < pow10((j - i) as nat)) by {
            assert(pow10((j - i) as nat) == 10 * pow10((j - i - 1) as nat));
            assert(digits_val(s, i, j - 1) <= pow10((j - i - 1) as nat) - 1);
            assert(digits_val(s, i, j - 1) * 10 <= (pow10((j - i - 1) as nat) - 1) * 10)
                by (nonlinear_arith)
                requires digits_val(s, i, j - 1) <= pow10((j - i - 1) as nat) - 1,
            ;
        };
    }
}

/// A digit run with a nonzero leading digit is at least `pow10` of one less
/// than its length: more than ten digits cannot fit an `i32`.
pub proof fn lemma_digits_val_lower(s: Seq<u8>, i: int, j: int)
    requires
        0 <= i < j <= s.len(),
        forall|k: int| i <= k < j ==> is_digit(s[k]),
        s[i] != 0x30,
    ensures
        digits_val(s, i, j) >= pow10((j - i - 1) as nat),
    decreases j - i,
{
    if i == j - 1 {
        assert(is_digit(s[i]));
        assert(digits_val(s, i, j) == s[i] - 0x30);
    } else {
        lemma_digits_val_lower(s, i, j - 1);
        assert(is_digit(s[j - 1]));
        assert(digits_val(s, i, j - 1) * 10 >= pow10((j - i - 2) as nat) * 10)
            by (nonlinear_arith)
            requires digits_val(s, i, j - 1) >= pow10((j - i - 2) as nat),
        ;
        assert(pow10((j - i - 1) as nat) == 10 * pow10((j - i - 2) as nat));
    }
}

/// The numeral of `n` is a digit run, nonempty, and starts with '0' only
/// for `n == 0` itself.
pub proof fn lemma_dec_nat_shape(n: nat)
    ensures
        dec_nat(n).len() >= 1,
        forall|k: int| 0 <= k < dec_nat(n).len() ==> is_digit(dec_nat(n)[k]),
        dec_nat(n)[0] == 0x30 <==> n == 0,
        n < 10 ==> dec_nat(n).len() == 1,
    decreases n,
{
    if n >= 10 {
        lemma_dec_nat_shape(n / 10);
    }
}

/// Reading back the digits of `dec_nat(n)` embedded in `s` gives `n`.
pub proof fn lemma_digits_val_of_dec(s: Seq<u8>, i: int, j: int, n: nat)
    requires
        0 <= i <= j <= s.len(),
        s.subrange(i, j) == dec_nat(n),
    ensures
        digits_val(s, i, j) == n,
    decreases n,
{
    lemma_dec_nat_shape(n);
    assert(j - i == dec_nat(n).len());
    if n < 10 {
        assert(s.subrange(i, j)[0] == s[i]);
        assert(s[i] == (0x30 + n) as u8);
        assert(digits_val(s, i, j) == digits_val(s, i, i) * 10 + (s[i] - 0x30));
    } else {
        assert(dec_nat(n) == dec_nat(n / 10).push((0x30 + n % 10) as u8));
        assert(s.subrange(i, j - 1) == dec_nat(n / 10)) by {
            lemma_dec_nat_shape(n / 10);
            assert(s.subrange(i, j - 1) =~= dec_nat(n / 10));
        };
        lemma_digits_val_of_dec(s, i, j - 1, n / 10);
        assert(s[j - 1] == dec_nat(n)[j - 1 - i]);
        assert(s[j - 1] == (0x30 + n % 10) as u8);
    }
}

/// Appends the decimal digits of `n` to `out`.
pub fn push_dec_u32(out: &mut Vec<u8>, n: u32)
    ensures
        final(out)@ == old(out)@ + dec_nat(n as nat),
    decreases n,
{
    if n < 10 {
        out.push((0x30 + n) as u8);
        assert(out@ =~= old(out)@ + dec_nat(n as nat));
    } else {
        push_dec_u32(out, n / 10);
        out.push((0x30 + n % 10) as u8);
        assert(out@ =~= old(out)@ + dec_nat(n as nat));
    }
}

/// Appends the decimal numeral of `n` to `out`, minus sign included,
/// exactly as `format!("{}", n)` writes it.
pub fn push_dec_i32(out: &mut Vec<u8>, n: i32)
    ensures
        final(out)@ == old(out)@ + dec_i32(n as int),
{
    if n < 0 {
        out.push(0x2d);
        let mag: u32 = (-(n as i64)) as u32;
        assert(mag as nat == (-(n as int)) as nat);
        push_dec_u32(out, mag);
        assert(out@ =~= old(out)@ + dec_i32(n as int));
    } else {
        push_dec_u32(out, n as u32);
    }
}

} // verus!
