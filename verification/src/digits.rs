//! Decimal digit strings: the correspondence between a natural number and the
//! sequence of characters of its base-ten representation, and the shaping of
//! such a sequence into a fixed-point decimal (integer part, point, fractional
//! part with trailing zeros trimmed).

use vstd::prelude::*;
use vstd::arithmetic::div_mod::lemma_fundamental_div_mod;
use vstd::arithmetic::power::lemma_pow_positive;
use vstd::arithmetic::power::pow;

verus! {

/// The character for a single decimal digit value.
pub open spec fn digit_char(d: nat) -> char {
    if d == 0 {
        '0'
    } else if d == 1 {
        '1'
    } else if d == 2 {
        '2'
    } else if d == 3 {
        '3'
    } else if d == 4 {
        '4'
    } else if d == 5 {
        '5'
    } else if d == 6 {
        '6'
    } else if d == 7 {
        '7'
    } else if d == 8 {
        '8'
    } else {
        '9'
    }
}

/// The value of a single decimal digit character.
pub open spec fn digit_val(c: char) -> nat {
    if c == '0' {
        0
    } else if c == '1' {
        1
    } else if c == '2' {
        2
    } else if c == '3' {
        3
    } else if c == '4' {
        4
    } else if c == '5' {
        5
    } else if c == '6' {
        6
    } else if c == '7' {
        7
    } else if c == '8' {
        8
    } else {
        9
    }
}

/// Whether a character is a decimal digit.
pub open spec fn is_digit(c: char) -> bool {
    c == '0' || c == '1' || c == '2' || c == '3' || c == '4' || c == '5' || c == '6' || c == '7'
        || c == '8' || c == '9'
}

/// Whether every character of a sequence is a decimal digit.
pub open spec fn all_digits(s: Seq<char>) -> bool {
    forall|i: int| 0 <= i < s.len() ==> is_digit(#[trigger] s[i])
}

/// The base-ten representation of a natural number: most significant digit
/// first, no leading zeros (the single digit `0` for zero).
pub open spec fn dec_rep(n: nat) -> Seq<char>
    decreases n,
{
    if n < 10 {
        seq![digit_char(n)]
    } else {
        dec_rep(n / 10) + seq![digit_char(n % 10)]
    }
}

/// The natural number a sequence of digit characters denotes, read most
/// significant digit first.
pub open spec fn digits_val(s: Seq<char>) -> nat
    decreases s.len(),
{
    if s.len() == 0 {
        0
    } else {
        digits_val(s.drop_last()) * 10 + digit_val(s.last())
    }
}

/// A run of zero characters.
pub open spec fn zeros(k: nat) -> Seq<char> {
    Seq::new(k, |i: int| '0')
}

/// Ten to the given power.
pub open spec fn pow10(e: nat) -> nat {
    pow(10, e) as nat
}

pub proof fn lemma_pow10_pos(e: nat)
    ensures
        pow(10, e) > 0,
        pow10(e) >= 1,
{
    lemma_pow_positive(10, e);
}

pub proof fn lemma_digit_char_val(d: nat)
    requires
        d < 10,
    ensures
        digit_val(digit_char(d)) == d,
        is_digit(digit_char(d)),
{
}

/// The base-ten representation is nonempty, made of digits, and has no
/// leading zero unless it is the single digit `0`.
pub proof fn lemma_dec_rep_shape(n: nat)
    ensures
        dec_rep(n).len() >= 1,
        all_digits(dec_rep(n)),
        dec_rep(n).len() > 1 ==> dec_rep(n).first() != '0',
        n == 0 ==> dec_rep(n) == seq!['0'],
        n > 0 ==> dec_rep(n).first() != '0',
    decreases n,
{
    if n < 10 {
        assert(dec_rep(n) == seq![digit_char(n)]);
    } else {
        lemma_dec_rep_shape(n / 10);
        let rest = dec_rep(n / 10);
        let whole = rest + seq![digit_char(n % 10)];
        assert(n / 10 > 0) by {
            assert(n >= 10);
        }
        assert(whole.first() == rest.first());
        assert forall|i: int| 0 <= i < whole.len() implies is_digit(#[trigger] whole[i]) by {
            if i < rest.len() {
                assert(whole[i] == rest[i]);
            } else {
                assert(whole[i] == digit_char(n % 10));
            }
        }
    }
}

/// Reading back the base-ten representation of a number yields the number.
pub proof fn lemma_dec_rep_val(n: nat)
    ensures
        digits_val(dec_rep(n)) == n,
    decreases n,
{
    if n < 10 {
        let s = seq![digit_char(n)];
        assert(s.drop_last() =~= Seq::<char>::empty());
        assert(digits_val(s) == digits_val(s.drop_last()) * 10 + digit_val(s.last()));
        lemma_digit_char_val(n);
    } else {
        lemma_dec_rep_val(n / 10);
        let rest = dec_rep(n / 10);
        let whole = rest + seq![digit_char(n % 10)];
        assert(whole.drop_last() =~= rest);
        assert(whole.last() == digit_char(n % 10));
        lemma_digit_char_val(n % 10);
        lemma_fundamental_div_mod(n as int, 10);
    }
}

/// Concatenation of digit strings: the left part is shifted by one decimal
/// place per digit of the right part.
pub proof fn lemma_digits_val_concat(a: Seq<char>, b: Seq<char>)
    ensures
        digits_val(a + b) == digits_val(a) * pow10(b.len()) + digits_val(b),
    decreases b.len(),
{
    if b.len() == 0 {
        assert(a + b =~= a);
        assert(pow10(0) == 1) by {
            reveal(pow);
        }
    } else {
        let b0 = b.drop_last();
        lemma_digits_val_concat(a, b0);
        let whole = a + b;
        assert(whole.drop_last() =~= a + b0);
        assert(whole.last() == b.last());
        assert(digits_val(whole) == digits_val(a + b0) * 10 + digit_val(b.last()));
        assert(pow10(b.len()) == pow10(b0.len()) * 10) by {
            vstd::arithmetic::power::lemma_pow_adds(10, b0.len(), 1);
            vstd::arithmetic::power::lemma_pow1(10);
            lemma_pow10_pos(b0.len());
        }
        assert(digits_val(a) * (pow10(b0.len()) * 10) == (digits_val(a) * pow10(b0.len())) * 10)
            by {
            vstd::arithmetic::mul::lemma_mul_is_associative(
                digits_val(a) as int,
                pow10(b0.len()) as int,
                10,
            );
        }
        assert(digits_val(b) == digits_val(b0) * 10 + digit_val(b.last()));
        vstd::arithmetic::mul::lemma_mul_is_distributive_add_other_way(
            10,
            digits_val(a) * pow10(b0.len()) as int,
            digits_val(b0) as int,
        );
    }
}

/// A run of zeros denotes zero and is made of digits.
pub proof fn lemma_zeros(k: nat)
    ensures
        zeros(k).len() == k,
        all_digits(zeros(k)),
        digits_val(zeros(k)) == 0,
    decreases k,
{
    if k > 0 {
        lemma_zeros((k - 1) as nat);
        assert(zeros(k).drop_last() =~= zeros((k - 1) as nat));
        assert(zeros(k).last() == '0');
    }
}

/// Leading zeros do not change the value a digit string denotes.
pub proof fn lemma_leading_zeros_val(k: nat, s: Seq<char>)
    ensures
        digits_val(zeros(k) + s) == digits_val(s),
{
    lemma_zeros(k);
    lemma_digits_val_concat(zeros(k), s);
}

/// A digit string with its trailing zeros removed, keeping at least one
/// character.
pub open spec fn trim0(s: Seq<char>) -> Seq<char>
    decreases s.len(),
{
    if s.len() <= 1 {
        s
    } else if s.last() == '0' {
        trim0(s.drop_last())
    } else {
        s
    }
}

/// Trimming keeps a nonempty prefix whose last character is not `0` unless
/// only one character is left.
pub proof fn lemma_trim0_shape(s: Seq<char>)
    requires
        s.len() >= 1,
    ensures
        1 <= trim0(s).len() <= s.len(),
        trim0(s) == s.take(trim0(s).len() as int),
        trim0(s).len() > 1 ==> trim0(s).last() != '0',
    decreases s.len(),
{
    if s.len() <= 1 || s.last() != '0' {
        assert(trim0(s) =~= s.take(s.len() as int));
    } else {
        lemma_trim0_shape(s.drop_last());
        assert(s.drop_last().take(trim0(s).len() as int) =~= s.take(trim0(s).len() as int));
    }
}

/// The trimmed trailing zeros account exactly for a power of ten: the full
/// string denotes the trimmed string's value scaled by ten per removed zero.
pub proof fn lemma_trim0_val(s: Seq<char>)
    requires
        s.len() >= 1,
    ensures
        digits_val(s) == digits_val(trim0(s)) * pow10((s.len() - trim0(s).len()) as nat),
    decreases s.len(),
{
    lemma_trim0_shape(s);
    if s.len() <= 1 || s.last() != '0' {
        assert(pow10(0) == 1) by {
            vstd::arithmetic::power::lemma_pow0(10);
        }
        assert(trim0(s) == s);
        assert((s.len() - trim0(s).len()) as nat == 0);
        assert(pow10((s.len() - trim0(s).len()) as nat) == 1);
        assert(digits_val(s) == digits_val(trim0(s)) * pow10((s.len() - trim0(s).len()) as nat));
    } else {
        lemma_trim0_val(s.drop_last());
        lemma_trim0_shape(s.drop_last());
        let t = trim0(s);
        let k = (s.drop_last().len() - t.len()) as nat;
        lemma_pow10_pos(k);
        lemma_pow10_pos((k + 1) as nat);
        assert(digits_val(s) == digits_val(s.drop_last()) * 10 + 0);
        assert(digits_val(s.drop_last()) == digits_val(t) * pow10(k));
        assert(pow10(k + 1) == pow10(k) * 10) by {
            vstd::arithmetic::power::lemma_pow_adds(10, k, 1);
            vstd::arithmetic::power::lemma_pow1(10);
            lemma_pow10_pos(k);
        }
        assert(digits_val(t) * pow10(k) * 10 == digits_val(t) * (pow10(k) * 10)) by {
            vstd::arithmetic::mul::lemma_mul_is_associative(
                digits_val(t) as int,
                pow10(k) as int,
                10,
            );
        }
        assert(digits_val(s) == digits_val(t) * pow10(k + 1));
        assert(s.len() - t.len() == k + 1);
    }
}

/// A digit string padded on the left with zeros to hold more than `scale`
/// characters, so that a decimal point can sit `scale` places from the end
/// with at least one character before it.
pub open spec fn pad(d: Seq<char>, scale: nat) -> Seq<char> {
    if d.len() >= scale + 1 {
        d
    } else {
        zeros((scale + 1 - d.len()) as nat) + d
    }
}

/// The integer part: everything of the padded string but the last `scale`
/// characters.
pub open spec fn int_part(d: Seq<char>, scale: nat) -> Seq<char> {
    pad(d, scale).take(pad(d, scale).len() - scale)
}

/// The fractional part: the last `scale` characters of the padded string,
/// with trailing zeros trimmed down to at least one character.
pub open spec fn frac_part(d: Seq<char>, scale: nat) -> Seq<char> {
    trim0(pad(d, scale).skip(pad(d, scale).len() - scale))
}

/// The digit string `d`, read as an integer scaled down by `10^scale`,
/// rendered as a fixed-point decimal.
pub open spec fn formatted(d: Seq<char>, scale: nat) -> Seq<char> {
    int_part(d, scale) + seq!['.'] + frac_part(d, scale)
}

/// Padding keeps the denoted value and the digit property.
pub proof fn lemma_pad(d: Seq<char>, scale: nat)
    requires
        all_digits(d),
    ensures
        pad(d, scale).len() >= scale + 1,
        pad(d, scale).len() >= d.len(),
        all_digits(pad(d, scale)),
        digits_val(pad(d, scale)) == digits_val(d),
{
    let p = pad(d, scale);
    if d.len() >= scale + 1 {
        assert(p =~= d);
    } else {
        let k = (scale + 1 - d.len()) as nat;
        lemma_zeros(k);
        lemma_leading_zeros_val(k, d);
        assert forall|i: int| 0 <= i < p.len() implies is_digit(#[trigger] p[i]) by {
            if i < k {
                assert(p[i] == zeros(k)[i]);
            } else {
                assert(p[i] == d[i - k]);
            }
        }
    }
}

/// Shape of the formatted decimal: a nonempty all-digit integer part with no
/// leading zero unless it is the single digit `0`, then the point, then a
/// nonempty all-digit fractional part of at most `scale` characters with no
/// trailing zero unless it is the single digit `0`.
pub proof fn lemma_formatted_shape(num: nat, scale: nat)
    requires
        scale >= 1,
    ensures
        ({
            let d = dec_rep(num);
            let ip = int_part(d, scale);
            let fp = frac_part(d, scale);
            &&& formatted(d, scale) == ip + seq!['.'] + fp
            &&& ip.len() >= 1
            &&& all_digits(ip)
            &&& ip.len() > 1 ==> ip.first() != '0'
            &&& 1 <= fp.len() <= scale
            &&& all_digits(fp)
            &&& fp.len() > 1 ==> fp.last() != '0'
        }),
{
    let d = dec_rep(num);
    lemma_dec_rep_shape(num);
    lemma_pad(d, scale);
    let p = pad(d, scale);
    let ip = int_part(d, scale);
    let ff = p.skip(p.len() - scale);
    let fp = frac_part(d, scale);
    assert(ip.len() == p.len() - scale);
    assert forall|i: int| 0 <= i < ip.len() implies is_digit(#[trigger] ip[i]) by {
        assert(ip[i] == p[i]);
    }
    if ip.len() > 1 {
        assert(d.len() >= scale + 1) by {
            if d.len() < scale + 1 {
                assert(p.len() == scale + 1);
            }
        }
        assert(ip.first() == d.first());
        assert(d.len() > 1);
    }
    lemma_trim0_shape(ff);
    assert forall|i: int| 0 <= i < fp.len() implies is_digit(#[trigger] fp[i]) by {
        assert(fp[i] == ff[i]);
        assert(ff[i] == p[p.len() - scale + i]);
    }
}

/// Value of the formatted decimal: with `k` the length of the fractional
/// part, the integer part scaled by `10^k` plus the fractional part, all
/// scaled by `10^scale`, equals the original number scaled by `10^k`. In
/// other words the decimal denotes exactly `num / 10^scale`.
pub proof fn lemma_formatted_val(num: nat, scale: nat)
    requires
        scale >= 1,
    ensures
        ({
            let d = dec_rep(num);
            let ip = int_part(d, scale);
            let fp = frac_part(d, scale);
            (digits_val(ip) * pow10(fp.len()) + digits_val(fp)) * pow10(scale) == num * pow10(
                fp.len(),
            )
        }),
{
    let d = dec_rep(num);
    lemma_dec_rep_shape(num);
    lemma_dec_rep_val(num);
    lemma_pad(d, scale);
    let p = pad(d, scale);
    let ip = int_part(d, scale);
    let ff = p.skip(p.len() - scale);
    let fp = frac_part(d, scale);
    assert(p =~= ip + ff);
    lemma_digits_val_concat(ip, ff);
    assert(digits_val(ip) * pow10(scale) + digits_val(ff) == num);
    lemma_trim0_shape(ff);
    lemma_trim0_val(ff);
    let z = (scale - fp.len()) as nat;
    assert(digits_val(ff) == digits_val(fp) * pow10(z));
    let k = fp.len();
    assert(pow10(z) * pow10(k) == pow10(scale)) by {
        lemma_pow10_pos(z);
        lemma_pow10_pos(k);
        lemma_pow10_pos(scale);
        vstd::arithmetic::power::lemma_pow_adds(10, z, k);
        assert(z + k == scale);
    }
    assert((digits_val(ip) * pow10(k) + digits_val(fp)) * pow10(scale) == digits_val(ip) * pow10(
        k,
    ) * pow10(scale) + digits_val(fp) * pow10(scale)) by {
        vstd::arithmetic::mul::lemma_mul_is_distributive_add_other_way(
            pow10(scale) as int,
            digits_val(ip) * pow10(k) as int,
            digits_val(fp) as int,
        );
    }
    assert(digits_val(ip) * pow10(k) * pow10(scale) == digits_val(ip) * pow10(scale) * pow10(k))
        by (nonlinear_arith);
    assert(digits_val(fp) * pow10(scale) == digits_val(fp) * (pow10(z) * pow10(k)));
    assert(digits_val(fp) * (pow10(z) * pow10(k)) == digits_val(fp) * pow10(z) * pow10(k)) by {
        vstd::arithmetic::mul::lemma_mul_is_associative(
            digits_val(fp) as int,
            pow10(z) as int,
            pow10(k) as int,
        );
    }
    assert(digits_val(ip) * pow10(scale) * pow10(k) + digits_val(fp) * pow10(z) * pow10(k) == (
    digits_val(ip) * pow10(scale) + digits_val(fp) * pow10(z)) * pow10(k)) by {
        vstd::arithmetic::mul::lemma_mul_is_distributive_add_other_way(
            pow10(k) as int,
            digits_val(ip) * pow10(scale) as int,
            digits_val(fp) * pow10(z) as int,
        );
    }
    assert(digits_val(ip) * pow10(scale) + digits_val(fp) * pow10(z) == num);
}

} // verus!
