//! The exact decimal conversion: decomposing an IEEE-754 bit pattern into
//! sign, exponent and fraction fields, building the exact scaled numerator
//! with arbitrary-precision arithmetic, and rendering it as a fixed-point
//! decimal string.

use crate::big::big_from_u64;
use crate::big::big_mul;
use crate::big::big_pow;
use crate::big::big_to_decimal;
use crate::big::big_value;
use crate::big::chars_to_string;
use crate::digits::all_digits;
use crate::digits::dec_rep;
use crate::digits::digits_val;
use crate::digits::formatted;
use crate::digits::frac_part;
use crate::digits::int_part;
use crate::digits::lemma_formatted_shape;
use crate::digits::lemma_formatted_val;
use crate::digits::pad;
use crate::digits::pow10;
use crate::digits::trim0;
use crate::digits::zeros;
use vstd::arithmetic::power::pow;
use vstd::arithmetic::power2::pow2;
use vstd::prelude::*;

verus! {

/// Five to the given power.
pub open spec fn pow5(e: nat) -> nat {
    pow(5, e) as nat
}

/// The decimal scale of a double-precision conversion: the value of a finite
/// pattern is its numerator divided by ten to this power.
pub const F64_SCALE: u32 = 1075;

/// The decimal scale of a single-precision conversion.
pub const F32_SCALE: u32 = 150;

/// The sign bit of a double-precision pattern.
pub open spec fn f64_sign(bits: u64) -> bool {
    bits >> 63 != 0
}

/// The biased exponent field of a double-precision pattern.
pub open spec fn f64_exp_field(bits: u64) -> u64 {
    (bits >> 52) & 0x7ff
}

/// The fraction (mantissa) field of a double-precision pattern.
pub open spec fn f64_frac_field(bits: u64) -> u64 {
    bits & 0xf_ffff_ffff_ffff
}

/// A double-precision pattern with all-ones exponent and nonzero fraction.
pub open spec fn f64_is_nan(bits: u64) -> bool {
    f64_exp_field(bits) == 0x7ff && f64_frac_field(bits) != 0
}

/// A double-precision infinity: all-ones exponent, zero fraction.
pub open spec fn f64_is_inf(bits: u64) -> bool {
    f64_exp_field(bits) == 0x7ff && f64_frac_field(bits) == 0
}

/// The integer significand of a finite double-precision pattern: the
/// fraction field, with the implicit leading bit added for normal values.
pub open spec fn f64_significand(bits: u64) -> nat {
    if f64_exp_field(bits) == 0 {
        f64_frac_field(bits) as nat
    } else {
        (f64_frac_field(bits) + 0x10_0000_0000_0000) as nat
    }
}

/// The power of two a finite double-precision pattern scales its significand
/// by, before the common division by `2^1075`: subnormal values share the
/// minimum exponent of one.
pub open spec fn f64_pow2_exp(bits: u64) -> nat {
    if f64_exp_field(bits) == 0 {
        1
    } else {
        f64_exp_field(bits) as nat
    }
}

/// The exact numerator of a finite double-precision pattern: the magnitude
/// of the value is this number divided by `10^1075`.
pub open spec fn f64_numerator(bits: u64) -> nat {
    f64_significand(bits) * pow2(f64_pow2_exp(bits)) * pow5(1075)
}

/// The sign bit of a single-precision pattern.
pub open spec fn f32_sign(bits: u32) -> bool {
    bits >> 31 != 0
}

/// The biased exponent field of a single-precision pattern.
pub open spec fn f32_exp_field(bits: u32) -> u32 {
    (bits >> 23) & 0xff
}

/// The fraction (mantissa) field of a single-precision pattern.
pub open spec fn f32_frac_field(bits: u32) -> u32 {
    bits & 0x7f_ffff
}

/// A single-precision pattern with all-ones exponent and nonzero fraction.
pub open spec fn f32_is_nan(bits: u32) -> bool {
    f32_exp_field(bits) == 0xff && f32_frac_field(bits) != 0
}

/// A single-precision infinity: all-ones exponent, zero fraction.
pub open spec fn f32_is_inf(bits: u32) -> bool {
    f32_exp_field(bits) == 0xff && f32_frac_field(bits) == 0
}

/// The integer significand of a finite single-precision pattern.
pub open spec fn f32_significand(bits: u32) -> nat {
    if f32_exp_field(bits) == 0 {
        f32_frac_field(bits) as nat
    } else {
        (f32_frac_field(bits) + 0x80_0000) as nat
    }
}

/// The power of two a finite single-precision pattern scales its significand
/// by, before the common division by `2^150`.
pub open spec fn f32_pow2_exp(bits: u32) -> nat {
    if f32_exp_field(bits) == 0 {
        1
    } else {
        f32_exp_field(bits) as nat
    }
}

/// The exact numerator of a finite single-precision pattern: the magnitude
/// of the value is this number divided by `10^150`.
pub open spec fn f32_numerator(bits: u32) -> nat {
    f32_significand(bits) * pow2(f32_pow2_exp(bits)) * pow5(150)
}

/// The fixed output for a pattern with all-ones exponent and nonzero
/// fraction.
pub open spec fn nan_str() -> Seq<char> {
    seq!['N', 'a', 'N']
}

/// The fixed output for positive infinity.
pub open spec fn inf_str() -> Seq<char> {
    seq!['i', 'n', 'f']
}

/// The fixed output for negative infinity.
pub open spec fn neg_inf_str() -> Seq<char> {
    seq!['-', 'i', 'n', 'f']
}

/// A leading minus sign when the sign bit is set, nothing otherwise.
pub open spec fn sign_prefix(neg: bool) -> Seq<char> {
    if neg {
        seq!['-']
    } else {
        Seq::<char>::empty()
    }
}

/// The full output for a double-precision pattern.
pub open spec fn f64_precise(bits: u64) -> Seq<char> {
    if f64_is_nan(bits) {
        nan_str()
    } else if f64_is_inf(bits) {
        if f64_sign(bits) {
            neg_inf_str()
        } else {
            inf_str()
        }
    } else {
        sign_prefix(f64_sign(bits)) + formatted(dec_rep(f64_numerator(bits)), 1075)
    }
}

/// Renders decimal digits as a fixed-point string: the point sits `scale`
/// places from the end (padding with leading zeros when the digits are too
/// few), trailing fractional zeros are trimmed down to at least one digit,
/// and a minus sign is prepended when asked for.
fn format_finite(digits: &Vec<char>, scale: usize, neg: bool) -> (s: String)
    requires
        1 <= scale,
        1 <= digits@.len(),
    ensures
        s@ == sign_prefix(neg) + formatted(digits@, scale as nat),
{
    let ghost d = digits@;
    let ghost sc = scale as nat;
    let n = digits.len();
    let mut out: Vec<char> = Vec::new();
    if neg {
        out.push('-');
    }
    proof {
        assert(out@ =~= sign_prefix(neg));
    }
    if n > scale {
        let ilen = n - scale;
        let mut i: usize = 0;
        while i < ilen
            invariant
                0 <= i <= ilen,
                ilen == n - scale,
                n == d.len(),
                n > scale >= 1,
                digits@ == d,
                out@ == sign_prefix(neg) + d.take(i as int),
            decreases ilen - i,
        {
            let c = digits[i];
            out.push(c);
            i = i + 1;
            proof {
                assert(d.take(i as int) =~= d.take(i - 1) + seq![c]);
                assert(out@ =~= sign_prefix(neg) + d.take(i as int));
            }
        }
        proof {
            assert(pad(d, sc) == d);
            assert(int_part(d, sc) =~= d.take(ilen as int));
        }
    } else {
        out.push('0');
        proof {
            let p = pad(d, sc);
            assert(p == zeros((sc + 1 - n) as nat) + d);
            assert(p.len() == sc + 1);
            assert(int_part(d, sc) =~= seq!['0']) by {
                assert(p[0] == zeros((sc + 1 - n) as nat)[0]);
                assert(int_part(d, sc) =~= p.take(1));
            }
            assert(out@ =~= sign_prefix(neg) + int_part(d, sc));
        }
    }
    proof {
        assert(out@ == sign_prefix(neg) + int_part(d, sc));
    }
    out.push('.');
    proof {
        assert(out@ =~= sign_prefix(neg) + int_part(d, sc) + seq!['.']);
    }
    let mut frac: Vec<char> = Vec::new();
    if n > scale {
        let mut i: usize = n - scale;
        while i < n
            invariant
                n - scale <= i <= n,
                n == d.len(),
                n > scale >= 1,
                digits@ == d,
                frac@ == d.subrange((n - scale) as int, i as int),
            decreases n - i,
        {
            let c = digits[i];
            frac.push(c);
            i = i + 1;
            proof {
                assert(d.subrange((n - scale) as int, i as int) =~= d.subrange(
                    (n - scale) as int,
                    i - 1,
                ) + seq![c]);
            }
        }
        proof {
            let p = pad(d, sc);
            assert(p == d);
            assert(frac@ =~= p.skip(p.len() - sc));
        }
    } else {
        let zcount = scale - n;
        let mut i: usize = 0;
        while i < zcount
            invariant
                0 <= i <= zcount,
                frac@ == zeros(i as nat),
            decreases zcount - i,
        {
            frac.push('0');
            i = i + 1;
            proof {
                assert(frac@ =~= zeros(i as nat));
            }
        }
        let mut j: usize = 0;
        while j < n
            invariant
                0 <= j <= n,
                n == d.len(),
                digits@ == d,
                zcount == scale - n,
                frac@ == zeros(zcount as nat) + d.take(j as int),
            decreases n - j,
        {
            let c = digits[j];
            frac.push(c);
            j = j + 1;
            proof {
                assert(zeros(zcount as nat) + d.take(j as int) =~= zeros(zcount as nat) + d.take(
                    j - 1,
                ) + seq![c]);
            }
        }
        proof {
            let p = pad(d, sc);
            assert(p == zeros((sc + 1 - n) as nat) + d);
            assert(p.len() == sc + 1);
            assert(frac@ =~= p.skip(p.len() - sc)) by {
                assert(d.take(n as int) =~= d);
            }
        }
    }
    proof {
        assert(frac@ == pad(d, sc).skip(pad(d, sc).len() - sc));
        assert(frac@.len() == sc);
    }
    let ghost f = frac@;
    proof {
        assert(f.take(f.len() as int) =~= f);
    }
    let mut keep: usize = frac.len();
    while keep > 1 && frac[keep - 1] == '0'
        invariant
            1 <= keep <= f.len(),
            frac@ == f,
            trim0(f) == trim0(f.take(keep as int)),
        decreases keep,
    {
        proof {
            let t = f.take(keep as int);
            assert(t.last() == f[keep - 1]);
            assert(t.drop_last() =~= f.take(keep - 1));
        }
        keep = keep - 1;
    }
    proof {
        let t = f.take(keep as int);
        if keep > 1 {
            assert(t.last() == f[keep - 1]);
        }
        assert(trim0(t) == t);
        assert(frac_part(d, sc) == f.take(keep as int));
    }
    let mut i: usize = 0;
    while i < keep
        invariant
            0 <= i <= keep <= f.len(),
            frac@ == f,
            out@ == sign_prefix(neg) + int_part(d, sc) + seq!['.'] + f.take(i as int),
        decreases keep - i,
    {
        let c = frac[i];
        out.push(c);
        i = i + 1;
        proof {
            assert(f.take(i as int) =~= f.take(i - 1) + seq![c]);
            assert(sign_prefix(neg) + int_part(d, sc) + seq!['.'] + f.take(i as int) =~= sign_prefix(
                neg,
            ) + int_part(d, sc) + seq!['.'] + f.take(i - 1) + seq![c]);
        }
    }
    proof {
        assert(out@ =~= sign_prefix(neg) + formatted(d, sc));
    }
    chars_to_string(&out)
}

/// The full output for a single-precision pattern.
pub open spec fn f32_precise(bits: u32) -> Seq<char> {
    if f32_is_nan(bits) {
        nan_str()
    } else if f32_is_inf(bits) {
        if f32_sign(bits) {
            neg_inf_str()
        } else {
            inf_str()
        }
    } else {
        sign_prefix(f32_sign(bits)) + formatted(dec_rep(f32_numerator(bits)), 150)
    }
}

/// Builds the exact numerator `sig * 2^e2 * 5^scale` with arbitrary-precision
/// arithmetic and renders it as a fixed-point decimal with the point `scale`
/// places from the end.
fn finite_string(sig: u64, e2: u32, scale: u32, neg: bool) -> (s: String)
    requires
        1 <= e2,
        1 <= scale,
    ensures
        s@ == sign_prefix(neg) + formatted(
            dec_rep((sig as nat) * pow2(e2 as nat) * pow5(scale as nat)),
            scale as nat,
        ),
{
    let big_sig = big_from_u64(sig);
    let two = big_from_u64(2);
    let five = big_from_u64(5);
    let p2 = big_pow(&two, e2);
    let p5 = big_pow(&five, scale);
    proof {
        vstd::arithmetic::power2::lemma_pow2(e2 as nat);
        vstd::arithmetic::power::lemma_pow_positive(2, e2 as nat);
        vstd::arithmetic::power::lemma_pow_positive(5, scale as nat);
        assert(big_value(p2) == pow2(e2 as nat));
        assert(big_value(p5) == pow5(scale as nat));
    }
    let num = big_mul(big_mul(big_sig, p2), p5);
    proof {
        assert(big_value(num) == (sig as nat) * pow2(e2 as nat) * pow5(scale as nat));
    }
    let digits = big_to_decimal(&num);
    proof {
        crate::digits::lemma_dec_rep_shape(big_value(num));
    }
    format_finite(&digits, scale as usize, neg)
}

/// The exact decimal representation of the value whose double-precision bit
/// pattern is given: `NaN`, `inf` or `-inf` for the special patterns, and
/// otherwise the full, terminating decimal expansion of the rational number
/// the pattern encodes, with a leading `-` exactly when the sign bit is set.
pub fn f64_bits_to_string(bits: u64) -> (s: String)
    ensures
        s@ == f64_precise(bits),
{
    let frac: u64 = bits & 0xf_ffff_ffff_ffff;
    let exp: u64 = (bits >> 52) & 0x7ff;
    let neg: bool = (bits >> 63) != 0;
    proof {
        assert(bits & 0xf_ffff_ffff_ffff < 0x10_0000_0000_0000) by (bit_vector);
        assert((bits >> 52) & 0x7ff < 0x800) by (bit_vector);
    }
    if exp == 0x7ff {
        if frac != 0 {
            let s = "NaN".to_owned();
            proof {
                reveal_strlit("NaN");
                assert(s@ =~= nan_str());
            }
            s
        } else if neg {
            let s = "-inf".to_owned();
            proof {
                reveal_strlit("-inf");
                assert(s@ =~= neg_inf_str());
            }
            s
        } else {
            let s = "inf".to_owned();
            proof {
                reveal_strlit("inf");
                assert(s@ =~= inf_str());
            }
            s
        }
    } else {
        let sig: u64 = if exp == 0 {
            frac
        } else {
            frac + 0x10_0000_0000_0000
        };
        let e2: u32 = if exp == 0 {
            1
        } else {
            exp as u32
        };
        proof {
            assert(sig as nat == f64_significand(bits));
            assert(e2 as nat == f64_pow2_exp(bits));
        }
        finite_string(sig, e2, F64_SCALE, neg)
    }
}

/// The exact decimal representation of the value whose single-precision bit
/// pattern is given, in the same shape as the double-precision conversion.
pub fn f32_bits_to_string(bits: u32) -> (s: String)
    ensures
        s@ == f32_precise(bits),
{
    let frac: u32 = bits & 0x7f_ffff;
    let exp: u32 = (bits >> 23) & 0xff;
    let neg: bool = (bits >> 31) != 0;
    proof {
        assert(bits & 0x7f_ffff < 0x80_0000) by (bit_vector);
        assert((bits >> 23) & 0xff < 0x100) by (bit_vector);
    }
    if exp == 0xff {
        if frac != 0 {
            let s = "NaN".to_owned();
            proof {
                reveal_strlit("NaN");
                assert(s@ =~= nan_str());
            }
            s
        } else if neg {
            let s = "-inf".to_owned();
            proof {
                reveal_strlit("-inf");
                assert(s@ =~= neg_inf_str());
            }
            s
        } else {
            let s = "inf".to_owned();
            proof {
                reveal_strlit("inf");
                assert(s@ =~= inf_str());
            }
            s
        }
    } else {
        let sig: u32 = if exp == 0 {
            frac
        } else {
            frac + 0x80_0000
        };
        let e2: u32 = if exp == 0 {
            1
        } else {
            exp
        };
        proof {
            assert(sig as nat == f32_significand(bits));
            assert(e2 as nat == f32_pow2_exp(bits));
        }
        finite_string(sig as u64, e2, F32_SCALE, neg)
    }
}

/// Ten to a power is two to that power times five to that power.
pub proof fn lemma_pow10_split(e: nat)
    ensures
        pow10(e) == pow2(e) * pow5(e),
{
    vstd::arithmetic::power::lemma_pow_distributes(2, 5, e);
    vstd::arithmetic::power2::lemma_pow2(e);
    vstd::arithmetic::power::lemma_pow_positive(2, e);
    vstd::arithmetic::power::lemma_pow_positive(5, e);
    vstd::arithmetic::power::lemma_pow_positive(10, e);
}

/// Special values: any double-precision pattern with all-ones exponent and
/// nonzero fraction renders as `NaN`, whatever its sign bit; the two
/// infinities render as `inf` and `-inf`.
pub proof fn lemma_f64_specials(bits: u64)
    ensures
        f64_is_nan(bits) ==> f64_precise(bits) == nan_str(),
        f64_is_inf(bits) && !f64_sign(bits) ==> f64_precise(bits) == inf_str(),
        f64_is_inf(bits) && f64_sign(bits) ==> f64_precise(bits) == neg_inf_str(),
{
}

/// Special values for single precision.
pub proof fn lemma_f32_specials(bits: u32)
    ensures
        f32_is_nan(bits) ==> f32_precise(bits) == nan_str(),
        f32_is_inf(bits) && !f32_sign(bits) ==> f32_precise(bits) == inf_str(),
        f32_is_inf(bits) && f32_sign(bits) ==> f32_precise(bits) == neg_inf_str(),
{
}

/// Sign correctness: the output for a finite pattern begins with `-` exactly
/// when the sign bit is set.
pub proof fn lemma_f64_sign_correct(bits: u64)
    requires
        !f64_is_nan(bits),
        !f64_is_inf(bits),
    ensures
        f64_precise(bits).len() >= 3,
        f64_precise(bits).first() == '-' <==> f64_sign(bits),
{
    lemma_formatted_shape(f64_numerator(bits), 1075);
    let ip = int_part(dec_rep(f64_numerator(bits)), 1075);
    if !f64_sign(bits) {
        assert(f64_precise(bits).first() == ip.first());
    }
}

/// Sign correctness for single precision.
pub proof fn lemma_f32_sign_correct(bits: u32)
    requires
        !f32_is_nan(bits),
        !f32_is_inf(bits),
    ensures
        f32_precise(bits).len() >= 3,
        f32_precise(bits).first() == '-' <==> f32_sign(bits),
{
    lemma_formatted_shape(f32_numerator(bits), 150);
    let ip = int_part(dec_rep(f32_numerator(bits)), 150);
    if !f32_sign(bits) {
        assert(f32_precise(bits).first() == ip.first());
    }
}

/// Format invariant: the output for a finite pattern is the sign prefix, a
/// nonempty all-digit integer part with no leading zero unless it is the
/// single digit `0`, one decimal point, and a nonempty all-digit fractional
/// part with no trailing zero unless it is the single digit `0`.
pub proof fn lemma_f64_format(bits: u64)
    requires
        !f64_is_nan(bits),
        !f64_is_inf(bits),
    ensures
        ({
            let ip = int_part(dec_rep(f64_numerator(bits)), 1075);
            let fp = frac_part(dec_rep(f64_numerator(bits)), 1075);
            &&& f64_precise(bits) == sign_prefix(f64_sign(bits)) + ip + seq!['.'] + fp
            &&& ip.len() >= 1
            &&& all_digits(ip)
            &&& ip.len() > 1 ==> ip.first() != '0'
            &&& 1 <= fp.len() <= 1075
            &&& all_digits(fp)
            &&& fp.len() > 1 ==> fp.last() != '0'
            &&& forall|i: int|
                0 <= i < f64_precise(bits).len() ==> (f64_precise(bits)[i] == '.' <==> i
                    == sign_prefix(f64_sign(bits)).len() + ip.len())
        }),
{
    lemma_formatted_shape(f64_numerator(bits), 1075);
    let s = f64_precise(bits);
    let pre = sign_prefix(f64_sign(bits));
    let ip = int_part(dec_rep(f64_numerator(bits)), 1075);
    let fp = frac_part(dec_rep(f64_numerator(bits)), 1075);
    assert(s =~= pre + ip + seq!['.'] + fp);
    assert forall|i: int| 0 <= i < s.len() implies (s[i] == '.' <==> i == pre.len()
        + ip.len()) by {
        if i < pre.len() {
            assert(s[i] == '-');
        } else if i < pre.len() + ip.len() {
            assert(s[i] == ip[i - pre.len()]);
        } else if i > pre.len() + ip.len() {
            assert(s[i] == fp[i - (pre.len() + ip.len() + 1)]);
        }
    }
}

/// Format invariant for single precision.
pub proof fn lemma_f32_format(bits: u32)
    requires
        !f32_is_nan(bits),
        !f32_is_inf(bits),
    ensures
        ({
            let ip = int_part(dec_rep(f32_numerator(bits)), 150);
            let fp = frac_part(dec_rep(f32_numerator(bits)), 150);
            &&& f32_precise(bits) == sign_prefix(f32_sign(bits)) + ip + seq!['.'] + fp
            &&& ip.len() >= 1
            &&& all_digits(ip)
            &&& ip.len() > 1 ==> ip.first() != '0'
            &&& 1 <= fp.len() <= 150
            &&& all_digits(fp)
            &&& fp.len() > 1 ==> fp.last() != '0'
            &&& forall|i: int|
                0 <= i < f32_precise(bits).len() ==> (f32_precise(bits)[i] == '.' <==> i
                    == sign_prefix(f32_sign(bits)).len() + ip.len())
        }),
{
    lemma_formatted_shape(f32_numerator(bits), 150);
    let s = f32_precise(bits);
    let pre = sign_prefix(f32_sign(bits));
    let ip = int_part(dec_rep(f32_numerator(bits)), 150);
    let fp = frac_part(dec_rep(f32_numerator(bits)), 150);
    assert(s =~= pre + ip + seq!['.'] + fp);
    assert forall|i: int| 0 <= i < s.len() implies (s[i] == '.' <==> i == pre.len()
        + ip.len()) by {
        if i < pre.len() {
            assert(s[i] == '-');
        } else if i < pre.len() + ip.len() {
            assert(s[i] == ip[i - pre.len()]);
        } else if i > pre.len() + ip.len() {
            assert(s[i] == fp[i - (pre.len() + ip.len() + 1)]);
        }
    }
}

/// Roundtrip: reading the digit parts of the output for a finite pattern
/// back as the rational "integer part plus fractional part over ten to its
/// length" gives exactly `numerator / 10^1075`, the value the pattern
/// encodes; the equation states this over the common denominator.
pub proof fn lemma_f64_roundtrip(bits: u64)
    requires
        !f64_is_nan(bits),
        !f64_is_inf(bits),
    ensures
        ({
            let ip = int_part(dec_rep(f64_numerator(bits)), 1075);
            let fp = frac_part(dec_rep(f64_numerator(bits)), 1075);
            (digits_val(ip) * pow10(fp.len()) + digits_val(fp)) * pow10(1075) == f64_numerator(
                bits,
            ) * pow10(fp.len())
        }),
{
    lemma_formatted_val(f64_numerator(bits), 1075);
}

/// Roundtrip for single precision.
pub proof fn lemma_f32_roundtrip(bits: u32)
    requires
        !f32_is_nan(bits),
        !f32_is_inf(bits),
    ensures
        ({
            let ip = int_part(dec_rep(f32_numerator(bits)), 150);
            let fp = frac_part(dec_rep(f32_numerator(bits)), 150);
            (digits_val(ip) * pow10(fp.len()) + digits_val(fp)) * pow10(150) == f32_numerator(
                bits,
            ) * pow10(fp.len())
        }),
{
    lemma_formatted_val(f32_numerator(bits), 150);
}

/// The numerator denotes the IEEE-754 value of the pattern: over a common
/// denominator, `numerator / 10^1075` equals `frac * 2^-1074` for subnormal
/// patterns (zero included) and `(2^52 + frac) * 2^(exp - 1075)` for normal
/// ones.
pub proof fn lemma_f64_value(bits: u64)
    requires
        !f64_is_nan(bits),
        !f64_is_inf(bits),
    ensures
        f64_exp_field(bits) == 0 ==> f64_numerator(bits) * pow2(1074) == (f64_frac_field(
            bits,
        ) as nat) * pow10(1075),
        f64_exp_field(bits) >= 1 ==> f64_numerator(bits) * pow2(1075) == (f64_frac_field(bits)
            + pow2(52)) * pow2(f64_exp_field(bits) as nat) * pow10(1075),
{
    lemma_pow10_split(1075);
    let s = f64_significand(bits);
    let e = f64_pow2_exp(bits);
    if f64_exp_field(bits) == 0 {
        let f = f64_frac_field(bits) as nat;
        assert(pow2(1) * pow2(1074) == pow2(1075)) by {
            vstd::arithmetic::power2::lemma_pow2_adds(1, 1074);
        }
        assert(f * pow2(1) * pow5(1075) * pow2(1074) == f * (pow2(1075) * pow5(1075))) by {
            assert(f * pow2(1) * pow5(1075) * pow2(1074) == f * (pow2(1) * pow2(1074)) * pow5(
                1075,
            )) by (nonlinear_arith);
            assert(f * pow2(1075) * pow5(1075) == f * (pow2(1075) * pow5(1075)))
                by (nonlinear_arith);
        }
    } else {
        assert(pow2(52) == 0x10_0000_0000_0000) by {
            vstd::arithmetic::power2::lemma2_to64();
            vstd::arithmetic::power2::lemma2_to64_rest();
        }
        assert(s * pow2(e) * pow5(1075) * pow2(1075) == s * pow2(e) * (pow2(1075) * pow5(1075)))
            by (nonlinear_arith);
    }
}

/// The numerator denotes the IEEE-754 value of a single-precision pattern:
/// over a common denominator, `numerator / 10^150` equals `frac * 2^-149`
/// for subnormal patterns (zero included) and `(2^23 + frac) * 2^(exp - 150)`
/// for normal ones.
pub proof fn lemma_f32_value(bits: u32)
    requires
        !f32_is_nan(bits),
        !f32_is_inf(bits),
    ensures
        f32_exp_field(bits) == 0 ==> f32_numerator(bits) * pow2(149) == (f32_frac_field(
            bits,
        ) as nat) * pow10(150),
        f32_exp_field(bits) >= 1 ==> f32_numerator(bits) * pow2(150) == (f32_frac_field(bits)
            + pow2(23)) * pow2(f32_exp_field(bits) as nat) * pow10(150),
{
    lemma_pow10_split(150);
    let s = f32_significand(bits);
    let e = f32_pow2_exp(bits);
    if f32_exp_field(bits) == 0 {
        let f = f32_frac_field(bits) as nat;
        assert(pow2(1) * pow2(149) == pow2(150)) by {
            vstd::arithmetic::power2::lemma_pow2_adds(1, 149);
        }
        assert(f * pow2(1) * pow5(150) * pow2(149) == f * (pow2(150) * pow5(150))) by {
            assert(f * pow2(1) * pow5(150) * pow2(149) == f * (pow2(1) * pow2(149)) * pow5(150))
                by (nonlinear_arith);
            assert(f * pow2(150) * pow5(150) == f * (pow2(150) * pow5(150))) by (nonlinear_arith);
        }
    } else {
        assert(pow2(23) == 0x80_0000) by {
            vstd::arithmetic::power2::lemma2_to64();
        }
        assert(s * pow2(e) * pow5(150) * pow2(150) == s * pow2(e) * (pow2(150) * pow5(150)))
            by (nonlinear_arith);
    }
}

} // verus!
