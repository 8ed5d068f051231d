//! Rounding and textual rendering of an encoded magnitude.
//!
//! A column value is the 64-bit IEEE 754 binary64 encoding of the stored
//! magnitude: a sign bit, an 11-bit biased exponent and a 52-bit fraction,
//! so the magnitude equals `mantissa * 2^exp` for the integer mantissa and
//! (possibly negative) binary exponent read off the fields.  Rendering at a
//! scale shows `round-half-away-from-zero(magnitude * 10^scale)` behind a
//! decimal point with exactly `scale` fractional digits; since the
//! magnitude is non-negative (the sign is a separate bit), half away from
//! zero is half up.  The renderer computes that integer exactly: it scales
//! the mantissa's decimal digits by powers of two and five and rounds by
//! looking at the highest digit dropped.

use vstd::prelude::*;
use vstd::arithmetic::div_mod::{lemma_fundamental_div_mod, lemma_fundamental_div_mod_converse};
use vstd::string::StringExecFns;
use crate::digits::{
    digits_ok, digits_val, pow10, pow2, pow5, lemma_pow10_pos, lemma_pow2_pos, lemma_pow10_adds,
    lemma_pow10_factors, lemma_val_split, lemma_val_bound, lemma_val_lower, lemma_val_all_zero,
    lemma_val_high_zeros, digits_from_u64, mul_digit, shift_digits, inc_digits, pad_digits,
    tail_digits,
};

verus! {

/// The sign bit of the encoding: set for negative amounts.
pub open spec fn sign_of(bits: u64) -> bool {
    bits >> 63 == 1
}

/// The 11-bit biased exponent field.
pub open spec fn exp_field(bits: u64) -> u64 {
    (bits >> 52) & 0x7ff
}

/// The 52-bit fraction field.
pub open spec fn frac_field(bits: u64) -> u64 {
    bits & 0xf_ffff_ffff_ffff
}

/// The integer mantissa: the fraction field, with the implicit leading
/// one-bit added for normal values.
pub open spec fn mantissa_of(bits: u64) -> nat {
    if exp_field(bits) == 0 {
        frac_field(bits) as nat
    } else {
        (frac_field(bits) + 0x10_0000_0000_0000) as nat
    }
}

/// The binary exponent: the encoded magnitude is `mantissa_of * 2^bin_exp_of`.
pub open spec fn bin_exp_of(bits: u64) -> int {
    if exp_field(bits) == 0 {
        -1074
    } else {
        exp_field(bits) - 1075
    }
}

/// The integer nearest `m / d`, halves rounded up (`d >= 1`).
pub open spec fn round_half_up(m: nat, d: nat) -> nat
    recommends
        d >= 1,
{
    (2 * m + d) / (2 * d)
}

/// The encoded magnitude scaled by ten to the scale and rounded half away
/// from zero: the amount's display is this integer behind a decimal point
/// shifted `scale` places.
pub open spec fn scaled_units(bits: u64, scale: nat) -> nat {
    if bin_exp_of(bits) >= 0 {
        mantissa_of(bits) * pow2(bin_exp_of(bits) as nat) * pow10(scale)
    } else {
        round_half_up(mantissa_of(bits) * pow10(scale), pow2((-bin_exp_of(bits)) as nat))
    }
}

pub open spec fn digit_char(d: nat) -> char {
    if d == 0 {
        '0'
    } else if d == 1 {
        '1'
    } else if d == 2 {
        '2'
    } else if d == 3 {
        '3'
    } else if d == 4 {
        '4'
    } else if d == 5 {
        '5'
    } else if d == 6 {
        '6'
    } else if d == 7 {
        '7'
    } else if d == 8 {
        '8'
    } else {
        '9'
    }
}

/// The decimal digits of `n`, most significant first, without leading
/// zeros (zero itself shows one digit).
pub open spec fn int_chars(n: nat) -> Seq<char>
    decreases n,
{
    if n < 10 {
        seq![digit_char(n)]
    } else {
        int_chars(n / 10).push(digit_char(n % 10))
    }
}

/// The low `s` decimal digits of `n`, most significant first, zero padded
/// to exactly `s` characters.
pub open spec fn frac_chars(n: nat, s: nat) -> Seq<char>
    decreases s,
{
    if s == 0 {
        Seq::<char>::empty()
    } else {
        frac_chars(n / 10, (s - 1) as nat).push(digit_char(n % 10))
    }
}

/// The canonical text of an encoded amount at a scale: `-` exactly when
/// the sign bit is set, the integer digits, a decimal point, and exactly
/// `scale` fractional digits of the rounded magnitude.
pub open spec fn spec_render(bits: u64, scale: nat) -> Seq<char> {
    let n = scaled_units(bits, scale);
    let sign: Seq<char> = if sign_of(bits) {
        seq!['-']
    } else {
        Seq::<char>::empty()
    };
    sign + int_chars(n / pow10(scale)) + seq!['.'] + frac_chars(n, scale)
}

/// Rounding a fraction that is exactly an integer returns that integer.
proof fn lemma_round_exact(q: nat, d: nat)
    requires
        d >= 1,
    ensures
        round_half_up(q * d, d) == q,
{
    let dd = 2 * d;
    assert(2 * (q * d) + d == q * dd + d) by (nonlinear_arith)
        requires
            dd == 2 * d,
    ;
    lemma_fundamental_div_mod_converse((q * dd + d) as int, dd as int, q as int, d as int);
}

/// Integer division is unchanged when numerator and denominator carry a
/// common factor.
proof fn lemma_div_scale(a: nat, b: nat, c: nat)
    requires
        b >= 1,
        c >= 1,
    ensures
        (a * c) / (b * c) == a / b,
{
    let q = a / b;
    let r = a % b;
    lemma_fundamental_div_mod(a as int, b as int);
    assert(a == q * b + r) by (nonlinear_arith)
        requires
            a == b * q + r,
    ;
    assert(a * c == q * (b * c) + r * c) by (nonlinear_arith)
        requires
            a == q * b + r,
    ;
    assert(r * c < b * c) by (nonlinear_arith)
        requires
            r < b,
            c >= 1,
    ;
    lemma_fundamental_div_mod_converse(
        (a * c) as int,
        (b * c) as int,
        q as int,
        (r * c) as int,
    );
}

/// Half-up rounding is unchanged when the fraction is scaled by a common
/// factor.
proof fn lemma_round_scale(m: nat, d: nat, c: nat)
    requires
        d >= 1,
        c >= 1,
    ensures
        round_half_up(m * c, d * c) == round_half_up(m, d),
{
    assert(2 * (m * c) + d * c == (2 * m + d) * c) by (nonlinear_arith);
    assert(2 * (d * c) == (2 * d) * c) by (nonlinear_arith);
    lemma_div_scale(2 * m + d, 2 * d, c);
}

/// Half-up rounding of `q + r/d` is `q`, or `q + 1` once the remainder
/// reaches half of the denominator.
proof fn lemma_round_split(q: nat, r: nat, d: nat)
    requires
        d >= 1,
        r < d,
    ensures
        round_half_up(q * d + r, d) == q + (if 2 * r >= d {
            1nat
        } else {
            0nat
        }),
{
    let dd = 2 * d;
    if 2 * r >= d {
        assert(2 * (q * d + r) + d == (q + 1) * dd + (2 * r - d)) by (nonlinear_arith)
            requires
                dd == 2 * d,
                2 * r >= d,
        ;
        lemma_fundamental_div_mod_converse(
            (2 * (q * d + r) + d) as int,
            dd as int,
            (q + 1) as int,
            2 * r - d,
        );
    } else {
        assert(2 * (q * d + r) + d == q * dd + (2 * r + d)) by (nonlinear_arith)
            requires
                dd == 2 * d,
        ;
        lemma_fundamental_div_mod_converse(
            (2 * (q * d + r) + d) as int,
            dd as int,
            q as int,
            (2 * r + d) as int,
        );
    }
}

/// When the scale reaches the binary precision, no digit is dropped and
/// the scaled magnitude is exact: `m * 10^s / 2^k == m * 5^k * 10^(s-k)`.
proof fn lemma_units_exact(m: nat, k: nat, s: nat)
    requires
        1 <= k <= s,
    ensures
        pow10((s - k) as nat) * (m * pow5(k)) == round_half_up(m * pow10(s), pow2(k)),
{
    lemma_pow10_adds((s - k) as nat, k);
    lemma_pow10_factors(k);
    lemma_pow2_pos(k);
    let q = pow10((s - k) as nat) * (m * pow5(k));
    assert(m * pow10(s) == q * pow2(k)) by (nonlinear_arith)
        requires
            pow10(s) == pow10((s - k) as nat) * pow10(k),
            pow10(k) == pow2(k) * pow5(k),
            q == pow10((s - k) as nat) * (m * pow5(k)),
    ;
    lemma_round_exact(q, pow2(k));
}

/// When the scale is shorter than the binary precision, rounding the
/// scaled magnitude means dropping the low `k - s` digits of `m * 5^k`
/// and rounding up exactly when the highest dropped digit is five or more.
proof fn lemma_units_inexact(x: Seq<u8>, m: nat, k: nat, s: nat)
    requires
        digits_ok(x),
        digits_val(x) == m * pow5(k),
        s < k,
        x.len() >= k - s,
    ensures
        round_half_up(m * pow10(s), pow2(k)) == digits_val(x.skip((k - s) as int)) + (if x[(k - s
            - 1) as int] >= 5 {
            1nat
        } else {
            0nat
        }),
{
    let drop = (k - s) as nat;
    lemma_pow10_pos(drop);
    lemma_pow10_pos(s);
    lemma_pow2_pos(k);
    lemma_pow10_adds(s, drop);
    lemma_pow10_factors(k);

    // The same fraction two ways: m * 10^s / 2^k == digits_val(x) / 10^drop.
    lemma_round_scale(m * pow10(s), pow2(k), pow10(drop));
    lemma_round_scale(digits_val(x), pow10(drop), pow2(k));
    assert((m * pow10(s)) * pow10(drop) == digits_val(x) * pow2(k)) by (nonlinear_arith)
        requires
            digits_val(x) == m * pow5(k),
            pow10((s + drop) as nat) == pow10(s) * pow10(drop),
            pow10(k) == pow2(k) * pow5(k),
            s + drop == k,
    ;
    assert(pow2(k) * pow10(drop) == pow10(drop) * pow2(k)) by (nonlinear_arith);
    assert(round_half_up(m * pow10(s), pow2(k)) == round_half_up(digits_val(x), pow10(drop)));

    // Split the digits at the drop point and round on the remainder.
    let lo = x.take(drop as int);
    let hi = x.skip(drop as int);
    lemma_val_split(x, drop as int);
    assert(digits_ok(lo));
    lemma_val_bound(lo);
    assert(digits_val(x) == digits_val(hi) * pow10(drop) + digits_val(lo)) by (nonlinear_arith)
        requires
            digits_val(x) == digits_val(lo) + pow10(drop) * digits_val(hi),
    ;
    lemma_round_split(digits_val(hi), digits_val(lo), pow10(drop));

    // The remainder reaches half exactly when the top dropped digit is >= 5.
    let d1 = (drop - 1) as nat;
    lemma_pow10_pos(d1);
    lemma_val_split(lo, d1 as int);
    assert(lo.take(d1 as int) =~= x.take(d1 as int));
    assert(lo.skip(d1 as int) =~= seq![x[d1 as int]]);
    assert(seq![x[d1 as int]].drop_first() =~= Seq::<u8>::empty());
    assert(digits_val(Seq::<u8>::empty()) == 0);
    assert(seq![x[d1 as int]].len() == 1 && seq![x[d1 as int]][0] == x[d1 as int]);
    assert(digits_val(seq![x[d1 as int]]) == x[d1 as int]);
    assert(digits_val(lo) == digits_val(x.take(d1 as int)) + pow10(d1) * (x[d1 as int] as nat));
    assert(pow10(drop) == 10 * pow10(d1));
    if x[d1 as int] >= 5 {
        assert(pow10(d1) * (x[d1 as int] as nat) >= pow10(d1) * 5) by (nonlinear_arith)
            requires
                x[d1 as int] >= 5,
        ;
        assert(2 * digits_val(lo) >= pow10(drop)) by (nonlinear_arith)
            requires
                digits_val(lo) >= pow10(d1) * 5,
                pow10(drop) == 10 * pow10(d1),
        ;
    } else {
        assert(digits_ok(x.take(d1 as int)));
        lemma_val_bound(x.take(d1 as int));
        assert(pow10(d1) * (x[d1 as int] as nat) <= pow10(d1) * 4) by (nonlinear_arith)
            requires
                x[d1 as int] <= 4,
        ;
        assert(2 * digits_val(lo) < pow10(drop)) by (nonlinear_arith)
            requires
                digits_val(lo) < pow10(d1) + pow10(d1) * 4,
                pow10(drop) == 10 * pow10(d1),
    ;
    }
}

pub open spec fn is_dec_digit(c: char) -> bool {
    c == '0' || c == '1' || c == '2' || c == '3' || c == '4' || c == '5' || c == '6' || c == '7'
        || c == '8' || c == '9'
}

pub proof fn lemma_int_chars_digits(n: nat)
    ensures
        int_chars(n).len() >= 1,
        forall|i: int| 0 <= i < int_chars(n).len() ==> is_dec_digit(#[trigger] int_chars(n)[i]),
    decreases n,
{
    if n >= 10 {
        lemma_int_chars_digits(n / 10);
    }
}

pub proof fn lemma_frac_chars_digits(n: nat, s: nat)
    ensures
        frac_chars(n, s).len() == s,
        forall|i: int| 0 <= i < s ==> is_dec_digit(#[trigger] frac_chars(n, s)[i]),
    decreases s,
{
    if s > 0 {
        lemma_frac_chars_digits(n / 10, (s - 1) as nat);
    }
}

/// The characters of a value's decimal rendering are its little-endian
/// digits read backwards (given no high zero except a lone zero digit).
proof fn lemma_int_chars_of_digits(s: Seq<u8>)
    requires
        digits_ok(s),
        s.len() >= 1,
        s.len() == 1 || s.last() != 0,
    ensures
        int_chars(digits_val(s)) == Seq::new(s.len(), |i: int| digit_char(s[s.len() - 1 - i] as nat)),
    decreases s.len(),
{
    let n = digits_val(s);
    let target = Seq::new(s.len(), |i: int| digit_char(s[s.len() - 1 - i] as nat));
    if s.len() == 1 {
        assert(s.drop_first() =~= Seq::<u8>::empty());
        assert(digits_val(Seq::<u8>::empty()) == 0);
        assert(n == s[0]);
        assert(int_chars(n) =~= target);
    } else {
        let dt = s.drop_first();
        assert(digits_ok(dt));
        assert(dt.last() == s.last());
        lemma_int_chars_of_digits(dt);
        lemma_val_lower(dt);
        lemma_pow10_pos((dt.len() - 1) as nat);
        assert(n >= 10);
        lemma_fundamental_div_mod_converse(n as int, 10, digits_val(dt) as int, s[0] as int);
        assert(n / 10 == digits_val(dt) && n % 10 == s[0]);
        assert(int_chars(n) == int_chars(digits_val(dt)).push(digit_char(s[0] as nat)));
        assert(int_chars(n) =~= target);
    }
}

/// The fractional characters at width `k` are the low `k` little-endian
/// digits read backwards.
proof fn lemma_frac_chars_of_digits(s: Seq<u8>, k: nat)
    requires
        digits_ok(s),
        s.len() >= k,
    ensures
        frac_chars(digits_val(s), k) == Seq::new(k, |i: int| digit_char(s[k - 1 - i] as nat)),
    decreases k,
{
    let n = digits_val(s);
    let target = Seq::new(k, |i: int| digit_char(s[k - 1 - i] as nat));
    if k == 0 {
        assert(frac_chars(n, 0) =~= target);
    } else {
        let dt = s.drop_first();
        assert(digits_ok(dt));
        lemma_fundamental_div_mod_converse(n as int, 10, digits_val(dt) as int, s[0] as int);
        lemma_frac_chars_of_digits(dt, (k - 1) as nat);
        assert(frac_chars(n, k) == frac_chars(digits_val(dt), (k - 1) as nat).push(
            digit_char(s[0] as nat),
        ));
        assert(frac_chars(n, k) =~= target);
    }
}

/// A one-character string for a decimal digit.
fn digit_str(d: u8) -> (r: &'static str)
    requires
        d < 10,
    ensures
        r@.len() == 1,
        r@[0] == digit_char(d as nat),
{
    proof {
        reveal_strlit("0");
        reveal_strlit("1");
        reveal_strlit("2");
        reveal_strlit("3");
        reveal_strlit("4");
        reveal_strlit("5");
        reveal_strlit("6");
        reveal_strlit("7");
        reveal_strlit("8");
        reveal_strlit("9");
    }
    if d == 0 {
        "0"
    } else if d == 1 {
        "1"
    } else if d == 2 {
        "2"
    } else if d == 3 {
        "3"
    } else if d == 4 {
        "4"
    } else if d == 5 {
        "5"
    } else if d == 6 {
        "6"
    } else if d == 7 {
        "7"
    } else if d == 8 {
        "8"
    } else {
        "9"
    }
}

/// The little-endian digits of the rounded scaled magnitude.
fn scaled_digits(bits: u64, scale: u32) -> (r: Vec<u8>)
    ensures
        digits_ok(r@),
        digits_val(r@) == scaled_units(bits, scale as nat),
{
    let expf: u64 = (bits >> 52) & 0x7ff;
    let frac: u64 = bits & 0xf_ffff_ffff_ffff;
    proof {
        assert((bits & 0xf_ffff_ffff_ffff) < 0x10_0000_0000_0000) by (bit_vector);
        assert(((bits >> 52) & 0x7ff) < 0x800) by (bit_vector);
    }
    let mant: u64 = if expf == 0 {
        frac
    } else {
        frac + 0x10_0000_0000_0000
    };
    assert(mant == mantissa_of(bits));
    let ghost m = mantissa_of(bits);

    let mut v = digits_from_u64(mant);
    if expf >= 1075 {
        // Non-negative binary exponent: the magnitude is the integer
        // mant * 2^e, and scaling by 10^scale is exact.
        let e: u64 = expf - 1075;
        let mut i: u64 = 0;
        proof {
            assert(m * pow2(0) == m) by (nonlinear_arith)
                requires
                    pow2(0) == 1,
            ;
        }
        while i < e
            invariant
                i <= e,
                digits_ok(v@),
                digits_val(v@) == m * pow2(i as nat),
            decreases e - i,
        {
            let w = mul_digit(&v, 2);
            proof {
                assert(2 * (m * pow2(i as nat)) == m * pow2((i + 1) as nat)) by (nonlinear_arith)
                    requires
                        pow2((i + 1) as nat) == 2 * pow2(i as nat),
                ;
            }
            v = w;
            i += 1;
        }
        let w = shift_digits(v, scale as usize);
        proof {
            assert(pow10(scale as nat) * (m * pow2(e as nat)) == m * pow2(e as nat) * pow10(
                scale as nat,
            )) by (nonlinear_arith);
            assert(bin_exp_of(bits) == e as int);
        }
        w
    } else {
        // Negative binary exponent: the magnitude is mant / 2^k; multiply
        // the digits by 5^k so the value reads mant * 5^k / 10^k.
        let k: u64 = if expf == 0 {
            1074
        } else {
            1075 - expf
        };
        proof {
            assert(1 <= k <= 1074);
            assert(bin_exp_of(bits) < 0 && k as int == -bin_exp_of(bits));
        }
        let mut i: u64 = 0;
        proof {
            assert(m * pow5(0) == m) by (nonlinear_arith)
                requires
                    pow5(0) == 1,
            ;
        }
        while i < k
            invariant
                i <= k,
                digits_ok(v@),
                digits_val(v@) == m * pow5(i as nat),
            decreases k - i,
        {
            let w = mul_digit(&v, 5);
            proof {
                assert(5 * (m * pow5(i as nat)) == m * pow5((i + 1) as nat)) by (nonlinear_arith)
                    requires
                        pow5((i + 1) as nat) == 5 * pow5(i as nat),
                ;
            }
            v = w;
            i += 1;
        }
        let s64: u64 = scale as u64;
        if k <= s64 {
            let w = shift_digits(v, (s64 - k) as usize);
            proof {
                lemma_units_exact(m, k as nat, scale as nat);
            }
            w
        } else {
            let dropu: usize = (k - s64) as usize;
            let v2 = pad_digits(v, dropu);
            let round_up: bool = v2[dropu - 1] >= 5;
            let kept = tail_digits(&v2, dropu);
            proof {
                lemma_units_inexact(v2@, m, k as nat, scale as nat);
            }
            if round_up {
                inc_digits(kept)
            } else {
                kept
            }
        }
    }
}

/// Renders an encoded amount at a scale: `-` exactly when the sign bit is
/// set, the integer digits, a decimal point, exactly `scale` fractional
/// digits, the magnitude rounded half away from zero at the scale.
pub fn render_bits(bits: u64, scale: u32) -> (r: String)
    ensures
        r@ == spec_render(bits, scale as nat),
{
    let s_us: usize = scale as usize;
    let mut x = scaled_digits(bits, scale);
    x = pad_digits(x, s_us);
    let ghost n = digits_val(x@);

    let mut out = String::new();
    if (bits >> 63) == 1 {
        proof {
            reveal_strlit("-");
        }
        out.append("-");
    }
    let ghost sign_pfx = out@;
    proof {
        assert(sign_pfx =~= (if sign_of(bits) {
            seq!['-']
        } else {
            Seq::<char>::empty()
        }));
    }

    // Integer part: the digits above the scale, highest zeros stripped.
    let mut top: usize = x.len();
    while top > s_us && x[top - 1] == 0
        invariant
            s_us <= top <= x@.len(),
            digits_ok(x@),
            forall|j: int| top <= j < x@.len() ==> x@[j] == 0,
        decreases top,
    {
        top -= 1;
    }
    proof {
        lemma_val_split(x@, s_us as int);
        assert(digits_ok(x@.take(s_us as int)));
        lemma_val_bound(x@.take(s_us as int));
        lemma_pow10_pos(scale as nat);
        assert(n == digits_val(x@.skip(s_us as int)) * pow10(scale as nat) + digits_val(
            x@.take(s_us as int),
        )) by (nonlinear_arith)
            requires
                n == digits_val(x@.take(s_us as int)) + pow10(scale as nat) * digits_val(
                    x@.skip(s_us as int),
                ),
        ;
        lemma_fundamental_div_mod_converse(
            n as int,
            pow10(scale as nat) as int,
            digits_val(x@.skip(s_us as int)) as int,
            digits_val(x@.take(s_us as int)) as int,
        );
        // Zeros above `top` do not change the integer part.
        assert(forall|j: int| top - s_us <= j < x@.skip(s_us as int).len()
            ==> x@.skip(s_us as int)[j] == 0);
        lemma_val_high_zeros(x@.skip(s_us as int), top - s_us);
        assert(x@.skip(s_us as int).take(top - s_us) =~= x@.subrange(s_us as int, top as int));
    }
    let ghost intpart = x@.subrange(s_us as int, top as int);
    assert(digits_val(intpart) == n / pow10(scale as nat));

    if top == s_us {
        proof {
            lemma_val_all_zero(intpart);
            assert(int_chars(0) =~= seq![digit_char(0)]);
            reveal_strlit("0");
        }
        out.append("0");
        proof {
            assert(out@ =~= sign_pfx + int_chars(n / pow10(scale as nat)));
        }
    } else {
        let mut i: usize = top;
        while i > s_us
            invariant
                s_us <= i <= top <= x@.len(),
                digits_ok(x@),
                sign_pfx == (if sign_of(bits) {
                    seq!['-']
                } else {
                    Seq::<char>::empty()
                }),
                out@ == sign_pfx + Seq::new((top - i) as nat, |j: int| digit_char(x@[top - 1 - j] as nat)),
            decreases i,
        {
            i -= 1;
            assert(x@[i as int] < 10);
            let ds = digit_str(x[i]);
            out.append(ds);
            proof {
                assert(out@ =~= sign_pfx + Seq::new((top - i) as nat, |j: int| digit_char(x@[top - 1
                    - j] as nat)));
            }
        }
        proof {
            lemma_int_chars_of_digits(intpart);
            assert(Seq::new((top - s_us) as nat, |j: int| digit_char(x@[top - 1 - j] as nat)) =~= Seq::new(
                intpart.len(),
                |i: int| digit_char(intpart[intpart.len() - 1 - i] as nat),
            ));
            assert(out@ =~= sign_pfx + int_chars(n / pow10(scale as nat)));
        }
    }
    let ghost with_int = out@;

    proof {
        reveal_strlit(".");
        assert("."@ =~= seq!['.']);
    }
    out.append(".");

    // Fractional part: the low `scale` digits, highest first.
    let mut j: usize = s_us;
    while j > 0
        invariant
            0 <= j <= s_us <= x@.len(),
            digits_ok(x@),
            out@ == with_int + seq!['.'] + Seq::new((s_us - j) as nat, |t: int| digit_char(x@[s_us - 1
                - t] as nat)),
        decreases j,
    {
        j -= 1;
        assert(x@[j as int] < 10);
        let ds = digit_str(x[j]);
        out.append(ds);
        proof {
            assert(out@ =~= with_int + seq!['.'] + Seq::new((s_us - j) as nat, |t: int| digit_char(
                x@[s_us - 1 - t] as nat,
            )));
        }
    }
    proof {
        lemma_frac_chars_of_digits(x@, scale as nat);
        assert(Seq::new(scale as nat, |t: int| digit_char(x@[s_us - 1 - t] as nat)) =~= Seq::new(
            scale as nat,
            |i: int| digit_char(x@[scale as nat - 1 - i] as nat),
        ));
        assert(out@ =~= spec_render(bits, scale as nat));
    }
    out
}

/// Negative amounts show one leading `-` and nothing else of a sign;
/// non-negative amounts show no sign at all.
pub proof fn lemma_sign_preservation(bits: u64, scale: nat)
    ensures
        sign_of(bits) ==> spec_render(bits, scale)[0] == '-',
        sign_of(bits) ==> forall|i: int| 1 <= i < spec_render(bits, scale).len()
            ==> spec_render(bits, scale)[i] != '-',
        !sign_of(bits) ==> forall|i: int| 0 <= i < spec_render(bits, scale).len()
            ==> spec_render(bits, scale)[i] != '-',
{
    let n = scaled_units(bits, scale);
    lemma_int_chars_digits(n / pow10(scale));
    lemma_frac_chars_digits(n, scale);
}

/// A rendering always carries one decimal point followed by exactly
/// `scale` digit characters, and nothing but digits elsewhere past an
/// optional leading sign: the fixed-fraction display invariant.
pub proof fn lemma_fixed_fraction(bits: u64, scale: nat)
    ensures
        spec_render(bits, scale).len() > scale + 1,
        spec_render(bits, scale)[spec_render(bits, scale).len() - scale - 1] == '.',
        forall|i: int| spec_render(bits, scale).len() - scale <= i < spec_render(bits, scale).len()
            ==> is_dec_digit(#[trigger] spec_render(bits, scale)[i]),
        forall|i: int| (if sign_of(bits) {
            1int
        } else {
            0int
        }) <= i < spec_render(bits, scale).len() && i != spec_render(bits, scale).len() - scale - 1
            ==> is_dec_digit(#[trigger] spec_render(bits, scale)[i]),
{
    let n = scaled_units(bits, scale);
    lemma_int_chars_digits(n / pow10(scale));
    lemma_frac_chars_digits(n, scale);
}

} // verus!
