//! Exact arithmetic on little-endian decimal digit vectors.
//!
//! A magnitude is held as a vector of decimal digits, least significant
//! first.  The operations here — building the digits of a machine word,
//! multiplying by a small constant, shifting the decimal point, adding one,
//! padding with high zeros — are what the rendering of a Currency needs to
//! scale an encoded magnitude by powers of two, five and ten exactly.

use vstd::prelude::*;
use vstd::arithmetic::div_mod::{lemma_fundamental_div_mod, lemma_fundamental_div_mod_converse};

verus! {

/// Every element is a decimal digit.
pub open spec fn digits_ok(s: Seq<u8>) -> bool {
    forall|i: int| 0 <= i < s.len() ==> s[i] < 10
}

/// The natural number a little-endian digit sequence denotes.
pub open spec fn digits_val(s: Seq<u8>) -> nat
    decreases s.len(),
{
    if s.len() == 0 {
        0
    } else {
        s[0] as nat + 10 * digits_val(s.drop_first())
    }
}

pub open spec fn pow10(n: nat) -> nat
    decreases n,
{
    if n == 0 {
        1
    } else {
        10 * pow10((n - 1) as nat)
    }
}

pub open spec fn pow2(n: nat) -> nat
    decreases n,
{
    if n == 0 {
        1
    } else {
        2 * pow2((n - 1) as nat)
    }
}

pub open spec fn pow5(n: nat) -> nat
    decreases n,
{
    if n == 0 {
        1
    } else {
        5 * pow5((n - 1) as nat)
    }
}

pub proof fn lemma_pow10_pos(n: nat)
    ensures
        pow10(n) >= 1,
    decreases n,
{
    if n > 0 {
        lemma_pow10_pos((n - 1) as nat);
    }
}

pub proof fn lemma_pow2_pos(n: nat)
    ensures
        pow2(n) >= 1,
    decreases n,
{
    if n > 0 {
        lemma_pow2_pos((n - 1) as nat);
    }
}

pub proof fn lemma_pow10_adds(a: nat, b: nat)
    ensures
        pow10(a + b) == pow10(a) * pow10(b),
    decreases a,
{
    if a == 0 {
    } else {
        lemma_pow10_adds((a - 1) as nat, b);
        assert(pow10((a + b - 1) as nat) == pow10((a - 1) as nat) * pow10(b));
        assert(10 * (pow10((a - 1) as nat) * pow10(b)) == (10 * pow10((a - 1) as nat)) * pow10(b))
            by (nonlinear_arith);
    }
}

/// Ten to a power splits into the matching powers of two and five.
pub proof fn lemma_pow10_factors(n: nat)
    ensures
        pow10(n) == pow2(n) * pow5(n),
    decreases n,
{
    if n == 0 {
        assert(pow2(n) * pow5(n) == 1) by (nonlinear_arith)
            requires
                pow2(n) == 1,
                pow5(n) == 1,
        ;
    } else {
        lemma_pow10_factors((n - 1) as nat);
        let p2 = pow2((n - 1) as nat);
        let p5 = pow5((n - 1) as nat);
        assert(pow10((n - 1) as nat) == p2 * p5);
        assert(pow10(n) == 10 * (p2 * p5));
        assert(pow2(n) == 2 * p2);
        assert(pow5(n) == 5 * p5);
        assert(10 * (p2 * p5) == (2 * p2) * (5 * p5)) by (nonlinear_arith);
        assert(pow10(n) == pow2(n) * pow5(n));
    }
}

/// A digit sequence splits at any position: low digits plus the high
/// digits weighted by the matching power of ten.
pub proof fn lemma_val_split(s: Seq<u8>, k: int)
    requires
        0 <= k <= s.len(),
    ensures
        digits_val(s) == digits_val(s.take(k)) + pow10(k as nat) * digits_val(s.skip(k)),
    decreases k,
{
    if k == 0 {
        assert(s.take(0) =~= Seq::<u8>::empty());
        assert(s.skip(0) =~= s);
        let b = digits_val(s.skip(0));
        assert(pow10(0) * b == b) by (nonlinear_arith)
            requires
                pow10(0) == 1,
        ;
    } else {
        let dt = s.drop_first();
        lemma_val_split(dt, k - 1);
        assert(s.take(k).drop_first() =~= dt.take(k - 1));
        assert(s.skip(k) =~= dt.skip(k - 1));
        let a = digits_val(dt.take(k - 1));
        let b = digits_val(dt.skip(k - 1));
        let p = pow10((k - 1) as nat);
        assert(digits_val(dt) == a + p * b);
        assert(digits_val(s) == s[0] + 10 * (a + p * b));
        assert(s.take(k).len() == k);
        assert(s.take(k)[0] == s[0]);
        assert(digits_val(s.take(k)) == s[0] + 10 * a);
        assert(pow10(k as nat) == 10 * p);
        assert(10 * (a + p * b) == 10 * a + (10 * p) * b) by (nonlinear_arith);
    }
}

pub proof fn lemma_val_concat(a: Seq<u8>, b: Seq<u8>)
    ensures
        digits_val(a + b) == digits_val(a) + pow10(a.len()) * digits_val(b),
{
    lemma_val_split(a + b, a.len() as int);
    assert((a + b).take(a.len() as int) =~= a);
    assert((a + b).skip(a.len() as int) =~= b);
}

pub proof fn lemma_val_push(s: Seq<u8>, d: u8)
    ensures
        digits_val(s.push(d)) == digits_val(s) + pow10(s.len()) * d,
{
    lemma_val_concat(s, seq![d]);
    assert(s + seq![d] =~= s.push(d));
    assert(seq![d].drop_first() =~= Seq::<u8>::empty());
    assert(digits_val(Seq::<u8>::empty()) == 0);
    assert(seq![d].len() == 1 && seq![d][0] == d);
    assert(digits_val(seq![d]) == d);
}

/// A sequence of digits stays under the power of ten of its length.
pub proof fn lemma_val_bound(s: Seq<u8>)
    requires
        digits_ok(s),
    ensures
        digits_val(s) < pow10(s.len()),
    decreases s.len(),
{
    if s.len() == 0 {
    } else {
        let dt = s.drop_first();
        assert(digits_ok(dt));
        lemma_val_bound(dt);
    }
}

/// A nonzero top digit puts the value at or above the power of ten below it.
pub proof fn lemma_val_lower(s: Seq<u8>)
    requires
        digits_ok(s),
        s.len() > 0,
        s.last() != 0,
    ensures
        digits_val(s) >= pow10((s.len() - 1) as nat),
    decreases s.len(),
{
    if s.len() == 1 {
    } else {
        let dt = s.drop_first();
        assert(digits_ok(dt));
        assert(dt.last() == s.last());
        lemma_val_lower(dt);
    }
}

pub proof fn lemma_val_all_zero(s: Seq<u8>)
    requires
        forall|i: int| 0 <= i < s.len() ==> s[i] == 0,
    ensures
        digits_val(s) == 0,
    decreases s.len(),
{
    if s.len() > 0 {
        let dt = s.drop_first();
        lemma_val_all_zero(dt);
    }
}

/// Zeros above position `m` do not change the value.
pub proof fn lemma_val_high_zeros(s: Seq<u8>, m: int)
    requires
        0 <= m <= s.len(),
        forall|j: int| m <= j < s.len() ==> s[j] == 0,
    ensures
        digits_val(s) == digits_val(s.take(m)),
{
    lemma_val_split(s, m);
    lemma_val_all_zero(s.skip(m));
    let p = pow10(m as nat);
    assert(p * digits_val(s.skip(m)) == 0) by (nonlinear_arith)
        requires
            digits_val(s.skip(m)) == 0,
    ;
}

/// The decimal digits of a machine word, least significant first.
pub fn digits_from_u64(m: u64) -> (r: Vec<u8>)
    ensures
        digits_ok(r@),
        digits_val(r@) == m,
{
    let mut r: Vec<u8> = Vec::new();
    let mut x: u64 = m;
    proof {
        assert(pow10(0) * (x as nat) == x as nat) by (nonlinear_arith)
            requires
                pow10(0) == 1,
        ;
    }
    while x > 0
        invariant
            digits_ok(r@),
            digits_val(r@) + pow10(r@.len()) * (x as nat) == m as nat,
        decreases x,
    {
        let d: u8 = (x % 10) as u8;
        proof {
            lemma_val_push(r@, d);
            lemma_fundamental_div_mod(x as int, 10);
            let p = pow10(r@.len());
            let q = (x / 10) as nat;
            assert(p * (d as nat + 10 * q) == p * (d as nat) + (10 * p) * q) by (nonlinear_arith);
        }
        r.push(d);
        x = x / 10;
    }
    proof {
        let p = pow10(r@.len());
        assert(p * (x as nat) == 0) by (nonlinear_arith)
            requires
                x == 0,
        ;
    }
    r
}

/// Multiplies the digits by a constant of at most ten, exactly.
pub fn mul_digit(x: &Vec<u8>, c: u8) -> (r: Vec<u8>)
    requires
        digits_ok(x@),
        1 <= c <= 10,
    ensures
        digits_ok(r@),
        digits_val(r@) == c * digits_val(x@),
{
    let mut r: Vec<u8> = Vec::new();
    let mut carry: u8 = 0;
    let mut i: usize = 0;
    proof {
        assert(x@.take(0) =~= Seq::<u8>::empty());
        assert(pow10(0) * (carry as nat) == 0) by (nonlinear_arith)
            requires
                carry == 0,
                pow10(0) == 1,
        ;
        assert((c as nat) * digits_val(Seq::<u8>::empty()) == 0) by (nonlinear_arith)
            requires
                digits_val(Seq::<u8>::empty()) == 0,
        ;
    }
    while i < x.len()
        invariant
            digits_ok(x@),
            1 <= c <= 10,
            i <= x.len(),
            carry <= 9,
            digits_ok(r@),
            r@.len() == i,
            digits_val(r@) + pow10(i as nat) * (carry as nat) == c * digits_val(x@.take(i as int)),
        decreases x.len() - i,
    {
        assert(x@[i as int] < 10);
        assert(x@[i as int] * c <= 90) by (nonlinear_arith)
            requires
                x@[i as int] < 10,
                c <= 10,
        ;
        let d: u8 = x[i] * c + carry;
        let dm: u8 = d % 10;
        let dd: u8 = d / 10;
        proof {
            lemma_val_push(r@, dm);
            lemma_fundamental_div_mod(d as int, 10);
            assert(x@.take(i + 1) =~= x@.take(i as int).push(x@[i as int]));
            lemma_val_push(x@.take(i as int), x@[i as int]);
            let p = pow10(i as nat);
            let vr = digits_val(r@);
            let vt = digits_val(x@.take(i as int));
            let xi = x@[i as int] as nat;
            assert(vr + p * (dm as nat) + (10 * p) * (dd as nat) == (c as nat) * (vt + p * xi))
                by (nonlinear_arith)
                requires
                    vr + p * (carry as nat) == (c as nat) * vt,
                    d as nat == xi * (c as nat) + carry as nat,
                    dm as nat + 10 * (dd as nat) == d as nat,
            ;
        }
        r.push(dm);
        carry = dd;
        i += 1;
    }
    assert(x@.take(x@.len() as int) =~= x@);
    if carry > 0 {
        proof {
            lemma_val_push(r@, carry);
        }
        r.push(carry);
    } else {
        proof {
            let p = pow10(r@.len());
            assert(p * (carry as nat) == 0) by (nonlinear_arith)
                requires
                    carry == 0,
            ;
        }
    }
    r
}

/// Multiplies the digits by ten to the given power: prepends low zeros.
pub fn shift_digits(x: Vec<u8>, t: usize) -> (r: Vec<u8>)
    requires
        digits_ok(x@),
    ensures
        digits_ok(r@),
        digits_val(r@) == pow10(t as nat) * digits_val(x@),
{
    let mut v = x;
    let ghost v0 = v@;
    let mut i: usize = 0;
    proof {
        assert(pow10(0) * digits_val(v0) == digits_val(v0)) by (nonlinear_arith)
            requires
                pow10(0) == 1,
        ;
    }
    while i < t
        invariant
            i <= t,
            digits_ok(v@),
            digits_val(v@) == pow10(i as nat) * digits_val(v0),
        decreases t - i,
    {
        proof {
            assert(v@.insert(0, 0u8).drop_first() =~= v@);
            let p = pow10(i as nat);
            let w = digits_val(v0);
            assert(10 * (p * w) == (10 * p) * w) by (nonlinear_arith);
        }
        v.insert(0, 0);
        i += 1;
    }
    v
}

/// Adds one to the digits.
pub fn inc_digits(x: Vec<u8>) -> (r: Vec<u8>)
    requires
        digits_ok(x@),
    ensures
        digits_ok(r@),
        digits_val(r@) == digits_val(x@) + 1,
{
    let mut v = x;
    let ghost v0 = v@;
    let mut i: usize = 0;
    while i < v.len()
        invariant
            v0 == x@,
            i <= v@.len(),
            v@.len() == v0.len(),
            digits_ok(v@),
            digits_val(v@) + pow10(i as nat) == digits_val(v0) + 1,
        decreases v@.len() - i,
    {
        let ghost before = v@;
        if v[i] == 9 {
            v.set(i, 0);
            proof {
                lemma_val_update_digit(before, i as int, 0);
            }
            i += 1;
        } else {
            let d = v[i] + 1;
            v.set(i, d);
            proof {
                lemma_val_update_digit(before, i as int, d);
                let p = pow10(i as nat);
                assert(p * (d as nat) == p * (before[i as int] as nat) + p) by (nonlinear_arith)
                    requires
                        d as nat == before[i as int] as nat + 1,
                ;
            }
            return v;
        }
    }
    proof {
        lemma_val_push(v@, 1);
    }
    v.push(1);
    v
}

/// Replacing one digit shifts the value by the weighted difference.
proof fn lemma_val_update_digit(s: Seq<u8>, i: int, d: u8)
    requires
        0 <= i < s.len(),
    ensures
        digits_val(s.update(i, d)) + pow10(i as nat) * (s[i] as nat) == digits_val(s) + pow10(
            i as nat,
        ) * (d as nat),
{
    let t = s.update(i, d);
    lemma_val_split(s, i);
    lemma_val_split(t, i);
    assert(t.take(i) =~= s.take(i));
    assert(t.skip(i).drop_first() =~= s.skip(i).drop_first());
    assert(t.skip(i)[0] == d);
    assert(s.skip(i)[0] == s[i]);
    let p = pow10(i as nat);
    let w = digits_val(s.skip(i).drop_first());
    assert(p * (d as nat + 10 * w) + p * (s[i] as nat) == p * (s[i] as nat + 10 * w) + p * (
    d as nat)) by (nonlinear_arith);
}

/// Appends high zeros until the digits reach the wanted length.
pub fn pad_digits(x: Vec<u8>, n: usize) -> (r: Vec<u8>)
    requires
        digits_ok(x@),
    ensures
        digits_ok(r@),
        digits_val(r@) == digits_val(x@),
        r@.len() >= n,
{
    let mut v = x;
    while v.len() < n
        invariant
            digits_ok(v@),
            digits_val(v@) == digits_val(x@),
        decreases n - v@.len(),
    {
        proof {
            lemma_val_push(v@, 0);
            let p = pow10(v@.len());
            assert(p * (0 as nat) == 0) by (nonlinear_arith);
        }
        v.push(0);
    }
    v
}

/// The digits from position `from` up, as their own vector.
pub fn tail_digits(x: &Vec<u8>, from: usize) -> (r: Vec<u8>)
    requires
        digits_ok(x@),
        from <= x@.len(),
    ensures
        digits_ok(r@),
        r@ == x@.skip(from as int),
{
    let mut r: Vec<u8> = Vec::new();
    let mut i: usize = from;
    while i < x.len()
        invariant
            digits_ok(x@),
            from <= i <= x@.len(),
            r@ =~= x@.subrange(from as int, i as int),
        decreases x@.len() - i,
    {
        r.push(x[i]);
        i += 1;
    }
    assert(r@ =~= x@.skip(from as int));
    r
}

} // verus!
