//! The Currency value type: construction, rounding policy, formatting.

use currency::Currency;

fn of(v: f64) -> Currency {
    Currency::from_bits(v.to_bits(), None)
}

fn at(v: f64, scale: u32) -> Currency {
    Currency::from_bits(v.to_bits(), Some(scale))
}

#[test]
fn default_scale_is_two_digits() {
    assert_eq!(of(1.0).render(), "1.00");
    assert_eq!(of(0.0).render(), "0.00");
    assert_eq!(of(1234.5).render(), "1234.50");
}

#[test]
fn rounds_half_away_from_zero() {
    // 0.125 is exact in binary: a true tie at scale two, rounded away
    // from zero, where round-half-to-even would give 0.12.
    assert_eq!(of(0.125).render(), "0.13");
    assert_eq!(of(-0.125).render(), "-0.13");
    assert_eq!(of(2.5).render(), "2.50");
    assert_eq!(at(2.5, 0).render(), "3.");
    assert_eq!(at(-2.5, 0).render(), "-3.");
}

#[test]
fn rounds_at_the_requested_scale() {
    assert_eq!(at(3950.123456, 6).render(), "3950.123456");
    assert_eq!(at(3950.123456, 3).render(), "3950.123");
    assert_eq!(at(1.5, 3).render(), "1.500");
    assert_eq!(at(1.5, 0).render(), "2.");
    assert_eq!(at(-123.456, 1).render(), "-123.5");
}

#[test]
fn sign_is_kept_and_single() {
    for v in [-0.001f64, -1.0, -99.995, -123.456] {
        let text = of(v).render();
        assert_eq!(&text[0..1], "-");
        assert_eq!(text.matches('-').count(), 1);
    }
    let text = of(1.25).render();
    assert_eq!(text.matches('-').count(), 0);
}

#[test]
fn negative_zero_keeps_its_sign_bit() {
    assert_eq!(of(-0.0).render(), "-0.00");
    assert_eq!(of(-0.001).render(), "-0.00");
}

#[test]
fn large_magnitudes_are_exact() {
    assert_eq!(of(1.0e20).render(), "100000000000000000000.00");
    // The exact decimal expansion of the largest finite double, checked
    // against the standard formatter, which prints the same expansion.
    assert_eq!(of(f64::MAX).render(), format!("{:.2}", f64::MAX));
    assert_eq!(at(1.0e300, 6).render(), format!("{:.6}", 1.0e300));
}

#[test]
fn tiny_magnitudes_round_to_zero() {
    assert_eq!(of(5.0e-324).render(), "0.00");
    assert_eq!(of(1.0e-300).render(), "0.00");
}

#[test]
fn agrees_with_standard_formatter_off_ties() {
    // The standard formatter rounds ties to even where this library rounds
    // them away from zero; off ties the two agree, so it serves as an
    // independent oracle for the exact expansion and the rounding position.
    let cases: Vec<(f64, u32)> = vec![
        (0.1, 2),
        (0.1, 30),
        (3.14159, 4),
        (123.456, 2),
        (1.0e-5, 8),
        (6.02214076e23, 2),
        (-2.718281828, 6),
        (0.3333333333333333, 10),
        (12340.56789, 2),
    ];
    for &(v, s) in cases.iter() {
        let c = Currency::from_bits(v.to_bits(), Some(s));
        assert_eq!(c.render(), format!("{:.*}", s as usize, v), "value {} at scale {}", v, s);
    }
}

#[test]
fn equality_is_by_value_and_scale() {
    assert_eq!(of(1.0), of(1.0));
    assert_ne!(of(1.0), of(2.0));
    assert_ne!(of(1.0), at(1.0, 3));
    // Distinct encodings of the same display differ as values.
    assert_ne!(of(0.0), of(-0.0));
}

#[test]
fn construction_keeps_the_encoding() {
    let v = 12340.56789f64;
    let c = of(v);
    assert_eq!(c.bits, v.to_bits());
    assert_eq!(c.scale, 2);
    assert_eq!(at(v, 6).scale, 6);
}
