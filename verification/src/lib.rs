//! A monetary value type ("Currency") together with its conversion to and
//! from the 64-bit floating-point column encoding of a relational store.
//!
//! The store keeps a Currency's magnitude as a native double-precision
//! column value; this crate works on that value's 64-bit encoding directly,
//! as a plain integer.  A Currency carries the encoding unchanged together
//! with a rounding scale; its textual rendering rounds the encoded
//! magnitude half away from zero at the scale and always shows exactly
//! `scale` fractional digits.  The rendering is computed — and proved
//! correct — in exact integer arithmetic over the encoding's mantissa and
//! binary exponent.  Non-finite encodings are not rejected: every 64-bit
//! pattern is carried through unchanged and rendered by the same
//! mantissa-and-exponent rule.

mod digits;
mod render;
mod storage;

pub use digits::{pow10, pow2, pow5};
pub use render::{
    spec_render, scaled_units, sign_of, exp_field, frac_field, mantissa_of, bin_exp_of,
    round_half_up, digit_char, int_chars, frac_chars, is_dec_digit, render_bits,
    lemma_sign_preservation, lemma_fixed_fraction,
};
pub use storage::{
    spec_to_storage, spec_from_storage, spec_from_nullable, to_storage, from_storage,
    from_nullable_storage, lemma_round_trip, lemma_insert_select,
};

use vstd::prelude::*;

verus! {

/// The rounding scale used when a Currency is built without one:
/// two fractional digits.
pub const DEFAULT_SCALE: u32 = 2;

/// A monetary amount.
///
/// `bits` is the 64-bit (IEEE 754 binary64) column encoding of the stored
/// magnitude, kept unchanged from construction to storage; `scale` is the
/// number of fractional digits used to round and display the amount.  Two
/// Currency values are equal exactly when both fields are equal.
#[derive(Clone, Copy, Debug, PartialEq, Eq, Structural)]
pub struct Currency {
    /// 64-bit encoding of the stored magnitude.
    pub bits: u64,
    /// Number of fractional digits shown by `render`.
    pub scale: u32,
}

impl Currency {
    /// Builds a Currency from the 64-bit encoding of its magnitude and an
    /// optional rounding scale; without one, the default scale is used.
    /// Construction never fails and applies no rounding.
    pub fn from_bits(bits: u64, scale: Option<u32>) -> (r: Currency)
        ensures
            r.bits == bits,
            r.scale == (match scale {
                Some(s) => s,
                None => DEFAULT_SCALE,
            }),
    {
        match scale {
            Some(s) => Currency { bits, scale: s },
            None => Currency { bits, scale: DEFAULT_SCALE },
        }
    }

    /// The canonical textual form of the amount: an optional leading `-`,
    /// the integer digits, a decimal point, and exactly `scale` fractional
    /// digits, the magnitude rounded half away from zero at the scale.
    pub fn render(&self) -> (r: String)
        ensures
            r@ == spec_render(self.bits, self.scale as nat),
    {
        render_bits(self.bits, self.scale)
    }
}

} // verus!
