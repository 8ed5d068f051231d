//! The storage adapter: the conversion pair between a Currency and the
//! engine's native double-precision column value.
//!
//! Writing hands the engine the stored magnitude's 64-bit encoding
//! unchanged — no rounding happens on write, only on display.  Reading
//! rebuilds a Currency from the column's encoding at the default scale,
//! and a SQL NULL column yields no value at all.  Both directions are
//! total and side-effect free; engine-level I/O failures stay with the
//! engine's own calling code.

use vstd::prelude::*;
use crate::{Currency, DEFAULT_SCALE};

verus! {

/// The column value stored for a Currency: its magnitude's encoding,
/// unchanged.
pub open spec fn spec_to_storage(c: Currency) -> u64 {
    c.bits
}

/// The Currency read back from a column value: the encoding unchanged,
/// at the default scale.
pub open spec fn spec_from_storage(bits: u64) -> Currency {
    Currency { bits, scale: DEFAULT_SCALE }
}

/// The Currency read back from a nullable column: SQL NULL (`None`)
/// yields no value, a present value decodes as `spec_from_storage`.
pub open spec fn spec_from_nullable(v: Option<u64>) -> Option<Currency> {
    match v {
        Some(bits) => Some(spec_from_storage(bits)),
        None => None,
    }
}

/// Emits the engine's native 64-bit floating column encoding of the
/// Currency's magnitude, unchanged.  Never fails.
pub fn to_storage(c: &Currency) -> (r: u64)
    ensures
        r == spec_to_storage(*c),
{
    c.bits
}

/// Rebuilds a Currency from a column's 64-bit floating encoding, always
/// at the default scale.  Never fails.
pub fn from_storage(bits: u64) -> (r: Currency)
    ensures
        r == spec_from_storage(bits),
{
    Currency { bits, scale: DEFAULT_SCALE }
}

/// Decodes a nullable column: a SQL NULL yields `None` — no Currency is
/// built and no error is raised — and a present value decodes at the
/// default scale.
pub fn from_nullable_storage(v: Option<u64>) -> (r: Option<Currency>)
    ensures
        r == spec_from_nullable(v),
        v is None <==> r is None,
{
    match v {
        Some(bits) => Some(from_storage(bits)),
        None => None,
    }
}

/// Round-trip idempotence: storing a Currency and decoding the stored
/// column value preserves the encoded magnitude bit for bit, whatever
/// the encoding holds.
pub proof fn lemma_round_trip(c: Currency)
    ensures
        spec_from_storage(spec_to_storage(c)).bits == c.bits,
{
}

/// Insert/select equality: a Currency built at the default scale is read
/// back equal — by value and scale — to the one stored.
pub proof fn lemma_insert_select(c: Currency)
    requires
        c.scale == DEFAULT_SCALE,
    ensures
        spec_from_storage(spec_to_storage(c)) == c,
{
}

} // verus!
