//! The thermometer emulator's side of the telemetry stream.
use vstd::prelude::*;
use crate::decimal::{fixed2_text, format_fixed2};

verus! {

/// Readings are drawn from `[0, READING_SPAN)` hundredths of a degree.
pub const READING_SPAN: i64 = 3000;

/// Relies on `rand::Rng::gen_range` over `rand::thread_rng()`: a value of the half-open range
/// `low..high`, which must not be empty.
#[verifier::external_body]
fn random_in(low: i64, high: i64) -> (r: i64)
    requires
        low < high,
    ensures
        low <= r < high,
{
    rand::Rng::gen_range(&mut rand::thread_rng(), low..high)
}

/// The datagram that carries a reading: its decimal text with two fraction digits.
pub fn telemetry_payload(reading: i64) -> (r: Vec<u8>)
    ensures
        r@ == fixed2_text(reading as int),
{
    format_fixed2(reading)
}

/// A fresh synthetic reading and the datagram that carries it.
pub fn next_telemetry() -> (r: (i64, Vec<u8>))
    ensures
        0 <= r.0 < READING_SPAN,
        r.1@ == fixed2_text(r.0 as int),
{
    let reading = random_in(0, READING_SPAN);
    (reading, telemetry_payload(reading))
}

} // verus!
