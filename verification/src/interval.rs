//! Interval normalization.
//!
//! Hosts hand intervals over as a months/days/microseconds triple.  Only
//! intervals expressible as an exact number of microseconds are accepted:
//! months vary in length (28 to 31 days), so a non-zero month count is
//! rejected, as is any arithmetic overflow of the conversion.

use vstd::prelude::*;

verus! {

/// Microseconds per second.
pub const MICROS_PER_SECOND: i64 = 1_000_000;

/// Microseconds per day.
pub const MICROS_PER_DAY: i64 = 86_400_000_000;

/// Converts a months/days/microseconds interval to microseconds.
///
/// Returns the exact value `days * 86_400_000_000 + micros` when `months` is
/// zero and both the day part and the sum fit in an `i64`, and nothing
/// otherwise.
pub fn interval_to_micros(months: i32, days: i32, micros: i64) -> (r: Option<i64>)
    ensures
        r is Some <==> (months == 0 && i64::MIN <= days * 86_400_000_000 <= i64::MAX && i64::MIN
            <= days * 86_400_000_000 + micros <= i64::MAX),
        r is Some ==> r->0 == days * 86_400_000_000 + micros,
{
    if months != 0 {
        return None;
    }
    proof {
        assert((days as int) * (86_400_000_000 as int) <= 0x8000_0000i128 * 86_400_000_000i128
            && (days as int) * (86_400_000_000 as int) >= -0x8000_0000i128 * 86_400_000_000i128)
            by (nonlinear_arith)
            requires
                -0x8000_0000 <= days as int <= 0x7fff_ffff,
        ;
    }
    let day_micros = (days as i128) * (MICROS_PER_DAY as i128);
    if day_micros < (i64::MIN as i128) || day_micros > (i64::MAX as i128) {
        return None;
    }
    let total = day_micros + (micros as i128);
    if total < (i64::MIN as i128) || total > (i64::MAX as i128) {
        return None;
    }
    Some(total as i64)
}

} // verus!
