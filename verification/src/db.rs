//! The microseconds-since-midnight integer encoding used by a SQL `TIME`
//! column. The database side itself is outside this crate: these functions
//! compute the signed 64-bit offset that the backend's native encoder takes,
//! and rebuild a value from a decoded offset.

use vstd::prelude::*;

use crate::WallClockTime;

verus! {

impl WallClockTime {
    /// The value as a signed count of microseconds since midnight, the wire
    /// encoding of a SQL `TIME` column.
    pub fn to_midnight_micros(&self) -> (r: i64)
        ensures
            r == self.spec_micros_since_midnight(),
            0 <= r < 86_400_000_000,
    {
        proof {
            use_type_invariant(&*self);
        }
        self.seconds as i64 * 1_000_000 + self.micros as i64
    }

    /// The wall-clock time at the given count of microseconds since
    /// midnight. An offset outside a day's range is a precondition
    /// violation: the stored offset of a `TIME` column is trusted to be in
    /// range.
    pub fn from_midnight_micros(offset: i64) -> (r: Self)
        requires
            0 <= offset < 86_400_000_000,
        ensures
            r@.seconds == offset / 1_000_000,
            r@.micros == offset % 1_000_000,
            r.spec_micros_since_midnight() == offset,
    {
        let seconds = (offset / 1_000_000) as u32;
        let micros = (offset % 1_000_000) as u32;
        Self::new_midnight_offset(seconds, micros)
    }
}

/// Law: the offset encoding is injective, so encoding a value and decoding
/// the offset yields an equal value.
pub proof fn lemma_offset_round_trip(a: WallClockTime, b: WallClockTime)
    requires
        a.wf(),
        b.wf(),
        a.spec_micros_since_midnight() == b.spec_micros_since_midnight(),
    ensures
        a == b,
{
    assert(a@.seconds == b@.seconds && a@.micros == b@.micros) by (nonlinear_arith)
        requires
            0 <= a@.micros < 1_000_000,
            0 <= b@.micros < 1_000_000,
            a@.seconds * 1_000_000 + a@.micros == b@.seconds * 1_000_000 + b@.micros,
    ;
}

} // verus!
