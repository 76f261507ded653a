//! The two time coordinates of a timeline: item identifiers that carry a
//! millisecond timestamp in their upper bits, and seconds since the Unix
//! epoch; and the conversions between them.

use vstd::prelude::*;
use vstd::std_specs::convert::FromSpecImpl;
use crate::coordinate::TimeCoordinate;

verus! {

/// The moment, in milliseconds since the Unix epoch, from which the
/// timestamps inside identifiers are counted.
pub const TWEPOCH_MILLIS: u64 = 1288834974657;

/// A time in whole seconds since the Unix epoch.
#[derive(Copy, Clone, Debug, Eq, Ord, PartialOrd, PartialEq)]
pub struct SecondsSinceUnixEpoch(pub u64);

/// An item identifier: the upper 42 bits count the milliseconds since
/// [`TWEPOCH_MILLIS`], the lower 22 bits tell apart items of one
/// millisecond.
#[derive(Copy, Clone, Debug, Eq, Ord, PartialOrd, PartialEq)]
pub struct Snowflake(pub u64);

/// The identifier at which the second `seconds` begins. The arithmetic
/// wraps around at 64 bits.
pub open spec fn id_of_seconds(seconds: u64) -> u64 {
    seconds.wrapping_mul(1000).wrapping_sub(TWEPOCH_MILLIS) << 22
}

/// The second in which the identifier `id` lies.
pub open spec fn seconds_of_id(id: u64) -> u64 {
    (((id >> 22) + TWEPOCH_MILLIS) / 1000) as u64
}

/// The seconds whose identifier holds their timestamp in full: those from
/// [`TWEPOCH_MILLIS`] on whose milliseconds since then fit in 42 bits.
pub open spec fn representable(seconds: u64) -> bool {
    TWEPOCH_MILLIS <= seconds * 1000 < TWEPOCH_MILLIS + 0x400_0000_0000
}

impl From<SecondsSinceUnixEpoch> for Snowflake {
    /// The identifier at which the second begins.
    fn from(epoch: SecondsSinceUnixEpoch) -> (r: Snowflake)
        ensures
            r.0 == id_of_seconds(epoch.0),
    {
        Snowflake(epoch.0.wrapping_mul(1000).wrapping_sub(TWEPOCH_MILLIS) << 22)
    }
}

impl FromSpecImpl<SecondsSinceUnixEpoch> for Snowflake {
    open spec fn obeys_from_spec() -> bool {
        true
    }

    open spec fn from_spec(epoch: SecondsSinceUnixEpoch) -> Snowflake {
        Snowflake(id_of_seconds(epoch.0))
    }
}

impl From<Snowflake> for SecondsSinceUnixEpoch {
    /// The second in which the identifier lies.
    fn from(epoch: Snowflake) -> (r: SecondsSinceUnixEpoch)
        ensures
            r.0 == seconds_of_id(epoch.0),
    {
        let id = epoch.0;
        let millis = id >> 22;
        assert(millis <= 0x3ff_ffff_ffff) by (bit_vector)
            requires
                millis == id >> 22,
        ;
        SecondsSinceUnixEpoch((millis + TWEPOCH_MILLIS) / 1000)
    }
}

impl FromSpecImpl<Snowflake> for SecondsSinceUnixEpoch {
    open spec fn obeys_from_spec() -> bool {
        true
    }

    open spec fn from_spec(epoch: Snowflake) -> SecondsSinceUnixEpoch {
        SecondsSinceUnixEpoch(seconds_of_id(epoch.0))
    }
}

impl TimeCoordinate for Snowflake {
    open spec fn position(self) -> int {
        self.0 as int
    }

    proof fn position_is_injective(a: Self, b: Self) {
    }

    fn before(&self, other: &Self) -> (r: bool) {
        self.0 < other.0
    }
}

impl TimeCoordinate for SecondsSinceUnixEpoch {
    open spec fn position(self) -> int {
        self.0 as int
    }

    proof fn position_is_injective(a: Self, b: Self) {
    }

    fn before(&self, other: &Self) -> (r: bool) {
        self.0 < other.0
    }
}

/// The second in which an identifier lies never exceeds this bound.
pub proof fn law_seconds_are_bounded(id: u64)
    ensures
        seconds_of_id(id) <= 5686881485,
{
    let millis = id >> 22;
    assert(millis <= 0x3ff_ffff_ffff) by (bit_vector)
        requires
            millis == id >> 22,
    ;
}

/// Converting a representable second to an identifier and back gives the
/// same second.
pub proof fn law_seconds_round_trip(seconds: u64)
    requires
        representable(seconds),
    ensures
        seconds_of_id(id_of_seconds(seconds)) == seconds,
{
    let millis: u64 = (seconds * 1000 - TWEPOCH_MILLIS) as u64;
    assert(seconds.wrapping_mul(1000) == seconds * 1000);
    assert(seconds.wrapping_mul(1000).wrapping_sub(TWEPOCH_MILLIS) == millis);
    let id = millis << 22;
    assert(id >> 22 == millis) by (bit_vector)
        requires
            id == millis << 22,
            millis < 0x400_0000_0000,
    ;
}

/// A later identifier does not lie in an earlier second.
pub proof fn law_seconds_follow_ids(a: u64, b: u64)
    requires
        a <= b,
    ensures
        seconds_of_id(a) <= seconds_of_id(b),
{
    let x = a >> 22;
    let y = b >> 22;
    assert(x <= y && y <= 0x3ff_ffff_ffff) by (bit_vector)
        requires
            a <= b,
            x == a >> 22,
            y == b >> 22,
    ;
}

} // verus!
