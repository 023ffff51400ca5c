//! Time and memory quantities, held as whole nanoseconds and bytes, and display units.
use vstd::prelude::*;

verus! {

/// A span of time, in whole nanoseconds.
#[derive(Clone, Copy, Debug, PartialEq, Eq, Structural)]
pub struct Second {
    pub nanos: u64,
}

impl Second {
    pub fn from_nanos(nanos: u64) -> (r: Second)
        ensures
            r.nanos == nanos,
    {
        Second { nanos }
    }

    pub fn zero() -> (r: Second)
        ensures
            r.nanos == 0,
    {
        Second { nanos: 0 }
    }
}

/// An amount of memory, in bytes.
#[derive(Clone, Copy, Debug, PartialEq, Eq, Structural)]
pub struct Byte {
    pub bytes: u64,
}

impl Byte {
    pub fn new(bytes: u64) -> (r: Byte)
        ensures
            r.bytes == bytes,
    {
        Byte { bytes }
    }
}

/// The unit in which a report shows times.
#[derive(Clone, Copy, Debug, PartialEq, Eq, Structural)]
pub enum Unit {
    Second,
    MilliSecond,
}

/// Nanoseconds in one unit.
pub open spec fn nanos_per(unit: Unit) -> nat {
    match unit {
        Unit::Second => 1_000_000_000,
        Unit::MilliSecond => 1_000_000,
    }
}

pub open spec fn unit_label(unit: Unit) -> Seq<char> {
    match unit {
        Unit::Second => seq!['s'],
        Unit::MilliSecond => seq!['m', 's'],
    }
}

impl Unit {
    /// The unit's short name, as it stands in a column header.
    pub fn short_name(&self) -> (r: &'static str)
        ensures
            r@ == unit_label(*self),
    {
        proof {
            reveal_strlit("s");
            reveal_strlit("ms");
        }
        match self {
            Unit::Second => "s",
            Unit::MilliSecond => "ms",
        }
    }
}

} // verus!
