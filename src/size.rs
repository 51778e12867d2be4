//! Sizes given with a unit, and their value in bytes.

use vstd::prelude::*;

verus! {

/// The unit in which a size is given.
#[derive(Clone, Copy, Debug, PartialEq, Eq, Structural)]
pub enum Unit {
    Byte,
    Kilobyte,
    Megabyte,
    Gigabyte,
    Terabyte,
}

/// A size as the user wrote it: a magnitude and the unit it is counted in.
#[derive(Clone, Copy, Debug, PartialEq, Eq, Structural)]
pub struct Size {
    pub size: u64,
    pub unit: Unit,
}

/// Why a size could not be built from the unit flags.
#[derive(Clone, Copy, Debug, PartialEq, Eq, Structural)]
pub enum SizeError {
    /// More than one unit flag was set.
    ConflictingUnits,
}

/// Number of bytes in one unit: a power of 1024.
pub open spec fn unit_bytes(unit: Unit) -> nat {
    match unit {
        Unit::Byte => 1,
        Unit::Kilobyte => 1024,
        Unit::Megabyte => 1024 * 1024,
        Unit::Gigabyte => 1024 * 1024 * 1024,
        Unit::Terabyte => 1024 * 1024 * 1024 * 1024,
    }
}

/// The exact number of bytes that a size stands for.
pub open spec fn exact_bytes(s: Size) -> nat {
    s.size as nat * unit_bytes(s.unit)
}

/// The byte count of a size, saturated at the largest `u64`.
pub open spec fn byte_count(s: Size) -> u64 {
    if exact_bytes(s) <= u64::MAX {
        exact_bytes(s) as u64
    } else {
        u64::MAX
    }
}

/// How many of the unit flags are set.
pub open spec fn flags_set(kb: bool, mb: bool, gb: bool, tb: bool) -> nat {
    (if kb { 1nat } else { 0nat }) + (if mb { 1nat } else { 0nat }) + (if gb { 1nat } else { 0nat })
        + (if tb { 1nat } else { 0nat })
}

/// The unit that a set of at most one flag selects; no flag means bytes.
pub open spec fn unit_of_flags(kb: bool, mb: bool, gb: bool, tb: bool) -> Unit {
    if kb {
        Unit::Kilobyte
    } else if mb {
        Unit::Megabyte
    } else if gb {
        Unit::Gigabyte
    } else if tb {
        Unit::Terabyte
    } else {
        Unit::Byte
    }
}

impl Unit {
    /// Number of bytes in one unit.
    pub fn bytes(&self) -> (r: u64)
        ensures
            r as nat == unit_bytes(*self),
    {
        match self {
            Unit::Byte => 1,
            Unit::Kilobyte => 1024,
            Unit::Megabyte => 1024 * 1024,
            Unit::Gigabyte => 1024 * 1024 * 1024,
            Unit::Terabyte => 1024 * 1024 * 1024 * 1024,
        }
    }
}

impl Size {
    /// Builds a size from a magnitude and the unit flags. The flags exclude
    /// each other: with none set the size is in bytes, with two or more it
    /// is refused.
    pub fn from(size: u64, kb: bool, mb: bool, gb: bool, tb: bool) -> (r: Result<Size, SizeError>)
        ensures
            flags_set(kb, mb, gb, tb) <= 1 ==> r == Ok::<Size, SizeError>(
                Size { size, unit: unit_of_flags(kb, mb, gb, tb) },
            ),
            flags_set(kb, mb, gb, tb) > 1 ==> r == Err::<Size, SizeError>(
                SizeError::ConflictingUnits,
            ),
    {
        let count: u8 = (kb as u8) + (mb as u8) + (gb as u8) + (tb as u8);
        if count > 1 {
            return Err(SizeError::ConflictingUnits);
        }
        let unit = if kb {
            Unit::Kilobyte
        } else if mb {
            Unit::Megabyte
        } else if gb {
            Unit::Gigabyte
        } else if tb {
            Unit::Terabyte
        } else {
            Unit::Byte
        };
        Ok(Size { size, unit })
    }

    /// The size in bytes: the magnitude times a power of 1024, or the
    /// largest `u64` where that product does not fit.
    pub fn convert(&self) -> (r: u64)
        ensures
            r == byte_count(*self),
    {
        match self.size.checked_mul(self.unit.bytes()) {
            Some(n) => n,
            None => u64::MAX,
        }
    }
}

/// Converting a size is a function of the size alone: equal sizes give
/// equal byte counts, however often the conversion runs.
pub proof fn lemma_convert_deterministic(a: Size, b: Size)
    requires
        a == b,
    ensures
        byte_count(a) == byte_count(b),
{
}

} // verus!
