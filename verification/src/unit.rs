//! The closed set of recognized byte-size units, with each unit's divisor
//! (how many bytes one unit stands for) and its canonical display symbol.

use vstd::prelude::*;

verus! {

/// One byte.
pub const B: u64 = 1;

/// Bytes in one kilobyte (decimal, base 1000).
pub const KB: u64 = 1_000;

/// Bytes in one megabyte.
pub const MB: u64 = 1_000_000;

/// Bytes in one gigabyte.
pub const GB: u64 = 1_000_000_000;

/// Bytes in one terabyte.
pub const TB: u64 = 1_000_000_000_000;

/// Bytes in one petabyte.
pub const PB: u64 = 1_000_000_000_000_000;

/// Bytes in one kibibyte (binary, base 1024).
pub const KIB: u64 = 1_024;

/// Bytes in one mebibyte.
pub const MIB: u64 = 1_048_576;

/// Bytes in one gibibyte.
pub const GIB: u64 = 1_073_741_824;

/// Bytes in one tebibyte.
pub const TIB: u64 = 1_099_511_627_776;

/// Bytes in one pebibyte.
pub const PIB: u64 = 1_125_899_906_842_624;

/// A byte-size unit: the decimal units are powers of 1000, the binary units
/// powers of 1024.
#[derive(Debug, Clone, Copy, PartialEq, Eq, Structural)]
pub enum Unit {
    B,
    KB,
    MB,
    GB,
    TB,
    PB,
    KIB,
    MIB,
    GIB,
    TIB,
    PIB,
}

impl Unit {
    /// How many bytes one unit stands for.
    pub open spec fn spec_divisor(self) -> nat {
        match self {
            Unit::B => 1,
            Unit::KB => 1_000,
            Unit::MB => 1_000_000,
            Unit::GB => 1_000_000_000,
            Unit::TB => 1_000_000_000_000,
            Unit::PB => 1_000_000_000_000_000,
            Unit::KIB => 1_024,
            Unit::MIB => 1_048_576,
            Unit::GIB => 1_073_741_824,
            Unit::TIB => 1_099_511_627_776,
            Unit::PIB => 1_125_899_906_842_624,
        }
    }

    /// The canonical display symbol, as a sequence of characters.
    pub open spec fn spec_symbol(self) -> Seq<char> {
        match self {
            Unit::B => seq!['B'],
            Unit::KB => seq!['K', 'B'],
            Unit::MB => seq!['M', 'B'],
            Unit::GB => seq!['G', 'B'],
            Unit::TB => seq!['T', 'B'],
            Unit::PB => seq!['P', 'B'],
            Unit::KIB => seq!['K', 'i', 'B'],
            Unit::MIB => seq!['M', 'i', 'B'],
            Unit::GIB => seq!['G', 'i', 'B'],
            Unit::TIB => seq!['T', 'i', 'B'],
            Unit::PIB => seq!['P', 'i', 'B'],
        }
    }

    /// Whether the unit's divisor is a power of 1000.
    pub open spec fn is_decimal(self) -> bool {
        match self {
            Unit::B | Unit::KB | Unit::MB | Unit::GB | Unit::TB | Unit::PB => true,
            _ => false,
        }
    }

    /// How many bytes one unit stands for.
    pub fn divisor(&self) -> (d: u64)
        ensures
            d == self.spec_divisor(),
    {
        match self {
            Unit::B => B,
            Unit::KB => KB,
            Unit::MB => MB,
            Unit::GB => GB,
            Unit::TB => TB,
            Unit::PB => PB,
            Unit::KIB => KIB,
            Unit::MIB => MIB,
            Unit::GIB => GIB,
            Unit::TIB => TIB,
            Unit::PIB => PIB,
        }
    }
}

} // verus!
