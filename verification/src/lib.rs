//! Convert human-readable byte-size strings ("1.23 MB", "512 KiB") into exact
//! byte counts and byte counts back into human-readable strings.
//!
//! Magnitudes are kept as exact decimal digit sequences, so every conversion
//! is computed with integer arithmetic and carries a full functional contract:
//! parsing follows a fixed grammar (digits, an optional fraction, optional
//! spaces, an optional case-insensitive unit symbol), and formatting rounds to
//! hundredths of the chosen unit and trims trailing zeros.

pub mod convert;
pub mod digits;
pub mod fmt;
pub mod laws;
pub mod magnitude;
pub mod parse;
pub mod unit;

pub use fmt::format_to;
pub use magnitude::Magnitude;
pub use parse::parse;
pub use parse::parse_size_unit;
pub use unit::Unit;
