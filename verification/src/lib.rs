//! Recognition of CSI (Control Sequence Introducer) escape sequences in text.
//!
//! The scanner in [`parser`] finds every complete sequence of a text as a
//! byte range; the tokenizer in [`iter`] cuts the text into plain text and
//! escape tokens; [`enums`] gives a sequence its meaning and [`show`] writes
//! it down.
//!
//! The contracts speak of mathematical models over bytes: [`grammar`] says
//! what a sequence is and which sequences a scan finds, [`params`] how the
//! body of a sequence falls into parameters and numbers, [`pieces`] how a
//! text falls into tokens. [`boundary`] holds the facts about UTF-8 that keep
//! every slice on code-point boundaries.
use vstd::prelude::*;

pub mod boundary;
pub mod enums;
pub mod grammar;
pub mod iter;
pub mod params;
pub mod parser;
pub mod pieces;
pub mod show;

verus! {

/// The escape byte that opens the two-byte marker.
pub const ESC: u8 = 0x1b;

/// The second byte of the marker, `[`.
pub const BRACKET: u8 = 0x5b;

/// The byte that separates parameters, `;`.
pub const SEPARATOR: u8 = 0x3b;

/// The length of the marker in bytes.
pub const CSI_LEN: usize = 2;

/// A final byte lies in `0x40..=0x7e`.
pub open spec fn is_terminated_byte(byte: u8) -> bool {
    0x40 <= byte <= 0x7e
}

/// A parameter byte lies in `0x30..=0x3f`: the digits and `:;<=>?`.
pub open spec fn is_parameter_byte(byte: u8) -> bool {
    0x30 <= byte <= 0x3f
}

/// An intermediate byte lies in `0x20..=0x2f`.
pub open spec fn is_intermediate_byte(byte: u8) -> bool {
    0x20 <= byte <= 0x2f
}

/// CSI final byte `0x40–0x7E`.
#[verifier::when_used_as_spec(is_terminated_byte)]
pub fn terminated_byte(byte: u8) -> (r: bool)
    ensures
        r == is_terminated_byte(byte),
{
    0x40 <= byte && byte <= 0x7e
}

/// CSI parameter bytes `0–9:;<=>?`.
#[verifier::when_used_as_spec(is_parameter_byte)]
pub fn parameter_byte(byte: u8) -> (r: bool)
    ensures
        r == is_parameter_byte(byte),
{
    0x30 <= byte && byte <= 0x3f
}

/// CSI intermediate bytes `0x20–0x2F`.
#[verifier::when_used_as_spec(is_intermediate_byte)]
pub fn intermediate_byte(byte: u8) -> (r: bool)
    ensures
        r == is_intermediate_byte(byte),
{
    0x20 <= byte && byte <= 0x2f
}

} // verus!
