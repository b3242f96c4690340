//! The written form of a sequence's meaning.
//!
//! The escape byte is left out of every form but that of the bare escape, so
//! that a written sequence can be printed without being run.
use vstd::prelude::*;
use vstd::string::*;
use crate::enums::{Attr, CSISequence, ClearMode};

verus! {

/// The character of one decimal digit.
pub open spec fn digit_char(digit: nat) -> char {
    if digit == 0 {
        '0'
    } else if digit == 1 {
        '1'
    } else if digit == 2 {
        '2'
    } else if digit == 3 {
        '3'
    } else if digit == 4 {
        '4'
    } else if digit == 5 {
        '5'
    } else if digit == 6 {
        '6'
    } else if digit == 7 {
        '7'
    } else if digit == 8 {
        '8'
    } else {
        '9'
    }
}

/// The decimal digits of a number, without leading zeros.
pub open spec fn digits_of(number: nat) -> Seq<char>
    decreases number,
{
    if number < 10 {
        seq![digit_char(number)]
    } else {
        digits_of(number / 10).push(digit_char(number % 10))
    }
}

/// A parameter value as it is written: `None`, or `Some(..)` round the
/// digits of the number.
pub open spec fn shown_value(value: Option<usize>) -> Seq<char> {
    match value {
        None => "None"@,
        Some(number) => "Some("@ + digits_of(number as nat) + ")"@,
    }
}

/// An attribute as it is written: by its mode number.
pub open spec fn shown_attr(attr: Attr) -> Seq<char> {
    match attr {
        Attr::NoAttr => "0"@,
        Attr::Cursor => "25"@,
        Attr::AutoWrap => "7"@,
    }
}

/// A clear mode as it is written: by its number.
pub open spec fn shown_clear_mode(mode: ClearMode) -> Seq<char> {
    match mode {
        ClearMode::After => "0"@,
        ClearMode::Before => "1"@,
        ClearMode::All => "2"@,
    }
}

/// A sequence as it is written: `[`, the values with `;` between them, and
/// the final byte.
pub open spec fn shown_sequence(sequence: CSISequence) -> Seq<char> {
    match sequence {
        CSISequence::Escape => "\u{1b}"@,
        CSISequence::Color(strong, color, state) => "["@ + shown_value(strong) + ";"@
            + shown_value(color) + ";"@ + shown_value(state) + "m"@,
        CSISequence::CursorPos(row, col) => "["@ + shown_value(row) + ";"@ + shown_value(col)
            + "H"@,
        CSISequence::CursorUp(amt) => "["@ + shown_value(amt) + "A"@,
        CSISequence::CursorDown(amt) => "["@ + shown_value(amt) + "B"@,
        CSISequence::CursorForward(amt) => "["@ + shown_value(amt) + "C"@,
        CSISequence::CursorBackward(amt) => "["@ + shown_value(amt) + "D"@,
        CSISequence::CursorSave => "[s"@,
        CSISequence::CursorRestore => "[u"@,
        CSISequence::EraseDisplay(mode) => "["@ + shown_clear_mode(mode) + "J"@,
        CSISequence::EraseLine(mode) => "["@ + shown_clear_mode(mode) + "K"@,
        CSISequence::EnableAttr(attr) => "[?"@ + shown_attr(attr) + "h"@,
        CSISequence::ResetAttr(attr) => "[?"@ + shown_attr(attr) + "l"@,
    }
}

/// The text of one decimal digit.
fn digit_text(digit: usize) -> (text: &'static str)
    requires
        digit < 10,
    ensures
        text@ == seq![digit_char(digit as nat)],
{
    proof {
        reveal_strlit("0");
        reveal_strlit("1");
        reveal_strlit("2");
        reveal_strlit("3");
        reveal_strlit("4");
        reveal_strlit("5");
        reveal_strlit("6");
        reveal_strlit("7");
        reveal_strlit("8");
        reveal_strlit("9");
    }
    let text = if digit == 0 {
        "0"
    } else if digit == 1 {
        "1"
    } else if digit == 2 {
        "2"
    } else if digit == 3 {
        "3"
    } else if digit == 4 {
        "4"
    } else if digit == 5 {
        "5"
    } else if digit == 6 {
        "6"
    } else if digit == 7 {
        "7"
    } else if digit == 8 {
        "8"
    } else {
        "9"
    };
    assert(text@ =~= seq![digit_char(digit as nat)]);
    text
}

/// Writes the decimal digits of `number` behind `text`.
fn push_number(text: &mut String, number: usize)
    ensures
        final(text)@ == old(text)@ + digits_of(number as nat),
    decreases number,
{
    if number >= 10 {
        push_number(text, number / 10);
    }
    text.append(digit_text(number % 10));
    assert(final(text)@ =~= old(text)@ + digits_of(number as nat));
}

/// Writes a parameter value behind `text`.
fn push_value(text: &mut String, value: Option<usize>)
    ensures
        final(text)@ == old(text)@ + shown_value(value),
{
    match value {
        None => {
            text.append("None");
        },
        Some(number) => {
            text.append("Some(");
            push_number(text, number);
            text.append(")");
        },
    }
    assert(final(text)@ =~= old(text)@ + shown_value(value));
}

/// Writes `[`, one value and the final text `last`.
fn one_value(value: Option<usize>, last: &str) -> (text: String)
    ensures
        text@ == "["@ + shown_value(value) + last@,
{
    let mut text = String::from_str("[");
    push_value(&mut text, value);
    text.append(last);
    text
}

impl Attr {
    /// The written form of the attribute.
    pub fn to_string(&self) -> (text: String)
        ensures
            text@ == shown_attr(*self),
    {
        match self {
            Attr::NoAttr => String::from_str("0"),
            Attr::Cursor => String::from_str("25"),
            Attr::AutoWrap => String::from_str("7"),
        }
    }
}

impl ClearMode {
    /// The written form of the clear mode.
    pub fn to_string(&self) -> (text: String)
        ensures
            text@ == shown_clear_mode(*self),
    {
        match self {
            ClearMode::After => String::from_str("0"),
            ClearMode::Before => String::from_str("1"),
            ClearMode::All => String::from_str("2"),
        }
    }
}

impl CSISequence {
    /// The written form of the sequence.
    pub fn to_string(&self) -> (text: String)
        ensures
            text@ == shown_sequence(*self),
    {
        match *self {
            CSISequence::Escape => String::from_str("\u{1b}"),
            CSISequence::Color(strong, color, state) => {
                let mut text = String::from_str("[");
                push_value(&mut text, strong);
                text.append(";");
                push_value(&mut text, color);
                text.append(";");
                push_value(&mut text, state);
                text.append("m");
                text
            },
            CSISequence::CursorPos(row, col) => {
                let mut text = String::from_str("[");
                push_value(&mut text, row);
                text.append(";");
                push_value(&mut text, col);
                text.append("H");
                text
            },
            CSISequence::CursorUp(amt) => one_value(amt, "A"),
            CSISequence::CursorDown(amt) => one_value(amt, "B"),
            CSISequence::CursorForward(amt) => one_value(amt, "C"),
            CSISequence::CursorBackward(amt) => one_value(amt, "D"),
            CSISequence::CursorSave => String::from_str("[s"),
            CSISequence::CursorRestore => String::from_str("[u"),
            CSISequence::EraseDisplay(mode) => {
                let mut text = String::from_str("[");
                text.append(mode.to_string().as_str());
                text.append("J");
                text
            },
            CSISequence::EraseLine(mode) => {
                let mut text = String::from_str("[");
                text.append(mode.to_string().as_str());
                text.append("K");
                text
            },
            CSISequence::EnableAttr(attr) => {
                let mut text = String::from_str("[?");
                text.append(attr.to_string().as_str());
                text.append("h");
                text
            },
            CSISequence::ResetAttr(attr) => {
                let mut text = String::from_str("[?");
                text.append(attr.to_string().as_str());
                text.append("l");
                text
            },
        }
    }
}

} // verus!
