//! What a sequence means: a tagged value made from its final byte and the
//! values of its parameters.
use vstd::prelude::*;
use vstd::slice::slice_subrange;
use vstd::std_specs::convert::FromSpecImpl;
use vstd::string::*;
use crate::params::{body_of, decode_params, param_value, params_of, parse_number, values_of};
use crate::parser::Match;

verus! {

/// A subset of CSI escape sequences.
#[derive(Debug, PartialEq, Clone, Copy)]
pub enum CSISequence {
    Escape,
    Color(Option<usize>, Option<usize>, Option<usize>),
    CursorPos(Option<usize>, Option<usize>),
    CursorUp(Option<usize>),
    CursorDown(Option<usize>),
    CursorForward(Option<usize>),
    CursorBackward(Option<usize>),
    CursorSave,
    CursorRestore,
    EraseDisplay(ClearMode),
    EraseLine(ClearMode),
    EnableAttr(Attr),
    ResetAttr(Attr),
}

/// CSI `h` mode
#[derive(Debug, PartialEq, Copy, Clone)]
pub enum Attr {
    NoAttr,
    Cursor,
    AutoWrap,
}

/// CSI `J`,`K` mode
#[derive(Debug, PartialEq, Copy, Clone)]
pub enum ClearMode {
    After,
    Before,
    All,
}

/// The final byte `m`.
pub const FINAL_COLOR: u8 = 0x6d;

/// The final byte `H`.
pub const FINAL_CURSOR_POS: u8 = 0x48;

/// The final byte `A`.
pub const FINAL_CURSOR_UP: u8 = 0x41;

/// The final byte `B`.
pub const FINAL_CURSOR_DOWN: u8 = 0x42;

/// The final byte `C`.
pub const FINAL_CURSOR_FORWARD: u8 = 0x43;

/// The final byte `D`.
pub const FINAL_CURSOR_BACKWARD: u8 = 0x44;

/// The final byte `s`.
pub const FINAL_CURSOR_SAVE: u8 = 0x73;

/// The final byte `u`.
pub const FINAL_CURSOR_RESTORE: u8 = 0x75;

/// The final byte `J`.
pub const FINAL_ERASE_DISPLAY: u8 = 0x4a;

/// The final byte `K`.
pub const FINAL_ERASE_LINE: u8 = 0x4b;

/// The final byte `h`.
pub const FINAL_ENABLE_ATTR: u8 = 0x68;

/// The final byte `l`.
pub const FINAL_RESET_ATTR: u8 = 0x6c;

/// The attribute that a mode number names: 25 the cursor, 7 automatic
/// wrapping; a missing or any other number names none.
pub open spec fn attr_of(value: Option<usize>) -> Attr {
    match value {
        Some(25) => Attr::Cursor,
        Some(7) => Attr::AutoWrap,
        _ => Attr::NoAttr,
    }
}

/// The clear mode that a number names: 1 before the cursor, 2 all; a missing
/// or any other number means after the cursor.
pub open spec fn clear_mode_of(value: Option<usize>) -> ClearMode {
    match value {
        Some(1) => ClearMode::Before,
        Some(2) => ClearMode::All,
        _ => ClearMode::After,
    }
}

/// The first of the values, if there is one and it is present.
pub open spec fn first_of(values: Seq<Option<usize>>) -> Option<usize> {
    if values.len() > 0 {
        values[0]
    } else {
        None
    }
}

/// The last of the values, if there is one and it is present.
pub open spec fn last_of(values: Seq<Option<usize>>) -> Option<usize> {
    if values.len() > 0 {
        values[values.len() - 1]
    } else {
        None
    }
}

/// The meaning of a sequence with final byte `kind` and parameter values
/// `values`.
///
/// `m` sets colours: the first value is the foreground, the last one the
/// style where there are two or more, the second one the background where
/// there are three or more. `H` places the cursor at the first and last
/// value. `A`, `B`, `C`, `D` move it by the first value. `s` and `u` save and
/// restore it. `J` and `K` erase by the mode that the first value names, `h`
/// and `l` switch the attribute that it names. Any other final byte is an
/// escape without a meaning here.
pub open spec fn sequence_of(kind: u8, values: Seq<Option<usize>>) -> CSISequence {
    if kind == FINAL_COLOR {
        CSISequence::Color(
            first_of(values),
            if values.len() > 2 {
                values[1]
            } else {
                None
            },
            if values.len() > 1 {
                last_of(values)
            } else {
                None
            },
        )
    } else if kind == FINAL_CURSOR_POS {
        CSISequence::CursorPos(first_of(values), last_of(values))
    } else if kind == FINAL_CURSOR_UP {
        CSISequence::CursorUp(first_of(values))
    } else if kind == FINAL_CURSOR_DOWN {
        CSISequence::CursorDown(first_of(values))
    } else if kind == FINAL_CURSOR_FORWARD {
        CSISequence::CursorForward(first_of(values))
    } else if kind == FINAL_CURSOR_BACKWARD {
        CSISequence::CursorBackward(first_of(values))
    } else if kind == FINAL_CURSOR_SAVE {
        CSISequence::CursorSave
    } else if kind == FINAL_CURSOR_RESTORE {
        CSISequence::CursorRestore
    } else if kind == FINAL_ERASE_DISPLAY {
        CSISequence::EraseDisplay(clear_mode_of(first_of(values)))
    } else if kind == FINAL_ERASE_LINE {
        CSISequence::EraseLine(clear_mode_of(first_of(values)))
    } else if kind == FINAL_ENABLE_ATTR {
        CSISequence::EnableAttr(attr_of(first_of(values)))
    } else if kind == FINAL_RESET_ATTR {
        CSISequence::ResetAttr(attr_of(first_of(values)))
    } else {
        CSISequence::Escape
    }
}

/// The meaning of the sequence whose text is `text` and whose final byte is
/// `kind`.
pub open spec fn decode(text: Seq<u8>, kind: u8) -> CSISequence {
    sequence_of(kind, values_of(params_of(body_of(text))))
}

impl From<Option<usize>> for Attr {
    fn from(value: Option<usize>) -> (attr: Self) {
        match value {
            None => Attr::NoAttr,
            Some(mode) => {
                if mode == 25 {
                    Attr::Cursor
                } else if mode == 7 {
                    Attr::AutoWrap
                } else {
                    Attr::NoAttr
                }
            },
        }
    }
}

impl FromSpecImpl<Option<usize>> for Attr {
    open spec fn obeys_from_spec() -> bool {
        true
    }

    open spec fn from_spec(value: Option<usize>) -> Self {
        attr_of(value)
    }
}

impl From<Option<usize>> for ClearMode {
    fn from(value: Option<usize>) -> (mode: Self) {
        match value {
            None => ClearMode::After,
            Some(mode) => {
                if mode == 1 {
                    ClearMode::Before
                } else if mode == 2 {
                    ClearMode::All
                } else {
                    ClearMode::After
                }
            },
        }
    }
}

impl FromSpecImpl<Option<usize>> for ClearMode {
    open spec fn obeys_from_spec() -> bool {
        true
    }

    open spec fn from_spec(value: Option<usize>) -> Self {
        clear_mode_of(value)
    }
}

/// The value at `at`, where the list is that long.
fn value_at(values: &Vec<Option<usize>>, at: usize) -> (value: Option<usize>)
    ensures
        value == (if at < values@.len() {
            values@[at as int]
        } else {
            None
        }),
{
    if at < values.len() {
        values[at]
    } else {
        None
    }
}

/// The meaning of a sequence, from its final byte and parameter values.
fn classify(kind: u8, values: &Vec<Option<usize>>) -> (sequence: CSISequence)
    ensures
        sequence == sequence_of(kind, values@),
{
    let count = values.len();
    let first = value_at(values, 0);
    let last = if count > 0 {
        value_at(values, count - 1)
    } else {
        None
    };
    if kind == FINAL_COLOR {
        let background = if count > 2 {
            value_at(values, 1)
        } else {
            None
        };
        let style = if count > 1 {
            last
        } else {
            None
        };
        CSISequence::Color(first, background, style)
    } else if kind == FINAL_CURSOR_POS {
        CSISequence::CursorPos(first, last)
    } else if kind == FINAL_CURSOR_UP {
        CSISequence::CursorUp(first)
    } else if kind == FINAL_CURSOR_DOWN {
        CSISequence::CursorDown(first)
    } else if kind == FINAL_CURSOR_FORWARD {
        CSISequence::CursorForward(first)
    } else if kind == FINAL_CURSOR_BACKWARD {
        CSISequence::CursorBackward(first)
    } else if kind == FINAL_CURSOR_SAVE {
        CSISequence::CursorSave
    } else if kind == FINAL_CURSOR_RESTORE {
        CSISequence::CursorRestore
    } else if kind == FINAL_ERASE_DISPLAY {
        CSISequence::EraseDisplay(ClearMode::from(first))
    } else if kind == FINAL_ERASE_LINE {
        CSISequence::EraseLine(ClearMode::from(first))
    } else if kind == FINAL_ENABLE_ATTR {
        CSISequence::EnableAttr(Attr::from(first))
    } else if kind == FINAL_RESET_ATTR {
        CSISequence::ResetAttr(Attr::from(first))
    } else {
        CSISequence::Escape
    }
}

impl<'a, 't> From<&'a Match<'t>> for CSISequence {
    /// The meaning of a match: that of its final byte and of the parameters
    /// in the body of its text.
    fn from(match_data: &'a Match<'t>) -> (sequence: Self) {
        let bytes = match_data.csi_text.as_bytes();
        let len = bytes.len();
        let body = if len >= 3 {
            slice_subrange(bytes, 2, len - 1)
        } else {
            slice_subrange(bytes, 0, 0)
        };
        assert(body@ =~= body_of(bytes@));
        let values = decode_params(body);
        classify(match_data.csi_type, &values)
    }
}

impl<'a, 't> FromSpecImpl<&'a Match<'t>> for CSISequence {
    open spec fn obeys_from_spec() -> bool {
        true
    }

    open spec fn from_spec(match_data: &'a Match<'t>) -> Self {
        decode(match_data.csi_text.spec_bytes(), match_data.csi_type)
    }
}

/// CSI param to usize: the value of one raw parameter, if it has one.
pub fn str_to_usize(num_str: Option<&&str>) -> (value: Option<usize>)
    ensures
        value == match num_str {
            None => None,
            Some(text) => param_value(text.spec_bytes()),
        },
{
    match num_str {
        None => None,
        Some(text) => {
            let bytes = text.as_bytes();
            assert(bytes@.subrange(0, bytes@.len() as int) =~= bytes@);
            parse_number(bytes, 0, bytes.len())
        },
    }
}

} // verus!
