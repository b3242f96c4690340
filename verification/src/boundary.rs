//! Facts about code-point boundaries in UTF-8 text that the scanner rests on.
use vstd::prelude::*;
use vstd::string::*;
use vstd::utf8::*;

verus! {

/// The number of bytes of the code point whose first byte is `lead`.
pub open spec fn width_of(lead: u8) -> int {
    if lead < 0x80 {
        1
    } else if lead < 0xe0 {
        2
    } else if lead < 0xf0 {
        3
    } else {
        4
    }
}

/// From a boundary inside valid UTF-8 text, the width of the code point that
/// begins there leads to the next boundary; the bytes passed over are
/// continuation bytes.
pub proof fn lemma_next_boundary(bytes: Seq<u8>, at: int)
    requires
        valid_utf8(bytes),
        0 <= at < bytes.len(),
        is_char_boundary(bytes, at),
    ensures
        at + width_of(bytes[at]) <= bytes.len(),
        is_char_boundary(bytes, at + width_of(bytes[at])),
        forall|p: int| at < p < at + width_of(bytes[at]) ==> is_continuation_byte(#[trigger] bytes[p]),
    decreases bytes.len(),
{
    let first = length_of_first_scalar(bytes);
    let rest = pop_first_scalar(bytes);
    assert(valid_first_scalar(bytes));
    assert(valid_utf8(rest));
    if at == 0 {
        assert(first == width_of(bytes[0]));
        assert(is_char_boundary(rest, 0));
        assert(is_char_boundary(bytes, first));
    } else {
        assert(is_char_boundary(rest, at - first));
        if at - first < 0 {
            assert(false);
        }
        lemma_next_boundary(rest, at - first);
        let w = width_of(rest[at - first]);
        assert(rest[at - first] == bytes[at]);
        assert(is_char_boundary(rest, at - first + w));
        assert(is_char_boundary(bytes, at + w));
        assert forall|p: int| at < p < at + w implies is_continuation_byte(#[trigger] bytes[p]) by {
            assert(bytes[p] == rest[p - first]);
        }
    }
}

/// Behind an ASCII byte of valid UTF-8 text lies a boundary, and so does
/// before it.
pub proof fn lemma_ascii_boundaries(bytes: Seq<u8>, at: int)
    requires
        valid_utf8(bytes),
        0 <= at < bytes.len(),
        bytes[at] < 0x80,
    ensures
        is_char_boundary(bytes, at),
        is_char_boundary(bytes, at + 1),
{
    is_char_boundary_iff_not_is_continuation_byte(bytes, at);
    lemma_next_boundary(bytes, at);
}

/// The part of `text` between two of its boundaries.
pub fn slice_between<'a>(text: &'a str, from: usize, to: usize) -> (part: &'a str)
    requires
        from <= to <= text.spec_bytes().len(),
        is_char_boundary(text.spec_bytes(), from as int),
        is_char_boundary(text.spec_bytes(), to as int),
    ensures
        part.spec_bytes() == text.spec_bytes().subrange(from as int, to as int),
{
    let (head, _) = text.split_at(to);
    proof {
        encode_utf8_valid_utf8(text@);
        encode_utf8_valid_utf8(head@);
        assert(head.spec_bytes().len() == to);
        if from < to {
            assert(head.spec_bytes()[from as int] == text.spec_bytes()[from as int]);
            is_char_boundary_iff_not_is_continuation_byte(text.spec_bytes(), from as int);
            is_char_boundary_iff_not_is_continuation_byte(head.spec_bytes(), from as int);
        } else {
            is_char_boundary_start_end_of_seq(head.spec_bytes());
        }
    }
    let (_, part) = head.split_at(from);
    assert(part.spec_bytes() =~= text.spec_bytes().subrange(from as int, to as int));
    part
}

} // verus!
