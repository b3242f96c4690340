//! The scanner: one pass over a text that finds its CSI sequences.
use vstd::prelude::*;
use vstd::string::*;
use vstd::utf8::*;
use vstd::slice::slice_subrange;
use crate::boundary::{lemma_ascii_boundaries, lemma_next_boundary, slice_between, width_of};
use crate::params::{body_of, params_of, split_from, token_end};
use crate::grammar::{
    completes_at, final_pos, is_body_byte, is_scan_result, is_sequence, lemma_body_len,
    lemma_body_len_unique, lemma_scan_is_result, lemma_scan_skip, marker_at, scan, scan_from,
    span_at, Span,
};
use crate::{intermediate_byte, parameter_byte, terminated_byte, BRACKET, CSI_LEN, ESC};

verus! {

/// One sequence found in a text: its byte range, its text, the text behind
/// it and its final byte.
#[derive(Debug, PartialEq, Eq)]
pub struct Match<'t> {
    /// First byte index.
    pub start: usize,
    /// Last byte index + 1.
    pub end: usize,
    /// The text slice `text[start..end]`.
    pub csi_text: &'t str,
    /// The text behind the sequence, `text[end..]`.
    pub original_text: &'t str,
    /// The CSI type (ie `m`, `A` `..`)
    pub csi_type: u8,
}

impl<'t> Match<'t> {
    /// The byte range and final byte of this match.
    pub open spec fn span(&self) -> Span {
        Span { start: self.start as int, end: self.end as int, kind: self.csi_type }
    }

    /// The two slices of this match are the parts of `bytes` that its range
    /// names: the sequence itself and what follows it.
    pub open spec fn slices_of(&self, bytes: Seq<u8>) -> bool {
        &&& self.start <= self.end <= bytes.len()
        &&& self.csi_text.spec_bytes() == bytes.subrange(self.start as int, self.end as int)
        &&& self.original_text.spec_bytes() == bytes.subrange(
            self.end as int,
            bytes.len() as int,
        )
    }

    /// This match stands for one complete sequence: its text is the marker,
    /// body bytes and the final byte that `csi_type` repeats, and its range
    /// is as long as its text.
    pub open spec fn well_formed(&self) -> bool {
        &&& is_sequence(self.csi_text.spec_bytes())
        &&& self.csi_type == self.csi_text.spec_bytes().last()
        &&& self.end - self.start == self.csi_text.spec_bytes().len()
    }

    /// The raw parameters of the sequence: what stands between the marker and
    /// the final byte, split at `;`. An empty text stands for a parameter
    /// that was left out, so a sequence without parameter bytes has one empty
    /// parameter and the list is never empty.
    pub fn parse_csi(&self) -> (params: Vec<&str>)
        requires
            self.well_formed(),
        ensures
            texts_of(params@) == params_of(body_of(self.csi_text.spec_bytes())),
            params@.len() >= 1,
    {
        let text = self.csi_text;
        let bytes = text.as_bytes();
        let len = bytes.len();
        proof {
            encode_utf8_valid_utf8(text@);
            lemma_body_len(bytes@, 2);
            assert forall|p: int| 0 <= p <= len implies is_char_boundary(bytes@, p) by {
                if p < len {
                    lemma_ascii_boundaries(bytes@, p);
                } else {
                    lemma_ascii_boundaries(bytes@, p - 1);
                }
            }
        }
        let body = slice_subrange(bytes, CSI_LEN, len - 1);
        let mut params: Vec<&str> = Vec::new();
        let mut from: usize = 0;
        let mut done = false;
        while !done
            invariant
                bytes@ == text.spec_bytes(),
                len == bytes@.len(),
                len >= 3,
                body@ == bytes@.subrange(2, len - 1),
                from <= body@.len(),
                forall|p: int| 0 <= p <= len ==> is_char_boundary(bytes@, p),
                done ==> texts_of(params@) == params_of(body@) && params@.len() >= 1,
                !done ==> texts_of(params@) + split_from(body@, from as int) == params_of(body@),
            decreases (if done { 0int } else { 1int }), body@.len() - from,
        {
            let stop = token_end(body, from);
            let piece = slice_between(text, from + CSI_LEN, stop + CSI_LEN);
            let ghost before = params@;
            params.push(piece);
            proof {
                assert(piece.spec_bytes() =~= body@.subrange(from as int, stop as int));
                assert(texts_of(before.push(piece)) =~= texts_of(before) + seq![piece.spec_bytes()]);
                if stop < body@.len() {
                    let rest = split_from(body@, stop + 1);
                    assert(split_from(body@, from as int) == seq![piece.spec_bytes()] + rest);
                    assert(texts_of(before.push(piece)) + rest =~= texts_of(before) + (
                    seq![piece.spec_bytes()] + rest));
                } else {
                    assert(split_from(body@, from as int) == seq![piece.spec_bytes()]);
                }
            }
            if stop < body.len() {
                from = stop + 1;
            } else {
                done = true;
            }
        }
        params
    }
}

/// The bytes of each text of a list, in order.
pub open spec fn texts_of(texts: Seq<&str>) -> Seq<Seq<u8>> {
    Seq::new(texts.len(), |k: int| texts[k].spec_bytes())
}

/// The spans of a list of matches, in order.
pub open spec fn spans_of(matches: Seq<Match<'_>>) -> Seq<Span> {
    Seq::new(matches.len(), |k: int| matches[k].span())
}

/// `matches` is what a scan of `bytes` yields: its spans are those of the
/// grammar, and each match holds the slices that its span names.
pub open spec fn is_scan_of(matches: Seq<Match<'_>>, bytes: Seq<u8>) -> bool {
    &&& spans_of(matches) == scan(bytes)
    &&& forall|k: int| 0 <= k < matches.len() ==> (#[trigger] matches[k]).slices_of(bytes)
}

/// The number of bytes of the code point whose first byte is `lead`.
fn code_point_width(lead: u8) -> (w: usize)
    ensures
        w == width_of(lead),
{
    if lead < 0x80 {
        1
    } else if lead < 0xe0 {
        2
    } else if lead < 0xf0 {
        3
    } else {
        4
    }
}

/// A sequence that is complete in a buffer is complete when cut out of it.
pub proof fn lemma_cut_is_sequence(bytes: Seq<u8>, start: int)
    requires
        completes_at(bytes, start),
    ensures
        is_sequence(bytes.subrange(start, final_pos(bytes, start) + 1)),
        bytes.subrange(start, final_pos(bytes, start) + 1).last() == bytes[final_pos(bytes, start)],
{
    let t = final_pos(bytes, start);
    let cut = bytes.subrange(start, t + 1);
    lemma_body_len(bytes, start + 2);
    assert forall|p: int| 2 <= p < t - start implies is_body_byte(#[trigger] cut[p]) by {
        assert(cut[p] == bytes[start + p]);
    }
    assert(cut[t - start] == bytes[t]);
    lemma_body_len_unique(cut, 2, t - start);
}

/// Two scans of one text agree: they hold the same ranges and final bytes in
/// the same order, and their slices hold the same text.
pub proof fn lemma_scans_agree(first: Seq<Match<'_>>, second: Seq<Match<'_>>, bytes: Seq<u8>)
    requires
        is_scan_of(first, bytes),
        is_scan_of(second, bytes),
    ensures
        first.len() == second.len(),
        forall|k: int|
            0 <= k < first.len() ==> {
                &&& (#[trigger] first[k]).start == second[k].start
                &&& first[k].end == second[k].end
                &&& first[k].csi_type == second[k].csi_type
                &&& first[k].csi_text@ == second[k].csi_text@
                &&& first[k].original_text@ == second[k].original_text@
            },
{
    assert(spans_of(first).len() == spans_of(second).len());
    assert forall|k: int| 0 <= k < first.len() implies {
        &&& (#[trigger] first[k]).start == second[k].start
        &&& first[k].end == second[k].end
        &&& first[k].csi_type == second[k].csi_type
        &&& first[k].csi_text@ == second[k].csi_text@
        &&& first[k].original_text@ == second[k].original_text@
    } by {
        assert(first[k].span() == spans_of(first)[k]);
        assert(second[k].span() == spans_of(second)[k]);
        assert(first[k].slices_of(bytes));
        assert(second[k].slices_of(bytes));
        encode_utf8_decode_utf8(first[k].csi_text@);
        encode_utf8_decode_utf8(second[k].csi_text@);
        encode_utf8_decode_utf8(first[k].original_text@);
        encode_utf8_decode_utf8(second[k].original_text@);
    }
}

/// Parses CSI escape codes from the given text, returning a vector of `Match`.
///
/// The matches are the complete sequences that a scan from the first byte
/// finds, in order; a marker that no final byte completes ends the scan.
/// Every range begins and ends on a code-point boundary of the text.
pub fn parse(text: &str) -> (v: Vec<Match<'_>>)
    ensures
        is_scan_of(v@, text.spec_bytes()),
        is_scan_result(text.spec_bytes(), spans_of(v@), 0),
        forall|k: int| 0 <= k < v.len() ==> (#[trigger] v[k]).well_formed(),
        forall|k: int|
            0 <= k < v.len() ==> is_char_boundary(text.spec_bytes(), (#[trigger] v[k]).start as int)
                && is_char_boundary(text.spec_bytes(), v[k].end as int),
{
    broadcast use group_utf8_lib;

    let bytes = text.as_bytes();
    let len = bytes.len();
    let mut v: Vec<Match<'_>> = Vec::with_capacity(8);
    let mut start: usize = 0;
    let mut halted = false;
    assert(spans_of(v@) + scan_from(bytes@, 0) =~= scan(bytes@));
    while !halted && len - start >= CSI_LEN
        invariant
            bytes@ == text.spec_bytes(),
            len == bytes@.len(),
            valid_utf8(bytes@),
            start <= len,
            is_char_boundary(bytes@, start as int),
            spans_of(v@) + (if halted {
                Seq::<Span>::empty()
            } else {
                scan_from(bytes@, start as int)
            }) == scan(bytes@),
            forall|k: int| 0 <= k < v.len() ==> (#[trigger] v[k]).slices_of(bytes@),
            forall|k: int| 0 <= k < v.len() ==> (#[trigger] v[k]).well_formed(),
            forall|k: int|
                0 <= k < v.len() ==> is_char_boundary(bytes@, (#[trigger] v[k]).start as int)
                    && is_char_boundary(bytes@, v[k].end as int),
        decreases (if halted { 0int } else { 1int }), len - start,
    {
        if bytes[start] == ESC && bytes[start + 1] == BRACKET {
            let mut end: usize = start + CSI_LEN;
            while end < len && (parameter_byte(bytes[end]) || intermediate_byte(bytes[end]))
                invariant
                    len == bytes@.len(),
                    start + 2 <= end <= len,
                    forall|p: int| start + 2 <= p < end ==> is_body_byte(#[trigger] bytes@[p]),
                decreases len - end,
            {
                end += 1;
            }
            proof {
                lemma_body_len_unique(bytes@, start + 2, end as int);
                assert(final_pos(bytes@, start as int) == end);
            }
            if end < len && terminated_byte(bytes[end]) {
                let kind = bytes[end];
                let after: usize = end + 1;
                proof {
                    assert(completes_at(bytes@, start as int));
                    lemma_ascii_boundaries(bytes@, end as int);
                    lemma_cut_is_sequence(bytes@, start as int);
                }
                let csi_text = slice_between(text, start, after);
                let (_, tail) = text.split_at(after);
                let found = Match { start, end: after, csi_text, original_text: tail, csi_type: kind };
                proof {
                    assert(found.span() == span_at(bytes@, start as int));
                    assert(spans_of(v@.push(found)) =~= spans_of(v@) + seq![found.span()]);
                    assert(spans_of(v@.push(found)) + scan_from(bytes@, after as int) =~= spans_of(
                        v@,
                    ) + scan_from(bytes@, start as int));
                }
                v.push(found);
                start = after;
            } else {
                proof {
                    assert(!completes_at(bytes@, start as int));
                    assert(scan_from(bytes@, start as int) =~= Seq::<Span>::empty());
                }
                halted = true;
            }
        } else {
            let width = code_point_width(bytes[start]);
            proof {
                lemma_next_boundary(bytes@, start as int);
                assert forall|p: int| start <= p < start + width implies !marker_at(bytes@, p) by {
                    if p > start {
                        assert(is_continuation_byte(bytes@[p]));
                    }
                }
                lemma_scan_skip(bytes@, start as int, start + width);
            }
            start += width;
        }
    }
    proof {
        assert(spans_of(v@) =~= scan(bytes@)) by {
            if !halted {
                assert(scan_from(bytes@, start as int) =~= Seq::<Span>::empty());
            }
        }
        lemma_scan_is_result(bytes@, 0);
    }
    v
}

} // verus!
