//! The grammar of CSI sequences as a mathematical model over bytes.
//!
//! A sequence is the marker `ESC [`, a run of parameter and intermediate
//! bytes, and one final byte. [`scan_from`] says which sequences a scan of a
//! buffer finds; the lemmas below state what holds of that list.
use vstd::prelude::*;
use vstd::utf8::{is_char_boundary, valid_utf8};
use crate::boundary::lemma_ascii_boundaries;
use crate::{is_intermediate_byte, is_parameter_byte, is_terminated_byte, BRACKET, ESC};

verus! {

/// The byte range `[start, end)` of one complete sequence and its final byte.
pub struct Span {
    pub start: int,
    pub end: int,
    pub kind: u8,
}

/// A byte that may stand between the marker and the final byte.
pub open spec fn is_body_byte(byte: u8) -> bool {
    is_parameter_byte(byte) || is_intermediate_byte(byte)
}

/// The marker `ESC [` occupies the bytes at `at` and `at + 1`.
pub open spec fn marker_at(bytes: Seq<u8>, at: int) -> bool {
    &&& 0 <= at
    &&& at + 2 <= bytes.len()
    &&& bytes[at] == ESC
    &&& bytes[at + 1] == BRACKET
}

/// The length of the longest run of body bytes that begins at `from`.
pub open spec fn body_len(bytes: Seq<u8>, from: int) -> nat
    decreases bytes.len() - from,
{
    if 0 <= from < bytes.len() && is_body_byte(bytes[from]) {
        1 + body_len(bytes, from + 1)
    } else {
        0
    }
}

/// Where the final byte of a sequence whose marker is at `start` must stand.
pub open spec fn final_pos(bytes: Seq<u8>, start: int) -> int {
    start + 2 + body_len(bytes, start + 2)
}

/// The sequence whose marker is at `start` is complete: a final byte follows
/// its body inside the buffer.
pub open spec fn completes_at(bytes: Seq<u8>, start: int) -> bool {
    &&& marker_at(bytes, start)
    &&& final_pos(bytes, start) < bytes.len()
    &&& is_terminated_byte(bytes[final_pos(bytes, start)])
}

/// The span of the complete sequence whose marker is at `start`.
pub open spec fn span_at(bytes: Seq<u8>, start: int) -> Span {
    Span { start, end: final_pos(bytes, start) + 1, kind: bytes[final_pos(bytes, start)] }
}

/// The sequences that a scan finds from byte `start` on: bytes without a
/// marker are passed over, a complete sequence is recorded and the scan goes
/// on behind it, and a marker that no final byte completes ends the scan.
pub open spec fn scan_from(bytes: Seq<u8>, start: int) -> Seq<Span>
    decreases bytes.len() - start,
{
    if start < 0 || start + 2 > bytes.len() {
        Seq::empty()
    } else if !marker_at(bytes, start) {
        scan_from(bytes, start + 1)
    } else if completes_at(bytes, start) {
        seq![span_at(bytes, start)] + scan_from(bytes, final_pos(bytes, start) + 1)
    } else {
        Seq::empty()
    }
}

/// The sequences that a scan of the whole buffer finds.
pub open spec fn scan(bytes: Seq<u8>) -> Seq<Span> {
    scan_from(bytes, 0)
}

/// `text` is exactly one complete sequence.
pub open spec fn is_sequence(text: Seq<u8>) -> bool {
    completes_at(text, 0) && final_pos(text, 0) + 1 == text.len()
}

/// The spans lie inside `[from, len]`, none is empty, and each begins at or
/// behind the end of the one before.
pub open spec fn ordered_within(spans: Seq<Span>, from: int, len: int) -> bool {
    &&& forall|k: int|
        0 <= k < spans.len() ==> from <= (#[trigger] spans[k]).start && spans[k].start + 3
            <= spans[k].end <= len
    &&& forall|j: int, k: int|
        0 <= j < k < spans.len() ==> (#[trigger] spans[j]).end <= (#[trigger] spans[k]).start
}

/// A run of body bytes ends inside the buffer or at its end, and every byte
/// of it is a body byte; the byte behind it, if there is one, is none.
pub proof fn lemma_body_len(bytes: Seq<u8>, from: int)
    requires
        0 <= from <= bytes.len(),
    ensures
        from + body_len(bytes, from) <= bytes.len(),
        forall|p: int| from <= p < from + body_len(bytes, from) ==> is_body_byte(#[trigger] bytes[p]),
        from + body_len(bytes, from) < bytes.len() ==> !is_body_byte(
            bytes[from + body_len(bytes, from)],
        ),
    decreases bytes.len() - from,
{
    if from < bytes.len() && is_body_byte(bytes[from]) {
        lemma_body_len(bytes, from + 1);
    }
}

/// A run of body bytes is found by its two ends: if every byte of
/// `[from, to)` is a body byte and the byte at `to` is none or missing, the
/// run that begins at `from` has length `to - from`.
pub proof fn lemma_body_len_unique(bytes: Seq<u8>, from: int, to: int)
    requires
        0 <= from <= to <= bytes.len(),
        forall|p: int| from <= p < to ==> is_body_byte(#[trigger] bytes[p]),
        to < bytes.len() ==> !is_body_byte(bytes[to]),
    ensures
        body_len(bytes, from) == to - from,
    decreases to - from,
{
    if from < to {
        lemma_body_len_unique(bytes, from + 1, to);
    }
}

/// Bytes among which no marker begins are passed over.
pub proof fn lemma_scan_skip(bytes: Seq<u8>, from: int, to: int)
    requires
        0 <= from <= to <= bytes.len(),
        forall|p: int| from <= p < to ==> !marker_at(bytes, p),
    ensures
        scan_from(bytes, from) == scan_from(bytes, to),
    decreases to - from,
{
    if from < to {
        lemma_scan_skip(bytes, from + 1, to);
    }
}

/// The spans of a scan are in increasing order and do not overlap; each lies
/// inside the buffer, behind the place where the scan began.
pub proof fn lemma_scan_ordered(bytes: Seq<u8>, start: int)
    requires
        0 <= start,
    ensures
        ordered_within(scan_from(bytes, start), start, bytes.len() as int),
    decreases bytes.len() - start,
{
    if start + 2 > bytes.len() {
    } else if !marker_at(bytes, start) {
        lemma_scan_ordered(bytes, start + 1);
    } else if completes_at(bytes, start) {
        let end = final_pos(bytes, start) + 1;
        lemma_scan_ordered(bytes, end);
        let rest = scan_from(bytes, end);
        let all = scan_from(bytes, start);
        assert(all == seq![span_at(bytes, start)] + rest);
        assert forall|k: int| 0 <= k < all.len() implies start <= (#[trigger] all[k]).start
            && all[k].start + 3 <= all[k].end <= bytes.len() by {
            if k > 0 {
                assert(all[k] == rest[k - 1]);
            }
        }
        assert forall|j: int, k: int| 0 <= j < k < all.len() implies (#[trigger] all[j]).end <= (
        #[trigger] all[k]).start by {
            assert(all[k] == rest[k - 1]);
            if j > 0 {
                assert(all[j] == rest[j - 1]);
            }
        }
    }
}

/// `span` is a complete sequence of the buffer: the marker stands at its
/// start, body bytes follow, and its final byte is the last byte of it.
pub open spec fn is_span_of(bytes: Seq<u8>, span: Span) -> bool {
    completes_at(bytes, span.start) && span == span_at(bytes, span.start)
}

/// Every span of a scan is a complete sequence of the buffer.
pub proof fn lemma_scan_spans_complete(bytes: Seq<u8>, start: int)
    requires
        0 <= start,
    ensures
        forall|k: int|
            0 <= k < scan_from(bytes, start).len() ==> is_span_of(
                bytes,
                #[trigger] scan_from(bytes, start)[k],
            ),
    decreases bytes.len() - start,
{
    let all = scan_from(bytes, start);
    if start + 2 > bytes.len() {
        assert(all.len() == 0);
    } else if !marker_at(bytes, start) {
        lemma_scan_spans_complete(bytes, start + 1);
        assert(all == scan_from(bytes, start + 1));
    } else if completes_at(bytes, start) {
        let end = final_pos(bytes, start) + 1;
        lemma_scan_spans_complete(bytes, end);
        let rest = scan_from(bytes, end);
        assert(all == seq![span_at(bytes, start)] + rest);
        assert forall|k: int| 0 <= k < all.len() implies is_span_of(bytes, #[trigger] all[k]) by {
            if k > 0 {
                assert(all[k] == rest[k - 1]);
            } else {
                assert(all[0] == span_at(bytes, start));
            }
        }
    } else {
        assert(all.len() == 0);
    }
}

/// Where the bytes begin that a scan from `from` passes over before it
/// reaches span `k`: at `from` for the first span, else at the end of the
/// span before; with `k` the number of spans, where the rest begins that
/// holds no span.
pub open spec fn gap_start(spans: Seq<Span>, k: int, from: int) -> int {
    if 0 < k <= spans.len() {
        spans[k - 1].end
    } else {
        from
    }
}

/// `at` is the first place at or behind `from` where a marker begins.
pub open spec fn first_marker(bytes: Seq<u8>, from: int, at: int) -> bool {
    &&& from <= at
    &&& marker_at(bytes, at)
    &&& forall|q: int| from <= q < at ==> !marker_at(bytes, q)
}

/// What makes a list of spans the result of a scan from `from`, said without
/// a word on how the scan proceeds:
/// the spans are in order and apart, each is a complete sequence, no marker
/// begins in the bytes before a span that no span covers, and behind the
/// last span either no marker begins or the first one is never completed.
pub open spec fn is_scan_result(bytes: Seq<u8>, spans: Seq<Span>, from: int) -> bool {
    &&& ordered_within(spans, from, bytes.len() as int)
    &&& forall|k: int| 0 <= k < spans.len() ==> is_span_of(bytes, #[trigger] spans[k])
    &&& forall|k: int|
        0 <= k < spans.len() ==> first_marker(
            bytes,
            gap_start(spans, k, from),
            (#[trigger] spans[k]).start,
        )
    &&& forall|p: int|
        first_marker(bytes, gap_start(spans, spans.len() as int, from), p) ==> !completes_at(
            bytes,
            p,
        )
}

/// The scan from `from` is a scan result in the sense of [`is_scan_result`].
pub proof fn lemma_scan_is_result(bytes: Seq<u8>, from: int)
    requires
        0 <= from,
    ensures
        is_scan_result(bytes, scan_from(bytes, from), from),
    decreases bytes.len() - from,
{
    let all = scan_from(bytes, from);
    lemma_scan_ordered(bytes, from);
    lemma_scan_spans_complete(bytes, from);
    if from + 2 > bytes.len() {
        assert(all.len() == 0);
    } else if !marker_at(bytes, from) {
        lemma_scan_is_result(bytes, from + 1);
        assert(all == scan_from(bytes, from + 1));
        assert forall|k: int| 0 <= k < all.len() implies first_marker(
            bytes,
            gap_start(all, k, from),
            (#[trigger] all[k]).start,
        ) by {
            assert(first_marker(bytes, gap_start(all, k, from + 1), all[k].start));
        }
        assert forall|p: int|
            first_marker(bytes, gap_start(all, all.len() as int, from), p) implies !completes_at(
            bytes,
            p,
        ) by {
            assert(first_marker(bytes, gap_start(all, all.len() as int, from + 1), p));
        }
    } else if completes_at(bytes, from) {
        let end = final_pos(bytes, from) + 1;
        let rest = scan_from(bytes, end);
        lemma_scan_is_result(bytes, end);
        assert(all == seq![span_at(bytes, from)] + rest);
        assert(all[0] == span_at(bytes, from));
        assert forall|k: int| 0 <= k < all.len() implies first_marker(
            bytes,
            gap_start(all, k, from),
            (#[trigger] all[k]).start,
        ) by {
            if k > 0 {
                assert(all[k] == rest[k - 1]);
                assert(first_marker(bytes, gap_start(rest, k - 1, end), rest[k - 1].start));
                if k > 1 {
                    assert(all[k - 1] == rest[k - 2]);
                }
            }
        }
        assert forall|p: int|
            first_marker(bytes, gap_start(all, all.len() as int, from), p) implies !completes_at(
            bytes,
            p,
        ) by {
            if rest.len() > 0 {
                assert(all[all.len() - 1] == rest[rest.len() - 1]);
            }
            assert(gap_start(all, all.len() as int, from) == gap_start(
                rest,
                rest.len() as int,
                end,
            ));
        }
    } else {
        assert(all.len() == 0);
        assert forall|p: int|
            first_marker(bytes, gap_start(all, all.len() as int, from), p) implies !completes_at(
            bytes,
            p,
        ) by {
            if p > from {
                assert(!marker_at(bytes, from));
            }
        }
    }
}

/// Where the first marker at or behind `from` is never completed, or no
/// marker begins there at all, a scan from `from` finds nothing.
pub proof fn lemma_scan_finds_nothing(bytes: Seq<u8>, from: int)
    requires
        0 <= from,
        forall|p: int| first_marker(bytes, from, p) ==> !completes_at(bytes, p),
    ensures
        scan_from(bytes, from) == Seq::<Span>::empty(),
    decreases bytes.len() - from,
{
    if from + 2 > bytes.len() {
    } else if !marker_at(bytes, from) {
        assert forall|p: int| first_marker(bytes, from + 1, p) implies !completes_at(bytes, p) by {
            assert(first_marker(bytes, from, p));
        }
        lemma_scan_finds_nothing(bytes, from + 1);
    } else {
        assert(first_marker(bytes, from, from));
    }
}

/// Only one list of spans is a scan result: the one that the scan gives.
pub proof fn lemma_scan_result_unique(bytes: Seq<u8>, spans: Seq<Span>, from: int)
    requires
        0 <= from,
        is_scan_result(bytes, spans, from),
    ensures
        spans == scan_from(bytes, from),
    decreases spans.len(),
{
    if spans.len() == 0 {
        lemma_scan_finds_nothing(bytes, from);
    } else {
        let head = spans[0];
        let rest = spans.drop_first();
        assert(is_span_of(bytes, head));
        assert(first_marker(bytes, gap_start(spans, 0, from), head.start));
        lemma_scan_skip(bytes, from, head.start);
        assert(scan_from(bytes, head.start) == seq![head] + scan_from(bytes, head.end));
        assert(is_scan_result(bytes, rest, head.end)) by {
            assert forall|k: int| 0 <= k < rest.len() implies head.end <= (#[trigger] rest[k]).start
                && rest[k].start + 3 <= rest[k].end <= bytes.len() by {
                assert(rest[k] == spans[k + 1]);
                assert(spans[0].end <= spans[k + 1].start);
            }
            assert forall|j: int, k: int| 0 <= j < k < rest.len() implies (#[trigger] rest[j]).end
                <= (#[trigger] rest[k]).start by {
                assert(rest[j] == spans[j + 1]);
                assert(rest[k] == spans[k + 1]);
            }
            assert forall|k: int| 0 <= k < rest.len() implies is_span_of(
                bytes,
                #[trigger] rest[k],
            ) by {
                assert(rest[k] == spans[k + 1]);
            }
            assert forall|k: int| 0 <= k < rest.len() implies first_marker(
                bytes,
                gap_start(rest, k, head.end),
                (#[trigger] rest[k]).start,
            ) by {
                assert(rest[k] == spans[k + 1]);
                assert(first_marker(bytes, gap_start(spans, k + 1, from), spans[k + 1].start));
                if k > 0 {
                    assert(rest[k - 1] == spans[k]);
                }
            }
            assert forall|p: int|
                first_marker(
                    bytes,
                    gap_start(rest, rest.len() as int, head.end),
                    p,
                ) implies !completes_at(bytes, p) by {
                if rest.len() > 0 {
                    assert(rest[rest.len() - 1] == spans[spans.len() - 1]);
                }
                assert(first_marker(bytes, gap_start(spans, spans.len() as int, from), p));
            }
        }
        lemma_scan_result_unique(bytes, rest, head.end);
        assert(spans =~= seq![head] + rest);
    }
}

/// In valid UTF-8 text every span of a scan begins and ends on a code-point
/// boundary: a marker and a final byte are ASCII, and no ASCII byte lies
/// inside a longer code point.
pub proof fn lemma_scan_on_boundaries(bytes: Seq<u8>)
    requires
        valid_utf8(bytes),
    ensures
        forall|k: int|
            0 <= k < scan(bytes).len() ==> is_char_boundary(bytes, (#[trigger] scan(bytes)[k]).start)
                && is_char_boundary(bytes, scan(bytes)[k].end),
{
    lemma_scan_spans_complete(bytes, 0);
    assert forall|k: int| 0 <= k < scan(bytes).len() implies is_char_boundary(
        bytes,
        (#[trigger] scan(bytes)[k]).start,
    ) && is_char_boundary(bytes, scan(bytes)[k].end) by {
        let span = scan(bytes)[k];
        assert(is_span_of(bytes, span));
        lemma_ascii_boundaries(bytes, span.start);
        lemma_ascii_boundaries(bytes, span.end - 1);
    }
}

} // verus!
