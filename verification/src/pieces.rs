//! The model of the tokenizer: the pieces that a buffer falls into, plain
//! text and sequences in turn.
use vstd::prelude::*;
use vstd::utf8::{is_char_boundary, is_char_boundary_start_end_of_seq, valid_utf8};
use crate::grammar::{lemma_scan_on_boundaries, lemma_scan_ordered, ordered_within, scan, Span};

verus! {

/// One piece of a buffer: the plain text of a byte range, or a sequence.
pub enum Piece {
    Text { start: int, end: int },
    Escape { span: Span },
}

/// Where a tokenizer stands: `index` sequences are behind it, and `at` is
/// the first byte that no piece has covered yet.
pub struct Place {
    pub index: int,
    pub at: int,
}

impl Piece {
    /// The first byte of the piece.
    pub open spec fn start(self) -> int {
        match self {
            Piece::Text { start, .. } => start,
            Piece::Escape { span } => span.start,
        }
    }

    /// The byte behind the last byte of the piece.
    pub open spec fn end(self) -> int {
        match self {
            Piece::Text { end, .. } => end,
            Piece::Escape { span } => span.end,
        }
    }

    /// The bytes of the buffer that the piece covers.
    pub open spec fn bytes_in(self, bytes: Seq<u8>) -> Seq<u8> {
        bytes.subrange(self.start(), self.end())
    }
}

/// Both ends of the piece lie on code-point boundaries of the buffer.
pub open spec fn on_boundaries(bytes: Seq<u8>, piece: Piece) -> bool {
    is_char_boundary(bytes, piece.start()) && is_char_boundary(bytes, piece.end())
}

/// One pull at `place`: the piece that comes next and the place behind it,
/// or nothing when the buffer is used up.
///
/// With no sequence left, the rest of the buffer is one last piece of text,
/// if there is a rest. Text that stands before the next sequence comes
/// first; the sequence itself comes when the place has reached its start.
pub open spec fn step(len: int, spans: Seq<Span>, place: Place) -> Option<(Piece, Place)> {
    if place.index < 0 || place.index >= spans.len() {
        if place.at < len {
            Some((Piece::Text { start: place.at, end: len }, Place { index: place.index, at: len }))
        } else {
            None
        }
    } else if place.at < spans[place.index].start {
        Some(
            (
                Piece::Text { start: place.at, end: spans[place.index].start },
                Place { index: place.index, at: spans[place.index].start },
            ),
        )
    } else {
        Some(
            (
                Piece::Escape { span: spans[place.index] },
                Place { index: place.index + 1, at: spans[place.index].end },
            ),
        )
    }
}

/// An upper bound on the number of pulls that give a piece from `place` on.
pub open spec fn pulls_left(len: int, spans: Seq<Span>, place: Place) -> nat {
    if 0 <= place.index < spans.len() {
        (2 * (spans.len() - place.index) + (if place.at < spans[place.index].start {
            1int
        } else {
            0int
        })) as nat
    } else if place.at < len {
        1
    } else {
        0
    }
}

/// All the pieces that pulls from `place` on give, in order.
pub open spec fn pieces_from(len: int, spans: Seq<Span>, place: Place) -> Seq<Piece>
    decreases pulls_left(len, spans, place),
{
    match step(len, spans, place) {
        None => Seq::empty(),
        Some((piece, next)) => seq![piece] + pieces_from(len, spans, next),
    }
}

/// The pieces of a whole buffer.
pub open spec fn pieces(bytes: Seq<u8>) -> Seq<Piece> {
    pieces_from(bytes.len() as int, scan(bytes), Place { index: 0, at: 0 })
}

/// The bytes of the pieces, one behind the other.
pub open spec fn joined(bytes: Seq<u8>, pieces: Seq<Piece>) -> Seq<u8>
    decreases pieces.len(),
{
    if pieces.len() == 0 {
        Seq::empty()
    } else {
        pieces[0].bytes_in(bytes) + joined(bytes, pieces.drop_first())
    }
}

/// `place` lies inside the buffer and before the next sequence.
pub open spec fn place_fits(len: int, spans: Seq<Span>, place: Place) -> bool {
    &&& 0 <= place.index <= spans.len()
    &&& 0 <= place.at <= len
    &&& place.index < spans.len() ==> place.at <= spans[place.index].start
}

/// Each piece begins where the one before ended, the first one at the place
/// where the pulls began, and the last one ends with the buffer; no piece is
/// empty.
pub open spec fn contiguous(pieces: Seq<Piece>, from: int, len: int) -> bool {
    &&& forall|k: int| 0 <= k < pieces.len() ==> (#[trigger] pieces[k]).start() < pieces[k].end()
    &&& forall|k: int|
        0 <= k < pieces.len() ==> (#[trigger] pieces[k]).start() == (if k == 0 {
            from
        } else {
            pieces[k - 1].end()
        })
    &&& (if pieces.len() == 0 {
        from == len
    } else {
        pieces.last().end() == len
    })
}

/// A pull from a place that fits gives a piece that is not empty and begins
/// at that place, and leads to the place at its end, which fits again.
pub proof fn lemma_step_fits(len: int, spans: Seq<Span>, place: Place)
    requires
        ordered_within(spans, 0, len),
        place_fits(len, spans, place),
    ensures
        match step(len, spans, place) {
            None => place.at == len,
            Some((piece, next)) => {
                &&& place_fits(len, spans, next)
                &&& piece.start() == place.at
                &&& piece.end() == next.at
                &&& place.at < next.at
                &&& pulls_left(len, spans, next) < pulls_left(len, spans, place)
            },
        },
{
    if place.index < spans.len() {
        let span = spans[place.index];
        assert(span.start + 3 <= span.end <= len);
        if place.index + 1 < spans.len() {
            assert(span.end <= spans[place.index + 1].start);
        }
    }
}

/// From a place that fits, the pieces joined in order are the buffer from
/// that place on.
pub proof fn lemma_pieces_cover(bytes: Seq<u8>, spans: Seq<Span>, place: Place)
    requires
        ordered_within(spans, 0, bytes.len() as int),
        place_fits(bytes.len() as int, spans, place),
    ensures
        joined(bytes, pieces_from(bytes.len() as int, spans, place)) == bytes.subrange(
            place.at,
            bytes.len() as int,
        ),
    decreases pulls_left(bytes.len() as int, spans, place),
{
    let len = bytes.len() as int;
    let all = pieces_from(len, spans, place);
    lemma_step_fits(len, spans, place);
    match step(len, spans, place) {
        None => {
            assert(bytes.subrange(place.at, len) =~= Seq::<u8>::empty());
        },
        Some((piece, next)) => {
            lemma_pieces_cover(bytes, spans, next);
            let rest = pieces_from(len, spans, next);
            assert(all == seq![piece] + rest);
            assert(all.drop_first() =~= rest);
            assert(all[0] == piece);
            assert(bytes.subrange(place.at, next.at) + bytes.subrange(next.at, len)
                =~= bytes.subrange(place.at, len));
        },
    }
}

/// From a place that fits, each piece begins where the one before ended, no
/// piece is empty, and the last piece ends with the buffer.
pub proof fn lemma_pieces_contiguous(len: int, spans: Seq<Span>, place: Place)
    requires
        ordered_within(spans, 0, len),
        place_fits(len, spans, place),
    ensures
        contiguous(pieces_from(len, spans, place), place.at, len),
    decreases pulls_left(len, spans, place),
{
    let all = pieces_from(len, spans, place);
    lemma_step_fits(len, spans, place);
    match step(len, spans, place) {
        None => {
            assert(all.len() == 0);
        },
        Some((piece, next)) => {
            lemma_pieces_contiguous(len, spans, next);
            let rest = pieces_from(len, spans, next);
            assert(all == seq![piece] + rest);
            assert(all[0] == piece);
            assert forall|k: int| 0 <= k < all.len() implies (#[trigger] all[k]).start()
                < all[k].end() && all[k].start() == (if k == 0 {
                place.at
            } else {
                all[k - 1].end()
            }) by {
                if k > 0 {
                    assert(all[k] == rest[k - 1]);
                    if k > 1 {
                        assert(all[k - 1] == rest[k - 2]);
                    }
                }
            }
            if rest.len() > 0 {
                assert(all.last() == rest.last());
            } else {
                assert(all.last() == piece);
            }
        },
    }
}

/// The pieces of a buffer, joined in order, are the buffer: every byte
/// belongs to exactly one piece.
pub proof fn lemma_pieces_partition(bytes: Seq<u8>)
    ensures
        joined(bytes, pieces(bytes)) == bytes,
        contiguous(pieces(bytes), 0, bytes.len() as int),
{
    lemma_scan_ordered(bytes, 0);
    lemma_pieces_cover(bytes, scan(bytes), Place { index: 0, at: 0 });
    lemma_pieces_contiguous(bytes.len() as int, scan(bytes), Place { index: 0, at: 0 });
    assert(bytes.subrange(0, bytes.len() as int) =~= bytes);
}

/// From a place on a boundary, every piece begins and ends on a boundary,
/// where the spans do.
pub proof fn lemma_pieces_from_on_boundaries(bytes: Seq<u8>, spans: Seq<Span>, place: Place)
    requires
        valid_utf8(bytes),
        ordered_within(spans, 0, bytes.len() as int),
        place_fits(bytes.len() as int, spans, place),
        is_char_boundary(bytes, place.at),
        forall|k: int|
            0 <= k < spans.len() ==> is_char_boundary(bytes, (#[trigger] spans[k]).start)
                && is_char_boundary(bytes, spans[k].end),
    ensures
        forall|k: int|
            0 <= k < pieces_from(bytes.len() as int, spans, place).len() ==> on_boundaries(
                bytes,
                #[trigger] pieces_from(bytes.len() as int, spans, place)[k],
            ),
    decreases pulls_left(bytes.len() as int, spans, place),
{
    let len = bytes.len() as int;
    let all = pieces_from(len, spans, place);
    lemma_step_fits(len, spans, place);
    match step(len, spans, place) {
        None => {
            assert(all.len() == 0);
        },
        Some((piece, next)) => {
            is_char_boundary_start_end_of_seq(bytes);
            lemma_pieces_from_on_boundaries(bytes, spans, next);
            let rest = pieces_from(len, spans, next);
            assert(all == seq![piece] + rest);
            assert forall|k: int| 0 <= k < all.len() implies on_boundaries(
                bytes,
                #[trigger] all[k],
            ) by {
                if k > 0 {
                    assert(all[k] == rest[k - 1]);
                } else {
                    assert(all[0] == piece);
                }
            }
        },
    }
}

/// No piece of valid UTF-8 text begins or ends inside a code point.
pub proof fn lemma_pieces_on_boundaries(bytes: Seq<u8>)
    requires
        valid_utf8(bytes),
    ensures
        forall|k: int|
            0 <= k < pieces(bytes).len() ==> on_boundaries(bytes, #[trigger] pieces(bytes)[k]),
{
    lemma_scan_ordered(bytes, 0);
    lemma_scan_on_boundaries(bytes);
    is_char_boundary_start_end_of_seq(bytes);
    lemma_pieces_from_on_boundaries(bytes, scan(bytes), Place { index: 0, at: 0 });
}

} // verus!
