//! The tokenizer: a text cut into plain text and escape tokens, one token
//! for each pull.
use vstd::prelude::*;
use vstd::string::*;
use vstd::utf8::*;
use crate::boundary::slice_between;
use crate::enums::{decode, CSISequence};
use crate::grammar::scan;
use crate::parser::{is_scan_of, parse, spans_of, Match};
use crate::pieces::{
    joined, lemma_pieces_partition, pieces, pieces_from, pulls_left, step, Piece, Place,
};

verus! {

/// One token of a text: a stretch of plain text, or the meaning of a
/// sequence.
#[derive(Debug, Copy, Clone, PartialEq)]
pub enum Output<'a> {
    Text(&'a str),
    Escape(CSISequence),
}

impl Output<'_> {
    /// This token is the one that `piece` of `bytes` gives: the text of its
    /// range, or the meaning of its sequence.
    pub open spec fn is_piece(&self, piece: Piece, bytes: Seq<u8>) -> bool {
        match (*self, piece) {
            (Output::Text(text), Piece::Text { .. }) => text.spec_bytes() == piece.bytes_in(bytes),
            (Output::Escape(sequence), Piece::Escape { span }) => sequence == decode(
                piece.bytes_in(bytes),
                span.kind,
            ),
            _ => false,
        }
    }

    #[inline]
    pub fn is_text(&self) -> (r: bool)
        ensures
            r == (self is Text),
    {
        match self {
            Output::Text(_) => true,
            Output::Escape(_) => false,
        }
    }

    #[inline]
    pub fn is_esc(&self) -> (r: bool)
        ensures
            r == (self is Escape),
    {
        !self.is_text()
    }
}

/// The tokens are those that the pieces give, one for one.
pub open spec fn tokens_of(tokens: Seq<Output<'_>>, pieces: Seq<Piece>, bytes: Seq<u8>) -> bool {
    &&& tokens.len() == pieces.len()
    &&& forall|k: int| 0 <= k < tokens.len() ==> (#[trigger] tokens[k]).is_piece(pieces[k], bytes)
}

/// A text that can be cut into tokens.
pub trait CsiParser {
    /// The bytes of the text.
    spec fn text_bytes(&self) -> Seq<u8>;

    /// A tokenizer that stands before the first byte of the text. The text
    /// is scanned once, at the first pull.
    fn csi_parser(&self) -> (tokens: CsiIterator<'_>)
        ensures
            tokens.buffer() == self.text_bytes(),
            tokens.place() == (Place { index: 0, at: 0 }),
    ;
}

impl CsiParser for str {
    open spec fn text_bytes(&self) -> Seq<u8> {
        self.spec_bytes()
    }

    fn csi_parser(&self) -> (tokens: CsiIterator<'_>) {
        proof {
            encode_utf8_valid_utf8(self@);
            is_char_boundary_start_end_of_seq(self.spec_bytes());
        }
        CsiIterator { data: self, matches: None, index: 0, index_of_data: 0 }
    }
}

/// What the next pull gives: the text up to the start of the next sequence,
/// that sequence with the place of its end, or the rest of the text.
enum Upcoming {
    TextUpTo(usize),
    Sequence(usize, CSISequence),
    Rest,
}

/// The tokenizer of one text. It goes forward only: to begin again, make a
/// new one.
pub struct CsiIterator<'a> {
    // the text that is being cut
    data: &'a str,
    // the sequences of the text, found once, at the first pull at the latest
    matches: Option<Vec<Match<'a>>>,
    // the number of sequences that have been given out
    index: usize,
    // the first byte of the text that no token has covered yet
    index_of_data: usize,
}

impl<'a> CsiIterator<'a> {
    /// The bytes of the text that is being cut.
    pub closed spec fn buffer(&self) -> Seq<u8> {
        self.data.spec_bytes()
    }

    /// Where the tokenizer stands.
    pub closed spec fn place(&self) -> Place {
        Place { index: self.index as int, at: self.index_of_data as int }
    }

    #[verifier::type_invariant]
    spec fn inv(&self) -> bool {
        &&& self.index_of_data <= self.data.spec_bytes().len()
        &&& is_char_boundary(self.data.spec_bytes(), self.index_of_data as int)
        &&& match self.matches {
            None => self.index == 0,
            Some(found) => {
                &&& is_scan_of(found@, self.data.spec_bytes())
                &&& self.index <= found@.len()
                &&& forall|k: int|
                    0 <= k < found@.len() ==> is_char_boundary(
                        self.data.spec_bytes(),
                        (#[trigger] found@[k]).start as int,
                    ) && is_char_boundary(self.data.spec_bytes(), found@[k].end as int)
            },
        }
    }

    /// One pull: the next token, or `None` when the text is used up.
    ///
    /// The token and the place behind it are those of one step of the model
    /// over the sequences that a scan of the text finds. A pull that gives
    /// nothing leaves the tokenizer where it stood.
    pub fn next(&mut self) -> (token: Option<Output<'a>>)
        ensures
            final(self).buffer() == old(self).buffer(),
            match step(old(self).buffer().len() as int, scan(old(self).buffer()), old(self).place()) {
                None => token is None && final(self).place() == old(self).place(),
                Some((piece, next)) => token is Some && token->0.is_piece(
                    piece,
                    old(self).buffer(),
                ) && final(self).place() == next,
            },
    {
        broadcast use group_utf8_lib;

        proof {
            use_type_invariant(&*self);
        }
        if self.matches.is_none() {
            self.matches = Some(parse(self.data));
        }
        let ghost bytes = self.data.spec_bytes();
        let data = self.data;
        let len = data.as_bytes().len();
        let at = self.index_of_data;
        let index = self.index;
        proof {
            encode_utf8_valid_utf8(data@);
            is_char_boundary_start_end_of_seq(bytes);
            assert(self.matches is Some);
            assert(spans_of(self.matches->0@) == scan(bytes));
            assert(spans_of(self.matches->0@).len() == self.matches->0@.len());
        }
        let upcoming = match &self.matches {
            Some(found) => {
                if index < found.len() {
                    let sequence = &found[index];
                    assert(sequence.span() == spans_of(found@)[index as int]);
                    if at < sequence.start {
                        Upcoming::TextUpTo(sequence.start)
                    } else {
                        Upcoming::Sequence(sequence.end, CSISequence::from(sequence))
                    }
                } else {
                    Upcoming::Rest
                }
            },
            None => Upcoming::Rest,
        };
        match upcoming {
            Upcoming::Rest => {
                if at < len {
                    self.index_of_data = len;
                    Some(Output::Text(slice_between(data, at, len)))
                } else {
                    None
                }
            },
            Upcoming::TextUpTo(start) => {
                self.index_of_data = start;
                Some(Output::Text(slice_between(data, at, start)))
            },
            Upcoming::Sequence(end, meaning) => {
                self.index_of_data = end;
                self.index = index + 1;
                Some(Output::Escape(meaning))
            },
        }
    }

    /// All the tokens that are left, in order.
    ///
    /// They are the tokens of the pieces that the model gives from the place
    /// where the tokenizer stands. From the beginning of a text these pieces,
    /// joined in order, are the text.
    pub fn collect(self) -> (tokens: Vec<Output<'a>>)
        ensures
            tokens_of(
                tokens@,
                pieces_from(self.buffer().len() as int, scan(self.buffer()), self.place()),
                self.buffer(),
            ),
            self.place() == (Place { index: 0, at: 0 }) ==> joined(
                self.buffer(),
                pieces(self.buffer()),
            ) == self.buffer() && tokens_of(tokens@, pieces(self.buffer()), self.buffer()),
    {
        let ghost bytes = self.buffer();
        let ghost len = bytes.len() as int;
        let ghost spans = scan(bytes);
        let ghost all = pieces_from(len, spans, self.place());
        let mut tokens: Vec<Output<'a>> = Vec::new();
        let mut rest = self;
        let mut done = false;
        let ghost mut given: Seq<Piece> = Seq::empty();
        assert(given + pieces_from(len, spans, rest.place()) =~= all);
        while !done
            invariant
                rest.buffer() == bytes,
                len == bytes.len(),
                spans == scan(bytes),
                tokens_of(tokens@, given, bytes),
                done ==> given == all,
                !done ==> given + pieces_from(len, spans, rest.place()) == all,
            decreases (if done { 0int } else { 1int }), pulls_left(len, spans, rest.place()),
        {
            let ghost before = rest.place();
            match rest.next() {
                None => {
                    assert(pieces_from(len, spans, before) =~= Seq::<Piece>::empty());
                    assert(given + Seq::<Piece>::empty() =~= given);
                    done = true;
                },
                Some(token) => {
                    proof {
                        let (piece, next) = step(len, spans, before)->0;
                        let tail = pieces_from(len, spans, next);
                        assert(pieces_from(len, spans, before) == seq![piece] + tail);
                        assert(given.push(piece) + tail =~= given + (seq![piece] + tail));
                        given = given.push(piece);
                    }
                    tokens.push(token);
                },
            }
        }
        proof {
            lemma_pieces_partition(bytes);
        }
        tokens
    }
}

} // verus!
