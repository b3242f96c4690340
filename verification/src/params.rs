//! The parameters of a sequence: the body between marker and final byte,
//! split at `;`, and the number that each piece stands for.
use vstd::prelude::*;
use crate::SEPARATOR;

verus! {

/// The private-use prefix `?` of a parameter.
pub const PRIVATE_PREFIX: u8 = 0x3f;

/// The sign `+` that may stand before the digits of a number.
pub const PLUS: u8 = 0x2b;

/// What stands between the marker and the final byte of a sequence's text.
/// A text too short to hold both has an empty body.
pub open spec fn body_of(text: Seq<u8>) -> Seq<u8> {
    if text.len() >= 3 {
        text.subrange(2, text.len() - 1)
    } else {
        Seq::empty()
    }
}

/// The number of bytes from `from` up to the next separator or the end.
pub open spec fn token_len(body: Seq<u8>, from: int) -> nat
    decreases body.len() - from,
{
    if 0 <= from < body.len() && body[from] != SEPARATOR {
        1 + token_len(body, from + 1)
    } else {
        0
    }
}

/// The pieces that the separators cut `body` into from byte `from` on: the
/// bytes up to the first separator, and behind it the pieces of the rest.
/// There is always a first piece, so the list is never empty.
pub open spec fn split_from(body: Seq<u8>, from: int) -> Seq<Seq<u8>>
    decreases body.len() - from,
{
    let stop = from + token_len(body, from);
    if stop < body.len() {
        seq![body.subrange(from, stop)] + split_from(body, stop + 1)
    } else {
        seq![body.subrange(from, stop)]
    }
}

/// The raw parameters of a body, in order; an empty piece stands for a
/// parameter that was left out.
pub open spec fn params_of(body: Seq<u8>) -> Seq<Seq<u8>> {
    split_from(body, 0)
}

/// The byte is one of the decimal digits `0` to `9`.
pub open spec fn is_digit(byte: u8) -> bool {
    0x30 <= byte <= 0x39
}

/// Every byte is a decimal digit.
pub open spec fn all_digits(digits: Seq<u8>) -> bool {
    forall|i: int| 0 <= i < digits.len() ==> is_digit(#[trigger] digits[i])
}

/// The value of a run of decimal digits, the first digit weighing most.
pub open spec fn decimal(digits: Seq<u8>) -> nat
    decreases digits.len(),
{
    if digits.len() == 0 {
        0
    } else {
        decimal(digits.drop_last()) * 10 + (digits.last() - 0x30) as nat
    }
}

/// The number that a non-empty run of digits names, if a `usize` holds it.
pub open spec fn number_of(digits: Seq<u8>) -> Option<usize> {
    if digits.len() > 0 && all_digits(digits) && decimal(digits) <= usize::MAX {
        Some(decimal(digits) as usize)
    } else {
        None
    }
}

/// `token` without its first byte, where that byte is `prefix`.
pub open spec fn without_prefix(token: Seq<u8>, prefix: u8) -> Seq<u8> {
    if token.len() > 0 && token[0] == prefix {
        token.drop_first()
    } else {
        token
    }
}

/// The value of one raw parameter: one private-use prefix `?` is set aside,
/// then an optional `+` and decimal digits give the number. An empty
/// parameter, one that is no number and one too large for a `usize` have no
/// value.
pub open spec fn param_value(token: Seq<u8>) -> Option<usize> {
    number_of(without_prefix(without_prefix(token, PRIVATE_PREFIX), PLUS))
}

/// The values of a list of raw parameters, one for one.
pub open spec fn values_of(tokens: Seq<Seq<u8>>) -> Seq<Option<usize>> {
    Seq::new(tokens.len(), |k: int| param_value(tokens[k]))
}

/// A piece is found by its two ends: no separator inside `[from, to)`, and a
/// separator or the end of the body at `to`.
pub proof fn lemma_token_len_unique(body: Seq<u8>, from: int, to: int)
    requires
        0 <= from <= to <= body.len(),
        forall|p: int| from <= p < to ==> #[trigger] body[p] != SEPARATOR,
        to < body.len() ==> body[to] == SEPARATOR,
    ensures
        token_len(body, from) == to - from,
    decreases to - from,
{
    if from < to {
        lemma_token_len_unique(body, from + 1, to);
    }
}

/// Among digits, a longer run is worth at least as much as its beginning.
pub proof fn lemma_decimal_prefix(digits: Seq<u8>, k: int)
    requires
        all_digits(digits),
        0 <= k <= digits.len(),
    ensures
        decimal(digits.subrange(0, k)) <= decimal(digits),
    decreases digits.len() - k,
{
    if k == digits.len() {
        assert(digits.subrange(0, k) =~= digits);
    } else {
        let shorter = digits.drop_last();
        lemma_decimal_prefix(shorter, k);
        assert(shorter.subrange(0, k) =~= digits.subrange(0, k));
    }
}

/// The pieces written one behind the other, with a separator between
/// neighbours.
pub open spec fn join(pieces: Seq<Seq<u8>>) -> Seq<u8>
    decreases pieces.len(),
{
    if pieces.len() == 0 {
        Seq::empty()
    } else if pieces.len() == 1 {
        pieces[0]
    } else {
        pieces[0] + seq![SEPARATOR] + join(pieces.drop_first())
    }
}

/// No byte of the piece is a separator.
pub open spec fn separator_free(piece: Seq<u8>) -> bool {
    forall|i: int| 0 <= i < piece.len() ==> #[trigger] piece[i] != SEPARATOR
}

/// A piece ends inside the body or at its end and holds no separator; the
/// byte behind it, if there is one, is a separator.
pub proof fn lemma_token_len(body: Seq<u8>, from: int)
    requires
        0 <= from <= body.len(),
    ensures
        from + token_len(body, from) <= body.len(),
        separator_free(body.subrange(from, from + token_len(body, from))),
        from + token_len(body, from) < body.len() ==> body[from + token_len(body, from)]
            == SEPARATOR,
    decreases body.len() - from,
{
    if from < body.len() && body[from] != SEPARATOR {
        lemma_token_len(body, from + 1);
        let piece = body.subrange(from, from + token_len(body, from));
        let shorter = body.subrange(from + 1, from + 1 + token_len(body, from + 1));
        assert forall|i: int| 0 <= i < piece.len() implies #[trigger] piece[i] != SEPARATOR by {
            if i > 0 {
                assert(piece[i] == shorter[i - 1]);
            }
        }
    }
}

/// Splitting loses nothing and invents nothing: no piece holds a separator,
/// and the pieces joined by separators are the body again.
pub proof fn lemma_split_joins(body: Seq<u8>, from: int)
    requires
        0 <= from <= body.len(),
    ensures
        join(split_from(body, from)) == body.subrange(from, body.len() as int),
        forall|k: int|
            0 <= k < split_from(body, from).len() ==> separator_free(
                #[trigger] split_from(body, from)[k],
            ),
    decreases body.len() - from,
{
    let all = split_from(body, from);
    let stop = from + token_len(body, from);
    let piece = body.subrange(from, stop);
    lemma_token_len(body, from);
    if stop < body.len() {
        let rest = split_from(body, stop + 1);
        lemma_split_joins(body, stop + 1);
        assert(all == seq![piece] + rest);
        assert(all[0] == piece);
        assert(all.drop_first() =~= rest);
        assert(rest.len() >= 1);
        assert(piece + seq![SEPARATOR] + body.subrange(stop + 1, body.len() as int)
            =~= body.subrange(from, body.len() as int));
        assert forall|k: int| 0 <= k < all.len() implies separator_free(#[trigger] all[k]) by {
            if k > 0 {
                assert(all[k] == rest[k - 1]);
            }
        }
    } else {
        assert(all == seq![piece]);
        assert(all[0] == piece);
    }
}

/// A body never has no parameter: one without separators is one parameter,
/// and an empty body is one empty parameter, which has no value.
pub proof fn lemma_params_never_empty(body: Seq<u8>)
    ensures
        params_of(body).len() >= 1,
        token_len(body, 0) == body.len() ==> params_of(body) == seq![body],
        body.len() == 0 ==> values_of(params_of(body)) == seq![None::<usize>],
{
    if token_len(body, 0) == body.len() {
        assert(body.subrange(0, body.len() as int) =~= body);
    }
    if body.len() == 0 {
        assert(values_of(params_of(body)) =~= seq![None::<usize>]);
    }
}

/// The end of the piece that begins at `from`.
pub fn token_end(body: &[u8], from: usize) -> (stop: usize)
    requires
        from <= body@.len(),
    ensures
        stop == from + token_len(body@, from as int),
        from <= stop <= body@.len(),
        stop < body@.len() ==> body@[stop as int] == SEPARATOR,
{
    let mut stop: usize = from;
    while stop < body.len() && body[stop] != SEPARATOR
        invariant
            from <= stop <= body@.len(),
            forall|p: int| from <= p < stop ==> #[trigger] body@[p] != SEPARATOR,
        decreases body@.len() - stop,
    {
        stop += 1;
    }
    proof {
        lemma_token_len_unique(body@, from as int, stop as int);
    }
    stop
}

/// The value of the raw parameter that occupies `body[from..to]`.
pub fn parse_number(body: &[u8], from: usize, to: usize) -> (value: Option<usize>)
    requires
        from <= to <= body@.len(),
    ensures
        value == param_value(body@.subrange(from as int, to as int)),
{
    let ghost token = body@.subrange(from as int, to as int);
    let mut i: usize = from;
    if i < to && body[i] == PRIVATE_PREFIX {
        i += 1;
    }
    let ghost unsigned = without_prefix(token, PRIVATE_PREFIX);
    assert(unsigned =~= body@.subrange(i as int, to as int));
    if i < to && body[i] == PLUS {
        i += 1;
    }
    let ghost digits = without_prefix(unsigned, PLUS);
    assert(digits =~= body@.subrange(i as int, to as int));
    if i == to {
        return None;
    }
    let first: usize = i;
    let mut acc: usize = 0;
    assert(param_value(token) == number_of(digits));
    assert(body@.subrange(first as int, i as int) =~= Seq::<u8>::empty());
    while i < to
        invariant
            from <= first <= i <= to <= body@.len(),
            digits == body@.subrange(first as int, to as int),
            param_value(body@.subrange(from as int, to as int)) == number_of(digits),
            all_digits(body@.subrange(first as int, i as int)),
            decimal(body@.subrange(first as int, i as int)) == acc,
        decreases to - i,
    {
        let byte = body[i];
        if byte < 0x30 || byte > 0x39 {
            assert(!is_digit(digits[i - first]));
            return None;
        }
        let digit: usize = (byte - 0x30) as usize;
        let ghost longer = body@.subrange(first as int, i + 1);
        proof {
            assert(longer.drop_last() =~= body@.subrange(first as int, i as int));
            assert(longer.last() == byte);
            assert(decimal(longer) == acc * 10 + digit);
            assert(all_digits(longer));
            assert(longer =~= digits.subrange(0, i + 1 - first));
            if all_digits(digits) {
                lemma_decimal_prefix(digits, i + 1 - first);
            }
        }
        let scaled = match acc.checked_mul(10) {
            Some(scaled) => scaled,
            None => {
                return None;
            },
        };
        acc = match scaled.checked_add(digit) {
            Some(sum) => sum,
            None => {
                return None;
            },
        };
        i += 1;
    }
    assert(body@.subrange(first as int, i as int) =~= digits);
    Some(acc)
}

/// The values of the parameters of `body`, in order.
pub fn decode_params(body: &[u8]) -> (values: Vec<Option<usize>>)
    ensures
        values@ == values_of(params_of(body@)),
{
    let mut values: Vec<Option<usize>> = Vec::new();
    let mut from: usize = 0;
    let mut done = false;
    while !done
        invariant
            from <= body@.len(),
            done ==> values@ == values_of(params_of(body@)),
            !done ==> values@ + values_of(split_from(body@, from as int)) == values_of(
                params_of(body@),
            ),
        decreases (if done { 0int } else { 1int }), body@.len() - from,
    {
        let stop = token_end(body, from);
        let value = parse_number(body, from, stop);
        let ghost before = values@;
        values.push(value);
        proof {
            let piece = body@.subrange(from as int, stop as int);
            if stop < body@.len() {
                let rest = split_from(body@, stop + 1);
                assert(split_from(body@, from as int) == seq![piece] + rest);
                assert(values_of(seq![piece] + rest) =~= seq![value] + values_of(rest));
                assert(before.push(value) + values_of(rest) =~= before + (seq![value] + values_of(
                    rest,
                )));
            } else {
                assert(split_from(body@, from as int) == seq![piece]);
                assert(values_of(seq![piece]) =~= seq![value]);
                assert(before.push(value) =~= before + seq![value]);
            }
        }
        if stop < body.len() {
            from = stop + 1;
        } else {
            done = true;
        }
    }
    values
}

} // verus!
