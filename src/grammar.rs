//! The Syrup grammar as mathematical functions over the input bytes.
use crate::value::{matched_by, same, SValue};
use vstd::prelude::*;
use vstd::utf8::{decode_utf8, valid_utf8};

verus! {

pub const TRUE_TAG: u8 = 0x74; // t
pub const FALSE_TAG: u8 = 0x66; // f
pub const DIGIT_ZERO: u8 = 0x30;
pub const DIGIT_NINE: u8 = 0x39;
pub const PLUS: u8 = 0x2b;
pub const MINUS: u8 = 0x2d;
pub const COLON: u8 = 0x3a;
pub const DOUBLE_QUOTE: u8 = 0x22;
pub const SINGLE_QUOTE: u8 = 0x27;
pub const DICT_OPEN: u8 = 0x7b; // {
pub const DICT_CLOSE: u8 = 0x7d; // }
pub const LIST_OPEN: u8 = 0x5b; // [
pub const LIST_CLOSE: u8 = 0x5d; // ]
pub const RECORD_OPEN: u8 = 0x3c; // <
pub const RECORD_CLOSE: u8 = 0x3e; // >
pub const SET_OPEN: u8 = 0x23; // #
pub const SET_CLOSE: u8 = 0x24; // $

/// Why a decode failed.
#[derive(Debug, Clone, Copy, PartialEq, Eq, Structural)]
pub enum DecodeError {
    /// The input at the current position matches no value form (this includes
    /// an empty input, and digits followed by none of `+ - : " '`).
    SyntaxMismatch,
    /// A declared length runs past the input, or the input ends inside a
    /// container, before its closing marker.
    UnexpectedEnd,
    /// An integer's magnitude does not fit in an `i64`.
    MalformedInteger,
    /// A string or symbol payload is not valid UTF-8.
    InvalidEncoding,
}

pub open spec fn is_digit(b: u8) -> bool {
    DIGIT_ZERO <= b <= DIGIT_NINE
}

/// Position just past the run of decimal digits that starts at `p`.
pub open spec fn digits_end(s: Seq<u8>, p: int) -> int
    decreases s.len() - p,
{
    if 0 <= p < s.len() && is_digit(s[p]) {
        digits_end(s, p + 1)
    } else {
        p
    }
}

/// The number that a run of decimal digits denotes.
pub open spec fn digits_value(d: Seq<u8>) -> nat
    decreases d.len(),
{
    if d.len() == 0 {
        0
    } else {
        digits_value(d.drop_last()) * 10 + (d.last() - DIGIT_ZERO) as nat
    }
}

/// The forms that begin with a digit run: an integer (`<digits>+`, `<digits>-`),
/// a byte string (`<len>:`), a string (`<len>"`) or a symbol (`<len>'`),
/// told apart by the byte that follows the digits.
pub open spec fn atom_at(s: Seq<u8>, p: int) -> Result<(SValue, int), DecodeError> {
    let q = digits_end(s, p);
    let n = digits_value(s.subrange(p, q));
    if q >= s.len() {
        Err(DecodeError::SyntaxMismatch)
    } else if s[q] == PLUS || s[q] == MINUS {
        if n <= i64::MAX {
            Ok((SValue::SignedInteger(if s[q] == PLUS { n as int } else { -n }), q + 1))
        } else {
            Err(DecodeError::MalformedInteger)
        }
    } else if s[q] == COLON || s[q] == DOUBLE_QUOTE || s[q] == SINGLE_QUOTE {
        if n > s.len() - (q + 1) {
            Err(DecodeError::UnexpectedEnd)
        } else {
            let payload = s.subrange(q + 1, q + 1 + n);
            let end = q + 1 + n;
            if s[q] == COLON {
                Ok((SValue::ByteString(payload), end))
            } else if !valid_utf8(payload) {
                Err(DecodeError::InvalidEncoding)
            } else if s[q] == DOUBLE_QUOTE {
                Ok((SValue::String(decode_utf8(payload)), end))
            } else {
                Ok((SValue::Symbol(decode_utf8(payload)), end))
            }
        }
    } else {
        Err(DecodeError::SyntaxMismatch)
    }
}

pub open spec fn is_open_marker(c: u8) -> bool {
    c == DICT_OPEN || c == LIST_OPEN || c == RECORD_OPEN || c == SET_OPEN
}

/// The marker that closes the container opened by `c`.
pub open spec fn close_marker(c: u8) -> u8 {
    if c == DICT_OPEN {
        DICT_CLOSE
    } else if c == LIST_OPEN {
        LIST_CLOSE
    } else if c == RECORD_OPEN {
        RECORD_CLOSE
    } else {
        SET_CLOSE
    }
}

/// The index of the last entry whose key is the same as `k`, or -1 where there
/// is none.
pub open spec fn key_index(d: Seq<(SValue, SValue)>, k: SValue) -> int
    decreases d.len(),
{
    if d.len() == 0 {
        -1
    } else if same(d.last().0, k) {
        d.len() - 1
    } else {
        key_index(d.drop_last(), k)
    }
}

/// Enters `k => v`: an entry whose key is the same as `k` keeps its key and
/// takes the value `v`; otherwise the entry is added.
pub open spec fn dict_put(d: Seq<(SValue, SValue)>, k: SValue, v: SValue) -> Seq<(SValue, SValue)> {
    let i = key_index(d, k);
    if i >= 0 {
        d.update(i, (d[i].0, v))
    } else {
        d.push((k, v))
    }
}

/// The dictionary of the pairs `xs[0] => xs[1]`, `xs[2] => xs[3]`, ... entered
/// in order, so that a later pair overwrites an earlier one with the same key.
pub open spec fn build_dict(xs: Seq<SValue>) -> Seq<(SValue, SValue)>
    decreases xs.len(),
{
    if xs.len() < 2 {
        seq![]
    } else {
        dict_put(build_dict(xs.subrange(0, xs.len() - 2)), xs[xs.len() - 2], xs[xs.len() - 1])
    }
}

/// The elements of `xs`, each dropped where an earlier kept one is the same.
pub open spec fn dedup(xs: Seq<SValue>) -> Seq<SValue>
    decreases xs.len(),
{
    if xs.len() == 0 {
        seq![]
    } else {
        let d = dedup(xs.drop_last());
        if matched_by(d, xs.last()) {
            d
        } else {
            d.push(xs.last())
        }
    }
}

/// The container that the children `xs` between `open` and its closing marker
/// make.
pub open spec fn assemble(open: u8, xs: Seq<SValue>) -> Result<SValue, DecodeError> {
    if open == DICT_OPEN {
        if xs.len() % 2 == 0 {
            Ok(SValue::Dictionary(build_dict(xs)))
        } else {
            Err(DecodeError::SyntaxMismatch)
        }
    } else if open == LIST_OPEN {
        Ok(SValue::Sequence(xs))
    } else if open == RECORD_OPEN {
        if xs.len() > 0 {
            Ok(SValue::Record(Box::new(xs[0]), xs.drop_first()))
        } else {
            Err(DecodeError::SyntaxMismatch)
        }
    } else {
        Ok(SValue::SetOf(dedup(xs)))
    }
}

/// The value encoded at position `p` of `s`, with the position just past it.
pub open spec fn value_at(s: Seq<u8>, p: int) -> Result<(SValue, int), DecodeError>
    decreases s.len() - p, 0int,
{
    if p < 0 || p >= s.len() {
        Err(DecodeError::SyntaxMismatch)
    } else if s[p] == TRUE_TAG {
        Ok((SValue::Boolean(true), p + 1))
    } else if s[p] == FALSE_TAG {
        Ok((SValue::Boolean(false), p + 1))
    } else if is_digit(s[p]) {
        atom_at(s, p)
    } else if is_open_marker(s[p]) {
        match items_at(s, p + 1, close_marker(s[p])) {
            Ok((xs, e)) => match assemble(s[p], xs) {
                Ok(v) => Ok((v, e)),
                Err(err) => Err(err),
            },
            Err(err) => Err(err),
        }
    } else {
        Err(DecodeError::SyntaxMismatch)
    }
}

/// The values encoded from position `p` up to the marker `close`, with the
/// position just past that marker.
pub open spec fn items_at(s: Seq<u8>, p: int, close: u8) -> Result<(Seq<SValue>, int), DecodeError>
    decreases s.len() - p, 1int,
{
    if p < 0 || p >= s.len() {
        Err(DecodeError::UnexpectedEnd)
    } else if s[p] == close {
        Ok((seq![], p + 1))
    } else {
        match value_at(s, p) {
            Ok((v, q)) => {
                // every value spans at least one byte of the input
                if p < q <= s.len() {
                    match items_at(s, q, close) {
                        Ok((vs, e)) => Ok((seq![v] + vs, e)),
                        Err(err) => Err(err),
                    }
                } else {
                    Err(DecodeError::SyntaxMismatch)
                }
            },
            Err(err) => Err(err),
        }
    }
}

/// What decoding `s` from its start gives.
pub open spec fn decode_spec(s: Seq<u8>) -> Result<(SValue, int), DecodeError> {
    value_at(s, 0)
}

} // verus!
