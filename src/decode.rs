//! The decoder: executable parsers, each proved to compute what the grammar
//! says of the same input.
use crate::grammar::{
    assemble, atom_at, build_dict, close_marker, decode_spec, dedup, digits_end, digits_value,
    is_digit, items_at, key_index, value_at, DecodeError, COLON, DICT_CLOSE, DICT_OPEN,
    DIGIT_NINE, DIGIT_ZERO, DOUBLE_QUOTE, FALSE_TAG, LIST_CLOSE, LIST_OPEN, MINUS, PLUS,
    RECORD_CLOSE, RECORD_OPEN, SET_CLOSE, SET_OPEN, SINGLE_QUOTE, TRUE_TAG,
};
use crate::value::{matched_by, same, values_equal, view_pairs, view_seq, SValue, Value};
use vstd::prelude::*;
use vstd::string::StringSliceAdditionalSpecFns;
use vstd::utf8::{decode_utf8, is_char_boundary, valid_utf8};

verus! {

broadcast use vstd::utf8::encode_utf8_decode_utf8;

/// `r` carries what the grammar gives in `m`.
pub open spec fn decoded_as(r: Result<(Value, usize), DecodeError>, m: Result<(SValue, int), DecodeError>) -> bool {
    match r {
        Ok((v, n)) => m == Ok::<(SValue, int), DecodeError>((v@, n as int)),
        Err(e) => m == Err::<(SValue, int), DecodeError>(e),
    }
}

/// Relies on `std::str::from_utf8`: it succeeds exactly on valid UTF-8, and the
/// text it returns is made of the same bytes.
#[verifier::external_body]
fn utf8_text(b: &[u8]) -> (r: Option<&str>)
    ensures
        r is Some <==> valid_utf8(b@),
        r matches Some(t) ==> t.spec_bytes() == b@,
{
    std::str::from_utf8(b).ok()
}

/// Copies `s[start .. start + n]`.
fn copy_bytes(s: &[u8], start: usize, n: usize) -> (r: Vec<u8>)
    requires
        start + n <= s.len(),
    ensures
        r@ == s@.subrange(start as int, start + n),
{
    let mut out: Vec<u8> = Vec::new();
    let mut i: usize = 0;
    while i < n
        invariant
            start + n <= s.len(),
            i <= n,
            out@ == s@.subrange(start as int, start + i),
        decreases n - i,
    {
        out.push(s[start + i]);
        i += 1;
        assert(out@ =~= s@.subrange(start as int, start + i));
    }
    out
}

/// Decodes an integer, byte string, string or symbol at `p`, where a digit
/// stands.
fn parse_atom(s: &[u8], p: usize) -> (r: Result<(Value, usize), DecodeError>)
    requires
        p < s.len(),
        is_digit(s@[p as int]),
    ensures
        decoded_as(r, atom_at(s@, p as int)),
        r matches Ok((_, e)) ==> p < e <= s.len(),
{
    let mut q: usize = p;
    let mut acc: u128 = 0;
    let mut big: bool = false;
    while q < s.len() && DIGIT_ZERO <= s[q] && s[q] <= DIGIT_NINE
        invariant
            p <= q <= s.len(),
            digits_end(s@, p as int) == digits_end(s@, q as int),
            big <==> digits_value(s@.subrange(p as int, q as int)) > u64::MAX,
            !big ==> acc == digits_value(s@.subrange(p as int, q as int)),
        decreases s.len() - q,
    {
        let ghost before = s@.subrange(p as int, q as int);
        assert(s@.subrange(p as int, q + 1).drop_last() =~= before);
        if !big {
            acc = acc * 10 + (s[q] - DIGIT_ZERO) as u128;
            if acc > u64::MAX as u128 {
                big = true;
            }
        }
        q += 1;
    }
    let ghost n = digits_value(s@.subrange(p as int, q as int));
    if q >= s.len() {
        return Err(DecodeError::SyntaxMismatch);
    }
    let d = s[q];
    if d == PLUS || d == MINUS {
        if big || acc > i64::MAX as u128 {
            return Err(DecodeError::MalformedInteger);
        }
        let m = acc as i64;
        if d == PLUS {
            Ok((Value::SignedInteger(m), q + 1))
        } else {
            Ok((Value::SignedInteger(-m), q + 1))
        }
    } else if d == COLON || d == DOUBLE_QUOTE || d == SINGLE_QUOTE {
        let rest = s.len() - (q + 1);
        if big || acc > rest as u128 {
            return Err(DecodeError::UnexpectedEnd);
        }
        let len = acc as usize;
        let payload = copy_bytes(s, q + 1, len);
        let end = q + 1 + len;
        if d == COLON {
            return Ok((Value::ByteString(payload), end));
        }
        match utf8_text(payload.as_slice()) {
            None => Err(DecodeError::InvalidEncoding),
            Some(t) => {
                let text = t.to_owned();
                if d == DOUBLE_QUOTE {
                    Ok((Value::String(text), end))
                } else {
                    Ok((Value::Symbol(text), end))
                }
            },
        }
    } else {
        Err(DecodeError::SyntaxMismatch)
    }
}

/// The elements of `xs` in reverse order.
fn reversed(xs: Vec<Value>) -> (r: Vec<Value>)
    ensures
        r.len() == xs.len(),
        forall|j: int| 0 <= j < r.len() ==> r@[j] == xs@[xs.len() - 1 - j],
{
    let ghost all = xs@;
    let mut xs = xs;
    let mut out: Vec<Value> = Vec::new();
    while xs.len() > 0
        invariant
            xs.len() + out.len() == all.len(),
            xs@ == all.subrange(0, xs.len() as int),
            forall|j: int| 0 <= j < out.len() ==> out@[j] == all[all.len() - 1 - j],
        decreases xs.len(),
    {
        let x = xs.pop().unwrap();
        out.push(x);
    }
    out
}

/// Whether some element of `xs` is the same as `x`.
fn contains_value(xs: &Vec<Value>, x: &Value) -> (r: bool)
    ensures
        r == matched_by(view_seq(xs@), x@),
{
    let mut i: usize = 0;
    while i < xs.len()
        invariant
            i <= xs.len(),
            forall|j: int| 0 <= j < i ==> !same(#[trigger] view_seq(xs@)[j], x@),
        decreases xs.len() - i,
    {
        assert(view_seq(xs@)[i as int] == xs@[i as int]@);
        if values_equal(&xs[i], x) {
            return true;
        }
        i += 1;
    }
    false
}

/// The position of the entry with key `k`, where there is one.
fn key_position(d: &Vec<(Value, Value)>, k: &Value) -> (r: Option<usize>)
    ensures
        match r {
            Some(i) => i < d.len() && key_index(view_pairs(d@), k@) == i,
            None => key_index(view_pairs(d@), k@) == -1,
        },
{
    let mut i: usize = d.len();
    assert(view_pairs(d@).subrange(0, i as int) =~= view_pairs(d@));
    while i > 0
        invariant
            i <= d.len(),
            key_index(view_pairs(d@), k@) == key_index(view_pairs(d@).subrange(0, i as int), k@),
        decreases i,
    {
        let ghost pre = view_pairs(d@).subrange(0, i as int);
        assert(pre.drop_last() =~= view_pairs(d@).subrange(0, i - 1));
        if values_equal(&d[i - 1].0, k) {
            return Some(i - 1);
        }
        i -= 1;
    }
    assert(view_pairs(d@).subrange(0, 0).len() == 0);
    None
}

/// The dictionary of the pairs `xs[0] => xs[1]`, `xs[2] => xs[3]`, ..., a later
/// pair overwriting an earlier one with the same key.
fn build_dictionary(xs: Vec<Value>) -> (r: Vec<(Value, Value)>)
    requires
        xs.len() % 2 == 0,
    ensures
        view_pairs(r@) == build_dict(view_seq(xs@)),
{
    let ghost all = xs@;
    let ghost n = xs.len() as int;
    let mut rest = reversed(xs);
    let mut out: Vec<(Value, Value)> = Vec::new();
    assert(view_seq(all.subrange(0, 0)).len() == 0);
    while rest.len() > 0
        invariant
            rest.len() <= n,
            n % 2 == 0,
            rest.len() % 2 == 0,
            all.len() == n,
            forall|j: int| 0 <= j < rest.len() ==> rest@[j] == all[n - 1 - j],
            view_pairs(out@) == build_dict(view_seq(all.subrange(0, n - rest.len()))),
        decreases rest.len(),
    {
        let ghost m = n - rest.len();
        let k = rest.pop().unwrap();
        let v = rest.pop().unwrap();
        let ghost prev = view_pairs(out@);
        let ghost xs2 = view_seq(all.subrange(0, m + 2));
        assert(xs2.subrange(0, m) =~= view_seq(all.subrange(0, m)));
        assert(xs2[m] == k@ && xs2[m + 1] == v@);
        match key_position(&out, &k) {
            Some(i) => {
                let (old_key, _) = out.remove(i);
                out.insert(i, (old_key, v));
                assert(view_pairs(out@) =~= prev.update(i as int, (prev[i as int].0, xs2[m + 1])));
            },
            None => {
                out.push((k, v));
                assert(view_pairs(out@) =~= prev.push((xs2[m], xs2[m + 1])));
            },
        }
    }
    assert(all.subrange(0, n) =~= all);
    out
}

/// The elements of `xs` without repeats, each kept at its first occurrence.
fn dedup_values(xs: Vec<Value>) -> (r: Vec<Value>)
    ensures
        view_seq(r@) == dedup(view_seq(xs@)),
{
    let ghost all = xs@;
    let ghost n = xs.len() as int;
    let mut rest = reversed(xs);
    let mut out: Vec<Value> = Vec::new();
    assert(view_seq(all.subrange(0, 0)).len() == 0);
    while rest.len() > 0
        invariant
            rest.len() <= n,
            all.len() == n,
            forall|j: int| 0 <= j < rest.len() ==> rest@[j] == all[n - 1 - j],
            view_seq(out@) == dedup(view_seq(all.subrange(0, n - rest.len()))),
        decreases rest.len(),
    {
        let ghost m = n - rest.len();
        let x = rest.pop().unwrap();
        let ghost prev = view_seq(out@);
        let ghost xs2 = view_seq(all.subrange(0, m + 1));
        assert(xs2.drop_last() =~= view_seq(all.subrange(0, m)));
        assert(xs2.last() == x@);
        if !contains_value(&out, &x) {
            out.push(x);
            assert(view_seq(out@) =~= prev.push(xs2.last()));
        }
    }
    assert(all.subrange(0, n) =~= all);
    out
}

/// The container that the children `xs` between `open` and its closing marker
/// make.
fn assemble_container(open: u8, xs: Vec<Value>) -> (r: Result<Value, DecodeError>)
    ensures
        match r {
            Ok(v) => assemble(open, view_seq(xs@)) == Ok::<SValue, DecodeError>(v@),
            Err(e) => assemble(open, view_seq(xs@)) == Err::<SValue, DecodeError>(e),
        },
{
    if open == DICT_OPEN {
        if xs.len() % 2 == 0 {
            Ok(Value::Dictionary(build_dictionary(xs)))
        } else {
            Err(DecodeError::SyntaxMismatch)
        }
    } else if open == LIST_OPEN {
        Ok(Value::Sequence(xs))
    } else if open == RECORD_OPEN {
        if xs.len() > 0 {
            let ghost all = view_seq(xs@);
            let mut fields = xs;
            let label = fields.remove(0);
            assert(view_seq(fields@) =~= all.drop_first());
            Ok(Value::Record(Box::new(label), fields))
        } else {
            Err(DecodeError::SyntaxMismatch)
        }
    } else {
        Ok(Value::SetOf(dedup_values(xs)))
    }
}

fn closing(open: u8) -> (r: u8)
    ensures
        r == close_marker(open),
{
    if open == DICT_OPEN {
        DICT_CLOSE
    } else if open == LIST_OPEN {
        LIST_CLOSE
    } else if open == RECORD_OPEN {
        RECORD_CLOSE
    } else {
        SET_CLOSE
    }
}

/// `xs` followed by what `m` holds, or `m`'s error.
pub open spec fn prepend(xs: Seq<SValue>, m: Result<(Seq<SValue>, int), DecodeError>) -> Result<(Seq<SValue>, int), DecodeError> {
    match m {
        Ok((vs, e)) => Ok((xs + vs, e)),
        Err(err) => Err(err),
    }
}

/// Decodes the values from `p` up to the marker `close`, and returns them with
/// the position just past that marker.
pub fn parse_items(s: &[u8], p: usize, close: u8) -> (r: Result<(Vec<Value>, usize), DecodeError>)
    requires
        p <= s.len(),
    ensures
        match r {
            Ok((vs, e)) => items_at(s@, p as int, close) == Ok::<(Seq<SValue>, int), DecodeError>((view_seq(vs@), e as int)),
            Err(err) => items_at(s@, p as int, close) == Err::<(Seq<SValue>, int), DecodeError>(err),
        },
        r matches Ok((_, e)) ==> p < e <= s.len(),
    decreases s.len() - p, 1int,
{
    let mut out: Vec<Value> = Vec::new();
    let mut q: usize = p;
    assert(view_seq(out@) =~= seq![]);
    assert(prepend(seq![], items_at(s@, p as int, close)) =~= items_at(s@, p as int, close));
    loop
        invariant
            p <= q <= s.len(),
            items_at(s@, p as int, close) == prepend(view_seq(out@), items_at(s@, q as int, close)),
        decreases s.len() - q,
    {
        if q >= s.len() {
            return Err(DecodeError::UnexpectedEnd);
        }
        if s[q] == close {
            assert(view_seq(out@) + seq![] =~= view_seq(out@));
            return Ok((out, q + 1));
        }
        match parse_value(s, q) {
            Err(e) => {
                return Err(e);
            },
            Ok((v, e)) => {
                let ghost prev = view_seq(out@);
                let ghost vv = v@;
                out.push(v);
                assert(view_seq(out@) =~= prev.push(vv));
                proof {
                    match items_at(s@, e as int, close) {
                        Ok((vs, f)) => {
                            assert(prev + (seq![vv] + vs) =~= prev.push(vv) + vs);
                        },
                        Err(_) => {},
                    }
                }
                q = e;
            },
        }
    }
}

/// Decodes the value at position `p` of `s`, and returns it with the position
/// just past it.
pub fn parse_value(s: &[u8], p: usize) -> (r: Result<(Value, usize), DecodeError>)
    ensures
        decoded_as(r, value_at(s@, p as int)),
        r matches Ok((_, e)) ==> p < e <= s.len(),
    decreases s.len() - p, 0int,
{
    if p >= s.len() {
        return Err(DecodeError::SyntaxMismatch);
    }
    let c = s[p];
    if c == TRUE_TAG {
        Ok((Value::Boolean(true), p + 1))
    } else if c == FALSE_TAG {
        Ok((Value::Boolean(false), p + 1))
    } else if DIGIT_ZERO <= c && c <= DIGIT_NINE {
        parse_atom(s, p)
    } else if c == DICT_OPEN || c == LIST_OPEN || c == RECORD_OPEN || c == SET_OPEN {
        match parse_items(s, p + 1, closing(c)) {
            Ok((xs, e)) => match assemble_container(c, xs) {
                Ok(v) => Ok((v, e)),
                Err(err) => Err(err),
            },
            Err(err) => Err(err),
        }
    } else {
        Err(DecodeError::SyntaxMismatch)
    }
}

/// Decodes the value at the start of `input`, and returns it with the number
/// of bytes it spans. Bytes after the value are left alone.
///
/// Containers are decoded recursively, so the nesting depth that can be
/// decoded is bounded by the stack.
pub fn decode(input: &[u8]) -> (r: Result<(Value, usize), DecodeError>)
    ensures
        decoded_as(r, decode_spec(input@)),
        r matches Ok((_, n)) ==> 0 < n <= input.len(),
{
    parse_value(input, 0)
}

/// Decodes the value at the start of `input` and advances `input` past it.
///
/// A byte string may end inside a multi-byte character of the text; the rest
/// of the text then cannot be handed back, and the call fails with
/// `InvalidEncoding`. On failure `input` is left as it was.
pub fn from_str<'a>(input: &mut &'a str) -> (r: Result<Value, DecodeError>)
    ensures
        ({
            let b = old(input).spec_bytes();
            match decode_spec(b) {
                Ok((v, n)) => if is_char_boundary(b, n) {
                    &&& r matches Ok(x) && x@ == v
                    &&& final(input).spec_bytes() == b.subrange(n, b.len() as int)
                } else {
                    &&& r == Err::<Value, DecodeError>(DecodeError::InvalidEncoding)
                    &&& *final(input) == *old(input)
                },
                Err(e) => {
                    &&& r == Err::<Value, DecodeError>(e)
                    &&& *final(input) == *old(input)
                },
            }
        }),
{
    let text: &'a str = *input;
    match decode(text.as_bytes()) {
        Err(e) => Err(e),
        Ok((v, n)) => {
            if text.is_char_boundary(n) {
                let (_, rest) = text.split_at(n);
                *input = rest;
                Ok(v)
            } else {
                Err(DecodeError::InvalidEncoding)
            }
        },
    }
}

} // verus!
