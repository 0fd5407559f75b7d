//! Properties of the grammar that hold for every input, each a checked proof.
use crate::grammar::{
    atom_at, build_dict, close_marker, decode_spec, dedup, dict_put, digits_end, digits_value,
    is_digit, is_open_marker, items_at, key_index, value_at, DecodeError, DICT_CLOSE, DICT_OPEN,
    COLON, DIGIT_ZERO, DOUBLE_QUOTE, FALSE_TAG, SINGLE_QUOTE, LIST_CLOSE, LIST_OPEN, MINUS, PLUS, RECORD_CLOSE, RECORD_OPEN,
    SET_CLOSE, SET_OPEN, TRUE_TAG,
};
use crate::value::{
    entry_matched_by, has_entry_match, has_match, matched_by, same, well_formed, SValue,
};
use vstd::prelude::*;

verus! {

/// The decimal digits of `n`, without leading zeros.
pub open spec fn decimal(n: nat) -> Seq<u8>
    decreases n,
{
    if n < 10 {
        seq![(DIGIT_ZERO + n) as u8]
    } else {
        decimal(n / 10).push((DIGIT_ZERO + n % 10) as u8)
    }
}

proof fn lemma_decimal(n: nat)
    ensures
        decimal(n).len() >= 1,
        forall|i: int| 0 <= i < decimal(n).len() ==> is_digit(#[trigger] decimal(n)[i]),
        digits_value(decimal(n)) == n,
    decreases n,
{
    if n < 10 {
        assert(decimal(n).drop_last() =~= seq![]);
        assert(digits_value(seq![]) == 0);
        assert(decimal(n).last() - DIGIT_ZERO == n);
    } else {
        lemma_decimal(n / 10);
        assert(decimal(n).drop_last() =~= decimal(n / 10));
        assert(decimal(n).last() - DIGIT_ZERO == n % 10);
        assert((n / 10) * 10 + n % 10 == n) by (nonlinear_arith);
    }
}

proof fn lemma_digits_end(s: Seq<u8>, p: int, q: int)
    requires
        0 <= p <= q <= s.len(),
        forall|i: int| p <= i < q ==> is_digit(#[trigger] s[i]),
        q == s.len() || !is_digit(s[q]),
    ensures
        digits_end(s, p) == q,
    decreases q - p,
{
    if p < q {
        lemma_digits_end(s, p + 1, q);
    }
}

/// `t` decodes to true and `f` to false, each consuming one byte; any other
/// single byte that does not open a container matches no value form.
pub proof fn lemma_boolean_forms(s: Seq<u8>)
    requires
        s.len() >= 1,
    ensures
        s[0] == TRUE_TAG ==> decode_spec(s) == Ok::<(SValue, int), DecodeError>(
            (SValue::Boolean(true), 1),
        ),
        s[0] == FALSE_TAG ==> decode_spec(s) == Ok::<(SValue, int), DecodeError>(
            (SValue::Boolean(false), 1),
        ),
        s.len() == 1 && s[0] != TRUE_TAG && s[0] != FALSE_TAG && !is_open_marker(s[0])
            ==> decode_spec(s) == Err::<(SValue, int), DecodeError>(DecodeError::SyntaxMismatch),
{
    if s.len() == 1 && is_digit(s[0]) {
        lemma_digits_end(s, 0, 1);
    }
}

/// Every integer `n` up to `i64::MAX` decodes from its decimal digits followed
/// by `+` as `n`, and followed by `-` as `-n`.
pub proof fn lemma_integer_round_trip(n: nat)
    requires
        n <= i64::MAX,
    ensures
        decode_spec(decimal(n).push(PLUS)) == Ok::<(SValue, int), DecodeError>(
            (SValue::SignedInteger(n as int), decimal(n).len() + 1int),
        ),
        decode_spec(decimal(n).push(MINUS)) == Ok::<(SValue, int), DecodeError>(
            (SValue::SignedInteger(-n), decimal(n).len() + 1int),
        ),
{
    lemma_decimal(n);
    let d = decimal(n);
    let plus = d.push(PLUS);
    let minus = d.push(MINUS);
    lemma_digits_end(plus, 0, d.len() as int);
    lemma_digits_end(minus, 0, d.len() as int);
    assert(plus.subrange(0, d.len() as int) =~= d);
    assert(minus.subrange(0, d.len() as int) =~= d);
    assert(is_digit(plus[0]) && is_digit(minus[0]));
}

proof fn lemma_dedup(xs: Seq<SValue>)
    ensures
        forall|i: int| 0 <= i < dedup(xs).len() ==> xs.contains(#[trigger] dedup(xs)[i]),
        forall|i: int, j: int|
            0 <= i < j < dedup(xs).len() ==> !same(#[trigger] dedup(xs)[i], #[trigger] dedup(xs)[j]),
    decreases xs.len(),
{
    if xs.len() > 0 {
        let init = xs.drop_last();
        lemma_dedup(init);
        let d = dedup(init);
        assert forall|i: int| 0 <= i < d.len() implies xs.contains(#[trigger] d[i]) by {
            let k = choose|k: int| 0 <= k < init.len() && init[k] == d[i];
            assert(xs[k] == d[i]);
        }
        assert(xs[xs.len() - 1] == xs.last());
        if !matched_by(d, xs.last()) {
            let e = d.push(xs.last());
            assert forall|i: int, j: int| 0 <= i < j < e.len() implies !same(#[trigger] e[i], #[trigger] e[j]) by {
                if j == e.len() - 1 {
                    assert(e[i] == d[i]);
                } else {
                    assert(e[i] == d[i] && e[j] == d[j]);
                }
            }
            assert forall|i: int| 0 <= i < e.len() implies xs.contains(#[trigger] e[i]) by {
                if i < d.len() {
                    assert(e[i] == d[i]);
                }
            }
        }
    }
}

proof fn lemma_dedup_one_repeat(xs: Seq<SValue>, i: int, j: int, k: int)
    requires
        0 <= i < j < xs.len(),
        same(xs[i], xs[j]),
        forall|a: int, b: int| 0 <= a < b < xs.len() && same(#[trigger] xs[a], #[trigger] xs[b]) ==> a == i && b == j,
        0 <= k <= xs.len(),
    ensures
        dedup(xs.subrange(0, k)) == if k > j { xs.subrange(0, k).remove(j) } else { xs.subrange(0, k) },
    decreases k,
{
    if k > 0 {
        lemma_dedup_one_repeat(xs, i, j, k - 1);
        let pre = xs.subrange(0, k);
        assert(pre.drop_last() =~= xs.subrange(0, k - 1));
        let d = dedup(xs.subrange(0, k - 1));
        if k - 1 == j {
            assert(d[i] == xs[i]);
            assert(pre.remove(j) =~= d);
        } else {
            assert forall|m: int| 0 <= m < d.len() implies !same(#[trigger] d[m], xs[k - 1]) by {
                if k - 1 > j {
                    if m < j {
                        assert(d[m] == xs[m]);
                    } else {
                        assert(d[m] == xs[m + 1]);
                    }
                } else {
                    assert(d[m] == xs[m]);
                }
            }
            if k > j {
                assert(pre.remove(j) =~= d.push(xs[k - 1]));
            } else {
                assert(pre =~= d.push(xs[k - 1]));
            }
        }
    }
}

/// A set literal whose decoded elements hold exactly one pair that is the
/// same decodes to the set without the later of the two: one element fewer
/// than the literal holds.
pub proof fn lemma_set_collapses_repeat(s: Seq<u8>, p: int, xs: Seq<SValue>, e: int, i: int, j: int)
    requires
        0 <= p < s.len(),
        s[p] == SET_OPEN,
        items_at(s, p + 1, SET_CLOSE) == Ok::<(Seq<SValue>, int), DecodeError>((xs, e)),
        0 <= i < j < xs.len(),
        same(xs[i], xs[j]),
        forall|a: int, b: int| 0 <= a < b < xs.len() && same(#[trigger] xs[a], #[trigger] xs[b]) ==> a == i && b == j,
    ensures
        value_at(s, p) == Ok::<(SValue, int), DecodeError>((SValue::SetOf(xs.remove(j)), e)),
        xs.remove(j).len() == xs.len() - 1,
{
    lemma_dedup_one_repeat(xs, i, j, xs.len() as int);
    assert(xs.subrange(0, xs.len() as int) =~= xs);
}

proof fn lemma_digits_end_run(s: Seq<u8>, p: int)
    requires
        0 <= p <= s.len(),
    ensures
        p <= digits_end(s, p) <= s.len(),
        forall|i: int| p <= i < digits_end(s, p) ==> is_digit(#[trigger] s[i]),
        digits_end(s, p) == s.len() || !is_digit(s[digits_end(s, p)]),
    decreases s.len() - p,
{
    if p < s.len() && is_digit(s[p]) {
        lemma_digits_end_run(s, p + 1);
    }
}

/// Bytes `s[p .. e)` stand in `t` from `p + d` on.
pub open spec fn agree(s: Seq<u8>, t: Seq<u8>, p: int, e: int, d: int) -> bool {
    &&& 0 <= p + d
    &&& e + d <= t.len()
    &&& forall|i: int| p <= i < e ==> t[i + d] == #[trigger] s[i]
}

proof fn lemma_atom_local(s: Seq<u8>, t: Seq<u8>, p: int, d: int)
    requires
        0 <= p < s.len(),
        is_digit(s[p]),
        atom_at(s, p) is Ok,
        agree(s, t, p, atom_at(s, p)->Ok_0.1, d),
    ensures
        p < atom_at(s, p)->Ok_0.1 <= s.len(),
        atom_at(t, p + d) == Ok::<(SValue, int), DecodeError>(
            (atom_at(s, p)->Ok_0.0, atom_at(s, p)->Ok_0.1 + d),
        ),
{
    lemma_digits_end_run(s, p);
    let q = digits_end(s, p);
    let e = atom_at(s, p)->Ok_0.1;
    assert(q < e);
    assert forall|i: int| p + d <= i < q + d implies is_digit(#[trigger] t[i]) by {
        assert(t[(i - d) + d] == s[i - d]);
    }
    assert(t[q + d] == s[q]);
    lemma_digits_end(t, p + d, q + d);
    assert(t.subrange(p + d, q + d) =~= s.subrange(p, q));
    if s[q] == COLON || s[q] == DOUBLE_QUOTE || s[q] == SINGLE_QUOTE {
        assert(t.subrange(q + d + 1, e + d) =~= s.subrange(q + 1, e));
    }
}

proof fn lemma_value_progress(s: Seq<u8>, p: int)
    requires
        value_at(s, p) is Ok,
    ensures
        0 <= p < value_at(s, p)->Ok_0.1 <= s.len(),
    decreases s.len() - p, 0int,
{
    if is_digit(s[p]) {
        lemma_digits_end_run(s, p);
    } else if is_open_marker(s[p]) {
        lemma_items_progress(s, p + 1, close_marker(s[p]));
    }
}

proof fn lemma_items_progress(s: Seq<u8>, p: int, close: u8)
    requires
        items_at(s, p, close) is Ok,
    ensures
        0 <= p < items_at(s, p, close)->Ok_0.1 <= s.len(),
    decreases s.len() - p, 1int,
{
    if s[p] != close {
        lemma_items_progress(s, value_at(s, p)->Ok_0.1, close);
    }
}

proof fn lemma_value_local(s: Seq<u8>, t: Seq<u8>, p: int, d: int)
    requires
        value_at(s, p) is Ok,
        agree(s, t, p, value_at(s, p)->Ok_0.1, d),
    ensures
        value_at(t, p + d) == Ok::<(SValue, int), DecodeError>(
            (value_at(s, p)->Ok_0.0, value_at(s, p)->Ok_0.1 + d),
        ),
    decreases s.len() - p, 0int,
{
    lemma_value_progress(s, p);
    assert(t[p + d] == s[p]);
    if is_digit(s[p]) {
        lemma_atom_local(s, t, p, d);
    } else if is_open_marker(s[p]) {
        lemma_items_local(s, t, p + 1, close_marker(s[p]), d);
    }
}

proof fn lemma_items_local(s: Seq<u8>, t: Seq<u8>, p: int, close: u8, d: int)
    requires
        items_at(s, p, close) is Ok,
        agree(s, t, p, items_at(s, p, close)->Ok_0.1, d),
    ensures
        items_at(t, p + d, close) == Ok::<(Seq<SValue>, int), DecodeError>(
            (items_at(s, p, close)->Ok_0.0, items_at(s, p, close)->Ok_0.1 + d),
        ),
    decreases s.len() - p, 1int,
{
    lemma_items_progress(s, p, close);
    assert(t[p + d] == s[p]);
    if s[p] != close {
        let q = value_at(s, p)->Ok_0.1;
        lemma_items_progress(s, q, close);
        lemma_items_local(s, t, q, close, d);
        lemma_value_local(s, t, p, d);
    }
}

/// Any encoded value can stand as the child of any container: its bytes
/// between `[` and `]` decode to a one-element sequence, between `#` and `$` to
/// a one-element set, between `<` and `>` to a record with that label and no
/// fields, and twice between `{` and `}` to a one-entry dictionary mapping the
/// value to itself. Applied again to the result, this nests containers to any
/// depth.
pub proof fn lemma_nesting(s: Seq<u8>)
    requires
        decode_spec(s) is Ok,
    ensures
        ({
            let v = decode_spec(s)->Ok_0.0;
            let n = decode_spec(s)->Ok_0.1;
            let enc = s.subrange(0, n);
            &&& decode_spec(seq![LIST_OPEN] + enc + seq![LIST_CLOSE]) == Ok::<(SValue, int), DecodeError>(
                (SValue::Sequence(seq![v]), n + 2),
            )
            &&& decode_spec(seq![SET_OPEN] + enc + seq![SET_CLOSE]) == Ok::<(SValue, int), DecodeError>(
                (SValue::SetOf(seq![v]), n + 2),
            )
            &&& decode_spec(seq![RECORD_OPEN] + enc + seq![RECORD_CLOSE]) == Ok::<(SValue, int), DecodeError>(
                (SValue::Record(Box::new(v), seq![]), n + 2),
            )
            &&& decode_spec(seq![DICT_OPEN] + enc + enc + seq![DICT_CLOSE]) == Ok::<(SValue, int), DecodeError>(
                (SValue::Dictionary(seq![(v, v)]), 2 * n + 2),
            )
        }),
{
    let v = decode_spec(s)->Ok_0.0;
    let n = decode_spec(s)->Ok_0.1;
    lemma_value_progress(s, 0);
    let enc = s.subrange(0, n);
    let one = seq![v];
    assert(one.drop_last() =~= seq![]);
    assert(dedup(seq![]) == Seq::<SValue>::empty());
    assert(!matched_by(Seq::<SValue>::empty(), v));
    assert(Seq::<SValue>::empty().push(v) =~= one);
    assert(dedup(one) == one);
    assert(one.drop_first() =~= seq![]);
    wrapped_once(s, LIST_OPEN, LIST_CLOSE);
    wrapped_once(s, SET_OPEN, SET_CLOSE);
    wrapped_once(s, RECORD_OPEN, RECORD_CLOSE);
    let w = seq![DICT_OPEN] + enc + enc + seq![DICT_CLOSE];
    lemma_value_local(s, w, 0, 1);
    lemma_value_local(s, w, 0, n + 1);
    assert(w[2 * n + 1] == DICT_CLOSE);
    assert(items_at(w, n + 1, DICT_CLOSE) == Ok::<(Seq<SValue>, int), DecodeError>((one, 2 * n + 2))) by {
        assert(items_at(w, 2 * n + 1, DICT_CLOSE) == Ok::<(Seq<SValue>, int), DecodeError>((seq![], 2 * n + 2)));
        assert(one + seq![] =~= one);
    }
    let two = seq![v, v];
    assert(items_at(w, 1, DICT_CLOSE) == Ok::<(Seq<SValue>, int), DecodeError>((two, 2 * n + 2))) by {
        assert(seq![v] + one =~= two);
    }
    assert(two.subrange(0, 0) =~= seq![]);
    assert(build_dict(seq![]) == Seq::<(SValue, SValue)>::empty());
    assert(key_index(seq![], v) == -1);
    assert(build_dict(two) =~= seq![(v, v)]);
}

/// `d` opening list markers followed by `d` closing ones.
pub open spec fn nested_lists(d: nat) -> Seq<u8>
    decreases d,
{
    if d <= 1 {
        seq![LIST_OPEN, LIST_CLOSE]
    } else {
        seq![LIST_OPEN] + nested_lists((d - 1) as nat) + seq![LIST_CLOSE]
    }
}

/// The empty sequence, wrapped in `d - 1` one-element sequences.
pub open spec fn nested_sequence(d: nat) -> SValue
    decreases d,
{
    if d <= 1 {
        SValue::Sequence(seq![])
    } else {
        SValue::Sequence(seq![nested_sequence((d - 1) as nat)])
    }
}

/// Lists nest to any depth: `d` opening and `d` closing list markers decode
/// to `d` sequences, each holding the next, and consume the whole input.
pub proof fn lemma_nesting_depth(d: nat)
    requires
        d >= 1,
    ensures
        nested_lists(d).len() == 2 * d,
        decode_spec(nested_lists(d)) == Ok::<(SValue, int), DecodeError>(
            (nested_sequence(d), 2 * d as int),
        ),
    decreases d,
{
    if d <= 1 {
        let s = nested_lists(d);
        assert(items_at(s, 1, LIST_CLOSE) == Ok::<(Seq<SValue>, int), DecodeError>((seq![], 2)));
    } else {
        let prev = nested_lists((d - 1) as nat);
        lemma_nesting_depth((d - 1) as nat);
        lemma_nesting(prev);
        assert(prev.subrange(0, prev.len() as int) =~= prev);
    }
}

proof fn wrapped_once(s: Seq<u8>, open: u8, close: u8)
    requires
        decode_spec(s) is Ok,
        0 < decode_spec(s)->Ok_0.1 <= s.len(),
        is_open_marker(open),
        close == close_marker(open),
    ensures
        ({
            let v = decode_spec(s)->Ok_0.0;
            let n = decode_spec(s)->Ok_0.1;
            items_at(seq![open] + s.subrange(0, n) + seq![close], 1, close)
                == Ok::<(Seq<SValue>, int), DecodeError>((seq![v], n + 2))
        }),
{
    let v = decode_spec(s)->Ok_0.0;
    let n = decode_spec(s)->Ok_0.1;
    let w = seq![open] + s.subrange(0, n) + seq![close];
    lemma_value_local(s, w, 0, 1);
    assert(w[n + 1] == close);
    assert(items_at(w, n + 1, close) == Ok::<(Seq<SValue>, int), DecodeError>((seq![], n + 2)));
    assert(seq![v] + seq![] =~= seq![v]);
}

/// Every value is the same as itself.
pub proof fn lemma_same_reflexive(v: SValue)
    ensures
        same(v, v),
    decreases v,
{
    match v {
        SValue::Dictionary(d) => {
            assert forall|i: int| 0 <= i < d.len() implies has_entry_match(#[trigger] d[i], d) by {
                lemma_same_reflexive(d[i].0);
                lemma_same_reflexive(d[i].1);
            }
            assert forall|j: int| 0 <= j < d.len() implies entry_matched_by(d, #[trigger] d[j]) by {
                lemma_same_reflexive(d[j].0);
                lemma_same_reflexive(d[j].1);
            }
        },
        SValue::SetOf(x) => {
            assert forall|i: int| 0 <= i < x.len() implies has_match(#[trigger] x[i], x) by {
                lemma_same_reflexive(x[i]);
            }
            assert forall|j: int| 0 <= j < x.len() implies matched_by(x, #[trigger] x[j]) by {
                lemma_same_reflexive(x[j]);
            }
        },
        SValue::Sequence(x) => {
            assert forall|i: int| 0 <= i < x.len() implies same(#[trigger] x[i], x[i]) by {
                lemma_same_reflexive(x[i]);
            }
        },
        SValue::Record(l, x) => {
            lemma_same_reflexive(*l);
            assert forall|i: int| 0 <= i < x.len() implies same(#[trigger] x[i], x[i]) by {
                lemma_same_reflexive(x[i]);
            }
        },
        _ => {},
    }
}

/// The order of a set's elements, or of a dictionary's entries, does not
/// matter: two sets (dictionaries) of the same size, each of whose elements
/// (entries) stands in the other, are the same.
pub proof fn lemma_order_irrelevant(x: Seq<SValue>, y: Seq<SValue>, d: Seq<(SValue, SValue)>, e: Seq<(SValue, SValue)>)
    requires
        x.len() == y.len(),
        forall|i: int| 0 <= i < x.len() ==> y.contains(#[trigger] x[i]),
        forall|j: int| 0 <= j < y.len() ==> x.contains(#[trigger] y[j]),
        d.len() == e.len(),
        forall|i: int| 0 <= i < d.len() ==> e.contains(#[trigger] d[i]),
        forall|j: int| 0 <= j < e.len() ==> d.contains(#[trigger] e[j]),
    ensures
        same(SValue::SetOf(x), SValue::SetOf(y)),
        same(SValue::Dictionary(d), SValue::Dictionary(e)),
{
    assert forall|i: int| 0 <= i < x.len() implies has_match(#[trigger] x[i], y) by {
        let k = choose|k: int| 0 <= k < y.len() && y[k] == x[i];
        lemma_same_reflexive(x[i]);
    }
    assert forall|j: int| 0 <= j < y.len() implies matched_by(x, #[trigger] y[j]) by {
        let k = choose|k: int| 0 <= k < x.len() && x[k] == y[j];
        lemma_same_reflexive(y[j]);
    }
    assert forall|i: int| 0 <= i < d.len() implies has_entry_match(#[trigger] d[i], e) by {
        let k = choose|k: int| 0 <= k < e.len() && e[k] == d[i];
        lemma_same_reflexive(d[i].0);
        lemma_same_reflexive(d[i].1);
    }
    assert forall|j: int| 0 <= j < e.len() implies entry_matched_by(d, #[trigger] e[j]) by {
        let k = choose|k: int| 0 <= k < d.len() && d[k] == e[j];
        lemma_same_reflexive(e[j].0);
        lemma_same_reflexive(e[j].1);
    }
}

/// Whatever pairs come before it, a dictionary literal's last pair wins: the
/// decoded dictionary has an entry whose key is the same as that pair's key and
/// whose value is that pair's value.
pub proof fn lemma_last_pair_wins(xs: Seq<SValue>)
    requires
        xs.len() >= 2,
        xs.len() % 2 == 0,
    ensures
        exists|m: int|
            0 <= m < build_dict(xs).len() && same(#[trigger] build_dict(xs)[m].0, xs[xs.len() - 2])
                && build_dict(xs)[m].1 == xs[xs.len() - 1],
{
    let init = xs.subrange(0, xs.len() - 2);
    let d0 = build_dict(init);
    let k = xs[xs.len() - 2];
    let v = xs[xs.len() - 1];
    let d = build_dict(xs);
    assert(d == dict_put(d0, k, v));
    lemma_key_index(d0, k);
    let m = key_index(d0, k);
    if m >= 0 {
        assert(d[m].0 == d0[m].0 && d[m].1 == v);
        assert(same(build_dict(xs)[m].0, k));
    } else {
        lemma_same_reflexive(k);
        assert(d[d0.len() as int] == (k, v));
        assert(same(build_dict(xs)[d0.len() as int].0, k));
    }
}

/// A dictionary literal holding two pairs with the same key decodes to one
/// entry, which holds the later pair's value.
pub proof fn lemma_duplicate_key_last_wins(s: Seq<u8>, p: int, k: SValue, v1: SValue, v2: SValue, e: int)
    requires
        0 <= p < s.len(),
        s[p] == DICT_OPEN,
        items_at(s, p + 1, DICT_CLOSE) == Ok::<(Seq<SValue>, int), DecodeError>((seq![k, v1, k, v2], e)),
    ensures
        value_at(s, p) == Ok::<(SValue, int), DecodeError>((SValue::Dictionary(seq![(k, v2)]), e)),
{
    lemma_same_reflexive(k);
    let xs = seq![k, v1, k, v2];
    assert(xs.subrange(0, 2) =~= seq![k, v1]);
    assert(seq![k, v1].subrange(0, 0) =~= seq![]);
    assert(build_dict(seq![]) == Seq::<(SValue, SValue)>::empty());
    assert(key_index(seq![], k) == -1);
    assert(build_dict(seq![k, v1]) =~= seq![(k, v1)]);
    let one = seq![(k, v1)];
    assert(one.drop_last() =~= seq![]);
    assert(key_index(one, k) == 0);
    assert(build_dict(xs) =~= seq![(k, v2)]);
}

/// A string whose declared length runs past the end of the input fails with
/// `UnexpectedEnd`.
pub proof fn lemma_truncated_string(n: nat, payload: Seq<u8>)
    requires
        payload.len() < n,
    ensures
        decode_spec(decimal(n).push(DOUBLE_QUOTE) + payload) == Err::<(SValue, int), DecodeError>(
            DecodeError::UnexpectedEnd,
        ),
{
    lemma_decimal(n);
    let d = decimal(n);
    let s = d.push(DOUBLE_QUOTE) + payload;
    assert(s[d.len() as int] == DOUBLE_QUOTE);
    assert forall|i: int| 0 <= i < d.len() implies is_digit(#[trigger] s[i]) by {
        assert(s[i] == d[i]);
    }
    lemma_digits_end(s, 0, d.len() as int);
    assert(s.subrange(0, d.len() as int) =~= d);
}

proof fn lemma_key_index(d: Seq<(SValue, SValue)>, k: SValue)
    ensures
        -1 <= key_index(d, k) < d.len(),
        key_index(d, k) >= 0 ==> same(d[key_index(d, k)].0, k),
        key_index(d, k) == -1 ==> forall|i: int| 0 <= i < d.len() ==> !same((#[trigger] d[i]).0, k),
    decreases d.len(),
{
    if d.len() > 0 {
        let init = d.drop_last();
        lemma_key_index(init, k);
        if key_index(d, k) == -1 {
            assert forall|i: int| 0 <= i < d.len() implies !same((#[trigger] d[i]).0, k) by {
                if i < init.len() {
                    assert(init[i] == d[i]);
                }
            }
        }
    }
}

proof fn lemma_build_dict(xs: Seq<SValue>)
    ensures
        forall|i: int, j: int|
            0 <= i < j < build_dict(xs).len() ==> !same(#[trigger] build_dict(xs)[i].0, #[trigger] build_dict(xs)[j].0),
        forall|i: int|
            0 <= i < build_dict(xs).len() ==> xs.contains(#[trigger] build_dict(xs)[i].0) && xs.contains(
                build_dict(xs)[i].1,
            ),
    decreases xs.len(),
{
    if xs.len() >= 2 {
        let init = xs.subrange(0, xs.len() - 2);
        lemma_build_dict(init);
        let d0 = build_dict(init);
        let k = xs[xs.len() - 2];
        let v = xs[xs.len() - 1];
        lemma_key_index(d0, k);
        assert forall|x: SValue| init.contains(x) implies xs.contains(x) by {
            let j = choose|j: int| 0 <= j < init.len() && init[j] == x;
            assert(xs[j] == x);
        }
        assert(xs.contains(k) && xs.contains(v)) by {
            assert(xs[xs.len() - 2] == k);
            assert(xs[xs.len() - 1] == v);
        }
        let d = build_dict(xs);
        assert(d == dict_put(d0, k, v));
        let m = key_index(d0, k);
        assert forall|i: int| 0 <= i < d.len() implies xs.contains(#[trigger] d[i].0) && xs.contains(d[i].1) by {
            if i < d0.len() {
                assert(d[i].0 == d0[i].0);
                assert(init.contains(d0[i].0) && init.contains(d0[i].1));
            }
        }
        assert forall|i: int, j: int| 0 <= i < j < d.len() implies !same(#[trigger] d[i].0, #[trigger] d[j].0) by {
            if m >= 0 {
                assert(d[i].0 == d0[i].0 && d[j].0 == d0[j].0);
            } else if j < d0.len() {
                assert(d[i] == d0[i] && d[j] == d0[j]);
            } else {
                assert(d[i] == d0[i]);
            }
        }
    }
}

proof fn lemma_value_well_formed(s: Seq<u8>, p: int)
    requires
        value_at(s, p) is Ok,
    ensures
        well_formed(value_at(s, p)->Ok_0.0),
    decreases s.len() - p, 0int,
{
    if s[p] != TRUE_TAG && s[p] != FALSE_TAG && !is_digit(s[p]) && is_open_marker(s[p]) {
        lemma_items_well_formed(s, p + 1, close_marker(s[p]));
        let xs = items_at(s, p + 1, close_marker(s[p]))->Ok_0.0;
        let v = value_at(s, p)->Ok_0.0;
        if s[p] == DICT_OPEN {
            lemma_build_dict(xs);
            let d = build_dict(xs);
            assert forall|i: int| 0 <= i < d.len() implies well_formed(#[trigger] d[i].0) && well_formed(d[i].1) by {
                let a = choose|a: int| 0 <= a < xs.len() && xs[a] == d[i].0;
                let b = choose|b: int| 0 <= b < xs.len() && xs[b] == d[i].1;
            }
        } else if s[p] == SET_OPEN {
            lemma_dedup(xs);
            let ys = dedup(xs);
            assert forall|i: int| 0 <= i < ys.len() implies well_formed(#[trigger] ys[i]) by {
                assert(ys.to_set().contains(ys[i]));
                assert(xs.to_set().contains(ys[i]));
                let a = choose|a: int| 0 <= a < xs.len() && xs[a] == ys[i];
            }
        } else if s[p] == RECORD_OPEN {
            assert(well_formed(xs[0]));
            assert forall|i: int| 0 <= i < xs.drop_first().len() implies well_formed(#[trigger] xs.drop_first()[i]) by {
                assert(xs.drop_first()[i] == xs[i + 1]);
            }
        }
    }
}

proof fn lemma_items_well_formed(s: Seq<u8>, p: int, close: u8)
    requires
        items_at(s, p, close) is Ok,
    ensures
        forall|i: int|
            0 <= i < items_at(s, p, close)->Ok_0.0.len() ==> well_formed(
                #[trigger] items_at(s, p, close)->Ok_0.0[i],
            ),
    decreases s.len() - p, 1int,
{
    if s[p] != close {
        let q = value_at(s, p)->Ok_0.1;
        lemma_value_well_formed(s, p);
        lemma_items_well_formed(s, q, close);
        let v = value_at(s, p)->Ok_0.0;
        let vs = items_at(s, q, close)->Ok_0.0;
        let xs = items_at(s, p, close)->Ok_0.0;
        assert(xs == seq![v] + vs);
        assert forall|i: int| 0 <= i < xs.len() implies well_formed(#[trigger] xs[i]) by {
            if i > 0 {
                assert(xs[i] == vs[i - 1]);
            }
        }
    }
}

/// Every decoded value keeps the value-tree invariant: at every depth,
/// dictionary keys are unique and set elements distinct.
pub proof fn lemma_decoded_well_formed(s: Seq<u8>)
    requires
        decode_spec(s) is Ok,
    ensures
        well_formed(decode_spec(s)->Ok_0.0),
{
    lemma_value_well_formed(s, 0);
}

} // verus!
