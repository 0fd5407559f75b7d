use vstd::prelude::*;

verus! {

broadcast use vstd::std_specs::vec::group_vec_axioms;

/// Mathematical model of a decoded value.
///
/// Dictionaries are kept as sequences of pairs and sets as sequences of
/// elements, in order of first occurrence. That order is not part of a
/// value: `same` compares dictionaries and sets regardless of it.
pub enum SValue {
    Boolean(bool),
    SignedInteger(int),
    ByteString(Seq<u8>),
    String(Seq<char>),
    Symbol(Seq<char>),
    Dictionary(Seq<(SValue, SValue)>),
    Sequence(Seq<SValue>),
    SetOf(Seq<SValue>),
    Record(Box<SValue>, Seq<SValue>),
}

/// Some element of `ys` is the same as `v`.
pub open spec fn has_match(v: SValue, ys: Seq<SValue>) -> bool
    decreases v, 1int,
{
    exists|j: int| 0 <= j < ys.len() && same(v, ys[j])
}

/// Some element of `xs` is the same as `w`.
pub open spec fn matched_by(xs: Seq<SValue>, w: SValue) -> bool
    decreases xs, 1int,
{
    exists|i: int| 0 <= i < xs.len() && same(xs[i], w)
}

/// Some entry of `e` has a key and a value the same as those of `kv`.
pub open spec fn has_entry_match(kv: (SValue, SValue), e: Seq<(SValue, SValue)>) -> bool
    decreases kv, 1int,
{
    exists|j: int| 0 <= j < e.len() && same(kv.0, e[j].0) && same(kv.1, e[j].1)
}

/// Some entry of `d` has a key and a value the same as those of `kv`.
pub open spec fn entry_matched_by(d: Seq<(SValue, SValue)>, kv: (SValue, SValue)) -> bool
    decreases d, 1int,
{
    exists|i: int| 0 <= i < d.len() && same(d[i].0, kv.0) && same(d[i].1, kv.1)
}

/// Equality of value trees: dictionaries and sets are equal when each entry
/// (element) of either has an equal one in the other, in whatever order; the
/// other kinds compare their parts in order.
pub open spec fn same(a: SValue, b: SValue) -> bool
    decreases a, 0int,
{
    match a {
        SValue::Dictionary(d) => match b {
            SValue::Dictionary(e) => {
                &&& d.len() == e.len()
                &&& forall|i: int| 0 <= i < d.len() ==> has_entry_match(#[trigger] d[i], e)
                &&& forall|j: int| 0 <= j < e.len() ==> entry_matched_by(d, #[trigger] e[j])
            },
            _ => false,
        },
        SValue::SetOf(x) => match b {
            SValue::SetOf(y) => {
                &&& x.len() == y.len()
                &&& forall|i: int| 0 <= i < x.len() ==> has_match(#[trigger] x[i], y)
                &&& forall|j: int| 0 <= j < y.len() ==> matched_by(x, #[trigger] y[j])
            },
            _ => false,
        },
        SValue::Sequence(x) => match b {
            SValue::Sequence(y) => x.len() == y.len() && forall|i: int|
                0 <= i < x.len() ==> same(#[trigger] x[i], y[i]),
            _ => false,
        },
        SValue::Record(l, x) => match b {
            SValue::Record(m, y) => same(*l, *m) && x.len() == y.len() && forall|i: int|
                0 <= i < x.len() ==> same(#[trigger] x[i], y[i]),
            _ => false,
        },
        _ => a == b,
    }
}

/// The invariant of a value tree: at every depth, no dictionary key is the
/// same as a later one, and no set element the same as a later one.
pub open spec fn well_formed(v: SValue) -> bool
    decreases v,
{
    match v {
        SValue::Dictionary(d) => {
            &&& forall|i: int, j: int|
                0 <= i < j < d.len() ==> !same(#[trigger] d[i].0, #[trigger] d[j].0)
            &&& forall|i: int| 0 <= i < d.len() ==> well_formed(#[trigger] d[i].0) && well_formed(d[i].1)
        },
        SValue::Sequence(xs) => forall|i: int| 0 <= i < xs.len() ==> well_formed(#[trigger] xs[i]),
        SValue::SetOf(xs) => {
            &&& forall|i: int, j: int| 0 <= i < j < xs.len() ==> !same(#[trigger] xs[i], #[trigger] xs[j])
            &&& forall|i: int| 0 <= i < xs.len() ==> well_formed(#[trigger] xs[i])
        },
        SValue::Record(label, fields) => {
            &&& well_formed(*label)
            &&& forall|i: int| 0 <= i < fields.len() ==> well_formed(#[trigger] fields[i])
        },
        _ => true,
    }
}

/// A decoded value tree.
#[derive(Debug)]
pub enum Value {
    Boolean(bool),
    SignedInteger(i64),
    ByteString(Vec<u8>),
    String(String),
    Symbol(String),
    /// Entries with unique keys, in order of first occurrence of each key.
    Dictionary(Vec<(Value, Value)>),
    Sequence(Vec<Value>),
    /// Distinct elements, in order of first occurrence.
    SetOf(Vec<Value>),
    Record(Box<Value>, Vec<Value>),
}

pub open spec fn view_seq(v: Seq<Value>) -> Seq<SValue>
    decreases v,
{
    Seq::new(
        v.len(),
        |i: int|
            if 0 <= i < v.len() {
                view_value(v[i])
            } else {
                SValue::Boolean(false)
            },
    )
}

pub open spec fn view_pairs(d: Seq<(Value, Value)>) -> Seq<(SValue, SValue)>
    decreases d,
{
    Seq::new(
        d.len(),
        |i: int|
            if 0 <= i < d.len() {
                (view_value(d[i].0), view_value(d[i].1))
            } else {
                (SValue::Boolean(false), SValue::Boolean(false))
            },
    )
}

pub open spec fn view_value(v: Value) -> SValue
    decreases v,
{
    match v {
        Value::Boolean(b) => SValue::Boolean(b),
        Value::SignedInteger(n) => SValue::SignedInteger(n as int),
        Value::ByteString(b) => SValue::ByteString(b@),
        Value::String(s) => SValue::String(s@),
        Value::Symbol(s) => SValue::Symbol(s@),
        Value::Dictionary(d) => SValue::Dictionary(view_pairs(d@)),
        Value::Sequence(s) => SValue::Sequence(view_seq(s@)),
        Value::SetOf(s) => SValue::SetOf(view_seq(s@)),
        Value::Record(l, f) => SValue::Record(Box::new(view_value(*l)), view_seq(f@)),
    }
}

impl View for Value {
    type V = SValue;

    open spec fn view(&self) -> SValue {
        view_value(*self)
    }
}


fn bytes_equal(a: &Vec<u8>, b: &Vec<u8>) -> (r: bool)
    ensures
        r == (a@ == b@),
{
    if a.len() != b.len() {
        return false;
    }
    let mut i: usize = 0;
    while i < a.len()
        invariant
            a.len() == b.len(),
            i <= a.len(),
            forall|j: int| 0 <= j < i ==> a@[j] == b@[j],
        decreases a.len() - i,
    {
        if a[i] != b[i] {
            return false;
        }
        i += 1;
    }
    assert(a@ =~= b@);
    true
}

fn values_equal_seq(a: &Vec<Value>, b: &Vec<Value>) -> (r: bool)
    ensures
        r == same(SValue::Sequence(view_seq(a@)), SValue::Sequence(view_seq(b@))),
    decreases a,
{
    assert(view_seq(a@).len() == a.len() && view_seq(b@).len() == b.len());
    if a.len() != b.len() {
        return false;
    }
    let mut i: usize = 0;
    while i < a.len()
        invariant
            a.len() == b.len(),
            view_seq(a@).len() == a.len(),
            view_seq(b@).len() == b.len(),
            i <= a.len(),
            forall|j: int| 0 <= j < i ==> same(#[trigger] view_seq(a@)[j], view_seq(b@)[j]),
        decreases a.len() - i,
    {
        assert(decreases_to!(a => a@[i as int]));
        assert(view_seq(a@)[i as int] == a@[i as int]@ && view_seq(b@)[i as int] == b@[i as int]@);
        if !values_equal(&a[i], &b[i]) {
            proof {
                let t = view_seq(a@)[i as int];
            }
            return false;
        }
        i += 1;
    }
    true
}

/// Whether some element of `b` is the same as `a[x]`.
fn has_same(a: &Vec<Value>, x: usize, b: &Vec<Value>) -> (r: bool)
    requires
        x < a.len(),
    ensures
        r == has_match(view_seq(a@)[x as int], view_seq(b@)),
    decreases a, 0int,
{
    let mut j: usize = 0;
    while j < b.len()
        invariant
            x < a.len(),
            j <= b.len(),
            forall|k: int| 0 <= k < j ==> !same(view_seq(a@)[x as int], #[trigger] view_seq(b@)[k]),
        decreases b.len() - j,
    {
        assert(decreases_to!(a => a@[x as int]));
        assert(view_seq(a@)[x as int] == a@[x as int]@ && view_seq(b@)[j as int] == b@[j as int]@);
        if values_equal(&a[x], &b[j]) {
            return true;
        }
        j += 1;
    }
    false
}

/// Whether some element of `a` is the same as `b[y]`.
fn same_in(a: &Vec<Value>, b: &Vec<Value>, y: usize) -> (r: bool)
    requires
        y < b.len(),
    ensures
        r == matched_by(view_seq(a@), view_seq(b@)[y as int]),
    decreases a, 0int,
{
    let mut i: usize = 0;
    while i < a.len()
        invariant
            y < b.len(),
            i <= a.len(),
            forall|k: int| 0 <= k < i ==> !same(#[trigger] view_seq(a@)[k], view_seq(b@)[y as int]),
        decreases a.len() - i,
    {
        assert(decreases_to!(a => a@[i as int]));
        assert(view_seq(a@)[i as int] == a@[i as int]@ && view_seq(b@)[y as int] == b@[y as int]@);
        if values_equal(&a[i], &b[y]) {
            return true;
        }
        i += 1;
    }
    false
}

/// Equality of two sets, in whatever order they hold their elements.
fn values_equal_set(a: &Vec<Value>, b: &Vec<Value>) -> (r: bool)
    ensures
        r == same(SValue::SetOf(view_seq(a@)), SValue::SetOf(view_seq(b@))),
    decreases a, 1int,
{
    let ghost x = view_seq(a@);
    let ghost y = view_seq(b@);
    assert(x.len() == a.len() && y.len() == b.len());
    if a.len() != b.len() {
        return false;
    }
    let mut p: usize = 0;
    while p < a.len()
        invariant
            p <= a.len(),
            x == view_seq(a@),
            y == view_seq(b@),
            x.len() == y.len(),
            x.len() == a.len(),
            forall|k: int| 0 <= k < p ==> has_match(#[trigger] x[k], y),
        decreases a.len() - p,
    {
        if !has_same(a, p, b) {
            proof {
                let t = x[p as int];
            }
            return false;
        }
        p += 1;
    }
    let mut q: usize = 0;
    while q < b.len()
        invariant
            q <= b.len(),
            x == view_seq(a@),
            y == view_seq(b@),
            x.len() == y.len(),
            x.len() == a.len(),
            forall|k: int| 0 <= k < x.len() ==> has_match(#[trigger] x[k], y),
            forall|k: int| 0 <= k < q ==> matched_by(x, #[trigger] y[k]),
        decreases b.len() - q,
    {
        if !same_in(a, b, q) {
            proof {
                let t = y[q as int];
            }
            return false;
        }
        q += 1;
    }
    true
}

/// Whether some entry of `e` is the same, key and value, as `d[x]`.
fn has_same_entry(d: &Vec<(Value, Value)>, x: usize, e: &Vec<(Value, Value)>) -> (r: bool)
    requires
        x < d.len(),
    ensures
        r == has_entry_match(view_pairs(d@)[x as int], view_pairs(e@)),
    decreases d, 0int,
{
    let mut j: usize = 0;
    while j < e.len()
        invariant
            x < d.len(),
            j <= e.len(),
            forall|k: int|
                0 <= k < j ==> !(same(view_pairs(d@)[x as int].0, #[trigger] view_pairs(e@)[k].0)
                    && same(view_pairs(d@)[x as int].1, view_pairs(e@)[k].1)),
        decreases e.len() - j,
    {
        assert(decreases_to!(d => d@[x as int]));
        assert(view_pairs(d@)[x as int] == (d@[x as int].0@, d@[x as int].1@));
        assert(view_pairs(e@)[j as int] == (e@[j as int].0@, e@[j as int].1@));
        if values_equal(&d[x].0, &e[j].0) && values_equal(&d[x].1, &e[j].1) {
            return true;
        }
        j += 1;
    }
    false
}

/// Whether some entry of `d` is the same, key and value, as `e[y]`.
fn same_entry_in(d: &Vec<(Value, Value)>, e: &Vec<(Value, Value)>, y: usize) -> (r: bool)
    requires
        y < e.len(),
    ensures
        r == entry_matched_by(view_pairs(d@), view_pairs(e@)[y as int]),
    decreases d, 0int,
{
    let mut i: usize = 0;
    while i < d.len()
        invariant
            y < e.len(),
            i <= d.len(),
            forall|k: int|
                0 <= k < i ==> !(same(#[trigger] view_pairs(d@)[k].0, view_pairs(e@)[y as int].0)
                    && same(view_pairs(d@)[k].1, view_pairs(e@)[y as int].1)),
        decreases d.len() - i,
    {
        assert(decreases_to!(d => d@[i as int]));
        assert(view_pairs(d@)[i as int] == (d@[i as int].0@, d@[i as int].1@));
        assert(view_pairs(e@)[y as int] == (e@[y as int].0@, e@[y as int].1@));
        if values_equal(&d[i].0, &e[y].0) && values_equal(&d[i].1, &e[y].1) {
            return true;
        }
        i += 1;
    }
    false
}

/// Equality of two dictionaries, in whatever order they hold their entries.
fn values_equal_dict(a: &Vec<(Value, Value)>, b: &Vec<(Value, Value)>) -> (r: bool)
    ensures
        r == same(SValue::Dictionary(view_pairs(a@)), SValue::Dictionary(view_pairs(b@))),
    decreases a, 1int,
{
    let ghost d = view_pairs(a@);
    let ghost e = view_pairs(b@);
    assert(d.len() == a.len() && e.len() == b.len());
    if a.len() != b.len() {
        return false;
    }
    let mut p: usize = 0;
    while p < a.len()
        invariant
            p <= a.len(),
            d == view_pairs(a@),
            e == view_pairs(b@),
            d.len() == e.len(),
            d.len() == a.len(),
            forall|k: int| 0 <= k < p ==> has_entry_match(#[trigger] d[k], e),
        decreases a.len() - p,
    {
        if !has_same_entry(a, p, b) {
            proof {
                let t = d[p as int];
            }
            return false;
        }
        p += 1;
    }
    let mut q: usize = 0;
    while q < b.len()
        invariant
            q <= b.len(),
            d == view_pairs(a@),
            e == view_pairs(b@),
            d.len() == e.len(),
            d.len() == a.len(),
            forall|k: int| 0 <= k < d.len() ==> has_entry_match(#[trigger] d[k], e),
            forall|k: int| 0 <= k < q ==> entry_matched_by(d, #[trigger] e[k]),
        decreases b.len() - q,
    {
        if !same_entry_in(a, b, q) {
            proof {
                let t = e[q as int];
            }
            return false;
        }
        q += 1;
    }
    true
}

/// Equality of value trees, as `same` states it.
pub fn values_equal(a: &Value, b: &Value) -> (r: bool)
    ensures
        r == same(a@, b@),
    decreases a, 2int,
{
    match a {
        Value::Dictionary(x) => match b {
            Value::Dictionary(y) => values_equal_dict(x, y),
            _ => false,
        },
        Value::Sequence(x) => match b {
            Value::Sequence(y) => values_equal_seq(x, y),
            _ => false,
        },
        Value::SetOf(x) => match b {
            Value::SetOf(y) => values_equal_set(x, y),
            _ => false,
        },
        Value::Record(l, x) => match b {
            Value::Record(m, y) => values_equal(l, m) && values_equal_seq(x, y),
            _ => false,
        },
        Value::Boolean(x) => match b {
            Value::Boolean(y) => *x == *y,
            _ => false,
        },
        Value::SignedInteger(x) => match b {
            Value::SignedInteger(y) => *x == *y,
            _ => false,
        },
        Value::ByteString(x) => match b {
            Value::ByteString(y) => bytes_equal(x, y),
            _ => false,
        },
        Value::String(x) => match b {
            Value::String(y) => *x == *y,
            _ => false,
        },
        Value::Symbol(x) => match b {
            Value::Symbol(y) => *x == *y,
            _ => false,
        },
    }
}

impl PartialEq for Value {
    fn eq(&self, other: &Value) -> (r: bool) {
        values_equal(self, other)
    }
}

impl vstd::std_specs::cmp::PartialEqSpecImpl for Value {
    open spec fn obeys_eq_spec() -> bool {
        true
    }

    open spec fn eq_spec(&self, other: &Value) -> bool {
        same(self@, other@)
    }
}

} // verus!
