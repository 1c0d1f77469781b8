//! The value-tree data model: maps, sequences, grapheme text and scalars,
//! together with the ghost mirror used by all specifications, structural
//! well-formedness and the equality relation the differ works with.

use vstd::prelude::*;

verus! {

/// Flavour tag of an unordered map node.
#[derive(Clone, Copy, PartialEq, Eq, Structural, Debug)]
pub enum MapKind {
    Generic,
    Table,
}

/// A leaf value.  Floating-point leaves carry their IEEE-754 bit patterns so
/// that equality (NaN, signed zero) can be stated and checked exactly.
#[derive(Debug)]
pub enum Scalar {
    Str(String),
    Int(i64),
    Uint(u64),
    /// 64-bit float, as its IEEE-754 bit pattern.
    F64(u64),
    /// 32-bit float, as its IEEE-754 bit pattern.
    F32(u32),
    /// Replication-aware counter: merged by summing increments.
    Counter(i64),
    Timestamp(i64),
    Boolean(bool),
    /// Opaque cursor reference, identified only by an id.
    Cursor(u64),
    Null,
}

/// A value tree.  Map entries are kept in strictly increasing key order
/// (see [`wf_view`]), which makes the representation canonical: entry order
/// carries no information beyond the key-to-value association.
#[derive(Debug)]
pub enum Value {
    Mapping(Vec<(String, Value)>, MapKind),
    Sequence(Vec<Value>),
    /// Text as a list of grapheme clusters, each one cluster string.
    Text(Vec<String>),
    Scalar(Scalar),
}

/// Ghost mirror of [`Scalar`].
pub enum ScalarView {
    Str(Seq<char>),
    Int(i64),
    Uint(u64),
    F64(u64),
    F32(u32),
    Counter(i64),
    Timestamp(i64),
    Boolean(bool),
    Cursor(u64),
    Null,
}

/// Ghost mirror of [`Value`]: the mathematical model every contract speaks of.
pub enum ValueView {
    Mapping(Seq<(Seq<char>, ValueView)>, MapKind),
    Sequence(Seq<ValueView>),
    Text(Seq<Seq<char>>),
    Scalar(ScalarView),
}

pub open spec fn scalar_view(s: Scalar) -> ScalarView {
    match s {
        Scalar::Str(t) => ScalarView::Str(t@),
        Scalar::Int(x) => ScalarView::Int(x),
        Scalar::Uint(x) => ScalarView::Uint(x),
        Scalar::F64(x) => ScalarView::F64(x),
        Scalar::F32(x) => ScalarView::F32(x),
        Scalar::Counter(x) => ScalarView::Counter(x),
        Scalar::Timestamp(x) => ScalarView::Timestamp(x),
        Scalar::Boolean(x) => ScalarView::Boolean(x),
        Scalar::Cursor(x) => ScalarView::Cursor(x),
        Scalar::Null => ScalarView::Null,
    }
}

pub open spec fn value_view(v: Value) -> ValueView
    decreases v,
{
    match v {
        Value::Mapping(entries, kind) => ValueView::Mapping(entries_view(entries@), kind),
        Value::Sequence(elems) => ValueView::Sequence(elems_view(elems@)),
        Value::Text(gs) => ValueView::Text(text_view(gs@)),
        Value::Scalar(s) => ValueView::Scalar(scalar_view(s)),
    }
}

pub open spec fn entries_view(s: Seq<(String, Value)>) -> Seq<(Seq<char>, ValueView)>
    decreases s,
{
    if s.len() == 0 {
        Seq::empty()
    } else {
        seq![(s[0].0@, value_view(s[0].1))] + entries_view(s.skip(1))
    }
}

pub open spec fn elems_view(s: Seq<Value>) -> Seq<ValueView>
    decreases s,
{
    if s.len() == 0 {
        Seq::empty()
    } else {
        seq![value_view(s[0])] + elems_view(s.skip(1))
    }
}

pub open spec fn text_view(s: Seq<String>) -> Seq<Seq<char>> {
    s.map_values(|g: String| g@)
}

impl View for Scalar {
    type V = ScalarView;

    open spec fn view(&self) -> ScalarView {
        scalar_view(*self)
    }
}

impl View for Value {
    type V = ValueView;

    open spec fn view(&self) -> ValueView {
        value_view(*self)
    }
}

pub broadcast proof fn lemma_entries_view(s: Seq<(String, Value)>)
    ensures
        (#[trigger] entries_view(s)).len() == s.len(),
        forall|i: int|
            0 <= i < s.len() ==> entries_view(s)[i] == (s[i].0@, value_view(s[i].1)),
    decreases s.len(),
{
    if s.len() > 0 {
        lemma_entries_view(s.skip(1));
        assert forall|i: int| 0 <= i < s.len() implies entries_view(s)[i] == (
            s[i].0@,
            value_view(s[i].1),
        ) by {
            if i > 0 {
                assert(entries_view(s)[i] == entries_view(s.skip(1))[i - 1]);
                assert(s.skip(1)[i - 1] == s[i]);
            }
        }
    }
}

pub broadcast proof fn lemma_elems_view(s: Seq<Value>)
    ensures
        (#[trigger] elems_view(s)).len() == s.len(),
        forall|i: int| 0 <= i < s.len() ==> elems_view(s)[i] == value_view(s[i]),
    decreases s.len(),
{
    if s.len() > 0 {
        lemma_elems_view(s.skip(1));
        assert forall|i: int| 0 <= i < s.len() implies elems_view(s)[i] == value_view(s[i]) by {
            if i > 0 {
                assert(elems_view(s)[i] == elems_view(s.skip(1))[i - 1]);
                assert(s.skip(1)[i - 1] == s[i]);
            }
        }
    }
}

/// IEEE-754: a 64-bit float is NaN when its exponent bits are all ones and
/// its mantissa is non-zero.
pub open spec fn f64_is_nan(bits: u64) -> bool {
    (bits >> 52) & 0x7ff == 0x7ff && bits & 0x000f_ffff_ffff_ffff != 0
}

/// IEEE-754: both +0.0 and -0.0 have all bits beside the sign clear.
pub open spec fn f64_is_zero(bits: u64) -> bool {
    bits & 0x7fff_ffff_ffff_ffff == 0
}

/// IEEE-754 equality on 64-bit floats: NaN equals nothing (itself included),
/// +0.0 equals -0.0, and every other value equals exactly its own bit pattern.
pub open spec fn f64_eq(a: u64, b: u64) -> bool {
    !f64_is_nan(a) && !f64_is_nan(b) && (a == b || (f64_is_zero(a) && f64_is_zero(b)))
}

pub open spec fn f32_is_nan(bits: u32) -> bool {
    (bits >> 23) & 0xff == 0xff && bits & 0x007f_ffff != 0
}

pub open spec fn f32_is_zero(bits: u32) -> bool {
    bits & 0x7fff_ffff == 0
}

pub open spec fn f32_eq(a: u32, b: u32) -> bool {
    !f32_is_nan(a) && !f32_is_nan(b) && (a == b || (f32_is_zero(a) && f32_is_zero(b)))
}

/// Scalar equality: exact for every kind except floats, which follow IEEE-754.
pub open spec fn scalar_eq(a: ScalarView, b: ScalarView) -> bool {
    match (a, b) {
        (ScalarView::F64(x), ScalarView::F64(y)) => f64_eq(x, y),
        (ScalarView::F32(x), ScalarView::F32(y)) => f32_eq(x, y),
        _ => a == b,
    }
}

/// Deep equality of two value trees, the relation the differ's no-op fast
/// path decides.  Maps compare kind, then entries pointwise; thanks to the
/// canonical key order of well-formed maps this coincides with equality of
/// the key-to-value associations.
pub open spec fn eq_vv(a: ValueView, b: ValueView) -> bool
    decreases a,
{
    match (a, b) {
        (ValueView::Mapping(e1, k1), ValueView::Mapping(e2, k2)) => k1 == k2 && e1.len() == e2.len()
            && forall|i: int|
            0 <= i < e1.len() ==> (#[trigger] e1[i]).0 == e2[i].0 && eq_vv(e1[i].1, e2[i].1),
        (ValueView::Sequence(s1), ValueView::Sequence(s2)) => s1.len() == s2.len() && forall|
            i: int,
        |
            0 <= i < s1.len() ==> eq_vv(#[trigger] s1[i], s2[i]),
        (ValueView::Text(t1), ValueView::Text(t2)) => t1 == t2,
        (ValueView::Scalar(x), ValueView::Scalar(y)) => scalar_eq(x, y),
        _ => false,
    }
}

/// Scalar similarity: bitwise identity or IEEE equality.
pub open spec fn scalar_sim(a: ScalarView, b: ScalarView) -> bool {
    a == b || scalar_eq(a, b)
}

/// Similarity of two trees: identical shape and leaves, except that a float
/// leaf may differ from its counterpart when the two are IEEE-equal (signed
/// zeros) or bitwise identical (NaN kept as it stands).  Replaying a diff
/// reproduces the target tree up to this relation, which degenerates to
/// plain equality on trees without float leaves.
pub open spec fn sim_vv(a: ValueView, b: ValueView) -> bool
    decreases a,
{
    a == b || match (a, b) {
        (ValueView::Mapping(e1, k1), ValueView::Mapping(e2, k2)) => k1 == k2 && e1.len() == e2.len()
            && forall|i: int|
            0 <= i < e1.len() ==> (#[trigger] e1[i]).0 == e2[i].0 && sim_vv(e1[i].1, e2[i].1),
        (ValueView::Sequence(s1), ValueView::Sequence(s2)) => s1.len() == s2.len() && forall|
            i: int,
        |
            0 <= i < s1.len() ==> sim_vv(#[trigger] s1[i], s2[i]),
        (ValueView::Text(t1), ValueView::Text(t2)) => t1 == t2,
        (ValueView::Scalar(x), ValueView::Scalar(y)) => scalar_sim(x, y),
        _ => false,
    }
}

/// Strict lexicographic order on key strings, by code point.
pub open spec fn lex_lt(a: Seq<char>, b: Seq<char>) -> bool
    decreases a.len(),
{
    if b.len() == 0 {
        false
    } else if a.len() == 0 {
        true
    } else if (a[0] as u32) < (b[0] as u32) {
        true
    } else if a[0] == b[0] {
        lex_lt(a.skip(1), b.skip(1))
    } else {
        false
    }
}

pub open spec fn keys_sorted(e: Seq<(Seq<char>, ValueView)>) -> bool {
    forall|i: int, j: int|
        0 <= i < j < e.len() ==> lex_lt((#[trigger] e[i]).0, (#[trigger] e[j]).0)
}

/// Well-formedness: every map node keeps its entries in strictly increasing
/// key order, so keys are unique and the representation is canonical.
pub open spec fn wf_view(v: ValueView) -> bool
    decreases v,
{
    match v {
        ValueView::Mapping(e, _) => keys_sorted(e) && forall|i: int|
            0 <= i < e.len() ==> wf_view((#[trigger] e[i]).1),
        ValueView::Sequence(s) => forall|i: int| 0 <= i < s.len() ==> wf_view(#[trigger] s[i]),
        ValueView::Text(_) => true,
        ValueView::Scalar(_) => true,
    }
}

pub proof fn lemma_lex_irrefl(a: Seq<char>)
    ensures
        !lex_lt(a, a),
    decreases a.len(),
{
    if a.len() > 0 {
        lemma_lex_irrefl(a.skip(1));
    }
}

pub proof fn lemma_lex_asym(a: Seq<char>, b: Seq<char>)
    requires
        lex_lt(a, b),
    ensures
        !lex_lt(b, a),
        a != b,
    decreases a.len(),
{
    if a.len() > 0 && b.len() > 0 && a[0] == b[0] {
        lemma_lex_asym(a.skip(1), b.skip(1));
        assert(a =~= seq![a[0]] + a.skip(1));
        assert(b =~= seq![b[0]] + b.skip(1));
    }
}

pub proof fn lemma_lex_trans(a: Seq<char>, b: Seq<char>, c: Seq<char>)
    requires
        lex_lt(a, b),
        lex_lt(b, c),
    ensures
        lex_lt(a, c),
    decreases a.len(),
{
    if a.len() > 0 && b.len() > 0 && c.len() > 0 && a[0] == b[0] && b[0] == c[0] {
        lemma_lex_trans(a.skip(1), b.skip(1), c.skip(1));
    }
}


/// IEEE-754 equality on 64-bit float bit patterns.
pub fn f64_bits_eq(a: u64, b: u64) -> (r: bool)
    ensures
        r == f64_eq(a, b),
{
    let a_nan: bool = (a >> 52) & 0x7ff == 0x7ff && a & 0x000f_ffff_ffff_ffff != 0;
    let b_nan: bool = (b >> 52) & 0x7ff == 0x7ff && b & 0x000f_ffff_ffff_ffff != 0;
    let a_zero: bool = a & 0x7fff_ffff_ffff_ffff == 0;
    let b_zero: bool = b & 0x7fff_ffff_ffff_ffff == 0;
    !a_nan && !b_nan && (a == b || (a_zero && b_zero))
}

/// IEEE-754 equality on 32-bit float bit patterns.
pub fn f32_bits_eq(a: u32, b: u32) -> (r: bool)
    ensures
        r == f32_eq(a, b),
{
    let a_nan: bool = (a >> 23) & 0xff == 0xff && a & 0x007f_ffff != 0;
    let b_nan: bool = (b >> 23) & 0xff == 0xff && b & 0x007f_ffff != 0;
    let a_zero: bool = a & 0x7fff_ffff == 0;
    let b_zero: bool = b & 0x7fff_ffff == 0;
    !a_nan && !b_nan && (a == b || (a_zero && b_zero))
}

/// Decides [`scalar_eq`] on two scalars.
pub fn scalars_equal(a: &Scalar, b: &Scalar) -> (r: bool)
    ensures
        r == scalar_eq(a@, b@),
{
    match (a, b) {
        (Scalar::Str(x), Scalar::Str(y)) => x.eq(y),
        (Scalar::Int(x), Scalar::Int(y)) => *x == *y,
        (Scalar::Uint(x), Scalar::Uint(y)) => *x == *y,
        (Scalar::F64(x), Scalar::F64(y)) => f64_bits_eq(*x, *y),
        (Scalar::F32(x), Scalar::F32(y)) => f32_bits_eq(*x, *y),
        (Scalar::Counter(x), Scalar::Counter(y)) => *x == *y,
        (Scalar::Timestamp(x), Scalar::Timestamp(y)) => *x == *y,
        (Scalar::Boolean(x), Scalar::Boolean(y)) => *x == *y,
        (Scalar::Cursor(x), Scalar::Cursor(y)) => *x == *y,
        (Scalar::Null, Scalar::Null) => true,
        _ => false,
    }
}

/// Decides equality of two grapheme lists.
pub fn texts_equal(t1: &Vec<String>, t2: &Vec<String>) -> (r: bool)
    ensures
        r == (text_view(t1@) == text_view(t2@)),
{
    if t1.len() != t2.len() {
        return false;
    }
    let mut i: usize = 0;
    while i < t1.len()
        invariant
            i <= t1@.len(),
            t1@.len() == t2@.len(),
            forall|j: int| 0 <= j < i ==> t1@[j]@ == t2@[j]@,
        decreases t1@.len() - i,
    {
        if !t1[i].eq(&t2[i]) {
            proof {
                assert(text_view(t1@)[i as int] != text_view(t2@)[i as int]);
            }
            return false;
        }
        i += 1;
    }
    proof {
        assert(text_view(t1@) =~= text_view(t2@));
    }
    true
}

/// Decides deep equality ([`eq_vv`]) of two value trees.
pub fn values_equal(a: &Value, b: &Value) -> (r: bool)
    ensures
        r == eq_vv(a@, b@),
    decreases *a,
{
    match a {
        Value::Mapping(e1, k1) => {
            match b {
                Value::Mapping(e2, k2) => {
                    proof {
                        lemma_entries_view(e1@);
                        lemma_entries_view(e2@);
                    }
                    if !(*k1 == *k2) {
                        return false;
                    }
                    if e1.len() != e2.len() {
                        return false;
                    }
                    let mut i: usize = 0;
                    while i < e1.len()
                        invariant
                            i <= e1@.len(),
                            e1@.len() == e2@.len(),
                            *a == Value::Mapping(*e1, *k1),
                            *b == Value::Mapping(*e2, *k2),
                            entries_view(e1@).len() == e1@.len(),
                            entries_view(e2@).len() == e2@.len(),
                            forall|j: int|
                                0 <= j < e1@.len() ==> entries_view(e1@)[j] == (
                                    e1@[j].0@,
                                    value_view(e1@[j].1),
                                ),
                            forall|j: int|
                                0 <= j < e2@.len() ==> entries_view(e2@)[j] == (
                                    e2@[j].0@,
                                    value_view(e2@[j].1),
                                ),
                            forall|j: int|
                                0 <= j < i ==> e1@[j].0@ == e2@[j].0@ && eq_vv(
                                    value_view(e1@[j].1),
                                    value_view(e2@[j].1),
                                ),
                        decreases e1@.len() - i,
                    {
                        let (key1, val1) = &e1[i];
                        let (key2, val2) = &e2[i];
                        proof {
                            assert((*a)->Mapping_0 == *e1);
                            assert(decreases_to!(*a => (*a)->Mapping_0));
                            assert(decreases_to!(*e1 => e1@));
                            assert(decreases_to!(e1@ => e1@[i as int]));
                            assert(decreases_to!(e1@[i as int] => e1@[i as int].1));
                            assert(decreases_to!(*a => *val1));
                        }
                        if !key1.eq(key2) {
                            proof {
                                assert(a@ == ValueView::Mapping(entries_view(e1@), *k1));
                                assert(b@ == ValueView::Mapping(entries_view(e2@), *k2));
                                assert(entries_view(e1@)[i as int].0 != entries_view(
                                    e2@,
                                )[i as int].0);
                                assert(!eq_vv(a@, b@));
                            }
                            return false;
                        }
                        if !values_equal(val1, val2) {
                            proof {
                                assert(a@ == ValueView::Mapping(entries_view(e1@), *k1));
                                assert(b@ == ValueView::Mapping(entries_view(e2@), *k2));
                                assert(!eq_vv(
                                    entries_view(e1@)[i as int].1,
                                    entries_view(e2@)[i as int].1,
                                ));
                                assert(!eq_vv(a@, b@));
                            }
                            return false;
                        }
                        i += 1;
                    }
                    true
                },
                _ => false,
            }
        },
        Value::Sequence(s1) => {
            match b {
                Value::Sequence(s2) => {
                    proof {
                        lemma_elems_view(s1@);
                        lemma_elems_view(s2@);
                    }
                    if s1.len() != s2.len() {
                        return false;
                    }
                    let mut i: usize = 0;
                    while i < s1.len()
                        invariant
                            i <= s1@.len(),
                            s1@.len() == s2@.len(),
                            *a == Value::Sequence(*s1),
                            *b == Value::Sequence(*s2),
                            elems_view(s1@).len() == s1@.len(),
                            elems_view(s2@).len() == s2@.len(),
                            forall|j: int|
                                0 <= j < s1@.len() ==> elems_view(s1@)[j] == value_view(s1@[j]),
                            forall|j: int|
                                0 <= j < s2@.len() ==> elems_view(s2@)[j] == value_view(s2@[j]),
                            forall|j: int|
                                0 <= j < i ==> eq_vv(value_view(s1@[j]), value_view(s2@[j])),
                        decreases s1@.len() - i,
                    {
                        proof {
                            assert((*a)->Sequence_0 == *s1);
                            assert(decreases_to!(*a => (*a)->Sequence_0));
                            assert(decreases_to!(*s1 => s1@));
                            assert(decreases_to!(s1@ => s1@[i as int]));
                        }
                        if !values_equal(&s1[i], &s2[i]) {
                            proof {
                                assert(a@ == ValueView::Sequence(elems_view(s1@)));
                                assert(b@ == ValueView::Sequence(elems_view(s2@)));
                                assert(!eq_vv(elems_view(s1@)[i as int], elems_view(s2@)[i as int]));
                                assert(!eq_vv(a@, b@));
                            }
                            return false;
                        }
                        i += 1;
                    }
                    true
                },
                _ => false,
            }
        },
        Value::Text(t1) => {
            match b {
                Value::Text(t2) => texts_equal(t1, t2),
                _ => false,
            }
        },
        Value::Scalar(x) => {
            match b {
                Value::Scalar(y) => scalars_equal(x, y),
                _ => false,
            }
        },
    }
}

/// Deep copy of a string.
pub fn clone_string(s: &String) -> (r: String)
    ensures
        r@ == s@,
{
    s.clone()
}

/// Deep copy of a scalar.
pub fn clone_scalar(s: &Scalar) -> (r: Scalar)
    ensures
        r@ == s@,
{
    match s {
        Scalar::Str(x) => Scalar::Str(clone_string(x)),
        Scalar::Int(x) => Scalar::Int(*x),
        Scalar::Uint(x) => Scalar::Uint(*x),
        Scalar::F64(x) => Scalar::F64(*x),
        Scalar::F32(x) => Scalar::F32(*x),
        Scalar::Counter(x) => Scalar::Counter(*x),
        Scalar::Timestamp(x) => Scalar::Timestamp(*x),
        Scalar::Boolean(x) => Scalar::Boolean(*x),
        Scalar::Cursor(x) => Scalar::Cursor(*x),
        Scalar::Null => Scalar::Null,
    }
}

/// Deep copy of a grapheme list.
pub fn clone_text(t: &Vec<String>) -> (r: Vec<String>)
    ensures
        text_view(r@) == text_view(t@),
{
    let mut out: Vec<String> = Vec::new();
    let mut i: usize = 0;
    while i < t.len()
        invariant
            i <= t@.len(),
            out@.len() == i,
            forall|j: int| 0 <= j < i ==> out@[j]@ == t@[j]@,
        decreases t@.len() - i,
    {
        out.push(clone_string(&t[i]));
        i += 1;
    }
    proof {
        assert(text_view(out@) =~= text_view(t@));
    }
    out
}

/// Deep copy of a value tree.
pub fn clone_value(v: &Value) -> (r: Value)
    ensures
        r@ == v@,
    decreases *v,
{
    match v {
        Value::Mapping(entries, kind) => {
            let mut out: Vec<(String, Value)> = Vec::new();
            let mut i: usize = 0;
            while i < entries.len()
                invariant
                    i <= entries@.len(),
                    out@.len() == i,
                    *v == Value::Mapping(*entries, *kind),
                    forall|j: int|
                        0 <= j < i ==> out@[j].0@ == entries@[j].0@ && value_view(out@[j].1)
                            == value_view(entries@[j].1),
                decreases entries@.len() - i,
            {
                let (k, val) = &entries[i];
                proof {
                    assert((*v)->Mapping_0 == *entries);
                    assert(decreases_to!(*v => (*v)->Mapping_0));
                    assert(decreases_to!(*entries => entries@));
                    assert(decreases_to!(entries@ => entries@[i as int]));
                    assert(decreases_to!(entries@[i as int] => entries@[i as int].1));
                    assert(decreases_to!(*v => *val));
                }
                out.push((clone_string(k), clone_value(val)));
                i += 1;
            }
            proof {
                lemma_entries_view(entries@);
                lemma_entries_view(out@);
                assert(entries_view(out@) =~= entries_view(entries@));
            }
            Value::Mapping(out, *kind)
        },
        Value::Sequence(elems) => {
            let mut out: Vec<Value> = Vec::new();
            let mut i: usize = 0;
            while i < elems.len()
                invariant
                    i <= elems@.len(),
                    out@.len() == i,
                    *v == Value::Sequence(*elems),
                    forall|j: int| 0 <= j < i ==> value_view(out@[j]) == value_view(elems@[j]),
                decreases elems@.len() - i,
            {
                proof {
                    assert((*v)->Sequence_0 == *elems);
                    assert(decreases_to!(*v => (*v)->Sequence_0));
                    assert(decreases_to!(*elems => elems@));
                    assert(decreases_to!(elems@ => elems@[i as int]));
                }
                out.push(clone_value(&elems[i]));
                i += 1;
            }
            proof {
                lemma_elems_view(elems@);
                lemma_elems_view(out@);
                assert(elems_view(out@) =~= elems_view(elems@));
            }
            Value::Sequence(out)
        },
        Value::Text(t) => Value::Text(clone_text(t)),
        Value::Scalar(s) => Value::Scalar(clone_scalar(s)),
    }
}


pub proof fn lemma_lex_total(a: Seq<char>, b: Seq<char>)
    ensures
        a == b || lex_lt(a, b) || lex_lt(b, a),
    decreases a.len(),
{
    if a.len() == 0 && b.len() == 0 {
        assert(a =~= b);
    } else if a.len() > 0 && b.len() > 0 && a[0] == b[0] {
        lemma_lex_total(a.skip(1), b.skip(1));
        if a.skip(1) == b.skip(1) {
            assert(a =~= seq![a[0]] + a.skip(1));
            assert(b =~= seq![b[0]] + b.skip(1));
        }
    } else if a.len() > 0 && b.len() > 0 {
        vstd::utf8::char_u32_cast(a[0], a[0] as u32);
        vstd::utf8::char_u32_cast(b[0], b[0] as u32);
        assert(a[0] as u32 != b[0] as u32);
    }
}

/// The lexicographic order agrees with the first position where two strings
/// differ (or with one being a proper prefix of the other).
pub proof fn lemma_lex_from_pointwise(a: Seq<char>, b: Seq<char>, i: int)
    requires
        0 <= i <= a.len(),
        i <= b.len(),
        forall|j: int| 0 <= j < i ==> a[j] == b[j],
        (i < a.len() && i < b.len() && (a[i] as u32) < (b[i] as u32)) || (i == a.len() && i
            < b.len()),
    ensures
        lex_lt(a, b),
    decreases i,
{
    if i > 0 {
        assert forall|j: int| 0 <= j < i - 1 implies a.skip(1)[j] == b.skip(1)[j] by {
            assert(a.skip(1)[j] == a[j + 1]);
            assert(b.skip(1)[j] == b[j + 1]);
        }
        if i - 1 < a.len() - 1 && i - 1 < b.len() - 1 {
            assert(a.skip(1)[i - 1] == a[i]);
            assert(b.skip(1)[i - 1] == b[i]);
        }
        lemma_lex_from_pointwise(a.skip(1), b.skip(1), i - 1);
    }
}

/// Three-way lexicographic comparison of two strings, by code point.
/// Returns -1, 0 or 1 as `a` is below, equal to, or above `b`.
pub fn str_cmp(a: &String, b: &String) -> (r: i32)
    ensures
        r == -1 || r == 0 || r == 1,
        r == -1 ==> lex_lt(a@, b@),
        r == 0 ==> a@ == b@,
        r == 1 ==> lex_lt(b@, a@),
{
    let alen = a.as_str().unicode_len();
    let blen = b.as_str().unicode_len();
    let mut i: usize = 0;
    while i < alen && i < blen
        invariant
            alen == a@.len(),
            blen == b@.len(),
            i <= alen,
            i <= blen,
            forall|j: int| 0 <= j < i ==> a@[j] == b@[j],
        decreases alen - i,
    {
        let ca = a.as_str().get_char(i);
        let cb = b.as_str().get_char(i);
        if (ca as u32) < (cb as u32) {
            proof {
                lemma_lex_from_pointwise(a@, b@, i as int);
            }
            return -1;
        }
        if (cb as u32) < (ca as u32) {
            proof {
                lemma_lex_from_pointwise(b@, a@, i as int);
            }
            return 1;
        }
        proof {
            assert(ca as u32 == cb as u32);
            assert(ca == cb) by {
                assert(ca as u32 == cb as u32);
            }
        }
        i += 1;
    }
    if alen < blen {
        proof {
            lemma_lex_from_pointwise(a@, b@, alen as int);
        }
        return -1;
    }
    if blen < alen {
        proof {
            lemma_lex_from_pointwise(b@, a@, blen as int);
        }
        return 1;
    }
    proof {
        assert(a@ =~= b@);
    }
    0
}

} // verus!
