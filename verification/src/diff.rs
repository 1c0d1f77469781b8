//! The differ: given two value trees, compute the edit script that takes
//! the first to the second.  The executable entry point is [`diff_values`];
//! the mathematical definition it is held to is [`spec_diff`].

use vstd::prelude::*;

use crate::script::DiffError;
use crate::script::Op;
use crate::script::OpView;
use crate::script::PathElem;
use crate::script::PathElemView;
use crate::script::counter_delta;
use crate::script::op_view;
use crate::script::prefix_ops;
use crate::script::script_view;
use crate::script::with_prefix;
use crate::value::Scalar;
use crate::value::ScalarView;
use crate::value::Value;
use crate::value::ValueView;
use crate::value::clone_string;
use crate::value::clone_value;
use crate::value::entries_view;
use crate::value::elems_view;
use crate::value::eq_vv;
use crate::value::lemma_entries_view;
use crate::value::lemma_elems_view;
use crate::value::lex_lt;
use crate::value::scalar_eq;
use crate::value::str_cmp;
use crate::value::text_view;
use crate::value::value_view;
use crate::value::values_equal;

verus! {

/// A whole-value replacement at the root of the subtree being diffed.
pub open spec fn set_root(v: ValueView) -> OpView {
    OpView::SetScalar { path: Seq::empty(), value: v }
}

/// Diff of two scalars already known to be unequal: counters increment,
/// differing cursors cannot be expressed, everything else is replaced.
pub open spec fn spec_diff_scalars(a: ScalarView, b: ScalarView) -> Result<Seq<OpView>, DiffError> {
    match (a, b) {
        (ScalarView::Counter(x), ScalarView::Counter(y)) => Ok(
            seq![OpView::IncrementCounter { path: Seq::empty(), delta: counter_delta(y, x) }],
        ),
        (ScalarView::Cursor(x), ScalarView::Cursor(y)) => Err(DiffError::Incompatible),
        _ => Ok(seq![set_root(ValueView::Scalar(b))]),
    }
}

/// Removals of the `n` elements that start at `base`, highest index first,
/// so every index is still valid when its removal is replayed.
pub open spec fn removal_ops(n: nat, base: int) -> Seq<OpView>
    decreases n,
{
    if n == 0 {
        Seq::empty()
    } else {
        seq![OpView::RemoveSequenceElement { path: Seq::empty(), index: base + n - 1 }]
            + removal_ops((n - 1) as nat, base)
    }
}

/// Insertions of `vs` starting at `base`, lowest index first, so every
/// index is still valid when its insertion is replayed.
pub open spec fn insertion_ops(vs: Seq<ValueView>, base: int) -> Seq<OpView>
    decreases vs.len(),
{
    if vs.len() == 0 {
        Seq::empty()
    } else {
        seq![OpView::InsertSequenceElement { path: Seq::empty(), index: base, value: vs[0] }]
            + insertion_ops(vs.skip(1), base + 1)
    }
}

/// Length of the longest common prefix of two grapheme lists.
pub open spec fn common_prefix_len(a: Seq<Seq<char>>, b: Seq<Seq<char>>) -> int
    decreases a.len(),
{
    if a.len() == 0 || b.len() == 0 || a[0] != b[0] {
        0
    } else {
        1 + common_prefix_len(a.skip(1), b.skip(1))
    }
}

/// Length of the longest common suffix of two grapheme lists.
pub open spec fn common_suffix_len(a: Seq<Seq<char>>, b: Seq<Seq<char>>) -> int
    decreases a.len(),
{
    if a.len() == 0 || b.len() == 0 || a.last() != b.last() {
        0
    } else {
        1 + common_suffix_len(a.drop_last(), b.drop_last())
    }
}

pub proof fn lemma_common_prefix(a: Seq<Seq<char>>, b: Seq<Seq<char>>)
    ensures
        0 <= common_prefix_len(a, b),
        common_prefix_len(a, b) <= a.len(),
        common_prefix_len(a, b) <= b.len(),
        forall|i: int| 0 <= i < common_prefix_len(a, b) ==> a[i] == b[i],
        common_prefix_len(a, b) < a.len() && common_prefix_len(a, b) < b.len() ==> a[common_prefix_len(
            a,
            b,
        )] != b[common_prefix_len(a, b)],
    decreases a.len(),
{
    if a.len() > 0 && b.len() > 0 && a[0] == b[0] {
        lemma_common_prefix(a.skip(1), b.skip(1));
        let p = common_prefix_len(a, b);
        assert forall|i: int| 0 <= i < p implies a[i] == b[i] by {
            if i > 0 {
                assert(a.skip(1)[i - 1] == a[i]);
                assert(b.skip(1)[i - 1] == b[i]);
            }
        }
        if p < a.len() && p < b.len() {
            assert(a.skip(1)[p - 1] == a[p]);
            assert(b.skip(1)[p - 1] == b[p]);
        }
    }
}

pub proof fn lemma_common_suffix(a: Seq<Seq<char>>, b: Seq<Seq<char>>)
    ensures
        0 <= common_suffix_len(a, b),
        common_suffix_len(a, b) <= a.len(),
        common_suffix_len(a, b) <= b.len(),
        forall|i: int|
            0 <= i < common_suffix_len(a, b) ==> #[trigger] a[a.len() - 1 - i] == b[b.len() - 1
                - i],
        common_suffix_len(a, b) < a.len() && common_suffix_len(a, b) < b.len() ==> a[a.len() - 1
            - common_suffix_len(a, b)] != b[b.len() - 1 - common_suffix_len(a, b)],
    decreases a.len(),
{
    if a.len() > 0 && b.len() > 0 && a.last() == b.last() {
        lemma_common_suffix(a.drop_last(), b.drop_last());
        let s = common_suffix_len(a, b);
        assert forall|i: int| 0 <= i < s implies #[trigger] a[a.len() - 1 - i] == b[b.len() - 1
            - i] by {
            if i > 0 {
                assert(a.drop_last()[a.len() - 2 - (i - 1)] == a[a.len() - 1 - i]);
                assert(b.drop_last()[b.len() - 2 - (i - 1)] == b[b.len() - 1 - i]);
            }
        }
        if s < a.len() && s < b.len() {
            assert(a.drop_last()[a.len() - 2 - (s - 1)] == a[a.len() - 1 - s]);
            assert(b.drop_last()[b.len() - 2 - (s - 1)] == b[b.len() - 1 - s]);
        }
    }
}

/// Diff of two unequal grapheme lists: one range replacement covering
/// everything between the common prefix and the common suffix.
pub open spec fn spec_diff_text(t1: Seq<Seq<char>>, t2: Seq<Seq<char>>) -> Seq<OpView> {
    let p = common_prefix_len(t1, t2);
    let s = common_suffix_len(t1.skip(p), t2.skip(p));
    seq![
        OpView::SetTextRange {
            path: Seq::empty(),
            start: p,
            end: t1.len() - s,
            graphemes: t2.subrange(p, t2.len() - s),
        },
    ]
}

/// The edit script from `old` to `new`, with paths relative to the root of
/// the diffed pair.  Equal trees yield the empty script; same-kind nodes are
/// reconciled partwise; a kind change (different variants, or maps of
/// different flavour) is one whole-value replacement; only a pair of
/// differing opaque cursors is refused.
pub open spec fn spec_diff(old: ValueView, new: ValueView) -> Result<Seq<OpView>, DiffError>
    decreases old, new, 1int,
{
    if eq_vv(old, new) {
        Ok(Seq::empty())
    } else {
        match (old, new) {
            (ValueView::Mapping(e1, k1), ValueView::Mapping(e2, k2)) => if k1 == k2 {
                spec_diff_entries(e1, e2)
            } else {
                Ok(seq![set_root(new)])
            },
            (ValueView::Sequence(s1), ValueView::Sequence(s2)) => spec_diff_elems(s1, s2, 0),
            (ValueView::Text(t1), ValueView::Text(t2)) => Ok(spec_diff_text(t1, t2)),
            (ValueView::Scalar(a), ValueView::Scalar(b)) => spec_diff_scalars(a, b),
            _ => Ok(seq![set_root(new)]),
        }
    }
}

/// Key-set reconciliation of two entry lists in canonical key order: a key
/// only on the left is removed, a key only on the right is set, a key on
/// both sides is diffed recursively under that key.
pub open spec fn spec_diff_entries(
    e1: Seq<(Seq<char>, ValueView)>,
    e2: Seq<(Seq<char>, ValueView)>,
) -> Result<Seq<OpView>, DiffError>
    decreases e1, e2, 0int,
{
    if e1.len() == 0 && e2.len() == 0 {
        Ok(Seq::empty())
    } else if e1.len() > 0 && (e2.len() == 0 || lex_lt(e1[0].0, e2[0].0)) {
        match spec_diff_entries(e1.skip(1), e2) {
            Ok(rest) => Ok(
                seq![OpView::RemoveMapKey { path: Seq::empty(), key: e1[0].0 }] + rest,
            ),
            Err(e) => Err(e),
        }
    } else if e1.len() > 0 && e2.len() > 0 && e1[0].0 == e2[0].0 {
        match spec_diff(e1[0].1, e2[0].1) {
            Ok(child) => match spec_diff_entries(e1.skip(1), e2.skip(1)) {
                Ok(rest) => Ok(prefix_ops(child, PathElemView::Key(e1[0].0)) + rest),
                Err(e) => Err(e),
            },
            Err(e) => Err(e),
        }
    } else {
        match spec_diff_entries(e1, e2.skip(1)) {
            Ok(rest) => Ok(
                seq![
                    OpView::SetMapValue { path: Seq::empty(), key: e2[0].0, value: e2[0].1 },
                ] + rest,
            ),
            Err(e) => Err(e),
        }
    }
}

/// Index-aligned reconciliation of two element lists: matched positions are
/// diffed recursively in place, then the left tail is removed (highest index
/// first) or the right tail inserted (lowest index first).  `base` is the
/// position of the first element of both lists in the enclosing sequence.
pub open spec fn spec_diff_elems(
    s1: Seq<ValueView>,
    s2: Seq<ValueView>,
    base: int,
) -> Result<Seq<OpView>, DiffError>
    decreases s1, s2, 0int,
{
    if s1.len() == 0 {
        Ok(insertion_ops(s2, base))
    } else if s2.len() == 0 {
        Ok(removal_ops(s1.len(), base))
    } else {
        match spec_diff(s1[0], s2[0]) {
            Ok(child) => match spec_diff_elems(s1.skip(1), s2.skip(1), base + 1) {
                Ok(rest) => Ok(prefix_ops(child, PathElemView::Index(base)) + rest),
                Err(e) => Err(e),
            },
            Err(e) => Err(e),
        }
    }
}


pub proof fn lemma_removal_ops(n: nat, base: int)
    ensures
        removal_ops(n, base).len() == n,
        forall|m: int|
            0 <= m < n ==> removal_ops(n, base)[m] == (OpView::RemoveSequenceElement {
                path: Seq::empty(),
                index: base + n - 1 - m,
            }),
    decreases n,
{
    if n > 0 {
        lemma_removal_ops((n - 1) as nat, base);
    }
}

pub proof fn lemma_insertion_ops(vs: Seq<ValueView>, base: int)
    ensures
        insertion_ops(vs, base).len() == vs.len(),
        forall|m: int|
            0 <= m < vs.len() ==> insertion_ops(vs, base)[m] == (OpView::InsertSequenceElement {
                path: Seq::empty(),
                index: base + m,
                value: vs[m],
            }),
    decreases vs.len(),
{
    if vs.len() > 0 {
        lemma_insertion_ops(vs.skip(1), base + 1);
        assert forall|m: int| 0 <= m < vs.len() implies insertion_ops(vs, base)[m] == (
        OpView::InsertSequenceElement { path: Seq::empty(), index: base + m, value: vs[m] }) by {
            if m > 0 {
                assert(insertion_ops(vs, base)[m] == insertion_ops(vs.skip(1), base + 1)[m - 1]);
                assert(vs.skip(1)[m - 1] == vs[m]);
            }
        }
    }
}

/// Exec-to-spec correspondence for a diff result.
pub open spec fn diff_matches(s: Result<Seq<OpView>, DiffError>, r: Result<Vec<Op>, DiffError>) -> bool {
    match (s, r) {
        (Ok(sops), Ok(rops)) => script_view(rops@) == sops,
        (Err(e1), Err(e2)) => e1 == e2,
        _ => false,
    }
}

fn clone_path_elem(p: &PathElem) -> (r: PathElem)
    ensures
        crate::script::path_elem_view(r) == crate::script::path_elem_view(*p),
{
    match p {
        PathElem::Key(s) => PathElem::Key(clone_string(s)),
        PathElem::Index(i) => PathElem::Index(*i),
    }
}

fn prefix_one(op: Op, el: PathElem) -> (r: Op)
    ensures
        op_view(r) == with_prefix(op_view(op), crate::script::path_elem_view(el)),
{
    match op {
        Op::SetMapValue { path, key, value } => {
            let mut path = path;
            let ghost orig_path = path@;
            path.insert(0, el);
            proof {
                assert(crate::script::path_view(path@) =~= seq![
                    crate::script::path_elem_view(el),
                ] + crate::script::path_view(orig_path));
            }
            Op::SetMapValue { path, key, value }
        },
        Op::RemoveMapKey { path, key } => {
            let mut path = path;
            let ghost orig_path = path@;
            path.insert(0, el);
            proof {
                assert(crate::script::path_view(path@) =~= seq![
                    crate::script::path_elem_view(el),
                ] + crate::script::path_view(orig_path));
            }
            Op::RemoveMapKey { path, key }
        },
        Op::InsertSequenceElement { path, index, value } => {
            let mut path = path;
            let ghost orig_path = path@;
            path.insert(0, el);
            proof {
                assert(crate::script::path_view(path@) =~= seq![
                    crate::script::path_elem_view(el),
                ] + crate::script::path_view(orig_path));
            }
            Op::InsertSequenceElement { path, index, value }
        },
        Op::RemoveSequenceElement { path, index } => {
            let mut path = path;
            let ghost orig_path = path@;
            path.insert(0, el);
            proof {
                assert(crate::script::path_view(path@) =~= seq![
                    crate::script::path_elem_view(el),
                ] + crate::script::path_view(orig_path));
            }
            Op::RemoveSequenceElement { path, index }
        },
        Op::SetTextRange { path, start, end, graphemes } => {
            let mut path = path;
            let ghost orig_path = path@;
            path.insert(0, el);
            proof {
                assert(crate::script::path_view(path@) =~= seq![
                    crate::script::path_elem_view(el),
                ] + crate::script::path_view(orig_path));
            }
            Op::SetTextRange { path, start, end, graphemes }
        },
        Op::IncrementCounter { path, delta } => {
            let mut path = path;
            let ghost orig_path = path@;
            path.insert(0, el);
            proof {
                assert(crate::script::path_view(path@) =~= seq![
                    crate::script::path_elem_view(el),
                ] + crate::script::path_view(orig_path));
            }
            Op::IncrementCounter { path, delta }
        },
        Op::SetScalar { path, value } => {
            let mut path = path;
            let ghost orig_path = path@;
            path.insert(0, el);
            proof {
                assert(crate::script::path_view(path@) =~= seq![
                    crate::script::path_elem_view(el),
                ] + crate::script::path_view(orig_path));
            }
            Op::SetScalar { path, value }
        },
    }
}

fn prefix_all(ops: Vec<Op>, el: &PathElem) -> (r: Vec<Op>)
    ensures
        script_view(r@) == prefix_ops(script_view(ops@), crate::script::path_elem_view(*el)),
{
    let ghost orig = ops@;
    let mut rest = ops;
    let mut out: Vec<Op> = Vec::new();
    while rest.len() > 0
        invariant
            out@.len() + rest@.len() == orig.len(),
            rest@ == orig.skip(out@.len() as int),
            forall|j: int|
                0 <= j < out@.len() ==> op_view(#[trigger] out@[j]) == with_prefix(
                    op_view(orig[j]),
                    crate::script::path_elem_view(*el),
                ),
        decreases rest@.len(),
    {
        let ghost k = out@.len() as int;
        let op = rest.remove(0);
        proof {
            assert(orig.skip(k)[0] == orig[k]);
            assert(rest@ =~= orig.skip(k + 1));
        }
        out.push(prefix_one(op, clone_path_elem(el)));
    }
    proof {
        assert(script_view(out@) =~= prefix_ops(
            script_view(orig),
            crate::script::path_elem_view(*el),
        ));
    }
    out
}

/// One whole-value replacement at the relative root.
fn replace_with(new: &Value) -> (r: Vec<Op>)
    ensures
        script_view(r@) == seq![set_root(new@)],
{
    let mut ops: Vec<Op> = Vec::new();
    ops.push(Op::SetScalar { path: Vec::new(), value: clone_value(new) });
    proof {
        assert(crate::script::path_view(Seq::<PathElem>::empty())
            =~= Seq::<PathElemView>::empty());
        assert(script_view(ops@) =~= seq![set_root(value_view(*new))]);
    }
    ops
}

/// Diff of two scalars that are not IEEE-equal.
fn diff_scalars(a: &Scalar, b: &Scalar) -> (r: Result<Vec<Op>, DiffError>)
    requires
        !scalar_eq(a@, b@),
    ensures
        diff_matches(spec_diff_scalars(a@, b@), r),
{
    match a {
        Scalar::Counter(x) => {
            match b {
                Scalar::Counter(y) => {
                    let mut ops: Vec<Op> = Vec::new();
                    ops.push(Op::IncrementCounter { path: Vec::new(), delta: y.wrapping_sub(*x) });
                    proof {
                        assert(crate::script::path_view(Seq::<PathElem>::empty())
                            =~= Seq::<PathElemView>::empty());
                        assert(script_view(ops@) =~= seq![
                            OpView::IncrementCounter {
                                path: Seq::empty(),
                                delta: counter_delta(*y, *x),
                            },
                        ]);
                    }
                    Ok(ops)
                },
                _ => Ok(replace_with_scalar(b)),
            }
        },
        Scalar::Cursor(_x) => {
            match b {
                Scalar::Cursor(_y) => Err(DiffError::Incompatible),
                _ => Ok(replace_with_scalar(b)),
            }
        },
        _ => Ok(replace_with_scalar(b)),
    }
}

fn replace_with_scalar(b: &Scalar) -> (r: Vec<Op>)
    ensures
        script_view(r@) == seq![set_root(ValueView::Scalar(b@))],
{
    let mut ops: Vec<Op> = Vec::new();
    ops.push(Op::SetScalar { path: Vec::new(), value: Value::Scalar(crate::value::clone_scalar(b)) });
    proof {
        assert(crate::script::path_view(Seq::<PathElem>::empty())
            =~= Seq::<PathElemView>::empty());
        assert(script_view(ops@) =~= seq![set_root(ValueView::Scalar(crate::value::scalar_view(*b)))]);
    }
    ops
}


/// Diff of two unequal grapheme texts: one [`Op::SetTextRange`] covering the
/// graphemes between the common prefix and the common suffix.
fn diff_text(t1: &Vec<String>, t2: &Vec<String>) -> (r: Vec<Op>)
    requires
        text_view(t1@) != text_view(t2@),
    ensures
        script_view(r@) == spec_diff_text(text_view(t1@), text_view(t2@)),
{
    let ghost tv1 = text_view(t1@);
    let ghost tv2 = text_view(t2@);
    let mut p: usize = 0;
    while p < t1.len() && p < t2.len()
        invariant_except_break
            p <= t1@.len(),
            p <= t2@.len(),
            tv1 == text_view(t1@),
            tv2 == text_view(t2@),
            forall|j: int| 0 <= j < p ==> tv1[j] == tv2[j],
        ensures
            p <= t1@.len(),
            p <= t2@.len(),
            tv1 == text_view(t1@),
            tv2 == text_view(t2@),
            forall|j: int| 0 <= j < p ==> tv1[j] == tv2[j],
            p == tv1.len() || p == tv2.len() || tv1[p as int] != tv2[p as int],
        decreases t1@.len() - p,
    {
        if !t1[p].eq(&t2[p]) {
            break;
        }
        p += 1;
    }
    proof {
        lemma_common_prefix(tv1, tv2);
        assert(common_prefix_len(tv1, tv2) == p as int);
    }
    let mut s: usize = 0;
    while s < t1.len() - p && s < t2.len() - p
        invariant_except_break
            p <= t1@.len(),
            p <= t2@.len(),
            s <= t1@.len() - p,
            s <= t2@.len() - p,
            tv1 == text_view(t1@),
            tv2 == text_view(t2@),
            forall|j: int|
                0 <= j < s ==> #[trigger] tv1[tv1.len() - 1 - j] == tv2[tv2.len() - 1 - j],
        ensures
            p <= t1@.len(),
            p <= t2@.len(),
            s <= t1@.len() - p,
            s <= t2@.len() - p,
            tv1 == text_view(t1@),
            tv2 == text_view(t2@),
            forall|j: int|
                0 <= j < s ==> #[trigger] tv1[tv1.len() - 1 - j] == tv2[tv2.len() - 1 - j],
            s == t1@.len() - p || s == t2@.len() - p || tv1[tv1.len() - 1 - s] != tv2[tv2.len() - 1
                - s],
        decreases t1@.len() - p - s,
    {
        if !t1[t1.len() - 1 - s].eq(&t2[t2.len() - 1 - s]) {
            break;
        }
        s += 1;
    }
    proof {
        lemma_common_suffix(tv1.skip(p as int), tv2.skip(p as int));
        assert forall|j: int| 0 <= j < s implies #[trigger] tv1.skip(p as int)[tv1.skip(
            p as int,
        ).len() - 1 - j] == tv2.skip(p as int)[tv2.skip(p as int).len() - 1 - j] by {
            assert(tv1.skip(p as int)[tv1.skip(p as int).len() - 1 - j] == tv1[tv1.len() - 1 - j]);
            assert(tv2.skip(p as int)[tv2.skip(p as int).len() - 1 - j] == tv2[tv2.len() - 1 - j]);
        }
        if s < t1@.len() - p && s < t2@.len() - p {
            assert(tv1.skip(p as int)[tv1.skip(p as int).len() - 1 - s] == tv1[tv1.len() - 1 - s]);
            assert(tv2.skip(p as int)[tv2.skip(p as int).len() - 1 - s] == tv2[tv2.len() - 1 - s]);
        }
        assert(common_suffix_len(tv1.skip(p as int), tv2.skip(p as int)) == s as int);
    }
    let stop: usize = t2.len() - s;
    let mut graphemes: Vec<String> = Vec::new();
    let mut k: usize = p;
    while k < stop
        invariant
            p <= k <= stop,
            stop == t2@.len() - s,
            s <= t2@.len() - p,
            tv2 == text_view(t2@),
            graphemes@.len() == k - p,
            forall|m: int| 0 <= m < k - p ==> graphemes@[m]@ == tv2[p + m],
        decreases stop - k,
    {
        graphemes.push(clone_string(&t2[k]));
        k += 1;
    }
    let mut ops: Vec<Op> = Vec::new();
    ops.push(
        Op::SetTextRange { path: Vec::new(), start: p, end: t1.len() - s, graphemes: graphemes },
    );
    proof {
        assert(crate::script::path_view(Seq::<PathElem>::empty())
            =~= Seq::<PathElemView>::empty());
        assert(text_view(ops@[0]->SetTextRange_graphemes@) =~= tv2.subrange(
            p as int,
            tv2.len() - s,
        ));
        assert(script_view(ops@) =~= spec_diff_text(tv1, tv2));
    }
    ops
}

/// The diff dispatcher: equal trees are a no-op, same-kind nodes delegate
/// to the matching differ, a kind change is a whole-value replacement.
pub fn diff_value(old: &Value, new: &Value) -> (r: Result<Vec<Op>, DiffError>)
    ensures
        diff_matches(spec_diff(old@, new@), r),
    decreases *old, 0int,
{
    if values_equal(old, new) {
        proof {
            assert(script_view(Seq::<Op>::empty()) =~= Seq::<OpView>::empty());
        }
        return Ok(Vec::new());
    }
    match old {
        Value::Mapping(e1, k1) => {
            match new {
                Value::Mapping(e2, k2) => {
                    if *k1 == *k2 {
                        proof {
                            assert(decreases_to!(*old => (*old)->Mapping_0));
                            assert(entries_view(e1@).skip(0) =~= entries_view(e1@));
                            assert(entries_view(e2@).skip(0) =~= entries_view(e2@));
                        }
                        diff_entries(e1, e2, 0, 0)
                    } else {
                        Ok(replace_with(new))
                    }
                },
                _ => Ok(replace_with(new)),
            }
        },
        Value::Sequence(s1) => {
            match new {
                Value::Sequence(s2) => {
                    proof {
                        assert(decreases_to!(*old => (*old)->Sequence_0));
                        assert(elems_view(s1@).skip(0) =~= elems_view(s1@));
                        assert(elems_view(s2@).skip(0) =~= elems_view(s2@));
                    }
                    diff_elems(s1, s2, 0)
                },
                _ => Ok(replace_with(new)),
            }
        },
        Value::Text(t1) => {
            match new {
                Value::Text(t2) => Ok(diff_text(t1, t2)),
                _ => Ok(replace_with(new)),
            }
        },
        Value::Scalar(a) => {
            match new {
                Value::Scalar(b) => diff_scalars(a, b),
                _ => Ok(replace_with(new)),
            }
        },
    }
}

/// Merge walk over two canonically ordered entry lists, from positions
/// `i` and `j` on.
fn diff_entries(
    e1: &Vec<(String, Value)>,
    e2: &Vec<(String, Value)>,
    i: usize,
    j: usize,
) -> (r: Result<Vec<Op>, DiffError>)
    requires
        i <= e1@.len(),
        j <= e2@.len(),
    ensures
        diff_matches(
            spec_diff_entries(entries_view(e1@).skip(i as int), entries_view(e2@).skip(j as int)),
            r,
        ),
    decreases *e1, e1@.len() + e2@.len() - i - j,
{
    proof {
        lemma_entries_view(e1@);
        lemma_entries_view(e2@);
    }
    let ghost ev1 = entries_view(e1@).skip(i as int);
    let ghost ev2 = entries_view(e2@).skip(j as int);
    if i == e1.len() && j == e2.len() {
        proof {
            assert(script_view(Seq::<Op>::empty()) =~= Seq::<OpView>::empty());
        }
        return Ok(Vec::new());
    }
    let old_first = if i < e1.len() && j < e2.len() {
        let c = str_cmp(&e1[i].0, &e2[j].0);
        proof {
            if c == 0 {
                crate::value::lemma_lex_irrefl(e1@[i as int].0@);
            }
            if c == 1 {
                crate::value::lemma_lex_asym(e2@[j as int].0@, e1@[i as int].0@);
            }
        }
        if c == 0 {
            let (key1, val1) = &e1[i];
            let (_key2, val2) = &e2[j];
            proof {
                assert(decreases_to!(*e1 => e1@));
                assert(decreases_to!(e1@ => e1@[i as int]));
                assert(decreases_to!(e1@[i as int] => e1@[i as int].1));
                assert(decreases_to!(*e1 => *val1));
                assert(ev1[0] == entries_view(e1@)[i as int]);
                assert(ev2[0] == entries_view(e2@)[j as int]);
            }
            let child = match diff_value(val1, val2) {
                Ok(v) => v,
                Err(e) => {
                    return Err(e);
                },
            };
            let rest = match diff_entries(e1, e2, i + 1, j + 1) {
                Ok(v) => v,
                Err(e) => {
                    proof {
                        assert(ev1.skip(1) =~= entries_view(e1@).skip(i + 1));
                        assert(ev2.skip(1) =~= entries_view(e2@).skip(j + 1));
                    }
                    return Err(e);
                },
            };
            let ghost child_spec = script_view(child@);
            let ghost rest_spec = script_view(rest@);
            let mut ops = prefix_all(child, &PathElem::Key(clone_string(key1)));
            let mut rest_mut = rest;
            ops.append(&mut rest_mut);
            proof {
                assert(ev1.skip(1) =~= entries_view(e1@).skip(i + 1));
                assert(ev2.skip(1) =~= entries_view(e2@).skip(j + 1));
                assert(script_view(ops@) =~= prefix_ops(
                    child_spec,
                    PathElemView::Key(e1@[i as int].0@),
                ) + rest_spec);
            }
            return Ok(ops);
        }
        c == -1
    } else {
        i < e1.len()
    };
    if old_first {
        // the key at e1[i] is absent from what is left of e2: remove it
        let rest = match diff_entries(e1, e2, i + 1, j) {
            Ok(v) => v,
            Err(e) => {
                proof {
                    assert(ev1.skip(1) =~= entries_view(e1@).skip(i + 1));
                }
                return Err(e);
            },
        };
        let ghost rest_spec = script_view(rest@);
        let mut ops: Vec<Op> = Vec::new();
        ops.push(Op::RemoveMapKey { path: Vec::new(), key: clone_string(&e1[i].0) });
        let mut rest_mut = rest;
        ops.append(&mut rest_mut);
        proof {
            assert(ev1[0] == entries_view(e1@)[i as int]);
            assert(ev1.skip(1) =~= entries_view(e1@).skip(i + 1));
            assert(crate::script::path_view(Seq::<PathElem>::empty())
                =~= Seq::<PathElemView>::empty());
            assert(script_view(ops@) =~= seq![
                OpView::RemoveMapKey { path: Seq::empty(), key: e1@[i as int].0@ },
            ] + rest_spec);
        }
        Ok(ops)
    } else {
        // the key at e2[j] is absent from what is left of e1: set it
        let rest = match diff_entries(e1, e2, i, j + 1) {
            Ok(v) => v,
            Err(e) => {
                proof {
                    assert(ev2.skip(1) =~= entries_view(e2@).skip(j + 1));
                }
                return Err(e);
            },
        };
        let ghost rest_spec = script_view(rest@);
        let mut ops: Vec<Op> = Vec::new();
        ops.push(
            Op::SetMapValue {
                path: Vec::new(),
                key: clone_string(&e2[j].0),
                value: clone_value(&e2[j].1),
            },
        );
        let mut rest_mut = rest;
        ops.append(&mut rest_mut);
        proof {
            assert(ev2[0] == entries_view(e2@)[j as int]);
            assert(ev2.skip(1) =~= entries_view(e2@).skip(j + 1));
            assert(crate::script::path_view(Seq::<PathElem>::empty())
                =~= Seq::<PathElemView>::empty());
            assert(script_view(ops@) =~= seq![
                OpView::SetMapValue {
                    path: Seq::empty(),
                    key: e2@[j as int].0@,
                    value: value_view(e2@[j as int].1),
                },
            ] + rest_spec);
        }
        Ok(ops)
    }
}

/// Index-aligned walk over two element lists from position `i` on.
fn diff_elems(s1: &Vec<Value>, s2: &Vec<Value>, i: usize) -> (r: Result<Vec<Op>, DiffError>)
    requires
        i <= s1@.len(),
        i <= s2@.len(),
    ensures
        diff_matches(
            spec_diff_elems(elems_view(s1@).skip(i as int), elems_view(s2@).skip(i as int), i as int),
            r,
        ),
    decreases *s1, s1@.len() + s2@.len() - i - i,
{
    proof {
        lemma_elems_view(s1@);
        lemma_elems_view(s2@);
    }
    let ghost sv1 = elems_view(s1@).skip(i as int);
    let ghost sv2 = elems_view(s2@).skip(i as int);
    if i == s1.len() && i == s2.len() {
        proof {
            assert(script_view(Seq::<Op>::empty()) =~= Seq::<OpView>::empty());
        }
        Ok(Vec::new())
    } else if i == s1.len() {
        let mut ops: Vec<Op> = Vec::new();
        let mut k: usize = i;
        while k < s2.len()
            invariant
                i <= k <= s2@.len(),
                ops@.len() == k - i,
                elems_view(s2@).len() == s2@.len(),
                forall|m: int|
                    0 <= m < s2@.len() ==> elems_view(s2@)[m] == value_view(s2@[m]),
                forall|m: int|
                    0 <= m < k - i ==> op_view(#[trigger] ops@[m]) == (OpView::InsertSequenceElement {
                        path: Seq::empty(),
                        index: i + m,
                        value: elems_view(s2@)[i + m],
                    }),
            decreases s2@.len() - k,
        {
            ops.push(
                Op::InsertSequenceElement { path: Vec::new(), index: k, value: clone_value(&s2[k]) },
            );
            proof {
                assert(crate::script::path_view(Seq::<PathElem>::empty())
                    =~= Seq::<PathElemView>::empty());
            }
            k += 1;
        }
        proof {
            lemma_insertion_ops(sv2, i as int);
            assert(script_view(ops@) =~= insertion_ops(sv2, i as int));
        }
        Ok(ops)
    } else if i == s2.len() {
        let mut ops: Vec<Op> = Vec::new();
        let mut k: usize = s1.len();
        while k > i
            invariant
                i <= k <= s1@.len(),
                ops@.len() == s1@.len() - k,
                forall|m: int|
                    0 <= m < s1@.len() - k ==> op_view(#[trigger] ops@[m])
                        == (OpView::RemoveSequenceElement {
                        path: Seq::empty(),
                        index: s1@.len() - 1 - m,
                    }),
            decreases k,
        {
            k -= 1;
            ops.push(Op::RemoveSequenceElement { path: Vec::new(), index: k });
            proof {
                assert(crate::script::path_view(Seq::<PathElem>::empty())
                    =~= Seq::<PathElemView>::empty());
            }
        }
        proof {
            lemma_removal_ops((s1@.len() - i) as nat, i as int);
            assert(script_view(ops@) =~= removal_ops((s1@.len() - i) as nat, i as int));
        }
        Ok(ops)
    } else {
        proof {
            assert(decreases_to!(*s1 => s1@));
            assert(decreases_to!(s1@ => s1@[i as int]));
            assert(sv1[0] == elems_view(s1@)[i as int]);
            assert(sv2[0] == elems_view(s2@)[i as int]);
        }
        let child = match diff_value(&s1[i], &s2[i]) {
            Ok(v) => v,
            Err(e) => {
                return Err(e);
            },
        };
        let rest = match diff_elems(s1, s2, i + 1) {
            Ok(v) => v,
            Err(e) => {
                proof {
                    assert(sv1.skip(1) =~= elems_view(s1@).skip(i + 1));
                    assert(sv2.skip(1) =~= elems_view(s2@).skip(i + 1));
                }
                return Err(e);
            },
        };
        let ghost child_spec = script_view(child@);
        let ghost rest_spec = script_view(rest@);
        let mut ops = prefix_all(child, &PathElem::Index(i));
        let mut rest_mut = rest;
        ops.append(&mut rest_mut);
        proof {
            assert(sv1.skip(1) =~= elems_view(s1@).skip(i + 1));
            assert(sv2.skip(1) =~= elems_view(s2@).skip(i + 1));
            assert(script_view(ops@) =~= prefix_ops(child_spec, PathElemView::Index(i as int))
                + rest_spec);
        }
        Ok(ops)
    }
}

/// Computes the edit script whose replay takes `old` to `new`: the public
/// entry point, which receives the desired (new) tree first.
pub fn diff_values(new: &Value, old: &Value) -> (r: Result<Vec<Op>, DiffError>)
    ensures
        diff_matches(spec_diff(old@, new@), r),
{
    diff_value(old, new)
}

} // verus!
