//! The guarantees the differ is held to, proved once and for all: an equal
//! pair diffs to the empty script, a kind change is a single whole-value
//! replacement, counters increment rather than overwrite, NaN floats are
//! never treated as equal, and replaying a successful diff against the old
//! tree reproduces the new tree.

use vstd::prelude::*;

use crate::diff::common_prefix_len;
use crate::diff::common_suffix_len;
use crate::diff::insertion_ops;
use crate::diff::lemma_common_prefix;
use crate::diff::lemma_common_suffix;
use crate::diff::removal_ops;
use crate::diff::set_root;
use crate::diff::spec_diff;
use crate::diff::spec_diff_elems;
use crate::diff::spec_diff_entries;
use crate::diff::spec_diff_text;
use crate::script::DiffError;
use crate::script::OpView;
use crate::script::PathElemView;
use crate::script::apply_at;
use crate::script::apply_here;
use crate::script::apply_op;
use crate::script::apply_ops;
use crate::script::counter_delta;
use crate::script::lemma_apply_ops_concat;
use crate::script::lemma_counter_round_trip;
use crate::script::lemma_index_of_unique;
use crate::script::lemma_with_prefix_path;
use crate::script::map_index_of;
use crate::script::map_remove;
use crate::script::map_set;
use crate::script::op_path;
use crate::script::prefix_ops;
use crate::script::splice_text;
use crate::script::with_prefix;
use crate::value::MapKind;
use crate::value::ScalarView;
use crate::value::ValueView;
use crate::value::eq_vv;
use crate::value::f32_is_nan;
use crate::value::f64_is_nan;
use crate::value::keys_sorted;
use crate::value::lemma_lex_asym;
use crate::value::lemma_lex_total;
use crate::value::lemma_lex_trans;
use crate::value::lex_lt;
use crate::value::sim_vv;
use crate::value::wf_view;

verus! {

/// Deep equality is a special case of similarity.
pub proof fn lemma_eq_implies_sim(a: ValueView, b: ValueView)
    requires
        eq_vv(a, b),
    ensures
        sim_vv(a, b),
    decreases a,
{
    match (a, b) {
        (ValueView::Mapping(e1, k1), ValueView::Mapping(e2, k2)) => {
            assert forall|i: int|
                0 <= i < e1.len() implies (#[trigger] e1[i]).0 == e2[i].0 && sim_vv(
                e1[i].1,
                e2[i].1,
            ) by {
                lemma_eq_implies_sim(e1[i].1, e2[i].1);
            }
        },
        (ValueView::Sequence(s1), ValueView::Sequence(s2)) => {
            assert forall|i: int| 0 <= i < s1.len() implies sim_vv(#[trigger] s1[i], s2[i]) by {
                lemma_eq_implies_sim(s1[i], s2[i]);
            }
        },
        _ => {},
    }
}

/// Removing key `k` that heads `tail` leaves a preceding block without `k`
/// untouched.
pub proof fn lemma_map_remove_concat(
    pre: Seq<(Seq<char>, ValueView)>,
    tail: Seq<(Seq<char>, ValueView)>,
    k: Seq<char>,
)
    requires
        tail.len() > 0,
        tail[0].0 == k,
        forall|m: int| 0 <= m < pre.len() ==> (#[trigger] pre[m]).0 != k,
    ensures
        map_remove(pre + tail, k) == pre + tail.skip(1),
    decreases pre.len(),
{
    let e = pre + tail;
    if pre.len() == 0 {
        assert(e[0] == tail[0]);
        assert(e.skip(1) =~= pre + tail.skip(1));
    } else {
        assert(e[0] == pre[0]);
        assert(e[0].0 != k);
        assert(e.skip(1) =~= pre.skip(1) + tail);
        assert forall|m: int|
            0 <= m < pre.skip(1).len() implies (#[trigger] pre.skip(1)[m]).0 != k by {
            assert(pre.skip(1)[m] == pre[m + 1]);
        }
        lemma_map_remove_concat(pre.skip(1), tail, k);
        assert(map_remove(e, k) == seq![e[0]] + map_remove(e.skip(1), k));
        assert(seq![pre[0]] + (pre.skip(1) + tail.skip(1)) =~= pre + tail.skip(1));
    }
}

/// Setting key `k` that stands above every key of `pre` and below every key
/// of `tail` inserts it exactly between the two.
pub proof fn lemma_map_set_concat(
    pre: Seq<(Seq<char>, ValueView)>,
    tail: Seq<(Seq<char>, ValueView)>,
    k: Seq<char>,
    v: ValueView,
)
    requires
        forall|m: int| 0 <= m < pre.len() ==> lex_lt((#[trigger] pre[m]).0, k),
        tail.len() > 0 ==> lex_lt(k, tail[0].0),
    ensures
        map_set(pre + tail, k, v) == pre + seq![(k, v)] + tail,
    decreases pre.len(),
{
    let e = pre + tail;
    if pre.len() == 0 {
        if tail.len() == 0 {
            assert(e.len() == 0);
            assert(map_set(e, k, v) =~= pre + seq![(k, v)] + tail);
        } else {
            assert(e[0] == tail[0]);
            assert(map_set(e, k, v) == seq![(k, v)] + e);
            assert(seq![(k, v)] + e =~= pre + seq![(k, v)] + tail);
        }
    } else {
        assert(e.len() > 0);
        assert(e[0] == pre[0]);
        lemma_lex_asym(pre[0].0, k);
        assert(!lex_lt(k, e[0].0));
        assert(e[0].0 != k);
        assert(e.skip(1) =~= pre.skip(1) + tail);
        assert forall|m: int|
            0 <= m < pre.skip(1).len() implies lex_lt((#[trigger] pre.skip(1)[m]).0, k) by {
            assert(pre.skip(1)[m] == pre[m + 1]);
        }
        lemma_map_set_concat(pre.skip(1), tail, k, v);
        assert(map_set(e, k, v) == seq![e[0]] + map_set(e.skip(1), k, v));
        assert(seq![pre[0]] + (pre.skip(1) + seq![(k, v)] + tail) =~= pre + seq![(k, v)] + tail);
    }
}

/// The fields an operation acts with do not change when its path is
/// extended, so applying it along a given path ignores the prefixing.
pub proof fn lemma_apply_at_prefixed(
    v: ValueView,
    path: Seq<PathElemView>,
    op: OpView,
    el: PathElemView,
)
    ensures
        apply_at(v, path, with_prefix(op, el)) == apply_at(v, path, op),
    decreases path.len(),
{
    if path.len() == 0 {
        assert(apply_here(v, with_prefix(op, el)) == apply_here(v, op));
    } else {
        match path[0] {
            PathElemView::Key(k) => {
                match v {
                    ValueView::Mapping(e, kind) => {
                        let idx = map_index_of(e, k);
                        if idx >= 0 {
                            lemma_apply_at_prefixed(e[idx].1, path.skip(1), op, el);
                        }
                    },
                    _ => {},
                }
            },
            PathElemView::Index(i) => {
                match v {
                    ValueView::Sequence(s) => {
                        if 0 <= i < s.len() {
                            lemma_apply_at_prefixed(s[i], path.skip(1), op, el);
                        }
                    },
                    _ => {},
                }
            },
        }
    }
}

/// Replaying a script against one map entry, lifted to the whole map: each
/// operation descends through the entry's key and leaves every other entry
/// alone.
pub proof fn lemma_lift_key(
    e: Seq<(Seq<char>, ValueView)>,
    kind: MapKind,
    k: Seq<char>,
    idx: int,
    ops: Seq<OpView>,
    res: ValueView,
)
    requires
        0 <= idx < e.len(),
        e[idx].0 == k,
        forall|m: int| 0 <= m < idx ==> (#[trigger] e[m]).0 != k,
        apply_ops(e[idx].1, ops) == Some(res),
    ensures
        apply_ops(ValueView::Mapping(e, kind), prefix_ops(ops, PathElemView::Key(k))) == Some(
            ValueView::Mapping(e.update(idx, (k, res)), kind),
        ),
    decreases ops.len(),
{
    let pops = prefix_ops(ops, PathElemView::Key(k));
    if ops.len() == 0 {
        assert(pops.len() == 0);
        assert(res == e[idx].1);
        assert(e.update(idx, (k, res)) =~= e);
    } else {
        let op0 = ops[0];
        let wop0 = with_prefix(op0, PathElemView::Key(k));
        assert(pops[0] == wop0);
        lemma_with_prefix_path(op0, PathElemView::Key(k));
        lemma_index_of_unique(e, k, idx);
        lemma_apply_at_prefixed(e[idx].1, op_path(op0), op0, PathElemView::Key(k));
        let c1 = apply_op(e[idx].1, op0);
        assert(c1 is Some);
        let c1v = c1->0;
        assert(apply_op(ValueView::Mapping(e, kind), wop0) == Some(
            ValueView::Mapping(e.update(idx, (k, c1v)), kind),
        ));
        let e2 = e.update(idx, (k, c1v));
        assert forall|m: int| 0 <= m < idx implies (#[trigger] e2[m]).0 != k by {
            assert(e2[m] == e[m]);
        }
        lemma_lift_key(e2, kind, k, idx, ops.skip(1), res);
        assert(pops.skip(1) =~= prefix_ops(ops.skip(1), PathElemView::Key(k)));
        assert(e2.update(idx, (k, res)) =~= e.update(idx, (k, res)));
    }
}

/// Replaying a script against one sequence element, lifted to the whole
/// sequence.
pub proof fn lemma_lift_index(
    s: Seq<ValueView>,
    i: int,
    ops: Seq<OpView>,
    res: ValueView,
)
    requires
        0 <= i < s.len(),
        apply_ops(s[i], ops) == Some(res),
    ensures
        apply_ops(ValueView::Sequence(s), prefix_ops(ops, PathElemView::Index(i))) == Some(
            ValueView::Sequence(s.update(i, res)),
        ),
    decreases ops.len(),
{
    let pops = prefix_ops(ops, PathElemView::Index(i));
    if ops.len() == 0 {
        assert(pops.len() == 0);
        assert(res == s[i]);
        assert(s.update(i, res) =~= s);
    } else {
        let op0 = ops[0];
        let wop0 = with_prefix(op0, PathElemView::Index(i));
        assert(pops[0] == wop0);
        lemma_with_prefix_path(op0, PathElemView::Index(i));
        lemma_apply_at_prefixed(s[i], op_path(op0), op0, PathElemView::Index(i));
        let c1 = apply_op(s[i], op0);
        assert(c1 is Some);
        let c1v = c1->0;
        assert(apply_op(ValueView::Sequence(s), wop0) == Some(
            ValueView::Sequence(s.update(i, c1v)),
        ));
        let s2 = s.update(i, c1v);
        lemma_lift_index(s2, i, ops.skip(1), res);
        assert(pops.skip(1) =~= prefix_ops(ops.skip(1), PathElemView::Index(i)));
        assert(s2.update(i, res) =~= s.update(i, res));
    }
}

/// Removing a tail, highest index first, leaves exactly the prefix.
pub proof fn lemma_removals_replay(pre: Seq<ValueView>, tail: Seq<ValueView>)
    ensures
        apply_ops(ValueView::Sequence(pre + tail), removal_ops(tail.len(), pre.len() as int))
            == Some(ValueView::Sequence(pre)),
    decreases tail.len(),
{
    let ops = removal_ops(tail.len(), pre.len() as int);
    if tail.len() == 0 {
        assert(ops.len() == 0);
        assert(pre + tail =~= pre);
    } else {
        let s = pre + tail;
        let last = s.len() - 1;
        assert(ops[0] == (OpView::RemoveSequenceElement {
            path: Seq::empty(),
            index: pre.len() + tail.len() - 1,
        }));
        assert(op_path(ops[0]) == Seq::<PathElemView>::empty());
        assert(apply_op(ValueView::Sequence(s), ops[0]) == Some(
            ValueView::Sequence(s.remove(last)),
        ));
        assert(s.remove(last) =~= pre + tail.drop_last());
        lemma_removals_replay(pre, tail.drop_last());
        assert(ops.skip(1) =~= removal_ops(tail.drop_last().len(), pre.len() as int));
    }
}

/// Inserting a tail, lowest index first, appends exactly that tail.
pub proof fn lemma_insertions_replay(pre: Seq<ValueView>, vs: Seq<ValueView>)
    ensures
        apply_ops(ValueView::Sequence(pre), insertion_ops(vs, pre.len() as int)) == Some(
            ValueView::Sequence(pre + vs),
        ),
    decreases vs.len(),
{
    let ops = insertion_ops(vs, pre.len() as int);
    if vs.len() == 0 {
        assert(ops.len() == 0);
        assert(pre + vs =~= pre);
    } else {
        assert(ops[0] == (OpView::InsertSequenceElement {
            path: Seq::empty(),
            index: pre.len() as int,
            value: vs[0],
        }));
        assert(op_path(ops[0]) == Seq::<PathElemView>::empty());
        assert(apply_op(ValueView::Sequence(pre), ops[0]) == Some(
            ValueView::Sequence(pre.insert(pre.len() as int, vs[0])),
        ));
        let pre2 = pre.insert(pre.len() as int, vs[0]);
        assert(pre2 =~= pre + seq![vs[0]]);
        lemma_insertions_replay(pre2, vs.skip(1));
        assert(ops.skip(1) =~= insertion_ops(vs.skip(1), pre2.len() as int));
        assert(pre2 + vs.skip(1) =~= pre + vs);
    }
}

/// Replaying the text diff turns the old grapheme list into the new one.
pub proof fn lemma_text_replay(t1: Seq<Seq<char>>, t2: Seq<Seq<char>>)
    requires
        t1 != t2,
    ensures
        apply_ops(ValueView::Text(t1), spec_diff_text(t1, t2)) == Some(ValueView::Text(t2)),
{
    let p = common_prefix_len(t1, t2);
    lemma_common_prefix(t1, t2);
    let r1 = t1.skip(p);
    let r2 = t2.skip(p);
    let s = common_suffix_len(r1, r2);
    lemma_common_suffix(r1, r2);
    let ops = spec_diff_text(t1, t2);
    let op = ops[0];
    assert(op_path(op) == Seq::<PathElemView>::empty());
    assert(0 <= p <= t1.len() - s <= t1.len());
    let spliced = splice_text(t1, p, t1.len() - s, t2.subrange(p, t2.len() - s));
    assert(apply_op(ValueView::Text(t1), op) == Some(ValueView::Text(spliced)));
    assert forall|i: int| 0 <= i < s implies #[trigger] t1[t1.len() - 1 - i] == t2[t2.len() - 1
        - i] by {
        assert(r1[r1.len() - 1 - i] == t1[t1.len() - 1 - i]);
        assert(r2[r2.len() - 1 - i] == t2[t2.len() - 1 - i]);
    }
    assert(spliced =~= t2) by {
        assert(spliced.len() == p + (t2.len() - s - p) + s);
        assert forall|m: int| 0 <= m < t2.len() implies spliced[m] == t2[m] by {
            if m < p {
                assert(spliced[m] == t1.subrange(0, p)[m]);
                assert(t1[m] == t2[m]);
            } else if m < t2.len() - s {
                assert(spliced[m] == t2.subrange(p, t2.len() - s)[m - p]);
            } else {
                let j = t2.len() - 1 - m;
                assert(spliced[m] == t1.subrange(t1.len() - s, t1.len() as int)[m - (t2.len()
                    - s)]);
                assert(t1.subrange(t1.len() - s, t1.len() as int)[m - (t2.len() - s)] == t1[t1.len()
                    - 1 - j]);
                assert(t1[t1.len() - 1 - j] == t2[t2.len() - 1 - j]);
            }
        }
    }
    assert(ops.skip(1).len() == 0);
    assert(apply_ops(ValueView::Text(t1), ops) == apply_ops(
        ValueView::Text(spliced),
        ops.skip(1),
    ));
    assert(apply_ops(ValueView::Text(spliced), ops.skip(1)) == Some(ValueView::Text(spliced)));
    assert(ValueView::Text(spliced) == ValueView::Text(t2));
}


/// Replaying a one-operation script is applying that operation.
pub proof fn lemma_apply_single(v: ValueView, op: OpView)
    ensures
        apply_ops(v, seq![op]) == apply_op(v, op),
{
    assert(seq![op][0] == op);
    assert(seq![op].skip(1).len() == 0);
    match apply_op(v, op) {
        Some(v2) => {
            assert(apply_ops(v2, seq![op].skip(1)) == Some(v2));
        },
        None => {},
    }
}

/// Strict key order carries over to a list with the same keys, position by
/// position.
pub proof fn lemma_sorted_same_keys(
    a: Seq<(Seq<char>, ValueView)>,
    b: Seq<(Seq<char>, ValueView)>,
)
    requires
        keys_sorted(a),
        a.len() == b.len(),
        forall|m: int| 0 <= m < a.len() ==> (#[trigger] a[m]).0 == (#[trigger] b[m]).0,
    ensures
        keys_sorted(b),
{
    assert forall|i: int, j: int|
        0 <= i < j < b.len() implies lex_lt((#[trigger] b[i]).0, (#[trigger] b[j]).0) by {
        assert(a[i].0 == b[i].0);
        assert(a[j].0 == b[j].0);
    }
}

/// Splitting a strictly ordered list gives two ordered halves with every
/// left key below every right key.
pub proof fn lemma_sorted_parts(
    pre: Seq<(Seq<char>, ValueView)>,
    tail: Seq<(Seq<char>, ValueView)>,
)
    requires
        keys_sorted(pre + tail),
    ensures
        keys_sorted(pre),
        keys_sorted(tail),
        forall|m: int, n: int|
            0 <= m < pre.len() && 0 <= n < tail.len() ==> lex_lt(
                (#[trigger] pre[m]).0,
                (#[trigger] tail[n]).0,
            ),
{
    let e = pre + tail;
    assert forall|i: int, j: int|
        0 <= i < j < pre.len() implies lex_lt((#[trigger] pre[i]).0, (#[trigger] pre[j]).0) by {
        assert(e[i] == pre[i]);
        assert(e[j] == pre[j]);
    }
    assert forall|i: int, j: int|
        0 <= i < j < tail.len() implies lex_lt((#[trigger] tail[i]).0, (#[trigger] tail[j]).0) by {
        assert(e[pre.len() + i] == tail[i]);
        assert(e[pre.len() + j] == tail[j]);
    }
    assert forall|m: int, n: int|
        0 <= m < pre.len() && 0 <= n < tail.len() implies lex_lt(
        (#[trigger] pre[m]).0,
        (#[trigger] tail[n]).0,
    ) by {
        assert(e[m] == pre[m]);
        assert(e[pre.len() + n] == tail[n]);
    }
}

/// The converse: two ordered halves, left keys below right keys, make one
/// ordered list.
pub proof fn lemma_sorted_concat(
    pre: Seq<(Seq<char>, ValueView)>,
    tail: Seq<(Seq<char>, ValueView)>,
)
    requires
        keys_sorted(pre),
        keys_sorted(tail),
        forall|m: int, n: int|
            0 <= m < pre.len() && 0 <= n < tail.len() ==> lex_lt(
                (#[trigger] pre[m]).0,
                (#[trigger] tail[n]).0,
            ),
    ensures
        keys_sorted(pre + tail),
{
    let e = pre + tail;
    assert forall|i: int, j: int|
        0 <= i < j < e.len() implies lex_lt((#[trigger] e[i]).0, (#[trigger] e[j]).0) by {
        if j < pre.len() {
            assert(e[i] == pre[i]);
            assert(e[j] == pre[j]);
        } else if i >= pre.len() {
            assert(e[i] == tail[i - pre.len()]);
            assert(e[j] == tail[j - pre.len()]);
        } else {
            assert(e[i] == pre[i]);
            assert(e[j] == tail[j - pre.len()]);
        }
    }
}

/// Replay correctness over entry lists: replaying the merge-walk script
/// against a map holding `pre` then `e1` keeps `pre` and turns the rest
/// into entries keyed exactly as `e2`, each value similar to its
/// counterpart.
pub proof fn lemma_replay_entries(
    e1: Seq<(Seq<char>, ValueView)>,
    e2: Seq<(Seq<char>, ValueView)>,
    pre: Seq<(Seq<char>, ValueView)>,
    kind: MapKind,
)
    requires
        keys_sorted(pre + e1),
        keys_sorted(pre + e2),
        forall|m: int| 0 <= m < e1.len() ==> wf_view((#[trigger] e1[m]).1),
        forall|m: int| 0 <= m < e2.len() ==> wf_view((#[trigger] e2[m]).1),
        spec_diff_entries(e1, e2) is Ok,
    ensures
        ({
            let r = apply_ops(
                ValueView::Mapping(pre + e1, kind),
                spec_diff_entries(e1, e2)->Ok_0,
            );
            &&& r is Some
            &&& r->0 matches ValueView::Mapping(re, k2) && k2 == kind && re.len() == pre.len()
                + e2.len() && re.subrange(0, pre.len() as int) == pre && (forall|m: int|
                0 <= m < e2.len() ==> (#[trigger] re[pre.len() + m]).0 == e2[m].0 && sim_vv(
                    re[pre.len() + m].1,
                    e2[m].1,
                ))
        }),
    decreases e1, e2, 0int,
{
    let ops = spec_diff_entries(e1, e2)->Ok_0;
    let v0 = ValueView::Mapping(pre + e1, kind);
    lemma_sorted_parts(pre, e1);
    lemma_sorted_parts(pre, e2);
    if e1.len() == 0 && e2.len() == 0 {
        assert(ops.len() == 0);
        assert(pre + e1 =~= pre);
        assert((pre + e1).subrange(0, pre.len() as int) =~= pre);
    } else if e1.len() > 0 && (e2.len() == 0 || lex_lt(e1[0].0, e2[0].0)) {
        // remove the head key of e1
        let k = e1[0].0;
        let rest = spec_diff_entries(e1.skip(1), e2)->Ok_0;
        let rm = OpView::RemoveMapKey { path: Seq::empty(), key: k };
        assert(ops == seq![rm] + rest);
        assert(op_path(rm) == Seq::<PathElemView>::empty());
        assert forall|m: int| 0 <= m < pre.len() implies (#[trigger] pre[m]).0 != k by {
            lemma_lex_asym(pre[m].0, k);
        }
        lemma_map_remove_concat(pre, e1, k);
        assert(map_index_of(pre + e1, k) >= 0) by {
            lemma_index_of_unique(pre + e1, k, pre.len() as int);
        }
        assert(apply_op(v0, rm) == Some(ValueView::Mapping(pre + e1.skip(1), kind)));
        lemma_apply_ops_concat(v0, seq![rm], rest);
        lemma_apply_single(v0, rm);
        assert(apply_ops(v0, seq![rm]) == Some(ValueView::Mapping(pre + e1.skip(1), kind)));
        assert forall|m: int, n: int|
            0 <= m < pre.len() && 0 <= n < e1.skip(1).len() implies lex_lt(
            (#[trigger] pre[m]).0,
            (#[trigger] e1.skip(1)[n]).0,
        ) by {
            assert(e1.skip(1)[n] == e1[n + 1]);
        }
        assert(keys_sorted(e1.skip(1))) by {
            assert forall|i: int, j: int|
                0 <= i < j < e1.skip(1).len() implies lex_lt(
                (#[trigger] e1.skip(1)[i]).0,
                (#[trigger] e1.skip(1)[j]).0,
            ) by {
                assert(e1.skip(1)[i] == e1[i + 1]);
                assert(e1.skip(1)[j] == e1[j + 1]);
            }
        }
        lemma_sorted_concat(pre, e1.skip(1));
        assert forall|m: int| 0 <= m < e1.skip(1).len() implies wf_view(
            (#[trigger] e1.skip(1)[m]).1,
        ) by {
            assert(e1.skip(1)[m] == e1[m + 1]);
        }
        lemma_replay_entries(e1.skip(1), e2, pre, kind);
    } else if e1.len() > 0 && e2.len() > 0 && e1[0].0 == e2[0].0 {
        // matched key: replay the child script under it
        let k = e1[0].0;
        let child = spec_diff(e1[0].1, e2[0].1)->Ok_0;
        let rest = spec_diff_entries(e1.skip(1), e2.skip(1))->Ok_0;
        assert(ops == prefix_ops(child, PathElemView::Key(k)) + rest);
        lemma_replay(e1[0].1, e2[0].1);
        let c1 = apply_ops(e1[0].1, child)->0;
        assert((pre + e1)[pre.len() as int].0 == k);
        assert forall|m: int| 0 <= m < pre.len() implies (#[trigger] (pre + e1)[m]).0 != k by {
            assert((pre + e1)[m] == pre[m]);
            lemma_lex_asym(pre[m].0, k);
        }
        lemma_lift_key(pre + e1, kind, k, pre.len() as int, child, c1);
        let pre2 = pre + seq![(k, c1)];
        assert((pre + e1).update(pre.len() as int, (k, c1)) =~= pre2 + e1.skip(1));
        lemma_apply_ops_concat(v0, prefix_ops(child, PathElemView::Key(k)), rest);
        assert(keys_sorted(pre2 + e1.skip(1))) by {
            lemma_sorted_same_keys(pre + e1, pre2 + e1.skip(1));
        }
        assert(keys_sorted(pre2 + e2.skip(1))) by {
            lemma_sorted_same_keys(pre + e2, pre2 + e2.skip(1));
        }
        assert forall|m: int| 0 <= m < e1.skip(1).len() implies wf_view(
            (#[trigger] e1.skip(1)[m]).1,
        ) by {
            assert(e1.skip(1)[m] == e1[m + 1]);
        }
        assert forall|m: int| 0 <= m < e2.skip(1).len() implies wf_view(
            (#[trigger] e2.skip(1)[m]).1,
        ) by {
            assert(e2.skip(1)[m] == e2[m + 1]);
        }
        lemma_replay_entries(e1.skip(1), e2.skip(1), pre2, kind);
        let r = apply_ops(v0, ops);
        let re = r->0->Mapping_0;
        assert(re.subrange(0, pre.len() as int) =~= pre) by {
            assert(re.subrange(0, pre2.len() as int) == pre2);
            assert forall|m: int| 0 <= m < pre.len() implies re[m] == pre[m] by {
                assert(re.subrange(0, pre2.len() as int)[m] == re[m]);
                assert(pre2[m] == pre[m]);
            }
        }
        assert forall|m: int| 0 <= m < e2.len() implies (#[trigger] re[pre.len() + m]).0
            == e2[m].0 && sim_vv(re[pre.len() + m].1, e2[m].1) by {
            if m == 0 {
                assert(re.subrange(0, pre2.len() as int)[pre.len() as int] == re[pre.len()
                    as int]);
                assert(re[pre.len() as int] == (k, c1));
            } else {
                assert(re[pre2.len() + (m - 1)].0 == e2.skip(1)[m - 1].0 && sim_vv(
                    re[pre2.len() + (m - 1)].1,
                    e2.skip(1)[m - 1].1,
                ));
                assert(e2.skip(1)[m - 1] == e2[m]);
            }
        }
    } else {
        // the head key of e2 is new: set it
        let k = e2[0].0;
        let v2 = e2[0].1;
        let rest = spec_diff_entries(e1, e2.skip(1))->Ok_0;
        let setop = OpView::SetMapValue { path: Seq::empty(), key: k, value: v2 };
        assert(ops == seq![setop] + rest);
        assert(op_path(setop) == Seq::<PathElemView>::empty());
        assert(e2.len() > 0);
        if e1.len() > 0 {
            lemma_lex_total(e1[0].0, k);
        }
        assert(e1.len() > 0 ==> lex_lt(k, e1[0].0));
        lemma_map_set_concat(pre, e1, k, v2);
        assert(apply_op(v0, setop) == Some(
            ValueView::Mapping(pre + seq![(k, v2)] + e1, kind),
        ));
        lemma_apply_ops_concat(v0, seq![setop], rest);
        lemma_apply_single(v0, setop);
        let pre2 = pre + seq![(k, v2)];
        assert(pre + seq![(k, v2)] + e1 =~= pre2 + e1);
        assert(keys_sorted(pre2 + e2.skip(1))) by {
            lemma_sorted_same_keys(pre + e2, pre2 + e2.skip(1));
        }
        assert(keys_sorted(pre2 + e1)) by {
            assert(keys_sorted(pre2)) by {
                lemma_sorted_same_keys(
                    (pre + e2).subrange(0, pre.len() as int + 1),
                    pre2,
                );
                assert forall|m: int| 0 <= m < pre2.len() implies ((pre + e2).subrange(
                    0,
                    pre.len() as int + 1,
                )[m]).0 == (#[trigger] pre2[m]).0 by {
                    assert((pre + e2).subrange(0, pre.len() as int + 1)[m] == (pre + e2)[m]);
                }
                assert(keys_sorted((pre + e2).subrange(0, pre.len() as int + 1))) by {
                    assert forall|i: int, j: int|
                        0 <= i < j < pre.len() as int + 1 implies lex_lt(
                        ((#[trigger] (pre + e2).subrange(0, pre.len() as int + 1)[i])).0,
                        ((#[trigger] (pre + e2).subrange(0, pre.len() as int + 1)[j])).0,
                    ) by {
                        assert((pre + e2).subrange(0, pre.len() as int + 1)[i] == (pre + e2)[i]);
                        assert((pre + e2).subrange(0, pre.len() as int + 1)[j] == (pre + e2)[j]);
                    }
                }
            }
            assert forall|m: int, n: int|
                0 <= m < pre2.len() && 0 <= n < e1.len() implies lex_lt(
                (#[trigger] pre2[m]).0,
                (#[trigger] e1[n]).0,
            ) by {
                if m < pre.len() {
                    assert(pre2[m] == pre[m]);
                } else {
                    assert(pre2[m] == (k, v2));
                    if n > 0 {
                        lemma_lex_trans(k, e1[0].0, e1[n].0);
                    }
                }
            }
            lemma_sorted_concat(pre2, e1);
        }
        assert forall|m: int| 0 <= m < e2.skip(1).len() implies wf_view(
            (#[trigger] e2.skip(1)[m]).1,
        ) by {
            assert(e2.skip(1)[m] == e2[m + 1]);
        }
        lemma_replay_entries(e1, e2.skip(1), pre2, kind);
        let r = apply_ops(v0, ops);
        let re = r->0->Mapping_0;
        assert(re.subrange(0, pre.len() as int) =~= pre) by {
            assert(re.subrange(0, pre2.len() as int) == pre2);
            assert forall|m: int| 0 <= m < pre.len() implies re[m] == pre[m] by {
                assert(re.subrange(0, pre2.len() as int)[m] == re[m]);
                assert(pre2[m] == pre[m]);
            }
        }
        assert forall|m: int| 0 <= m < e2.len() implies (#[trigger] re[pre.len() + m]).0
            == e2[m].0 && sim_vv(re[pre.len() + m].1, e2[m].1) by {
            if m == 0 {
                assert(re.subrange(0, pre2.len() as int)[pre.len() as int] == re[pre.len()
                    as int]);
                assert(re[pre.len() as int] == (k, v2));
                assert(sim_vv(v2, v2));
            } else {
                assert(re[pre2.len() + (m - 1)].0 == e2.skip(1)[m - 1].0 && sim_vv(
                    re[pre2.len() + (m - 1)].1,
                    e2.skip(1)[m - 1].1,
                ));
                assert(e2.skip(1)[m - 1] == e2[m]);
            }
        }
    }
}

/// Replay correctness over element lists.
pub proof fn lemma_replay_elems(
    s1: Seq<ValueView>,
    s2: Seq<ValueView>,
    pre: Seq<ValueView>,
)
    requires
        forall|m: int| 0 <= m < s1.len() ==> wf_view(#[trigger] s1[m]),
        forall|m: int| 0 <= m < s2.len() ==> wf_view(#[trigger] s2[m]),
        spec_diff_elems(s1, s2, pre.len() as int) is Ok,
    ensures
        ({
            let r = apply_ops(
                ValueView::Sequence(pre + s1),
                spec_diff_elems(s1, s2, pre.len() as int)->Ok_0,
            );
            &&& r is Some
            &&& r->0 matches ValueView::Sequence(rs) && rs.len() == pre.len() + s2.len()
                && rs.subrange(0, pre.len() as int) == pre && (forall|m: int|
                0 <= m < s2.len() ==> sim_vv(#[trigger] rs[pre.len() + m], s2[m]))
        }),
    decreases s1, s2, 0int,
{
    let ops = spec_diff_elems(s1, s2, pre.len() as int)->Ok_0;
    let v0 = ValueView::Sequence(pre + s1);
    if s1.len() == 0 {
        assert(pre + s1 =~= pre);
        lemma_insertions_replay(pre, s2);
        let rs = pre + s2;
        assert(rs.subrange(0, pre.len() as int) =~= pre);
        assert forall|m: int| 0 <= m < s2.len() implies sim_vv(
            #[trigger] rs[pre.len() + m],
            s2[m],
        ) by {
            assert(rs[pre.len() + m] == s2[m]);
            assert(sim_vv(s2[m], s2[m]));
        }
    } else if s2.len() == 0 {
        lemma_removals_replay(pre, s1);
        assert(pre.subrange(0, pre.len() as int) =~= pre);
    } else {
        let child = spec_diff(s1[0], s2[0])->Ok_0;
        let rest = spec_diff_elems(s1.skip(1), s2.skip(1), pre.len() as int + 1)->Ok_0;
        assert(ops == prefix_ops(child, PathElemView::Index(pre.len() as int)) + rest);
        lemma_replay(s1[0], s2[0]);
        let c1 = apply_ops(s1[0], child)->0;
        assert((pre + s1)[pre.len() as int] == s1[0]);
        lemma_lift_index(pre + s1, pre.len() as int, child, c1);
        let pre2 = pre + seq![c1];
        assert((pre + s1).update(pre.len() as int, c1) =~= pre2 + s1.skip(1));
        lemma_apply_ops_concat(v0, prefix_ops(child, PathElemView::Index(pre.len() as int)), rest);
        assert forall|m: int| 0 <= m < s1.skip(1).len() implies wf_view(
            #[trigger] s1.skip(1)[m],
        ) by {
            assert(s1.skip(1)[m] == s1[m + 1]);
        }
        assert forall|m: int| 0 <= m < s2.skip(1).len() implies wf_view(
            #[trigger] s2.skip(1)[m],
        ) by {
            assert(s2.skip(1)[m] == s2[m + 1]);
        }
        lemma_replay_elems(s1.skip(1), s2.skip(1), pre2);
        let r = apply_ops(v0, ops);
        let rs = r->0->Sequence_0;
        assert(rs.subrange(0, pre.len() as int) =~= pre) by {
            assert(rs.subrange(0, pre2.len() as int) == pre2);
            assert forall|m: int| 0 <= m < pre.len() implies rs[m] == pre[m] by {
                assert(rs.subrange(0, pre2.len() as int)[m] == rs[m]);
                assert(pre2[m] == pre[m]);
            }
        }
        assert forall|m: int| 0 <= m < s2.len() implies sim_vv(
            #[trigger] rs[pre.len() + m],
            s2[m],
        ) by {
            if m == 0 {
                assert(rs.subrange(0, pre2.len() as int)[pre.len() as int] == rs[pre.len()
                    as int]);
                assert(rs[pre.len() as int] == c1);
            } else {
                assert(sim_vv(rs[pre2.len() + (m - 1)], s2.skip(1)[m - 1]));
                assert(s2.skip(1)[m - 1] == s2[m]);
            }
        }
    }
}

/// Replay correctness: when the diff of two well-formed trees succeeds,
/// replaying its script against the old tree is defined and produces a tree
/// similar to the new one -- equal to it but for float leaves that were
/// already IEEE-equal (and so were left alone).
pub proof fn lemma_replay(old: ValueView, new: ValueView)
    requires
        wf_view(old),
        wf_view(new),
        spec_diff(old, new) is Ok,
    ensures
        ({
            let r = apply_ops(old, spec_diff(old, new)->Ok_0);
            r is Some && sim_vv(r->0, new)
        }),
    decreases old, new, 1int,
{
    let ops = spec_diff(old, new)->Ok_0;
    if eq_vv(old, new) {
        assert(ops.len() == 0);
        lemma_eq_implies_sim(old, new);
    } else {
        match (old, new) {
            (ValueView::Mapping(e1, k1), ValueView::Mapping(e2, k2)) => {
                if k1 == k2 {
                    assert(Seq::<(Seq<char>, ValueView)>::empty() + e1 =~= e1);
                    assert(Seq::<(Seq<char>, ValueView)>::empty() + e2 =~= e2);
                    lemma_replay_entries(e1, e2, Seq::empty(), k1);
                    let r = apply_ops(old, ops);
                    let re = r->0->Mapping_0;
                    assert forall|m: int|
                        0 <= m < e2.len() implies (#[trigger] re[m]).0 == e2[m].0 && sim_vv(
                        re[m].1,
                        e2[m].1,
                    ) by {
                        assert(re[0 + m].0 == e2[m].0 && sim_vv(re[0 + m].1, e2[m].1));
                    }
                    assert(sim_vv(r->0, new));
                } else {
                    lemma_set_root_replay(old, new);
                }
            },
            (ValueView::Sequence(s1), ValueView::Sequence(s2)) => {
                assert(Seq::<ValueView>::empty() + s1 =~= s1);
                lemma_replay_elems(s1, s2, Seq::empty());
                let r = apply_ops(old, ops);
                let rs = r->0->Sequence_0;
                assert forall|m: int| 0 <= m < s2.len() implies sim_vv(
                    #[trigger] rs[m],
                    s2[m],
                ) by {
                    assert(sim_vv(rs[0 + m], s2[m]));
                }
                assert(sim_vv(r->0, new));
            },
            (ValueView::Text(t1), ValueView::Text(t2)) => {
                lemma_text_replay(t1, t2);
                assert(sim_vv(new, new));
            },
            (ValueView::Scalar(a), ValueView::Scalar(b)) => {
                match (a, b) {
                    (ScalarView::Counter(x), ScalarView::Counter(y)) => {
                        let inc = OpView::IncrementCounter {
                            path: Seq::empty(),
                            delta: counter_delta(y, x),
                        };
                        assert(ops == seq![inc]);
                        assert(op_path(inc) == Seq::<PathElemView>::empty());
                        lemma_counter_round_trip(x, y);
                        assert(apply_op(old, inc) == Some(
                            ValueView::Scalar(ScalarView::Counter(y)),
                        ));
                        lemma_apply_single(old, inc);
                        assert(sim_vv(new, new));
                    },
                    (ScalarView::Cursor(_x), ScalarView::Cursor(_y)) => {
                        assert(false);
                    },
                    _ => {
                        lemma_set_root_replay(old, new);
                    },
                }
            },
            _ => {
                lemma_set_root_replay(old, new);
            },
        }
    }
}

/// Replaying a single whole-value replacement yields the new tree exactly.
pub proof fn lemma_set_root_replay(old: ValueView, new: ValueView)
    ensures
        apply_ops(old, seq![set_root(new)]) == Some(new),
        sim_vv(new, new),
{
    let op = set_root(new);
    assert(op_path(op) == Seq::<PathElemView>::empty());
    assert(apply_op(old, op) == Some(new));
    lemma_apply_single(old, op);
    assert(sim_vv(new, new));
}


/// Whether some float leaf of the tree is a NaN.
pub open spec fn contains_nan(v: ValueView) -> bool
    decreases v,
{
    match v {
        ValueView::Mapping(e, _) => exists|i: int|
            0 <= i < e.len() && contains_nan((#[trigger] e[i]).1),
        ValueView::Sequence(s) => exists|i: int| 0 <= i < s.len() && contains_nan(#[trigger] s[i]),
        ValueView::Text(_) => false,
        ValueView::Scalar(sv) => match sv {
            ScalarView::F64(b) => f64_is_nan(b),
            ScalarView::F32(b) => f32_is_nan(b),
            _ => false,
        },
    }
}

/// Whether some leaf of the tree is an opaque cursor reference.
pub open spec fn contains_cursor(v: ValueView) -> bool
    decreases v,
{
    match v {
        ValueView::Mapping(e, _) => exists|i: int|
            0 <= i < e.len() && contains_cursor((#[trigger] e[i]).1),
        ValueView::Sequence(s) => exists|i: int|
            0 <= i < s.len() && contains_cursor(#[trigger] s[i]),
        ValueView::Text(_) => false,
        ValueView::Scalar(sv) => sv is Cursor,
    }
}

/// Deep equality is reflexive on every tree free of NaN leaves.
pub proof fn lemma_eq_refl(v: ValueView)
    requires
        !contains_nan(v),
    ensures
        eq_vv(v, v),
    decreases v,
{
    match v {
        ValueView::Mapping(e, _) => {
            assert forall|i: int|
                0 <= i < e.len() implies (#[trigger] e[i]).0 == e[i].0 && eq_vv(
                e[i].1,
                e[i].1,
            ) by {
                lemma_eq_refl(e[i].1);
            }
        },
        ValueView::Sequence(s) => {
            assert forall|i: int| 0 <= i < s.len() implies eq_vv(#[trigger] s[i], s[i]) by {
                lemma_eq_refl(s[i]);
            }
        },
        _ => {},
    }
}

/// The no-op law: a tree without NaN leaves diffed against itself yields
/// the empty edit script.  (A NaN leaf is the one exception: IEEE equality
/// makes such a tree unequal to itself, see [`lemma_nan_replaced`].)
pub proof fn lemma_diff_noop(v: ValueView)
    requires
        !contains_nan(v),
    ensures
        spec_diff(v, v) == Ok::<Seq<OpView>, DiffError>(Seq::empty()),
{
    lemma_eq_refl(v);
}

/// The NaN law: a NaN 64-bit float scalar diffed against itself is not a
/// no-op; it is replaced wholesale, because NaN is unequal to itself.
pub proof fn lemma_nan_replaced(bits: u64)
    requires
        f64_is_nan(bits),
    ensures
        ({
            let v = ValueView::Scalar(ScalarView::F64(bits));
            spec_diff(v, v) == Ok::<Seq<OpView>, DiffError>(seq![set_root(v)])
        }),
{
}

/// The counter law: two counters diff to exactly one increment carrying
/// their (wrapping) difference, never to a replacement; equal counters are
/// a no-op.
pub proof fn lemma_counter_increment(a: i64, b: i64)
    ensures
        a != b ==> spec_diff(
            ValueView::Scalar(ScalarView::Counter(a)),
            ValueView::Scalar(ScalarView::Counter(b)),
        ) == Ok::<Seq<OpView>, DiffError>(
            seq![OpView::IncrementCounter { path: Seq::empty(), delta: counter_delta(b, a) }],
        ),
        a == b ==> spec_diff(
            ValueView::Scalar(ScalarView::Counter(a)),
            ValueView::Scalar(ScalarView::Counter(b)),
        ) == Ok::<Seq<OpView>, DiffError>(Seq::empty()),
{
}

/// Whether two trees are of the same structural kind: the same variant,
/// and for maps also the same map flavour.
pub open spec fn same_kind(a: ValueView, b: ValueView) -> bool {
    match (a, b) {
        (ValueView::Mapping(_, k1), ValueView::Mapping(_, k2)) => k1 == k2,
        (ValueView::Sequence(_), ValueView::Sequence(_)) => true,
        (ValueView::Text(_), ValueView::Text(_)) => true,
        (ValueView::Scalar(_), ValueView::Scalar(_)) => true,
        _ => false,
    }
}

/// The type-transition law: trees of different kinds diff to exactly one
/// whole-value replacement at the root, with no partial operations.
pub proof fn lemma_type_transition(old: ValueView, new: ValueView)
    requires
        !same_kind(old, new),
    ensures
        spec_diff(old, new) == Ok::<Seq<OpView>, DiffError>(seq![set_root(new)]),
{
    assert(!eq_vv(old, new));
}

/// The differ fails only on cursors: when one of the two trees holds no
/// cursor leaf, every diff between them succeeds.
pub proof fn lemma_diff_total(old: ValueView, new: ValueView)
    requires
        !contains_cursor(old) || !contains_cursor(new),
    ensures
        spec_diff(old, new) is Ok,
    decreases old, new, 1int,
{
    if !eq_vv(old, new) {
        match (old, new) {
            (ValueView::Mapping(e1, k1), ValueView::Mapping(e2, k2)) => {
                if k1 == k2 {
                    if !contains_cursor(old) {
                        assert forall|m: int| 0 <= m < e1.len() implies !contains_cursor(
                            (#[trigger] e1[m]).1,
                        ) by {}
                    } else {
                        assert forall|m: int| 0 <= m < e2.len() implies !contains_cursor(
                            (#[trigger] e2[m]).1,
                        ) by {}
                    }
                    lemma_diff_total_entries(e1, e2);
                }
            },
            (ValueView::Sequence(s1), ValueView::Sequence(s2)) => {
                lemma_diff_total_elems(s1, s2, 0);
            },
            (ValueView::Scalar(a), ValueView::Scalar(b)) => {
                assert(!(a is Cursor) || !(b is Cursor));
            },
            _ => {},
        }
    }
}

/// The converse reading: a diff refuses only a pair of trees that both
/// hold a cursor leaf (the differing pair it stumbles on).
pub proof fn lemma_err_implies_cursors(old: ValueView, new: ValueView)
    requires
        spec_diff(old, new) is Err,
    ensures
        contains_cursor(old),
        contains_cursor(new),
{
    if !contains_cursor(old) || !contains_cursor(new) {
        lemma_diff_total(old, new);
    }
}

pub proof fn lemma_diff_total_entries(
    e1: Seq<(Seq<char>, ValueView)>,
    e2: Seq<(Seq<char>, ValueView)>,
)
    requires
        (forall|m: int| 0 <= m < e1.len() ==> !contains_cursor((#[trigger] e1[m]).1)) || (forall|
            m: int,
        |
            0 <= m < e2.len() ==> !contains_cursor((#[trigger] e2[m]).1)),
    ensures
        spec_diff_entries(e1, e2) is Ok,
    decreases e1, e2, 0int,
{
    let clean1 = forall|m: int| 0 <= m < e1.len() ==> !contains_cursor((#[trigger] e1[m]).1);
    if e1.len() == 0 && e2.len() == 0 {
    } else if e1.len() > 0 && (e2.len() == 0 || lex_lt(e1[0].0, e2[0].0)) {
        if clean1 {
            assert forall|m: int| 0 <= m < e1.skip(1).len() implies !contains_cursor(
                (#[trigger] e1.skip(1)[m]).1,
            ) by {
                assert(e1.skip(1)[m] == e1[m + 1]);
            }
        }
        lemma_diff_total_entries(e1.skip(1), e2);
    } else if e1.len() > 0 && e2.len() > 0 && e1[0].0 == e2[0].0 {
        lemma_diff_total(e1[0].1, e2[0].1);
        if clean1 {
            assert forall|m: int| 0 <= m < e1.skip(1).len() implies !contains_cursor(
                (#[trigger] e1.skip(1)[m]).1,
            ) by {
                assert(e1.skip(1)[m] == e1[m + 1]);
            }
        } else {
            assert forall|m: int| 0 <= m < e2.skip(1).len() implies !contains_cursor(
                (#[trigger] e2.skip(1)[m]).1,
            ) by {
                assert(e2.skip(1)[m] == e2[m + 1]);
            }
        }
        lemma_diff_total_entries(e1.skip(1), e2.skip(1));
    } else {
        if !clean1 {
            assert forall|m: int| 0 <= m < e2.skip(1).len() implies !contains_cursor(
                (#[trigger] e2.skip(1)[m]).1,
            ) by {
                assert(e2.skip(1)[m] == e2[m + 1]);
            }
        }
        lemma_diff_total_entries(e1, e2.skip(1));
    }
}

pub proof fn lemma_diff_total_elems(s1: Seq<ValueView>, s2: Seq<ValueView>, base: int)
    requires
        (forall|m: int| 0 <= m < s1.len() ==> !contains_cursor(#[trigger] s1[m])) || (forall|
            m: int,
        |
            0 <= m < s2.len() ==> !contains_cursor(#[trigger] s2[m])),
    ensures
        spec_diff_elems(s1, s2, base) is Ok,
    decreases s1, s2, 0int,
{
    let clean1 = forall|m: int| 0 <= m < s1.len() ==> !contains_cursor(#[trigger] s1[m]);
    if s1.len() == 0 {
    } else if s2.len() == 0 {
    } else {
        lemma_diff_total(s1[0], s2[0]);
        if clean1 {
            assert forall|m: int| 0 <= m < s1.skip(1).len() implies !contains_cursor(
                #[trigger] s1.skip(1)[m],
            ) by {
                assert(s1.skip(1)[m] == s1[m + 1]);
            }
        } else {
            assert forall|m: int| 0 <= m < s2.skip(1).len() implies !contains_cursor(
                #[trigger] s2.skip(1)[m],
            ) by {
                assert(s2.skip(1)[m] == s2[m + 1]);
            }
        }
        lemma_diff_total_elems(s1.skip(1), s2.skip(1), base + 1);
    }
}


/// Whether some leaf of the tree is a floating-point scalar.
pub open spec fn contains_float(v: ValueView) -> bool
    decreases v,
{
    match v {
        ValueView::Mapping(e, _) => exists|i: int|
            0 <= i < e.len() && contains_float((#[trigger] e[i]).1),
        ValueView::Sequence(s) => exists|i: int|
            0 <= i < s.len() && contains_float(#[trigger] s[i]),
        ValueView::Text(_) => false,
        ValueView::Scalar(sv) => sv is F64 || sv is F32,
    }
}

/// On trees without float leaves, similarity collapses to equality.
pub proof fn lemma_sim_exact(a: ValueView, b: ValueView)
    requires
        sim_vv(a, b),
        !contains_float(b),
    ensures
        a == b,
    decreases a,
{
    if a != b {
        match (a, b) {
            (ValueView::Mapping(e1, k1), ValueView::Mapping(e2, k2)) => {
                assert forall|m: int| 0 <= m < e1.len() implies (#[trigger] e1[m]) == e2[m] by {
                    lemma_sim_exact(e1[m].1, e2[m].1);
                    assert(e1[m] == (e1[m].0, e1[m].1));
                    assert(e2[m] == (e2[m].0, e2[m].1));
                }
                assert(e1 =~= e2);
            },
            (ValueView::Sequence(s1), ValueView::Sequence(s2)) => {
                assert forall|m: int| 0 <= m < s1.len() implies (#[trigger] s1[m]) == s2[m] by {
                    lemma_sim_exact(s1[m], s2[m]);
                }
                assert(s1 =~= s2);
            },
            _ => {},
        }
    }
}

/// Exact replay correctness: for well-formed trees whose target holds no
/// float leaf, replaying the diff yields the new tree itself.
pub proof fn lemma_replay_exact(old: ValueView, new: ValueView)
    requires
        wf_view(old),
        wf_view(new),
        !contains_float(new),
        spec_diff(old, new) is Ok,
    ensures
        apply_ops(old, spec_diff(old, new)->Ok_0) == Some(new),
{
    lemma_replay(old, new);
    let r = apply_ops(old, spec_diff(old, new)->Ok_0);
    lemma_sim_exact(r->0, new);
}


} // verus!
