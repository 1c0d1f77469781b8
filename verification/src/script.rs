//! Edit scripts: the path-qualified operations a diff emits, and their
//! replay semantics.  `apply_ops` is the documented effect of a script: the
//! replication engine that consumes a script must transform its document the
//! same way `apply_ops` transforms the value tree.

use vstd::prelude::*;

use crate::value::Scalar;
use crate::value::ScalarView;
use crate::value::Value;
use crate::value::ValueView;
use crate::value::clone_string;
use crate::value::clone_value;
use crate::value::entries_view;
use crate::value::elems_view;
use crate::value::lemma_entries_view;
use crate::value::lemma_elems_view;
use crate::value::lemma_lex_asym;
use crate::value::lex_lt;
use crate::value::str_cmp;
use crate::value::text_view;
use crate::value::value_view;

verus! {

/// One step on the way from the tree root to an operation's target.
#[derive(Debug)]
pub enum PathElem {
    /// Descend into a map entry by key.
    Key(String),
    /// Descend into a sequence element by position.
    Index(usize),
}

/// Ghost mirror of [`PathElem`].
pub enum PathElemView {
    Key(Seq<char>),
    Index(int),
}

/// One instruction of an edit script.  Paths are relative to the tree the
/// script is applied to; sequence indices refer to the state of the tree at
/// the moment the operation is reached during replay.
#[derive(Debug)]
pub enum Op {
    /// Bind `key` to `value` in the map at `path` (insert or overwrite).
    SetMapValue { path: Vec<PathElem>, key: String, value: Value },
    /// Drop `key` from the map at `path`.
    RemoveMapKey { path: Vec<PathElem>, key: String },
    /// Insert `value` at position `index` of the sequence at `path`.
    InsertSequenceElement { path: Vec<PathElem>, index: usize, value: Value },
    /// Remove the element at position `index` of the sequence at `path`.
    RemoveSequenceElement { path: Vec<PathElem>, index: usize },
    /// Replace the grapheme range `start..end` of the text at `path`.
    SetTextRange { path: Vec<PathElem>, start: usize, end: usize, graphemes: Vec<String> },
    /// Add `delta` (two's-complement wrapping) to the counter at `path`.
    IncrementCounter { path: Vec<PathElem>, delta: i64 },
    /// Replace the whole value at `path`.
    SetScalar { path: Vec<PathElem>, value: Value },
}

/// Ghost mirror of [`Op`].
pub enum OpView {
    SetMapValue { path: Seq<PathElemView>, key: Seq<char>, value: ValueView },
    RemoveMapKey { path: Seq<PathElemView>, key: Seq<char> },
    InsertSequenceElement { path: Seq<PathElemView>, index: int, value: ValueView },
    RemoveSequenceElement { path: Seq<PathElemView>, index: int },
    SetTextRange { path: Seq<PathElemView>, start: int, end: int, graphemes: Seq<Seq<char>> },
    IncrementCounter { path: Seq<PathElemView>, delta: i64 },
    SetScalar { path: Seq<PathElemView>, value: ValueView },
}

/// Why a diff cannot be expressed as an edit script.
#[derive(Clone, Copy, PartialEq, Eq, Structural, Debug)]
pub enum DiffError {
    /// The transformation reaches a pair of differing opaque cursor
    /// references; the engine has no operation that rewrites one cursor
    /// into another.
    Incompatible,
}

pub open spec fn path_elem_view(p: PathElem) -> PathElemView {
    match p {
        PathElem::Key(s) => PathElemView::Key(s@),
        PathElem::Index(i) => PathElemView::Index(i as int),
    }
}

pub open spec fn path_view(p: Seq<PathElem>) -> Seq<PathElemView> {
    p.map_values(|e: PathElem| path_elem_view(e))
}

pub open spec fn op_view(op: Op) -> OpView {
    match op {
        Op::SetMapValue { path, key, value } => OpView::SetMapValue {
            path: path_view(path@),
            key: key@,
            value: value_view(value),
        },
        Op::RemoveMapKey { path, key } => OpView::RemoveMapKey {
            path: path_view(path@),
            key: key@,
        },
        Op::InsertSequenceElement { path, index, value } => OpView::InsertSequenceElement {
            path: path_view(path@),
            index: index as int,
            value: value_view(value),
        },
        Op::RemoveSequenceElement { path, index } => OpView::RemoveSequenceElement {
            path: path_view(path@),
            index: index as int,
        },
        Op::SetTextRange { path, start, end, graphemes } => OpView::SetTextRange {
            path: path_view(path@),
            start: start as int,
            end: end as int,
            graphemes: crate::value::text_view(graphemes@),
        },
        Op::IncrementCounter { path, delta } => OpView::IncrementCounter {
            path: path_view(path@),
            delta: delta,
        },
        Op::SetScalar { path, value } => OpView::SetScalar {
            path: path_view(path@),
            value: value_view(value),
        },
    }
}

impl View for Op {
    type V = OpView;

    open spec fn view(&self) -> OpView {
        op_view(*self)
    }
}

pub open spec fn script_view(s: Seq<Op>) -> Seq<OpView> {
    s.map_values(|op: Op| op_view(op))
}

/// The path of an operation.
pub open spec fn op_path(op: OpView) -> Seq<PathElemView> {
    match op {
        OpView::SetMapValue { path, .. } => path,
        OpView::RemoveMapKey { path, .. } => path,
        OpView::InsertSequenceElement { path, .. } => path,
        OpView::RemoveSequenceElement { path, .. } => path,
        OpView::SetTextRange { path, .. } => path,
        OpView::IncrementCounter { path, .. } => path,
        OpView::SetScalar { path, .. } => path,
    }
}

/// The same operation, one path step deeper.
pub open spec fn with_prefix(op: OpView, el: PathElemView) -> OpView {
    match op {
        OpView::SetMapValue { path, key, value } => OpView::SetMapValue {
            path: seq![el] + path,
            key: key,
            value: value,
        },
        OpView::RemoveMapKey { path, key } => OpView::RemoveMapKey {
            path: seq![el] + path,
            key: key,
        },
        OpView::InsertSequenceElement { path, index, value } => OpView::InsertSequenceElement {
            path: seq![el] + path,
            index: index,
            value: value,
        },
        OpView::RemoveSequenceElement { path, index } => OpView::RemoveSequenceElement {
            path: seq![el] + path,
            index: index,
        },
        OpView::SetTextRange { path, start, end, graphemes } => OpView::SetTextRange {
            path: seq![el] + path,
            start: start,
            end: end,
            graphemes: graphemes,
        },
        OpView::IncrementCounter { path, delta } => OpView::IncrementCounter {
            path: seq![el] + path,
            delta: delta,
        },
        OpView::SetScalar { path, value } => OpView::SetScalar {
            path: seq![el] + path,
            value: value,
        },
    }
}

pub open spec fn prefix_ops(ops: Seq<OpView>, el: PathElemView) -> Seq<OpView> {
    ops.map_values(|op: OpView| with_prefix(op, el))
}

pub proof fn lemma_with_prefix_path(op: OpView, el: PathElemView)
    ensures
        op_path(with_prefix(op, el)) == seq![el] + op_path(op),
        op_path(with_prefix(op, el)).len() >= 1,
        op_path(with_prefix(op, el))[0] == el,
        op_path(with_prefix(op, el)).skip(1) == op_path(op),
{
    assert(op_path(with_prefix(op, el)).skip(1) =~= op_path(op));
}

/// Position of `key` in an entry list, or -1 when absent (first match).
pub open spec fn map_index_of(e: Seq<(Seq<char>, ValueView)>, k: Seq<char>) -> int
    decreases e.len(),
{
    if e.len() == 0 {
        -1
    } else if e[0].0 == k {
        0
    } else {
        let r = map_index_of(e.skip(1), k);
        if r < 0 {
            -1
        } else {
            r + 1
        }
    }
}

pub proof fn lemma_map_index_of(e: Seq<(Seq<char>, ValueView)>, k: Seq<char>)
    ensures
        -1 <= map_index_of(e, k) < e.len(),
        map_index_of(e, k) >= 0 ==> e[map_index_of(e, k)].0 == k,
        map_index_of(e, k) == -1 ==> forall|i: int| 0 <= i < e.len() ==> (#[trigger] e[i]).0 != k,
    decreases e.len(),
{
    if e.len() > 0 && e[0].0 != k {
        lemma_map_index_of(e.skip(1), k);
        if map_index_of(e.skip(1), k) == -1 {
            assert forall|i: int| 0 <= i < e.len() implies (#[trigger] e[i]).0 != k by {
                if i > 0 {
                    assert(e.skip(1)[i - 1] == e[i]);
                }
            }
        }
    }
}

/// Bind `k` to `v`, keeping entries in strictly increasing key order.
pub open spec fn map_set(
    e: Seq<(Seq<char>, ValueView)>,
    k: Seq<char>,
    v: ValueView,
) -> Seq<(Seq<char>, ValueView)>
    decreases e.len(),
{
    if e.len() == 0 {
        seq![(k, v)]
    } else if lex_lt(k, e[0].0) {
        seq![(k, v)] + e
    } else if e[0].0 == k {
        seq![(k, v)] + e.skip(1)
    } else {
        seq![e[0]] + map_set(e.skip(1), k, v)
    }
}

/// Drop the first entry whose key is `k`.
pub open spec fn map_remove(
    e: Seq<(Seq<char>, ValueView)>,
    k: Seq<char>,
) -> Seq<(Seq<char>, ValueView)>
    decreases e.len(),
{
    if e.len() == 0 {
        e
    } else if e[0].0 == k {
        e.skip(1)
    } else {
        seq![e[0]] + map_remove(e.skip(1), k)
    }
}

/// The counter value after an increment: two's-complement wrapping addition.
pub open spec fn counter_after(c: i64, delta: i64) -> i64 {
    vstd::wrapping::i64_specs::wrapping_add(c, delta)
}

/// The increment that takes counter `old_c` to counter `new_c`.
pub open spec fn counter_delta(new_c: i64, old_c: i64) -> i64 {
    vstd::wrapping::i64_specs::wrapping_sub(new_c, old_c)
}

pub proof fn lemma_counter_round_trip(old_c: i64, new_c: i64)
    ensures
        counter_after(old_c, counter_delta(new_c, old_c)) == new_c,
{
}

/// Replace the grapheme range `start..end` of `t`.
pub open spec fn splice_text(
    t: Seq<Seq<char>>,
    start: int,
    end: int,
    gs: Seq<Seq<char>>,
) -> Seq<Seq<char>> {
    t.subrange(0, start) + gs + t.subrange(end, t.len() as int)
}

/// Effect of an operation whose path has been fully consumed.
pub open spec fn apply_here(v: ValueView, op: OpView) -> Option<ValueView> {
    match op {
        OpView::SetScalar { value, .. } => Some(value),
        OpView::IncrementCounter { delta, .. } => match v {
            ValueView::Scalar(sv) => match sv {
                ScalarView::Counter(c) => Some(
                    ValueView::Scalar(ScalarView::Counter(counter_after(c, delta))),
                ),
                _ => None,
            },
            _ => None,
        },
        OpView::SetMapValue { key, value, .. } => match v {
            ValueView::Mapping(e, kind) => Some(ValueView::Mapping(map_set(e, key, value), kind)),
            _ => None,
        },
        OpView::RemoveMapKey { key, .. } => match v {
            ValueView::Mapping(e, kind) => if map_index_of(e, key) >= 0 {
                Some(ValueView::Mapping(map_remove(e, key), kind))
            } else {
                None
            },
            _ => None,
        },
        OpView::InsertSequenceElement { index, value, .. } => match v {
            ValueView::Sequence(s) => if 0 <= index <= s.len() {
                Some(ValueView::Sequence(s.insert(index, value)))
            } else {
                None
            },
            _ => None,
        },
        OpView::RemoveSequenceElement { index, .. } => match v {
            ValueView::Sequence(s) => if 0 <= index < s.len() {
                Some(ValueView::Sequence(s.remove(index)))
            } else {
                None
            },
            _ => None,
        },
        OpView::SetTextRange { start, end, graphemes, .. } => match v {
            ValueView::Text(t) => if 0 <= start <= end <= t.len() {
                Some(ValueView::Text(splice_text(t, start, end, graphemes)))
            } else {
                None
            },
            _ => None,
        },
    }
}

/// Apply `op` to the subtree of `v` reached by `path`, rebuilding the
/// spine; `None` when the path does not exist or the effect is undefined.
pub open spec fn apply_at(v: ValueView, path: Seq<PathElemView>, op: OpView) -> Option<ValueView>
    decreases path.len(),
{
    if path.len() == 0 {
        apply_here(v, op)
    } else {
        match path[0] {
            PathElemView::Key(k) => match v {
                ValueView::Mapping(e, kind) => {
                    let idx = map_index_of(e, k);
                    if idx >= 0 {
                        match apply_at(e[idx].1, path.skip(1), op) {
                            Some(c) => Some(ValueView::Mapping(e.update(idx, (k, c)), kind)),
                            None => None,
                        }
                    } else {
                        None
                    }
                },
                _ => None,
            },
            PathElemView::Index(i) => match v {
                ValueView::Sequence(s) => if 0 <= i < s.len() {
                    match apply_at(s[i], path.skip(1), op) {
                        Some(c) => Some(ValueView::Sequence(s.update(i, c))),
                        None => None,
                    }
                } else {
                    None
                },
                _ => None,
            },
        }
    }
}

/// Apply one operation at its own path.
pub open spec fn apply_op(v: ValueView, op: OpView) -> Option<ValueView> {
    apply_at(v, op_path(op), op)
}

/// Replay a whole script in order; `None` as soon as one operation is
/// undefined on the tree it meets.
pub open spec fn apply_ops(v: ValueView, ops: Seq<OpView>) -> Option<ValueView>
    decreases ops.len(),
{
    if ops.len() == 0 {
        Some(v)
    } else {
        match apply_op(v, ops[0]) {
            Some(v2) => apply_ops(v2, ops.skip(1)),
            None => None,
        }
    }
}

/// Scripts compose: replaying a concatenation is replaying the parts in turn.
pub proof fn lemma_apply_ops_concat(v: ValueView, ops1: Seq<OpView>, ops2: Seq<OpView>)
    ensures
        apply_ops(v, ops1 + ops2) == match apply_ops(v, ops1) {
            Some(v2) => apply_ops(v2, ops2),
            None => None,
        },
    decreases ops1.len(),
{
    if ops1.len() == 0 {
        assert(ops1 + ops2 =~= ops2);
    } else {
        assert((ops1 + ops2)[0] == ops1[0]);
        match apply_op(v, ops1[0]) {
            Some(v2) => {
                lemma_apply_ops_concat(v2, ops1.skip(1), ops2);
                assert((ops1 + ops2).skip(1) =~= ops1.skip(1) + ops2);
            },
            None => {},
        }
    }
}


/// `map_index_of` finds the position of a key that occurs there first.
pub proof fn lemma_index_of_unique(e: Seq<(Seq<char>, ValueView)>, k: Seq<char>, idx: int)
    requires
        0 <= idx < e.len(),
        e[idx].0 == k,
        forall|m: int| 0 <= m < idx ==> (#[trigger] e[m]).0 != k,
    ensures
        map_index_of(e, k) == idx,
    decreases e.len(),
{
    if idx > 0 {
        assert(e[0].0 != k);
        assert forall|m: int| 0 <= m < idx - 1 implies (#[trigger] e.skip(1)[m]).0 != k by {
            assert(e.skip(1)[m] == e[m + 1]);
        }
        assert(e.skip(1)[idx - 1] == e[idx]);
        lemma_index_of_unique(e.skip(1), k, idx - 1);
    }
}

/// Where the key is absent, `map_index_of` reports so.
pub proof fn lemma_index_of_absent(e: Seq<(Seq<char>, ValueView)>, k: Seq<char>)
    requires
        forall|m: int| 0 <= m < e.len() ==> (#[trigger] e[m]).0 != k,
    ensures
        map_index_of(e, k) == -1,
    decreases e.len(),
{
    if e.len() > 0 {
        assert forall|m: int| 0 <= m < e.skip(1).len() implies (#[trigger] e.skip(1)[m]).0
            != k by {
            assert(e.skip(1)[m] == e[m + 1]);
        }
        lemma_index_of_absent(e.skip(1), k);
    }
}

/// `map_set` at the position `pos` where the key belongs: an overwrite when
/// the key is already there, an insertion otherwise.
pub proof fn lemma_map_set_at(
    e: Seq<(Seq<char>, ValueView)>,
    k: Seq<char>,
    v: ValueView,
    pos: int,
)
    requires
        0 <= pos <= e.len(),
        forall|m: int|
            0 <= m < pos ==> !lex_lt(k, (#[trigger] e[m]).0) && (#[trigger] e[m]).0 != k,
        pos < e.len() ==> lex_lt(k, e[pos].0) || e[pos].0 == k,
    ensures
        pos < e.len() && e[pos].0 == k ==> map_set(e, k, v) == e.update(pos, (k, v)),
        !(pos < e.len() && e[pos].0 == k) ==> map_set(e, k, v) == e.insert(pos, (k, v)),
    decreases pos,
{
    if pos == 0 {
        if e.len() == 0 {
            assert(map_set(e, k, v) =~= e.insert(0, (k, v)));
        } else if lex_lt(k, e[0].0) {
            crate::value::lemma_lex_irrefl(k);
            assert(e[0].0 != k);
            assert(map_set(e, k, v) == seq![(k, v)] + e);
            assert(seq![(k, v)] + e =~= e.insert(0, (k, v)));
        } else {
            assert(e[0].0 == k);
            assert(map_set(e, k, v) == seq![(k, v)] + e.skip(1));
            assert(seq![(k, v)] + e.skip(1) =~= e.update(0, (k, v)));
        }
    } else {
        assert(!lex_lt(k, e[0].0) && e[0].0 != k);
        assert forall|m: int|
            0 <= m < pos - 1 implies !lex_lt(k, (#[trigger] e.skip(1)[m]).0) && (
        #[trigger] e.skip(1)[m]).0 != k by {
            assert(e.skip(1)[m] == e[m + 1]);
        }
        if pos - 1 < e.skip(1).len() {
            assert(e.skip(1)[pos - 1] == e[pos]);
        }
        crate::value::lemma_lex_irrefl(k);
        lemma_map_set_at(e.skip(1), k, v, pos - 1);
        assert(map_set(e, k, v) == seq![e[0]] + map_set(e.skip(1), k, v));
        if pos < e.len() && e[pos].0 == k {
            assert(seq![e[0]] + e.skip(1).update(pos - 1, (k, v)) =~= e.update(pos, (k, v)));
        } else {
            assert(seq![e[0]] + e.skip(1).insert(pos - 1, (k, v)) =~= e.insert(pos, (k, v)));
        }
    }
}

/// `map_remove` of a key standing first at position `idx` removes exactly
/// that entry.
pub proof fn lemma_map_remove_at(e: Seq<(Seq<char>, ValueView)>, k: Seq<char>, idx: int)
    requires
        0 <= idx < e.len(),
        e[idx].0 == k,
        forall|m: int| 0 <= m < idx ==> (#[trigger] e[m]).0 != k,
    ensures
        map_remove(e, k) == e.remove(idx),
    decreases idx,
{
    if idx == 0 {
        assert(e.skip(1) =~= e.remove(0));
    } else {
        assert(e[0].0 != k);
        assert forall|m: int| 0 <= m < idx - 1 implies (#[trigger] e.skip(1)[m]).0 != k by {
            assert(e.skip(1)[m] == e[m + 1]);
        }
        assert(e.skip(1)[idx - 1] == e[idx]);
        lemma_map_remove_at(e.skip(1), k, idx - 1);
        assert(map_remove(e, k) == seq![e[0]] + map_remove(e.skip(1), k));
        assert(seq![e[0]] + e.skip(1).remove(idx - 1) =~= e.remove(idx));
    }
}


/// Exec-to-spec correspondence for an optional value.
pub open spec fn opt_matches(s: Option<ValueView>, r: Option<Value>) -> bool {
    match (s, r) {
        (Some(sv), Some(rv)) => value_view(rv) == sv,
        (None, None) => true,
        _ => false,
    }
}

fn op_path_len(op: &Op) -> (r: usize)
    ensures
        r == op_path(op_view(*op)).len(),
{
    match op {
        Op::SetMapValue { path, .. } => path.len(),
        Op::RemoveMapKey { path, .. } => path.len(),
        Op::InsertSequenceElement { path, .. } => path.len(),
        Op::RemoveSequenceElement { path, .. } => path.len(),
        Op::SetTextRange { path, .. } => path.len(),
        Op::IncrementCounter { path, .. } => path.len(),
        Op::SetScalar { path, .. } => path.len(),
    }
}

fn op_path_at<'a>(op: &'a Op, i: usize) -> (r: &'a PathElem)
    requires
        i < op_path(op_view(*op)).len(),
    ensures
        path_elem_view(*r) == op_path(op_view(*op))[i as int],
{
    match op {
        Op::SetMapValue { path, .. } => &path[i],
        Op::RemoveMapKey { path, .. } => &path[i],
        Op::InsertSequenceElement { path, .. } => &path[i],
        Op::RemoveSequenceElement { path, .. } => &path[i],
        Op::SetTextRange { path, .. } => &path[i],
        Op::IncrementCounter { path, .. } => &path[i],
        Op::SetScalar { path, .. } => &path[i],
    }
}

/// Position of the first entry bearing `key`, if any.
fn find_key(entries: &Vec<(String, Value)>, key: &String) -> (r: Option<usize>)
    ensures
        match r {
            Some(i) => i < entries@.len() && map_index_of(entries_view(entries@), key@)
                == i as int,
            None => map_index_of(entries_view(entries@), key@) == -1,
        },
{
    proof {
        lemma_entries_view(entries@);
    }
    let mut i: usize = 0;
    while i < entries.len()
        invariant
            i <= entries@.len(),
            entries_view(entries@).len() == entries@.len(),
            forall|m: int|
                0 <= m < entries@.len() ==> entries_view(entries@)[m] == (
                    entries@[m].0@,
                    value_view(entries@[m].1),
                ),
            forall|m: int| 0 <= m < i ==> (#[trigger] entries_view(entries@)[m]).0 != key@,
        decreases entries@.len() - i,
    {
        if entries[i].0.eq(key) {
            proof {
                lemma_index_of_unique(entries_view(entries@), key@, i as int);
            }
            return Some(i);
        }
        i += 1;
    }
    proof {
        lemma_index_of_absent(entries_view(entries@), key@);
    }
    None
}

/// Bind `key` to `value` in an owned entry list, keeping canonical order.
pub fn entries_set(entries: Vec<(String, Value)>, key: String, value: Value) -> (r: Vec<
    (String, Value),
>)
    ensures
        entries_view(r@) == map_set(entries_view(entries@), key@, value_view(value)),
{
    let mut entries = entries;
    proof {
        lemma_entries_view(entries@);
    }
    let ghost ev = entries_view(entries@);
    let mut pos: usize = 0;
    while pos < entries.len()
        invariant_except_break
            pos <= entries@.len(),
            ev == entries_view(entries@),
            ev.len() == entries@.len(),
            forall|m: int|
                0 <= m < entries@.len() ==> ev[m] == (
                    entries@[m].0@,
                    value_view(entries@[m].1),
                ),
            forall|m: int| 0 <= m < pos ==> lex_lt((#[trigger] ev[m]).0, key@),
        ensures
            pos <= entries@.len(),
            ev == entries_view(entries@),
            ev.len() == entries@.len(),
            forall|m: int|
                0 <= m < entries@.len() ==> ev[m] == (
                    entries@[m].0@,
                    value_view(entries@[m].1),
                ),
            forall|m: int| 0 <= m < pos ==> lex_lt((#[trigger] ev[m]).0, key@),
            pos < entries@.len() ==> (ev[pos as int].0 == key@ || lex_lt(
                key@,
                ev[pos as int].0,
            )),
        decreases entries@.len() - pos,
    {
        let c = str_cmp(&entries[pos].0, &key);
        if c != -1 {
            break;
        }
        pos += 1;
    }
    proof {
        assert forall|m: int|
            0 <= m < pos implies !lex_lt(key@, (#[trigger] ev[m]).0) && (#[trigger] ev[m]).0
            != key@ by {
            lemma_lex_asym(ev[m].0, key@);
        }
        lemma_map_set_at(ev, key@, value_view(value), pos as int);
    }
    let replace = if pos < entries.len() {
        let c2 = str_cmp(&entries[pos].0, &key);
        proof {
            crate::value::lemma_lex_irrefl(key@);
            if c2 == 1 {
                lemma_lex_asym(key@, ev[pos as int].0);
            }
            if c2 == -1 {
                lemma_lex_asym(ev[pos as int].0, key@);
            }
        }
        c2 == 0
    } else {
        false
    };
    let ghost vv = value_view(value);
    if replace {
        let _old = entries.remove(pos);
        entries.insert(pos, (key, value));
        proof {
            lemma_entries_view(entries@);
            assert(entries_view(entries@) =~= ev.update(pos as int, (key@, vv)));
        }
        entries
    } else {
        entries.insert(pos, (key, value));
        proof {
            lemma_entries_view(entries@);
            assert(entries_view(entries@) =~= ev.insert(pos as int, (key@, vv)));
        }
        entries
    }
}

/// Effect of `op` once its path is consumed, on an owned value.
fn apply_here_exec(v: Value, op: &Op) -> (r: Option<Value>)
    ensures
        opt_matches(apply_here(value_view(v), op_view(*op)), r),
{
    match op {
        Op::SetScalar { path, value } => {
            proof {
                assert(*op == (Op::SetScalar { path: *path, value: *value }));
            }
            Some(clone_value(value))
        },
        Op::IncrementCounter { delta, .. } => {
            match v {
                Value::Scalar(sc) => {
                    match sc {
                        Scalar::Counter(c) => Some(
                            Value::Scalar(Scalar::Counter(c.wrapping_add(*delta))),
                        ),
                        _ => None,
                    }
                },
                _ => None,
            }
        },
        Op::SetMapValue { key, value, .. } => {
            match v {
                Value::Mapping(entries, kind) => {
                    let entries = entries_set(entries, clone_string(key), clone_value(value));
                    Some(Value::Mapping(entries, kind))
                },
                _ => None,
            }
        },
        Op::RemoveMapKey { key, .. } => {
            match v {
                Value::Mapping(entries, kind) => {
                    let mut entries = entries;
                    let ghost ev = entries_view(entries@);
                    match find_key(&entries, key) {
                        Some(idx) => {
                            proof {
                                lemma_entries_view(entries@);
                                lemma_map_index_of(ev, key@);
                                assert forall|m: int|
                                    0 <= m < idx implies (#[trigger] ev[m]).0 != key@ by {
                                    if ev[m].0 == key@ {
                                        lemma_index_of_bounded(ev, key@, m);
                                    }
                                }
                                lemma_map_remove_at(ev, key@, idx as int);
                            }
                            let _old = entries.remove(idx);
                            proof {
                                lemma_entries_view(entries@);
                                assert(entries_view(entries@) =~= ev.remove(idx as int));
                            }
                            Some(Value::Mapping(entries, kind))
                        },
                        None => None,
                    }
                },
                _ => None,
            }
        },
        Op::InsertSequenceElement { index, value, .. } => {
            match v {
                Value::Sequence(elems) => {
                    let mut elems = elems;
                    let ghost sv = elems_view(elems@);
                    if *index <= elems.len() {
                        proof {
                            lemma_elems_view(elems@);
                        }
                        elems.insert(*index, clone_value(value));
                        proof {
                            lemma_elems_view(elems@);
                            assert(elems_view(elems@) =~= sv.insert(
                                *index as int,
                                value_view(*value),
                            ));
                        }
                        Some(Value::Sequence(elems))
                    } else {
                        proof {
                            lemma_elems_view(elems@);
                        }
                        None
                    }
                },
                _ => None,
            }
        },
        Op::RemoveSequenceElement { index, .. } => {
            match v {
                Value::Sequence(elems) => {
                    let mut elems = elems;
                    let ghost sv = elems_view(elems@);
                    if *index < elems.len() {
                        proof {
                            lemma_elems_view(elems@);
                        }
                        let _old = elems.remove(*index);
                        proof {
                            lemma_elems_view(elems@);
                            assert(elems_view(elems@) =~= sv.remove(*index as int));
                        }
                        Some(Value::Sequence(elems))
                    } else {
                        proof {
                            lemma_elems_view(elems@);
                        }
                        None
                    }
                },
                _ => None,
            }
        },
        Op::SetTextRange { start, end, graphemes, .. } => {
            match v {
                Value::Text(t) => {
                    if *start <= *end && *end <= t.len() {
                        let mut out: Vec<String> = Vec::new();
                        let mut m: usize = 0;
                        while m < *start
                            invariant
                                m <= *start,
                                *start <= *end <= t@.len(),
                                out@.len() == m,
                                forall|x: int| 0 <= x < m ==> out@[x]@ == t@[x]@,
                            decreases *start - m,
                        {
                            out.push(clone_string(&t[m]));
                            m += 1;
                        }
                        let mut g: usize = 0;
                        while g < graphemes.len()
                            invariant
                                g <= graphemes@.len(),
                                *start <= *end <= t@.len(),
                                out@.len() == *start + g,
                                forall|x: int| 0 <= x < *start ==> out@[x]@ == t@[x]@,
                                forall|x: int|
                                    0 <= x < g ==> out@[*start + x]@ == graphemes@[x]@,
                            decreases graphemes@.len() - g,
                        {
                            out.push(clone_string(&graphemes[g]));
                            g += 1;
                        }
                        let mut e: usize = *end;
                        while e < t.len()
                            invariant
                                *start <= *end <= e <= t@.len(),
                                out@.len() == *start + graphemes@.len() + (e - *end),
                                forall|x: int| 0 <= x < *start ==> out@[x]@ == t@[x]@,
                                forall|x: int|
                                    0 <= x < graphemes@.len() ==> out@[*start + x]@
                                        == graphemes@[x]@,
                                forall|x: int|
                                    0 <= x < e - *end ==> (#[trigger] out@[*start
                                        + graphemes@.len() + x])@ == t@[*end + x]@,
                            decreases t@.len() - e,
                        {
                            out.push(clone_string(&t[e]));
                            e += 1;
                        }
                        proof {
                            let tv = text_view(t@);
                            let gv = text_view(graphemes@);
                            let sp = splice_text(tv, *start as int, *end as int, gv);
                            assert(out@.len() == sp.len());
                            assert forall|x: int|
                                0 <= x < sp.len() implies text_view(out@)[x] == sp[x] by {
                                let fst = tv.subrange(0, *start as int);
                                let lst = tv.subrange(*end as int, tv.len() as int);
                                assert(sp == fst + gv + lst);
                                assert(text_view(out@)[x] == out@[x]@);
                                if x < *start {
                                    assert((fst + gv + lst)[x] == (fst + gv)[x]);
                                    assert((fst + gv)[x] == fst[x]);
                                    assert(fst[x] == tv[x]);
                                    assert(tv[x] == t@[x]@);
                                } else if x < *start + gv.len() {
                                    assert((fst + gv + lst)[x] == (fst + gv)[x]);
                                    assert((fst + gv)[x] == gv[x - *start]);
                                    assert(gv[x - *start] == graphemes@[x - *start]@);
                                    assert(out@[x]@ == graphemes@[x - *start]@);
                                } else {
                                    let y = x - *start - gv.len();
                                    assert((fst + gv + lst)[x] == lst[y]);
                                    assert(lst[y] == tv[*end + y]);
                                    assert(tv[*end + y] == t@[*end + y]@);
                                    assert(out@[*start as int + graphemes@.len() + y]@ == t@[*end
                                        + y]@);
                                }
                            }
                            assert(text_view(out@) =~= sp);
                        }
                        Some(Value::Text(out))
                    } else {
                        None
                    }
                },
                _ => None,
            }
        },
    }
}

/// `map_index_of` never reports a position past an earlier occurrence.
pub proof fn lemma_index_of_bounded(e: Seq<(Seq<char>, ValueView)>, k: Seq<char>, m: int)
    requires
        0 <= m < e.len(),
        e[m].0 == k,
    ensures
        0 <= map_index_of(e, k) <= m,
    decreases e.len(),
{
    if e.len() > 0 && e[0].0 != k {
        assert(e.skip(1)[m - 1] == e[m]);
        lemma_index_of_bounded(e.skip(1), k, m - 1);
    }
}

/// Walk `op`'s path from step `depth` on and apply its effect at the end.
fn apply_from(v: Value, op: &Op, depth: usize) -> (r: Option<Value>)
    requires
        depth <= op_path(op_view(*op)).len(),
    ensures
        opt_matches(apply_at(value_view(v), op_path(op_view(*op)).skip(depth as int), op_view(*op)), r),
    decreases op_path(op_view(*op)).len() - depth,
{
    let ghost path = op_path(op_view(*op));
    let plen = op_path_len(op);
    if depth == plen {
        proof {
            assert(path.skip(depth as int).len() == 0);
        }
        apply_here_exec(v, op)
    } else {
        proof {
            assert(path.skip(depth as int)[0] == path[depth as int]);
            assert(path.skip(depth as int).skip(1) =~= path.skip(depth as int + 1));
        }
        match op_path_at(op, depth) {
            PathElem::Key(k) => {
                match v {
                    Value::Mapping(entries, kind) => {
                        let mut entries = entries;
                        let ghost ev = entries_view(entries@);
                        match find_key(&entries, k) {
                            Some(idx) => {
                                let ghost orig = entries@;
                                proof {
                                    lemma_entries_view(entries@);
                                    lemma_map_index_of(ev, k@);
                                }
                                let (key_s, child) = entries.remove(idx);
                                let ghost ksv = key_s@;
                                let ghost childv = child@;
                                match apply_from(child, op, depth + 1) {
                                    Some(cv) => {
                                        let ghost cvv = cv@;
                                        entries.insert(idx, (key_s, cv));
                                        proof {
                                            assert(entries@ =~= orig.update(
                                                idx as int,
                                                entries@[idx as int],
                                            ));
                                            assert(entries@[idx as int].0@ == ksv);
                                            assert(ksv == ev[idx as int].0);
                                            lemma_entries_view(entries@);
                                            assert(entries_view(entries@) =~= ev.update(
                                                idx as int,
                                                (k@, cvv),
                                            ));
                                        }
                                        Some(Value::Mapping(entries, kind))
                                    },
                                    None => None,
                                }
                            },
                            None => None,
                        }
                    },
                    _ => None,
                }
            },
            PathElem::Index(i) => {
                match v {
                    Value::Sequence(elems) => {
                        let mut elems = elems;
                        let ghost sv = elems_view(elems@);
                        if *i < elems.len() {
                            let ghost orig = elems@;
                            proof {
                                lemma_elems_view(elems@);
                            }
                            let child = elems.remove(*i);
                            match apply_from(child, op, depth + 1) {
                                Some(cv) => {
                                    let ghost cvv = cv@;
                                    elems.insert(*i, cv);
                                    proof {
                                        assert(elems@ =~= orig.update(
                                            *i as int,
                                            elems@[*i as int],
                                        ));
                                        lemma_elems_view(elems@);
                                        assert(elems_view(elems@) =~= sv.update(
                                            *i as int,
                                            cvv,
                                        ));
                                    }
                                    Some(Value::Sequence(elems))
                                },
                                None => None,
                            }
                        } else {
                            proof {
                                lemma_elems_view(elems@);
                            }
                            None
                        }
                    },
                    _ => None,
                }
            },
        }
    }
}

/// Apply one operation at its own path.
pub fn apply_op_exec(v: Value, op: &Op) -> (r: Option<Value>)
    ensures
        opt_matches(apply_op(value_view(v), op_view(*op)), r),
{
    proof {
        assert(op_path(op_view(*op)).skip(0) =~= op_path(op_view(*op)));
    }
    apply_from(v, op, 0)
}

/// Replay a whole edit script against a tree, operation by operation: the
/// reference implementation of the engine's "apply local change" effect.
pub fn apply_script(v: &Value, ops: &Vec<Op>) -> (r: Option<Value>)
    ensures
        opt_matches(apply_ops(v@, script_view(ops@)), r),
{
    let ghost full = script_view(ops@);
    let mut cur = clone_value(v);
    let mut idx: usize = 0;
    proof {
        assert(full.skip(0) =~= full);
    }
    while idx < ops.len()
        invariant
            idx <= ops@.len(),
            full == script_view(ops@),
            full.len() == ops@.len(),
            apply_ops(v@, full) == apply_ops(value_view(cur), full.skip(idx as int)),
        decreases ops@.len() - idx,
    {
        proof {
            assert(full.skip(idx as int)[0] == full[idx as int]);
            assert(full.skip(idx as int).skip(1) =~= full.skip(idx as int + 1));
        }
        match apply_op_exec(cur, &ops[idx]) {
            Some(next) => {
                cur = next;
            },
            None => {
                return None;
            },
        }
        idx += 1;
    }
    proof {
        assert(full.skip(idx as int).len() == 0);
    }
    Some(cur)
}

} // verus!
