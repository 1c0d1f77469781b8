//! Marshalling native data into value trees: the `ToAutomerge` conversion
//! trait and its implementations for plain types, the canonical map
//! builder, and grapheme-aware text construction.

use vstd::prelude::*;

use unicode_segmentation::UnicodeSegmentation;

use crate::script::entries_set;
use crate::script::map_set;
use crate::value::MapKind;
use crate::value::Scalar;
use crate::value::ScalarView;
use crate::value::Value;
use crate::value::ValueView;
use crate::value::clone_string;
use crate::value::elems_view;
use crate::value::entries_view;
use crate::value::keys_sorted;
use crate::value::lemma_entries_view;
use crate::value::lemma_lex_trans;
use crate::value::lemma_lex_total;
use crate::value::lex_lt;
use crate::value::text_view;
use crate::value::value_view;
use crate::value::wf_view;

verus! {

/// Converts a native value into a well-formed value tree.  `to_view` states
/// which tree a datum stands for; `to_automerge` must build exactly that
/// tree.
pub trait ToAutomerge {
    /// The value tree this datum converts to.
    spec fn to_view(&self) -> ValueView;

    fn to_automerge(&self) -> (v: Value)
        ensures
            v@ == self.to_view(),
            wf_view(v@),
    ;
}

/// The umbrella bound a replicated document type must satisfy.
pub trait Automergeable: ToAutomerge {

}

impl<T: ToAutomerge> Automergeable for T {

}

impl ToAutomerge for String {
    open spec fn to_view(&self) -> ValueView {
        ValueView::Scalar(ScalarView::Str(self@))
    }

    fn to_automerge(&self) -> (v: Value) {
        Value::Scalar(Scalar::Str(clone_string(self)))
    }
}

impl ToAutomerge for i64 {
    open spec fn to_view(&self) -> ValueView {
        ValueView::Scalar(ScalarView::Int(*self))
    }

    fn to_automerge(&self) -> (v: Value) {
        Value::Scalar(Scalar::Int(*self))
    }
}

impl ToAutomerge for u64 {
    open spec fn to_view(&self) -> ValueView {
        ValueView::Scalar(ScalarView::Uint(*self))
    }

    fn to_automerge(&self) -> (v: Value) {
        Value::Scalar(Scalar::Uint(*self))
    }
}

impl ToAutomerge for bool {
    open spec fn to_view(&self) -> ValueView {
        ValueView::Scalar(ScalarView::Boolean(*self))
    }

    fn to_automerge(&self) -> (v: Value) {
        Value::Scalar(Scalar::Boolean(*self))
    }
}

impl<T: ToAutomerge> ToAutomerge for Option<T> {
    open spec fn to_view(&self) -> ValueView {
        match self {
            Some(inner) => inner.to_view(),
            None => ValueView::Scalar(ScalarView::Null),
        }
    }

    fn to_automerge(&self) -> (v: Value) {
        match self {
            Some(inner) => inner.to_automerge(),
            None => Value::Scalar(Scalar::Null),
        }
    }
}

impl<T: ToAutomerge> ToAutomerge for Vec<T> {
    open spec fn to_view(&self) -> ValueView {
        ValueView::Sequence(Seq::new(self@.len(), |i: int| self@[i].to_view()))
    }

    fn to_automerge(&self) -> (v: Value) {
        let mut elems: Vec<Value> = Vec::new();
        let mut i: usize = 0;
        while i < self.len()
            invariant
                i <= self@.len(),
                elems@.len() == i,
                forall|m: int| 0 <= m < i ==> wf_view(value_view(#[trigger] elems@[m])),
                forall|m: int|
                    0 <= m < i ==> value_view(#[trigger] elems@[m]) == self@[m].to_view(),
            decreases self@.len() - i,
        {
            elems.push(self[i].to_automerge());
            i += 1;
        }
        proof {
            crate::value::lemma_elems_view(elems@);
            assert(elems_view(elems@) =~= Seq::new(self@.len(), |i: int| self@[i].to_view()));
        }
        Value::Sequence(elems)
    }
}

/// Relies on String::push, which appends the given character to the end
/// of the string.
pub assume_specification[ String::push ](s: &mut String, ch: char)
    ensures
        final(s)@ == old(s)@.push(ch),
;

impl ToAutomerge for Vec<char> {
    open spec fn to_view(&self) -> ValueView {
        ValueView::Text(Seq::new(self@.len(), |i: int| seq![self@[i]]))
    }

    fn to_automerge(&self) -> (v: Value) {
        let mut gs: Vec<String> = Vec::new();
        let mut i: usize = 0;
        while i < self.len()
            invariant
                i <= self@.len(),
                gs@.len() == i,
                forall|m: int| 0 <= m < i ==> (#[trigger] gs@[m])@ == seq![self@[m]],
            decreases self@.len() - i,
        {
            let mut cluster = String::new();
            cluster.push(self[i]);
            proof {
                assert(cluster@ =~= seq![self@[i as int]]);
            }
            gs.push(cluster);
            i += 1;
        }
        proof {
            assert(text_view(gs@) =~= Seq::new(self@.len(), |i: int| seq![self@[i]]));
        }
        Value::Text(gs)
    }
}

/// Canonical form of an entry list: entries in strictly increasing key
/// order, a later binding of a key replacing an earlier one.
pub open spec fn norm_entries(s: Seq<(Seq<char>, ValueView)>) -> Seq<(Seq<char>, ValueView)>
    decreases s.len(),
{
    if s.len() == 0 {
        Seq::empty()
    } else {
        map_set(norm_entries(s.drop_last()), s.last().0, s.last().1)
    }
}

/// Every entry of `map_set(e, k, v)` is either the new binding or one of
/// the old entries, and the binding for `k` is there.
pub proof fn lemma_map_set_entries(
    e: Seq<(Seq<char>, ValueView)>,
    k: Seq<char>,
    v: ValueView,
)
    ensures
        forall|m: int|
            0 <= m < map_set(e, k, v).len() ==> (#[trigger] map_set(e, k, v)[m]) == (k, v)
                || (exists|n: int| 0 <= n < e.len() && map_set(e, k, v)[m] == e[n]),
    decreases e.len(),
{
    let r = map_set(e, k, v);
    if e.len() == 0 {
    } else if lex_lt(k, e[0].0) {
        assert forall|m: int|
            0 <= m < r.len() implies (#[trigger] r[m]) == (k, v) || (exists|n: int|
            0 <= n < e.len() && r[m] == e[n]) by {
            if m > 0 {
                assert(r[m] == e[m - 1]);
            }
        }
    } else if e[0].0 == k {
        assert forall|m: int|
            0 <= m < r.len() implies (#[trigger] r[m]) == (k, v) || (exists|n: int|
            0 <= n < e.len() && r[m] == e[n]) by {
            if m > 0 {
                assert(r[m] == e.skip(1)[m - 1]);
                assert(e.skip(1)[m - 1] == e[m]);
            }
        }
    } else {
        lemma_map_set_entries(e.skip(1), k, v);
        assert forall|m: int|
            0 <= m < r.len() implies (#[trigger] r[m]) == (k, v) || (exists|n: int|
            0 <= n < e.len() && r[m] == e[n]) by {
            if m == 0 {
                assert(r[0] == e[0]);
            } else {
                assert(r[m] == map_set(e.skip(1), k, v)[m - 1]);
                if map_set(e.skip(1), k, v)[m - 1] != (k, v) {
                    let n = choose|n: int|
                        0 <= n < e.skip(1).len() && map_set(e.skip(1), k, v)[m - 1] == e.skip(
                            1,
                        )[n];
                    assert(e.skip(1)[n] == e[n + 1]);
                }
            }
        }
    }
}

/// `map_set` keeps the strict key order.
pub proof fn lemma_map_set_sorted(e: Seq<(Seq<char>, ValueView)>, k: Seq<char>, v: ValueView)
    requires
        keys_sorted(e),
    ensures
        keys_sorted(map_set(e, k, v)),
    decreases e.len(),
{
    let r = map_set(e, k, v);
    if e.len() == 0 {
    } else if lex_lt(k, e[0].0) {
        assert forall|i: int, j: int|
            0 <= i < j < r.len() implies lex_lt((#[trigger] r[i]).0, (#[trigger] r[j]).0) by {
            if i == 0 {
                assert(r[j] == e[j - 1]);
                if j > 1 {
                    lemma_lex_trans(k, e[0].0, e[j - 1].0);
                }
            } else {
                assert(r[i] == e[i - 1]);
                assert(r[j] == e[j - 1]);
            }
        }
    } else if e[0].0 == k {
        assert forall|i: int, j: int|
            0 <= i < j < r.len() implies lex_lt((#[trigger] r[i]).0, (#[trigger] r[j]).0) by {
            if i == 0 {
                assert(r[j] == e.skip(1)[j - 1]);
                assert(e.skip(1)[j - 1] == e[j]);
            } else {
                assert(r[i] == e.skip(1)[i - 1]);
                assert(r[j] == e.skip(1)[j - 1]);
                assert(e.skip(1)[i - 1] == e[i]);
                assert(e.skip(1)[j - 1] == e[j]);
            }
        }
    } else {
        lemma_lex_total(e[0].0, k);
        assert(lex_lt(e[0].0, k));
        assert(keys_sorted(e.skip(1))) by {
            assert forall|i: int, j: int|
                0 <= i < j < e.skip(1).len() implies lex_lt(
                (#[trigger] e.skip(1)[i]).0,
                (#[trigger] e.skip(1)[j]).0,
            ) by {
                assert(e.skip(1)[i] == e[i + 1]);
                assert(e.skip(1)[j] == e[j + 1]);
            }
        }
        lemma_map_set_sorted(e.skip(1), k, v);
        lemma_map_set_entries(e.skip(1), k, v);
        assert forall|i: int, j: int|
            0 <= i < j < r.len() implies lex_lt((#[trigger] r[i]).0, (#[trigger] r[j]).0) by {
            if i == 0 {
                assert(r[j] == map_set(e.skip(1), k, v)[j - 1]);
                if r[j] == (k, v) {
                } else {
                    let n = choose|n: int|
                        0 <= n < e.skip(1).len() && map_set(e.skip(1), k, v)[j - 1] == e.skip(
                            1,
                        )[n];
                    assert(e.skip(1)[n] == e[n + 1]);
                }
            } else {
                assert(r[i] == map_set(e.skip(1), k, v)[i - 1]);
                assert(r[j] == map_set(e.skip(1), k, v)[j - 1]);
            }
        }
    }
}

/// The canonical form of any entry list is strictly ordered, and each of
/// its entries is one of the source entries.
pub proof fn lemma_norm_entries(s: Seq<(Seq<char>, ValueView)>)
    ensures
        keys_sorted(norm_entries(s)),
        forall|m: int|
            0 <= m < norm_entries(s).len() ==> exists|n: int|
                0 <= n < s.len() && #[trigger] norm_entries(s)[m] == s[n],
    decreases s.len(),
{
    if s.len() > 0 {
        lemma_norm_entries(s.drop_last());
        lemma_map_set_sorted(norm_entries(s.drop_last()), s.last().0, s.last().1);
        lemma_map_set_entries(norm_entries(s.drop_last()), s.last().0, s.last().1);
        assert forall|m: int|
            0 <= m < norm_entries(s).len() implies exists|n: int|
            0 <= n < s.len() && #[trigger] norm_entries(s)[m] == s[n] by {
            if norm_entries(s)[m] == (s.last().0, s.last().1) {
                assert(s[s.len() - 1] == (s.last().0, s.last().1));
            } else {
                let q = choose|q: int|
                    0 <= q < norm_entries(s.drop_last()).len() && norm_entries(s)[m]
                        == norm_entries(s.drop_last())[q];
                let n = choose|n: int|
                    0 <= n < s.drop_last().len() && norm_entries(s.drop_last())[q] == s.drop_last(
                    )[n];
                assert(s.drop_last()[n] == s[n]);
            }
        }
    }
}

/// Build a map node from a list of entries.  The result is canonical: keys
/// stand in strictly increasing order, and when a key is bound twice the
/// later binding wins.  The node is well-formed whenever every entry value
/// is.
pub fn map_value(entries: Vec<(String, Value)>, kind: MapKind) -> (r: Value)
    ensures
        r@ == ValueView::Mapping(norm_entries(entries_view(entries@)), kind),
        (forall|m: int|
            0 <= m < entries@.len() ==> wf_view(value_view((#[trigger] entries@[m]).1)))
            ==> wf_view(r@),
{
    let ghost src = entries@;
    proof {
        lemma_entries_view(src);
    }
    let ghost full = entries_view(src);
    let mut rest = entries;
    let mut acc: Vec<(String, Value)> = Vec::new();
    let ghost done: int = 0;
    proof {
        assert(entries_view(acc@) =~= Seq::<(Seq<char>, ValueView)>::empty());
        assert(full.take(0) =~= Seq::<(Seq<char>, ValueView)>::empty());
        assert(entries_view(rest@) =~= full.skip(0));
    }
    while rest.len() > 0
        invariant
            0 <= done <= full.len(),
            done + rest@.len() == full.len(),
            full == entries_view(src),
            full.len() == src.len(),
            forall|n: int| 0 <= n < src.len() ==> full[n] == (src[n].0@, value_view(src[n].1)),
            entries_view(acc@) == norm_entries(full.take(done)),
            entries_view(rest@) == full.skip(done),
        decreases rest@.len(),
    {
        proof {
            lemma_entries_view(rest@);
        }
        let ghost rest0 = rest@;
        let (k, v) = rest.remove(0);
        let ghost kv = k@;
        let ghost vv = value_view(v);
        proof {
            assert(entries_view(rest0)[0] == (kv, vv));
            assert(full[done] == (kv, vv));
            lemma_entries_view(rest@);
            assert(entries_view(rest@) =~= full.skip(done + 1)) by {
                assert forall|m: int|
                    0 <= m < rest@.len() implies entries_view(rest@)[m] == full.skip(
                    done + 1,
                )[m] by {
                    assert(rest@[m] == rest0[m + 1]);
                    assert(entries_view(rest0)[m + 1] == full.skip(done)[m + 1]);
                }
            }
        }
        acc = entries_set(acc, k, v);
        proof {
            assert(full.take(done + 1).drop_last() =~= full.take(done));
            assert(full.take(done + 1).last() == full[done]);
            assert(norm_entries(full.take(done + 1)) == map_set(
                norm_entries(full.take(done)),
                kv,
                vv,
            ));
            done = done + 1;
        }
    }
    proof {
        assert(full.take(done) =~= full);
        lemma_norm_entries(full);
        if forall|m: int| 0 <= m < src.len() ==> wf_view(value_view((#[trigger] src[m]).1)) {
            assert forall|m: int|
                0 <= m < norm_entries(full).len() implies wf_view(
                (#[trigger] norm_entries(full)[m]).1,
            ) by {
                let n = choose|n: int|
                    0 <= n < full.len() && norm_entries(full)[m] == full[n];
                assert(full[n] == (src[n].0@, value_view(src[n].1)));
            }
        }
    }
    Value::Mapping(acc, kind)
}

pub uninterp spec fn graphemes_of(s: Seq<char>) -> Seq<Seq<char>>;

/// Relies on unicode_segmentation::UnicodeSegmentation::graphemes (with
/// extended clusters): the split depends on the characters alone, and the
/// clusters concatenate back to the input string.
#[verifier::external_body]
fn split_graphemes(s: &str) -> (r: Vec<String>)
    ensures
        text_view(r@) == graphemes_of(s@),
        text_view(r@).flatten() == s@,
        s@.len() == 0 ==> r@.len() == 0,
{
    s.graphemes(true).map(|g| g.to_owned()).collect()
}

/// A text node holding the extended grapheme clusters of `s`, the unit at
/// which text is compared and diffed.
pub fn text_value(s: &str) -> (v: Value)
    ensures
        v@ == ValueView::Text(graphemes_of(s@)),
        wf_view(v@),
{
    Value::Text(split_graphemes(s))
}

} // verus!
