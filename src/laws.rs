//! Properties that relate several operations of the list, stated over the
//! sequences that the operations' contracts speak of.
use vstd::prelude::*;

use crate::node::NodeHandle;

verus! {

/// The values of a list built from an empty one by appending each of `vs`
/// in turn: each `append` pushes its value at the end.
pub open spec fn appended_in_turn<T>(vs: Seq<T>) -> Seq<T>
    decreases vs.len(),
{
    if vs.len() == 0 {
        Seq::empty()
    } else {
        appended_in_turn(vs.drop_last()).push(vs.last())
    }
}

/// What a cursor with `s` left hands out when `next` is called until it
/// returns `None`: each call yields the first value left and drops it.
pub open spec fn taken_from_front<T>(s: Seq<T>) -> Seq<T>
    decreases s.len(),
{
    if s.len() == 0 {
        Seq::empty()
    } else {
        seq![s[0]] + taken_from_front(s.drop_first())
    }
}

/// What a cursor with `s` left hands out when `next_back` is called until
/// it returns `None`: each call yields the last value left and drops it.
pub open spec fn taken_from_back<T>(s: Seq<T>) -> Seq<T>
    decreases s.len(),
{
    if s.len() == 0 {
        Seq::empty()
    } else {
        seq![s.last()] + taken_from_back(s.drop_last())
    }
}

proof fn lemma_appended_in_turn<T>(vs: Seq<T>)
    ensures
        appended_in_turn(vs) == vs,
    decreases vs.len(),
{
    if vs.len() > 0 {
        lemma_appended_in_turn(vs.drop_last());
        assert(vs.drop_last().push(vs.last()) =~= vs);
    }
}

proof fn lemma_taken_from_front<T>(s: Seq<T>)
    ensures
        taken_from_front(s) == s,
    decreases s.len(),
{
    if s.len() > 0 {
        lemma_taken_from_front(s.drop_first());
        assert(seq![s[0]] + s.drop_first() =~= s);
    }
}

proof fn lemma_taken_from_back<T>(s: Seq<T>)
    ensures
        taken_from_back(s) == s.reverse(),
    decreases s.len(),
{
    if s.len() > 0 {
        lemma_taken_from_back(s.drop_last());
        assert(seq![s.last()] + s.drop_last().reverse() =~= s.reverse());
    }
}

/// Appending the values of `vs` one after another to an empty list, then
/// walking it from the head, yields exactly `vs`; walking it from the tail
/// yields `vs` reversed.
pub proof fn lemma_order_preserved<T>(vs: Seq<T>)
    ensures
        appended_in_turn(vs) == vs,
        taken_from_front(appended_in_turn(vs)) == vs,
        taken_from_back(appended_in_turn(vs)) == vs.reverse(),
{
    lemma_appended_in_turn(vs);
    lemma_taken_from_front(vs);
    lemma_taken_from_back(vs);
}

/// Removing the only node of a one-node list leaves no values and no
/// handles, so no handle names a node of it any more.
pub proof fn lemma_remove_only<T>(vals: Seq<T>, hs: Seq<NodeHandle>)
    requires
        vals.len() == 1,
        hs.len() == 1,
    ensures
        vals.remove(hs.index_of(hs[0])) == Seq::<T>::empty(),
        hs.remove(hs.index_of(hs[0])) == Seq::<NodeHandle>::empty(),
        forall|h: NodeHandle| !(#[trigger] hs.remove(hs.index_of(hs[0])).contains(h)),
{
    let i = hs.index_of(hs[0]);
    assert(hs[0] == hs[0]);
    assert(0 <= i < 1);
    assert(vals.remove(i) =~= Seq::<T>::empty());
    assert(hs.remove(i) =~= Seq::<NodeHandle>::empty());
}

/// The values and handles of a list with values `vals` and handles `hs`
/// after `remove` is called with each handle of `gone` in turn: each call
/// drops the position of its handle from both.
pub open spec fn after_removals<T>(vals: Seq<T>, hs: Seq<NodeHandle>, gone: Seq<NodeHandle>) -> (Seq<T>, Seq<NodeHandle>)
    decreases gone.len(),
{
    if gone.len() == 0 {
        (vals, hs)
    } else {
        let before = after_removals(vals, hs, gone.drop_last());
        let i = before.1.index_of(gone.last());
        (before.0.remove(i), before.1.remove(i))
    }
}

/// The values of `vals` whose handle, at the same position of `hs`, is not
/// in `gone`, in the order they had.
pub open spec fn kept<T>(vals: Seq<T>, hs: Seq<NodeHandle>, gone: Set<NodeHandle>) -> Seq<T>
    decreases vals.len(),
{
    if vals.len() == 0 || hs.len() == 0 {
        Seq::empty()
    } else {
        let rest = kept(vals.drop_last(), hs.drop_last(), gone);
        if gone.contains(hs.last()) {
            rest
        } else {
            rest.push(vals.last())
        }
    }
}

proof fn lemma_kept_len<T>(vals: Seq<T>, hs: Seq<NodeHandle>, gone: Set<NodeHandle>)
    requires
        vals.len() == hs.len(),
    ensures
        kept(vals, hs, gone).len() == kept(hs, hs, gone).len(),
    decreases vals.len(),
{
    if vals.len() > 0 {
        lemma_kept_len(vals.drop_last(), hs.drop_last(), gone);
    }
}

proof fn lemma_kept_members(hs: Seq<NodeHandle>, gone: Set<NodeHandle>)
    requires
        hs.no_duplicates(),
    ensures
        kept(hs, hs, gone).no_duplicates(),
        forall|x: NodeHandle| #[trigger] kept(hs, hs, gone).contains(x) <==> (hs.contains(x) && !gone.contains(x)),
    decreases hs.len(),
{
    if hs.len() > 0 {
        let d = hs.drop_last();
        lemma_kept_members(d, gone);
        let rest = kept(d, d, gone);
        assert forall|x: NodeHandle| hs.contains(x) <==> (d.contains(x) || x == hs.last()) by {
            if hs.contains(x) {
                let i = choose|i: int| 0 <= i < hs.len() && hs[i] == x;
                if i < hs.len() - 1 {
                    assert(d[i] == x);
                }
            }
            if d.contains(x) {
                let i = choose|i: int| 0 <= i < d.len() && d[i] == x;
                assert(hs[i] == x);
            }
        }
        assert(!d.contains(hs.last())) by {
            if d.contains(hs.last()) {
                let i = choose|i: int| 0 <= i < d.len() && d[i] == hs.last();
                assert(hs[i] == hs[hs.len() - 1]);
            }
        }
        if !gone.contains(hs.last()) {
            let r = rest.push(hs.last());
            assert forall|x: NodeHandle| #[trigger] r.contains(x) <==> (rest.contains(x) || x == hs.last()) by {
                if r.contains(x) {
                    let i = choose|i: int| 0 <= i < r.len() && r[i] == x;
                    if i < rest.len() {
                        assert(rest[i] == x);
                    }
                }
                if rest.contains(x) {
                    let i = choose|i: int| 0 <= i < rest.len() && rest[i] == x;
                    assert(r[i] == x);
                }
                if x == hs.last() {
                    assert(r[rest.len() as int] == x);
                }
            }
            assert forall|i: int, j: int| 0 <= i < r.len() && 0 <= j < r.len() && i != j implies r[i] != r[j] by {
                if i < rest.len() && j == rest.len() {
                    assert(rest.contains(r[i]));
                }
                if j < rest.len() && i == rest.len() {
                    assert(rest.contains(r[j]));
                }
            }
        }
    }
}

/// In a sequence without duplicates, the position of a member is the one
/// at which it stands.
proof fn lemma_index_of_unique(s: Seq<NodeHandle>, i: int)
    requires
        s.no_duplicates(),
        0 <= i < s.len(),
    ensures
        s.index_of(s[i]) == i,
{
    assert(s.contains(s[i]));
}

/// One removal: dropping the position of `g` from what is kept is the same
/// as keeping one handle fewer.
proof fn lemma_kept_step<T>(vals: Seq<T>, hs: Seq<NodeHandle>, gone: Set<NodeHandle>, g: NodeHandle)
    requires
        vals.len() == hs.len(),
        hs.no_duplicates(),
        hs.contains(g),
        !gone.contains(g),
    ensures
        kept(vals, hs, gone).remove(kept(hs, hs, gone).index_of(g)) == kept(vals, hs, gone.insert(g)),
        0 <= kept(hs, hs, gone).index_of(g) < kept(vals, hs, gone).len(),
    decreases vals.len(),
{
    let d = hs.drop_last();
    let dv = vals.drop_last();
    let kh = kept(hs, hs, gone);
    lemma_kept_members(hs, gone);
    lemma_kept_members(d, gone);
    lemma_kept_len(vals, hs, gone);
    lemma_kept_len(dv, d, gone);
    assert(kh.contains(g));
    let i = kh.index_of(g);
    let last = hs.last();
    let rest_v = kept(dv, d, gone);
    let rest_h = kept(d, d, gone);
    if last == g {
        assert(!d.contains(g)) by {
            if d.contains(g) {
                let j = choose|j: int| 0 <= j < d.len() && d[j] == g;
                assert(hs[j] == hs[hs.len() - 1]);
            }
        }
        lemma_kept_without(dv, d, gone, g);
        assert(kh == rest_h.push(g));
        assert(kh[rest_h.len() as int] == g);
        lemma_index_of_unique(kh, rest_h.len() as int);
        assert(kept(vals, hs, gone).remove(i) =~= rest_v);
    } else {
        assert(d.contains(g)) by {
            let j = choose|j: int| 0 <= j < hs.len() && hs[j] == g;
            assert(j < hs.len() - 1);
            assert(d[j] == g);
        }
        assert(d.no_duplicates()) by {
            assert forall|a: int, b: int| 0 <= a < d.len() && 0 <= b < d.len() && a != b implies d[a] != d[b] by {
                assert(hs[a] == d[a] && hs[b] == d[b]);
            }
        }
        lemma_kept_step(dv, d, gone, g);
        let j = rest_h.index_of(g);
        assert(rest_h[j] == g);
        if gone.contains(last) {
            assert(kh == rest_h);
        } else {
            assert(kh == rest_h.push(last));
            assert(kh[j] == g);
            lemma_index_of_unique(kh, j);
            assert(rest_v.push(vals.last()).remove(j) =~= rest_v.remove(j).push(vals.last()));
        }
    }
}

/// Keeping all but `g` changes nothing when `g` is not among the handles.
proof fn lemma_kept_without<T>(vals: Seq<T>, hs: Seq<NodeHandle>, gone: Set<NodeHandle>, g: NodeHandle)
    requires
        vals.len() == hs.len(),
        !hs.contains(g),
    ensures
        kept(vals, hs, gone.insert(g)) == kept(vals, hs, gone),
    decreases vals.len(),
{
    if vals.len() > 0 {
        assert(!hs.drop_last().contains(g)) by {
            if hs.drop_last().contains(g) {
                let j = choose|j: int| 0 <= j < hs.drop_last().len() && hs.drop_last()[j] == g;
                assert(hs[j] == g);
            }
        }
        lemma_kept_without(vals.drop_last(), hs.drop_last(), gone, g);
        assert(hs[hs.len() - 1] == hs.last());
    }
}

proof fn lemma_after_removals<T>(vals: Seq<T>, hs: Seq<NodeHandle>, gone: Seq<NodeHandle>)
    requires
        vals.len() == hs.len(),
        hs.no_duplicates(),
        gone.no_duplicates(),
        forall|j: int| 0 <= j < gone.len() ==> hs.contains(#[trigger] gone[j]),
    ensures
        after_removals(vals, hs, gone) == (kept(vals, hs, gone.to_set()), kept(hs, hs, gone.to_set())),
        kept(vals, hs, gone.to_set()).len() == vals.len() - gone.len(),
    decreases gone.len(),
{
    if gone.len() == 0 {
        lemma_kept_all(vals, hs);
        lemma_kept_all(hs, hs);
        assert(gone.to_set() =~= Set::<NodeHandle>::empty());
    } else {
        let pre = gone.drop_last();
        let g = gone.last();
        assert(pre.no_duplicates()) by {
            assert forall|a: int, b: int| 0 <= a < pre.len() && 0 <= b < pre.len() && a != b implies pre[a] != pre[b] by {
                assert(gone[a] == pre[a] && gone[b] == pre[b]);
            }
        }
        assert forall|j: int| 0 <= j < pre.len() implies hs.contains(#[trigger] pre[j]) by {
            assert(gone[j] == pre[j]);
        }
        lemma_after_removals(vals, hs, pre);
        assert(hs.contains(gone[gone.len() - 1]));
        assert(!pre.to_set().contains(g)) by {
            if pre.contains(g) {
                let j = choose|j: int| 0 <= j < pre.len() && pre[j] == g;
                assert(gone[j] == gone[gone.len() - 1]);
            }
        }
        assert(gone.to_set() =~= pre.to_set().insert(g)) by {
            assert forall|x: NodeHandle| gone.to_set().contains(x) <==> pre.to_set().insert(g).contains(x) by {
                if gone.contains(x) {
                    let j = choose|j: int| 0 <= j < gone.len() && gone[j] == x;
                    if j < pre.len() {
                        assert(pre[j] == x);
                    }
                }
                if pre.contains(x) {
                    let j = choose|j: int| 0 <= j < pre.len() && pre[j] == x;
                    assert(gone[j] == x);
                }
                if x == g {
                    assert(gone[gone.len() - 1] == x);
                }
            }
        }
        lemma_kept_step(vals, hs, pre.to_set(), g);
        lemma_kept_step(hs, hs, pre.to_set(), g);
        lemma_kept_len(vals, hs, pre.to_set());
    }
}

proof fn lemma_kept_all<T>(vals: Seq<T>, hs: Seq<NodeHandle>)
    requires
        vals.len() == hs.len(),
    ensures
        kept(vals, hs, Set::empty()) == vals,
    decreases vals.len(),
{
    if vals.len() > 0 {
        lemma_kept_all(vals.drop_last(), hs.drop_last());
        assert(vals.drop_last().push(vals.last()) =~= vals);
    }
}

/// Removing `gone.len()` distinct nodes of a list, one after another, in
/// any order, leaves that many values fewer, and the values left are those
/// of the nodes not removed, in the order they had.
pub proof fn lemma_removals_keep_order<T>(vals: Seq<T>, hs: Seq<NodeHandle>, gone: Seq<NodeHandle>)
    requires
        vals.len() == hs.len(),
        hs.no_duplicates(),
        gone.no_duplicates(),
        forall|j: int| 0 <= j < gone.len() ==> hs.contains(#[trigger] gone[j]),
    ensures
        after_removals(vals, hs, gone).0.len() == vals.len() - gone.len(),
        after_removals(vals, hs, gone).0 == kept(vals, hs, gone.to_set()),
{
    lemma_after_removals(vals, hs, gone);
}

} // verus!
