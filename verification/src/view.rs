//! The projection: flattening the tree into the visible rows.
//!
//! A depth-first pre-order walk starts at the root with depth `0`.
//! Every node reached is emitted; a directory's children follow it at
//! one more depth, in sorted order, but only while the directory is a
//! member of the expanded set. The projection is recomputed on demand
//! and never mutates the tree.

use crate::model::Tree;
use crate::order::{lemma_sort_ids_multiset, sort_children, sorted_children, SortMode};
use vstd::prelude::*;

verus! {

/// One visible row: the arena index of the node it shows and the depth
/// at which it is drawn.
#[derive(Clone, Copy, PartialEq, Eq, Structural, Debug)]
pub struct ViewItem {
    /// Arena index of the node this row shows.
    pub node: usize,
    /// Depth of the row; the root is at depth `0`.
    pub depth: usize,
}

/// The rows of a view, as pairs of mathematical integers.
pub open spec fn view_ids(s: Seq<ViewItem>) -> Seq<(int, int)> {
    s.map_values(|v: ViewItem| (v.node as int, v.depth as int))
}

/// The expanded set held by the session, as a set of node indices.
pub open spec fn exp_set(s: Seq<usize>) -> Set<int> {
    s.map_values(|x: usize| x as int).to_set()
}

/// Whether the sorted children of `i` all lie strictly between `i` and
/// the arena's size; holds for every node of a well-formed tree.
pub open spec fn sorted_kids_ok(t: &Tree, m: SortMode, i: int) -> bool {
    forall|k: int|
        0 <= k < sorted_children(t, m, i).len() ==> i < #[trigger] sorted_children(t, m, i)[k]
            < t.n()
}

/// The rows contributed by the subtree of node `i`, drawn at depth `d`:
/// the node itself, then, if it is an expanded directory, its children's
/// subtrees in sorted order.
pub open spec fn flatten_rec(t: &Tree, exp: Set<int>, m: SortMode, i: int, d: int) -> Seq<
    (int, int),
>
    decreases t.n() - i, 1int, 0int,
{
    if 0 <= i < t.n() {
        seq![(i, d)] + if t.is_dir(i) && exp.contains(i) && sorted_kids_ok(t, m, i) {
            flatten_kids(t, exp, m, i, 0, d + 1)
        } else {
            Seq::empty()
        }
    } else {
        Seq::empty()
    }
}

/// The rows contributed by the children of `i` from child position `k`
/// on, each drawn at depth `d`.
pub open spec fn flatten_kids(t: &Tree, exp: Set<int>, m: SortMode, i: int, k: int, d: int) -> Seq<
    (int, int),
>
    decreases t.n() - i, 0int, sorted_children(t, m, i).len() - k,
{
    if 0 <= i < t.n() && sorted_kids_ok(t, m, i) && 0 <= k < sorted_children(t, m, i).len() {
        flatten_rec(t, exp, m, sorted_children(t, m, i)[k], d) + flatten_kids(t, exp, m, i, k + 1, d)
    } else {
        Seq::empty()
    }
}

/// The rows contributed by the children of `i` before child position
/// `k`; the prefix counterpart of [`flatten_kids`].
pub open spec fn flatten_kids_to(t: &Tree, exp: Set<int>, m: SortMode, i: int, k: int, d: int) -> Seq<
    (int, int),
>
    decreases k,
{
    if 0 <= i < t.n() && sorted_kids_ok(t, m, i) && 0 < k && k <= sorted_children(t, m, i).len() {
        flatten_kids_to(t, exp, m, i, k - 1, d) + flatten_rec(
            t,
            exp,
            m,
            sorted_children(t, m, i)[k - 1],
            d,
        )
    } else {
        Seq::empty()
    }
}

/// The whole visible view: the walk started at the root.
pub open spec fn flatten_view_spec(t: &Tree, exp: Set<int>, m: SortMode) -> Seq<(int, int)> {
    flatten_rec(t, exp, m, 0, 0)
}

/// In a well-formed tree, every sorted child list is in bounds.
pub proof fn lemma_sorted_kids_ok(t: &Tree, m: SortMode, i: int)
    requires
        t.wf(),
        0 <= i < t.n(),
    ensures
        sorted_kids_ok(t, m, i),
{
    let cs = t.children_of(i);
    let out = sorted_children(t, m, i);
    lemma_sort_ids_multiset(t, m, cs);
    assert forall|k: int| 0 <= k < out.len() implies i < #[trigger] out[k] < t.n() by {
        assert(out.contains(out[k]));
        assert(cs.contains(out[k]));
        let k2 = choose|k2: int| 0 <= k2 < cs.len() && cs[k2] == out[k];
        assert(i < cs[k2] < t.n());
    }
}

/// The prefix and suffix of the children's rows together form the whole.
pub proof fn lemma_flatten_kids_join(t: &Tree, exp: Set<int>, m: SortMode, i: int, k: int, d: int)
    requires
        0 <= i < t.n(),
        sorted_kids_ok(t, m, i),
        0 <= k <= sorted_children(t, m, i).len(),
    ensures
        flatten_kids_to(t, exp, m, i, k, d) + flatten_kids(t, exp, m, i, k, d) == flatten_kids(
            t,
            exp,
            m,
            i,
            0,
            d,
        ),
    decreases k,
{
    if k == 0 {
        assert(flatten_kids_to(t, exp, m, i, 0, d) + flatten_kids(t, exp, m, i, 0, d)
            =~= flatten_kids(t, exp, m, i, 0, d));
    } else {
        lemma_flatten_kids_join(t, exp, m, i, k - 1, d);
        let pre = flatten_kids_to(t, exp, m, i, k - 1, d);
        let at = flatten_rec(t, exp, m, sorted_children(t, m, i)[k - 1], d);
        assert(flatten_kids(t, exp, m, i, k - 1, d) == at + flatten_kids(t, exp, m, i, k, d));
        assert((pre + at) + flatten_kids(t, exp, m, i, k, d) =~= pre + (at + flatten_kids(
            t,
            exp,
            m,
            i,
            k,
            d,
        )));
    }
}

/// Whether a node of the arena occurs in the view at any depth.
pub open spec fn view_contains_node(v: Seq<(int, int)>, c: int) -> bool {
    exists|k: int| 0 <= k < v.len() && (#[trigger] v[k]).0 == c
}

/// Whether `a` is an ancestor of `c` (or `c` itself), following the
/// parent links.
pub open spec fn is_ancestor(t: &Tree, a: int, c: int) -> bool
    decreases c,
{
    if c == a {
        true
    } else if 0 < c < t.n() && 0 <= t.parent_of(c) < c {
        is_ancestor(t, a, t.parent_of(c))
    } else {
        false
    }
}

/// Whether every ancestor of `c` strictly below `i` — `i` itself
/// included, `c` excluded — is expanded; requires `i` to be an ancestor
/// of `c` at all.
pub open spec fn anc_expanded(t: &Tree, exp: Set<int>, i: int, c: int) -> bool
    decreases c,
{
    if c == i {
        true
    } else if 0 < c < t.n() && 0 <= t.parent_of(c) < c {
        exp.contains(t.parent_of(c)) && anc_expanded(t, exp, i, t.parent_of(c))
    } else {
        false
    }
}

/// Membership in a concatenation of row sequences.
proof fn lemma_view_contains_concat(a: Seq<(int, int)>, b: Seq<(int, int)>, c: int)
    ensures
        view_contains_node(a + b, c) == (view_contains_node(a, c) || view_contains_node(b, c)),
{
    if view_contains_node(a, c) {
        let k = choose|k: int| 0 <= k < a.len() && (#[trigger] a[k]).0 == c;
        assert((a + b)[k].0 == c);
    }
    if view_contains_node(b, c) {
        let k = choose|k: int| 0 <= k < b.len() && (#[trigger] b[k]).0 == c;
        assert((a + b)[a.len() + k].0 == c);
    }
    if view_contains_node(a + b, c) {
        let k = choose|k: int| 0 <= k < (a + b).len() && (#[trigger] (a + b)[k]).0 == c;
        if k < a.len() {
            assert(a[k].0 == c);
        } else {
            assert(b[k - a.len()].0 == c);
        }
    }
}

/// Chains of expanded ancestors compose.
proof fn lemma_anc_trans(t: &Tree, exp: Set<int>, a: int, b: int, c: int)
    requires
        anc_expanded(t, exp, b, c),
        anc_expanded(t, exp, a, b),
    ensures
        anc_expanded(t, exp, a, c),
    decreases c,
{
    if c != b && c != a {
        let p = t.parent_of(c);
        lemma_anc_trans(t, exp, a, b, p);
    }
}

/// A node other than `i` whose ancestors up to `i` are all expanded is
/// reached through one of `i`'s children, whose own chain up to that
/// child is expanded too.
proof fn lemma_anc_find_child(t: &Tree, exp: Set<int>, i: int, c: int)
    requires
        t.wf(),
        0 <= i < t.n(),
        anc_expanded(t, exp, i, c),
        c != i,
    ensures
        exp.contains(i),
        t.is_dir(i),
        exists|ch: int|
            #[trigger] t.children_of(i).contains(ch) && anc_expanded(t, exp, ch, c),
    decreases c,
{
    let p = t.parent_of(c);
    if p == i {
        assert(t.children_of(i).contains(c));
        if !t.is_dir(i) {
            assert(t.children_of(i).len() == 0);
            assert(false);
        }
        assert(anc_expanded(t, exp, c, c));
    } else {
        lemma_anc_find_child(t, exp, i, p);
        let ch = choose|ch: int|
            #[trigger] t.children_of(i).contains(ch) && anc_expanded(t, exp, ch, p);
        if c != ch {
            assert(anc_expanded(t, exp, ch, c));
        }
        assert(t.children_of(i).contains(ch) && anc_expanded(t, exp, ch, c));
    }
}

/// Whether some child of `i` at position `k` or later roots an
/// expanded chain down to `c`.
pub open spec fn anc_from_kids(t: &Tree, exp: Set<int>, m: SortMode, i: int, k: int, c: int) -> bool {
    exists|k2: int|
        k <= k2 < sorted_children(t, m, i).len() && anc_expanded(
            t,
            exp,
            #[trigger] sorted_children(t, m, i)[k2],
            c,
        )
}

/// Which nodes the subtree rows of `i` contain: exactly those whose
/// ancestors up to `i` are all expanded.
proof fn lemma_flatten_rec_members(t: &Tree, exp: Set<int>, m: SortMode, i: int, d: int)
    requires
        t.wf(),
        0 <= i < t.n(),
    ensures
        forall|c: int|
            #![trigger view_contains_node(flatten_rec(t, exp, m, i, d), c)]
            #![trigger anc_expanded(t, exp, i, c)]
            view_contains_node(flatten_rec(t, exp, m, i, d), c) <==> anc_expanded(t, exp, i, c),
    decreases t.n() - i, 1int, 0int,
{
    lemma_sorted_kids_ok(t, m, i);
    lemma_flatten_kids_members(t, exp, m, i, 0, d + 1);
    let v = flatten_rec(t, exp, m, i, d);
    let own = seq![(i, d)];
    let rest: Seq<(int, int)> = if t.is_dir(i) && exp.contains(i) && sorted_kids_ok(t, m, i) {
        flatten_kids(t, exp, m, i, 0, d + 1)
    } else {
        Seq::empty()
    };
    assert(v == own + rest);
    assert forall|c: int| view_contains_node(v, c) implies anc_expanded(t, exp, i, c) by {
        lemma_view_contains_concat(own, rest, c);
        if view_contains_node(own, c) {
            assert(own[0].0 == c);
            assert(c == i);
        } else {
            assert(view_contains_node(rest, c));
            assert(t.is_dir(i) && exp.contains(i));
            assert(anc_from_kids(t, exp, m, i, 0, c));
            let k2 = choose|k2: int|
                0 <= k2 < sorted_children(t, m, i).len() && anc_expanded(
                    t,
                    exp,
                    #[trigger] sorted_children(t, m, i)[k2],
                    c,
                );
            let ch = sorted_children(t, m, i)[k2];
            lemma_sort_ids_multiset(t, m, t.children_of(i));
            assert(sorted_children(t, m, i).contains(ch));
            assert(t.children_of(i).contains(ch));
            let kc = choose|kc: int|
                0 <= kc < t.children_of(i).len() && #[trigger] t.children_of(i)[kc] == ch;
            assert(t.parent_of(ch) == i && i < ch < t.n());
            assert(anc_expanded(t, exp, i, i));
            assert(anc_expanded(t, exp, i, ch));
            lemma_anc_trans(t, exp, i, ch, c);
        }
    }
    assert forall|c: int| anc_expanded(t, exp, i, c) implies view_contains_node(v, c) by {
        lemma_view_contains_concat(own, rest, c);
        if c == i {
            assert(own[0].0 == c);
            assert(view_contains_node(own, c));
        } else {
            lemma_anc_find_child(t, exp, i, c);
            let ch = choose|ch: int|
                #[trigger] t.children_of(i).contains(ch) && anc_expanded(t, exp, ch, c);
            lemma_sort_ids_multiset(t, m, t.children_of(i));
            assert(sorted_children(t, m, i).contains(ch));
            let k2 = choose|k2: int|
                0 <= k2 < sorted_children(t, m, i).len() && #[trigger] sorted_children(
                    t,
                    m,
                    i,
                )[k2] == ch;
            assert(anc_expanded(t, exp, sorted_children(t, m, i)[k2], c));
            assert(anc_from_kids(t, exp, m, i, 0, c));
            assert(view_contains_node(rest, c));
        }
    }
}

/// Which nodes the rows of children `k` onward contain.
proof fn lemma_flatten_kids_members(t: &Tree, exp: Set<int>, m: SortMode, i: int, k: int, d: int)
    requires
        t.wf(),
        0 <= i < t.n(),
        sorted_kids_ok(t, m, i),
        0 <= k,
    ensures
        forall|c: int|
            #![trigger view_contains_node(flatten_kids(t, exp, m, i, k, d), c)]
            #![trigger anc_from_kids(t, exp, m, i, k, c)]
            view_contains_node(flatten_kids(t, exp, m, i, k, d), c) <==> anc_from_kids(
                t,
                exp,
                m,
                i,
                k,
                c,
            ),
    decreases t.n() - i, 0int, sorted_children(t, m, i).len() - k,
{
    let cs = sorted_children(t, m, i);
    if k < cs.len() {
        let ch = cs[k];
        lemma_flatten_rec_members(t, exp, m, ch, d);
        lemma_flatten_kids_members(t, exp, m, i, k + 1, d);
        let head = flatten_rec(t, exp, m, ch, d);
        let tail = flatten_kids(t, exp, m, i, k + 1, d);
        assert forall|c: int|
            view_contains_node(flatten_kids(t, exp, m, i, k, d), c) implies anc_from_kids(
            t,
            exp,
            m,
            i,
            k,
            c,
        ) by {
            lemma_view_contains_concat(head, tail, c);
            if view_contains_node(head, c) {
                assert(anc_expanded(t, exp, cs[k], c));
            } else {
                assert(anc_from_kids(t, exp, m, i, k + 1, c));
                let k2 = choose|k2: int|
                    k + 1 <= k2 < cs.len() && anc_expanded(t, exp, #[trigger] cs[k2], c);
                assert(k <= k2 < cs.len() && anc_expanded(t, exp, cs[k2], c));
            }
        }
        assert forall|c: int| anc_from_kids(t, exp, m, i, k, c) implies view_contains_node(
            flatten_kids(t, exp, m, i, k, d),
            c,
        ) by {
            lemma_view_contains_concat(head, tail, c);
            let k2 = choose|k2: int| k <= k2 < cs.len() && anc_expanded(t, exp, #[trigger] cs[k2], c);
            if k2 == k {
                assert(view_contains_node(head, c));
            } else {
                assert(k + 1 <= k2 < cs.len() && anc_expanded(t, exp, cs[k2], c));
                assert(anc_from_kids(t, exp, m, i, k + 1, c));
            }
        }
    } else {
        assert forall|c: int| !anc_from_kids(t, exp, m, i, k, c) by {}
        assert(flatten_kids(t, exp, m, i, k, d) =~= Seq::<(int, int)>::empty());
    }
}

/// Projection correctness: a node appears in the view exactly when all
/// of its proper ancestors are members of the expanded set.
pub proof fn lemma_projection_correctness(t: &Tree, exp: Set<int>, m: SortMode)
    requires
        t.wf(),
    ensures
        forall|c: int|
            #![trigger view_contains_node(flatten_view_spec(t, exp, m), c)]
            #![trigger anc_expanded(t, exp, 0, c)]
            view_contains_node(flatten_view_spec(t, exp, m), c) <==> anc_expanded(t, exp, 0, c),
{
    lemma_flatten_rec_members(t, exp, m, 0, 0);
}

/// A visible node's every proper ancestor is expanded.
proof fn lemma_visible_ancestor_expanded(t: &Tree, exp: Set<int>, a: int, c: int)
    requires
        anc_expanded(t, exp, 0, c),
        is_ancestor(t, a, c),
        a != c,
    ensures
        exp.contains(a),
    decreases c,
{
    let p = t.parent_of(c);
    if p == a {
    } else {
        lemma_visible_ancestor_expanded(t, exp, a, p);
    }
}

/// An ancestor never has a larger index than its descendant.
proof fn lemma_ancestor_le(t: &Tree, a: int, x: int)
    requires
        is_ancestor(t, a, x),
    ensures
        a <= x,
    decreases x,
{
    if x != a {
        lemma_ancestor_le(t, a, t.parent_of(x));
    }
}

/// What the expanded chain means: a node's ancestors up to the root
/// are all expanded exactly when every proper ancestor of the node is
/// a member of the expanded set. Together with
/// [`lemma_projection_correctness`] this characterizes visibility.
pub proof fn lemma_projection_ancestors(t: &Tree, exp: Set<int>, c: int)
    requires
        t.wf(),
        0 <= c < t.n(),
    ensures
        anc_expanded(t, exp, 0, c) <==> (forall|a: int|
            #[trigger] is_ancestor(t, a, c) && a != c ==> exp.contains(a)),
    decreases c,
{
    if anc_expanded(t, exp, 0, c) {
        assert forall|a: int| #[trigger] is_ancestor(t, a, c) && a != c implies exp.contains(
            a,
        ) by {
            lemma_visible_ancestor_expanded(t, exp, a, c);
        }
    }
    if (forall|a: int| #[trigger] is_ancestor(t, a, c) && a != c ==> exp.contains(a)) && c != 0 {
        let p = t.parent_of(c);
        assert(0 <= p < c);
        assert(is_ancestor(t, p, p));
        assert(is_ancestor(t, p, c));
        assert(exp.contains(p));
        assert forall|a: int| #[trigger] is_ancestor(t, a, p) && a != p implies exp.contains(
            a,
        ) by {
            lemma_ancestor_le(t, a, p);
            assert(is_ancestor(t, a, c));
        }
        lemma_projection_ancestors(t, exp, p);
        assert(anc_expanded(t, exp, 0, p));
        assert(anc_expanded(t, exp, 0, c));
    }
}

/// A collapsed directory hides its entire subtree: no proper descendant
/// of an unexpanded node appears in the view, whatever the descendants'
/// own membership in the expanded set.
pub proof fn lemma_collapsed_subtree_hidden(t: &Tree, exp: Set<int>, m: SortMode, a: int, c: int)
    requires
        t.wf(),
        is_ancestor(t, a, c),
        a != c,
        !exp.contains(a),
    ensures
        !view_contains_node(flatten_view_spec(t, exp, m), c),
{
    lemma_projection_correctness(t, exp, m);
    if view_contains_node(flatten_view_spec(t, exp, m), c) {
        lemma_visible_ancestor_expanded(t, exp, a, c);
    }
}

/// The expanded chain of a node depends only on memberships below it.
pub proof fn lemma_anc_expanded_agree(t: &Tree, exp1: Set<int>, exp2: Set<int>, i: int, c: int)
    requires
        forall|e: int| 0 <= e < c ==> (exp1.contains(e) <==> exp2.contains(e)),
    ensures
        anc_expanded(t, exp1, i, c) == anc_expanded(t, exp2, i, c),
    decreases c,
{
    if c != i && 0 < c < t.n() && 0 <= t.parent_of(c) < c {
        lemma_anc_expanded_agree(t, exp1, exp2, i, t.parent_of(c));
    }
}

/// Tests whether a node index is a member of the session's expanded
/// list.
pub(crate) fn contains_id(v: &Vec<usize>, x: usize) -> (r: bool)
    ensures
        r == exp_set(v@).contains(x as int),
{
    let mut k: usize = 0;
    while k < v.len()
        invariant
            k <= v@.len(),
            forall|j: int| 0 <= j < k ==> #[trigger] v@[j] != x,
        decreases v@.len() - k,
    {
        if v[k] == x {
            assert(v@.map_values(|e: usize| e as int)[k as int] == x as int);
            return true;
        }
        k += 1;
    }
    proof {
        if exp_set(v@).contains(x as int) {
            let ids = v@.map_values(|e: usize| e as int);
            let j = choose|j: int| 0 <= j < ids.len() && ids[j] == x as int;
            assert(v@[j] != x);
            assert(ids[j] == v@[j] as int);
            assert(false);
        }
    }
    false
}

/// How many rows the subtree of `i` contributes: itself, plus its
/// children's subtrees when it is an expanded directory. Unlike
/// [`flatten_rec`], this walks the children in index order, so it does
/// not depend on the sort mode.
pub open spec fn count_rec(t: &Tree, exp: Set<int>, i: int) -> int
    decreases t.n() - i, 1int, 0int,
{
    if 0 <= i < t.n() {
        1 + if t.is_dir(i) && exp.contains(i) {
            count_kids(t, exp, i, 0)
        } else {
            0
        }
    } else {
        0
    }
}

/// How many rows the children of `i` from position `k` on contribute.
pub open spec fn count_kids(t: &Tree, exp: Set<int>, i: int, k: int) -> int
    decreases t.n() - i, 0int, t.children_of(i).len() - k,
{
    if 0 <= i < t.n() && 0 <= k < t.children_of(i).len() && i < t.children_of(i)[k] < t.n() {
        count_rec(t, exp, t.children_of(i)[k]) + count_kids(t, exp, i, k + 1)
    } else {
        0
    }
}

/// The sum of `f` over the elements of a sequence.
pub open spec fn sum_f(s: Seq<int>, f: spec_fn(int) -> int) -> int
    decreases s.len(),
{
    if s.len() == 0 {
        0
    } else {
        f(s[0]) + sum_f(s.drop_first(), f)
    }
}

/// Taking one element out of a sum leaves the sum of the rest.
proof fn lemma_sum_f_remove(s: Seq<int>, f: spec_fn(int) -> int, j: int)
    requires
        0 <= j < s.len(),
    ensures
        sum_f(s, f) == f(s[j]) + sum_f(s.remove(j), f),
    decreases j,
{
    if j == 0 {
        assert(s.remove(0) =~= s.drop_first());
    } else {
        lemma_sum_f_remove(s.drop_first(), f, j - 1);
        assert(s.drop_first()[j - 1] == s[j]);
        assert(s.remove(j).drop_first() =~= s.drop_first().remove(j - 1));
        assert(s.remove(j)[0] == s[0]);
        assert(sum_f(s.remove(j), f) == f(s[0]) + sum_f(s.drop_first().remove(j - 1), f));
    }
}

/// A sum over a sequence depends only on the multiset of its elements.
proof fn lemma_sum_f_perm(a: Seq<int>, b: Seq<int>, f: spec_fn(int) -> int)
    requires
        a.to_multiset() == b.to_multiset(),
    ensures
        sum_f(a, f) == sum_f(b, f),
    decreases a.len(),
{
    broadcast use vstd::seq_lib::group_to_multiset_ensures;
    broadcast use vstd::multiset::group_multiset_axioms;

    if a.len() == 0 {
        assert(b.len() == b.to_multiset().len());
        assert(b.len() == 0);
    } else {
        let x = a[0];
        assert(a.contains(x));
        assert(b.to_multiset().count(x) > 0);
        assert(b.contains(x));
        let j = choose|j: int| 0 <= j < b.len() && #[trigger] b[j] == x;
        lemma_sum_f_remove(b, f, j);
        assert(a.remove(0) =~= a.drop_first());
        assert(a.remove(0).to_multiset() == a.to_multiset().remove(x));
        assert(b.remove(j).to_multiset() == b.to_multiset().remove(x));
        lemma_sum_f_perm(a.drop_first(), b.remove(j), f);
    }
}

/// The per-subtree row count, as a function of the subtree's root.
pub open spec fn count_of(t: &Tree, exp: Set<int>) -> spec_fn(int) -> int {
    |c: int| count_rec(t, exp, c)
}

/// The subtree rows of `i` number exactly [`count_rec`], whatever the
/// sort mode.
proof fn lemma_flatten_len_count(t: &Tree, exp: Set<int>, m: SortMode, i: int, d: int)
    requires
        t.wf(),
        0 <= i < t.n(),
    ensures
        flatten_rec(t, exp, m, i, d).len() == count_rec(t, exp, i),
    decreases t.n() - i, 1int, 0int,
{
    lemma_sorted_kids_ok(t, m, i);
    if t.is_dir(i) && exp.contains(i) {
        lemma_flatten_kids_len(t, exp, m, i, 0, d + 1);
        lemma_count_kids_sum(t, exp, i, 0);
        let cs = sorted_children(t, m, i);
        let ids = t.children_of(i);
        crate::order::lemma_sort_ids_multiset(t, m, ids);
        assert(cs.skip(0) =~= cs);
        assert(ids.skip(0) =~= ids);
        lemma_sum_f_perm(cs, ids, count_of(t, exp));
    }
}

/// The rows of children `k` onward number the sum of their subtree
/// counts.
proof fn lemma_flatten_kids_len(t: &Tree, exp: Set<int>, m: SortMode, i: int, k: int, d: int)
    requires
        t.wf(),
        0 <= i < t.n(),
        sorted_kids_ok(t, m, i),
        0 <= k <= sorted_children(t, m, i).len(),
    ensures
        flatten_kids(t, exp, m, i, k, d).len() == sum_f(
            sorted_children(t, m, i).skip(k),
            count_of(t, exp),
        ),
    decreases t.n() - i, 0int, sorted_children(t, m, i).len() - k,
{
    let cs = sorted_children(t, m, i);
    if k < cs.len() {
        lemma_flatten_len_count(t, exp, m, cs[k], d);
        lemma_flatten_kids_len(t, exp, m, i, k + 1, d);
        assert(cs.skip(k)[0] == cs[k]);
        assert(cs.skip(k).drop_first() =~= cs.skip(k + 1));
        assert(sum_f(cs.skip(k), count_of(t, exp)) == count_rec(t, exp, cs[k]) + sum_f(
            cs.skip(k + 1),
            count_of(t, exp),
        ));
    } else {
        assert(cs.skip(k) =~= Seq::<int>::empty());
    }
}

/// The index-order child count is the same sum.
proof fn lemma_count_kids_sum(t: &Tree, exp: Set<int>, i: int, k: int)
    requires
        t.wf(),
        0 <= i < t.n(),
        0 <= k <= t.children_of(i).len(),
    ensures
        count_kids(t, exp, i, k) == sum_f(t.children_of(i).skip(k), count_of(t, exp)),
    decreases t.children_of(i).len() - k,
{
    let ids = t.children_of(i);
    if k < ids.len() {
        assert(i < ids[k] < t.n());
        lemma_count_kids_sum(t, exp, i, k + 1);
        assert(ids.skip(k)[0] == ids[k]);
        assert(ids.skip(k).drop_first() =~= ids.skip(k + 1));
        assert(sum_f(ids.skip(k), count_of(t, exp)) == count_rec(t, exp, ids[k]) + sum_f(
            ids.skip(k + 1),
            count_of(t, exp),
        ));
    } else {
        assert(ids.skip(k) =~= Seq::<int>::empty());
    }
}

/// The number of visible rows does not depend on the sort mode: the
/// sorts permute siblings but never change which nodes are visible.
pub proof fn lemma_view_len_mode_independent(t: &Tree, exp: Set<int>, m1: SortMode, m2: SortMode)
    requires
        t.wf(),
    ensures
        flatten_view_spec(t, exp, m1).len() == flatten_view_spec(t, exp, m2).len(),
{
    lemma_flatten_len_count(t, exp, m1, 0, 0);
    lemma_flatten_len_count(t, exp, m2, 0, 0);
}

/// Whether the view row at position `k` shows a directory (when
/// `want_dir`) or a file (when not).
pub open spec fn row_matches(t: &Tree, v: Seq<ViewItem>, k: int, want_dir: bool) -> bool {
    t.is_dir(v[k].node as int) == want_dir
}

/// The smallest and largest size among the rows of one kind —
/// directories when `want_dir`, files otherwise — or `None` when the
/// view shows no row of that kind.
pub fn size_range(t: &Tree, view: &Vec<ViewItem>, want_dir: bool) -> (r: Option<(u64, u64)>)
    requires
        forall|k: int| 0 <= k < view@.len() ==> (#[trigger] view@[k].node as int) < t.n(),
    ensures
        r is Some <==> exists|k: int|
            0 <= k < view@.len() && #[trigger] row_matches(t, view@, k, want_dir),
        r matches Some(mm) ==> {
            &&& exists|k: int|
                0 <= k < view@.len() && #[trigger] row_matches(t, view@, k, want_dir)
                    && t.size_of(view@[k].node as int) == mm.0 as int
            &&& exists|k: int|
                0 <= k < view@.len() && #[trigger] row_matches(t, view@, k, want_dir)
                    && t.size_of(view@[k].node as int) == mm.1 as int
            &&& forall|k: int|
                0 <= k < view@.len() && #[trigger] row_matches(t, view@, k, want_dir)
                    ==> mm.0 as int <= t.size_of(view@[k].node as int) <= mm.1 as int
        },
{
    let mut found = false;
    let mut mn: u64 = 0;
    let mut mx: u64 = 0;
    let mut k: usize = 0;
    while k < view.len()
        invariant
            k <= view@.len(),
            forall|j: int| 0 <= j < view@.len() ==> (#[trigger] view@[j].node as int) < t.n(),
            found <==> exists|j: int|
                0 <= j < k && #[trigger] row_matches(t, view@, j, want_dir),
            found ==> exists|j: int|
                0 <= j < k && #[trigger] row_matches(t, view@, j, want_dir) && t.size_of(
                    view@[j].node as int,
                ) == mn as int,
            found ==> exists|j: int|
                0 <= j < k && #[trigger] row_matches(t, view@, j, want_dir) && t.size_of(
                    view@[j].node as int,
                ) == mx as int,
            found ==> forall|j: int|
                0 <= j < k && #[trigger] row_matches(t, view@, j, want_dir) ==> mn as int
                    <= t.size_of(view@[j].node as int) <= mx as int,
        decreases view@.len() - k,
    {
        let node = t.node(view[k].node);
        if node.kind().is_dir() == want_dir {
            let size = node.size();
            assert(row_matches(t, view@, k as int, want_dir));
            if !found {
                found = true;
                mn = size;
                mx = size;
            } else {
                if size < mn {
                    mn = size;
                }
                if size > mx {
                    mx = size;
                }
            }
        }
        k += 1;
    }
    if found {
        Some((mn, mx))
    } else {
        None
    }
}

/// Appends the rows of the subtree of `i`, drawn at depth `depth`, to
/// `out`, exactly as [`flatten_rec`] lays them out.
pub(crate) fn collect_rec(
    t: &Tree,
    m: SortMode,
    expanded: &Vec<usize>,
    i: usize,
    depth: usize,
    out: &mut Vec<ViewItem>,
)
    requires
        t.wf(),
        i < t.n(),
        depth <= i,
    ensures
        view_ids(final(out)@) == view_ids(old(out)@) + flatten_rec(
            t,
            exp_set(expanded@),
            m,
            i as int,
            depth as int,
        ),
    decreases t.n() - i, 1int,
{
    let ghost exp = exp_set(expanded@);
    let ghost pre = out@;
    out.push(ViewItem { node: i, depth });
    proof {
        assert(view_ids(out@) =~= view_ids(pre) + seq![(i as int, depth as int)]);
        lemma_sorted_kids_ok(t, m, i as int);
    }
    let node = t.node(i);
    if let crate::model::NodeKind::Directory(p) = node.kind() {
        if contains_id(expanded, i) {
            assert(t.is_dir(i as int));
            assert(p.spec_children() == t.children_of(i as int));
            collect_children(t, m, expanded, p, i, depth, out);
            proof {
                assert(view_ids(out@) =~= view_ids(pre) + flatten_rec(
                    t,
                    exp,
                    m,
                    i as int,
                    depth as int,
                ));
            }
            return ;
        }
    }
    proof {
        assert(flatten_rec(t, exp, m, i as int, depth as int) =~= seq![(i as int, depth as int)]);
        assert(view_ids(out@) =~= view_ids(pre) + flatten_rec(t, exp, m, i as int, depth as int));
    }
}

/// Appends the rows of the children of expanded directory `i`; the
/// directory's own row is already in `out`.
fn collect_children(
    t: &Tree,
    m: SortMode,
    expanded: &Vec<usize>,
    p: &crate::model::DirProperty,
    i: usize,
    depth: usize,
    out: &mut Vec<ViewItem>,
)
    requires
        t.wf(),
        i < t.n(),
        depth <= i,
        t.is_dir(i as int),
        exp_set(expanded@).contains(i as int),
        p.spec_children() == t.children_of(i as int),
    ensures
        view_ids(final(out)@) == view_ids(old(out)@) + flatten_kids(
            t,
            exp_set(expanded@),
            m,
            i as int,
            0,
            depth + 1,
        ),
    decreases t.n() - i, 0int,
{
    let ghost exp = exp_set(expanded@);
    let ghost pre = out@;
    proof {
        lemma_sorted_kids_ok(t, m, i as int);
    }
    let children = p.children();
    proof {
        assert(children@.map_values(|x: usize| x as int) == t.children_of(i as int));
        assert forall|k: int| 0 <= k < children@.len() implies #[trigger] children@[k] < t.n() by {
            assert(t.children_of(i as int)[k] == children@[k] as int);
        }
    }
    let cs = sort_children(t, m, children);
    let ghost csi = sorted_children(t, m, i as int);
    assert(cs@.map_values(|x: usize| x as int) == csi);
    proof {
        assert(flatten_kids_to(t, exp, m, i as int, 0, depth + 1) =~= Seq::<(int, int)>::empty());
        assert(view_ids(out@) =~= view_ids(pre) + flatten_kids_to(t, exp, m, i as int, 0, depth + 1));
    }
    let mut k: usize = 0;
    while k < cs.len()
        invariant
            t.wf(),
            k <= cs@.len(),
            i < t.n(),
            depth <= i,
            exp == exp_set(expanded@),
            cs@.map_values(|x: usize| x as int) == csi,
            csi == sorted_children(t, m, i as int),
            sorted_kids_ok(t, m, i as int),
            forall|j: int| 0 <= j < cs@.len() ==> #[trigger] cs@[j] < t.n(),
            view_ids(out@) == view_ids(pre) + flatten_kids_to(
                t,
                exp,
                m,
                i as int,
                k as int,
                depth + 1,
            ),
        decreases cs@.len() - k,
    {
        let c = cs[k];
        proof {
            assert(csi[k as int] == c as int);
            assert((i as int) < c as int);
        }
        collect_rec(t, m, expanded, c, depth + 1, out);
        proof {
            assert(flatten_kids_to(t, exp, m, i as int, k + 1, depth + 1) == flatten_kids_to(
                t,
                exp,
                m,
                i as int,
                k as int,
                depth + 1,
            ) + flatten_rec(t, exp, m, c as int, depth + 1));
            assert(view_ids(out@) =~= view_ids(pre) + flatten_kids_to(
                t,
                exp,
                m,
                i as int,
                k + 1,
                depth + 1,
            ));
        }
        k += 1;
    }
    proof {
        lemma_flatten_kids_join(t, exp, m, i as int, csi.len() as int, depth + 1);
        assert(flatten_kids(t, exp, m, i as int, csi.len() as int, depth + 1) =~= Seq::<
            (int, int),
        >::empty());
        assert(flatten_kids_to(t, exp, m, i as int, csi.len() as int, depth + 1)
            =~= flatten_kids_to(t, exp, m, i as int, csi.len() as int, depth + 1) + Seq::<
            (int, int),
        >::empty());
    }
}

} // verus!
