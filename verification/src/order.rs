//! Sibling ordering.
//!
//! The view engine shows a directory's children sorted: directories
//! before files, and within the same kind by the active sort key —
//! path ascending under [`SortMode::NameAsc`], or size descending with
//! path as tie-break under [`SortMode::SizeDesc`]. The order is applied
//! at projection time and never mutates the tree.

use crate::model::Tree;
use vstd::prelude::*;
use vstd::string::StrSliceExecFns;

verus! {

/// The two sort keys the view can apply to same-kind siblings.
#[derive(Clone, Copy, PartialEq, Eq, Structural, Debug)]
pub enum SortMode {
    /// Full path, ascending.
    NameAsc,
    /// Size, descending; ties broken by path ascending.
    SizeDesc,
}

/// Strict lexicographic order on character sequences, by code point;
/// a proper prefix precedes the longer sequence.
pub open spec fn lex_lt(a: Seq<char>, b: Seq<char>) -> bool
    decreases a.len(),
{
    if b.len() == 0 {
        false
    } else if a.len() == 0 {
        true
    } else if a[0] != b[0] {
        (a[0] as int) < (b[0] as int)
    } else {
        lex_lt(a.drop_first(), b.drop_first())
    }
}

/// Whether sibling `a` precedes sibling `b`: directories come first;
/// same-kind siblings follow the active sort key.
pub open spec fn node_lt(t: &Tree, m: SortMode, a: int, b: int) -> bool {
    if t.is_dir(a) != t.is_dir(b) {
        t.is_dir(a)
    } else {
        match m {
            SortMode::NameAsc => lex_lt(t.path_of(a), t.path_of(b)),
            SortMode::SizeDesc => t.size_of(a) > t.size_of(b) || (t.size_of(a) == t.size_of(b)
                && lex_lt(t.path_of(a), t.path_of(b))),
        }
    }
}

/// No sequence lexicographically precedes itself.
pub proof fn lemma_lex_lt_irrefl(a: Seq<char>)
    ensures
        !lex_lt(a, a),
    decreases a.len(),
{
    if a.len() > 0 {
        lemma_lex_lt_irrefl(a.drop_first());
    }
}

/// Lexicographic order is transitive.
pub proof fn lemma_lex_lt_trans(a: Seq<char>, b: Seq<char>, c: Seq<char>)
    requires
        lex_lt(a, b),
        lex_lt(b, c),
    ensures
        lex_lt(a, c),
    decreases a.len(),
{
    if a.len() > 0 && b.len() > 0 && c.len() > 0 && a[0] == b[0] && b[0] == c[0] {
        lemma_lex_lt_trans(a.drop_first(), b.drop_first(), c.drop_first());
    }
}

/// Two sequences neither of which precedes the other are equal.
pub proof fn lemma_lex_lt_connex(a: Seq<char>, b: Seq<char>)
    requires
        !lex_lt(a, b),
        !lex_lt(b, a),
    ensures
        a == b,
    decreases a.len(),
{
    if a.len() == 0 || b.len() == 0 {
        assert(a =~= b);
    } else {
        assert(a[0] == b[0]);
        lemma_lex_lt_connex(a.drop_first(), b.drop_first());
        assert(a =~= seq![a[0]] + a.drop_first());
        assert(b =~= seq![b[0]] + b.drop_first());
    }
}

/// No node precedes itself.
pub proof fn lemma_node_lt_irrefl(t: &Tree, m: SortMode, a: int)
    ensures
        !node_lt(t, m, a, a),
{
    lemma_lex_lt_irrefl(t.path_of(a));
}

/// The sibling order is transitive.
pub proof fn lemma_node_lt_trans(t: &Tree, m: SortMode, a: int, b: int, c: int)
    requires
        node_lt(t, m, a, b),
        node_lt(t, m, b, c),
    ensures
        node_lt(t, m, a, c),
{
    if t.is_dir(a) == t.is_dir(b) && t.is_dir(b) == t.is_dir(c) {
        if lex_lt(t.path_of(a), t.path_of(b)) && lex_lt(t.path_of(b), t.path_of(c)) {
            lemma_lex_lt_trans(t.path_of(a), t.path_of(b), t.path_of(c));
        }
    }
}

/// Two siblings neither of which precedes the other agree on kind, on
/// the active sort key, and on their path.
pub proof fn lemma_node_lt_connex(t: &Tree, m: SortMode, a: int, b: int)
    requires
        !node_lt(t, m, a, b),
        !node_lt(t, m, b, a),
    ensures
        t.is_dir(a) == t.is_dir(b),
        t.path_of(a) == t.path_of(b),
        m is SizeDesc ==> t.size_of(a) == t.size_of(b),
{
    lemma_lex_lt_connex(t.path_of(a), t.path_of(b));
}

/// Compares two strings in the order of [`lex_lt`].
fn str_lt(a: &str, b: &str) -> (r: bool)
    ensures
        r == lex_lt(a@, b@),
{
    let alen = a.unicode_len();
    let blen = b.unicode_len();
    let mut i: usize = 0;
    proof {
        assert(a@.skip(0) =~= a@);
        assert(b@.skip(0) =~= b@);
    }
    while i < alen && i < blen
        invariant
            i <= alen,
            i <= blen,
            alen == a@.len(),
            blen == b@.len(),
            lex_lt(a@, b@) == lex_lt(a@.skip(i as int), b@.skip(i as int)),
        decreases alen - i,
    {
        let ca = a.get_char(i);
        let cb = b.get_char(i);
        proof {
            assert(a@.skip(i as int)[0] == a@[i as int]);
            assert(b@.skip(i as int)[0] == b@[i as int]);
        }
        if ca != cb {
            return (ca as u32) < (cb as u32);
        }
        proof {
            assert(a@.skip(i as int).drop_first() =~= a@.skip(i + 1));
            assert(b@.skip(i as int).drop_first() =~= b@.skip(i + 1));
        }
        i += 1;
    }
    alen < blen
}

/// Inserts `x` into a sequence before the first element that `x`
/// strictly precedes.
pub open spec fn insert_sorted(t: &Tree, m: SortMode, sorted: Seq<int>, x: int) -> Seq<int>
    decreases sorted.len(),
{
    if sorted.len() == 0 {
        seq![x]
    } else if node_lt(t, m, x, sorted[0]) {
        seq![x] + sorted
    } else {
        seq![sorted[0]] + insert_sorted(t, m, sorted.drop_first(), x)
    }
}

/// The stable insertion sort of a sequence of node indices under
/// [`node_lt`].
pub open spec fn sort_ids(t: &Tree, m: SortMode, s: Seq<int>) -> Seq<int>
    decreases s.len(),
{
    if s.len() == 0 {
        s
    } else {
        insert_sorted(t, m, sort_ids(t, m, s.drop_last()), s.last())
    }
}

/// Weak sortedness under [`node_lt`]: no later element strictly
/// precedes an earlier one.
pub open spec fn sorted_by(t: &Tree, m: SortMode, cs: Seq<int>) -> bool {
    forall|j: int, k: int| 0 <= j < k < cs.len() ==> !node_lt(t, m, cs[k], cs[j])
}

/// Inserting adds exactly the new element to the sequence's multiset.
pub proof fn lemma_insert_sorted_multiset(t: &Tree, m: SortMode, s: Seq<int>, x: int)
    ensures
        insert_sorted(t, m, s, x).to_multiset() == s.to_multiset().insert(x),
    decreases s.len(),
{
    broadcast use vstd::seq_lib::group_to_multiset_ensures;
    broadcast use vstd::multiset::group_multiset_axioms;

    if s.len() == 0 {
        assert(s =~= Seq::<int>::empty());
        assert(seq![x] =~= s.insert(0, x));
        vstd::seq_lib::to_multiset_insert(s, 0, x);
    } else if node_lt(t, m, x, s[0]) {
        assert(seq![x] + s =~= s.insert(0, x));
        vstd::seq_lib::to_multiset_insert(s, 0, x);
    } else {
        lemma_insert_sorted_multiset(t, m, s.drop_first(), x);
        let inner = insert_sorted(t, m, s.drop_first(), x);
        vstd::seq_lib::lemma_multiset_commutative(seq![s[0]], inner);
        vstd::seq_lib::lemma_multiset_commutative(seq![s[0]], s.drop_first());
        assert(s =~= seq![s[0]] + s.drop_first());
        assert((seq![s[0]] + inner).to_multiset() =~= s.to_multiset().insert(x));
    }
}

/// Sorting preserves the multiset of elements.
pub proof fn lemma_sort_ids_multiset(t: &Tree, m: SortMode, s: Seq<int>)
    ensures
        sort_ids(t, m, s).to_multiset() == s.to_multiset(),
        sort_ids(t, m, s).len() == s.len(),
        forall|x: int| sort_ids(t, m, s).contains(x) <==> s.contains(x),
    decreases s.len(),
{
    broadcast use vstd::seq_lib::group_to_multiset_ensures;
    broadcast use vstd::multiset::group_multiset_axioms;

    if s.len() > 0 {
        lemma_sort_ids_multiset(t, m, s.drop_last());
        lemma_insert_sorted_multiset(t, m, sort_ids(t, m, s.drop_last()), s.last());
        assert(s =~= s.drop_last().push(s.last()));
        assert(s.drop_last().push(s.last()).to_multiset() =~= s.drop_last().to_multiset().insert(
            s.last(),
        ));
    }
    let out = sort_ids(t, m, s);
    assert(out.to_multiset().len() == out.len());
    assert(s.to_multiset().len() == s.len());
    assert forall|x: int| out.contains(x) <==> s.contains(x) by {
        assert(out.contains(x) <==> out.to_multiset().count(x) > 0);
        assert(s.contains(x) <==> s.to_multiset().count(x) > 0);
    }
}

/// Inserting at the first position whose element the new one strictly
/// precedes is what [`insert_sorted`] does.
pub proof fn lemma_insert_sorted_position(t: &Tree, m: SortMode, s: Seq<int>, x: int, p: int)
    requires
        0 <= p <= s.len(),
        forall|j: int| 0 <= j < p ==> !node_lt(t, m, x, #[trigger] s[j]),
        p < s.len() ==> node_lt(t, m, x, s[p]),
    ensures
        insert_sorted(t, m, s, x) == s.insert(p, x),
    decreases p,
{
    if p == 0 {
        if s.len() == 0 {
            assert(insert_sorted(t, m, s, x) =~= s.insert(0, x));
        } else {
            assert(node_lt(t, m, x, s[0]));
            assert(seq![x] + s =~= s.insert(0, x));
        }
    } else {
        assert(!node_lt(t, m, x, s[0]));
        let d = s.drop_first();
        assert forall|j: int| 0 <= j < p - 1 implies !node_lt(t, m, x, #[trigger] d[j]) by {
            assert(d[j] == s[j + 1]);
        }
        assert(p - 1 < d.len() ==> node_lt(t, m, x, d[p - 1]));
        lemma_insert_sorted_position(t, m, d, x, p - 1);
        assert(seq![s[0]] + d.insert(p - 1, x) =~= s.insert(p, x));
    }
}

/// Inserting into a weakly sorted sequence keeps it weakly sorted.
pub proof fn lemma_insert_sorted_keeps_sorted(t: &Tree, m: SortMode, s: Seq<int>, x: int)
    requires
        sorted_by(t, m, s),
    ensures
        sorted_by(t, m, insert_sorted(t, m, s, x)),
    decreases s.len(),
{
    broadcast use vstd::seq_lib::group_to_multiset_ensures;
    broadcast use vstd::multiset::group_multiset_axioms;

    let out = insert_sorted(t, m, s, x);
    if s.len() == 0 {
        assert(sorted_by(t, m, out));
    } else if node_lt(t, m, x, s[0]) {
        assert forall|j: int, k: int| 0 <= j < k < out.len() implies !node_lt(
            t,
            m,
            out[k],
            out[j],
        ) by {
            if j == 0 {
                let e = out[k];
                assert(e == s[k - 1]);
                if node_lt(t, m, e, x) {
                    lemma_node_lt_trans(t, m, e, x, s[0]);
                    if k == 1 {
                        lemma_node_lt_irrefl(t, m, s[0]);
                    }
                }
            } else {
                assert(out[j] == s[j - 1] && out[k] == s[k - 1]);
            }
        }
    } else {
        let d = s.drop_first();
        assert forall|j: int, k: int| 0 <= j < k < d.len() implies !node_lt(t, m, d[k], d[j]) by {
            assert(d[j] == s[j + 1] && d[k] == s[k + 1]);
        }
        lemma_insert_sorted_keeps_sorted(t, m, d, x);
        let inner = insert_sorted(t, m, d, x);
        lemma_insert_sorted_multiset(t, m, d, x);
        assert forall|j: int, k: int| 0 <= j < k < out.len() implies !node_lt(
            t,
            m,
            out[k],
            out[j],
        ) by {
            if j == 0 {
                let e = out[k];
                assert(e == inner[k - 1]);
                assert(inner.contains(inner[k - 1]));
                assert(inner.to_multiset().count(e) > 0);
                if e == x {
                    assert(!node_lt(t, m, e, s[0]));
                } else {
                    assert(d.to_multiset().count(e) > 0);
                    assert(d.contains(e));
                    let j2 = choose|j2: int| 0 <= j2 < d.len() && d[j2] == e;
                    assert(d[j2] == s[j2 + 1]);
                    assert(!node_lt(t, m, e, s[0]));
                }
            } else {
                assert(out[j] == inner[j - 1] && out[k] == inner[k - 1]);
            }
        }
    }
}

/// The sort is weakly sorted.
pub proof fn lemma_sort_ids_sorted(t: &Tree, m: SortMode, s: Seq<int>)
    ensures
        sorted_by(t, m, sort_ids(t, m, s)),
    decreases s.len(),
{
    if s.len() > 0 {
        lemma_sort_ids_sorted(t, m, s.drop_last());
        lemma_insert_sorted_keeps_sorted(t, m, sort_ids(t, m, s.drop_last()), s.last());
    }
}

/// The order in which a directory's children are shown: its child list
/// sorted under the active mode.
pub open spec fn sorted_children(t: &Tree, m: SortMode, i: int) -> Seq<int> {
    sort_ids(t, m, t.children_of(i))
}

/// Sibling ordering: among the children a directory presents, a
/// directory never follows a file, no later sibling strictly precedes
/// an earlier one, and when the siblings' paths are pairwise distinct
/// the order is strict: each sibling precedes the next under the
/// active sort key.
pub proof fn lemma_sibling_ordering(t: &Tree, m: SortMode, i: int)
    requires
        t.wf(),
        0 <= i < t.n(),
    ensures
        sorted_children(t, m, i).to_multiset() == t.children_of(i).to_multiset(),
        sorted_children(t, m, i).len() == t.children_of(i).len(),
        forall|j: int, k: int|
            0 <= j < k < sorted_children(t, m, i).len() ==> !node_lt(
                t,
                m,
                sorted_children(t, m, i)[k],
                sorted_children(t, m, i)[j],
            ),
        forall|j: int, k: int|
            0 <= j < k < sorted_children(t, m, i).len() && t.is_dir(sorted_children(t, m, i)[k])
                ==> t.is_dir(sorted_children(t, m, i)[j]),
        (forall|k1: int, k2: int|
            0 <= k1 < k2 < t.children_of(i).len() ==> t.path_of(#[trigger] t.children_of(i)[k1])
                != t.path_of(#[trigger] t.children_of(i)[k2])) ==> forall|j: int, k: int|
            0 <= j < k < sorted_children(t, m, i).len() ==> node_lt(
                t,
                m,
                #[trigger] sorted_children(t, m, i)[j],
                #[trigger] sorted_children(t, m, i)[k],
            ),
{
    broadcast use vstd::seq_lib::group_to_multiset_ensures;
    broadcast use vstd::multiset::group_multiset_axioms;

    let cs = t.children_of(i);
    let out = sorted_children(t, m, i);
    lemma_sort_ids_multiset(t, m, cs);
    lemma_sort_ids_sorted(t, m, cs);
    assert forall|j: int, k: int|
        0 <= j < k < out.len() && t.is_dir(out[k]) implies t.is_dir(out[j]) by {
        if !t.is_dir(out[j]) {
            assert(node_lt(t, m, out[k], out[j]));
        }
    }
    if forall|k1: int, k2: int|
        0 <= k1 < k2 < cs.len() ==> t.path_of(#[trigger] cs[k1]) != t.path_of(
            #[trigger] cs[k2],
        ) {
        assert forall|k1: int, k2: int| 0 <= k1 < k2 < cs.len() implies #[trigger] cs[k1]
            != #[trigger] cs[k2] by {}
        assert forall|j: int, k: int| 0 <= j < k < out.len() implies node_lt(
            t,
            m,
            #[trigger] out[j],
            #[trigger] out[k],
        ) by {
            if !node_lt(t, m, out[j], out[k]) {
                lemma_node_lt_connex(t, m, out[j], out[k]);
                assert(t.path_of(out[j]) == t.path_of(out[k]));
                assert(out.contains(out[j]) && out.contains(out[k]));
                assert(cs.contains(out[j]) && cs.contains(out[k]));
                let a1 = choose|a1: int| 0 <= a1 < cs.len() && cs[a1] == out[j];
                let a2 = choose|a2: int| 0 <= a2 < cs.len() && cs[a2] == out[k];
                if out[j] == out[k] {
                    // The same child index would appear twice in the sort,
                    // which the duplicate-free multiset rules out.
                    assert(cs.no_duplicates());
                    cs.lemma_multiset_has_no_duplicates();
                    assert(out.to_multiset().count(out[j]) >= 2) by {
                        let out2 = out.remove(k);
                        assert(out2[j] == out[j]);
                        assert(out2.contains(out[j]));
                        assert(out2.to_multiset().count(out[j]) > 0);
                        assert(out.to_multiset() =~= out2.to_multiset().insert(out[k]));
                    }
                } else {
                    assert(a1 != a2);
                    assert(t.path_of(cs[a1]) != t.path_of(cs[a2]));
                }
            }
        }
    }
}

/// Compares two nodes of the tree in the order of [`node_lt`].
pub(crate) fn node_lt_exec(t: &Tree, m: SortMode, a: usize, b: usize) -> (r: bool)
    requires
        a < t.n(),
        b < t.n(),
    ensures
        r == node_lt(t, m, a as int, b as int),
{
    let na = t.node(a);
    let nb = t.node(b);
    let da = na.kind().is_dir();
    let db = nb.kind().is_dir();
    if da != db {
        da
    } else {
        match m {
            SortMode::NameAsc => str_lt(na.path().as_str(), nb.path().as_str()),
            SortMode::SizeDesc => {
                let sa = na.size();
                let sb = nb.size();
                if sa != sb {
                    sa > sb
                } else {
                    str_lt(na.path().as_str(), nb.path().as_str())
                }
            },
        }
    }
}

/// Sorts a list of node indices with a stable insertion sort, matching
/// [`sort_ids`] exactly.
pub(crate) fn sort_children(t: &Tree, m: SortMode, cs: &Vec<usize>) -> (r: Vec<usize>)
    requires
        forall|k: int| 0 <= k < cs@.len() ==> #[trigger] cs@[k] < t.n(),
    ensures
        r@.map_values(|x: usize| x as int) == sort_ids(t, m, cs@.map_values(|x: usize| x as int)),
        forall|k: int| 0 <= k < r@.len() ==> #[trigger] r@[k] < t.n(),
        r@.len() == cs@.len(),
{
    let ghost ids = cs@.map_values(|x: usize| x as int);
    let mut r: Vec<usize> = Vec::new();
    let mut idx: usize = 0;
    proof {
        assert(ids.take(0) =~= Seq::<int>::empty());
    }
    while idx < cs.len()
        invariant
            idx <= cs@.len(),
            ids == cs@.map_values(|x: usize| x as int),
            forall|k: int| 0 <= k < cs@.len() ==> #[trigger] cs@[k] < t.n(),
            r@.map_values(|x: usize| x as int) == sort_ids(t, m, ids.take(idx as int)),
            r@.len() == idx,
            forall|k: int| 0 <= k < r@.len() ==> #[trigger] r@[k] < t.n(),
        decreases cs@.len() - idx,
    {
        let x = cs[idx];
        let ghost rpre = r@.map_values(|v: usize| v as int);
        let mut p: usize = 0;
        while p < r.len() && !node_lt_exec(t, m, x, r[p])
            invariant
                p <= r@.len(),
                x < t.n(),
                forall|k: int| 0 <= k < r@.len() ==> #[trigger] r@[k] < t.n(),
                rpre == r@.map_values(|v: usize| v as int),
                forall|j: int| 0 <= j < p ==> !node_lt(t, m, x as int, #[trigger] rpre[j]),
            decreases r@.len() - p,
        {
            p += 1;
        }
        proof {
            assert(p < r@.len() ==> node_lt(t, m, x as int, rpre[p as int]));
            lemma_insert_sorted_position(t, m, rpre, x as int, p as int);
        }
        r.insert(p, x);
        proof {
            assert(r@.map_values(|v: usize| v as int) =~= rpre.insert(p as int, x as int));
            assert(ids.take(idx + 1).drop_last() =~= ids.take(idx as int));
            assert(ids.take(idx + 1).last() == ids[idx as int]);
            assert(ids[idx as int] == x as int);
            assert(r@.map_values(|v: usize| v as int) == sort_ids(t, m, ids.take(idx + 1)));
        }
        idx += 1;
    }
    proof {
        assert(ids.take(cs@.len() as int) =~= ids);
        lemma_sort_ids_multiset(t, m, ids);
    }
    r
}

} // verus!
