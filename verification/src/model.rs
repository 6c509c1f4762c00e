//! The filesystem data model.
//!
//! A scanned subtree is stored as a [`Tree`]: a flat arena of [`Node`]s in
//! preorder, linked by indices. Index `0` is the root; every child has a
//! larger index than its parent. Directory sizes are the sums of their
//! children's sizes, established once when the tree is built and never
//! changed afterwards.

use vstd::prelude::*;

verus! {

/// One filesystem entry: a file, or a directory holding the arena indices
/// of its children.
#[derive(Debug)]
pub struct Node {
    path: String,
    size: u64,
    kind: NodeKind,
}

/// What a [`Node`] is: a plain file, or a directory with children.
#[derive(Debug)]
pub enum NodeKind {
    File,
    Directory(DirProperty),
}

/// The directory-specific part of a [`Node`]: its children, as arena
/// indices in increasing order.
#[derive(Debug)]
pub struct DirProperty {
    children: Vec<usize>,
}

impl NodeKind {
    /// True exactly when this kind is `Directory`.
    pub fn is_dir(&self) -> (r: bool)
        ensures
            r == (self is Directory),
    {
        matches!(self, NodeKind::Directory(_))
    }
}

impl DirProperty {
    /// The children seen as a sequence of mathematical integers.
    pub closed spec fn spec_children(&self) -> Seq<int> {
        self.children@.map_values(|c: usize| c as int)
    }

    /// The children of this directory, as indices into the owning arena.
    pub fn children(&self) -> (r: &Vec<usize>)
        ensures
            r@.map_values(|c: usize| c as int) == self.spec_children(),
    {
        &self.children
    }
}

impl Node {
    /// The path of this entry, as a sequence of characters.
    pub closed spec fn spec_path(&self) -> Seq<char> {
        self.path@
    }

    /// The size of this entry, as a mathematical integer.
    pub closed spec fn spec_size(&self) -> int {
        self.size as int
    }

    /// Whether this entry is a directory.
    pub closed spec fn spec_is_dir(&self) -> bool {
        self.kind is Directory
    }

    /// The children of this entry: the directory's child indices, or the
    /// empty sequence for a file.
    pub closed spec fn spec_node_children(&self) -> Seq<int> {
        match self.kind {
            NodeKind::Directory(p) => p.spec_children(),
            NodeKind::File => Seq::empty(),
        }
    }

    /// The path of this entry, as it was handed to the builder.
    pub fn path(&self) -> (r: &String)
        ensures
            r@ == self.spec_path(),
    {
        &self.path
    }

    /// The size of this entry: a file's byte length, or the sum of a
    /// directory's children's sizes.
    pub fn size(&self) -> (r: u64)
        ensures
            r as int == self.spec_size(),
    {
        self.size
    }

    /// The kind of this entry.
    pub fn kind(&self) -> (r: &NodeKind)
        ensures
            (r is Directory) == self.spec_is_dir(),
            (r is Directory) ==> r->0.spec_children() == self.spec_node_children(),
    {
        &self.kind
    }
}

/// One filesystem entry as handed to the tree builder: entries come in
/// preorder, each naming the index of its parent entry.
pub struct RawEntry {
    /// Full path of the entry.
    pub path: String,
    /// Byte length for a file; ignored for a directory.
    pub size: u64,
    /// Whether the entry is a directory.
    pub is_dir: bool,
    /// Index of the parent entry; `0` for the root entry itself.
    pub parent: usize,
}

/// Why building a tree failed.
#[derive(Debug, PartialEq, Eq, Structural)]
pub enum ScanError {
    /// No entries were handed in, so there is no root.
    NoEntries,
    /// An entry names a parent that is not an earlier directory entry,
    /// or the root entry does not name itself.
    InvalidParent,
    /// A directory's aggregated size does not fit in 64 bits.
    SizeOverflow,
}

/// An immutable scanned subtree: an arena of nodes in preorder, with
/// node `0` as the root, plus the parent index of every node.
#[derive(Debug)]
pub struct Tree {
    nodes: Vec<Node>,
    parents: Vec<usize>,
}

/// The sum of a sequence of integers.
pub open spec fn seq_sum(s: Seq<int>) -> int
    decreases s.len(),
{
    if s.len() == 0 {
        0
    } else {
        s[0] + seq_sum(s.drop_first())
    }
}

impl Tree {
    /// The nodes of the arena, in preorder.
    pub closed spec fn spec_nodes(&self) -> Seq<Node> {
        self.nodes@
    }

    /// The parent index of every node; entry `0` is `0`.
    pub closed spec fn spec_parents(&self) -> Seq<int> {
        self.parents@.map_values(|p: usize| p as int)
    }

    /// How many nodes the tree holds.
    pub open spec fn n(&self) -> int {
        self.spec_nodes().len() as int
    }

    /// Whether node `i` is a directory.
    pub open spec fn is_dir(&self, i: int) -> bool {
        self.spec_nodes()[i].spec_is_dir()
    }

    /// The stored size of node `i`.
    pub open spec fn size_of(&self, i: int) -> int {
        self.spec_nodes()[i].spec_size()
    }

    /// The path of node `i`.
    pub open spec fn path_of(&self, i: int) -> Seq<char> {
        self.spec_nodes()[i].spec_path()
    }

    /// The children of node `i`, in increasing index order.
    pub open spec fn children_of(&self, i: int) -> Seq<int> {
        self.spec_nodes()[i].spec_node_children()
    }

    /// The parent of node `i`.
    pub open spec fn parent_of(&self, i: int) -> int {
        self.spec_parents()[i]
    }

    /// Well-formedness of the arena: node `0` is the root; every other
    /// node has an earlier parent whose child list names it; child lists
    /// point forward, agree with the parent links, and are strictly
    /// increasing; and every directory's size is the sum of its
    /// children's sizes.
    pub open spec fn wf(&self) -> bool {
        &&& self.n() >= 1
        &&& self.spec_parents().len() == self.n()
        &&& self.parent_of(0) == 0
        &&& forall|c: int|
            1 <= c < self.n() ==> 0 <= #[trigger] self.parent_of(c) < c
                && self.children_of(self.parent_of(c)).contains(c)
        &&& forall|i: int, k: int|
            0 <= i < self.n() && 0 <= k < self.children_of(i).len() ==> i < #[trigger] self.children_of(
                i,
            )[k] < self.n() && self.parent_of(self.children_of(i)[k]) == i
        &&& forall|i: int, k1: int, k2: int|
            0 <= i < self.n() && 0 <= k1 < k2 < self.children_of(i).len()
                ==> #[trigger] self.children_of(i)[k1] < #[trigger] self.children_of(i)[k2]
        &&& forall|i: int|
            0 <= i < self.n() && !self.is_dir(i) ==> (#[trigger] self.children_of(i)).len() == 0
        &&& forall|i: int|
            0 <= i < self.n() && #[trigger] self.is_dir(i) ==> self.size_of(i) == seq_sum(
                self.children_of(i).map_values(|c: int| self.size_of(c)),
            )
    }

    /// How many nodes the tree holds.
    pub fn len(&self) -> (r: usize)
        ensures
            r as int == self.n(),
    {
        self.nodes.len()
    }

    /// The node at arena index `i`.
    pub fn node(&self, i: usize) -> (r: &Node)
        requires
            i < self.n(),
        ensures
            r.spec_path() == self.path_of(i as int),
            r.spec_size() == self.size_of(i as int),
            r.spec_is_dir() == self.is_dir(i as int),
            r.spec_node_children() == self.children_of(i as int),
    {
        &self.nodes[i]
    }
}

/// Structural validity of the builder's input: there is a root entry,
/// the root names itself as parent, and every later entry names an
/// earlier directory entry.
pub open spec fn valid_structure(s: Seq<RawEntry>) -> bool {
    &&& s.len() >= 1
    &&& s[0].parent == 0
    &&& forall|c: int|
        1 <= c < s.len() ==> (#[trigger] s[c].parent as int) < c && s[s[c].parent as int].is_dir
}

/// The children of entry `i` among the entries with index below `k`,
/// in increasing index order.
pub open spec fn kids_upto(s: Seq<RawEntry>, i: int, k: int) -> Seq<int>
    decreases k,
{
    if k <= 1 {
        Seq::empty()
    } else {
        kids_upto(s, i, k - 1) + if s[k - 1].parent as int == i && i < k - 1 {
            seq![k - 1]
        } else {
            Seq::empty()
        }
    }
}

/// The size an entry ends up with in the built tree: a file's given
/// size, or the sum of the final sizes of a directory's children.
pub open spec fn final_size(s: Seq<RawEntry>, i: int) -> int
    decreases s.len() - i, 2int, 0int,
{
    if 0 <= i < s.len() {
        if s[i].is_dir {
            ksum(s, i, kids_upto(s, i, s.len() as int))
        } else {
            s[i].size as int
        }
    } else {
        0
    }
}

/// The sum of the final sizes of the entries listed in `cs`, all of
/// which must lie strictly between `i` and the number of entries.
pub open spec fn ksum(s: Seq<RawEntry>, i: int, cs: Seq<int>) -> int
    decreases s.len() - i, 1int, cs.len(),
{
    if cs.len() == 0 {
        0
    } else {
        (if i < cs[0] < s.len() {
            final_size(s, cs[0])
        } else {
            0
        }) + ksum(s, i, cs.drop_first())
    }
}

/// Every directory's aggregated size fits in 64 bits.
pub open spec fn sizes_fit(s: Seq<RawEntry>) -> bool {
    forall|i: int| 0 <= i < s.len() ==> #[trigger] final_size(s, i) <= u64::MAX as int
}

/// The input a builder run accepts: structurally valid, with all
/// aggregated sizes representable.
pub open spec fn valid_input(s: Seq<RawEntry>) -> bool {
    valid_structure(s) && sizes_fit(s)
}

/// Every listed child of `i` lies strictly between `i` and `k`, names
/// `i` as its parent, and the list is strictly increasing.
pub proof fn lemma_kids_upto_bounds(s: Seq<RawEntry>, i: int, k: int)
    ensures
        forall|m: int|
            0 <= m < kids_upto(s, i, k).len() ==> {
                let e = #[trigger] kids_upto(s, i, k)[m];
                i < e < k && 1 <= e && s[e].parent as int == i
            },
        forall|m1: int, m2: int|
            0 <= m1 < m2 < kids_upto(s, i, k).len() ==> kids_upto(s, i, k)[m1] < kids_upto(
                s,
                i,
                k,
            )[m2],
    decreases k,
{
    if k > 1 {
        lemma_kids_upto_bounds(s, i, k - 1);
        let prev = kids_upto(s, i, k - 1);
        let cur = kids_upto(s, i, k);
        assert forall|m: int| 0 <= m < cur.len() implies {
            let e = #[trigger] cur[m];
            i < e < k && 1 <= e && s[e].parent as int == i
        } by {
            if m < prev.len() {
                assert(cur[m] == prev[m]);
            } else {
                assert(cur[m] == k - 1);
            }
        }
        assert forall|m1: int, m2: int| 0 <= m1 < m2 < cur.len() implies cur[m1] < cur[m2] by {
            if m2 < prev.len() {
                assert(cur[m1] == prev[m1] && cur[m2] == prev[m2]);
            } else {
                assert(cur[m1] == prev[m1] && cur[m2] == k - 1);
            }
        }
    }
}

/// Every index below `k` whose entry names `i` as parent is listed in
/// `kids_upto(s, i, k)`.
pub proof fn lemma_kids_upto_complete(s: Seq<RawEntry>, i: int, k: int)
    ensures
        forall|c: int|
            1 <= c < k && i < c && #[trigger] s[c].parent as int == i ==> kids_upto(
                s,
                i,
                k,
            ).contains(c),
    decreases k,
{
    if k > 1 {
        lemma_kids_upto_complete(s, i, k - 1);
        assert forall|c: int|
            1 <= c < k && i < c && #[trigger] s[c].parent as int == i implies kids_upto(
            s,
            i,
            k,
        ).contains(c) by {
            if c < k - 1 {
                let m = choose|m: int|
                    0 <= m < kids_upto(s, i, k - 1).len() && #[trigger] kids_upto(s, i, k - 1)[m]
                        == c;
                assert(kids_upto(s, i, k)[m] == c);
            } else {
                assert(kids_upto(s, i, k)[kids_upto(s, i, k).len() - 1] == c);
            }
        }
    }
}

/// A child list of `i` cut off at or before `i + 1` is empty.
pub proof fn lemma_kids_upto_empty(s: Seq<RawEntry>, i: int, k: int)
    requires
        k <= i + 1,
    ensures
        kids_upto(s, i, k).len() == 0,
{
    lemma_kids_upto_bounds(s, i, k);
    if kids_upto(s, i, k).len() > 0 {
        assert(i < kids_upto(s, i, k)[0] < k);
    }
}

/// Final sizes and their partial sums are never negative.
pub proof fn lemma_final_size_nonneg(s: Seq<RawEntry>, i: int)
    ensures
        final_size(s, i) >= 0,
    decreases s.len() - i, 2int, 0int,
{
    if 0 <= i < s.len() && s[i].is_dir {
        lemma_ksum_nonneg(s, i, kids_upto(s, i, s.len() as int));
    }
}

/// See [`lemma_final_size_nonneg`].
pub proof fn lemma_ksum_nonneg(s: Seq<RawEntry>, i: int, cs: Seq<int>)
    ensures
        ksum(s, i, cs) >= 0,
    decreases s.len() - i, 1int, cs.len(),
{
    if cs.len() > 0 {
        if i < cs[0] < s.len() {
            lemma_final_size_nonneg(s, cs[0]);
        }
        lemma_ksum_nonneg(s, i, cs.drop_first());
    }
}

/// Appending one child adds its final size to the partial sum.
pub proof fn lemma_ksum_push(s: Seq<RawEntry>, i: int, cs: Seq<int>, e: int)
    ensures
        ksum(s, i, cs.push(e)) == ksum(s, i, cs) + if i < e < s.len() {
            final_size(s, e)
        } else {
            0
        },
    decreases cs.len(),
{
    assert(cs.push(e)[0] == if cs.len() == 0 {
        e
    } else {
        cs[0]
    });
    let g_e: int = if i < e < s.len() {
        final_size(s, e)
    } else {
        0
    };
    if cs.len() == 0 {
        assert(cs.push(e).drop_first() =~= Seq::<int>::empty());
        assert(ksum(s, i, cs.push(e)) == g_e + ksum(s, i, Seq::<int>::empty()));
        assert(ksum(s, i, Seq::<int>::empty()) == 0);
    } else {
        assert(cs.push(e).drop_first() =~= cs.drop_first().push(e));
        lemma_ksum_push(s, i, cs.drop_first(), e);
        let g0: int = if i < cs[0] < s.len() {
            final_size(s, cs[0])
        } else {
            0
        };
        assert(ksum(s, i, cs.push(e)) == g0 + ksum(s, i, cs.drop_first().push(e)));
        assert(ksum(s, i, cs.drop_first().push(e)) == ksum(s, i, cs.drop_first()) + g_e);
        assert(ksum(s, i, cs) == g0 + ksum(s, i, cs.drop_first()));
    }
}

/// A partial sum of final sizes equals the plain sum of a sequence that
/// lists those final sizes.
pub proof fn lemma_ksum_as_seq_sum(s: Seq<RawEntry>, i: int, cs: Seq<int>, vals: Seq<int>)
    requires
        vals.len() == cs.len(),
        forall|m: int|
            0 <= m < cs.len() ==> i < #[trigger] cs[m] < s.len() && vals[m] == final_size(s, cs[m]),
    ensures
        seq_sum(vals) == ksum(s, i, cs),
    decreases cs.len(),
{
    if cs.len() > 0 {
        assert(vals.drop_first().len() == cs.drop_first().len());
        assert forall|m: int| 0 <= m < cs.drop_first().len() implies i < #[trigger] cs.drop_first()[m]
            < s.len() && vals.drop_first()[m] == final_size(s, cs.drop_first()[m]) by {
            assert(cs.drop_first()[m] == cs[m + 1]);
            assert(vals.drop_first()[m] == vals[m + 1]);
        }
        lemma_ksum_as_seq_sum(s, i, cs.drop_first(), vals.drop_first());
        assert(vals[0] == final_size(s, cs[0]));
    }
}

impl Tree {
    /// Builds the tree for a preorder list of raw entries.
    ///
    /// Succeeds exactly when the entries are structurally valid (a root
    /// that names itself, every later entry naming an earlier directory)
    /// and every directory's aggregated size fits in 64 bits. The built
    /// tree mirrors the entries index for index: paths and kinds are
    /// taken over, every file keeps its given size, and every directory's
    /// size is the sum of its children's sizes.
    pub fn build(entries: &Vec<RawEntry>) -> (r: Result<Tree, ScanError>)
        ensures
            r is Ok <==> valid_input(entries@),
            entries@.len() == 0 ==> r == Err::<Tree, ScanError>(ScanError::NoEntries),
            entries@.len() >= 1 && !valid_structure(entries@) ==> r == Err::<Tree, ScanError>(
                ScanError::InvalidParent,
            ),
            valid_structure(entries@) && !sizes_fit(entries@) ==> r == Err::<Tree, ScanError>(
                ScanError::SizeOverflow,
            ),
            r matches Ok(t) ==> {
                &&& t.wf()
                &&& t.n() == entries@.len()
                &&& forall|i: int|
                    0 <= i < t.n() ==> #[trigger] t.path_of(i) == entries@[i].path@
                &&& forall|i: int|
                    0 <= i < t.n() ==> #[trigger] t.is_dir(i) == entries@[i].is_dir
                &&& forall|i: int|
                    0 <= i < t.n() ==> #[trigger] t.size_of(i) == final_size(entries@, i)
                &&& forall|i: int|
                    0 <= i < t.n() ==> #[trigger] t.parent_of(i) == entries@[i].parent as int
                &&& forall|i: int|
                    0 <= i < t.n() ==> #[trigger] t.children_of(i) == kids_upto(
                        entries@,
                        i,
                        t.n(),
                    )
            },
    {
        let n = entries.len();
        if n == 0 {
            return Err(ScanError::NoEntries);
        }
        if entries[0].parent != 0 {
            return Err(ScanError::InvalidParent);
        }
        let mut c: usize = 1;
        while c < n
            invariant
                1 <= c <= n,
                n == entries@.len(),
                entries@[0].parent == 0,
                forall|j: int|
                    1 <= j < c ==> (#[trigger] entries@[j].parent as int) < j
                        && entries@[entries@[j].parent as int].is_dir,
            decreases n - c,
        {
            let p = entries[c].parent;
            if p >= c || !entries[p].is_dir {
                return Err(ScanError::InvalidParent);
            }
            c += 1;
        }
        assert(valid_structure(entries@));
        // Collect every entry's children, in increasing index order.
        let ghost s = entries@;
        let mut kids: Vec<Vec<usize>> = Vec::new();
        let mut i: usize = 0;
        while i < n
            invariant
                i <= n,
                n == s.len(),
                s == entries@,
                kids@.len() == i,
                forall|j: int|
                    0 <= j < i ==> (#[trigger] kids@[j]@).map_values(|x: usize| x as int)
                        == kids_upto(s, j, n as int),
            decreases n - i,
        {
            let mut ks: Vec<usize> = Vec::new();
            let mut c: usize = i + 1;
            proof {
                lemma_kids_upto_empty(s, i as int, i + 1);
                assert(ks@.map_values(|x: usize| x as int) =~= kids_upto(s, i as int, (i + 1) as int));
            }
            while c < n
                invariant
                    i + 1 <= c <= n,
                    n == s.len(),
                    s == entries@,
                    ks@.map_values(|x: usize| x as int) == kids_upto(s, i as int, c as int),
                decreases n - c,
            {
                let ghost ks_old = ks@;
                if entries[c].parent == i {
                    ks.push(c);
                }
                proof {
                    if s[c as int].parent as int == i as int {
                        assert(ks@ == ks_old.push(c));
                        assert(ks@.map_values(|x: usize| x as int) =~= ks_old.map_values(
                            |x: usize| x as int,
                        ).push(c as int));
                        assert(kids_upto(s, i as int, c + 1) =~= kids_upto(s, i as int, c as int)
                            + seq![c as int]);
                        assert(ks@.map_values(|x: usize| x as int) =~= kids_upto(s, i as int, c + 1));
                    } else {
                        assert(kids_upto(s, i as int, c + 1) =~= kids_upto(s, i as int, c as int));
                    }
                }
                c += 1;
            }
            kids.push(ks);
            i += 1;
        }
        // Compute every entry's final size, bottom-up.
        let mut sizes: Vec<u64> = Vec::new();
        let mut j: usize = 0;
        while j < n
            invariant
                j <= n,
                sizes@.len() == j,
            decreases n - j,
        {
            sizes.push(0);
            j += 1;
        }
        let mut i: usize = n;
        while i > 0
            invariant
                i <= n,
                n == s.len(),
                s == entries@,
                valid_structure(s),
                sizes@.len() == n,
                kids@.len() == n,
                forall|j: int|
                    0 <= j < n ==> (#[trigger] kids@[j]@).map_values(|x: usize| x as int)
                        == kids_upto(s, j, n as int),
                forall|j: int| i <= j < n ==> #[trigger] sizes@[j] as int == final_size(s, j),
            decreases i,
        {
            i -= 1;
            if entries[i].is_dir {
                let ghost cs = kids_upto(s, i as int, n as int);
                proof {
                    lemma_kids_upto_bounds(s, i as int, n as int);
                }
                let ks = &kids[i];
                let mut acc: u64 = 0;
                let mut k: usize = 0;
                proof {
                    assert(cs.take(0) =~= Seq::<int>::empty());
                }
                while k < ks.len()
                    invariant
                        k <= ks@.len(),
                        n == s.len(),
                        s == entries@,
                        valid_structure(s),
                        sizes@.len() == n,
                        ks@.map_values(|x: usize| x as int) == cs,
                        cs == kids_upto(s, i as int, n as int),
                        i < n,
                        s[i as int].is_dir,
                        forall|m: int| 0 <= m < cs.len() ==> (i as int) < #[trigger] cs[m] < n,
                        forall|j: int|
                            (i as int) < j < n ==> #[trigger] sizes@[j] as int == final_size(
                                s,
                                j,
                            ),
                        acc as int == ksum(s, i as int, cs.take(k as int)),
                    decreases ks@.len() - k,
                {
                    let child = ks[k];
                    assert(cs[k as int] == child as int);
                    let csize = sizes[child];
                    assert(csize as int == final_size(s, child as int));
                    proof {
                        assert(cs.take(k + 1) =~= cs.take(k as int).push(cs[k as int]));
                        lemma_ksum_push(s, i as int, cs.take(k as int), cs[k as int]);
                    }
                    if csize > u64::MAX - acc {
                        proof {
                            // The partial sum already exceeds what fits, so the
                            // directory's final size does too.
                            lemma_ksum_split(s, i as int, cs, k + 1);
                            lemma_ksum_nonneg(s, i as int, cs.skip(k + 1));
                            assert(final_size(s, i as int) == ksum(s, i as int, cs));
                            assert(ksum(s, i as int, cs) > u64::MAX as int);
                            assert(!sizes_fit(s));
                        }
                        return Err(ScanError::SizeOverflow);
                    }
                    acc = acc + csize;
                    k += 1;
                }
                proof {
                    assert(cs.take(ks@.len() as int) =~= cs);
                    assert(acc as int == final_size(s, i as int));
                }
                sizes.set(i, acc);
            } else {
                sizes.set(i, entries[i].size);
            }
        }
        assert(sizes_fit(s)) by {
            assert forall|j: int| 0 <= j < s.len() implies #[trigger] final_size(s, j)
                <= u64::MAX as int by {
                assert(sizes@[j] as int == final_size(s, j));
            }
        }
        // Assemble the arena.
        let ghost kids0 = kids@;
        let mut nodes: Vec<Node> = Vec::new();
        let mut parents: Vec<usize> = Vec::new();
        let mut i: usize = 0;
        while i < n
            invariant
                i <= n,
                n == s.len(),
                s == entries@,
                valid_structure(s),
                sizes@.len() == n,
                kids0.len() == n,
                kids@ =~= kids0.skip(i as int),
                forall|j: int|
                    0 <= j < n ==> (#[trigger] kids0[j]@).map_values(|x: usize| x as int)
                        == kids_upto(s, j, n as int),
                forall|j: int| 0 <= j < n ==> #[trigger] sizes@[j] as int == final_size(s, j),
                nodes@.len() == i,
                parents@.len() == i,
                forall|j: int|
                    0 <= j < i ==> {
                        &&& (#[trigger] nodes@[j]).spec_path() == s[j].path@
                        &&& nodes@[j].spec_is_dir() == s[j].is_dir
                        &&& nodes@[j].spec_size() == final_size(s, j)
                        &&& nodes@[j].spec_node_children() == if s[j].is_dir {
                            kids_upto(s, j, n as int)
                        } else {
                            Seq::<int>::empty()
                        }
                    },
                forall|j: int| 0 <= j < i ==> #[trigger] parents@[j] == s[j].parent,
            decreases n - i,
        {
            let ks = kids.remove(0);
            assert(ks@ == kids0[i as int]@);
            let node = if entries[i].is_dir {
                Node {
                    path: entries[i].path.clone(),
                    size: sizes[i],
                    kind: NodeKind::Directory(DirProperty { children: ks }),
                }
            } else {
                Node { path: entries[i].path.clone(), size: sizes[i], kind: NodeKind::File }
            };
            nodes.push(node);
            parents.push(entries[i].parent);
            proof {
                assert(kids@ =~= kids0.skip(i + 1));
            }
            i += 1;
        }
        let t = Tree { nodes, parents };
        proof {
            lemma_build_result_wf(t, s);
        }
        Ok(t)
    }
}

/// Size aggregation: in a well-formed tree, every directory's size is
/// exactly the sum of its direct children's sizes; since this holds of
/// every node, it holds recursively throughout the tree.
pub proof fn lemma_size_aggregation(t: &Tree, i: int)
    requires
        t.wf(),
        0 <= i < t.n(),
        t.is_dir(i),
    ensures
        t.size_of(i) == seq_sum(t.children_of(i).map_values(|c: int| t.size_of(c))),
{
}

/// Glue for the builder: a tree that mirrors a structurally valid entry
/// list index for index is well-formed, and files have no children.
proof fn lemma_build_result_wf(t: Tree, s: Seq<RawEntry>)
    requires
        valid_structure(s),
        t.n() == s.len(),
        t.spec_parents().len() == s.len(),
        forall|j: int| 0 <= j < s.len() ==> #[trigger] t.is_dir(j) == s[j].is_dir,
        forall|j: int| 0 <= j < s.len() ==> #[trigger] t.size_of(j) == final_size(s, j),
        forall|j: int| 0 <= j < s.len() ==> #[trigger] t.parent_of(j) == s[j].parent as int,
        forall|j: int|
            0 <= j < s.len() ==> #[trigger] t.children_of(j) == if s[j].is_dir {
                kids_upto(s, j, s.len() as int)
            } else {
                Seq::<int>::empty()
            },
    ensures
        t.wf(),
        forall|j: int|
            0 <= j < s.len() ==> #[trigger] t.children_of(j) == kids_upto(s, j, s.len() as int),
{
    let n = s.len() as int;
    assert forall|j: int| 0 <= j < n implies #[trigger] t.children_of(j) == kids_upto(s, j, n) by {
        if !s[j].is_dir {
            lemma_kids_upto_bounds(s, j, n);
            if kids_upto(s, j, n).len() > 0 {
                let e = kids_upto(s, j, n)[0];
                assert(1 <= e < n && s[e].parent as int == j);
                assert((s[e].parent as int) < e && s[s[e].parent as int].is_dir);
                assert(false);
            }
            assert(kids_upto(s, j, n) =~= Seq::<int>::empty());
        }
    }
    assert forall|c: int| 1 <= c < n implies 0 <= #[trigger] t.parent_of(c) < c && t.children_of(
        t.parent_of(c),
    ).contains(c) by {
        let p = s[c].parent as int;
        assert((s[c].parent as int) < c && s[s[c].parent as int].is_dir);
        lemma_kids_upto_complete(s, p, n);
        assert(kids_upto(s, p, n).contains(c));
    }
    assert forall|i: int, k: int| 0 <= i < n && 0 <= k < t.children_of(i).len() implies i
        < #[trigger] t.children_of(i)[k] < n && t.parent_of(t.children_of(i)[k]) == i by {
        lemma_kids_upto_bounds(s, i, n);
        let e = t.children_of(i)[k];
        assert(i < e < n && s[e].parent as int == i);
    }
    assert forall|i: int, k1: int, k2: int|
        0 <= i < n && 0 <= k1 < k2 < t.children_of(i).len() implies #[trigger] t.children_of(
        i,
    )[k1] < #[trigger] t.children_of(i)[k2] by {
        lemma_kids_upto_bounds(s, i, n);
    }
    assert forall|i: int| 0 <= i < n && #[trigger] t.is_dir(i) implies t.size_of(i) == seq_sum(
        t.children_of(i).map_values(|c: int| t.size_of(c)),
    ) by {
        lemma_kids_upto_bounds(s, i, n);
        let cs = t.children_of(i);
        let vals = cs.map_values(|c: int| t.size_of(c));
        assert forall|m: int| 0 <= m < cs.len() implies i < #[trigger] cs[m] < s.len() && vals[m]
            == final_size(s, cs[m]) by {
            assert(i < cs[m] < n && s[cs[m]].parent as int == i);
            assert(vals[m] == t.size_of(cs[m]));
        }
        lemma_ksum_as_seq_sum(s, i, cs, vals);
    }
}

/// A partial sum splits at any cut point.
pub proof fn lemma_ksum_split(s: Seq<RawEntry>, i: int, cs: Seq<int>, k: int)
    requires
        0 <= k <= cs.len(),
    ensures
        ksum(s, i, cs) == ksum(s, i, cs.take(k)) + ksum(s, i, cs.skip(k)),
    decreases k,
{
    if k == 0 {
        assert(cs.take(0) =~= Seq::empty());
        assert(cs.skip(0) =~= cs);
    } else {
        lemma_ksum_split(s, i, cs, k - 1);
        assert(cs.take(k) =~= cs.take(k - 1).push(cs[k - 1]));
        lemma_ksum_push(s, i, cs.take(k - 1), cs[k - 1]);
        assert(cs.skip(k - 1)[0] == cs[k - 1]);
        assert(cs.skip(k - 1).drop_first() =~= cs.skip(k));
        assert(ksum(s, i, cs.skip(k - 1)) == (if i < cs[k - 1] < s.len() {
            final_size(s, cs[k - 1])
        } else {
            0
        }) + ksum(s, i, cs.skip(k)));
    }
}

} // verus!
