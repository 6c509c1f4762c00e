//! The session state of the explorer.
//!
//! [`UiState`] holds everything one interactive session mutates: the
//! set of expanded directories, the cursor into the flattened view, the
//! active sort mode, the pending numeric input, and the status line.
//! The tree itself is borrowed immutably and never changes.

use crate::model::Tree;
use crate::order::SortMode;
use crate::view::{collect_rec, exp_set, flatten_view_spec, view_ids, ViewItem};
use crate::view::{anc_expanded, lemma_anc_expanded_agree, lemma_projection_correctness};
use crate::view::view_contains_node;
use vstd::prelude::*;

verus! {

/// A discrete input action, as decoded by the surrounding terminal
/// layer.
pub enum Action {
    /// Toggle the directory at the given view index.
    Toggle(usize),
    /// Toggle the directory under the cursor.
    ToggleAtCursor,
    /// Move the cursor one row up.
    MoveUp,
    /// Move the cursor one row down.
    MoveDown,
    /// Flip between the two sort modes.
    ToggleSort,
    /// Commit the typed index, or toggle at the cursor if none is typed.
    Enter,
    /// Append one typed character to the numeric input buffer.
    InputDigit(char),
    /// Drop the last typed digit.
    InputBackspace,
    /// End the session.
    Quit,
}

/// The status line: a message and whether it reports an error.
#[derive(Clone, Debug)]
pub struct StatusMessage {
    /// The message shown to the user.
    pub text: String,
    /// Whether the message reports a failed action.
    pub is_error: bool,
}

/// Why a toggle was rejected.
#[derive(Clone, Copy, Debug, PartialEq, Eq, Structural)]
pub enum UiError {
    /// The view index does not name a visible row.
    IndexNotFound,
    /// The row names a file, and only directories can be toggled.
    NotToggleable,
}

/// The status text used when a view index is out of range.
pub open spec fn msg_index_not_found() -> Seq<char> {
    "index not found"@
}

/// The status text used when the target of a toggle is a file.
pub open spec fn msg_not_toggleable() -> Seq<char> {
    "only a directory can be toggled"@
}

/// The status text used when the typed index does not fit.
pub open spec fn msg_invalid_index() -> Seq<char> {
    "invalid index"@
}

impl UiError {
    /// The status text for this error.
    pub fn message(&self) -> (r: String)
        ensures
            self is IndexNotFound ==> r@ == msg_index_not_found(),
            self is NotToggleable ==> r@ == msg_not_toggleable(),
    {
        match self {
            UiError::IndexNotFound => "index not found".to_owned(),
            UiError::NotToggleable => "only a directory can be toggled".to_owned(),
        }
    }
}

/// The other sort mode.
pub open spec fn flipped(m: SortMode) -> SortMode {
    match m {
        SortMode::NameAsc => SortMode::SizeDesc,
        SortMode::SizeDesc => SortMode::NameAsc,
    }
}

/// What handling a toggle of view index `idx` leaves behind: an error
/// status and an otherwise untouched session when the index is out of
/// range or names a file; otherwise the node's membership in the
/// expanded set flipped, a clear status, and the cursor clamped — to
/// its old row for a toggle at the cursor, to `idx` for an explicit
/// index. The input buffer is empty afterwards in every case.
pub open spec fn toggle_done(pre: UiState, post: UiState, idx: int, at_cursor: bool) -> bool {
    let v = pre.view_spec();
    &&& post.tree == pre.tree
    &&& post.sort_mode == pre.sort_mode
    &&& post.input_buffer@.len() == 0
    &&& if idx >= v.len() {
        &&& post.expanded_nodes == pre.expanded_nodes
        &&& post.cursor == pre.cursor
        &&& post.status matches Some(msg) && msg.is_error && msg.text@ == msg_index_not_found()
    } else if !pre.tree.is_dir(v[idx].0) {
        &&& post.expanded_nodes == pre.expanded_nodes
        &&& post.cursor == pre.cursor
        &&& post.status matches Some(msg) && msg.is_error && msg.text@ == msg_not_toggleable()
    } else {
        &&& post.exps() == toggled_exps(pre.exps(), v[idx].0)
        &&& post.cursor as int == clamp_spec(
            if at_cursor {
                pre.cursor as int
            } else {
                idx
            },
            post.view_len(),
        )
        &&& post.status is None
    }
}

/// Membership of `x` flipped: removed if present, inserted if absent.
pub open spec fn toggled_exps(s: Set<int>, x: int) -> Set<int> {
    if s.contains(x) {
        s.remove(x)
    } else {
        s.insert(x)
    }
}

/// The cursor clamped into a view of length `len`.
pub open spec fn clamp_spec(cur: int, len: int) -> int {
    if cur < len {
        cur
    } else if len == 0 {
        0
    } else {
        len - 1
    }
}

/// The cursor moved by `delta` and clamped into `[0, len)`, or reset
/// to `0` when the view is empty.
pub open spec fn move_cursor_spec(cur: int, delta: int, len: int) -> int {
    if len == 0 {
        0
    } else if cur + delta < 0 {
        0
    } else if cur + delta > len - 1 {
        len - 1
    } else {
        cur + delta
    }
}

/// The numeric value of a buffer of ASCII digits.
pub open spec fn buf_val(s: Seq<u8>) -> int
    decreases s.len(),
{
    if s.len() == 0 {
        0
    } else {
        buf_val(s.drop_last()) * 10 + (s.last() - 48)
    }
}

/// The visual state of the tree at a given moment: which directories
/// are expanded, where the cursor stands, how siblings are sorted, and
/// what the status line shows.
pub struct UiState<'a> {
    /// The scanned tree this session browses; never mutated.
    pub tree: &'a Tree,
    /// The directories currently shown expanded, by arena index.
    pub expanded_nodes: Vec<usize>,
    /// Current selected row index in the flattened view.
    pub cursor: usize,
    /// The active sibling sort.
    pub sort_mode: SortMode,
    /// Pending numeric input for an index toggle, as ASCII digits.
    pub input_buffer: Vec<u8>,
    /// Status line message for hints and errors.
    pub status: Option<StatusMessage>,
}

impl<'a> UiState<'a> {
    /// The expanded set, as a set of node indices.
    pub open spec fn exps(&self) -> Set<int> {
        exp_set(self.expanded_nodes@)
    }

    /// The rows the session currently shows.
    pub open spec fn view_spec(&self) -> Seq<(int, int)> {
        flatten_view_spec(self.tree, self.exps(), self.sort_mode)
    }

    /// How many rows the session currently shows.
    pub open spec fn view_len(&self) -> int {
        self.view_spec().len() as int
    }

    /// The expanded list names distinct directories of the tree.
    pub open spec fn exp_inv(&self) -> bool {
        &&& forall|k: int|
            0 <= k < self.expanded_nodes@.len() ==> (#[trigger] self.expanded_nodes@[k] as int)
                < self.tree.n() && self.tree.is_dir(self.expanded_nodes@[k] as int)
        &&& forall|k1: int, k2: int|
            0 <= k1 < k2 < self.expanded_nodes@.len() ==> self.expanded_nodes@[k1]
                != self.expanded_nodes@[k2]
    }

    /// The input buffer holds only ASCII digits.
    pub open spec fn buf_inv(&self) -> bool {
        forall|k: int|
            0 <= k < self.input_buffer@.len() ==> 48 <= #[trigger] self.input_buffer@[k] <= 57
    }

    /// Well-formedness of the session: the tree is well-formed, the
    /// expanded list names distinct directories of the tree, the input
    /// buffer holds only ASCII digits, and the cursor is in bounds.
    pub open spec fn wf(&self) -> bool {
        &&& self.tree.wf()
        &&& self.exp_inv()
        &&& self.buf_inv()
        &&& (self.cursor as int) < self.view_len()
    }

    /// Creates a new session over `root` with the root row expanded and
    /// the cursor on it, sorting by name, with no pending input and no
    /// status message.
    pub fn new(root: &'a Tree) -> (r: UiState<'a>)
        requires
            root.wf(),
        ensures
            r.wf(),
            r.tree == root,
            r.cursor == 0,
            r.sort_mode == SortMode::NameAsc,
            r.input_buffer@.len() == 0,
            r.status is None,
            r.exps() == if root.is_dir(0) {
                Set::<int>::empty().insert(0)
            } else {
                Set::<int>::empty()
            },
    {
        let mut expanded_nodes: Vec<usize> = Vec::new();
        let root_node = root.node(0);
        if root_node.kind().is_dir() {
            expanded_nodes.push(0);
        }
        let r = UiState {
            tree: root,
            expanded_nodes,
            cursor: 0,
            sort_mode: SortMode::NameAsc,
            input_buffer: Vec::new(),
            status: None,
        };
        proof {
            if root.is_dir(0) {
                assert(r.expanded_nodes@ =~= seq![0usize]);
                assert(r.expanded_nodes@.map_values(|x: usize| x as int) =~= seq![0int]);
                assert forall|e: int|
                    r.exps().contains(e) <==> Set::<int>::empty().insert(0).contains(e) by {
                    if r.exps().contains(e) {
                        let k = choose|k: int| 0 <= k < 1 && #[trigger] seq![0int][k] == e;
                        assert(e == 0);
                    }
                    if e == 0 {
                        assert(seq![0int][0] == 0);
                        assert(seq![0int].contains(0));
                    }
                }
                assert(r.exps() =~= Set::<int>::empty().insert(0));
            } else {
                assert(r.expanded_nodes@.map_values(|x: usize| x as int) =~= Seq::<int>::empty());
                assert(r.exps() =~= Set::<int>::empty());
            }
            lemma_view_len_at_least_one(&r);
        }
        r
    }

    /// Projects the tree into the flat list of currently visible rows,
    /// honouring the expanded set and the active sort mode.
    pub fn flatten_view(&self) -> (r: Vec<ViewItem>)
        requires
            self.tree.wf(),
        ensures
            view_ids(r@) == self.view_spec(),
            r@.len() == self.view_len(),
            r@.len() >= 1,
    {
        let mut out: Vec<ViewItem> = Vec::new();
        collect_rec(self.tree, self.sort_mode, &self.expanded_nodes, 0, 0, &mut out);
        proof {
            assert(view_ids(out@) =~= Seq::<(int, int)>::empty() + self.view_spec());
            lemma_view_len_at_least_one(self);
        }
        out
    }

    /// Flips membership of node `x` in the expanded list: removes it if
    /// present, appends it otherwise.
    fn toggle_membership(&mut self, x: usize)
        requires
            old(self).exp_inv(),
            (x as int) < old(self).tree.n(),
            old(self).tree.is_dir(x as int),
        ensures
            *final(self) == (UiState { expanded_nodes: final(self).expanded_nodes, ..*old(self) }),
            final(self).exps() == toggled_exps(old(self).exps(), x as int),
            final(self).exp_inv(),
    {
        let ghost pre = self.expanded_nodes@;
        let ghost ids = pre.map_values(|e: usize| e as int);
        let n = self.expanded_nodes.len();
        let mut k: usize = 0;
        while k < n
            invariant
                k <= n,
                n == self.expanded_nodes@.len(),
                *self == *old(self),
                old(self).exp_inv(),
                pre == old(self).expanded_nodes@,
                ids == pre.map_values(|e: usize| e as int),
                forall|j: int| 0 <= j < k ==> #[trigger] self.expanded_nodes@[j] != x,
            decreases n - k,
        {
            if self.expanded_nodes[k] == x {
                proof {
                    assert(self.expanded_nodes@[k as int] == x);
                    assert(ids[k as int] == x as int);
                    assert(ids.contains(x as int));
                    assert(old(self).exps().contains(x as int));
                }
                self.expanded_nodes.remove(k);
                proof {
                    assert forall|k1: int, k2: int| 0 <= k1 < k2 < ids.len() implies ids[k1]
                        != ids[k2] by {
                        assert(pre[k1] != pre[k2]);
                    }
                    lemma_remove_to_set(ids, k as int);
                    assert(self.expanded_nodes@ == pre.remove(k as int));
                    assert(self.expanded_nodes@.map_values(|e: usize| e as int) =~= ids.remove(
                        k as int,
                    ));
                    assert(self.exps() =~= toggled_exps(old(self).exps(), x as int));
                    assert forall|j: int| 0 <= j < self.expanded_nodes@.len() implies (
                    #[trigger] self.expanded_nodes@[j] as int) < self.tree.n() && self.tree.is_dir(
                        self.expanded_nodes@[j] as int,
                    ) by {
                        if j < k {
                            assert(self.expanded_nodes@[j] == pre[j]);
                        } else {
                            assert(self.expanded_nodes@[j] == pre[j + 1]);
                        }
                    }
                    assert forall|k1: int, k2: int|
                        0 <= k1 < k2 < self.expanded_nodes@.len() implies self.expanded_nodes@[k1]
                        != self.expanded_nodes@[k2] by {
                        let a1: int = if k1 < k {
                            k1
                        } else {
                            k1 + 1
                        };
                        let a2: int = if k2 < k {
                            k2
                        } else {
                            k2 + 1
                        };
                        assert(self.expanded_nodes@[k1] == pre[a1]);
                        assert(self.expanded_nodes@[k2] == pre[a2]);
                        assert(pre[a1] != pre[a2]);
                    }
                }
                return ;
            }
            k += 1;
        }
        proof {
            assert(!old(self).exps().contains(x as int)) by {
                if ids.contains(x as int) {
                    let j = choose|j: int| 0 <= j < ids.len() && ids[j] == x as int;
                    assert(self.expanded_nodes@[j] != x);
                }
            }
        }
        self.expanded_nodes.push(x);
        proof {
            let post = self.expanded_nodes@.map_values(|e: usize| e as int);
            assert(post =~= ids.push(x as int));
            assert forall|e: int|
                post.to_set().contains(e) <==> ids.to_set().insert(x as int).contains(e) by {
                if post.contains(e) {
                    let j = choose|j: int| 0 <= j < post.len() && #[trigger] post[j] == e;
                    if j < ids.len() {
                        assert(ids[j] == e);
                    }
                }
                if e == x as int {
                    assert(post[post.len() - 1] == e);
                }
                if ids.contains(e) {
                    let j = choose|j: int| 0 <= j < ids.len() && #[trigger] ids[j] == e;
                    assert(post[j] == e);
                }
            }
            assert(self.exps() =~= toggled_exps(old(self).exps(), x as int));
        }
    }

    /// Moves the cursor by a delta and clamps it within the view length.
    fn move_cursor(&mut self, delta: isize, view_len: usize)
        requires
            delta != isize::MIN,
            view_len == 0 || (old(self).cursor as int) < view_len as int,
        ensures
            *final(self) == (UiState { cursor: final(self).cursor, ..*old(self) }),
            final(self).cursor as int == move_cursor_spec(
                old(self).cursor as int,
                delta as int,
                view_len as int,
            ),
    {
        if view_len == 0 {
            self.cursor = 0;
            return ;
        }
        if delta < 0 {
            let step = (-delta) as usize;
            self.cursor = if self.cursor >= step {
                self.cursor - step
            } else {
                0
            };
        } else {
            let step = delta as usize;
            let maxc = view_len - 1;
            self.cursor = if maxc - self.cursor < step {
                maxc
            } else {
                self.cursor + step
            };
        }
    }

    /// Toggles the directory shown at view index `index`.
    ///
    /// Fails without changing anything if the index is not a visible
    /// row, or if the row shows a file. On success the node's
    /// membership in the expanded set is flipped and the cursor is
    /// clamped into the new view.
    fn toggle_by_index(&mut self, index: usize) -> (r: Result<(), UiError>)
        requires
            old(self).tree.wf(),
            old(self).exp_inv(),
        ensures
            final(self).tree == old(self).tree,
            final(self).exp_inv(),
            (index as int) >= old(self).view_len() ==> r == Err::<(), UiError>(
                UiError::IndexNotFound,
            ) && *final(self) == *old(self),
            (index as int) < old(self).view_len() && !old(self).tree.is_dir(
                old(self).view_spec()[index as int].0,
            ) ==> r == Err::<(), UiError>(UiError::NotToggleable) && *final(self) == *old(self),
            (index as int) < old(self).view_len() && old(self).tree.is_dir(
                old(self).view_spec()[index as int].0,
            ) ==> {
                &&& r is Ok
                &&& *final(self) == (UiState {
                    expanded_nodes: final(self).expanded_nodes,
                    cursor: final(self).cursor,
                    ..*old(self)
                })
                &&& final(self).exps() == toggled_exps(
                    old(self).exps(),
                    old(self).view_spec()[index as int].0,
                )
                &&& final(self).cursor as int == clamp_spec(
                    old(self).cursor as int,
                    final(self).view_len(),
                )
            },
    {
        let view = self.flatten_view();
        if index >= view.len() {
            return Err(UiError::IndexNotFound);
        }
        let target = view[index].node;
        proof {
            assert(view_ids(view@)[index as int] == self.view_spec()[index as int]);
            assert(target as int == self.view_spec()[index as int].0);
            crate::view::lemma_projection_correctness(self.tree, self.exps(), self.sort_mode);
            assert(crate::view::view_contains_node(self.view_spec(), target as int)) by {
                assert(0 <= (index as int) < self.view_spec().len() && self.view_spec()[index
                    as int].0 == target as int);
            }
            assert(crate::view::anc_expanded(self.tree, self.exps(), 0, target as int));
            if target as int != 0 {
                assert(0 < (target as int) < self.tree.n());
            }
        }
        let node = self.tree.node(target);
        if !node.kind().is_dir() {
            return Err(UiError::NotToggleable);
        }
        self.toggle_membership(target);
        let new_view = self.flatten_view();
        let new_len = new_view.len();
        if self.cursor >= new_len {
            self.cursor = new_len - 1;
        }
        Ok(())
    }

    /// Applies one discrete action to the session state.
    ///
    /// Returns `true` while the session should continue and `false`
    /// for [`Action::Quit`]. Failed toggles are recoverable: they set
    /// an error status and change nothing else; no action ever leaves
    /// the cursor outside the view.
    pub fn update(&mut self, action: Action) -> (cont: bool)
        requires
            old(self).wf(),
        ensures
            final(self).wf(),
            final(self).tree == old(self).tree,
            (final(self).cursor as int) < final(self).view_len(),
            cont == !(action is Quit),
            match action {
                Action::Quit => *final(self) == *old(self),
                Action::MoveUp => {
                    &&& *final(self) == (UiState {
                        cursor: final(self).cursor,
                        input_buffer: final(self).input_buffer,
                        status: None,
                        ..*old(self)
                    })
                    &&& final(self).input_buffer@.len() == 0
                    &&& final(self).cursor as int == move_cursor_spec(
                        old(self).cursor as int,
                        -1,
                        old(self).view_len(),
                    )
                },
                Action::MoveDown => {
                    &&& *final(self) == (UiState {
                        cursor: final(self).cursor,
                        input_buffer: final(self).input_buffer,
                        status: None,
                        ..*old(self)
                    })
                    &&& final(self).input_buffer@.len() == 0
                    &&& final(self).cursor as int == move_cursor_spec(
                        old(self).cursor as int,
                        1,
                        old(self).view_len(),
                    )
                },
                Action::ToggleSort => {
                    &&& *final(self) == (UiState {
                        input_buffer: final(self).input_buffer,
                        status: None,
                        sort_mode: flipped(old(self).sort_mode),
                        ..*old(self)
                    })
                    &&& final(self).input_buffer@.len() == 0
                },
                Action::InputDigit(ch) => {
                    &&& *final(self) == (UiState {
                        input_buffer: final(self).input_buffer,
                        status: None,
                        ..*old(self)
                    })
                    &&& if 48 <= (ch as int) <= 57 {
                        &&& final(self).input_buffer@.len() == old(self).input_buffer@.len() + 1
                        &&& final(self).input_buffer@.drop_last() == old(self).input_buffer@
                        &&& final(self).input_buffer@.last() as int == ch as int
                    } else {
                        final(self).input_buffer@ == old(self).input_buffer@
                    }
                },
                Action::InputBackspace => {
                    &&& *final(self) == (UiState {
                        input_buffer: final(self).input_buffer,
                        status: None,
                        ..*old(self)
                    })
                    &&& final(self).input_buffer@ == if old(self).input_buffer@.len() > 0 {
                        old(self).input_buffer@.drop_last()
                    } else {
                        old(self).input_buffer@
                    }
                },
                Action::ToggleAtCursor => toggle_done(
                    *old(self),
                    *final(self),
                    old(self).cursor as int,
                    true,
                ),
                Action::Toggle(index) => toggle_done(*old(self), *final(self), index as int, false),
                Action::Enter => {
                    if old(self).input_buffer@.len() == 0 {
                        toggle_done(*old(self), *final(self), old(self).cursor as int, true)
                    } else if buf_val(old(self).input_buffer@) > usize::MAX as int {
                        &&& *final(self) == (UiState {
                            input_buffer: final(self).input_buffer,
                            status: final(self).status,
                            ..*old(self)
                        })
                        &&& final(self).input_buffer@.len() == 0
                        &&& final(self).status matches Some(msg) && msg.is_error && msg.text@
                            == msg_invalid_index()
                    } else {
                        toggle_done(
                            *old(self),
                            *final(self),
                            buf_val(old(self).input_buffer@),
                            false,
                        )
                    }
                },
            },
    {
        let view_len = self.flatten_view().len();
        match action {
            Action::MoveUp => {
                self.input_buffer.clear();
                self.clear_status();
                self.move_cursor(-1, view_len);
                true
            },
            Action::MoveDown => {
                self.input_buffer.clear();
                self.clear_status();
                self.move_cursor(1, view_len);
                true
            },
            Action::ToggleSort => {
                self.input_buffer.clear();
                self.clear_status();
                self.sort_mode = match self.sort_mode {
                    SortMode::NameAsc => SortMode::SizeDesc,
                    SortMode::SizeDesc => SortMode::NameAsc,
                };
                proof {
                    // The sorts only permute siblings, so the view keeps its
                    // length and the cursor stays in bounds.
                    crate::view::lemma_view_len_mode_independent(
                        self.tree,
                        self.exps(),
                        old(self).sort_mode,
                        self.sort_mode,
                    );
                }
                true
            },
            Action::ToggleAtCursor => {
                self.input_buffer.clear();
                match self.toggle_at_cursor() {
                    Ok(()) => self.clear_status(),
                    Err(e) => {
                        let msg = e.message();
                        self.set_error(msg.as_str());
                    },
                }
                true
            },
            Action::Toggle(index) => {
                self.input_buffer.clear();
                match self.toggle_by_index(index) {
                    Ok(()) => {
                        let new_len = self.flatten_view().len();
                        self.cursor = if index < new_len {
                            index
                        } else {
                            new_len - 1
                        };
                        self.clear_status();
                    },
                    Err(e) => {
                        let msg = e.message();
                        self.set_error(msg.as_str());
                    },
                }
                true
            },
            Action::Enter => {
                if self.input_buffer.len() == 0 {
                    match self.toggle_at_cursor() {
                        Ok(()) => self.clear_status(),
                        Err(e) => {
                            let msg = e.message();
                            self.set_error(msg.as_str());
                        },
                    }
                } else {
                    match parse_buffer(&self.input_buffer) {
                        Some(index) => {
                            match self.toggle_by_index(index) {
                                Ok(()) => {
                                    let new_len = self.flatten_view().len();
                                    self.cursor = if index < new_len {
                                        index
                                    } else {
                                        new_len - 1
                                    };
                                    self.clear_status();
                                },
                                Err(e) => {
                                    let msg = e.message();
                                    self.set_error(msg.as_str());
                                },
                            }
                        },
                        None => {
                            self.set_error("invalid index");
                        },
                    }
                }
                self.input_buffer.clear();
                true
            },
            Action::InputDigit(ch) => {
                let d = ch as u32;
                if 48 <= d && d <= 57 {
                    self.input_buffer.push(d as u8);
                    proof {
                        assert(self.input_buffer@.drop_last() =~= old(self).input_buffer@);
                    }
                }
                self.clear_status();
                true
            },
            Action::InputBackspace => {
                self.input_buffer.pop();
                self.clear_status();
                true
            },
            Action::Quit => false,
        }
    }

    /// Toggles the directory at the current cursor position.
    fn toggle_at_cursor(&mut self) -> (r: Result<(), UiError>)
        requires
            old(self).tree.wf(),
            old(self).exp_inv(),
        ensures
            final(self).tree == old(self).tree,
            final(self).exp_inv(),
            (old(self).cursor as int) >= old(self).view_len() ==> r == Err::<(), UiError>(
                UiError::IndexNotFound,
            ) && *final(self) == *old(self),
            (old(self).cursor as int) < old(self).view_len() && !old(self).tree.is_dir(
                old(self).view_spec()[old(self).cursor as int].0,
            ) ==> r == Err::<(), UiError>(UiError::NotToggleable) && *final(self) == *old(self),
            (old(self).cursor as int) < old(self).view_len() && old(self).tree.is_dir(
                old(self).view_spec()[old(self).cursor as int].0,
            ) ==> {
                &&& r is Ok
                &&& *final(self) == (UiState {
                    expanded_nodes: final(self).expanded_nodes,
                    cursor: final(self).cursor,
                    ..*old(self)
                })
                &&& final(self).exps() == toggled_exps(
                    old(self).exps(),
                    old(self).view_spec()[old(self).cursor as int].0,
                )
                &&& final(self).cursor as int == clamp_spec(
                    old(self).cursor as int,
                    final(self).view_len(),
                )
            },
    {
        let cur = self.cursor;
        self.toggle_by_index(cur)
    }

    /// Records an error on the status line.
    fn set_error(&mut self, text: &str)
        ensures
            *final(self) == (UiState {
                status: final(self).status,
                ..*old(self)
            }),
            final(self).status matches Some(msg) && msg.is_error && msg.text@ == text@,
    {
        self.status = Some(StatusMessage { text: text.to_owned(), is_error: true });
    }

    /// Clears the status line.
    fn clear_status(&mut self)
        ensures
            *final(self) == (UiState {
                status: None,
                ..*old(self)
            }),
    {
        self.status = None;
    }
}

/// The value of a digit buffer is never negative.
proof fn lemma_buf_val_nonneg(s: Seq<u8>)
    requires
        forall|k: int| 0 <= k < s.len() ==> 48 <= #[trigger] s[k] <= 57,
    ensures
        buf_val(s) >= 0,
    decreases s.len(),
{
    if s.len() > 0 {
        assert forall|k: int| 0 <= k < s.drop_last().len() implies 48 <= #[trigger] s.drop_last()[k]
            <= 57 by {
            assert(s.drop_last()[k] == s[k]);
        }
        lemma_buf_val_nonneg(s.drop_last());
    }
}

/// A digit buffer is worth at least any of its prefixes.
proof fn lemma_buf_val_prefix(s: Seq<u8>, k: int)
    requires
        forall|j: int| 0 <= j < s.len() ==> 48 <= #[trigger] s[j] <= 57,
        0 <= k <= s.len(),
    ensures
        buf_val(s) >= buf_val(s.take(k)),
    decreases s.len() - k,
{
    if k == s.len() {
        assert(s.take(k) =~= s);
    } else {
        lemma_buf_val_prefix(s, k + 1);
        assert(s.take(k + 1).drop_last() =~= s.take(k));
        assert(s.take(k + 1).last() == s[k]);
        assert forall|j: int| 0 <= j < s.take(k).len() implies 48 <= #[trigger] s.take(k)[j]
            <= 57 by {
            assert(s.take(k)[j] == s[j]);
        }
        lemma_buf_val_nonneg(s.take(k));
        assert(buf_val(s.take(k + 1)) == buf_val(s.take(k)) * 10 + (s[k] - 48));
        assert(buf_val(s.take(k)) * 10 >= buf_val(s.take(k)));
    }
}

/// Parses a buffer of ASCII digits as a decimal number; `None` when the
/// value does not fit the machine's index type.
fn parse_buffer(buf: &Vec<u8>) -> (r: Option<usize>)
    requires
        forall|k: int| 0 <= k < buf@.len() ==> 48 <= #[trigger] buf@[k] <= 57,
    ensures
        match r {
            Some(v) => v as int == buf_val(buf@) && buf_val(buf@) <= usize::MAX as int,
            None => buf_val(buf@) > usize::MAX as int,
        },
{
    let mut acc: usize = 0;
    let mut k: usize = 0;
    proof {
        assert(buf@.take(0) =~= Seq::<u8>::empty());
    }
    while k < buf.len()
        invariant
            k <= buf@.len(),
            forall|j: int| 0 <= j < buf@.len() ==> 48 <= #[trigger] buf@[j] <= 57,
            acc as int == buf_val(buf@.take(k as int)),
        decreases buf@.len() - k,
    {
        let d = buf[k] - 48;
        proof {
            assert(buf@.take(k + 1).drop_last() =~= buf@.take(k as int));
            assert(buf@.take(k + 1).last() == buf@[k as int]);
            assert(buf_val(buf@.take(k + 1)) == (acc as int) * 10 + (d as int));
        }
        match acc.checked_mul(10) {
            Some(m) => {
                match m.checked_add(d as usize) {
                    Some(a) => {
                        acc = a;
                    },
                    None => {
                        proof {
                            lemma_buf_val_prefix(buf@, k + 1);
                        }
                        return None;
                    },
                }
            },
            None => {
                proof {
                    lemma_buf_val_prefix(buf@, k + 1);
                }
                return None;
            },
        }
        k += 1;
    }
    proof {
        assert(buf@.take(buf@.len() as int) =~= buf@);
    }
    Some(acc)
}

/// Removing one occurrence from a duplicate-free sequence removes the
/// element from its set.
proof fn lemma_remove_to_set(ids: Seq<int>, p: int)
    requires
        0 <= p < ids.len(),
        forall|k1: int, k2: int| 0 <= k1 < k2 < ids.len() ==> ids[k1] != ids[k2],
    ensures
        ids.remove(p).to_set() =~= ids.to_set().remove(ids[p]),
{
    let out = ids.remove(p);
    let x = ids[p];
    assert forall|e: int| out.to_set().contains(e) <==> ids.to_set().remove(x).contains(e) by {
        if out.contains(e) {
            let j = choose|j: int| 0 <= j < out.len() && #[trigger] out[j] == e;
            if j < p {
                assert(ids[j] == e);
                assert(ids.contains(e));
                assert(e != x);
            } else {
                assert(ids[j + 1] == e);
                assert(ids.contains(e));
                assert(e != x);
            }
        }
        if e != x && ids.contains(e) {
            let j = choose|j: int| 0 <= j < ids.len() && #[trigger] ids[j] == e;
            if j < p {
                assert(out[j] == e);
            } else {
                assert(j != p);
                assert(out[j - 1] == e);
            }
            assert(out.contains(e));
        }
    }
}

/// Toggle idempotence of membership, not of view: toggling a visible
/// directory twice restores the expanded set exactly; and as long as
/// the directory has at least one child, the intermediate view differs
/// from the original one.
pub proof fn lemma_toggle_twice(t: &Tree, exp: Set<int>, m: SortMode, x: int)
    requires
        t.wf(),
        0 <= x < t.n(),
        t.is_dir(x),
        view_contains_node(flatten_view_spec(t, exp, m), x),
        t.children_of(x).len() > 0,
    ensures
        toggled_exps(toggled_exps(exp, x), x) == exp,
        flatten_view_spec(t, toggled_exps(exp, x), m) != flatten_view_spec(t, exp, m),
{
    let exp2 = toggled_exps(exp, x);
    assert(toggled_exps(exp2, x) =~= exp);
    let c = t.children_of(x)[0];
    assert(x < c < t.n() && t.parent_of(c) == x);
    lemma_projection_correctness(t, exp, m);
    lemma_projection_correctness(t, exp2, m);
    assert(anc_expanded(t, exp, 0, x));
    lemma_anc_expanded_agree(t, exp, exp2, 0, x);
    assert(anc_expanded(t, exp2, 0, x));
    assert(anc_expanded(t, exp, 0, c) == (exp.contains(x) && anc_expanded(t, exp, 0, x)));
    assert(anc_expanded(t, exp2, 0, c) == (exp2.contains(x) && anc_expanded(t, exp2, 0, x)));
    assert(exp2.contains(x) == !exp.contains(x));
    assert(view_contains_node(flatten_view_spec(t, exp, m), c) != view_contains_node(
        flatten_view_spec(t, exp2, m),
        c,
    ));
}

/// The view always shows at least the root row.
pub proof fn lemma_view_len_at_least_one(s: &UiState<'_>)
    requires
        s.tree.wf(),
    ensures
        s.view_len() >= 1,
{
    assert(s.view_spec().len() >= 1);
}

} // verus!
