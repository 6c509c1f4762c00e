//! The scan entry point: turns a flat, preorder description of
//! filesystem entries into a size-annotated [`Tree`].
//!
//! Reading the filesystem itself is left to the caller, which walks the
//! subtree in preorder and records one [`RawEntry`] per reachable entry;
//! entries that cannot be read are simply not recorded.

use crate::model::{RawEntry, ScanError, Tree};
use crate::model::{final_size, kids_upto, sizes_fit, valid_input, valid_structure};
use vstd::prelude::*;

verus! {

/// Builds the scanned tree for a preorder list of raw entries.
///
/// Succeeds exactly when the entries are structurally valid and every
/// directory's aggregated size fits in 64 bits; see [`Tree::build`].
pub fn scan(entries: &Vec<RawEntry>) -> (r: Result<Tree, ScanError>)
    ensures
        r is Ok <==> valid_input(entries@),
        entries@.len() == 0 ==> r == Err::<Tree, ScanError>(ScanError::NoEntries),
        entries@.len() >= 1 && !valid_structure(entries@) ==> r == Err::<Tree, ScanError>(
            ScanError::InvalidParent,
        ),
        valid_structure(entries@) && !sizes_fit(entries@) ==> r == Err::<Tree, ScanError>(
            ScanError::SizeOverflow,
        ),
        r matches Ok(t) ==> {
            &&& t.wf()
            &&& t.n() == entries@.len()
            &&& forall|i: int| 0 <= i < t.n() ==> #[trigger] t.path_of(i) == entries@[i].path@
            &&& forall|i: int| 0 <= i < t.n() ==> #[trigger] t.is_dir(i) == entries@[i].is_dir
            &&& forall|i: int|
                0 <= i < t.n() ==> #[trigger] t.size_of(i) == final_size(entries@, i)
            &&& forall|i: int|
                0 <= i < t.n() ==> #[trigger] t.parent_of(i) == entries@[i].parent as int
            &&& forall|i: int|
                0 <= i < t.n() ==> #[trigger] t.children_of(i) == kids_upto(entries@, i, t.n())
        },
{
    Tree::build(entries)
}

} // verus!
