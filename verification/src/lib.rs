//! An interactive explorer for a scanned filesystem subtree.
//!
//! The library has two halves: a tree builder that turns a flat, preorder
//! description of filesystem entries into a size-annotated [`model::Tree`],
//! and a view engine ([`ui_state::UiState`]) that projects that tree into a
//! flat, depth-annotated list driven by an expand/collapse set, a cursor,
//! a sort mode and a small numeric-input state machine.

pub mod model;
pub mod order;
pub mod scan;
pub mod theme;
pub mod ui_state;
pub mod view;
