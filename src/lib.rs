//! A tree stored flat, in pre-order, in one vector.
//!
//! Each node records the index of its parent (its own index for a root) and
//! how many nodes follow it that belong to its subtree. Subtrees are therefore
//! contiguous, which makes descendants, children and ancestors cheap to find.

mod key;
mod laws;
mod tree;

pub use key::NodeId;
pub use laws::{
    lemma_ancestor_walk, lemma_children_between_members, lemma_children_walk,
    lemma_descendant_count, lemma_roots_separate,
};
pub use tree::{
    ancestor_chain, bumped_counts, children_between, children_of, counts_of, is_ancestor,
    is_child, is_root, lemma_ancestor_before, lemma_ancestor_trans, parents_of, shape_wf,
    values_of, ChildrenIter, Node, ParentIter, Tree,
};
