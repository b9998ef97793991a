use vstd::prelude::*;

verus! {

/// An index type for the nodes of a tree.
///
/// It converts losslessly to and from the position of a node in the tree's
/// storage. A newtype over `usize` keeps the indices of unrelated trees apart.
pub trait NodeId: Sized {
    /// The position that this id stands for.
    spec fn index_of(&self) -> nat;

    fn from_index(i: usize) -> (r: Self)
        ensures
            r.index_of() == i,
    ;

    fn into_index(self) -> (r: usize)
        ensures
            r as nat == self.index_of(),
    ;
}

impl NodeId for usize {
    open spec fn index_of(&self) -> nat {
        *self as nat
    }

    fn from_index(i: usize) -> (r: usize) {
        i
    }

    fn into_index(self) -> (r: usize) {
        self
    }
}

} // verus!
