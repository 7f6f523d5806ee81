use vstd::prelude::*;

use super::branch::BranchContainer;

verus! {

/// What a node takes below it, as found in its definition: nothing, a body of
/// text (with a label for its lines, if any), the records of a branch, or a
/// branch name that the definition lacks.
pub enum NodeChildrenContainer<'a, F> {
    Empty,
    Body(Option<&'a str>),
    Branch(BranchContainer<'a, F>),
    BranchMissing(&'a str),
}

impl<'a, F> Clone for NodeChildrenContainer<'a, F> {
    fn clone(&self) -> (r: Self)
        ensures
            r == *self,
    {
        match self {
            NodeChildrenContainer::Empty => NodeChildrenContainer::Empty,
            NodeChildrenContainer::Body(l) => NodeChildrenContainer::Body(*l),
            NodeChildrenContainer::Branch(b) => NodeChildrenContainer::Branch(*b),
            NodeChildrenContainer::BranchMissing(n) => NodeChildrenContainer::BranchMissing(*n),
        }
    }
}

impl<'a, F> Copy for NodeChildrenContainer<'a, F> {

}

impl<'a, F> NodeChildrenContainer<'a, F> {
    /// Whether the node takes a body of text.
    pub fn is_body(&self) -> (r: bool)
        ensures
            r == (*self is Body),
    {
        match self {
            NodeChildrenContainer::Body(_) => true,
            _ => false,
        }
    }

    /// The label of a body's lines, if the node takes a body and it has one.
    pub fn body_node_label(&self) -> (r: Option<&'a str>)
        ensures
            r == match *self {
                NodeChildrenContainer::Body(l) => l,
                _ => None,
            },
    {
        match self {
            NodeChildrenContainer::Body(l) => *l,
            _ => None,
        }
    }
}

} // verus!
