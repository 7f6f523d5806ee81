use vstd::prelude::*;

use crate::def::{Def, find_branch, opt_str_view};
use crate::def::node::NodeChildren;
use super::branch::BranchContainer;
use super::node_children::NodeChildrenContainer;
use super::param_group::ParamGroupContainer;

verus! {

/// A node of a definition, by index.
pub struct NodeContainer<'a, F> {
    pub(crate) def: &'a Def<F>,
    pub(crate) node_ind: usize,
}

impl<'a, F> Clone for NodeContainer<'a, F> {
    fn clone(&self) -> (r: Self)
        ensures
            r == *self,
    {
        NodeContainer { def: self.def, node_ind: self.node_ind }
    }
}

impl<'a, F> Copy for NodeContainer<'a, F> {

}

/// The view of an optional string slice.
pub open spec fn opt_slice_view(o: Option<&str>) -> Option<Seq<char>> {
    match o {
        Some(s) => Some(s@),
        None => None,
    }
}

impl<'a, F> NodeContainer<'a, F> {
    /// The definition it belongs to.
    pub open(crate) spec fn def_view(&self) -> Def<F> {
        *self.def
    }

    /// Its node index.
    pub open(crate) spec fn ind(&self) -> int {
        self.node_ind as int
    }

    /// It names a node of a well-formed definition.
    pub open spec fn valid(&self) -> bool {
        self.def_view().wf() && 0 <= self.ind() < self.def_view().nodes().len()
    }

    /// What the node takes below it; a branch name that the definition lacks
    /// is given back as such.
    pub fn children(&self) -> (r: NodeChildrenContainer<'a, F>)
        requires
            self.valid(),
        ensures
            match self.def_view().nodes()[self.ind()].children {
                NodeChildren::Empty => r is Empty,
                NodeChildren::Body(l) => r matches NodeChildrenContainer::Body(rl) && opt_slice_view(
                    rl,
                ) == opt_str_view(l),
                NodeChildren::Branch(name) => match find_branch(self.def_view().branches(), name@) {
                    Some(b) => r matches NodeChildrenContainer::Branch(bc) && bc.def_view()
                        == self.def_view() && bc.ind() == b,
                    None => r matches NodeChildrenContainer::BranchMissing(s) && s@ == name@,
                },
            },
    {
        let node = &self.def.nodes[self.node_ind];
        match &node.children {
            NodeChildren::Empty => NodeChildrenContainer::Empty,
            NodeChildren::Body(l) => NodeChildrenContainer::Body(
                match l {
                    Some(x) => Some(x.as_str()),
                    None => None,
                },
            ),
            NodeChildren::Branch(name) => match self.def.find_branch_ind(name.as_str()) {
                Some(b) => NodeChildrenContainer::Branch(BranchContainer { def: self.def, branch_ind: b }),
                None => NodeChildrenContainer::BranchMissing(name.as_str()),
            },
        }
    }

    /// The index of the branch the node belongs to.
    pub fn branch_ind(&self) -> (r: usize)
        requires
            self.valid(),
        ensures
            r == self.def_view().nodes()[self.ind()].branch_ind,
    {
        self.def.nodes[self.node_ind].branch_ind
    }

    /// The branch the node belongs to.
    pub fn branch(&self) -> (r: BranchContainer<'a, F>)
        requires
            self.valid(),
        ensures
            r.def_view() == self.def_view(),
            r.ind() == self.def_view().nodes()[self.ind()].branch_ind,
    {
        let b = self.branch_ind();
        BranchContainer { def: self.def, branch_ind: b }
    }

    pub fn node_ind(&self) -> (r: usize)
        ensures
            r == self.ind(),
    {
        self.node_ind
    }

    /// Whether the node's records start with its tag.
    pub fn has_tag(&self) -> (r: bool)
        requires
            self.valid(),
        ensures
            r == self.def_view().nodes()[self.ind()].has_tag,
    {
        self.def.nodes[self.node_ind].has_tag
    }

    /// Whether the node's tag may stand once only among the records under one parent.
    pub fn tag_once(&self) -> (r: bool)
        requires
            self.valid(),
        ensures
            r == self.def_view().nodes()[self.ind()].tag_once,
    {
        self.def.nodes[self.node_ind].tag_once
    }

    pub fn label(&self) -> (r: Option<&'a str>)
        requires
            self.valid(),
        ensures
            opt_slice_view(r) == opt_str_view(self.def_view().nodes()[self.ind()].node_label),
    {
        match &self.def.nodes[self.node_ind].node_label {
            Some(l) => Some(l.as_str()),
            None => None,
        }
    }

    /// The group `i` of the node, if it has one.
    pub fn param_group(&self, i: usize) -> (r: Option<ParamGroupContainer<'a, F>>)
        requires
            self.valid(),
        ensures
            (r is Some) == (i < self.def_view().nodes()[self.ind()].param_groups@.len()),
            r matches Some(g) ==> g.def_view() == self.def_view() && g.node() == self.ind()
                && g.group() == i && g.valid(),
    {
        if i < self.def.nodes[self.node_ind].param_groups.len() {
            Some(ParamGroupContainer { def: self.def, node_ind: self.node_ind, param_group_ind: i })
        } else {
            None
        }
    }

    pub fn param_groups_num(&self) -> (r: usize)
        requires
            self.valid(),
        ensures
            r == self.def_view().nodes()[self.ind()].param_groups@.len(),
    {
        self.def.nodes[self.node_ind].param_groups.len()
    }
}

} // verus!
