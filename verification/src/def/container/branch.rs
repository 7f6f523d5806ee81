use vstd::prelude::*;

use std::path::Path;

use crate::conf::Conf;
use crate::def::{Def, opt_str_view};
use crate::lexer::loc::src_fits;
use crate::parser::{parse_start, conf_reads, parse_fails};
use crate::parser::start::values_are;
use crate::parser::error::ParseError;
use crate::parser::matching::parsers_total;
use super::node::opt_slice_view;
use super::node_iter::{NodeContainerIter, trav, name_view};

verus! {

/// A branch of a definition, by index.
pub struct BranchContainer<'a, F> {
    pub(crate) def: &'a Def<F>,
    pub(crate) branch_ind: usize,
}

impl<'a, F> BranchContainer<'a, F> {
    /// The definition it belongs to.
    pub open(crate) spec fn def_view(&self) -> Def<F> {
        *self.def
    }

    /// Its branch index.
    pub open(crate) spec fn ind(&self) -> int {
        self.branch_ind as int
    }
}

impl<'a, F> BranchContainer<'a, F> {
    /// It names a branch of a well-formed definition.
    pub open spec fn valid(&self) -> bool {
        self.def_view().wf() && 0 <= self.ind() < self.def_view().branches().len()
    }

    /// The nodes of this branch and of the branches it takes in, with the tag
    /// `tag_name`, in the order they are tried.
    pub fn get_tag_nodes(&self, tag_name: &str) -> (r: NodeContainerIter<'a, F>)
        requires
            self.valid(),
        ensures
            r.def_view() == self.def_view(),
            r.inv(),
            r.valid(),
            r.remaining() == trav(
                self.def_view().branches(),
                Some(tag_name@),
                Seq::empty(),
                seq![opt_str_view(self.def_view().branches()[self.ind()].branch_name)],
            ),
    {
        let name = self.name();
        NodeContainerIter::new(self.def, name, Some(tag_name))
    }

    /// The untagged nodes of this branch and of the branches it takes in, in
    /// the order they are tried.
    pub fn get_tagless_nodes(&self) -> (r: NodeContainerIter<'a, F>)
        requires
            self.valid(),
        ensures
            r.def_view() == self.def_view(),
            r.inv(),
            r.valid(),
            r.remaining() == trav(
                self.def_view().branches(),
                None,
                Seq::empty(),
                seq![opt_str_view(self.def_view().branches()[self.ind()].branch_name)],
            ),
    {
        let name = self.name();
        NodeContainerIter::new(self.def, name, None)
    }

    /// The name of the branch; `None` for an unnamed root.
    pub fn name(&self) -> (r: Option<&'a str>)
        requires
            self.valid(),
        ensures
            opt_slice_view(r) == opt_str_view(self.def_view().branches()[self.ind()].branch_name),
            name_view(r) == opt_str_view(self.def_view().branches()[self.ind()].branch_name),
    {
        match &self.def.branches[self.branch_ind].branch_name {
            Some(n) => Some(n.as_str()),
            None => None,
        }
    }

    pub fn branch_ind(&self) -> (r: usize)
        ensures
            r == self.ind(),
    {
        self.branch_ind
    }

    /// Parses `src` with this branch as the root branch (see `parse_start`).
    pub fn parse<P>(&self, src: &str, keep_src: bool, path: Option<&Path>) -> (r: Result<Conf<P>, ParseError>)
        where
            F: Fn(&str) -> Option<P>,
        requires
            self.valid(),
            parsers_total::<F, P>(self.def_view()),
            src_fits(src@),
        ensures
            r matches Ok(c) ==> c.src_view() == (if keep_src {
                Some(src@)
            } else {
                None
            }) && c.has_path() == (path is Some),
            r matches Ok(c) ==> exists|w: (Seq<bool>, Seq<int>, Seq<int>, Seq<int>)|
                #[trigger] conf_reads(self.def_view(), self.ind(), c, src@, w),
            r matches Err(e) ==> (e.path is Some) == (path is Some),
            r matches Err(e) ==> parse_fails::<F, P>(self.def_view(), self.ind(), src@, e, path is Some),
    {
        parse_start(*self, src, keep_src, path)
    }
}

impl<'a, F> Clone for BranchContainer<'a, F> {
    fn clone(&self) -> (r: Self)
        ensures
            r == *self,
    {
        BranchContainer { def: self.def, branch_ind: self.branch_ind }
    }
}

impl<'a, F> Copy for BranchContainer<'a, F> {

}

} // verus!
