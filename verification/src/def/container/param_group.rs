use vstd::prelude::*;

use crate::def::{Def, opt_str_view, node_params_valid};
use crate::def::node::{GroupSimilar, ParamGroup};
use super::node::opt_slice_view;

verus! {

/// A group of parameters of a node of a definition, by index.
pub struct ParamGroupContainer<'a, F> {
    pub(crate) def: &'a Def<F>,
    pub(crate) node_ind: usize,
    pub(crate) param_group_ind: usize,
}

impl<'a, F> Clone for ParamGroupContainer<'a, F> {
    fn clone(&self) -> (r: Self)
        ensures
            r == *self,
    {
        ParamGroupContainer { def: self.def, node_ind: self.node_ind, param_group_ind: self.param_group_ind }
    }
}

impl<'a, F> Copy for ParamGroupContainer<'a, F> {

}

impl<'a, F> ParamGroupContainer<'a, F> {
    pub open(crate) spec fn def_view(&self) -> Def<F> {
        *self.def
    }

    pub open(crate) spec fn node(&self) -> int {
        self.node_ind as int
    }

    pub open(crate) spec fn group(&self) -> int {
        self.param_group_ind as int
    }

    /// It names a group of a node of a well-formed definition.
    pub open spec fn valid(&self) -> bool {
        &&& self.def_view().wf()
        &&& 0 <= self.node() < self.def_view().nodes().len()
        &&& 0 <= self.group() < self.def_view().nodes()[self.node()].param_groups@.len()
    }

    /// The group it names.
    pub open spec fn spec_group(&self) -> ParamGroup {
        self.def_view().nodes()[self.node()].param_groups@[self.group()]
    }

    /// The kind of parameter `i`: the type key of its parser, or `None` for any
    /// value or past the last parameter.
    pub open spec fn kind(&self, i: int) -> Option<u64> {
        if 0 <= i < self.spec_group().params@.len() {
            match self.spec_group().params@[i] {
                Some(p) => Some(self.def_view().params()[p as int].0),
                None => None,
            }
        } else {
            None
        }
    }

    pub fn params_num(&self) -> (r: usize)
        requires
            self.valid(),
        ensures
            r == self.spec_group().params@.len(),
    {
        self.def.nodes[self.node_ind].param_groups[self.param_group_ind].params.len()
    }

    /// From which parameter on they may be left out, if set.
    pub fn param_optional(&self) -> (r: Option<usize>)
        requires
            self.valid(),
        ensures
            r == self.spec_group().param_optional,
    {
        self.def.nodes[self.node_ind].param_groups[self.param_group_ind].param_optional
    }

    pub fn optional(&self) -> (r: bool)
        requires
            self.valid(),
        ensures
            r == self.spec_group().optional,
    {
        self.def.nodes[self.node_ind].param_groups[self.param_group_ind].optional
    }

    pub fn repeat(&self) -> (r: bool)
        requires
            self.valid(),
        ensures
            r == self.spec_group().repeat,
    {
        self.def.nodes[self.node_ind].param_groups[self.param_group_ind].repeat
    }

    pub fn name(&self) -> (r: Option<&'a str>)
        requires
            self.valid(),
        ensures
            opt_slice_view(r) == opt_str_view(self.spec_group().name),
    {
        match &self.def.nodes[self.node_ind].param_groups[self.param_group_ind].name {
            Some(n) => Some(n.as_str()),
            None => None,
        }
    }

    pub fn similar(&self) -> (r: GroupSimilar)
        requires
            self.valid(),
        ensures
            r == self.spec_group().similar,
    {
        self.def.nodes[self.node_ind].param_groups[self.param_group_ind].similar
    }

    /// How many times the group's parameter pattern repeats.
    pub fn params_patterns_num(&self) -> (r: usize)
        requires
            self.valid(),
        ensures
            r == self.spec_group().patterns_num,
    {
        self.def.nodes[self.node_ind].param_groups[self.param_group_ind].patterns_num
    }

    /// The length of the group's parameter pattern.
    pub fn params_pattern_len(&self) -> (r: usize)
        requires
            self.valid(),
        ensures
            r == self.spec_group().pattern_len,
    {
        self.def.nodes[self.node_ind].param_groups[self.param_group_ind].pattern_len
    }

    /// The type key of parameter `i`'s parser; `None` for a parameter that
    /// takes any value, or past the last parameter.
    pub fn param_type_id(&self, i: usize) -> (r: Option<u64>)
        requires
            self.valid(),
        ensures
            r == self.kind(i as int),
    {
        let g = &self.def.nodes[self.node_ind].param_groups[self.param_group_ind];
        if i < g.params.len() {
            proof {
                assert(node_params_valid(self.def_view().nodes()[self.node()], self.def_view().params().len() as int));
                assert(g.params@[i as int] == self.spec_group().params@[i as int]);
            }
            match g.params[i] {
                Some(p) => Some(self.def.params[p].0),
                None => None,
            }
        } else {
            None
        }
    }

    /// The parser of parameter `i`, if it has one.
    pub open spec fn parser(&self, i: int) -> Option<F> {
        if 0 <= i < self.spec_group().params@.len() {
            match self.spec_group().params@[i] {
                Some(p) => Some(self.def_view().params()[p as int].1),
                None => None,
            }
        } else {
            None
        }
    }

    /// Reads `s` with the parser of parameter `i`; `None` if it fails, or if
    /// the parameter takes any value or there is no such parameter.
    pub fn param_parse<P>(&self, i: usize, s: &str) -> (r: Option<P>)
        where
            F: Fn(&str) -> Option<P>,
        requires
            self.valid(),
            self.parser(i as int) matches Some(f) ==> f.requires((s,)),
        ensures
            self.parser(i as int) matches Some(f) ==> f.ensures((s,), r),
            self.parser(i as int) is None ==> r is None,
    {
        let g = &self.def.nodes[self.node_ind].param_groups[self.param_group_ind];
        if i < g.params.len() {
            proof {
                assert(node_params_valid(self.def_view().nodes()[self.node()], self.def_view().params().len() as int));
                assert(g.params@[i as int] == self.spec_group().params@[i as int]);
            }
            match g.params[i] {
                Some(p) => (self.def.params[p].1)(s),
                None => None,
            }
        } else {
            None
        }
    }
}

} // verus!
