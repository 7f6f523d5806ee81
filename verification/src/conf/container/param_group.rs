use vstd::prelude::*;

use crate::conf::{Conf, ParamGroup};
use super::value::ValueContainer;
use super::value_iter::ValueIter;

verus! {

/// A parameter group of a record of a configuration, by index; or no group.
pub struct ParamGroupContainer<'a, P> {
    pub(crate) conf: Option<&'a Conf<P>>,
    pub(crate) conf_param_group_ind: usize,
}

impl<'a, P> Clone for ParamGroupContainer<'a, P> {
    fn clone(&self) -> (r: Self)
        ensures
            r == *self,
    {
        proof {
            use_type_invariant(self);
        }
        ParamGroupContainer { conf: self.conf, conf_param_group_ind: self.conf_param_group_ind }
    }
}

impl<'a, P> Copy for ParamGroupContainer<'a, P> {

}

impl<'a, P> Default for ParamGroupContainer<'a, P> {
    fn default() -> (r: Self)
        ensures
            r.conf_view() is None,
            r.ind() == 0,
    {
        ParamGroupContainer { conf: None, conf_param_group_ind: 0 }
    }
}

impl<'a, P> ParamGroupContainer<'a, P> {
    pub open(crate) spec fn conf_view(&self) -> Option<Conf<P>> {
        match self.conf {
            Some(c) => Some(*c),
            None => None,
        }
    }

    pub open(crate) spec fn ind(&self) -> int {
        self.conf_param_group_ind as int
    }

    #[verifier::type_invariant]
    pub(crate) open spec fn inv(&self) -> bool {
        self.conf matches Some(c) ==> self.conf_param_group_ind < c.param_groups@.len()
    }

    /// The group it names.
    pub open spec fn group(&self) -> ParamGroup {
        self.conf_view()->0.groups()[self.ind()]
    }

    pub(crate) fn new(c: &'a Conf<P>, i: usize) -> (r: Self)
        requires
            i < c.groups().len(),
        ensures
            r.conf_view() == Some(*c),
            r.ind() == i,
    {
        ParamGroupContainer { conf: Some(c), conf_param_group_ind: i }
    }

    /// How many parameters the group has; 0 for no group.
    pub fn params_num(&self) -> (r: usize)
        ensures
            r == if self.conf_view() is Some {
                self.group().params_num as int
            } else {
                0
            },
    {
        proof {
            use_type_invariant(self);
        }
        match self.conf {
            Some(c) => c.param_groups[self.conf_param_group_ind].params_num,
            None => 0,
        }
    }

    /// How many times the group took its parameters; 0 for no group.
    pub fn many_num(&self) -> (r: usize)
        requires
            self.conf_view() is Some ==> self.group().params_num > 0,
        ensures
            r == if self.conf_view() is Some {
                (self.group().conf_values.end - self.group().conf_values.start) / (
                self.group().params_num as int)
            } else {
                0
            },
    {
        if self.conf.is_none() {
            return 0;
        }
        self.values_num() / self.params_num()
    }

    pub fn first(&self) -> (r: ValueContainer<'a, P>)
        ensures
            r == self.spec_value(0),
    {
        self.value(0)
    }

    pub fn last(&self) -> (r: ValueContainer<'a, P>)
        ensures
            r == self.spec_value(
                if self.spec_values_num() == 0 {
                    0
                } else {
                    self.spec_values_num() - 1
                },
            ),
    {
        let n = self.values_num();
        self.value(
            if n == 0 {
                0
            } else {
                n - 1
            },
        )
    }

    /// The number of values the group took.
    pub open spec fn spec_values_num(&self) -> int {
        if self.conf_view() is Some {
            self.group().conf_values.end - self.group().conf_values.start
        } else {
            0
        }
    }

    /// Value `ind` of the group, or no value past the last.
    pub open(crate) spec fn spec_value(&self, ind: int) -> ValueContainer<'a, P> {
        if self.conf_view() is Some && 0 <= ind < self.spec_values_num() {
            ValueContainer { conf: self.conf, conf_value_ind: (self.group().conf_values.start + ind) as usize }
        } else {
            ValueContainer { conf: None, conf_value_ind: 0 }
        }
    }

    pub fn value(&self, ind: usize) -> (r: ValueContainer<'a, P>)
        ensures
            r == self.spec_value(ind as int),
    {
        proof {
            use_type_invariant(self);
        }
        match self.conf {
            Some(c) => {
                proof {
                    use_type_invariant(c);
                    assert(c.groups()[self.ind()] == c.param_groups@[self.ind()]);
                }
                let g = &c.param_groups[self.conf_param_group_ind];
                if ind >= g.conf_values.end - g.conf_values.start {
                    return ValueContainer::default();
                }
                ValueContainer::new(c, g.conf_values.start + ind)
            },
            None => ValueContainer::default(),
        }
    }

    pub fn values_num(&self) -> (r: usize)
        ensures
            r == self.spec_values_num(),
    {
        proof {
            use_type_invariant(self);
        }
        match self.conf {
            Some(c) => {
                proof {
                    use_type_invariant(c);
                    assert(c.groups()[self.ind()] == c.param_groups@[self.ind()]);
                }
                let g = &c.param_groups[self.conf_param_group_ind];
                g.conf_values.end - g.conf_values.start
            },
            None => 0,
        }
    }

    /// The group's values, in order.
    pub fn values(&self) -> (r: ValueIter<'a, P>)
        ensures
            r.conf_view() == self.conf_view(),
            self.conf_view() is Some ==> r.start() == self.group().conf_values.start && r.end()
                == self.group().conf_values.end,
            self.conf_view() is None ==> r.start() == 0 && r.end() == 0,
    {
        proof {
            use_type_invariant(self);
        }
        match self.conf {
            Some(c) => {
                proof {
                    use_type_invariant(c);
                    assert(c.groups()[self.ind()] == c.param_groups@[self.ind()]);
                }
                let g = &c.param_groups[self.conf_param_group_ind];
                ValueIter::new(self.conf, g.conf_values.start, g.conf_values.end)
            },
            None => ValueIter::new(None, 0, 0),
        }
    }

    /// The group's name, if it has one.
    pub fn name(&self) -> (r: Option<&'a str>)
        ensures
            match self.conf_view() {
                Some(c) => match self.group().name {
                    Some(t) => r matches Some(s) && s@ == c.texts()[t as int],
                    None => r is None,
                },
                None => r is None,
            },
    {
        proof {
            use_type_invariant(self);
        }
        match self.conf {
            Some(c) => {
                proof {
                    use_type_invariant(c);
                    assert(c.groups()[self.ind()] == c.param_groups@[self.ind()]);
                }
                match c.param_groups[self.conf_param_group_ind].name {
                    Some(t) => Some(c.texts[t].as_str()),
                    None => None,
                }
            },
            None => None,
        }
    }

    pub fn is_empty(&self) -> (r: bool)
        ensures
            r == (self.conf_view() is None),
    {
        self.conf.is_none()
    }

    pub fn is_optional(&self) -> (r: bool)
        ensures
            r == (self.conf_view() is Some && self.group().optional),
    {
        proof {
            use_type_invariant(self);
        }
        match self.conf {
            Some(c) => c.param_groups[self.conf_param_group_ind].optional,
            None => false,
        }
    }

    pub fn is_repeat(&self) -> (r: bool)
        ensures
            r == (self.conf_view() is Some && self.group().repeat),
    {
        proof {
            use_type_invariant(self);
        }
        match self.conf {
            Some(c) => c.param_groups[self.conf_param_group_ind].repeat,
            None => false,
        }
    }
}

} // verus!
