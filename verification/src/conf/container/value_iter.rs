use vstd::prelude::*;

use crate::conf::Conf;
use super::value::ValueContainer;
use super::value_str_iter::ValueStrIter;
use super::value_parsed_iter::ValueParsedIter;

verus! {

/// The values of a configuration from index `start` up to `end`, taken from
/// the front or the back.
pub struct ValueIter<'a, P> {
    pub(crate) conf_value_start: usize,
    pub(crate) conf_value_end: usize,
    pub(crate) conf: Option<&'a Conf<P>>,
}

impl<'a, P> Clone for ValueIter<'a, P> {
    fn clone(&self) -> (r: Self)
        ensures
            r == *self,
    {
        proof {
            use_type_invariant(self);
        }
        ValueIter { conf_value_start: self.conf_value_start, conf_value_end: self.conf_value_end, conf: self.conf }
    }
}

impl<'a, P> Default for ValueIter<'a, P> {
    fn default() -> (r: Self)
        ensures
            r.conf_view() is None,
            r.start() == 0,
            r.end() == 0,
    {
        ValueIter { conf_value_start: 0, conf_value_end: 0, conf: None }
    }
}

impl<'a, P> ValueIter<'a, P> {
    pub open(crate) spec fn conf_view(&self) -> Option<Conf<P>> {
        match self.conf {
            Some(c) => Some(*c),
            None => None,
        }
    }

    pub open(crate) spec fn start(&self) -> int {
        self.conf_value_start as int
    }

    pub open(crate) spec fn end(&self) -> int {
        self.conf_value_end as int
    }

    #[verifier::type_invariant]
    pub(crate) open spec fn inv(&self) -> bool {
        &&& self.conf_value_start <= self.conf_value_end
        &&& self.conf matches Some(c) ==> self.conf_value_end <= c.values@.len()
    }

    pub(crate) fn new(conf: Option<&'a Conf<P>>, start: usize, end: usize) -> (r: Self)
        requires
            start <= end,
            conf matches Some(c) ==> end <= c.values().len(),
        ensures
            r.conf_view() == match conf {
                Some(c) => Some(*c),
                None => None,
            },
            r.start() == start,
            r.end() == end,
    {
        ValueIter { conf_value_start: start, conf_value_end: end, conf }
    }

    /// The same values, as their texts.
    pub fn str(&self) -> (r: ValueStrIter<'a, P>)
        ensures
            r.conf_view() == self.conf_view(),
            self.conf_view() is Some ==> r.start() == self.start() && r.end() == self.end(),
            self.conf_view() is None ==> r.start() == 0 && r.end() == 0,
    {
        proof {
            use_type_invariant(self);
        }
        match self.conf {
            Some(_) => ValueStrIter::new(self.conf, self.conf_value_start, self.conf_value_end),
            None => ValueStrIter::new(None, 0, 0),
        }
    }

    /// The same values, as what their parsers made of them.
    pub fn parsed(&self) -> (r: ValueParsedIter<'a, P>)
        ensures
            r.conf_view() == self.conf_view(),
            self.conf_view() is Some ==> r.start() == self.start() && r.end() == self.end(),
            self.conf_view() is None ==> r.start() == 0 && r.end() == 0,
    {
        proof {
            use_type_invariant(self);
        }
        match self.conf {
            Some(_) => ValueParsedIter::new(self.conf, self.conf_value_start, self.conf_value_end),
            None => ValueParsedIter::new(None, 0, 0),
        }
    }

    /// The value at the front, if any are left.
    pub fn next(&mut self) -> (r: Option<ValueContainer<'a, P>>)
        ensures
            final(self).conf_view() == old(self).conf_view(),
            final(self).end() == old(self).end(),
            old(self).start() == old(self).end() ==> r is None && final(self).start() == old(self).start(),
            old(self).start() != old(self).end() ==> final(self).start() == old(self).start() + 1
                && (r matches Some(v) && v.conf_view() == old(self).conf_view() && v.ind() == old(
                self).start()),
    {
        proof {
            use_type_invariant(&*self);
        }
        if self.conf_value_start == self.conf_value_end {
            None
        } else {
            let i = self.conf_value_start;
            self.conf_value_start = self.conf_value_start + 1;
            Some(ValueContainer { conf: self.conf, conf_value_ind: i })
        }
    }

    /// The value at the back, if any are left.
    pub fn next_back(&mut self) -> (r: Option<ValueContainer<'a, P>>)
        ensures
            final(self).conf_view() == old(self).conf_view(),
            final(self).start() == old(self).start(),
            old(self).start() == old(self).end() ==> r is None && final(self).end() == old(self).end(),
            old(self).start() != old(self).end() ==> final(self).end() == old(self).end() - 1
                && (r matches Some(v) && v.conf_view() == old(self).conf_view() && v.ind() == old(
                self).end() - 1),
    {
        proof {
            use_type_invariant(&*self);
        }
        if self.conf_value_end > self.conf_value_start {
            self.conf_value_end = self.conf_value_end - 1;
            Some(ValueContainer { conf: self.conf, conf_value_ind: self.conf_value_end })
        } else {
            None
        }
    }
}

} // verus!
