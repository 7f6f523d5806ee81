use vstd::prelude::*;

use crate::conf::Conf;
use super::value::ValueContainer;

verus! {

/// What the parsers made of the values of a configuration from index `start`
/// up to `end`, taken from the front or the back; a value without one gives
/// `None` as if none were left.
pub struct ValueParsedIter<'a, P> {
    pub(crate) conf_value_start: usize,
    pub(crate) conf_value_end: usize,
    pub(crate) conf: Option<&'a Conf<P>>,
}

impl<'a, P> Clone for ValueParsedIter<'a, P> {
    fn clone(&self) -> (r: Self)
        ensures
            r == *self,
    {
        proof {
            use_type_invariant(self);
        }
        ValueParsedIter { conf_value_start: self.conf_value_start, conf_value_end: self.conf_value_end, conf: self.conf }
    }
}

impl<'a, P> Default for ValueParsedIter<'a, P> {
    fn default() -> (r: Self)
        ensures
            r.conf_view() is None,
            r.start() == 0,
            r.end() == 0,
    {
        ValueParsedIter { conf_value_start: 0, conf_value_end: 0, conf: None }
    }
}

impl<'a, P> ValueParsedIter<'a, P> {
    pub open(crate) spec fn conf_view(&self) -> Option<Conf<P>> {
        match self.conf {
            Some(c) => Some(*c),
            None => None,
        }
    }

    pub open(crate) spec fn start(&self) -> int {
        self.conf_value_start as int
    }

    pub open(crate) spec fn end(&self) -> int {
        self.conf_value_end as int
    }

    #[verifier::type_invariant]
    pub(crate) open spec fn inv(&self) -> bool {
        &&& self.conf_value_start <= self.conf_value_end
        &&& self.conf matches Some(c) ==> self.conf_value_end <= c.values@.len()
    }

    pub(crate) fn new(conf: Option<&'a Conf<P>>, start: usize, end: usize) -> (r: Self)
        requires
            start <= end,
            conf matches Some(c) ==> end <= c.values().len(),
        ensures
            r.conf_view() == match conf {
                Some(c) => Some(*c),
                None => None,
            },
            r.start() == start,
            r.end() == end,
    {
        ValueParsedIter { conf_value_start: start, conf_value_end: end, conf }
    }

    /// What the parser made of value `i`, if anything.
    pub open spec fn parsed_at(&self, i: int) -> Option<&'a P> {
        match self.conf_view() {
            Some(c) => match c.values()[i].parsed_ind {
                Some(k) => Some(&c.parsed()[k as int]),
                None => None,
            },
            None => None,
        }
    }

    /// What the parser made of the value at the front, if any are left.
    pub fn next(&mut self) -> (r: Option<&'a P>)
        ensures
            final(self).conf_view() == old(self).conf_view(),
            final(self).end() == old(self).end(),
            old(self).start() == old(self).end() ==> r is None && final(self).start() == old(self).start(),
            old(self).start() != old(self).end() ==> final(self).start() == old(self).start() + 1
                && r == old(self).parsed_at(old(self).start()),
    {
        proof {
            use_type_invariant(&*self);
        }
        if self.conf_value_start == self.conf_value_end {
            None
        } else {
            let i = self.conf_value_start;
            self.conf_value_start = self.conf_value_start + 1;
            let v = ValueContainer { conf: self.conf, conf_value_ind: i };
            v.parsed()
        }
    }

    /// What the parser made of the value at the back, if any are left.
    pub fn next_back(&mut self) -> (r: Option<&'a P>)
        ensures
            final(self).conf_view() == old(self).conf_view(),
            final(self).start() == old(self).start(),
            old(self).start() == old(self).end() ==> r is None && final(self).end() == old(self).end(),
            old(self).start() != old(self).end() ==> final(self).end() == old(self).end() - 1
                && r == old(self).parsed_at(old(self).end() - 1),
    {
        proof {
            use_type_invariant(&*self);
        }
        if self.conf_value_end > self.conf_value_start {
            self.conf_value_end = self.conf_value_end - 1;
            let v = ValueContainer { conf: self.conf, conf_value_ind: self.conf_value_end };
            v.parsed()
        } else {
            None
        }
    }
}

} // verus!
