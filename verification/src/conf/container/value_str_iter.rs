use vstd::prelude::*;

use crate::conf::Conf;
use super::value::ValueContainer;

verus! {

/// The texts of the values of a configuration from index `start` up to `end`,
/// taken from the front or the back.
pub struct ValueStrIter<'a, P> {
    pub(crate) conf_value_start: usize,
    pub(crate) conf_value_end: usize,
    pub(crate) conf: Option<&'a Conf<P>>,
}

impl<'a, P> Clone for ValueStrIter<'a, P> {
    fn clone(&self) -> (r: Self)
        ensures
            r == *self,
    {
        proof {
            use_type_invariant(self);
        }
        ValueStrIter { conf_value_start: self.conf_value_start, conf_value_end: self.conf_value_end, conf: self.conf }
    }
}

impl<'a, P> Default for ValueStrIter<'a, P> {
    fn default() -> (r: Self)
        ensures
            r.conf_view() is None,
            r.start() == 0,
            r.end() == 0,
    {
        ValueStrIter { conf_value_start: 0, conf_value_end: 0, conf: None }
    }
}

impl<'a, P> ValueStrIter<'a, P> {
    pub open(crate) spec fn conf_view(&self) -> Option<Conf<P>> {
        match self.conf {
            Some(c) => Some(*c),
            None => None,
        }
    }

    pub open(crate) spec fn start(&self) -> int {
        self.conf_value_start as int
    }

    pub open(crate) spec fn end(&self) -> int {
        self.conf_value_end as int
    }

    #[verifier::type_invariant]
    pub(crate) open spec fn inv(&self) -> bool {
        &&& self.conf_value_start <= self.conf_value_end
        &&& self.conf matches Some(c) ==> self.conf_value_end <= c.values@.len()
    }

    pub(crate) fn new(conf: Option<&'a Conf<P>>, start: usize, end: usize) -> (r: Self)
        requires
            start <= end,
            conf matches Some(c) ==> end <= c.values().len(),
        ensures
            r.conf_view() == match conf {
                Some(c) => Some(*c),
                None => None,
            },
            r.start() == start,
            r.end() == end,
    {
        ValueStrIter { conf_value_start: start, conf_value_end: end, conf }
    }

    /// The text of value `i`, or empty without a configuration.
    pub open spec fn text_at(&self, i: int) -> Seq<char> {
        match self.conf_view() {
            Some(c) => c.texts()[c.values()[i].text_ind as int],
            None => Seq::empty(),
        }
    }

    /// The text of the value at the front, if any are left.
    pub fn next(&mut self) -> (r: Option<&'a str>)
        ensures
            final(self).conf_view() == old(self).conf_view(),
            final(self).end() == old(self).end(),
            old(self).start() == old(self).end() ==> r is None && final(self).start() == old(self).start(),
            old(self).start() != old(self).end() ==> final(self).start() == old(self).start() + 1
                && (r matches Some(s) && s@ == old(self).text_at(old(self).start())),
    {
        proof {
            use_type_invariant(&*self);
        }
        if self.conf_value_start == self.conf_value_end {
            None
        } else {
            let i = self.conf_value_start;
            self.conf_value_start = self.conf_value_start + 1;
            let v = ValueContainer { conf: self.conf, conf_value_ind: i };
            Some(v.str())
        }
    }

    /// The text of the value at the back, if any are left.
    pub fn next_back(&mut self) -> (r: Option<&'a str>)
        ensures
            final(self).conf_view() == old(self).conf_view(),
            final(self).start() == old(self).start(),
            old(self).start() == old(self).end() ==> r is None && final(self).end() == old(self).end(),
            old(self).start() != old(self).end() ==> final(self).end() == old(self).end() - 1
                && (r matches Some(s) && s@ == old(self).text_at(old(self).end() - 1)),
    {
        proof {
            use_type_invariant(&*self);
        }
        if self.conf_value_end > self.conf_value_start {
            self.conf_value_end = self.conf_value_end - 1;
            let v = ValueContainer { conf: self.conf, conf_value_ind: self.conf_value_end };
            Some(v.str())
        } else {
            None
        }
    }
}

} // verus!
