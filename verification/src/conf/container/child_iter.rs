use vstd::prelude::*;

use crate::conf::Conf;
use super::record::RecordContainer;

verus! {

/// The records of a configuration from index `start` up to `end`, taken from
/// the front or the back.
pub struct ChildIter<'a, P> {
    pub(crate) conf_record_start: usize,
    pub(crate) conf_record_end: usize,
    pub(crate) conf: Option<&'a Conf<P>>,
}

impl<'a, P> Clone for ChildIter<'a, P> {
    fn clone(&self) -> (r: Self)
        ensures
            r == *self,
    {
        proof {
            use_type_invariant(self);
        }
        ChildIter { conf_record_start: self.conf_record_start, conf_record_end: self.conf_record_end, conf: self.conf }
    }
}

impl<'a, P> Default for ChildIter<'a, P> {
    fn default() -> (r: Self)
        ensures
            r.conf_view() is None,
            r.start() == 0,
            r.end() == 0,
    {
        ChildIter { conf_record_start: 0, conf_record_end: 0, conf: None }
    }
}

impl<'a, P> ChildIter<'a, P> {
    pub open(crate) spec fn conf_view(&self) -> Option<Conf<P>> {
        match self.conf {
            Some(c) => Some(*c),
            None => None,
        }
    }

    pub open(crate) spec fn start(&self) -> int {
        self.conf_record_start as int
    }

    pub open(crate) spec fn end(&self) -> int {
        self.conf_record_end as int
    }

    #[verifier::type_invariant]
    pub(crate) open spec fn inv(&self) -> bool {
        self.conf matches Some(c) ==> self.conf_record_end <= c.records@.len()
    }

    pub(crate) fn new(conf: Option<&'a Conf<P>>, start: usize, end: usize) -> (r: Self)
        requires
            conf matches Some(c) ==> end <= c.records().len(),
        ensures
            r.conf_view() == match conf {
                Some(c) => Some(*c),
                None => None,
            },
            r.start() == start,
            r.end() == end,
    {
        ChildIter { conf_record_start: start, conf_record_end: end, conf }
    }

    /// The record at the front, if any are left.
    pub fn next(&mut self) -> (r: Option<RecordContainer<'a, P>>)
        ensures
            final(self).conf_view() == old(self).conf_view(),
            final(self).end() == old(self).end(),
            old(self).start() >= old(self).end() ==> r is None && final(self).start() == old(self).start(),
            old(self).start() < old(self).end() ==> final(self).start() == old(self).start() + 1
                && (r matches Some(c) && c.conf_view() == old(self).conf_view() && c.ind() == old(
                self).start()),
    {
        proof {
            use_type_invariant(&*self);
        }
        if self.conf_record_start < self.conf_record_end {
            let i = self.conf_record_start;
            self.conf_record_start = self.conf_record_start + 1;
            Some(RecordContainer { conf_record_ind: i, conf: self.conf })
        } else {
            None
        }
    }

    /// The record at the back, if any are left.
    pub fn next_back(&mut self) -> (r: Option<RecordContainer<'a, P>>)
        ensures
            final(self).conf_view() == old(self).conf_view(),
            final(self).start() == old(self).start(),
            old(self).end() <= old(self).start() ==> r is None && final(self).end() == old(self).end(),
            old(self).end() > old(self).start() ==> final(self).end() == old(self).end() - 1
                && (r matches Some(c) && c.conf_view() == old(self).conf_view() && c.ind() == old(
                self).end() - 1),
    {
        proof {
            use_type_invariant(&*self);
        }
        if self.conf_record_end > self.conf_record_start {
            self.conf_record_end = self.conf_record_end - 1;
            Some(RecordContainer { conf_record_ind: self.conf_record_end, conf: self.conf })
        } else {
            None
        }
    }
}

} // verus!
