use vstd::prelude::*;

use crate::conf::Conf;
use super::record::RecordContainer;

verus! {

/// Starts from a record of a configuration and gives its parent on each call;
/// it stays on that record, so each call gives the same parent.
pub struct AncestorIter<'a, P> {
    pub(crate) conf_record_ind: usize,
    pub(crate) conf: Option<&'a Conf<P>>,
}

impl<'a, P> Clone for AncestorIter<'a, P> {
    fn clone(&self) -> (r: Self)
        ensures
            r == *self,
    {
        proof {
            use_type_invariant(self);
        }
        AncestorIter { conf_record_ind: self.conf_record_ind, conf: self.conf }
    }
}

impl<'a, P> Default for AncestorIter<'a, P> {
    fn default() -> (r: Self)
        ensures
            r.conf_view() is None,
            r.ind() == 0,
    {
        AncestorIter { conf_record_ind: 0, conf: None }
    }
}

impl<'a, P> AncestorIter<'a, P> {
    pub open(crate) spec fn conf_view(&self) -> Option<Conf<P>> {
        match self.conf {
            Some(c) => Some(*c),
            None => None,
        }
    }

    pub open(crate) spec fn ind(&self) -> int {
        self.conf_record_ind as int
    }

    #[verifier::type_invariant]
    pub(crate) open spec fn inv(&self) -> bool {
        self.conf matches Some(c) ==> self.conf_record_ind < c.records@.len()
    }

    pub(crate) fn new(conf: &'a Conf<P>, i: usize) -> (r: Self)
        requires
            i < conf.records().len(),
        ensures
            r.conf_view() == Some(*conf),
            r.ind() == i,
    {
        AncestorIter { conf_record_ind: i, conf: Some(conf) }
    }

    /// The parent of the record it stands on, if there is one.
    pub fn next(&mut self) -> (r: Option<RecordContainer<'a, P>>)
        ensures
            *final(self) == *old(self),
            match old(self).conf_view() {
                Some(c) => match c.records()[old(self).ind()].parent {
                    Some(p) => r matches Some(rc) && rc.conf_view() == Some(c) && rc.ind() == p,
                    None => r is None,
                },
                None => r is None,
            },
    {
        proof {
            use_type_invariant(&*self);
        }
        match self.conf {
            Some(conf) => {
                proof {
                    use_type_invariant(conf);
                    assert(conf.records()[self.ind()] == conf.records@[self.ind()]);
                    let rw = crate::conf::record_wf(conf.records(), self.ind(), conf.texts().len() as int, conf.values().len() as int, conf.groups().len() as int);
                    assert(rw);
                }
                match conf.records[self.conf_record_ind].parent {
                    Some(p) => Some(RecordContainer { conf: Some(conf), conf_record_ind: p }),
                    None => None,
                }
            },
            None => None,
        }
    }
}

} // verus!
