use vstd::prelude::*;

use crate::conf::Conf;
use crate::lexer::Loc;

verus! {

/// A value of a configuration, by index; or no value.
pub struct ValueContainer<'a, P> {
    pub(crate) conf: Option<&'a Conf<P>>,
    pub(crate) conf_value_ind: usize,
}

impl<'a, P> Clone for ValueContainer<'a, P> {
    fn clone(&self) -> (r: Self)
        ensures
            r == *self,
    {
        proof {
            use_type_invariant(self);
        }
        ValueContainer { conf: self.conf, conf_value_ind: self.conf_value_ind }
    }
}

impl<'a, P> Copy for ValueContainer<'a, P> {

}

impl<'a, P> Default for ValueContainer<'a, P> {
    fn default() -> (r: Self)
        ensures
            r.conf_view() is None,
            r.ind() == 0,
    {
        ValueContainer { conf: None, conf_value_ind: 0 }
    }
}

impl<'a, P> ValueContainer<'a, P> {
    pub open(crate) spec fn conf_view(&self) -> Option<Conf<P>> {
        match self.conf {
            Some(c) => Some(*c),
            None => None,
        }
    }

    pub open(crate) spec fn ind(&self) -> int {
        self.conf_value_ind as int
    }

    #[verifier::type_invariant]
    pub(crate) open spec fn inv(&self) -> bool {
        self.conf matches Some(c) ==> self.conf_value_ind < c.values@.len()
    }

    /// A value of `c`.
    pub(crate) fn new(c: &'a Conf<P>, i: usize) -> (r: Self)
        requires
            i < c.values().len(),
        ensures
            r.conf_view() == Some(*c),
            r.ind() == i,
    {
        ValueContainer { conf: Some(c), conf_value_ind: i }
    }

    /// The value's text; empty for no value.
    pub fn str(&self) -> (r: &'a str)
        ensures
            match self.conf_view() {
                Some(c) => r@ == c.texts()[c.values()[self.ind()].text_ind as int],
                None => r@ == Seq::<char>::empty(),
            },
    {
        proof {
            use_type_invariant(self);
        }
        match self.conf {
            Some(c) => {
                proof {
                    use_type_invariant(c);
                    assert(c.values()[self.ind()].text_ind < c.texts@.len());
                    assert(c.texts()[c.values()[self.ind()].text_ind as int] == c.texts@[c.values()[self.ind()].text_ind as int]@);
                }
                let t = c.values[self.conf_value_ind].text_ind;
                let s = c.texts[t].as_str();
                proof {
                    assert(c.values@[self.ind()] == c.values()[self.ind()]);
                    assert(s@ == c.texts@[t as int]@);
                }
                s
            },
            None => {
                proof {
                    reveal_strlit("");
                }
                ""
            },
        }
    }

    /// What the value's parameter parser made of it, if it has one.
    pub fn parsed(&self) -> (r: Option<&'a P>)
        ensures
            match self.conf_view() {
                Some(c) => match c.values()[self.ind()].parsed_ind {
                    Some(k) => r == Some(&c.parsed()[k as int]),
                    None => r is None,
                },
                None => r is None,
            },
    {
        proof {
            use_type_invariant(self);
        }
        match self.conf {
            Some(c) => {
                proof {
                    use_type_invariant(c);
                    assert(c.values()[self.ind()] == c.values@[self.ind()]);
                }
                match c.values[self.conf_value_ind].parsed_ind {
                    Some(k) => Some(&c.parsed_values[k]),
                    None => None,
                }
            },
            None => None,
        }
    }

    /// Where the value starts in the source; the default location for no value.
    pub fn start_loc(&self) -> (r: Loc)
        ensures
            match self.conf_view() {
                Some(c) => r == c.values()[self.ind()].start_loc,
                None => r == Loc::spec_default(),
            },
    {
        proof {
            use_type_invariant(self);
        }
        match self.conf {
            Some(c) => c.values[self.conf_value_ind].start_loc,
            None => Loc::default(),
        }
    }

    /// Where the value ends in the source; the default location for no value.
    pub fn end_loc(&self) -> (r: Loc)
        ensures
            match self.conf_view() {
                Some(c) => r == c.values()[self.ind()].end_loc,
                None => r == Loc::spec_default(),
            },
    {
        proof {
            use_type_invariant(self);
        }
        match self.conf {
            Some(c) => c.values[self.conf_value_ind].end_loc,
            None => Loc::default(),
        }
    }

    /// Whether this stands for no value.
    pub fn is_empty(&self) -> (r: bool)
        ensures
            r == (self.conf_view() is None),
    {
        self.conf.is_none()
    }
}

} // verus!
