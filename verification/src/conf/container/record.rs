use vstd::prelude::*;

use std::path::{Path, PathBuf};

use crate::conf::{Conf, Record, record_wf};
use crate::lexer::Loc;
use crate::paths::{opt_buf_as_path, opt_deref};
use crate::text::str_eq;
use super::ancestor_iter::AncestorIter;
use super::child_iter::ChildIter;
use super::param_group::ParamGroupContainer;
use super::value::ValueContainer;
use super::value_iter::ValueIter;

verus! {

/// A parameter group of a record, by its name or by its position.
pub enum ParamGroupIndex<'a> {
    Name(&'a str),
    Index(usize),
}

/// A record of a configuration, by index; or no record.
pub struct RecordContainer<'a, P> {
    pub(crate) conf_record_ind: usize,
    pub(crate) conf: Option<&'a Conf<P>>,
}

impl<'a, P> Clone for RecordContainer<'a, P> {
    fn clone(&self) -> (r: Self)
        ensures
            r == *self,
    {
        proof {
            use_type_invariant(self);
        }
        RecordContainer { conf_record_ind: self.conf_record_ind, conf: self.conf }
    }
}

impl<'a, P> Copy for RecordContainer<'a, P> {

}

impl<'a, P> Default for RecordContainer<'a, P> {
    fn default() -> (r: Self)
        ensures
            r.conf_view() is None,
            r.ind() == 0,
    {
        RecordContainer { conf_record_ind: 0, conf: None }
    }
}

/// The `ind`-th ancestor, counting from `cur` as the first, among those that
/// have a parent themselves.
pub open spec fn ancestor_from(records: Seq<Record>, cur: int, j: int, ind: int) -> Option<int>
    decreases cur,
{
    if cur < 0 || cur >= records.len() {
        None
    } else {
        match records[cur].parent {
            None => None,
            Some(p) => if j == ind {
                Some(cur)
            } else if p < cur {
                ancestor_from(records, p as int, j + 1, ind)
            } else {
                None
            },
        }
    }
}

/// The last parameter group in `lo..hi` named `name`.
pub open spec fn last_named<P>(c: Conf<P>, lo: int, hi: int, name: Seq<char>) -> Option<int>
    decreases hi - lo,
{
    if hi <= lo {
        None
    } else if c.groups()[hi - 1].name matches Some(t) && c.texts()[t as int] == name {
        Some(hi - 1)
    } else {
        last_named(c, lo, hi - 1, name)
    }
}

impl<'a, P> RecordContainer<'a, P> {
    pub open(crate) spec fn conf_view(&self) -> Option<Conf<P>> {
        match self.conf {
            Some(c) => Some(*c),
            None => None,
        }
    }

    pub open(crate) spec fn ind(&self) -> int {
        self.conf_record_ind as int
    }

    #[verifier::type_invariant]
    pub(crate) open spec fn inv(&self) -> bool {
        self.conf matches Some(c) ==> self.conf_record_ind < c.records@.len()
    }

    /// The record it names.
    pub open spec fn rec(&self) -> Record {
        self.conf_view()->0.records()[self.ind()]
    }

    /// 1 if the record's first value is its tag, else 0.
    pub open spec fn offset(&self) -> int {
        if self.rec().tag {
            1
        } else {
            0
        }
    }

    /// The number of the record's values, its tag aside; 0 for no record.
    pub open spec fn spec_values_num(&self) -> int {
        if self.conf_view() is Some {
            self.rec().conf_values.end - self.rec().conf_values.start - self.offset()
        } else {
            0
        }
    }

    /// The record's child records, none if it has a body; 0 for no record.
    pub open spec fn spec_children_num(&self) -> int {
        if self.conf_view() is Some && !self.rec().children_text {
            self.rec().children.end - self.rec().children.start
        } else {
            0
        }
    }

    /// Record `i` of the same configuration.
    pub open(crate) spec fn with_ind(&self, i: int) -> Self {
        RecordContainer { conf_record_ind: i as usize, conf: self.conf }
    }

    /// Value `ind` of the record, its tag aside, or no value past the last.
    pub open(crate) spec fn spec_value(&self, ind: int) -> ValueContainer<'a, P> {
        if self.conf_view() is Some && 0 <= ind < self.spec_values_num() {
            ValueContainer {
                conf: self.conf,
                conf_value_ind: (self.rec().conf_values.start + self.offset() + ind) as usize,
            }
        } else {
            ValueContainer { conf: None, conf_value_ind: 0 }
        }
    }

    /// Facts of the configuration's invariant about this record.
    pub(crate) proof fn lemma_rec(&self, c: &Conf<P>)
        requires
            self.conf_view() == Some(*c),
            self.inv(),
            c.wf(),
        ensures
            record_wf(c.records(), self.ind(), c.texts().len() as int, c.values().len() as int, c.groups().len() as int),
            self.rec() == c.records@[self.ind()],
    {
        assert(record_wf(c.records(), self.ind(), c.texts().len() as int, c.values().len() as int, c.groups().len() as int));
    }

    /// The root record of a configuration.
    pub fn new_root(conf: &'a Conf<P>) -> (r: Self)
        ensures
            r.conf_view() == Some(*conf),
            r.ind() == 0,
    {
        proof {
            use_type_invariant(conf);
        }
        RecordContainer { conf: Some(conf), conf_record_ind: 0 }
    }

    pub fn record_index(&self) -> (r: usize)
        ensures
            r == self.ind(),
    {
        self.conf_record_ind
    }

    pub fn first(&self) -> (r: ValueContainer<'a, P>)
        ensures
            r == self.spec_value(0),
    {
        self.value(0)
    }

    pub fn last(&self) -> (r: ValueContainer<'a, P>)
        ensures
            r == self.spec_value(
                if self.spec_values_num() == 0 {
                    0
                } else {
                    self.spec_values_num() - 1
                },
            ),
    {
        let n = self.values_num();
        self.value(
            if n == 0 {
                0
            } else {
                n - 1
            },
        )
    }

    /// Value `ind` of the record, its tag aside; no value past the last.
    pub fn value(&self, ind: usize) -> (r: ValueContainer<'a, P>)
        ensures
            r == self.spec_value(ind as int),
    {
        proof {
            use_type_invariant(self);
        }
        match self.conf {
            None => ValueContainer::default(),
            Some(c) => {
                proof {
                    use_type_invariant(c);
                    self.lemma_rec(c);
                }
                if ind >= self.values_num() {
                    return ValueContainer::default();
                }
                let rec = &c.records[self.conf_record_ind];
                let off: usize = if rec.tag {
                    1
                } else {
                    0
                };
                ValueContainer::new(c, rec.conf_values.start + off + ind)
            },
        }
    }

    /// The number of the record's values, its tag aside.
    pub fn values_num(&self) -> (r: usize)
        ensures
            r == self.spec_values_num(),
    {
        proof {
            use_type_invariant(self);
        }
        match self.conf {
            None => 0,
            Some(c) => {
                proof {
                    use_type_invariant(c);
                    self.lemma_rec(c);
                }
                let rec = &c.records[self.conf_record_ind];
                let off: usize = if rec.tag {
                    1
                } else {
                    0
                };
                rec.conf_values.end - rec.conf_values.start - off
            },
        }
    }

    /// A parameter group of the record: by position, or the last one with the
    /// given name; no group if there is none.
    pub fn param_group(&self, ind: ParamGroupIndex) -> (r: ParamGroupContainer<'a, P>)
        ensures
            match self.conf_view() {
                None => r.conf_view() is None,
                Some(c) => match ind {
                    ParamGroupIndex::Index(i) => if i < self.rec().param_groups.end
                        - self.rec().param_groups.start {
                        r.conf_view() == Some(c) && r.ind() == self.rec().param_groups.start + i
                    } else {
                        r.conf_view() is None
                    },
                    ParamGroupIndex::Name(n) => match last_named(
                        c,
                        self.rec().param_groups.start as int,
                        self.rec().param_groups.end as int,
                        n@,
                    ) {
                        Some(g) => r.conf_view() == Some(c) && r.ind() == g,
                        None => r.conf_view() is None,
                    },
                },
            },
    {
        proof {
            use_type_invariant(self);
        }
        match self.conf {
            None => ParamGroupContainer::default(),
            Some(c) => {
                proof {
                    use_type_invariant(c);
                    self.lemma_rec(c);
                }
                let rec = &c.records[self.conf_record_ind];
                match ind {
                    ParamGroupIndex::Index(i) => {
                        if i < rec.param_groups.end - rec.param_groups.start {
                            ParamGroupContainer::new(c, rec.param_groups.start + i)
                        } else {
                            ParamGroupContainer::default()
                        }
                    },
                    ParamGroupIndex::Name(n) => {
                        let lo = rec.param_groups.start;
                        let mut hi = rec.param_groups.end;
                        while hi > lo
                            invariant
                                lo <= hi <= c.groups().len(),
                                self.conf_view() == Some(*c),
                                lo == self.rec().param_groups.start,
                                ind == ParamGroupIndex::Name(n),
                                rec.param_groups.end == self.rec().param_groups.end,
                                c.wf(),
                                last_named(*c, lo as int, rec.param_groups.end as int, n@)
                                    == last_named(*c, lo as int, hi as int, n@),
                            decreases hi - lo,
                        {
                            let g = &c.param_groups[hi - 1];
                            proof {
                                assert(c.groups()[hi - 1] == c.param_groups@[hi - 1]);
                            }
                            let found = match g.name {
                                Some(t) => {
                                    proof {
                                        assert(c.texts()[t as int] == c.texts@[t as int]@);
                                    }
                                    str_eq(c.texts[t].as_str(), n)
                                },
                                None => false,
                            };
                            if found {
                                proof {
                                    let t = c.groups()[hi - 1].name->0;
                                    assert(c.texts()[t as int] == n@);
                                    assert(last_named(*c, lo as int, hi as int, n@) == Some(hi - 1));
                                }
                                return ParamGroupContainer::new(c, hi - 1);
                            }
                            hi = hi - 1;
                        }
                        ParamGroupContainer::default()
                    },
                }
            },
        }
    }

    pub fn param_groups_num(&self) -> (r: usize)
        ensures
            r == if self.conf_view() is Some {
                self.rec().param_groups.end - self.rec().param_groups.start
            } else {
                0
            },
    {
        proof {
            use_type_invariant(self);
        }
        match self.conf {
            None => 0,
            Some(c) => {
                proof {
                    use_type_invariant(c);
                    self.lemma_rec(c);
                }
                let rec = &c.records[self.conf_record_ind];
                rec.param_groups.end - rec.param_groups.start
            },
        }
    }

    /// Child record `ind`; no record past the last, or if the record has a body.
    pub fn child(&self, ind: usize) -> (r: RecordContainer<'a, P>)
        ensures
            if 0 <= ind < self.spec_children_num() {
                r == self.with_ind(self.rec().children.start + ind)
            } else {
                r.conf_view() is None
            },
    {
        proof {
            use_type_invariant(self);
        }
        match self.conf {
            None => RecordContainer::default(),
            Some(c) => {
                proof {
                    use_type_invariant(c);
                    self.lemma_rec(c);
                }
                if ind >= self.children_num() {
                    return RecordContainer::default();
                }
                let rec = &c.records[self.conf_record_ind];
                RecordContainer { conf: self.conf, conf_record_ind: rec.children.start + ind }
            },
        }
    }

    /// The number of child records; 0 if the record has a body.
    pub fn children_num(&self) -> (r: usize)
        ensures
            r == self.spec_children_num(),
    {
        proof {
            use_type_invariant(self);
        }
        match self.conf {
            None => 0,
            Some(c) => {
                proof {
                    use_type_invariant(c);
                    self.lemma_rec(c);
                }
                let rec = &c.records[self.conf_record_ind];
                if rec.children_text {
                    0
                } else {
                    rec.children.end - rec.children.start
                }
            },
        }
    }

    /// The parent record; no record for the root.
    pub fn parent(&self) -> (r: RecordContainer<'a, P>)
        ensures
            match self.conf_view() {
                Some(c) => match self.rec().parent {
                    Some(p) => r == self.with_ind(p as int),
                    None => r.conf_view() is None,
                },
                None => r.conf_view() is None,
            },
    {
        proof {
            use_type_invariant(self);
        }
        match self.conf {
            None => RecordContainer::default(),
            Some(c) => {
                proof {
                    use_type_invariant(c);
                    self.lemma_rec(c);
                }
                match c.records[self.conf_record_ind].parent {
                    Some(p) => RecordContainer { conf: self.conf, conf_record_ind: p },
                    None => RecordContainer::default(),
                }
            },
        }
    }

    pub fn has_parent(&self) -> (r: bool)
        ensures
            r == (self.conf_view() is Some && self.rec().parent is Some),
    {
        proof {
            use_type_invariant(self);
        }
        match self.conf {
            None => false,
            Some(c) => c.records[self.conf_record_ind].parent.is_some(),
        }
    }

    /// The `ind`-th ancestor, the parent being the first, among those that
    /// have a parent themselves; no record past them.
    pub fn ancestor(&self, ind: usize) -> (r: RecordContainer<'a, P>)
        ensures
            match self.conf_view() {
                Some(c) => match self.rec().parent {
                    Some(p) => match ancestor_from(c.records(), p as int, 0, ind as int) {
                        Some(a) => r == self.with_ind(a),
                        None => r.conf_view() is None,
                    },
                    None => r.conf_view() is None,
                },
                None => r.conf_view() is None,
            },
    {
        if self.conf.is_none() {
            return RecordContainer::default();
        }
        if !self.has_parent() {
            return RecordContainer::default();
        }
        let ghost c = self.conf_view()->0;
        let cr = self.conf.unwrap();
        let mut cur = self.parent();
        let mut j: usize = 0;
        proof {
            use_type_invariant(self);
            use_type_invariant(cr);
            use_type_invariant(&cur);
            self.lemma_rec(cr);
        }
        while cur.has_parent()
            invariant
                cur.conf == self.conf,
                self.conf_view() == Some(c),
                c.wf(),
                cur.inv(),
                j <= ind,
                self.rec().parent is Some,
                ancestor_from(c.records(), self.rec().parent->0 as int, 0, ind as int)
                    == ancestor_from(c.records(), cur.ind(), j as int, ind as int),
            decreases cur.ind(),
        {
            if j == ind {
                proof {
                    assert(cur.rec().parent is Some);
                    assert(ancestor_from(c.records(), cur.ind(), j as int, ind as int) == Some(cur.ind()));
                    assert(cur == self.with_ind(cur.ind()));
                }
                return cur;
            }
            let next = cur.parent();
            proof {
                use_type_invariant(&cur);
                assert(record_wf(c.records(), cur.ind(), c.texts().len() as int, c.values().len() as int, c.groups().len() as int));
            }
            cur = next;
            j = j + 1;
        }
        RecordContainer::default()
    }

    /// An iterator that gives the parent on each call; empty for the root.
    pub fn ancestors(&self) -> (r: AncestorIter<'a, P>)
        ensures
            match self.conf_view() {
                Some(c) => match self.rec().parent {
                    Some(p) => r.conf_view() == Some(c) && r.ind() == p,
                    None => r.conf_view() is None,
                },
                None => r.conf_view() is None,
            },
    {
        proof {
            use_type_invariant(self);
        }
        match self.conf {
            None => AncestorIter::default(),
            Some(c) => {
                proof {
                    use_type_invariant(c);
                    self.lemma_rec(c);
                }
                match c.records[self.conf_record_ind].parent {
                    Some(p) => AncestorIter::new(c, p),
                    None => AncestorIter::default(),
                }
            },
        }
    }

    /// The child records in order; none if the record has a body.
    pub fn children(&self) -> (r: ChildIter<'a, P>)
        ensures
            r.conf_view() == self.conf_view(),
            self.spec_children_num() > 0 || self.conf_view() is None || self.rec().children_text
                ==> r.end() - r.start() == self.spec_children_num(),
            self.conf_view() is Some && !self.rec().children_text ==> r.start()
                == self.rec().children.start && r.end() == self.rec().children.end,
            (self.conf_view() is None || self.rec().children_text) ==> r.start() == 0 && r.end()
                == 0,
    {
        proof {
            use_type_invariant(self);
        }
        match self.conf {
            None => ChildIter::default(),
            Some(c) => {
                proof {
                    use_type_invariant(c);
                    self.lemma_rec(c);
                }
                let rec = &c.records[self.conf_record_ind];
                if rec.children_text {
                    ChildIter::new(self.conf, 0, 0)
                } else {
                    ChildIter::new(self.conf, rec.children.start, rec.children.end)
                }
            },
        }
    }

    /// The record's values in order, its tag aside.
    pub fn values(&self) -> (r: ValueIter<'a, P>)
        ensures
            r.conf_view() == self.conf_view(),
            self.conf_view() is Some ==> r.start() == self.rec().conf_values.start + self.offset()
                && r.end() == self.rec().conf_values.end,
            self.conf_view() is None ==> r.start() == 0 && r.end() == 0,
    {
        proof {
            use_type_invariant(self);
        }
        match self.conf {
            None => ValueIter::default(),
            Some(c) => {
                proof {
                    use_type_invariant(c);
                    self.lemma_rec(c);
                }
                let rec = &c.records[self.conf_record_ind];
                let off: usize = if rec.tag {
                    1
                } else {
                    0
                };
                ValueIter::new(self.conf, rec.conf_values.start + off, rec.conf_values.end)
            },
        }
    }

    /// The lines of the record's body in order; none without a body.
    pub fn text_values(&self) -> (r: ValueIter<'a, P>)
        ensures
            r.conf_view() == self.conf_view(),
            self.conf_view() is Some && self.rec().children_text ==> r.start()
                == self.rec().children.start && r.end() == self.rec().children.end,
            (self.conf_view() is None || !self.rec().children_text) ==> r.start() == 0 && r.end()
                == 0,
    {
        proof {
            use_type_invariant(self);
        }
        match self.conf {
            None => ValueIter::default(),
            Some(c) => {
                proof {
                    use_type_invariant(c);
                    self.lemma_rec(c);
                }
                let rec = &c.records[self.conf_record_ind];
                if rec.children_text {
                    ValueIter::new(self.conf, rec.children.start, rec.children.end)
                } else {
                    ValueIter::new(self.conf, 0, 0)
                }
            },
        }
    }

    /// Whether the record has a body with at least one line.
    pub fn has_text(&self) -> (r: bool)
        ensures
            r == (self.conf_view() is Some && self.rec().children_text && self.rec().children.end
                != self.rec().children.start),
    {
        proof {
            use_type_invariant(self);
        }
        match self.conf {
            None => false,
            Some(c) => {
                proof {
                    use_type_invariant(c);
                    self.lemma_rec(c);
                }
                let rec = &c.records[self.conf_record_ind];
                rec.children_text && rec.children.end != rec.children.start
            },
        }
    }

    /// Whether the record has at least one child record.
    pub fn has_children(&self) -> (r: bool)
        ensures
            r == (self.conf_view() is Some && !self.rec().children_text && self.rec().children.end
                != self.rec().children.start),
    {
        proof {
            use_type_invariant(self);
        }
        match self.conf {
            None => false,
            Some(c) => {
                proof {
                    use_type_invariant(c);
                    self.lemma_rec(c);
                }
                let rec = &c.records[self.conf_record_ind];
                !rec.children_text && rec.children.end != rec.children.start
            },
        }
    }

    /// Whether the record's children are the lines of a body.
    pub fn is_children_text(&self) -> (r: bool)
        ensures
            r == (self.conf_view() is Some && self.rec().children_text),
    {
        proof {
            use_type_invariant(self);
        }
        match self.conf {
            None => false,
            Some(c) => c.records[self.conf_record_ind].children_text,
        }
    }

    /// The path of the configuration's source, if one was given.
    pub fn path(&self) -> (r: Option<&'a Path>)
        ensures
            (r is Some) == (self.conf_view() is Some && self.conf_view()->0.has_path()),
    {
        match self.conf {
            None => None,
            Some(c) => opt_buf_as_path(&c.path),
        }
    }

    /// The path of the source the record was read from, as the configuration
    /// holds it.
    pub(crate) fn path_buf(&self) -> (r: Option<&'a PathBuf>)
        ensures
            opt_deref(r) == source_path(*self),
    {
        match self.conf {
            None => None,
            Some(c) => c.path.as_ref(),
        }
    }

    /// The configuration's source, if it was kept.
    pub fn src(&self) -> (r: Option<&'a str>)
        ensures
            match self.conf_view() {
                Some(c) => match r {
                    Some(s) => c.src_view() == Some(s@),
                    None => c.src_view() is None,
                },
                None => r is None,
            },
    {
        match self.conf {
            None => None,
            Some(c) => match &c.src {
                Some(s) => Some(s.as_str()),
                None => None,
            },
        }
    }

    /// The name of the branch whose node the record matched; empty for the root branch.
    pub fn branch_name(&self) -> (r: Option<&'a str>)
        ensures
            match self.conf_view() {
                Some(c) => match self.rec().branch_name {
                    Some(t) => r matches Some(s) && s@ == c.texts()[t as int],
                    None => r is None,
                },
                None => r is None,
            },
    {
        proof {
            use_type_invariant(self);
        }
        match self.conf {
            None => None,
            Some(c) => {
                proof {
                    use_type_invariant(c);
                    self.lemma_rec(c);
                }
                match c.records[self.conf_record_ind].branch_name {
                    Some(t) => Some(c.texts[t].as_str()),
                    None => None,
                }
            },
        }
    }

    /// The label of the node the record matched, if it has one.
    pub fn node_label(&self) -> (r: Option<&'a str>)
        ensures
            match self.conf_view() {
                Some(c) => match self.rec().node_label {
                    Some(t) => r matches Some(s) && s@ == c.texts()[t as int],
                    None => r is None,
                },
                None => r is None,
            },
    {
        proof {
            use_type_invariant(self);
        }
        match self.conf {
            None => None,
            Some(c) => {
                proof {
                    use_type_invariant(c);
                    self.lemma_rec(c);
                }
                match c.records[self.conf_record_ind].node_label {
                    Some(t) => Some(c.texts[t].as_str()),
                    None => None,
                }
            },
        }
    }

    /// The record's tag: the text of its first value, if it matched a tagged node.
    pub fn tag(&self) -> (r: Option<&'a str>)
        ensures
            match self.conf_view() {
                Some(c) => if self.rec().tag {
                    r matches Some(s) && s@ == c.texts()[c.values()[self.rec().conf_values.start as int].text_ind as int]
                } else {
                    r is None
                },
                None => r is None,
            },
    {
        proof {
            use_type_invariant(self);
        }
        match self.conf {
            None => None,
            Some(c) => {
                proof {
                    use_type_invariant(c);
                    self.lemma_rec(c);
                }
                let rec = &c.records[self.conf_record_ind];
                if rec.tag {
                    proof {
                        assert(c.values()[rec.conf_values.start as int] == c.values@[rec.conf_values.start as int]);
                    }
                    let t = c.values[rec.conf_values.start].text_ind;
                    Some(c.texts[t].as_str())
                } else {
                    None
                }
            },
        }
    }

    pub fn has_tag(&self) -> (r: bool)
        ensures
            r == (self.conf_view() is Some && self.rec().tag),
    {
        proof {
            use_type_invariant(self);
        }
        match self.conf {
            None => false,
            Some(c) => c.records[self.conf_record_ind].tag,
        }
    }

    /// Where the record's first value starts; the default location for no record.
    pub fn start_loc(&self) -> (r: Loc)
        requires
            self.conf_view() matches Some(c) ==> self.rec().conf_values.start < c.values().len(),
        ensures
            match self.conf_view() {
                Some(c) => r == c.values()[self.rec().conf_values.start as int].start_loc,
                None => r == Loc::spec_default(),
            },
    {
        proof {
            use_type_invariant(self);
        }
        match self.conf {
            None => Loc::default(),
            Some(c) => {
                let rec = &c.records[self.conf_record_ind];
                c.values[rec.conf_values.start].start_loc
            },
        }
    }

    /// Where the record's last value ends; the default location for no record.
    pub fn end_loc(&self) -> (r: Loc)
        requires
            self.conf_view() matches Some(c) ==> 1 <= self.rec().conf_values.end <= c.values().len(),
        ensures
            match self.conf_view() {
                Some(c) => r == c.values()[self.rec().conf_values.end - 1].end_loc,
                None => r == Loc::spec_default(),
            },
    {
        proof {
            use_type_invariant(self);
        }
        match self.conf {
            None => Loc::default(),
            Some(c) => {
                let rec = &c.records[self.conf_record_ind];
                c.values[rec.conf_values.end - 1].end_loc
            },
        }
    }

    /// Whether this stands for no record.
    pub fn is_empty(&self) -> (r: bool)
        ensures
            r == (self.conf_view() is None),
    {
        self.conf.is_none()
    }
}

/// Counting ancestors from one step further up gives the same records.
proof fn lemma_ancestor_shift(records: Seq<Record>, cur: int, j: int, ind: int)
    ensures
        ancestor_from(records, cur, j, ind) == ancestor_from(records, cur, j + 1, ind + 1),
    decreases cur,
{
    if 0 <= cur < records.len() {
        if let Some(p) = records[cur].parent {
            if j != ind && p < cur {
                lemma_ancestor_shift(records, p as int, j + 1, ind);
            }
        }
    }
}

/// The parent of a record's child is that record.
pub proof fn law_child_parent<'a, P>(r: RecordContainer<'a, P>, k: int)
    requires
        r.conf_view() matches Some(c) && c.wf() && 0 <= r.ind() < c.records().len(),
        0 <= k < r.spec_children_num(),
    ensures
        ({
            let ch = r.with_ind(r.rec().children.start + k);
            &&& ch.conf_view() == r.conf_view()
            &&& 0 <= ch.ind() < r.conf_view()->0.records().len()
            &&& ch.rec().parent == Some(r.ind() as usize)
            &&& ch.with_ind(r.ind()) == r
        }),
{
    let c = r.conf_view()->0;
    assert(record_wf(c.records(), r.ind(), c.texts().len() as int, c.values().len() as int, c.groups().len() as int));
    let i = r.rec().children.start + k;
    assert(c.records()[i].parent == Some(r.ind() as usize));
}

/// The ancestors of a record from the second on are the ancestors of its
/// parent: ancestor `k + 1` of a record is ancestor `k` of its parent, and
/// ancestor `0` is the parent itself unless the parent is the root.
pub proof fn law_ancestor_of_parent<'a, P>(r: RecordContainer<'a, P>, k: int)
    requires
        r.conf_view() matches Some(c) && c.wf() && 0 <= r.ind() < c.records().len(),
        r.rec().parent is Some,
        0 <= k,
    ensures
        ({
            let c = r.conf_view()->0;
            let p = r.rec().parent->0 as int;
            &&& ancestor_from(c.records(), p, 0, 0) == if c.records()[p].parent is Some {
                Some(p)
            } else {
                None::<int>
            }
            &&& c.records()[p].parent matches Some(pp) ==> ancestor_from(c.records(), p, 0, k + 1)
                == ancestor_from(c.records(), pp as int, 0, k)
        }),
{
    let c = r.conf_view()->0;
    let p = r.rec().parent->0 as int;
    assert(record_wf(c.records(), r.ind(), c.texts().len() as int, c.values().len() as int, c.groups().len() as int));
    assert(record_wf(c.records(), p, c.texts().len() as int, c.values().len() as int, c.groups().len() as int));
    if let Some(pp) = c.records()[p].parent {
        assert(p > 0);
        lemma_ancestor_shift(c.records(), pp as int, 0, k);
    }
}

/// The path of the source that record `r` was read from, if any.
pub open spec fn source_path<'a, P>(r: RecordContainer<'a, P>) -> Option<PathBuf> {
    match r.conf_view() {
        Some(c) => c.spec_path(),
        None => None,
    }
}

} // verus!
