pub mod container;

use vstd::prelude::*;

use std::ops::Range;
use std::path::{Path, PathBuf};

use crate::lexer::Loc;
use crate::paths::opt_buf_as_path;
use container::record::RecordContainer;

verus! {

/// A value of a record, or a line of a body: where it stands in the source,
/// the index of its text, and the index of what its parameter's parser made of it.
#[derive(Debug, Clone, Copy)]
pub struct Value {
    pub start_loc: Loc,
    pub end_loc: Loc,
    pub text_ind: usize,
    pub parsed_ind: Option<usize>,
}

/// A record: its parent, its children (records, or the values of its body),
/// its values and parameter groups, and the indices of the texts of its
/// node's label and branch's name. With a tag, its first value is the tag.
#[derive(Debug)]
pub struct Record {
    pub parent: Option<usize>,
    pub children: Range<usize>,
    pub children_text: bool,
    pub conf_values: Range<usize>,
    pub param_groups: Range<usize>,
    pub node_label: Option<usize>,
    pub branch_name: Option<usize>,
    pub tag: bool,
}

/// The values that one group of parameters of a record took.
#[derive(Debug)]
pub struct ParamGroup {
    pub conf_values: Range<usize>,
    pub name: Option<usize>,
    pub params_num: usize,
    pub optional: bool,
    pub repeat: bool,
}

/// A parsed configuration: a tree of records, with the texts, values,
/// parameter groups and parsed values `P` that they index.
pub struct Conf<P> {
    pub(crate) records: Vec<Record>,
    pub(crate) texts: Vec<String>,
    pub(crate) path: Option<PathBuf>,
    pub(crate) src: Option<String>,
    pub(crate) values: Vec<Value>,
    pub(crate) param_groups: Vec<ParamGroup>,
    pub(crate) parsed_values: Vec<P>,
}

/// `lo..hi` lies within `0..n`.
pub open spec fn range_in(r: Range<usize>, n: int) -> bool {
    r.start <= r.end <= n
}

/// What the indices of a configuration must satisfy, given its records,
/// number of texts, values, number of parameter groups and number of parsed values.
pub open spec fn conf_wf(records: Seq<Record>, nt: int, values: Seq<Value>, groups: Seq<ParamGroup>, np: int) -> bool {
    &&& records.len() >= 1
    &&& records[0].parent is None
    &&& forall|r: int|
        0 <= r < records.len() ==> #[trigger] record_wf(records, r, nt, values.len() as int, groups.len() as int)
    &&& forall|v: int|
        0 <= v < values.len() ==> (#[trigger] values[v]).text_ind < nt && (values[v].parsed_ind matches Some(k) ==> k < np)
    &&& forall|g: int|
        0 <= g < groups.len() ==> range_in((#[trigger] groups[g]).conf_values, values.len() as int)
            && (groups[g].name matches Some(t) ==> t < nt)
}

/// How many records stand above record `r`, up to the root.
pub open spec fn record_depth(records: Seq<Record>, r: int) -> int
    decreases r,
{
    if r <= 0 || r >= records.len() {
        0
    } else {
        match records[r].parent {
            Some(q) => if q < r {
                record_depth(records, q as int) + 1
            } else {
                0
            },
            None => 0,
        }
    }
}

/// The indices of record `r` are in range; its parent comes before it and lists it as a child.
pub open spec fn record_wf(records: Seq<Record>, r: int, nt: int, nv: int, ng: int) -> bool {
    let rec = records[r];
    &&& range_in(rec.conf_values, nv)
    &&& range_in(rec.param_groups, ng)
    &&& rec.children_text ==> range_in(rec.children, nv)
    &&& !rec.children_text ==> range_in(rec.children, records.len() as int)
    &&& rec.node_label matches Some(t) ==> t < nt
    &&& rec.branch_name matches Some(t) ==> t < nt
    &&& rec.tag ==> rec.conf_values.start < rec.conf_values.end
    &&& r > 0 ==> (rec.parent matches Some(p) && p < r)
    &&& !rec.children_text ==> forall|c: int|
        rec.children.start <= c < rec.children.end ==> (#[trigger] records[c]).parent == Some(r as usize)
}

impl<P> Conf<P> {
    pub open(crate) spec fn records(&self) -> Seq<Record> {
        self.records@
    }

    pub open(crate) spec fn texts(&self) -> Seq<Seq<char>> {
        self.texts@.map_values(|s: String| s@)
    }

    pub open(crate) spec fn values(&self) -> Seq<Value> {
        self.values@
    }

    pub open(crate) spec fn groups(&self) -> Seq<ParamGroup> {
        self.param_groups@
    }

    pub open(crate) spec fn parsed(&self) -> Seq<P> {
        self.parsed_values@
    }

    pub open(crate) spec fn src_view(&self) -> Option<Seq<char>> {
        match self.src {
            Some(s) => Some(s@),
            None => None,
        }
    }

    pub open(crate) spec fn has_path(&self) -> bool {
        self.path is Some
    }

    /// The path of the source, if it was read from one.
    pub open(crate) spec fn spec_path(&self) -> Option<PathBuf> {
        self.path
    }

    /// The indices of the configuration agree.
    #[verifier::type_invariant]
    pub open(crate) spec fn inv(&self) -> bool {
        conf_wf(
            self.records@,
            self.texts@.len() as int,
            self.values@,
            self.param_groups@,
            self.parsed_values@.len() as int,
        )
    }

    /// Exposes the invariant's statement.
    pub open(crate) spec fn wf(&self) -> bool {
        conf_wf(self.records(), self.texts().len() as int, self.values(), self.groups(), self.parsed().len() as int)
    }

    /// The root record, above the records at the top of the source.
    pub fn root(&self) -> (r: RecordContainer<'_, P>)
        ensures
            r.conf_view() == Some(*self),
            r.ind() == 0,
    {
        RecordContainer::new_root(self)
    }

    /// The source, if it was kept.
    pub fn src(&self) -> (r: Option<&str>)
        ensures
            match r {
                Some(s) => self.src_view() == Some(s@),
                None => self.src_view() is None,
            },
    {
        match &self.src {
            Some(s) => Some(s.as_str()),
            None => None,
        }
    }

    /// The path of the source, if one was given.
    pub fn path(&self) -> (r: Option<&Path>)
        ensures
            (r is Some) == self.has_path(),
    {
        opt_buf_as_path(&self.path)
    }
}

} // verus!
