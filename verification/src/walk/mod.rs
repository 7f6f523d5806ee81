pub mod error;

use vstd::prelude::*;

use std::path::PathBuf;

use crate::conf::container::record::{RecordContainer, source_path};
use crate::lexer::Loc;
use crate::paths::{opt_deref, opt_pathbuf_clone, opt_pathbuf_eq};
use error::{WalkError, WalkErrorType};

verus! {

/// `b` is a clone of the note `a`: both absent, or `b` holds a clone of what
/// `a` holds.
pub open spec fn note_cloned<N: Clone>(a: Option<N>, b: Option<N>) -> bool {
    match a {
        Some(x) => b matches Some(y) && cloned(x, y),
        None => b is None,
    }
}

/// A record on the way from the top of a walk down to the current one, with
/// the note it was left with and where it stood.
pub struct WalkAncestor<'a, P, N> {
    pub(crate) record: RecordContainer<'a, P>,
    pub(crate) note: Option<N>,
    pub(crate) depth: usize,
    pub(crate) order: usize,
    pub(crate) breadth: usize,
}

impl<'a, P, N: Clone> Clone for WalkAncestor<'a, P, N> {
    fn clone(&self) -> (r: Self)
        ensures
            r.spec_record() == self.spec_record(),
            r.spec_depth() == self.spec_depth(),
            r.spec_order() == self.spec_order(),
            r.spec_breadth() == self.spec_breadth(),
            r.spec_note() is Some == self.spec_note() is Some,
            note_cloned(self.spec_note(), r.spec_note()),
    {
        WalkAncestor {
            record: self.record,
            note: match &self.note {
                Some(n) => Some(n.clone()),
                None => None,
            },
            depth: self.depth,
            order: self.order,
            breadth: self.breadth,
        }
    }
}

impl<'a, P, N> Default for WalkAncestor<'a, P, N> {
    fn default() -> (r: Self)
        ensures
            r.spec_record().conf_view() is None,
            r.spec_note() is None,
            r.spec_depth() == 0,
            r.spec_order() == 0,
            r.spec_breadth() == 0,
    {
        WalkAncestor { record: RecordContainer::default(), note: None, depth: 0, order: 0, breadth: 0 }
    }
}

impl<'a, P, N> WalkAncestor<'a, P, N> {
    pub open(crate) spec fn spec_record(&self) -> RecordContainer<'a, P> {
        self.record
    }

    pub open(crate) spec fn spec_depth(&self) -> usize {
        self.depth
    }

    pub open(crate) spec fn spec_order(&self) -> usize {
        self.order
    }

    pub open(crate) spec fn spec_breadth(&self) -> usize {
        self.breadth
    }

    pub open(crate) spec fn spec_note(&self) -> Option<N> {
        self.note
    }

    pub fn record(&self) -> (r: RecordContainer<'a, P>)
        ensures
            r == self.spec_record(),
    {
        self.record
    }

    /// The note the record was left with, if any.
    pub fn get_note(&self) -> (r: Option<&N>)
        ensures
            match self.spec_note() {
                Some(n) => r == Some(&n),
                None => r is None,
            },
    {
        match &self.note {
            Some(n) => Some(n),
            None => None,
        }
    }

    pub fn depth(&self) -> (r: usize)
        ensures
            r == self.spec_depth(),
    {
        self.depth
    }

    pub fn order(&self) -> (r: usize)
        ensures
            r == self.spec_order(),
    {
        self.order
    }

    pub fn breadth(&self) -> (r: usize)
        ensures
            r == self.spec_breadth(),
    {
        self.breadth
    }
}

/// The ancestors of a walk's record from the parent up, taken from the front
/// (the parent) or the back (the top).
pub struct WalkAncestorIter<'b, 'a, P, N> {
    pub(crate) ancestors: &'b Vec<WalkAncestor<'a, P, N>>,
    pub(crate) start: usize,
    pub(crate) end: usize,
}

impl<'b, 'a, P, N> WalkAncestorIter<'b, 'a, P, N> {
    pub open(crate) spec fn all(&self) -> Seq<WalkAncestor<'a, P, N>> {
        self.ancestors@
    }

    pub open(crate) spec fn front(&self) -> int {
        self.start as int
    }

    pub open(crate) spec fn back(&self) -> int {
        self.end as int
    }

    #[verifier::type_invariant]
    pub(crate) open spec fn inv(&self) -> bool {
        self.end <= self.ancestors@.len()
    }

    /// The next ancestor up, if any are left.
    pub fn next(&mut self) -> (r: Option<&'b WalkAncestor<'a, P, N>>)
        ensures
            final(self).all() == old(self).all(),
            final(self).back() == old(self).back(),
            old(self).front() >= old(self).back() ==> r is None && final(self).front() == old(self).front(),
            old(self).front() < old(self).back() ==> final(self).front() == old(self).front() + 1
                && r == Some(&old(self).all()[old(self).all().len() - old(self).front() - 1]),
    {
        proof {
            use_type_invariant(&*self);
        }
        if self.start >= self.end {
            None
        } else {
            let ind = self.ancestors.len() - self.start - 1;
            self.start = self.start + 1;
            Some(&self.ancestors[ind])
        }
    }

    /// The next ancestor down from the top, if any are left.
    pub fn next_back(&mut self) -> (r: Option<&'b WalkAncestor<'a, P, N>>)
        ensures
            final(self).all() == old(self).all(),
            final(self).front() == old(self).front(),
            old(self).front() >= old(self).back() ==> r is None && final(self).back() == old(self).back(),
            old(self).front() < old(self).back() ==> final(self).back() == old(self).back() - 1
                && r == Some(&old(self).all()[old(self).all().len() - old(self).back()]),
    {
        proof {
            use_type_invariant(&*self);
        }
        if self.start >= self.end {
            None
        } else {
            self.end = self.end - 1;
            let ind = self.ancestors.len() - self.end - 1;
            Some(&self.ancestors[ind])
        }
    }
}

/// A record visited in a walk, entering or leaving it, with what the caller
/// asks for next: skip its children, take in records after it or below it,
/// visit it again on leaving, leave a note.
pub struct Walk<'a, P, N> {
    pub(crate) record: RecordContainer<'a, P>,
    pub(crate) depth: usize,
    pub(crate) order: usize,
    pub(crate) breadth: usize,
    pub(crate) exit: bool,
    pub(crate) ancestors: Vec<WalkAncestor<'a, P, N>>,
    pub(crate) skip_children: bool,
    pub(crate) sibling_inserts: Vec<(RecordContainer<'a, P>, Option<N>)>,
    pub(crate) child_inserts: Vec<(RecordContainer<'a, P>, Option<N>)>,
    pub(crate) have_exit: bool,
    pub(crate) cur_note: Option<N>,
}

impl<'a, P, N> Walk<'a, P, N> {
    pub open(crate) spec fn spec_record(&self) -> RecordContainer<'a, P> {
        self.record
    }

    pub open(crate) spec fn spec_ancestors(&self) -> Seq<WalkAncestor<'a, P, N>> {
        self.ancestors@
    }

    pub open(crate) spec fn spec_depth(&self) -> usize {
        self.depth
    }

    pub open(crate) spec fn spec_order(&self) -> usize {
        self.order
    }

    pub open(crate) spec fn spec_breadth(&self) -> usize {
        self.breadth
    }

    pub open(crate) spec fn spec_exit(&self) -> bool {
        self.exit
    }

    pub open(crate) spec fn spec_skip(&self) -> bool {
        self.skip_children
    }

    pub open(crate) spec fn spec_have_exit(&self) -> bool {
        self.have_exit
    }

    pub open(crate) spec fn spec_note(&self) -> Option<N> {
        self.cur_note
    }

    pub open(crate) spec fn spec_sibling_inserts(&self) -> Seq<(RecordContainer<'a, P>, Option<N>)> {
        self.sibling_inserts@
    }

    pub open(crate) spec fn spec_child_inserts(&self) -> Seq<(RecordContainer<'a, P>, Option<N>)> {
        self.child_inserts@
    }

    /// Everything the caller can ask for is as `old` had it.
    pub open spec fn same_requests(&self, old: &Walk<'a, P, N>) -> bool {
        &&& self.spec_record() == old.spec_record()
        &&& self.spec_ancestors() == old.spec_ancestors()
        &&& self.spec_depth() == old.spec_depth()
        &&& self.spec_order() == old.spec_order()
        &&& self.spec_breadth() == old.spec_breadth()
        &&& self.spec_exit() == old.spec_exit()
    }

    /// A caller's error `e` at the start of the record.
    pub fn error<E>(&self, e: E) -> (r: WalkError<E>)
        requires
            self.spec_record().conf_view() matches Some(c) ==> self.spec_record().rec().conf_values.start
                < c.values().len(),
        ensures
            r.path == source_path(self.spec_record()),
            r.error_type == WalkErrorType::Custom(e),
    {
        WalkError { path: opt_pathbuf_clone(self.record.path_buf()), loc: self.record.start_loc(), error_type: WalkErrorType::Custom(e) }
    }

    pub fn record(&self) -> (r: RecordContainer<'a, P>)
        ensures
            r == self.spec_record(),
    {
        self.record
    }

    /// How deep the record stands below the top of the walk (0 at the top).
    pub fn depth(&self) -> (r: usize)
        ensures
            r == self.spec_depth(),
    {
        self.depth
    }

    /// How many records were entered before this one.
    pub fn order(&self) -> (r: usize)
        ensures
            r == self.spec_order(),
    {
        self.order
    }

    /// How many records were entered before this one under the same parent.
    pub fn breadth(&self) -> (r: usize)
        ensures
            r == self.spec_breadth(),
    {
        self.breadth
    }

    pub fn is_enter(&self) -> (r: bool)
        ensures
            r == !self.spec_exit(),
    {
        !self.exit
    }

    pub fn is_exit(&self) -> (r: bool)
        ensures
            r == self.spec_exit(),
    {
        self.exit
    }

    pub fn ancestors_num(&self) -> (r: usize)
        ensures
            r == self.spec_ancestors().len(),
    {
        self.ancestors.len()
    }

    /// Ancestor `ind`, the parent being 0; a default one past the top.
    pub fn ancestor(&self, ind: usize) -> (r: WalkAncestor<'a, P, N>)
        where
            N: Clone,
        ensures
            ind < self.spec_ancestors().len() ==> r.spec_record() == self.spec_ancestors()[self.spec_ancestors().len()
                - ind - 1].spec_record() && r.spec_depth() == self.spec_ancestors()[self.spec_ancestors().len() - ind
                - 1].spec_depth() && r.spec_order() == self.spec_ancestors()[self.spec_ancestors().len() - ind - 1].spec_order()
                && r.spec_breadth() == self.spec_ancestors()[self.spec_ancestors().len() - ind - 1].spec_breadth(),
            ind >= self.spec_ancestors().len() ==> r.spec_record().conf_view() is None && r.spec_depth() == 0 && r.spec_order() == 0
                && r.spec_breadth() == 0 && r.spec_note() is None,
    {
        if self.ancestors.len() == 0 || ind >= self.ancestors.len() {
            WalkAncestor::default()
        } else {
            self.ancestors[self.ancestors.len() - ind - 1].clone()
        }
    }

    /// Ancestor `ind`, the parent being 0, if there is one.
    pub fn get_ancestor(&self, ind: usize) -> (r: Option<WalkAncestor<'a, P, N>>)
        where
            N: Clone,
        ensures
            (r is Some) == (ind < self.spec_ancestors().len()),
            r matches Some(a) ==> a.spec_record() == self.spec_ancestors()[self.spec_ancestors().len() - ind - 1].spec_record()
                && a.spec_depth() == self.spec_ancestors()[self.spec_ancestors().len() - ind - 1].spec_depth(),
    {
        if self.ancestors.len() == 0 || ind >= self.ancestors.len() {
            None
        } else {
            Some(self.ancestors[self.ancestors.len() - ind - 1].clone())
        }
    }

    /// The ancestors from the parent up.
    pub fn ancestors(&self) -> (r: WalkAncestorIter<'_, 'a, P, N>)
        ensures
            r.all() == self.spec_ancestors(),
            r.front() == 0,
            r.back() == self.spec_ancestors().len(),
    {
        WalkAncestorIter { ancestors: &self.ancestors, start: 0, end: self.ancestors.len() }
    }

    /// The parent; a default ancestor at the top.
    pub fn parent(&self) -> (r: WalkAncestor<'a, P, N>)
        where
            N: Clone,
        ensures
            self.spec_ancestors().len() > 0 ==> r.spec_record() == self.spec_ancestors().last().spec_record()
                && r.spec_depth() == self.spec_ancestors().last().spec_depth(),
            self.spec_ancestors().len() == 0 ==> r.spec_record().conf_view() is None && r.spec_depth() == 0,
    {
        if self.ancestors.len() == 0 {
            WalkAncestor::default()
        } else {
            self.ancestors[self.ancestors.len() - 1].clone()
        }
    }

    /// The parent, if the record is not at the top.
    pub fn get_parent(&self) -> (r: Option<WalkAncestor<'a, P, N>>)
        where
            N: Clone,
        ensures
            (r is Some) == (self.spec_ancestors().len() > 0),
            r matches Some(a) ==> a.spec_record() == self.spec_ancestors().last().spec_record(),
    {
        if self.ancestors.len() == 0 {
            None
        } else {
            Some(self.ancestors[self.ancestors.len() - 1].clone())
        }
    }

    pub fn has_parent(&self) -> (r: bool)
        ensures
            r == (self.spec_ancestors().len() > 0),
    {
        self.ancestors.len() != 0
    }

    /// Asks the walk not to visit the record's children.
    pub fn skip_children(&mut self)
        ensures
            final(self).same_requests(&*old(self)),
            final(self).spec_skip(),
            final(self).spec_have_exit() == old(self).spec_have_exit(),
            final(self).spec_sibling_inserts() == old(self).spec_sibling_inserts(),
            final(self).spec_child_inserts() == old(self).spec_child_inserts(),
            final(self).spec_note() == old(self).spec_note(),
    {
        self.skip_children = true;
    }

    /// Asks the walk to visit these records after this one, at its depth.
    pub fn extend(&mut self, records: &[RecordContainer<'a, P>])
        ensures
            final(self).same_requests(&*old(self)),
            final(self).spec_skip() == old(self).spec_skip(),
            final(self).spec_have_exit() == old(self).spec_have_exit(),
            final(self).spec_child_inserts() == old(self).spec_child_inserts(),
            final(self).spec_note() == old(self).spec_note(),
            final(self).spec_sibling_inserts().len() == old(self).spec_sibling_inserts().len() + records@.len(),
            forall|i: int|
                0 <= i < old(self).spec_sibling_inserts().len() ==> #[trigger] final(self).spec_sibling_inserts()[i]
                    == old(self).spec_sibling_inserts()[i],
            forall|i: int|
                0 <= i < records@.len() ==> #[trigger] final(self).spec_sibling_inserts()[old(self).spec_sibling_inserts().len() + i]
                    == (records@[i], None::<N>),
    {
        let mut i: usize = 0;
        while i < records.len()
            invariant
                i <= records@.len(),
                self.same_requests(&*old(self)),
                self.spec_skip() == old(self).spec_skip(),
                self.spec_have_exit() == old(self).spec_have_exit(),
                self.spec_child_inserts() == old(self).spec_child_inserts(),
                self.spec_note() == old(self).spec_note(),
                self.spec_sibling_inserts().len() == old(self).spec_sibling_inserts().len() + i,
                forall|j: int|
                    0 <= j < old(self).spec_sibling_inserts().len() ==> #[trigger] self.spec_sibling_inserts()[j]
                        == old(self).spec_sibling_inserts()[j],
                forall|j: int|
                    0 <= j < i ==> #[trigger] self.spec_sibling_inserts()[old(self).spec_sibling_inserts().len() + j]
                        == (records@[j], None::<N>),
            decreases records@.len() - i,
        {
            self.sibling_inserts.push((records[i], None));
            i = i + 1;
        }
    }

    /// Asks the walk to visit these records below this one, before its children.
    pub fn extend_children(&mut self, records: &[RecordContainer<'a, P>])
        ensures
            final(self).same_requests(&*old(self)),
            final(self).spec_skip() == old(self).spec_skip(),
            final(self).spec_have_exit() == old(self).spec_have_exit(),
            final(self).spec_sibling_inserts() == old(self).spec_sibling_inserts(),
            final(self).spec_note() == old(self).spec_note(),
            final(self).spec_child_inserts().len() == old(self).spec_child_inserts().len() + records@.len(),
            forall|i: int|
                0 <= i < old(self).spec_child_inserts().len() ==> #[trigger] final(self).spec_child_inserts()[i]
                    == old(self).spec_child_inserts()[i],
            forall|i: int|
                0 <= i < records@.len() ==> #[trigger] final(self).spec_child_inserts()[old(self).spec_child_inserts().len() + i]
                    == (records@[i], None::<N>),
    {
        let mut i: usize = 0;
        while i < records.len()
            invariant
                i <= records@.len(),
                self.same_requests(&*old(self)),
                self.spec_skip() == old(self).spec_skip(),
                self.spec_have_exit() == old(self).spec_have_exit(),
                self.spec_sibling_inserts() == old(self).spec_sibling_inserts(),
                self.spec_note() == old(self).spec_note(),
                self.spec_child_inserts().len() == old(self).spec_child_inserts().len() + i,
                forall|j: int|
                    0 <= j < old(self).spec_child_inserts().len() ==> #[trigger] self.spec_child_inserts()[j]
                        == old(self).spec_child_inserts()[j],
                forall|j: int|
                    0 <= j < i ==> #[trigger] self.spec_child_inserts()[old(self).spec_child_inserts().len() + j]
                        == (records@[j], None::<N>),
            decreases records@.len() - i,
        {
            self.child_inserts.push((records[i], None));
            i = i + 1;
        }
    }

    /// As `extend`, each record with the note `note`.
    pub fn extend_note(&mut self, records: &[RecordContainer<'a, P>], note: N)
        where
            N: Clone,
        ensures
            final(self).same_requests(&*old(self)),
            final(self).spec_skip() == old(self).spec_skip(),
            final(self).spec_have_exit() == old(self).spec_have_exit(),
            final(self).spec_child_inserts() == old(self).spec_child_inserts(),
            final(self).spec_note() == old(self).spec_note(),
            final(self).spec_sibling_inserts().len() == old(self).spec_sibling_inserts().len() + records@.len(),
            forall|i: int|
                0 <= i < old(self).spec_sibling_inserts().len() ==> #[trigger] final(self).spec_sibling_inserts()[i]
                    == old(self).spec_sibling_inserts()[i],
            forall|i: int|
                0 <= i < records@.len() ==> #[trigger] final(self).spec_sibling_inserts()[old(self).spec_sibling_inserts().len() + i].0
                    == records@[i] && final(self).spec_sibling_inserts()[old(self).spec_sibling_inserts().len() + i].1 is Some,
    {
        let mut i: usize = 0;
        while i < records.len()
            invariant
                i <= records@.len(),
                self.same_requests(&*old(self)),
                self.spec_skip() == old(self).spec_skip(),
                self.spec_have_exit() == old(self).spec_have_exit(),
                self.spec_child_inserts() == old(self).spec_child_inserts(),
                self.spec_note() == old(self).spec_note(),
                self.spec_sibling_inserts().len() == old(self).spec_sibling_inserts().len() + i,
                forall|j: int|
                    0 <= j < old(self).spec_sibling_inserts().len() ==> #[trigger] self.spec_sibling_inserts()[j]
                        == old(self).spec_sibling_inserts()[j],
                forall|j: int|
                    0 <= j < i ==> #[trigger] self.spec_sibling_inserts()[old(self).spec_sibling_inserts().len() + j].0
                        == records@[j] && self.spec_sibling_inserts()[old(self).spec_sibling_inserts().len() + j].1 is Some,
            decreases records@.len() - i,
        {
            self.sibling_inserts.push((records[i], Some(note.clone())));
            i = i + 1;
        }
    }

    /// As `extend_children`, each record with the note `note`.
    pub fn extend_children_note(&mut self, records: &[RecordContainer<'a, P>], note: N)
        where
            N: Clone,
        ensures
            final(self).same_requests(&*old(self)),
            final(self).spec_skip() == old(self).spec_skip(),
            final(self).spec_have_exit() == old(self).spec_have_exit(),
            final(self).spec_sibling_inserts() == old(self).spec_sibling_inserts(),
            final(self).spec_note() == old(self).spec_note(),
            final(self).spec_child_inserts().len() == old(self).spec_child_inserts().len() + records@.len(),
            forall|i: int|
                0 <= i < old(self).spec_child_inserts().len() ==> #[trigger] final(self).spec_child_inserts()[i]
                    == old(self).spec_child_inserts()[i],
            forall|i: int|
                0 <= i < records@.len() ==> #[trigger] final(self).spec_child_inserts()[old(self).spec_child_inserts().len() + i].0
                    == records@[i] && final(self).spec_child_inserts()[old(self).spec_child_inserts().len() + i].1 is Some,
    {
        let mut i: usize = 0;
        while i < records.len()
            invariant
                i <= records@.len(),
                self.same_requests(&*old(self)),
                self.spec_skip() == old(self).spec_skip(),
                self.spec_have_exit() == old(self).spec_have_exit(),
                self.spec_sibling_inserts() == old(self).spec_sibling_inserts(),
                self.spec_note() == old(self).spec_note(),
                self.spec_child_inserts().len() == old(self).spec_child_inserts().len() + i,
                forall|j: int|
                    0 <= j < old(self).spec_child_inserts().len() ==> #[trigger] self.spec_child_inserts()[j]
                        == old(self).spec_child_inserts()[j],
                forall|j: int|
                    0 <= j < i ==> #[trigger] self.spec_child_inserts()[old(self).spec_child_inserts().len() + j].0
                        == records@[j] && self.spec_child_inserts()[old(self).spec_child_inserts().len() + j].1 is Some,
            decreases records@.len() - i,
        {
            self.child_inserts.push((records[i], Some(note.clone())));
            i = i + 1;
        }
    }

    /// Leaves a note on the record, seen by its descendants and on leaving it.
    pub fn set_note(&mut self, note: N)
        ensures
            final(self).same_requests(&*old(self)),
            final(self).spec_skip() == old(self).spec_skip(),
            final(self).spec_have_exit() == old(self).spec_have_exit(),
            final(self).spec_sibling_inserts() == old(self).spec_sibling_inserts(),
            final(self).spec_child_inserts() == old(self).spec_child_inserts(),
            final(self).spec_note() == Some(note),
    {
        self.cur_note = Some(note);
    }

    /// The record's note, if it has one.
    pub fn get_note(&self) -> (r: Option<&N>)
        ensures
            match self.spec_note() {
                Some(n) => r == Some(&n),
                None => r is None,
            },
    {
        match &self.cur_note {
            Some(n) => Some(n),
            None => None,
        }
    }

    /// Asks the walk to visit the record again on leaving it, after its children.
    pub fn have_exit(&mut self)
        ensures
            final(self).same_requests(&*old(self)),
            final(self).spec_skip() == old(self).spec_skip(),
            final(self).spec_have_exit(),
            final(self).spec_sibling_inserts() == old(self).spec_sibling_inserts(),
            final(self).spec_child_inserts() == old(self).spec_child_inserts(),
            final(self).spec_note() == old(self).spec_note(),
    {
        self.have_exit = true;
    }
}

/// A record waiting to be visited, with the records taken in on the way to
/// it (by path and index) and the note it carries.
pub struct Work<'a, P, N> {
    pub(crate) record: RecordContainer<'a, P>,
    pub(crate) depth: usize,
    pub(crate) exit: bool,
    pub(crate) exit_order: usize,
    pub(crate) visiteds: Vec<(Option<&'a PathBuf>, usize)>,
    pub(crate) note: Option<N>,
}

impl<'a, P, N> Work<'a, P, N> {
    pub open(crate) spec fn w_record(&self) -> RecordContainer<'a, P> {
        self.record
    }

    pub open(crate) spec fn w_depth(&self) -> usize {
        self.depth
    }

    pub open(crate) spec fn w_exit(&self) -> bool {
        self.exit
    }

    pub open(crate) spec fn w_exit_order(&self) -> usize {
        self.exit_order
    }

    pub open(crate) spec fn w_note(&self) -> Option<N> {
        self.note
    }

    /// The records taken in on the way to it, each by whether its source has
    /// a path and by its index.
    pub open(crate) spec fn keys(&self) -> Seq<(bool, int)> {
        self.visiteds@.map_values(|k: (Option<&'a PathBuf>, usize)| (k.0 is Some, k.1 as int))
    }

    /// The records taken in on the way to it, each by the path of its source
    /// and its index.
    pub open(crate) spec fn path_keys(&self) -> Seq<(Option<PathBuf>, int)> {
        self.visiteds@.map_values(|k: (Option<&'a PathBuf>, usize)| (opt_deref(k.0), k.1 as int))
    }
}

/// How a record is taken in: whether its source has a path, and its index.
pub open spec fn rec_key<'a, P>(r: RecordContainer<'a, P>) -> (bool, int) {
    (r.conf_view() is Some && r.conf_view()->0.has_path(), r.ind())
}

/// A record by the path of its source and its index.
pub open spec fn path_key<'a, P>(r: RecordContainer<'a, P>) -> (Option<PathBuf>, int) {
    (source_path(r), r.ind())
}

/// A record that `w` asked for (after it or below it) was taken in on the
/// way: one of `keys` has its path and its index.
pub open spec fn asks_visited<'a, P, N>(w: Walk<'a, P, N>, keys: Seq<(Option<PathBuf>, int)>) -> bool {
    ||| exists|k: int|
        0 <= k < w.spec_sibling_inserts().len() && keys.contains(path_key(#[trigger] w.spec_sibling_inserts()[k].0))
    ||| exists|k: int|
        0 <= k < w.spec_child_inserts().len() && keys.contains(path_key(#[trigger] w.spec_child_inserts()[k].0))
}

/// Where a record starts: the start of its first value in its source, or the
/// default location where there is none.
pub open spec fn start_loc_of<'a, P>(r: RecordContainer<'a, P>) -> Loc {
    match r.conf_view() {
        Some(c) => if r.rec().conf_values.start < c.values().len() {
            c.values()[r.rec().conf_values.start as int].start_loc
        } else {
            Loc::spec_default()
        },
        None => Loc::spec_default(),
    }
}

/// A record that `w` asked for (after it or below it) may have been taken in
/// on the way: one of `keys` has its index, and a path just where it has one;
/// with `pathless`, one whose source has no path.
pub open spec fn asks_taken<'a, P, N>(w: Walk<'a, P, N>, keys: Seq<(bool, int)>, pathless: bool) -> bool {
    ||| exists|k: int|
        0 <= k < w.spec_sibling_inserts().len() && keys.contains(rec_key(#[trigger] w.spec_sibling_inserts()[k].0))
            && (pathless ==> !rec_key(w.spec_sibling_inserts()[k].0).0)
    ||| exists|k: int|
        0 <= k < w.spec_child_inserts().len() && keys.contains(rec_key(#[trigger] w.spec_child_inserts()[k].0))
            && (pathless ==> !rec_key(w.spec_child_inserts()[k].0).0)
}

/// Keeps the first `len` counts, adding zeros as needed.
fn resize_counts(v: &mut Vec<usize>, len: usize)
    ensures
        final(v)@ == resized(old(v)@, len as int),
{
    while v.len() > len
        invariant
            v@ == old(v)@.take(v@.len() as int),
            v@.len() <= old(v)@.len(),
            v@.len() >= len || v@.len() == old(v)@.len(),
        decreases v@.len(),
    {
        v.pop();
        proof {
            assert(v@ =~= old(v)@.take(v@.len() as int));
        }
    }
    let ghost n0 = v@.len() as int;
    assert(n0 == if old(v)@.len() < len { old(v)@.len() as int } else { len as int });
    while v.len() < len
        invariant
            n0 <= v@.len() <= len,
            n0 <= old(v)@.len(),
            n0 == if old(v)@.len() < len { old(v)@.len() as int } else { len as int },
            forall|i: int| 0 <= i < n0 ==> #[trigger] v@[i] == old(v)@[i],
            forall|i: int| n0 <= i < v@.len() ==> #[trigger] v@[i] == 0,
        decreases len - v@.len(),
    {
        v.push(0);
    }
    proof {
        assert(v@ =~= resized(old(v)@, len as int));
    }
}

/// `v` cut to `len` items, or filled up with zeros.
pub open spec fn resized(v: Seq<usize>, len: int) -> Seq<usize> {
    Seq::new(len as nat, |i: int| if i < v.len() { v[i] } else { 0usize })
}

/// A copy of a list of visited records.
fn copy_keys<'a>(v: &Vec<(Option<&'a PathBuf>, usize)>) -> (r: Vec<(Option<&'a PathBuf>, usize)>)
    ensures
        r@ == v@,
{
    let mut r: Vec<(Option<&'a PathBuf>, usize)> = Vec::new();
    let mut i: usize = 0;
    while i < v.len()
        invariant
            i <= v@.len(),
            r@ == v@.take(i as int),
        decreases v@.len() - i,
    {
        r.push(v[i]);
        i = i + 1;
        proof {
            assert(r@ =~= v@.take(i as int));
        }
    }
    proof {
        assert(v@.take(i as int) =~= v@);
    }
    r
}

/// Whether a record of the source at `p` with index `ind` was taken in on the
/// way: one noted with the same index and a path that compares equal to `p`
/// (both absent, or both present and equal). One noted with the same index
/// and the same path is found; one is found only where it has the same index
/// and a path just where `p` is one.
fn visited<'a, 'b>(v: &Vec<(Option<&'a PathBuf>, usize)>, p: Option<&'b PathBuf>, ind: usize) -> (r: bool)
    ensures
        (exists|i: int| 0 <= i < v@.len() && (#[trigger] v@[i]).1 == ind && opt_deref(v@[i].0) == opt_deref(p)) ==> r,
        r ==> exists|i: int| 0 <= i < v@.len() && (#[trigger] v@[i]).1 == ind && (v@[i].0 is None) == (p is None),
{
    let mut i: usize = 0;
    while i < v.len()
        invariant
            i <= v@.len(),
            forall|k: int| 0 <= k < i ==> !((#[trigger] v@[k]).1 == ind && opt_deref(v@[k].0) == opt_deref(p)),
        decreases v@.len() - i,
    {
        if v[i].1 == ind && opt_pathbuf_eq(v[i].0, p) {
            return true;
        }
        i = i + 1;
    }
    false
}

/// Where a record starts, or the default location if it has no value there.
fn record_loc<'a, P>(r: RecordContainer<'a, P>) -> (l: Loc)
    ensures
        l == start_loc_of(r),
{
    proof {
        use_type_invariant(&r);
    }
    match r.conf {
        Some(c) => {
            let rec = &c.records[r.conf_record_ind];
            if rec.conf_values.start < c.values.len() {
                c.values[rec.conf_values.start].start_loc
            } else {
                Loc::default()
            }
        },
        None => Loc::default(),
    }
}

/// Work `wk` waits to enter `rec` at `depth`.
pub open spec fn enters<'a, P, N>(wk: Work<'a, P, N>, rec: RecordContainer<'a, P>, depth: usize) -> bool {
    wk.w_record() == rec && wk.w_depth() == depth && !wk.w_exit()
}

/// The depth of the records below one at `depth`.
pub open spec fn below(depth: usize) -> usize {
    if depth < usize::MAX {
        (depth + 1) as usize
    } else {
        depth
    }
}

/// What the visit `w` to the record of `work` leaves waiting after `old`, the
/// first to come last: the records asked for after it, in order, at its
/// depth; its visit on leaving, if asked for on entering, with the order
/// `order`; the records asked for below it, in order, one deeper; and, on
/// entering unless skipped, its children, in order, one deeper.
#[verifier::opaque]
pub open spec fn pushed_after<'a, P, N>(
    old: Seq<Work<'a, P, N>>,
    new: Seq<Work<'a, P, N>>,
    work: Work<'a, P, N>,
    w: Walk<'a, P, N>,
    order: usize,
) -> bool {
    let n0 = old.len() as int;
    let ns = w.spec_sibling_inserts().len() as int;
    let nc = w.spec_child_inserts().len() as int;
    let ex = !work.w_exit() && w.spec_have_exit();
    let n1 = n0 + ns + if ex {
        1int
    } else {
        0int
    };
    let n2 = n1 + nc;
    let kids = !work.w_exit() && !w.spec_skip();
    let rec = work.w_record();
    &&& new.len() == n2 + if kids {
        rec.spec_children_num()
    } else {
        0int
    }
    &&& forall|k: int|
        0 <= k < ns ==> #[trigger] enters(new[n0 + k], w.spec_sibling_inserts()[ns - 1 - k].0, work.w_depth())
            && new[n0 + k].keys() == work.keys().push(rec_key(w.spec_sibling_inserts()[ns - 1 - k].0))
    &&& ex ==> new[n0 + ns].w_record() == rec && new[n0 + ns].w_depth() == work.w_depth() && new[n0
        + ns].w_exit() && new[n0 + ns].w_exit_order() == order && new[n0 + ns].keys() == work.keys()
    &&& forall|k: int|
        0 <= k < nc ==> #[trigger] enters(new[n1 + k], w.spec_child_inserts()[nc - 1 - k].0, below(work.w_depth()))
            && new[n1 + k].keys() == work.keys()
    &&& kids ==> forall|i: int|
        n2 <= i < n2 + rec.spec_children_num() ==> enters(
            #[trigger] new[i],
            rec.with_ind(rec.rec().children.end - 1 - (i - n2)),
            below(work.w_depth()),
        ) && new[i].keys() == work.keys()
}

/// The notes that the visit `w` to the record being visited in `old` leaves
/// in `new`: the record, as the last ancestor, keeps a clone of `w`'s note;
/// each record asked for after it or below it carries a clone of the note it
/// was asked with; its visit on leaving, a clone of `w`'s note; its children, none (see
/// `pushed_after` for where each waits).
pub open spec fn notes_pushed<'a, P, N: Clone>(old: Traversal<'a, P, N>, new: Traversal<'a, P, N>, w: Walk<'a, P, N>) -> bool {
    let work = old.visiting()->0;
    let nw = new.waiting();
    let n0 = old.waiting().len() as int;
    let ns = w.spec_sibling_inserts().len() as int;
    let nc = w.spec_child_inserts().len() as int;
    let ex = !work.w_exit() && w.spec_have_exit();
    let n1 = n0 + ns + if ex {
        1int
    } else {
        0int
    };
    let n2 = n1 + nc;
    &&& new.ancestors_view().len() > 0
    &&& note_cloned(w.spec_note(), new.ancestors_view().last().spec_note())
    &&& forall|k: int| 0 <= k < ns ==> note_cloned(w.spec_sibling_inserts()[ns - 1 - k].1, (#[trigger] nw[n0 + k]).w_note())
    &&& ex ==> note_cloned(w.spec_note(), nw[n0 + ns].w_note())
    &&& forall|k: int| 0 <= k < nc ==> #[trigger] note_cloned(w.spec_child_inserts()[nc - 1 - k].1, nw[n1 + k].w_note())
    &&& forall|i: int| n2 <= i < nw.len() ==> (#[trigger] nw[i]).w_note() is None
}

/// The length of a list of `len` items cut to at most `depth`.
pub open spec fn kept_len(len: int, depth: int) -> int {
    if len <= depth {
        len
    } else {
        depth
    }
}

/// Two ancestors stand for the same record at the same place.
pub open spec fn same_place<'a, P, N>(a: WalkAncestor<'a, P, N>, b: WalkAncestor<'a, P, N>) -> bool {
    &&& a.spec_record() == b.spec_record()
    &&& a.spec_depth() == b.spec_depth()
    &&& a.spec_order() == b.spec_order()
    &&& a.spec_breadth() == b.spec_breadth()
    &&& (a.spec_note() is Some) == (b.spec_note() is Some)
}

/// The counts of records entered per depth when a record at `depth` is
/// visited: the counts down to its depth, one more at its own on entering.
pub open spec fn counted(counts: Seq<usize>, depth: usize, exit: bool) -> Seq<usize> {
    let cut = resized(counts, below(depth) as int);
    let last = cut.len() - 1;
    if !exit && cut[last] < usize::MAX {
        cut.update(last, (cut[last] + 1) as usize)
    } else {
        cut
    }
}

/// The breadth of the record just counted: the count at its depth, less one.
pub open spec fn breadth_of(counts: Seq<usize>) -> usize {
    let b = counts.last();
    if b == 0 {
        0
    } else {
        (b - 1) as usize
    }
}

/// `new` and the visit `w` are what taking the next record waiting in `old`
/// gives: the last work waiting becomes the one being visited, and `w` visits
/// its record at its depth, with the order it was entered with on leaving,
/// else the count of records entered so far, asking for nothing yet.
pub open spec fn took_next<'a, P, N>(old: Traversal<'a, P, N>, new: Traversal<'a, P, N>, w: Walk<'a, P, N>) -> bool {
    let work = old.waiting().last();
    &&& old.waiting().len() > 0
    &&& w.spec_record() == work.w_record()
    &&& w.spec_depth() == work.w_depth()
    &&& w.spec_exit() == work.w_exit()
    &&& w.spec_order() == if work.w_exit() {
        work.w_exit_order()
    } else {
        old.entered()
    }
    &&& new.ancestors_view() == old.ancestors_view().take(kept_len(old.ancestors_view().len() as int, work.w_depth() as int))
    &&& w.spec_ancestors().len() == new.ancestors_view().len()
    &&& forall|i: int| 0 <= i < w.spec_ancestors().len() ==> #[trigger] same_place(w.spec_ancestors()[i], new.ancestors_view()[i])
    &&& new.counts() == counted(old.counts(), work.w_depth(), work.w_exit())
    &&& w.spec_breadth() == breadth_of(new.counts())
    &&& !w.spec_skip()
    &&& !w.spec_have_exit()
    &&& w.spec_sibling_inserts().len() == 0
    &&& w.spec_child_inserts().len() == 0
    &&& new.waiting() == old.waiting().drop_last()
    &&& new.visiting() == Some(work)
    &&& new.entered() == old.entered()
}

/// `new` is what carrying out the visit `w` to the record being visited in
/// `old` gives, when no record asked for was taken in before: the record is
/// the last ancestor, with `w`'s order and breadth; what was waiting stays,
/// with what `w` asked for after it (see `pushed_after`); entering counts.
pub open spec fn applied<'a, P, N>(old: Traversal<'a, P, N>, new: Traversal<'a, P, N>, w: Walk<'a, P, N>) -> bool {
    let work = old.visiting()->0;
    &&& old.visiting() is Some
    &&& new.visiting() is None
    &&& new.ancestors_view().len() == old.ancestors_view().len() + 1
    &&& new.ancestors_view().last().spec_record() == work.w_record()
    &&& new.ancestors_view().last().spec_order() == w.spec_order()
    &&& new.ancestors_view().last().spec_breadth() == w.spec_breadth()
    &&& forall|i: int| 0 <= i < old.waiting().len() ==> #[trigger] new.waiting()[i] == old.waiting()[i]
    &&& pushed_after(old.waiting(), new.waiting(), work, w, old.entered())
    &&& new.counts() == old.counts()
    &&& new.entered() == if !work.w_exit() && old.entered() < usize::MAX {
        old.entered() + 1
    } else {
        old.entered() as int
    }
}

/// A record's visit on leaving has the order of its visit on entering: when
/// the visit `w1` taken on entering a record is asked (as `w1b`) to come back
/// on leaving, the visit on leaving left waiting by `apply`, once it is the
/// next one taken, visits the same record at the same depth with `w1`'s order.
pub proof fn law_exit_keeps_order<'a, P, N>(
    t0: Traversal<'a, P, N>,
    t1: Traversal<'a, P, N>,
    w1: Walk<'a, P, N>,
    w1b: Walk<'a, P, N>,
    t2: Traversal<'a, P, N>,
    t3: Traversal<'a, P, N>,
    t4: Traversal<'a, P, N>,
    w2: Walk<'a, P, N>,
)
    requires
        took_next(t0, t1, w1),
        !w1.spec_exit(),
        w1b.same_requests(&w1),
        w1b.spec_have_exit(),
        applied(t1, t2, w1b),
        t3.waiting().len() > 0,
        t3.waiting().last() == t2.waiting()[t1.waiting().len() + w1b.spec_sibling_inserts().len() as int],
        took_next(t3, t4, w2),
    ensures
        w2.spec_exit(),
        w2.spec_record() == w1.spec_record(),
        w2.spec_depth() == w1.spec_depth(),
        w2.spec_order() == w1.spec_order(),
{
    reveal(pushed_after);
    let work = t1.visiting()->0;
    let k = t1.waiting().len() + w1b.spec_sibling_inserts().len() as int;
    assert(!work.w_exit());
    assert(t2.waiting()[k].w_exit_order() == t1.entered());
}

/// A record's visit on leaving has the breadth of its visit on entering, its
/// place among the records entered under the same parent: when the visit `w1`
/// taken on entering a record is asked (as `w1b`) to come back on leaving, and
/// the visits until the one on leaving are taken (`t3`) counted only records
/// deeper than it (the counts down to its depth are those left by `apply`, see
/// `law_deeper_keeps_counts`), the visit on leaving, once taken, has `w1`'s
/// breadth.
pub proof fn law_exit_keeps_breadth<'a, P, N>(
    t0: Traversal<'a, P, N>,
    t1: Traversal<'a, P, N>,
    w1: Walk<'a, P, N>,
    w1b: Walk<'a, P, N>,
    t2: Traversal<'a, P, N>,
    t3: Traversal<'a, P, N>,
    t4: Traversal<'a, P, N>,
    w2: Walk<'a, P, N>,
)
    requires
        took_next(t0, t1, w1),
        !w1.spec_exit(),
        w1b.same_requests(&w1),
        w1b.spec_have_exit(),
        applied(t1, t2, w1b),
        t3.waiting().len() > 0,
        t3.waiting().last() == t2.waiting()[t1.waiting().len() + w1b.spec_sibling_inserts().len() as int],
        t3.counts().len() >= below(w1.spec_depth()),
        t3.counts().take(below(w1.spec_depth()) as int) == t2.counts().take(below(w1.spec_depth()) as int),
        took_next(t3, t4, w2),
    ensures
        w2.spec_exit(),
        w2.spec_record() == w1.spec_record(),
        w2.spec_breadth() == w1.spec_breadth(),
{
    reveal(pushed_after);
    let work = t1.visiting()->0;
    let k = t1.waiting().len() + w1b.spec_sibling_inserts().len() as int;
    let d = w1.spec_depth();
    assert(t2.waiting()[k].w_depth() == d);
    assert(t1.counts().len() == below(d));
    assert(t2.counts().take(below(d) as int) =~= t1.counts());
    assert(t4.counts() =~= t1.counts());
}

/// Visits deeper than a depth keep the counts of the records entered down to
/// that depth: taking a visit at a depth below `d` (short of the deepest depth
/// a `usize` holds) leaves the counts at depths up to `d` as they were;
/// carrying a visit out leaves all counts (see `applied`).
pub proof fn law_deeper_keeps_counts<'a, P, N>(
    t0: Traversal<'a, P, N>,
    t1: Traversal<'a, P, N>,
    w: Walk<'a, P, N>,
    d: usize,
)
    requires
        took_next(t0, t1, w),
        d < w.spec_depth() < usize::MAX,
        t0.counts().len() >= below(d),
    ensures
        t1.counts().len() >= below(d),
        t1.counts().take(below(d) as int) == t0.counts().take(below(d) as int),
{
    let dw = w.spec_depth();
    let cut = resized(t0.counts(), below(dw) as int);
    assert(below(d) <= below(dw));
    assert forall|i: int| 0 <= i < below(d) implies #[trigger] t1.counts()[i] == t0.counts()[i] by {
        assert(cut[i] == t0.counts()[i]);
        assert(i < cut.len() - 1);
    }
    assert(t1.counts().take(below(d) as int) =~= t0.counts().take(below(d) as int));
}

/// The breadth of a visit is the count of records entered at its depth under
/// the current parents, less one for its own record on entering; on leaving,
/// the count is as the records entered before left it.
pub proof fn law_breadth_counts<'a, P, N>(t0: Traversal<'a, P, N>, t1: Traversal<'a, P, N>, w: Walk<'a, P, N>)
    requires
        took_next(t0, t1, w),
        w.spec_depth() < usize::MAX,
        t0.counts().len() > w.spec_depth(),
        t0.counts()[w.spec_depth() as int] < usize::MAX,
    ensures
        w.spec_breadth() == if w.spec_exit() {
            if t0.counts()[w.spec_depth() as int] == 0 {
                0
            } else {
                t0.counts()[w.spec_depth() as int] - 1
            }
        } else {
            t0.counts()[w.spec_depth() as int] as int
        },
{
}

/// Depth first, children in order: when a record entered with nothing asked
/// of its visit has children, the next record taken is its first child,
/// entered one level deeper.
pub proof fn law_first_child_next<'a, P, N>(
    t0: Traversal<'a, P, N>,
    t1: Traversal<'a, P, N>,
    w1: Walk<'a, P, N>,
    t2: Traversal<'a, P, N>,
    t3: Traversal<'a, P, N>,
    w2: Walk<'a, P, N>,
)
    requires
        took_next(t0, t1, w1),
        !w1.spec_exit(),
        applied(t1, t2, w1),
        w1.spec_record().spec_children_num() > 0,
        took_next(t2, t3, w2),
    ensures
        !w2.spec_exit(),
        w2.spec_record() == w1.spec_record().with_ind(w1.spec_record().rec().children.start as int),
        w2.spec_depth() == below(w1.spec_depth()),
{
    reveal(pushed_after);
    let work = t1.visiting()->0;
    let rec = work.w_record();
    let last = t2.waiting().len() - 1;
    assert(t2.waiting().last() == t2.waiting()[last]);
}

/// With nothing asked of a visit and nothing below it (no children, or the
/// visit on leaving), the next record taken is the one that was waiting next:
/// a later sibling, or a record further up.
pub proof fn law_waiting_next<'a, P, N>(
    t0: Traversal<'a, P, N>,
    t1: Traversal<'a, P, N>,
    w1: Walk<'a, P, N>,
    t2: Traversal<'a, P, N>,
    t3: Traversal<'a, P, N>,
    w2: Walk<'a, P, N>,
)
    requires
        took_next(t0, t1, w1),
        w1.spec_exit() || w1.spec_record().spec_children_num() == 0,
        applied(t1, t2, w1),
        t1.waiting().len() > 0,
        took_next(t2, t3, w2),
    ensures
        w2.spec_record() == t1.waiting().last().w_record(),
        w2.spec_depth() == t1.waiting().last().w_depth(),
        w2.spec_exit() == t1.waiting().last().w_exit(),
{
    reveal(pushed_after);
    assert(t2.waiting().len() == t1.waiting().len());
    assert(t2.waiting().last() == t1.waiting()[t1.waiting().len() - 1]);
}

/// The state of a walk over the records below a root, depth first, each
/// record entered before its children: the records waiting (the last one
/// next), the ancestors of the record being visited, how many records were
/// entered at each depth under the current parents, and how many in all.
pub struct Traversal<'a, P, N> {
    pub(crate) walk_ancestors: Vec<WalkAncestor<'a, P, N>>,
    pub(crate) breadths: Vec<usize>,
    pub(crate) stk: Vec<Work<'a, P, N>>,
    pub(crate) order: usize,
    pub(crate) cur: Option<Work<'a, P, N>>,
}

impl<'a, P, N> Traversal<'a, P, N> {
    pub open(crate) spec fn waiting(&self) -> Seq<Work<'a, P, N>> {
        self.stk@
    }

    pub open(crate) spec fn entered(&self) -> usize {
        self.order
    }

    pub open(crate) spec fn ancestors_view(&self) -> Seq<WalkAncestor<'a, P, N>> {
        self.walk_ancestors@
    }

    pub open(crate) spec fn visiting(&self) -> Option<Work<'a, P, N>> {
        self.cur
    }

    /// How many records were entered at each depth under the current parents.
    pub open(crate) spec fn counts(&self) -> Seq<usize> {
        self.breadths@
    }

    /// Pushes the children of `record` at `depth`, the first child last so
    /// that it comes next, each with the given visited records and no note.
    fn push_children(&mut self, record: RecordContainer<'a, P>, depth: usize, visiteds: &Vec<(Option<&'a PathBuf>, usize)>)
        ensures
            final(self).order == old(self).order,
            final(self).walk_ancestors == old(self).walk_ancestors,
            final(self).breadths == old(self).breadths,
            final(self).cur == old(self).cur,
            final(self).stk@.len() == old(self).stk@.len() + record.spec_children_num(),
            record.spec_children_num() >= 0,
            forall|i: int| 0 <= i < old(self).stk@.len() ==> #[trigger] final(self).stk@[i] == old(self).stk@[i],
            forall|i: int|
                old(self).stk@.len() <= i < final(self).stk@.len() ==> (#[trigger] final(self).stk@[i]).record
                    == record.with_ind(record.rec().children.end - 1 - (i - old(self).stk@.len()))
                    && final(self).stk@[i].depth == depth && !final(self).stk@[i].exit
                    && final(self).stk@[i].note is None && final(self).stk@[i].visiteds@ == visiteds@,
    {
        let mut it = record.children();
        let ghost n0 = self.stk@.len();
        proof {
            use_type_invariant(&record);
        }
        match record.conf {
            Some(c) => {
                proof {
                    use_type_invariant(c);
                    record.lemma_rec(c);
                }
            },
            None => {},
        }
        loop
            invariant
                it.conf_view() == record.conf_view(),
                record.conf_view() is Some && !record.rec().children_text ==> it.start() == record.rec().children.start,
                record.conf_view() is Some && !record.rec().children_text ==> it.end() <= record.rec().children.end,
                (record.conf_view() is None || record.rec().children_text) ==> it.start() == 0 && it.end() == 0,
                self.order == old(self).order,
                self.walk_ancestors == old(self).walk_ancestors,
                self.breadths == old(self).breadths,
                self.cur == old(self).cur,
                n0 == old(self).stk@.len(),
                self.stk@.len() == n0 + (record.spec_children_num() - (it.end() - it.start())),
                it.start() <= it.end(),
                forall|i: int| 0 <= i < n0 ==> #[trigger] self.stk@[i] == old(self).stk@[i],
                forall|i: int|
                    n0 <= i < self.stk@.len() ==> (#[trigger] self.stk@[i]).record
                        == record.with_ind(record.rec().children.end - 1 - (i - n0))
                        && self.stk@[i].depth == depth && !self.stk@[i].exit
                        && self.stk@[i].note is None && self.stk@[i].visiteds@ == visiteds@,
            ensures
                self.order == old(self).order,
                self.walk_ancestors == old(self).walk_ancestors,
                self.breadths == old(self).breadths,
                self.cur == old(self).cur,
                self.stk@.len() == n0 + record.spec_children_num(),
                forall|i: int| 0 <= i < n0 ==> #[trigger] self.stk@[i] == old(self).stk@[i],
                forall|i: int|
                    n0 <= i < self.stk@.len() ==> (#[trigger] self.stk@[i]).record
                        == record.with_ind(record.rec().children.end - 1 - (i - n0))
                        && self.stk@[i].depth == depth && !self.stk@[i].exit
                        && self.stk@[i].note is None && self.stk@[i].visiteds@ == visiteds@,
            decreases it.end() - it.start(),
        {
            let ghost e0 = it.end();
            match it.next_back() {
                Some(child) => {
                    let keys = copy_keys(visiteds);
                    self.stk.push(Work { record: child, depth, exit: false, exit_order: 0, visiteds: keys, note: None });
                    proof {
                        assert(child == record.with_ind(e0 - 1));
                    }
                },
                None => {
                    break;
                },
            }
        }
    }

    /// A walk over the records below `root`, which is taken as visited.
    pub fn new(root: RecordContainer<'a, P>) -> (t: Self)
        ensures
            t.entered() == 0,
            t.ancestors_view().len() == 0,
            t.visiting() is None,
            t.waiting().len() == root.spec_children_num(),
            forall|i: int|
                0 <= i < t.waiting().len() ==> (#[trigger] t.waiting()[i]).w_record() == root.with_ind(
                    root.rec().children.end - 1 - i,
                ) && t.waiting()[i].w_depth() == 0 && !t.waiting()[i].w_exit()
                    && t.waiting()[i].keys() == seq![rec_key(root)],
    {
        let mut visiteds: Vec<(Option<&'a PathBuf>, usize)> = Vec::new();
        visiteds.push((root.path_buf(), root.record_index()));
        let mut breadths: Vec<usize> = Vec::new();
        breadths.push(0);
        let mut t = Traversal { walk_ancestors: Vec::new(), breadths, stk: Vec::new(), order: 0, cur: None };
        t.push_children(root, 0, &visiteds);
        t
    }

    /// Takes the next record waiting and makes the visit to it: its depth,
    /// the order (the count of records entered before it, or when it was
    /// entered, on leaving), its breadth among the records entered under the
    /// same parent, and its ancestors. `None` once no record is waiting.
    pub fn next_walk(&mut self) -> (r: Option<Walk<'a, P, N>>)
        where
            N: Clone,
        ensures
            old(self).waiting().len() == 0 ==> r is None,
            old(self).waiting().len() > 0 ==> (r matches Some(w) && took_next(*old(self), *final(self), w)),
            old(self).waiting().len() > 0 ==> (r matches Some(w) && note_cloned(old(self).waiting().last().w_note(), w.spec_note())
                && forall|i: int|
                0 <= i < w.spec_ancestors().len() ==> #[trigger] note_cloned(
                    final(self).ancestors_view()[i].spec_note(),
                    w.spec_ancestors()[i].spec_note(),
                )),
    {
        let ghost stk0 = self.stk@;
        let work = match self.stk.pop() {
            Some(w) => w,
            None => {
                return None;
            },
        };
        proof {
            assert(work == stk0.last());
        }
        let ghost wa0 = self.walk_ancestors@;
        let ghost c0 = self.breadths@;
        self.walk_ancestors.truncate(work.depth);
        proof {
            assert(self.walk_ancestors@ =~= wa0.take(kept_len(wa0.len() as int, work.depth as int)));
        }
        let d = work.depth;
        let want = if d < usize::MAX {
            d + 1
        } else {
            d
        };
        resize_counts(&mut self.breadths, want);
        let last = self.breadths.len() - 1;
        if !work.exit && self.breadths[last] < usize::MAX {
            let b = self.breadths[last] + 1;
            self.breadths.set(last, b);
        }
        let b = self.breadths[last];
        proof {
            assert(self.breadths@ =~= counted(c0, work.depth, work.exit));
        }
        let cur_breadth = if b == 0 {
            0
        } else {
            b - 1
        };
        let cur_order = if work.exit {
            work.exit_order
        } else {
            self.order
        };
        let mut ancestors: Vec<WalkAncestor<'a, P, N>> = Vec::new();
        let mut i: usize = 0;
        while i < self.walk_ancestors.len()
            invariant
                i <= self.walk_ancestors@.len(),
                ancestors@.len() == i,
                forall|k: int| 0 <= k < i ==> #[trigger] same_place(ancestors@[k], self.walk_ancestors@[k]),
                forall|k: int| 0 <= k < i ==> #[trigger] note_cloned(self.walk_ancestors@[k].spec_note(), ancestors@[k].spec_note()),
            decreases self.walk_ancestors@.len() - i,
        {
            ancestors.push(self.walk_ancestors[i].clone());
            i = i + 1;
        }
        let note = match &work.note {
            Some(n) => Some(n.clone()),
            None => None,
        };
        let w = Walk {
            record: work.record,
            depth: work.depth,
            order: cur_order,
            breadth: cur_breadth,
            exit: work.exit,
            ancestors,
            skip_children: false,
            sibling_inserts: Vec::new(),
            child_inserts: Vec::new(),
            have_exit: false,
            cur_note: note,
        };
        self.cur = Some(work);
        Some(w)
    }
    /// Carries out what the caller asked for on the visit `w` to the record
    /// taken last: the record becomes an ancestor of what comes below it; the
    /// records asked for after it wait next (in order), then its visit on
    /// leaving if asked for on entering, then the records asked for below it,
    /// then its children on entering unless skipped. A record asked for that
    /// was taken in on the way already is an error. Entering counts one record.
    #[verifier::spinoff_prover]
    #[verifier::rlimit(40)]
    pub fn apply<E>(&mut self, w: Walk<'a, P, N>) -> (r: Result<(), WalkError<E>>)
        where
            N: Clone,
        requires
            old(self).visiting() is Some,
        ensures
            final(self).visiting() is None,
            r is Ok ==> applied(*old(self), *final(self), w),
            r is Ok ==> notes_pushed(*old(self), *final(self), w),
            r is Err ==> asks_taken(w, old(self).visiting()->0.keys(), false),
            asks_visited(w, old(self).visiting()->0.path_keys()) ==> r is Err,
            r matches Err(e) ==> e.error_type is RecursiveInclude && e.loc == start_loc_of(old(self).visiting()->0.w_record())
                && e.path == source_path(old(self).visiting()->0.w_record()),
    {
        let work = match self.cur.take() {
            Some(wk) => wk,
            None => {
                return Ok(());
            },
        };
        let ghost n0 = self.stk@.len();
        let ghost stk0 = self.stk@;
        let ghost c0 = self.breadths@;
        let ghost keys0 = work.keys();
        let ghost pkeys0 = work.path_keys();
        proof {
            assert(work == old(self).visiting()->0);
        }
        let ghost o0 = self.order;
        let note = match &w.cur_note {
            Some(n) => Some(n.clone()),
            None => None,
        };
        self.walk_ancestors.push(
            WalkAncestor { record: work.record, note, depth: work.depth, order: w.order, breadth: w.breadth },
        );
        let ghost wa1 = self.walk_ancestors@;
        let ghost ns = w.spec_sibling_inserts().len();
        let mut i = w.sibling_inserts.len();
        while i > 0
            invariant
                self.cur is None,
                self.walk_ancestors@ == wa1,
                self.breadths@ == c0,
                i <= w.spec_sibling_inserts().len(),
                ns == w.spec_sibling_inserts().len(),
                self.stk@.len() == n0 + (w.spec_sibling_inserts().len() - i),
                forall|k: int| 0 <= k < n0 ==> #[trigger] self.stk@[k] == stk0[k],
                forall|k: int|
                    0 <= k < ns - i ==> #[trigger] enters(self.stk@[n0 + k], w.spec_sibling_inserts()[ns - 1 - k].0, work.depth)
                        && self.stk@[n0 + k].keys() == keys0.push(rec_key(w.spec_sibling_inserts()[ns - 1 - k].0)),
                forall|k: int|
                    0 <= k < ns - i ==> note_cloned(w.spec_sibling_inserts()[ns - 1 - k].1, (#[trigger] self.stk@[n0 + k]).note),
                forall|k: int|
                    i <= k < ns ==> !pkeys0.contains(path_key(#[trigger] w.spec_sibling_inserts()[k].0)),
                keys0 == work.keys(),
                pkeys0 == work.path_keys(),
                work == old(self).visiting()->0,
                self.order == o0,
            decreases i,
        {
            i = i - 1;
            let rec = w.sibling_inserts[i].0;
            let p = rec.path_buf();
            let ind = rec.record_index();
            let ghost rk = rec_key(rec);
            proof {
                assert(rec == w.spec_sibling_inserts()[i as int].0);
            }
            if visited(&work.visiteds, p, ind) {
                proof {
                    let j = choose|j: int| 0 <= j < work.visiteds@.len() && (#[trigger] work.visiteds@[j]).1 == ind && (work.visiteds@[j].0 is None) == (p is None);
                    assert(keys0[j] == rk);
                    assert(keys0.contains(rk));
                }
                return Err(
                    WalkError {
                        path: opt_pathbuf_clone(work.record.path_buf()),
                        loc: record_loc(work.record),
                        error_type: WalkErrorType::RecursiveInclude,
                    },
                );
            }
            proof {
                if pkeys0.contains(path_key(rec)) {
                    let j = choose|j: int| 0 <= j < pkeys0.len() && pkeys0[j] == path_key(rec);
                    assert(work.visiteds@[j].1 == ind && opt_deref(work.visiteds@[j].0) == opt_deref(p));
                }
            }
            let mut vs = copy_keys(&work.visiteds);
            vs.push((p, ind));
            proof {
                assert(vs@.map_values(|k: (Option<&'a PathBuf>, usize)| (k.0 is Some, k.1 as int)) =~= keys0.push(rk));
            }
            let n = match &w.sibling_inserts[i].1 {
                Some(n) => Some(n.clone()),
                None => None,
            };
            self.stk.push(Work { record: rec, depth: work.depth, exit: false, exit_order: 0, visiteds: vs, note: n });
        }
        assert(self.stk@.len() == n0 + w.spec_sibling_inserts().len());
        let ghost stks = self.stk@;
        if !work.exit && w.have_exit {
            let n = match &w.cur_note {
                Some(n) => Some(n.clone()),
                None => None,
            };
            self.stk.push(
                Work {
                    record: work.record,
                    depth: work.depth,
                    exit: true,
                    exit_order: self.order,
                    visiteds: copy_keys(&work.visiteds),
                    note: n,
                },
            );
        }
        let child_depth = if work.depth < usize::MAX {
            work.depth + 1
        } else {
            work.depth
        };
        let ghost n2 = self.stk@.len();
        let ghost stk1 = self.stk@;
        let ghost nc = w.spec_child_inserts().len();
        assert(child_depth == below(work.depth));
        let mut j = w.child_inserts.len();
        while j > 0
            invariant
                self.cur is None,
                self.walk_ancestors@ == wa1,
                self.breadths@ == c0,
                j <= w.spec_child_inserts().len(),
                nc == w.spec_child_inserts().len(),
                self.stk@.len() == n2 + (w.spec_child_inserts().len() - j),
                n2 == stk1.len(),
                forall|k: int| 0 <= k < n2 ==> #[trigger] self.stk@[k] == stk1[k],
                forall|k: int|
                    0 <= k < nc - j ==> #[trigger] enters(self.stk@[n2 + k], w.spec_child_inserts()[nc - 1 - k].0, child_depth)
                        && self.stk@[n2 + k].keys() == keys0,
                forall|k: int|
                    0 <= k < nc - j ==> #[trigger] note_cloned(w.spec_child_inserts()[nc - 1 - k].1, self.stk@[n2 + k].note),
                forall|k: int|
                    j <= k < nc ==> !pkeys0.contains(path_key(#[trigger] w.spec_child_inserts()[k].0)),
                forall|k: int|
                    0 <= k < ns ==> !pkeys0.contains(path_key(#[trigger] w.spec_sibling_inserts()[k].0)),
                keys0 == work.keys(),
                pkeys0 == work.path_keys(),
                work == old(self).visiting()->0,
                self.order == o0,
            decreases j,
        {
            j = j - 1;
            let rec = w.child_inserts[j].0;
            let p = rec.path_buf();
            let ind = rec.record_index();
            let ghost rk = rec_key(rec);
            proof {
                assert(rec == w.spec_child_inserts()[j as int].0);
            }
            if visited(&work.visiteds, p, ind) {
                proof {
                    let jj = choose|jj: int| 0 <= jj < work.visiteds@.len() && (#[trigger] work.visiteds@[jj]).1 == ind && (work.visiteds@[jj].0 is None) == (p is None);
                    assert(keys0[jj] == rk);
                    assert(keys0.contains(rk));
                }
                return Err(
                    WalkError {
                        path: opt_pathbuf_clone(work.record.path_buf()),
                        loc: record_loc(work.record),
                        error_type: WalkErrorType::RecursiveInclude,
                    },
                );
            }
            proof {
                if pkeys0.contains(path_key(rec)) {
                    let jj = choose|jj: int| 0 <= jj < pkeys0.len() && pkeys0[jj] == path_key(rec);
                    assert(work.visiteds@[jj].1 == ind && opt_deref(work.visiteds@[jj].0) == opt_deref(p));
                }
            }
            let n = match &w.child_inserts[j].1 {
                Some(n) => Some(n.clone()),
                None => None,
            };
            self.stk.push(
                Work { record: rec, depth: child_depth, exit: false, exit_order: 0, visiteds: copy_keys(&work.visiteds), note: n },
            );
        }
        let ghost stk2 = self.stk@;
        if !work.exit {
            if !w.skip_children {
                self.push_children(work.record, child_depth, &work.visiteds);
                proof {
                    assert forall|i: int| stk2.len() <= i < self.stk@.len() implies #[trigger] self.stk@[i].keys() == keys0 by {
                        assert(self.stk@[i].visiteds@ == work.visiteds@);
                    }
                }
            }
            if self.order < usize::MAX {
                self.order = self.order + 1;
            }
        }
        proof {
            reveal(pushed_after);
            assert forall|k: int| 0 <= k < stk2.len() implies #[trigger] self.stk@[k] == stk2[k] by {}
            let new = self.stk@;
            let ex = !work.exit && w.spec_have_exit();
            let n1 = n0 + ns + if ex { 1int } else { 0int };
            assert(n1 == n2);
            assert forall|k: int| 0 <= k < ns implies #[trigger] enters(new[n0 + k], w.spec_sibling_inserts()[ns - 1 - k].0, work.w_depth())
                && new[n0 + k].keys() == work.keys().push(rec_key(w.spec_sibling_inserts()[ns - 1 - k].0)) by {
                assert(self.stk@[n0 + k] == stk2[n0 + k]);
                assert(stk2[n0 + k] == stk1[n0 + k]);
                assert(stk1[n0 + k] == stks[n0 + k]);
                assert(enters(stks[n0 + k], w.spec_sibling_inserts()[ns - 1 - k].0, work.depth));
            }
            assert forall|k: int| 0 <= k < nc implies #[trigger] enters(new[n1 + k], w.spec_child_inserts()[nc - 1 - k].0, below(work.w_depth()))
                && new[n1 + k].keys() == work.keys() by {
                assert(self.stk@[n2 + k] == stk2[n2 + k]);
                assert(enters(stk2[n2 + k], w.spec_child_inserts()[nc - 1 - k].0, child_depth));
            }
            if ex {
                assert(self.stk@[(n0 + ns) as int] == stk2[(n0 + ns) as int]);
                assert(stk2[(n0 + ns) as int] == stk1[(n0 + ns) as int]);
            }
            let kids = !work.w_exit() && !w.spec_skip();
            let rec = work.w_record();
            let n3 = n1 + nc;
            assert(n3 == stk2.len());
            assert(new.len() == n3 + if kids { rec.spec_children_num() } else { 0int });
            if kids {
                assert forall|i: int| n3 <= i < n3 + rec.spec_children_num() implies enters(
                    #[trigger] new[i],
                    rec.with_ind(rec.rec().children.end - 1 - (i - n3)),
                    below(work.w_depth()),
                ) && new[i].keys() == work.keys() by {}
            }
            if ex {
                assert(new[(n0 + ns) as int].w_record() == rec && new[(n0 + ns) as int].w_depth() == work.w_depth() && new[(n0
                    + ns) as int].w_exit() && new[(n0 + ns) as int].w_exit_order() == o0 && new[(n0 + ns) as int].keys() == work.keys());
            }
            assert(pushed_after(stk0, self.stk@, work, w, o0));
            assert forall|k: int| 0 <= k < ns implies note_cloned(w.spec_sibling_inserts()[ns - 1 - k].1, (#[trigger] new[n0 + k]).w_note()) by {
                assert(self.stk@[n0 + k] == stk2[n0 + k]);
                assert(stk2[n0 + k] == stk1[n0 + k]);
                assert(stk1[n0 + k] == stks[n0 + k]);
            }
            assert forall|k: int| 0 <= k < nc implies #[trigger] note_cloned(w.spec_child_inserts()[nc - 1 - k].1, new[n1 + k].w_note()) by {
                assert(self.stk@[n2 + k] == stk2[n2 + k]);
            }
            assert forall|i: int| n3 <= i < new.len() implies (#[trigger] new[i]).w_note() is None by {}
            assert(self.walk_ancestors@ == wa1);
            assert(notes_pushed(*old(self), *self, w));
        }
        Ok(())
    }
}

} // verus!
