use vstd::prelude::*;

use super::loc::Loc;

verus! {

#[derive(Debug, Clone)]
pub struct Error {
    pub loc: Loc,
    pub msg_loc: Loc,
    pub msg: String,
}

#[derive(Debug, Clone, Copy)]
struct Hist {
    owned_ind: usize,
    start_ind: usize,
}

/// Errors collected while a lexer backtracks, with one history entry per
/// level of the lexer's stack.
pub struct ErrorManager {
    errors: Vec<Error>,
    hists: Vec<Hist>,
}

/// The errors of `s` that do not come before `l`, in order.
pub open spec fn keep_not_before(s: Seq<Error>, l: Loc) -> Seq<Error>
    decreases s.len(),
{
    if s.len() == 0 {
        s
    } else if s.last().loc.spec_lt(l) {
        keep_not_before(s.drop_last(), l)
    } else {
        keep_not_before(s.drop_last(), l).push(s.last())
    }
}

pub proof fn lemma_keep_not_before_len(s: Seq<Error>, l: Loc)
    ensures
        keep_not_before(s, l).len() <= s.len(),
    decreases s.len(),
{
    if s.len() > 0 {
        lemma_keep_not_before_len(s.drop_last(), l);
    }
}

impl ErrorManager {
    pub closed spec fn errors(&self) -> Seq<Error> {
        self.errors@
    }

    /// The history entries, each as (owned index, start index).
    pub closed spec fn hists(&self) -> Seq<(usize, usize)> {
        self.hists@.map_values(|h: Hist| (h.owned_ind, h.start_ind))
    }

    pub open spec fn top(&self) -> (usize, usize) {
        self.hists().last()
    }

    pub fn new() -> (r: Self)
        ensures
            r.errors() == Seq::<Error>::empty(),
            r.hists() == seq![(0usize, 0usize)],
    {
        let r = Self { errors: Vec::new(), hists: vec![Hist { owned_ind: 0, start_ind: 0 }] };
        proof {
            assert(r.hists() =~= seq![(0usize, 0usize)]);
        }
        r
    }

    /// Drops the errors owned by the current level that come before `cur_loc`,
    /// then starts the current level's view of errors at the end of the list.
    pub fn on_next(&mut self, cur_loc: Loc)
        requires
            old(self).hists().len() >= 1,
        ensures
            ({
                let own = old(self).top().0 as int;
                let e = old(self).errors();
                final(self).errors() == if own <= e.len() {
                    e.take(own) + keep_not_before(e.skip(own), cur_loc)
                } else {
                    e
                }
            }),
            final(self).hists() == old(self).hists().update(
                old(self).hists().len() - 1,
                (old(self).top().0, final(self).errors().len() as usize),
            ),
    {
        let last = self.hists.len() - 1;
        let own = self.hists[last].owned_ind;
        let mut i = own;
        let ghost e = self.errors@;
        let ghost mut j: int = 0;
        if own <= self.errors.len() {
            proof {
                assert(e.skip(own as int).take(0) =~= Seq::<Error>::empty());
                assert(self.errors@ =~= e.take(own as int) + keep_not_before(
                    e.skip(own as int).take(0),
                    cur_loc,
                ) + e.skip(own as int).skip(0));
            }
            while i < self.errors.len()
                invariant
                    own <= i <= self.errors@.len(),
                    own <= e.len(),
                    0 <= j <= e.len() - own,
                    i == own + keep_not_before(e.skip(own as int).take(j), cur_loc).len(),
                    self.errors@ == e.take(own as int) + keep_not_before(
                        e.skip(own as int).take(j),
                        cur_loc,
                    ) + e.skip(own as int).skip(j),
                    self.hists@ == old(self).hists@,
                    last == self.hists@.len() - 1,
                decreases self.errors@.len() - i,
            {
                let ghost t = e.skip(own as int);
                proof {
                    assert(t.take(j + 1).drop_last() =~= t.take(j));
                    assert(t.take(j + 1).last() == t[j]);
                    assert(self.errors@[i as int] == t[j]);
                }
                if self.errors[i].loc.lt(&cur_loc) {
                    self.errors.remove(i);
                    proof {
                        j = j + 1;
                        assert(self.errors@ =~= e.take(own as int) + keep_not_before(
                            t.take(j),
                            cur_loc,
                        ) + t.skip(j));
                    }
                } else {
                    i += 1;
                    proof {
                        j = j + 1;
                        assert(self.errors@ =~= e.take(own as int) + keep_not_before(
                            t.take(j),
                            cur_loc,
                        ) + t.skip(j));
                    }
                }
            }
            proof {
                let t = e.skip(own as int);
                lemma_keep_not_before_len(t.take(j), cur_loc);
                if j < t.len() {
                    assert(self.errors@.len() > i);
                }
                assert(t.take(j) =~= t);
                assert(t.skip(j) =~= Seq::<Error>::empty());
                assert(self.errors@ =~= e.take(own as int) + keep_not_before(t, cur_loc));
            }
        }
        let n = self.errors.len();
        self.hists.set(last, Hist { owned_ind: own, start_ind: n });
        proof {
            assert(self.hists() =~= old(self).hists().update(
                old(self).hists().len() - 1,
                (old(self).top().0, self.errors().len() as usize),
            ));
        }
    }

    /// Opens a new level that owns the errors added from now on.
    pub fn push(&mut self)
        requires
            old(self).hists().len() >= 1,
        ensures
            final(self).errors() == old(self).errors(),
            final(self).hists() == old(self).hists().push(
                (old(self).errors().len() as usize, old(self).top().1),
            ),
    {
        let cur_start_ind = self.hists[self.hists.len() - 1].start_ind;
        let n = self.errors.len();
        self.hists.push(Hist { start_ind: cur_start_ind, owned_ind: n });
        proof {
            assert(self.hists() =~= old(self).hists().push(
                (old(self).errors().len() as usize, old(self).top().1),
            ));
        }
    }

    /// Closes the current level; its errors are kept.
    pub fn on_pop_discard(&mut self)
        ensures
            final(self).errors() == old(self).errors(),
            final(self).hists() == if old(self).hists().len() == 0 {
                old(self).hists()
            } else {
                old(self).hists().drop_last()
            },
    {
        self.hists.pop();
        proof {
            if old(self).hists().len() > 0 {
                assert(self.hists() =~= old(self).hists().drop_last());
            } else {
                assert(self.hists() =~= old(self).hists());
            }
        }
    }

    /// Merges the current level into the one below it, dropping the errors
    /// that the lower level owned up to where the current level starts.
    pub fn on_pop_keep(&mut self)
        requires
            old(self).hists().len() >= 2,
            old(self).hists()[old(self).hists().len() - 2].0 <= old(self).top().1,
            old(self).top().1 <= old(self).errors().len(),
        ensures
            ({
                let h = old(self).hists();
                let prev = h[h.len() - 2];
                let cur = h.last();
                &&& final(self).errors() == old(self).errors().take(prev.0 as int) + old(
                    self,
                ).errors().skip(cur.1 as int)
                &&& final(self).hists() == h.take(h.len() - 2).push(
                    (prev.0, if cur.1 <= prev.1 {
                        cur.1
                    } else {
                        prev.1
                    }),
                )
            }),
    {
        let len = self.hists.len();
        let prev_own_ind = self.hists[len - 2].owned_ind;
        let prev_start_ind = self.hists[len - 2].start_ind;
        let cur_start_ind = self.hists[len - 1].start_ind;
        let mut k = prev_own_ind;
        let ghost e = self.errors@;
        while k < cur_start_ind
            invariant
                prev_own_ind <= k <= cur_start_ind,
                cur_start_ind <= e.len(),
                self.errors@ == e.take(prev_own_ind as int) + e.skip(k as int),
                self.hists@ == old(self).hists@,
            decreases cur_start_ind - k,
        {
            proof {
                assert(self.errors@[prev_own_ind as int] == e[k as int]);
            }
            self.errors.remove(prev_own_ind);
            k = k + 1;
            proof {
                assert(self.errors@ =~= e.take(prev_own_ind as int) + e.skip(k as int));
            }
        }
        let new_start = if cur_start_ind <= prev_start_ind {
            cur_start_ind
        } else {
            prev_start_ind
        };
        self.hists.set(len - 1, Hist { start_ind: new_start, owned_ind: prev_own_ind });
        self.hists.remove(len - 2);
        proof {
            let h = old(self).hists();
            assert(self.hists() =~= h.take(h.len() - 2).push((prev_own_ind, new_start)));
        }
    }

    pub fn add_error(&mut self, loc: Loc, msg_loc: Loc, msg: &str)
        ensures
            final(self).hists() == old(self).hists(),
            final(self).errors().len() == old(self).errors().len() + 1,
            final(self).errors().drop_last() == old(self).errors(),
            final(self).errors().last().loc == loc,
            final(self).errors().last().msg_loc == msg_loc,
            final(self).errors().last().msg@ == msg@,
    {
        self.errors.push(Error { loc, msg_loc, msg: msg.to_owned() });
        proof {
            assert(self.errors().drop_last() =~= old(self).errors());
        }
    }

    /// The errors visible from the current level.
    pub fn get_errors(&self) -> (r: &[Error])
        requires
            self.hists().len() >= 1,
            self.top().1 <= self.errors().len(),
        ensures
            r@ == self.errors().subrange(self.top().1 as int, self.errors().len() as int),
    {
        let start = self.hists[self.hists.len() - 1].start_ind;
        let end = self.errors.len();
        let s = self.errors.as_slice();
        &s[start..end]
    }
}

} // verus!
