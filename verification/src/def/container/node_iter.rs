use vstd::prelude::*;

use crate::def::{Def, find_branch, find_tag, lemma_find_branch_from, lemma_find_tag_from, opt_str_view, tag_nodes};
use crate::def::branch::Branch;
use crate::text::str_eq;
use super::node::NodeContainer;

verus! {

/// A branch name as seen while visiting branches: `None` stands for the root branch.
pub type NameView = Option<Seq<char>>;

/// The view of an optional branch name.
pub open spec fn name_view(o: Option<&str>) -> NameView {
    match o {
        Some(s) => Some(s@),
        None => None,
    }
}

pub open spec fn names_view(v: Seq<Option<&str>>) -> Seq<NameView> {
    v.map_values(|o: Option<&str>| name_view(o))
}

/// The branch a name stands for: the root for `None`, else the branch of that name.
pub open spec fn name_branch(bs: Seq<Branch>, x: NameView) -> Option<int> {
    match x {
        None => if bs.len() > 0 {
            Some(0)
        } else {
            None
        },
        Some(n) => find_branch(bs, n),
    }
}

/// The nodes of a branch with the tag `tag`, or its untagged nodes.
pub open spec fn branch_list(b: Branch, tag: NameView) -> Seq<usize> {
    match tag {
        Some(t) => tag_nodes(b, t),
        None => b.non_tags@,
    }
}

/// The names of the branches a branch takes in.
pub open spec fn inserts_of(b: Branch) -> Seq<NameView> {
    b.branch_inserts@.map_values(|s: String| Some(s@))
}

/// The names that stand for branches: `None` and each branch's own.
pub open spec fn live_names(bs: Seq<Branch>) -> Seq<NameView> {
    seq![None].add(bs.map_values(|b: Branch| opt_str_view(b.branch_name)))
}

/// How many entries of `l` are not yet visited.
pub open spec fn count_unvisited(l: Seq<NameView>, visited: Seq<NameView>) -> nat
    decreases l.len(),
{
    if l.len() == 0 {
        0
    } else {
        count_unvisited(l.drop_last(), visited) + if visited.contains(l.last()) {
            0nat
        } else {
            1nat
        }
    }
}

pub proof fn lemma_count_unvisited(l: Seq<NameView>, visited: Seq<NameView>, x: NameView)
    ensures
        count_unvisited(l, visited.push(x)) <= count_unvisited(l, visited),
        (l.contains(x) && !visited.contains(x)) ==> count_unvisited(l, visited.push(x))
            < count_unvisited(l, visited),
    decreases l.len(),
{
    if l.len() > 0 {
        lemma_count_unvisited(l.drop_last(), visited, x);
        assert(visited.push(x).contains(l.last()) <== visited.contains(l.last())) by {
            if visited.contains(l.last()) {
                let k = choose|k: int| 0 <= k < visited.len() && visited[k] == l.last();
                assert(visited.push(x)[k] == l.last());
            }
        }
        if l.contains(x) && !visited.contains(x) {
            if l.last() == x {
                assert(visited.push(x)[visited.len() as int] == x);
            } else {
                let k = choose|k: int| 0 <= k < l.len() && l[k] == x;
                assert(l.drop_last()[k] == x);
            }
        }
    }
}

/// A name that stands for a branch is a live name.
pub proof fn lemma_name_branch_live(bs: Seq<Branch>, x: NameView)
    requires
        name_branch(bs, x) is Some,
    ensures
        live_names(bs).contains(x),
{
    let l = live_names(bs);
    match x {
        None => {
            assert(l[0] == x);
        },
        Some(n) => {
            lemma_find_branch_from(bs, n, 0);
            let i = name_branch(bs, x)->0;
            assert(l[i + 1] == x);
        },
    }
}

/// The node indices yielded by visiting the names `to_visit` (the last one
/// first), each branch's inserted branches pushed as it is visited, skipping
/// names already visited.
pub open spec fn trav(bs: Seq<Branch>, tag: NameView, visited: Seq<NameView>, to_visit: Seq<NameView>) -> Seq<usize>
    decreases count_unvisited(live_names(bs), visited), to_visit.len(),
{
    if to_visit.len() == 0 {
        Seq::empty()
    } else {
        let x = to_visit.last();
        let rest = to_visit.drop_last();
        if visited.contains(x) {
            trav(bs, tag, visited, rest)
        } else {
            proof {
                lemma_count_unvisited(live_names(bs), visited, x);
            }
            match name_branch(bs, x) {
                Some(b) => {
                    proof {
                        lemma_name_branch_live(bs, x);
                    }
                    branch_list(bs[b], tag) + trav(bs, tag, visited.push(x), rest + inserts_of(bs[b]))
                },
                None => trav(bs, tag, visited, rest),
            }
        }
    }
}

/// The nodes of a branch and of the branches it takes in, in the order they
/// are tried when a record is matched.
pub struct NodeContainerIter<'a, F> {
    pub(crate) def: &'a Def<F>,
    pub(crate) nodes: Vec<usize>,
    pub(crate) pos: usize,
}

impl<'a, F> NodeContainerIter<'a, F> {
    pub open(crate) spec fn def_view(&self) -> Def<F> {
        *self.def
    }

    /// The node indices still to come.
    pub open(crate) spec fn remaining(&self) -> Seq<usize> {
        self.nodes@.skip(self.pos as int)
    }

    pub open spec fn valid(&self) -> bool {
        &&& self.def_view().wf()
        &&& forall|k: int|
            0 <= k < self.remaining().len() ==> #[trigger] self.remaining()[k]
                < self.def_view().nodes().len()
    }

    pub open(crate) spec fn inv(&self) -> bool {
        self.pos <= self.nodes@.len()
    }

    /// The nodes visited from the branch named `start`, in order.
    pub(crate) fn new(def: &'a Def<F>, start: Option<&'a str>, tag: Option<&str>) -> (r: Self)
        requires
            def.wf(),
        ensures
            r.def_view() == *def,
            r.inv(),
            r.valid(),
            r.remaining() == trav(def.branches(), name_view(tag), Seq::empty(), seq![name_view(start)]),
    {
        let ghost bs = def.branches();
        let ghost tv = name_view(tag);
        let mut visited: Vec<Option<&'a str>> = Vec::new();
        let mut to_visit: Vec<Option<&'a str>> = Vec::new();
        to_visit.push(start);
        let mut out: Vec<usize> = Vec::new();
        proof {
            assert(names_view(to_visit@) =~= seq![name_view(start)]);
            assert(names_view(visited@) =~= Seq::<NameView>::empty());
        }
        while to_visit.len() > 0
            invariant
                def.wf(),
                bs == def.branches(),
                tv == name_view(tag),
                out@ + trav(bs, tv, names_view(visited@), names_view(to_visit@)) == trav(
                    bs,
                    tv,
                    Seq::empty(),
                    seq![name_view(start)],
                ),
                forall|k: int| 0 <= k < out@.len() ==> #[trigger] out@[k] < def.nodes().len(),
            decreases count_unvisited(live_names(bs), names_view(visited@)), to_visit@.len(),
        {
            let ghost vv = names_view(visited@);
            let ghost tvv = names_view(to_visit@);
            let x = to_visit.pop().unwrap();
            proof {
                assert(names_view(to_visit@) =~= tvv.drop_last());
                assert(tvv.last() == name_view(x));
            }
            let mut seen = false;
            let mut k: usize = 0;
            while k < visited.len()
                invariant
                    k <= visited@.len(),
                    vv == names_view(visited@),
                    seen == exists|j: int| 0 <= j < k && vv[j] == name_view(x),
                decreases visited@.len() - k,
            {
                proof {
                    assert(vv[k as int] == name_view(visited@[k as int]));
                }
                let same = match (visited[k], x) {
                    (Some(a), Some(b)) => str_eq(a, b),
                    (None, None) => true,
                    _ => false,
                };
                if same {
                    seen = true;
                    proof {
                        assert(vv[k as int] == name_view(x));
                    }
                }
                k = k + 1;
            }
            proof {
                assert(seen == vv.contains(name_view(x)));
                lemma_count_unvisited(live_names(bs), vv, name_view(x));
            }
            if seen {
                continue;
            }
            let b = match x {
                None => if def.branches.len() > 0 {
                    Some(0usize)
                } else {
                    None
                },
                Some(n) => def.find_branch_ind(n),
            };
            match b {
                Some(b) => {
                    proof {
                        lemma_find_branch_from(bs, name_view(x)->0, 0);
                        lemma_name_branch_live(bs, name_view(x));
                    }
                    visited.push(x);
                    proof {
                        assert(names_view(visited@) =~= vv.push(name_view(x)));
                    }
                    let ghost out0 = out@;
                    let ghost list = branch_list(bs[b as int], tv);
                    self_append_list(def, b, tag, &mut out);
                    let ghost tv0 = names_view(to_visit@);
                    let mut j: usize = 0;
                    while j < def.branches[b].branch_inserts.len()
                        invariant
                            b < bs.len(),
                            bs == def.branches(),
                            j <= bs[b as int].branch_inserts@.len(),
                            names_view(to_visit@) == tv0 + inserts_of(bs[b as int]).take(j as int),
                        decreases bs[b as int].branch_inserts@.len() - j,
                    {
                        let ghost prev = to_visit@;
                        let ins = Some(def.branches[b].branch_inserts[j].as_str());
                        to_visit.push(ins);
                        proof {
                            assert(names_view(prev.push(ins)) =~= names_view(prev).push(name_view(ins)));
                            assert(inserts_of(bs[b as int]).take(j + 1) =~= inserts_of(bs[b as int]).take(j as int).push(name_view(ins)));
                        }
                        j = j + 1;
                    }
                    proof {
                        assert(inserts_of(bs[b as int]).take(j as int) =~= inserts_of(bs[b as int]));
                        assert(out@ == out0 + list);
                        assert(out0 + (list + trav(bs, tv, names_view(visited@), names_view(to_visit@)))
                            =~= out@ + trav(bs, tv, names_view(visited@), names_view(to_visit@)));
                    }
                },
                None => {
                    proof {
                        if x is Some {
                            lemma_find_branch_from(bs, name_view(x)->0, 0);
                        }
                    }
                },
            }
        }
        proof {
            assert(out@ + trav(bs, tv, names_view(visited@), names_view(to_visit@)) =~= out@);
            assert(out@.skip(0) =~= out@);
        }
        NodeContainerIter { def, nodes: out, pos: 0 }
    }

    /// The next node, if any.
    pub fn next(&mut self) -> (r: Option<NodeContainer<'a, F>>)
        requires
            old(self).inv(),
            old(self).valid(),
        ensures
            final(self).inv(),
            final(self).valid(),
            final(self).def_view() == old(self).def_view(),
            old(self).remaining().len() == 0 ==> r is None && final(self).remaining()
                == old(self).remaining(),
            old(self).remaining().len() > 0 ==> (r matches Some(n) && n.def_view()
                == old(self).def_view() && n.ind() == old(self).remaining()[0] && n.valid()
                && final(self).remaining() == old(self).remaining().drop_first()),
    {
        if self.pos < self.nodes.len() {
            let i = self.nodes[self.pos];
            self.pos = self.pos + 1;
            proof {
                assert(old(self).remaining()[0] == i);
                assert(self.remaining() =~= old(self).remaining().drop_first());
                assert forall|k: int| 0 <= k < self.remaining().len() implies #[trigger] self.remaining()[k]
                    < self.def_view().nodes().len() by {
                    assert(self.remaining()[k] == old(self).remaining()[k + 1]);
                }
            }
            Some(NodeContainer { def: self.def, node_ind: i })
        } else {
            None
        }
    }
}

/// Appends the nodes of branch `b` with the tag `tag`, or its untagged nodes.
fn self_append_list<F>(def: &Def<F>, b: usize, tag: Option<&str>, out: &mut Vec<usize>)
    requires
        def.wf(),
        b < def.branches().len(),
        forall|k: int| 0 <= k < old(out)@.len() ==> #[trigger] old(out)@[k] < def.nodes().len(),
    ensures
        final(out)@ == old(out)@ + branch_list(def.branches()[b as int], name_view(tag)),
        forall|k: int| 0 <= k < final(out)@.len() ==> #[trigger] final(out)@[k] < def.nodes().len(),
{
    let ghost o = out@;
    let ghost br = def.branches()[b as int];
    let list: &Vec<usize> = match tag {
        Some(t) => match def.find_tag_ind(b, t) {
            Some(j) => {
                proof {
                    lemma_find_tag_from(br.tags@, t@, 0);
                    assert forall|m: int| 0 <= m < br.tags@[j as int].1@.len() implies #[trigger] br.tags@[j as int].1@[m]
                        < def.nodes().len() by {
                        assert(def.branches()[b as int].tags@[j as int].1@[m] < def.nodes().len());
                    }
                }
                &def.branches[b].tags[j].1
            },
            None => {
                proof {
                    assert(out@ =~= o + branch_list(br, name_view(tag)));
                }
                return;
            },
        },
        None => {
            proof {
                assert forall|m: int| 0 <= m < br.non_tags@.len() implies #[trigger] br.non_tags@[m]
                    < def.nodes().len() by {
                    assert(def.branches()[b as int].non_tags@[m] < def.nodes().len());
                }
            }
            &def.branches[b].non_tags
        },
    };
    let mut k: usize = 0;
    while k < list.len()
        invariant
            def.wf(),
            b < def.branches().len(),
            k <= list@.len(),
            forall|m: int| 0 <= m < list@.len() ==> #[trigger] list@[m] < def.nodes().len(),
            out@ == o + list@.take(k as int),
            forall|m: int| 0 <= m < out@.len() ==> #[trigger] out@[m] < def.nodes().len(),
        decreases list@.len() - k,
    {
        out.push(list[k]);
        k = k + 1;
        proof {
            assert(out@ =~= o + list@.take(k as int));
        }
    }
    proof {
        assert(list@.take(k as int) =~= list@);
    }
}

} // verus!
