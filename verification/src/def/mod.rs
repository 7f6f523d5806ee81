pub mod container;
pub mod node;
pub mod branch;

use vstd::prelude::*;

use crate::text::{str_eq, str_to_string};
use branch::Branch;
use node::{GroupSimilar, Node, NodeChildren, ParamGroup, fresh_node, fresh_group};
use container::branch::BranchContainer;

verus! {

/// The definition of a configuration language: branches of nodes, each node a
/// kind of record with its groups of parameters. `F` parses a parameter's text.
pub struct Def<F> {
    pub(crate) branches: Vec<Branch>,
    pub(crate) nodes: Vec<Node>,
    /// Each parser with the key of the type it gives.
    pub(crate) params: Vec<(u64, F)>,
    pub(crate) cur_branch_ind: usize,
    pub(crate) for_tag_names: Vec<String>,
    pub(crate) cur_nodes_start: usize,
    pub(crate) tags_once: bool,
    pub(crate) is_group_similar: bool,
}

/// Each parameter of each group of a node names one of `np` parsers.
pub open spec fn node_params_valid(n: Node, np: int) -> bool {
    forall|g: int, k: int|
        #![trigger n.param_groups@[g].params@[k]]
        0 <= g < n.param_groups@.len() && 0 <= k < n.param_groups@[g].params@.len() ==> (
        n.param_groups@[g].params@[k] matches Some(p) ==> p < np)
}

/// The views of a list of strings.
pub open spec fn strs_view(v: Seq<String>) -> Seq<Seq<char>> {
    v.map_values(|s: String| s@)
}

/// The view of an optional string.
pub open spec fn opt_str_view(o: Option<String>) -> Option<Seq<char>> {
    match o {
        Some(s) => Some(s@),
        None => None,
    }
}

/// The index of the first branch named `name`, if any.
pub open spec fn find_branch_from(bs: Seq<Branch>, name: Seq<char>, k: int) -> Option<int>
    decreases bs.len() - k,
{
    if k < 0 || k >= bs.len() {
        None
    } else if opt_str_view(bs[k].branch_name) == Some(name) {
        Some(k)
    } else {
        find_branch_from(bs, name, k + 1)
    }
}

pub open spec fn find_branch(bs: Seq<Branch>, name: Seq<char>) -> Option<int> {
    find_branch_from(bs, name, 0)
}

pub proof fn lemma_find_branch_from(bs: Seq<Branch>, name: Seq<char>, k: int)
    requires
        0 <= k,
    ensures
        find_branch_from(bs, name, k) matches Some(i) ==> k <= i < bs.len() && opt_str_view(
            bs[i].branch_name,
        ) == Some(name),
        find_branch_from(bs, name, k) is None ==> forall|i: int|
            k <= i < bs.len() ==> opt_str_view(#[trigger] bs[i].branch_name) != Some(name),
    decreases bs.len() - k,
{
    if k < bs.len() && opt_str_view(bs[k].branch_name) != Some(name) {
        lemma_find_branch_from(bs, name, k + 1);
    }
}

/// The index of the entry for tag `tag` in a branch's tag list, if any.
pub open spec fn find_tag_from(tags: Seq<(String, Vec<usize>)>, tag: Seq<char>, k: int) -> Option<int>
    decreases tags.len() - k,
{
    if k < 0 || k >= tags.len() {
        None
    } else if tags[k].0@ == tag {
        Some(k)
    } else {
        find_tag_from(tags, tag, k + 1)
    }
}

pub open spec fn find_tag(tags: Seq<(String, Vec<usize>)>, tag: Seq<char>) -> Option<int> {
    find_tag_from(tags, tag, 0)
}

pub proof fn lemma_find_tag_from(tags: Seq<(String, Vec<usize>)>, tag: Seq<char>, k: int)
    requires
        0 <= k,
    ensures
        find_tag_from(tags, tag, k) matches Some(i) ==> k <= i < tags.len() && tags[i].0@ == tag,
        find_tag_from(tags, tag, k) is None ==> forall|i: int|
            k <= i < tags.len() ==> (#[trigger] tags[i]).0@ != tag,
    decreases tags.len() - k,
{
    if k < tags.len() && tags[k].0@ != tag {
        lemma_find_tag_from(tags, tag, k + 1);
    }
}

/// The node indices that tag `tag` lists in a branch, or none.
pub open spec fn tag_nodes(b: Branch, tag: Seq<char>) -> Seq<usize> {
    match find_tag(b.tags@, tag) {
        Some(i) => b.tags@[i].1@,
        None => Seq::empty(),
    }
}

/// The kinds of a parameter group's parameters: the type key of each parser,
/// or `None` for a parameter that takes any value.
pub open spec fn param_kinds(keys: Seq<u64>, ps: Seq<Option<usize>>) -> Seq<Option<u64>> {
    ps.map_values(
        |p: Option<usize>|
            match p {
                Some(i) => Some(keys[i as int]),
                None => None,
            },
    )
}

/// Position `y` of block `x` holds what position `y` of the first block holds.
pub open spec fn same_in_block(t: Seq<Option<u64>>, i: int, x: int, y: int) -> bool {
    t[x * i + y] == t[y]
}

/// The kinds repeat in blocks of `i`: each later block equals the first.
pub open spec fn block_repeats(t: Seq<Option<u64>>, i: int) -> bool {
    &&& 1 <= i
    &&& (t.len() as int) % i == 0
    &&& forall|x: int, y: int| 1 <= x < (t.len() as int) / i && 0 <= y < i ==> #[trigger] same_in_block(t, i, x, y)
}

/// The first block length from `i` on, below the whole length, that the kinds
/// repeat in, with the number of blocks; the whole length once otherwise.
pub open spec fn pattern_from(t: Seq<Option<u64>>, i: int) -> (int, int)
    decreases t.len() - i,
{
    if i < 1 || i >= t.len() {
        (t.len() as int, 1)
    } else if block_repeats(t, i) {
        (i, (t.len() as int) / i)
    } else {
        pattern_from(t, i + 1)
    }
}

/// The shortest repeating pattern of the kinds, as (length, repetitions).
pub open spec fn pattern_of(t: Seq<Option<u64>>) -> (int, int) {
    pattern_from(t, 1)
}

impl<F> Def<F> {
    pub open(crate) spec fn branches(&self) -> Seq<Branch> {
        self.branches@
    }

    pub open(crate) spec fn nodes(&self) -> Seq<Node> {
        self.nodes@
    }

    pub open(crate) spec fn params(&self) -> Seq<(u64, F)> {
        self.params@
    }

    /// The type key of each parser.
    pub open(crate) spec fn param_keys(&self) -> Seq<u64> {
        self.params@.map_values(|p: (u64, F)| p.0)
    }

    pub open(crate) spec fn cur_branch_ind(&self) -> int {
        self.cur_branch_ind as int
    }

    pub open(crate) spec fn for_tag_names(&self) -> Seq<Seq<char>> {
        strs_view(self.for_tag_names@)
    }

    pub open(crate) spec fn cur_nodes_start(&self) -> int {
        self.cur_nodes_start as int
    }

    pub open(crate) spec fn once(&self) -> bool {
        self.tags_once
    }

    pub open(crate) spec fn is_group_similar(&self) -> bool {
        self.is_group_similar
    }

    /// The kinds of the parameters of a group.
    pub open spec fn group_kinds(&self, g: ParamGroup) -> Seq<Option<u64>> {
        param_kinds(self.param_keys(), g.params@)
    }

    /// The indices of the definition agree: every node belongs to a branch,
    /// every parameter names a parser, every listed node exists, and branch
    /// names and the tag names of a branch are each unique.
    pub open spec fn wf(&self) -> bool {
        &&& self.branches().len() == 0 ==> self.cur_branch_ind() == 0 && self.nodes().len() == 0
        &&& self.branches().len() > 0 ==> self.cur_branch_ind() < self.branches().len()
        &&& self.cur_nodes_start() <= self.nodes().len()
        &&& forall|i: int|
            0 <= i < self.nodes().len() ==> (#[trigger] self.nodes()[i]).branch_ind
                < self.branches().len()
        &&& forall|i: int|
            0 <= i < self.nodes().len() ==> node_params_valid(
                #[trigger] self.nodes()[i],
                self.params().len() as int,
            )
        &&& forall|b: int, k: int|
            #![trigger self.branches()[b].non_tags@[k]]
            0 <= b < self.branches().len() && 0 <= k < self.branches()[b].non_tags@.len()
                ==> self.branches()[b].non_tags@[k] < self.nodes().len()
        &&& forall|b: int, t: int, k: int|
            #![trigger self.branches()[b].tags@[t].1@[k]]
            0 <= b < self.branches().len() && 0 <= t < self.branches()[b].tags@.len() && 0 <= k
                < self.branches()[b].tags@[t].1@.len() ==> self.branches()[b].tags@[t].1@[k]
                < self.nodes().len()
        &&& forall|i: int, j: int|
            0 <= i < self.branches().len() && 0 <= j < self.branches().len() && (
            #[trigger] self.branches()[i].branch_name) is Some && opt_str_view(
                self.branches()[i].branch_name,
            ) == opt_str_view(#[trigger] self.branches()[j].branch_name) ==> i == j
        &&& forall|b: int, t: int, u: int|
            0 <= b < self.branches().len() && 0 <= t < self.branches()[b].tags@.len() && 0 <= u
                < self.branches()[b].tags@.len() && (#[trigger] self.branches()[b].tags@[t]).0@ == (
            #[trigger] self.branches()[b].tags@[u]).0@ ==> t == u
    }

    /// A definition with no branches.
    pub fn new() -> (d: Self)
        ensures
            d.wf(),
            d.branches().len() == 0,
            d.nodes().len() == 0,
            d.params().len() == 0,
            d.cur_branch_ind() == 0,
            d.for_tag_names().len() == 0,
            d.cur_nodes_start() == 0,
            !d.once(),
            !d.is_group_similar(),
    {
        Def {
            branches: Vec::new(),
            nodes: Vec::new(),
            params: Vec::new(),
            cur_branch_ind: 0,
            for_tag_names: Vec::new(),
            cur_nodes_start: 0,
            tags_once: false,
            is_group_similar: false,
        }
    }

    /// The first branch; records at the top of a file belong to it.
    pub fn get_root_branch(&self) -> (r: BranchContainer<'_, F>)
        ensures
            r.def_view() == *self,
            r.ind() == 0,
    {
        BranchContainer { def: self, branch_ind: 0 }
    }

    /// The index of the branch named `name`, if any.
    pub(crate) fn find_branch_ind(&self, name: &str) -> (r: Option<usize>)
        requires
            self.wf(),
        ensures
            r matches Some(i) ==> find_branch(self.branches(), name@) == Some(i as int),
            r is None ==> find_branch(self.branches(), name@) is None,
    {
        let mut k: usize = 0;
        while k < self.branches.len()
            invariant
                k <= self.branches().len(),
                find_branch(self.branches(), name@) == find_branch_from(self.branches(), name@, k as int),
            decreases self.branches().len() - k,
        {
            let found = match &self.branches[k].branch_name {
                Some(n) => str_eq(n.as_str(), name),
                None => false,
            };
            if found {
                return Some(k);
            }
            k = k + 1;
        }
        None
    }

    /// The branch named `name`; a branch index past the last one if there is none.
    pub fn get_branch(&self, branch_name: &str) -> (r: BranchContainer<'_, F>)
        requires
            self.wf(),
        ensures
            r.def_view() == *self,
            r.ind() == match find_branch(self.branches(), branch_name@) {
                Some(i) => i,
                None => self.branches().len() as int,
            },
    {
        let ind = match self.find_branch_ind(branch_name) {
            Some(i) => i,
            None => self.branches.len(),
        };
        BranchContainer { def: self, branch_ind: ind }
    }

    /// Makes the branch named `branch_name` current, adding it if it is new;
    /// the tags chosen so far are dropped.
    pub fn branch(self, branch_name: &str) -> (d: Self)
        requires
            self.wf(),
        ensures
            d.wf(),
            d.nodes() == self.nodes(),
            d.params() == self.params(),
            d.cur_nodes_start() == self.nodes().len(),
            d.for_tag_names().len() == 0,
            !d.once(),
            d.is_group_similar() == self.is_group_similar(),
            match find_branch(self.branches(), branch_name@) {
                Some(i) => d.branches() == self.branches() && d.cur_branch_ind() == i,
                None => {
                    &&& d.branches().len() == self.branches().len() + 1
                    &&& d.branches().take(self.branches().len() as int) == self.branches()
                    &&& d.cur_branch_ind() == self.branches().len()
                    &&& opt_str_view(d.branches().last().branch_name) == Some(branch_name@)
                    &&& d.branches().last().tags@.len() == 0
                    &&& d.branches().last().non_tags@.len() == 0
                    &&& d.branches().last().branch_inserts@.len() == 0
                },
            },
    {
        let mut this = self;
        let ghost s0 = this;
        proof {
            lemma_find_branch_from(this.branches(), branch_name@, 0);
        }
        match this.find_branch_ind(branch_name) {
            Some(i) => {
                this.cur_branch_ind = i;
            },
            None => {
                this.cur_branch_ind = this.branches.len();
                let b = Branch::new(Some(str_to_string(branch_name)));
                this.branches.push(b);
                proof {
                    assert(this.branches@.take(this.branches@.len() - 1) =~= s0.branches@);
                    assert forall|b: int, k: int|
                        0 <= b < this.branches().len() && 0 <= k < this.branches()[b].non_tags@.len()
                        implies this.branches()[b].non_tags@[k] < this.nodes().len() by {
                        if b < s0.branches().len() {
                            assert(this.branches()[b] == s0.branches()[b]);
                        }
                    }
                    assert forall|b: int, t: int, k: int|
                        0 <= b < this.branches().len() && 0 <= t < this.branches()[b].tags@.len()
                            && 0 <= k < this.branches()[b].tags@[t].1@.len()
                        implies this.branches()[b].tags@[t].1@[k] < this.nodes().len() by {
                        if b < s0.branches().len() {
                            assert(this.branches()[b] == s0.branches()[b]);
                        } else {
                            assert(this.branches()[b].tags@.len() == 0);
                        }
                    }
                }
            },
        }
        this.cur_nodes_start = this.nodes.len();
        this.for_tag_names = Vec::new();
        this.tags_once = false;
        this
    }

    /// Adds a root branch if there is none yet.
    fn init_branch(&mut self)
        requires
            old(self).wf(),
        ensures
            final(self).wf(),
            final(self).branches().len() >= 1,
            old(self).branches().len() >= 1 ==> final(self).branches() == old(self).branches(),
            old(self).branches().len() == 0 ==> {
                &&& final(self).branches().len() == 1
                &&& final(self).branches()[0].branch_name is None
                &&& final(self).branches()[0].tags@.len() == 0
                &&& final(self).branches()[0].non_tags@.len() == 0
                &&& final(self).branches()[0].branch_inserts@.len() == 0
            },
            final(self).nodes() == old(self).nodes(),
            final(self).params() == old(self).params(),
            final(self).cur_branch_ind() == old(self).cur_branch_ind(),
            final(self).for_tag_names() == old(self).for_tag_names(),
            final(self).cur_nodes_start() == old(self).cur_nodes_start(),
            final(self).once() == old(self).once(),
            final(self).is_group_similar() == old(self).is_group_similar(),
    {
        if self.branches.len() == 0 {
            self.branches.push(Branch::new(None));
        }
    }

    /// Makes the current branch take in the nodes of the named branches too.
    pub fn insert_branches(self, branch_names: &[&str]) -> (d: Self)
        requires
            self.wf(),
        ensures
            d.wf(),
            d.nodes() == self.nodes(),
            d.params() == self.params(),
            d.branches().len() == if self.branches().len() == 0 {
                1
            } else {
                self.branches().len()
            },
            d.cur_branch_ind() == self.cur_branch_ind(),
            forall|i: int|
                0 <= i < d.branches().len() && i != d.cur_branch_ind() ==> #[trigger] d.branches()[i]
                    == self.branches()[i],
            strs_view(d.branches()[d.cur_branch_ind()].branch_inserts@) == (if self.branches().len()
                == 0 {
                Seq::<Seq<char>>::empty()
            } else {
                strs_view(self.branches()[self.cur_branch_ind()].branch_inserts@)
            }) + branch_names@.map_values(|s: &str| s@),
            d.cur_nodes_start() == self.nodes().len(),
            d.for_tag_names() == self.for_tag_names(),
            !d.once(),
            d.is_group_similar() == self.is_group_similar(),
    {
        let mut this = self;
        this.init_branch();
        let ghost mid = this;
        let cur = this.cur_branch_ind;
        let mut k: usize = 0;
        while k < branch_names.len()
            invariant
                this.wf(),
                cur == this.cur_branch_ind,
                cur < this.branches().len(),
                this.branches().len() == mid.branches().len(),
                this.nodes() == mid.nodes(),
                this.params() == mid.params(),
                this.cur_branch_ind() == mid.cur_branch_ind(),
                this.for_tag_names() == mid.for_tag_names(),
                this.cur_nodes_start() == mid.cur_nodes_start(),
                this.once() == mid.once(),
                this.is_group_similar() == mid.is_group_similar(),
                k <= branch_names@.len(),
                forall|i: int|
                    0 <= i < this.branches().len() && i != cur ==> #[trigger] this.branches()[i]
                        == mid.branches()[i],
                this.branches()[cur as int].tags == mid.branches()[cur as int].tags,
                this.branches()[cur as int].non_tags == mid.branches()[cur as int].non_tags,
                this.branches()[cur as int].branch_name == mid.branches()[cur as int].branch_name,
                strs_view(this.branches()[cur as int].branch_inserts@) == strs_view(
                    mid.branches()[cur as int].branch_inserts@,
                ) + branch_names@.take(k as int).map_values(|s: &str| s@),
            decreases branch_names@.len() - k,
        {
            let name = str_to_string(branch_names[k]);
            let ghost pre = this;
            let ghost prev = this.branches()[cur as int].branch_inserts@;
            this.branches[cur].branch_inserts.push(name);
            proof {
                assert(this.branches()[cur as int].branch_inserts@ == prev.push(name));
                assert(this.branches()[cur as int].tags == pre.branches()[cur as int].tags);
                assert(this.branches()[cur as int].non_tags == pre.branches()[cur as int].non_tags);
                assert(this.branches()[cur as int].branch_name == pre.branches()[cur as int].branch_name);
                assert forall|i: int| 0 <= i < this.branches().len() && i != cur implies #[trigger] this.branches()[i] == pre.branches()[i] by {}
                assert(strs_view(prev.push(name)) =~= strs_view(prev).push(name@));
                assert(branch_names@.take(k + 1) =~= branch_names@.take(k as int).push(branch_names@[k as int]));
            }
            k = k + 1;
            proof {
                let old_ins = strs_view(mid.branches()[cur as int].branch_inserts@);
                assert(strs_view(this.branches()[cur as int].branch_inserts@) =~= old_ins
                    + branch_names@.take(k as int).map_values(|s: &str| s@));
                assert forall|i: int, j: int|
                    0 <= i < this.branches().len() && 0 <= j < this.branches().len() && (
                    #[trigger] this.branches()[i].branch_name) is Some && opt_str_view(
                        this.branches()[i].branch_name,
                    ) == opt_str_view(#[trigger] this.branches()[j].branch_name) implies i == j by {
                    assert(this.branches()[i].branch_name == mid.branches()[i].branch_name);
                    assert(this.branches()[j].branch_name == mid.branches()[j].branch_name);
                }
                assert forall|b: int, t: int, u: int|
                    0 <= b < this.branches().len() && 0 <= t < this.branches()[b].tags@.len() && 0
                        <= u < this.branches()[b].tags@.len() && (
                    #[trigger] this.branches()[b].tags@[t]).0@ == (
                    #[trigger] this.branches()[b].tags@[u]).0@ implies t == u by {
                    assert(this.branches()[b].tags == pre.branches()[b].tags);
                    assert(pre.branches()[b].tags@[t] == this.branches()[b].tags@[t]);
                }
                assert forall|b: int, k2: int|
                    0 <= b < this.branches().len() && 0 <= k2 < this.branches()[b].non_tags@.len()
                    implies this.branches()[b].non_tags@[k2] < this.nodes().len() by {
                    assert(this.branches()[b].non_tags == pre.branches()[b].non_tags);
                }
                assert forall|b: int, t: int, k2: int|
                    0 <= b < this.branches().len() && 0 <= t < this.branches()[b].tags@.len() && 0
                        <= k2 < this.branches()[b].tags@[t].1@.len()
                    implies this.branches()[b].tags@[t].1@[k2] < this.nodes().len() by {
                    assert(this.branches()[b].tags == pre.branches()[b].tags);
                    assert(pre.branches()[b].tags@[t] == this.branches()[b].tags@[t]);
                }
            }
        }
        proof {
            assert(branch_names@.take(branch_names@.len() as int) =~= branch_names@);
        }
        this.cur_nodes_start = this.nodes.len();
        this.tags_once = false;
        this
    }
    /// Everything but the nodes, the branches and the node start is as in `old`.
    pub open spec fn same_settings(&self, old: &Def<F>) -> bool {
        &&& self.params() == old.params()
        &&& self.cur_branch_ind() == old.cur_branch_ind()
        &&& self.for_tag_names() == old.for_tag_names()
        &&& self.once() == old.once()
        &&& self.is_group_similar() == old.is_group_similar()
    }

    /// `self` is `old` with a root branch made if there was none: the branches
    /// other than the current one are unchanged, and the current one keeps its
    /// name, tags and inserted branches (empty and unnamed for a new root).
    pub open spec fn branches_kept(&self, old: &Def<F>) -> bool {
        let c = old.cur_branch_ind();
        &&& self.branches().len() == if old.branches().len() == 0 {
            1
        } else {
            old.branches().len()
        }
        &&& forall|b: int|
            0 <= b < old.branches().len() && b != c ==> #[trigger] self.branches()[b]
                == old.branches()[b]
        &&& old.branches().len() == 0 ==> {
            &&& self.branches()[0].branch_name is None
            &&& self.branches()[0].branch_inserts@.len() == 0
        }
        &&& old.branches().len() > 0 ==> {
            &&& self.branches()[c].branch_name == old.branches()[c].branch_name
            &&& self.branches()[c].branch_inserts == old.branches()[c].branch_inserts
        }
    }

    /// The non-tagged node list of the current branch before a change.
    pub open spec fn cur_non_tags(&self) -> Seq<usize> {
        if self.branches().len() == 0 {
            Seq::empty()
        } else {
            self.branches()[self.cur_branch_ind()].non_tags@
        }
    }

    /// The nodes of tag `t` in the current branch before a change.
    pub open spec fn cur_tag_nodes(&self, t: Seq<char>) -> Seq<usize> {
        if self.branches().len() == 0 {
            Seq::empty()
        } else {
            tag_nodes(self.branches()[self.cur_branch_ind()], t)
        }
    }

    /// `self` is `old` after one entry: one node per current tag name, each
    /// listed under its tag, or one untagged node if no tag is current; the new
    /// nodes become the ones that later calls change.
    pub open spec fn entered(&self, old: &Def<F>) -> bool {
        self.entered_with(old, old.for_tag_names())
    }

    /// As `entered`, with the tag names `names` current.
    pub open spec fn entered_with(&self, old: &Def<F>, names: Seq<Seq<char>>) -> bool {
        let n = old.nodes().len();
        let k = if names.len() == 0 {
            1
        } else {
            names.len()
        };
        let c = old.cur_branch_ind();
        &&& self.wf()
        &&& self.same_settings(old)
        &&& self.branches_kept(old)
        &&& self.cur_nodes_start() == n
        &&& self.nodes().len() == n + k
        &&& self.nodes().take(n as int) == old.nodes()
        &&& forall|i: int|
            n <= i < n + k ==> fresh_node(
                #[trigger] self.nodes()[i],
                c,
                names.len() > 0,
                old.once(),
            )
        &&& names.len() == 0 ==> {
            &&& self.branches()[c].non_tags@ == old.cur_non_tags().push(n as usize)
            &&& forall|t: Seq<char>| #[trigger]
                tag_nodes(self.branches()[c], t) == old.cur_tag_nodes(t)
        }
        &&& names.len() > 0 ==> {
            &&& self.branches()[c].non_tags@ == old.cur_non_tags()
            &&& forall|t: Seq<char>| #[trigger]
                tag_nodes(self.branches()[c], t) == old.cur_tag_nodes(t) + added_for(
                    names,
                    t,
                    n as int,
                )
        }
    }

    /// `self` is `old` with only its nodes changed as `rel` says, from the node
    /// start on; whether groups share is left aside.
    pub open spec fn changed_from(&self, old: &Def<F>, rel: spec_fn(Node, Node) -> bool) -> bool {
        &&& self.wf()
        &&& self.branches() == old.branches()
        &&& self.params() == old.params()
        &&& self.cur_branch_ind() == old.cur_branch_ind()
        &&& self.for_tag_names() == old.for_tag_names()
        &&& self.cur_nodes_start() == old.cur_nodes_start()
        &&& self.once() == old.once()
        &&& nodes_changed(old.nodes(), self.nodes(), old.cur_nodes_start(), rel)
    }

    /// `self` is `old` made ready for a group change: after an entry if no
    /// node was current, and with a first group in each current node that has none.
    pub open spec fn group_ready(&self, old: &Def<F>) -> bool {
        exists|m: Def<F>|
            #[trigger] m.entry_ready(old) && self.changed_from(&m, grouped_rel())
                && self.is_group_similar() == old.is_group_similar()
    }

    /// `self` is `old`, or `old` after an entry if no node was current.
    pub open spec fn entry_ready(&self, old: &Def<F>) -> bool {
        if old.cur_nodes_start() == old.nodes().len() {
            self.entered_with(old, Seq::empty())
        } else {
            self.wf() && self.branches_kept(old) && self.same_settings(old)
                && self.cur_nodes_start() == old.cur_nodes_start() && self.nodes() == old.nodes()
                && (old.branches().len() > 0 ==> self.branches() == old.branches())
        }
    }
}

/// The indices given to the nodes that the tag `t` gets when nodes for `names`
/// are added from index `base` on.
pub open spec fn added_for(names: Seq<Seq<char>>, t: Seq<char>, base: int) -> Seq<usize>
    decreases names.len(),
{
    if names.len() == 0 {
        Seq::empty()
    } else {
        added_for(names.drop_last(), t, base) + if names.last() == t {
            seq![(base + names.len() - 1) as usize]
        } else {
            Seq::<usize>::empty()
        }
    }
}

/// Two nodes agree but perhaps in their groups, label and children, as the flags say.
pub open spec fn node_kept(a: Node, b: Node, groups: bool, label: bool, children: bool) -> bool {
    &&& a.has_tag == b.has_tag
    &&& a.branch_ind == b.branch_ind
    &&& a.tag_once == b.tag_once
    &&& groups ==> a.param_groups == b.param_groups
    &&& label ==> a.node_label == b.node_label
    &&& children ==> a.children == b.children
}

/// The nodes from `start` on are changed as `rel` says; the others are kept.
pub open spec fn nodes_changed(a: Seq<Node>, b: Seq<Node>, start: int, rel: spec_fn(Node, Node) -> bool) -> bool {
    &&& a.len() == b.len()
    &&& forall|i: int|
        0 <= i < a.len() ==> if start <= i {
            rel(a[i], #[trigger] b[i])
        } else {
            b[i] == a[i]
        }
}

/// Two groups agree but perhaps in the fields that the flags leave out.
pub open spec fn group_kept(g: ParamGroup, h: ParamGroup, name: bool, repeat: bool, optional: bool, param_optional: bool, params: bool) -> bool {
    &&& g.similar == h.similar
    &&& name ==> g.name == h.name
    &&& repeat ==> g.repeat == h.repeat
    &&& optional ==> g.optional == h.optional
    &&& param_optional ==> g.param_optional == h.param_optional
    &&& params ==> g.params == h.params && g.pattern_len == h.pattern_len && g.patterns_num
        == h.patterns_num
}

/// The node takes records of the branch `name` below it.
pub open spec fn children_branch_rel(name: Seq<char>) -> spec_fn(Node, Node) -> bool {
    |a: Node, b: Node|
        node_kept(a, b, true, true, false) && (b.children matches NodeChildren::Branch(s) && s@
            == name)
}

/// The node takes a body of text below it.
pub open spec fn children_body_rel() -> spec_fn(Node, Node) -> bool {
    |a: Node, b: Node|
        node_kept(a, b, true, true, false) && (b.children matches NodeChildren::Body(l) && l is None)
}

/// The node gets the label `label`.
pub open spec fn label_rel(label: Seq<char>) -> spec_fn(Node, Node) -> bool {
    |a: Node, b: Node| node_kept(a, b, true, false, true) && opt_str_view(b.node_label) == Some(label)
}

/// The node gets a new last group with the sharing `similar`.
pub open spec fn group_added_rel(similar: GroupSimilar) -> spec_fn(Node, Node) -> bool {
    |a: Node, b: Node|
        {
            &&& node_kept(a, b, false, true, true)
            &&& b.param_groups@.len() == a.param_groups@.len() + 1
            &&& b.param_groups@.take(a.param_groups@.len() as int) == a.param_groups@
            &&& fresh_group(b.param_groups@.last(), similar)
        }
}

/// The node gets a first group, unshared, if it has none.
pub open spec fn grouped_rel() -> spec_fn(Node, Node) -> bool {
    |a: Node, b: Node|
        if a.param_groups@.len() == 0 {
            (group_added_rel(GroupSimilar::Neither))(a, b)
        } else {
            b == a
        }
}

/// The last group of the node is changed as `gr` says.
pub open spec fn last_group_rel(gr: spec_fn(ParamGroup, ParamGroup) -> bool) -> spec_fn(Node, Node) -> bool {
    |a: Node, b: Node|
        {
            &&& node_kept(a, b, false, true, true)
            &&& a.param_groups@.len() >= 1
            &&& b.param_groups@.len() == a.param_groups@.len()
            &&& b.param_groups@.drop_last() == a.param_groups@.drop_last()
            &&& gr(a.param_groups@.last(), b.param_groups@.last())
        }
}

pub open spec fn name_rel(name: Seq<char>) -> spec_fn(ParamGroup, ParamGroup) -> bool {
    |g: ParamGroup, h: ParamGroup|
        group_kept(g, h, false, true, true, true, true) && opt_str_view(h.name) == Some(name)
}

pub open spec fn repeat_rel() -> spec_fn(ParamGroup, ParamGroup) -> bool {
    |g: ParamGroup, h: ParamGroup| group_kept(g, h, true, false, true, true, true) && h.repeat
}

pub open spec fn optional_rel() -> spec_fn(ParamGroup, ParamGroup) -> bool {
    |g: ParamGroup, h: ParamGroup| group_kept(g, h, true, true, false, true, true) && h.optional
}

/// The parameters from the current count on may be left out, unless a point was set before.
pub open spec fn param_optional_rel() -> spec_fn(ParamGroup, ParamGroup) -> bool {
    |g: ParamGroup, h: ParamGroup|
        group_kept(g, h, true, true, true, false, true) && h.param_optional == match g.param_optional {
            Some(x) => Some(x),
            None => Some(g.params@.len() as usize),
        }
}

/// The group gets the parameter `p`, and the pattern (`pl`, `pm`).
pub open spec fn param_added_rel(p: Option<usize>, pl: int, pm: int) -> spec_fn(ParamGroup, ParamGroup) -> bool {
    |g: ParamGroup, h: ParamGroup|
        {
            &&& group_kept(g, h, true, true, true, true, false)
            &&& h.params@ == g.params@.push(p)
            &&& h.pattern_len == pl
            &&& h.patterns_num == pm
        }
}

pub proof fn lemma_find_tag_same_names(a: Seq<(String, Vec<usize>)>, b: Seq<(String, Vec<usize>)>, t: Seq<char>, k: int)
    requires
        0 <= k,
        a.len() == b.len(),
        forall|i: int| 0 <= i < a.len() ==> (#[trigger] a[i]).0 == b[i].0,
    ensures
        find_tag_from(a, t, k) == find_tag_from(b, t, k),
    decreases a.len() - k,
{
    if k < a.len() {
        assert(a[k].0 == b[k].0);
        lemma_find_tag_same_names(a, b, t, k + 1);
    }
}

pub proof fn lemma_find_tag_push(a: Seq<(String, Vec<usize>)>, e: (String, Vec<usize>), t: Seq<char>, k: int)
    requires
        0 <= k <= a.len(),
    ensures
        e.0@ != t ==> find_tag_from(a.push(e), t, k) == find_tag_from(a, t, k),
        (find_tag_from(a, t, k) is None && e.0@ == t) ==> find_tag_from(a.push(e), t, k) == Some(
            a.len() as int,
        ),
        find_tag_from(a, t, k) is Some ==> find_tag_from(a.push(e), t, k) == find_tag_from(a, t, k),
    decreases a.len() - k,
{
    if k < a.len() {
        assert(a.push(e)[k] == a[k]);
        lemma_find_tag_push(a, e, t, k + 1);
    } else {
        assert(a.push(e)[k] == e);
        assert(find_tag_from(a.push(e), t, k + 1) is None);
    }
}

pub proof fn lemma_find_tag_unique(tags: Seq<(String, Vec<usize>)>, t: Seq<char>, j: int)
    requires
        0 <= j < tags.len(),
        tags[j].0@ == t,
        forall|a: int, b: int|
            0 <= a < tags.len() && 0 <= b < tags.len() && (#[trigger] tags[a]).0@ == (
            #[trigger] tags[b]).0@ ==> a == b,
    ensures
        find_tag(tags, t) == Some(j),
{
    lemma_find_tag_from(tags, t, 0);
}

impl<F> Def<F> {

    /// `self` is `old` with a root branch made if there was none.
    pub open spec fn rooted(&self, old: &Def<F>) -> bool {
        &&& old.branches().len() > 0 ==> self.branches() == old.branches()
        &&& old.branches().len() == 0 ==> {
            &&& self.branches().len() == 1
            &&& self.branches()[0].branch_name is None
            &&& self.branches()[0].tags@.len() == 0
            &&& self.branches()[0].non_tags@.len() == 0
            &&& self.branches()[0].branch_inserts@.len() == 0
        }
    }

    /// `self` is `old` with the tag names `names` made current, marked once
    /// only or not, and a root branch made if there was none.
    pub open spec fn tags_set(&self, old: &Def<F>, names: Seq<Seq<char>>, once: bool) -> bool {
        &&& self.wf()
        &&& self.rooted(old)
        &&& self.nodes() == old.nodes()
        &&& self.params() == old.params()
        &&& self.cur_branch_ind() == old.cur_branch_ind()
        &&& self.cur_nodes_start() == old.nodes().len()
        &&& self.for_tag_names() == names
        &&& self.once() == once
        &&& self.is_group_similar() == old.is_group_similar()
    }

    fn set_tags(&mut self, tag_names: &[&str], once: bool)
        requires
            old(self).wf(),
        ensures
            final(self).tags_set(&*old(self), tag_names@.map_values(|s: &str| s@), once),
    {
        self.init_branch();
        let mut names: Vec<String> = Vec::new();
        let mut k: usize = 0;
        while k < tag_names.len()
            invariant
                k <= tag_names@.len(),
                strs_view(names@) == tag_names@.take(k as int).map_values(|s: &str| s@),
            decreases tag_names@.len() - k,
        {
            let ghost prev = names@;
            let nm = str_to_string(tag_names[k]);
            names.push(nm);
            proof {
                assert(names@ == prev.push(nm));
                assert(strs_view(prev.push(nm)) =~= strs_view(prev).push(nm@));
                assert(tag_names@.take(k + 1) =~= tag_names@.take(k as int).push(tag_names@[k as int]));
                assert(tag_names@.take(k + 1).map_values(|s: &str| s@) =~= tag_names@.take(k as int).map_values(|s: &str| s@).push(tag_names@[k as int]@));
            }
            k = k + 1;
        }
        proof {
            assert(tag_names@.take(k as int) =~= tag_names@);
        }
        self.for_tag_names = names;
        self.cur_nodes_start = self.nodes.len();
        self.tags_once = once;
    }

    /// The next entries add untagged nodes.
    pub fn tagless(self) -> (d: Self)
        requires
            self.wf(),
        ensures
            d.tags_set(&self, Seq::empty(), false),
    {
        let mut this = self;
        let none: Vec<&str> = Vec::new();
        this.set_tags(none.as_slice(), false);
        proof {
            assert(none@.map_values(|s: &str| s@) =~= Seq::<Seq<char>>::empty());
        }
        this
    }

    /// The next entries add one node for each of these tags.
    pub fn tags(self, tag_names: &[&str]) -> (d: Self)
        requires
            self.wf(),
        ensures
            d.tags_set(&self, tag_names@.map_values(|s: &str| s@), false),
    {
        let mut this = self;
        this.set_tags(tag_names, false);
        this
    }

    /// As `tags`, with each of these tags allowed once among the records under one parent.
    pub fn tags_once(self, tag_names: &[&str]) -> (d: Self)
        requires
            self.wf(),
        ensures
            d.tags_set(&self, tag_names@.map_values(|s: &str| s@), true),
    {
        let mut this = self;
        this.set_tags(tag_names, true);
        this
    }

    /// The index of the entry for `tag` in the tag list of branch `b`.
    fn find_tag_ind(&self, b: usize, tag: &str) -> (r: Option<usize>)
        requires
            self.wf(),
            b < self.branches().len(),
        ensures
            r matches Some(j) ==> find_tag(self.branches()[b as int].tags@, tag@) == Some(j as int),
            r is None ==> find_tag(self.branches()[b as int].tags@, tag@) is None,
    {
        let mut k: usize = 0;
        while k < self.branches[b].tags.len()
            invariant
                b < self.branches().len(),
                k <= self.branches()[b as int].tags@.len(),
                find_tag(self.branches()[b as int].tags@, tag@) == find_tag_from(
                    self.branches()[b as int].tags@,
                    tag@,
                    k as int,
                ),
            decreases self.branches()[b as int].tags@.len() - k,
        {
            if str_eq(self.branches[b].tags[k].0.as_str(), tag) {
                return Some(k);
            }
            k = k + 1;
        }
        None
    }

    /// Adds one untagged node, whatever tags are current.
    #[verifier::rlimit(60)]
    fn inner_entry_tagless(&mut self)
        requires
            old(self).wf(),
        ensures
            final(self).entered_with(&*old(self), Seq::empty()),
    {
        self.init_branch();
        let ghost mid = *self;
        let cur = self.cur_branch_ind;
        let n = self.nodes.len();
        self.cur_nodes_start = n;
        proof {
            assert(mid.branches()[cur as int].non_tags@ == old(self).cur_non_tags());
            assert forall|t: Seq<char>| #[trigger] tag_nodes(mid.branches()[cur as int], t) == old(self).cur_tag_nodes(t) by {
                if old(self).branches().len() == 0 {
                    assert(find_tag(mid.branches()[cur as int].tags@, t) is None);
                }
            }
        }
        {
            self.branches[cur].non_tags.push(n);
            let node = Node::new(cur, false, self.tags_once);
            self.nodes.push(node);
            proof {
                assert(self.nodes().take(n as int) =~= mid.nodes());
                assert forall|t: Seq<char>| #[trigger]
                    tag_nodes(self.branches()[cur as int], t) == old(self).cur_tag_nodes(t) by {}
                assert forall|b: int, k: int|
                    0 <= b < self.branches().len() && 0 <= k < self.branches()[b].non_tags@.len()
                    implies self.branches()[b].non_tags@[k] < self.nodes().len() by {
                    if b != cur {
                        assert(self.branches()[b] == mid.branches()[b]);
                    } else if k < mid.branches()[b].non_tags@.len() {
                        assert(self.branches()[b].non_tags@[k] == mid.branches()[b].non_tags@[k]);
                    }
                }
                assert forall|b: int, t: int, k: int|
                    0 <= b < self.branches().len() && 0 <= t < self.branches()[b].tags@.len() && 0
                        <= k < self.branches()[b].tags@[t].1@.len()
                    implies self.branches()[b].tags@[t].1@[k] < self.nodes().len() by {
                    assert(self.branches()[b].tags == mid.branches()[b].tags);
                    assert(self.branches()[b].tags@[t] == mid.branches()[b].tags@[t]);
                }
                assert forall|i: int, j: int|
                    0 <= i < self.branches().len() && 0 <= j < self.branches().len() && (
                    #[trigger] self.branches()[i].branch_name) is Some && opt_str_view(
                        self.branches()[i].branch_name,
                    ) == opt_str_view(#[trigger] self.branches()[j].branch_name) implies i == j by {
                    assert(self.branches()[i].branch_name == mid.branches()[i].branch_name);
                    assert(self.branches()[j].branch_name == mid.branches()[j].branch_name);
                }
                assert forall|b: int, t: int, u: int|
                    0 <= b < self.branches().len() && 0 <= t < self.branches()[b].tags@.len() && 0
                        <= u < self.branches()[b].tags@.len() && (
                    #[trigger] self.branches()[b].tags@[t]).0@ == (
                    #[trigger] self.branches()[b].tags@[u]).0@ implies t == u by {
                    assert(self.branches()[b].tags == mid.branches()[b].tags);
                    assert(self.branches()[b].tags@[t] == mid.branches()[b].tags@[t]);
                    assert(self.branches()[b].tags@[u] == mid.branches()[b].tags@[u]);
                }
                assert forall|i: int| 0 <= i < self.nodes().len() implies node_params_valid(
                    #[trigger] self.nodes()[i],
                    self.params().len() as int,
                ) by {
                    if i < mid.nodes().len() {
                        assert(self.nodes()[i] == mid.nodes()[i]);
                    }
                }
            }
        }
    }

    /// Adds the nodes of one entry: one per current tag, or one untagged node.
    fn inner_entry(&mut self)
        requires
            old(self).wf(),
        ensures
            final(self).entered(&*old(self)),
    {
        if self.for_tag_names.len() == 0 {
            self.inner_entry_tagless();
        } else {
            self.init_branch();
            let ghost mid = *self;
            let cur = self.cur_branch_ind;
            let n = self.nodes.len();
            self.cur_nodes_start = n;
            proof {
                assert(mid.branches()[cur as int].non_tags@ == old(self).cur_non_tags());
                assert forall|t: Seq<char>| #[trigger] tag_nodes(mid.branches()[cur as int], t) == old(self).cur_tag_nodes(t) by {
                    if old(self).branches().len() == 0 {
                        assert(find_tag(mid.branches()[cur as int].tags@, t) is None);
                    }
                }
            }
            self.add_tag_nodes(cur, n);
        }
    }

    /// Adds one tagged node for each current tag name, from index `n` on.
    #[verifier::rlimit(80)]
    fn add_tag_nodes(&mut self, cur: usize, n: usize)
        requires
            old(self).wf(),
            old(self).branches().len() >= 1,
            cur == old(self).cur_branch_ind(),
            n == old(self).nodes().len(),
            old(self).cur_nodes_start() == n,
            old(self).for_tag_names().len() > 0,
        ensures
            final(self).wf(),
            final(self).same_settings(&*old(self)),
            final(self).cur_nodes_start() == n,
            final(self).branches().len() == old(self).branches().len(),
            forall|b: int|
                0 <= b < old(self).branches().len() && b != cur ==> #[trigger] final(self).branches()[b]
                    == old(self).branches()[b],
            final(self).branches()[cur as int].branch_name == old(self).branches()[cur as int].branch_name,
            final(self).branches()[cur as int].branch_inserts == old(self).branches()[cur as int].branch_inserts,
            final(self).branches()[cur as int].non_tags == old(self).branches()[cur as int].non_tags,
            forall|t: Seq<char>| #[trigger]
                tag_nodes(final(self).branches()[cur as int], t) == tag_nodes(
                    old(self).branches()[cur as int],
                    t,
                ) + added_for(old(self).for_tag_names(), t, n as int),
            final(self).nodes().len() == n + old(self).for_tag_names().len(),
            final(self).nodes().take(n as int) == old(self).nodes(),
            forall|i: int|
                n <= i < final(self).nodes().len() ==> fresh_node(
                    #[trigger] final(self).nodes()[i],
                    cur as int,
                    true,
                    old(self).once(),
                ),
    {
        let ghost mid = *self;
        let ghost names = mid.for_tag_names();
        let mut m: usize = 0;
        while m < self.for_tag_names.len()
            invariant
                self.wf(),
                self.same_settings(&mid),
                self.cur_nodes_start() == n,
                cur == self.cur_branch_ind,
                cur < self.branches().len(),
                names == self.for_tag_names(),
                self.branches().len() == mid.branches().len(),
                forall|b: int|
                    0 <= b < mid.branches().len() && b != cur ==> #[trigger] self.branches()[b]
                        == mid.branches()[b],
                self.branches()[cur as int].branch_name == mid.branches()[cur as int].branch_name,
                self.branches()[cur as int].branch_inserts == mid.branches()[cur as int].branch_inserts,
                self.branches()[cur as int].non_tags == mid.branches()[cur as int].non_tags,
                m <= names.len(),
                forall|t: Seq<char>| #[trigger]
                    tag_nodes(self.branches()[cur as int], t) == tag_nodes(
                        mid.branches()[cur as int],
                        t,
                    ) + added_for(names.take(m as int), t, n as int),
                self.nodes().len() == n + m,
                self.nodes().take(n as int) == mid.nodes(),
                forall|i: int|
                    n <= i < self.nodes().len() ==> fresh_node(
                        #[trigger] self.nodes()[i],
                        cur as int,
                        true,
                        mid.once(),
                    ),
            decreases names.len() - m,
        {
            let idx = self.nodes.len();
            let ghost pre = *self;
            let ghost nm = names[m as int];
            let ghost tags0 = pre.branches()[cur as int].tags@;
            let j = self.find_tag_ind(cur, self.for_tag_names[m].as_str());
            proof {
                lemma_find_tag_from(tags0, nm, 0);
            }
            match j {
                Some(j) => {
                    self.branches[cur].tags[j].1.push(idx);
                    proof {
                        let tags1 = self.branches()[cur as int].tags@;
                        assert(tags1[j as int].1@ == tags0[j as int].1@.push(idx));
                        assert(tags1[j as int].0 == tags0[j as int].0);
                        assert forall|i: int| 0 <= i < tags0.len() && i != j implies #[trigger] tags1[i] == tags0[i] by {}
                        assert forall|t: Seq<char>| find_tag(tags1, t) == find_tag(tags0, t) by {
                            lemma_find_tag_same_names(tags0, tags1, t, 0);
                        }
                        lemma_find_tag_unique(tags0, nm, j as int);
                    }
                },
                None => {
                    let s = str_to_string(self.for_tag_names[m].as_str());
                    let mut v: Vec<usize> = Vec::new();
                    v.push(idx);
                    self.branches[cur].tags.push((s, v));
                    proof {
                        let tags1 = self.branches()[cur as int].tags@;
                        assert(tags1 == tags0.push((s, v)));
                        assert forall|t: Seq<char>| t != nm implies find_tag(tags1, t) == find_tag(tags0, t) by {
                            lemma_find_tag_push(tags0, (s, v), t, 0);
                        }
                        lemma_find_tag_push(tags0, (s, v), nm, 0);
                        lemma_find_tag_from(tags0, nm, 0);
                        assert(tags1[tags0.len() as int].1@ =~= seq![idx]);
                    }
                },
            }
            let node = Node::new(cur, true, self.tags_once);
            self.nodes.push(node);
            proof {
                let tags1 = self.branches()[cur as int].tags@;
                lemma_find_tag_from(tags0, nm, 0);
                assert(names.take(m + 1).drop_last() =~= names.take(m as int));
                assert(names.take(m + 1).last() == nm);
                assert(self.nodes().take(n as int) =~= pre.nodes().take(n as int));
                assert(idx == n + m);
                assert forall|t: Seq<char>| #[trigger]
                    tag_nodes(self.branches()[cur as int], t) == tag_nodes(
                        mid.branches()[cur as int],
                        t,
                    ) + added_for(names.take(m + 1), t, n as int) by {
                    assert(tag_nodes(pre.branches()[cur as int], t) == tag_nodes(mid.branches()[cur as int], t) + added_for(names.take(m as int), t, n as int));
                    lemma_find_tag_from(tags0, t, 0);
                    lemma_find_tag_from(tags1, t, 0);
                    if t == nm {
                        assert(tag_nodes(self.branches()[cur as int], t) =~= tag_nodes(pre.branches()[cur as int], t).push(idx));
                    } else {
                        assert(tag_nodes(self.branches()[cur as int], t) =~= tag_nodes(pre.branches()[cur as int], t));
                    }
                }
                assert forall|b: int, k: int|
                    0 <= b < self.branches().len() && 0 <= k < self.branches()[b].non_tags@.len()
                    implies self.branches()[b].non_tags@[k] < self.nodes().len() by {
                    assert(self.branches()[b].non_tags == pre.branches()[b].non_tags);
                }
                assert forall|b: int, t: int, k: int|
                    0 <= b < self.branches().len() && 0 <= t < self.branches()[b].tags@.len() && 0
                        <= k < self.branches()[b].tags@[t].1@.len()
                    implies self.branches()[b].tags@[t].1@[k] < self.nodes().len() by {
                    if b != cur {
                        assert(self.branches()[b] == pre.branches()[b]);
                    } else if t < tags0.len() && k < tags0[t].1@.len() {
                        assert(tags1[t].1@[k] == tags0[t].1@[k]);
                    }
                }
                assert forall|i: int, j2: int|
                    0 <= i < self.branches().len() && 0 <= j2 < self.branches().len() && (
                    #[trigger] self.branches()[i].branch_name) is Some && opt_str_view(
                        self.branches()[i].branch_name,
                    ) == opt_str_view(#[trigger] self.branches()[j2].branch_name) implies i == j2 by {
                    assert(self.branches()[i].branch_name == pre.branches()[i].branch_name);
                    assert(self.branches()[j2].branch_name == pre.branches()[j2].branch_name);
                }
                assert forall|b: int, t: int, u: int|
                    0 <= b < self.branches().len() && 0 <= t < self.branches()[b].tags@.len() && 0
                        <= u < self.branches()[b].tags@.len() && (
                    #[trigger] self.branches()[b].tags@[t]).0@ == (
                    #[trigger] self.branches()[b].tags@[u]).0@ implies t == u by {
                    if b != cur {
                        assert(self.branches()[b] == pre.branches()[b]);
                    } else {
                        if t < tags0.len() {
                            assert(tags1[t].0 == tags0[t].0);
                        }
                        if u < tags0.len() {
                            assert(tags1[u].0 == tags0[u].0);
                        }
                    }
                }
                assert forall|i: int| 0 <= i < self.nodes().len() implies node_params_valid(
                    #[trigger] self.nodes()[i],
                    self.params().len() as int,
                ) by {
                    if i < pre.nodes().len() {
                        assert(self.nodes()[i] == pre.nodes()[i]);
                    }
                }
            }
            m = m + 1;
        }
        proof {
            assert(names.take(m as int) =~= names);
        }
    }

    /// Adds the nodes of one entry; each takes records as its values only.
    pub fn entry(self) -> (d: Self)
        requires
            self.wf(),
        ensures
            d.entered(&self),
    {
        let mut this = self;
        this.inner_entry();
        this
    }


    /// Changing one node, keeping its branch and giving it valid parameters,
    /// keeps the definition well formed.
    proof fn lemma_wf_one_node(pre: &Def<F>, post: &Def<F>, i: int)
        requires
            pre.wf(),
            0 <= i < pre.nodes().len(),
            post.branches() == pre.branches(),
            post.params().len() >= pre.params().len(),
            post.cur_branch_ind() == pre.cur_branch_ind(),
            post.cur_nodes_start() == pre.cur_nodes_start(),
            post.nodes().len() == pre.nodes().len(),
            forall|j: int| 0 <= j < pre.nodes().len() && j != i ==> post.nodes()[j] == pre.nodes()[j],
            post.nodes()[i].branch_ind == pre.nodes()[i].branch_ind,
            node_params_valid(post.nodes()[i], post.params().len() as int),
        ensures
            post.wf(),
    {
        assert forall|j: int| 0 <= j < post.nodes().len() implies node_params_valid(
            #[trigger] post.nodes()[j],
            post.params().len() as int,
        ) by {
            if j != i {
                assert(post.nodes()[j] == pre.nodes()[j]);
                assert(node_params_valid(pre.nodes()[j], pre.params().len() as int));
            }
        }
        assert forall|j: int| 0 <= j < post.nodes().len() implies (#[trigger] post.nodes()[j]).branch_ind
            < post.branches().len() by {
            if j != i {
                assert(post.nodes()[j] == pre.nodes()[j]);
            }
        }
    }

    /// Gives the current nodes children: records of branch `children`, or a body of text.
    fn set_children(&mut self, children: Option<&str>)
        requires
            old(self).wf(),
        ensures
            final(self).changed_from(
                &*old(self),
                match children {
                    Some(c) => children_branch_rel(c@),
                    None => children_body_rel(),
                },
            ),
            final(self).is_group_similar() == old(self).is_group_similar(),
    {
        let ghost rel = match children {
            Some(c) => children_branch_rel(c@),
            None => children_body_rel(),
        };
        let ghost a = old(self).nodes();
        let start = self.cur_nodes_start;
        let mut i = start;
        while i < self.nodes.len()
            invariant
                self.wf(),
                start == old(self).cur_nodes_start(),
                start <= i <= self.nodes().len(),
                self.branches() == old(self).branches(),
                self.params() == old(self).params(),
                self.cur_branch_ind() == old(self).cur_branch_ind(),
                self.for_tag_names() == old(self).for_tag_names(),
                self.cur_nodes_start() == old(self).cur_nodes_start(),
                self.once() == old(self).once(),
                self.is_group_similar() == old(self).is_group_similar(),
                rel == match children {
                    Some(c) => children_branch_rel(c@),
                    None => children_body_rel(),
                },
                a == old(self).nodes(),
                a.len() == self.nodes().len(),
                forall|j: int|
                    0 <= j < a.len() ==> if start <= j < i {
                        rel(a[j], #[trigger] self.nodes()[j])
                    } else {
                        self.nodes()[j] == a[j]
                    },
            decreases self.nodes().len() - i,
        {
            let ghost pre = *self;
            let c = match children {
                Some(c) => NodeChildren::Branch(str_to_string(c)),
                None => NodeChildren::Body(None),
            };
            self.nodes[i].children = c;
            proof {
                assert(self.nodes()[i as int].param_groups == pre.nodes()[i as int].param_groups);
                Self::lemma_wf_one_node(&pre, &*self, i as int);
                assert(rel(a[i as int], self.nodes()[i as int]));
                assert forall|j: int| 0 <= j < a.len() && j != i implies #[trigger] self.nodes()[j] == pre.nodes()[j] by {}
            }
            i = i + 1;
        }
    }

    /// Adds the nodes of one entry, each taking as children the records of
    /// the branch `children`.
    pub fn entry_children(self, children: &str) -> (d: Self)
        requires
            self.wf(),
        ensures
            exists|m: Def<F>|
                #[trigger] m.entered(&self) && d.changed_from(&m, children_branch_rel(children@)),
            d.is_group_similar() == self.is_group_similar(),
    {
        let mut this = self;
        this.inner_entry();
        let ghost m = this;
        this.set_children(Some(children));
        proof {
            assert(m.entered(&self));
        }
        this
    }

    /// Adds the nodes of one entry, each taking a body of text below it.
    pub fn entry_text(self) -> (d: Self)
        requires
            self.wf(),
        ensures
            exists|m: Def<F>| #[trigger] m.entered(&self) && d.changed_from(&m, children_body_rel()),
            d.is_group_similar() == self.is_group_similar(),
    {
        let mut this = self;
        this.inner_entry();
        let ghost m = this;
        this.set_children(None);
        proof {
            assert(m.entered(&self));
        }
        this
    }

    /// Adds an untagged entry if no node is current.
    fn init_entry(&mut self)
        requires
            old(self).wf(),
        ensures
            final(self).entry_ready(&*old(self)),
            final(self).cur_nodes_start() < final(self).nodes().len(),
            final(self).is_group_similar() == old(self).is_group_similar(),
    {
        if self.cur_nodes_start == self.nodes.len() {
            self.inner_entry_tagless();
        } else {
            self.init_branch();
        }
    }

    /// Labels the current nodes, adding an untagged entry first if none is current.
    pub fn elabel(self, label: &str) -> (d: Self)
        requires
            self.wf(),
        ensures
            exists|m: Def<F>| #[trigger] m.entry_ready(&self) && d.changed_from(&m, label_rel(label@)),
            d.is_group_similar() == self.is_group_similar(),
    {
        let mut this = self;
        this.init_entry();
        let ghost m = this;
        let ghost rel = label_rel(label@);
        let ghost a = m.nodes();
        let start = this.cur_nodes_start;
        let mut i = start;
        while i < this.nodes.len()
            invariant
                this.wf(),
                m.wf(),
                start == m.cur_nodes_start(),
                start <= i <= this.nodes().len(),
                this.branches() == m.branches(),
                this.params() == m.params(),
                this.cur_branch_ind() == m.cur_branch_ind(),
                this.for_tag_names() == m.for_tag_names(),
                this.cur_nodes_start() == m.cur_nodes_start(),
                this.once() == m.once(),
                this.is_group_similar() == m.is_group_similar(),
                rel == label_rel(label@),
                a == m.nodes(),
                a.len() == this.nodes().len(),
                forall|j: int|
                    0 <= j < a.len() ==> if start <= j < i {
                        rel(a[j], #[trigger] this.nodes()[j])
                    } else {
                        this.nodes()[j] == a[j]
                    },
            decreases this.nodes().len() - i,
        {
            let ghost pre = this;
            this.nodes[i].node_label = Some(str_to_string(label));
            proof {
                Self::lemma_wf_one_node(&pre, &this, i as int);
                assert(rel(a[i as int], this.nodes()[i as int]));
                assert forall|j: int| 0 <= j < a.len() && j != i implies #[trigger] this.nodes()[j] == pre.nodes()[j] by {}
            }
            i = i + 1;
        }
        this
    }

    /// Adds a group with the sharing `similar` to the current nodes.
    fn inner_group(&mut self, similar: GroupSimilar)
        requires
            old(self).wf(),
        ensures
            exists|m: Def<F>|
                #[trigger] m.entry_ready(&*old(self)) && final(self).changed_from(&m, group_added_rel(similar)),
            final(self).is_group_similar() == (similar != GroupSimilar::Neither),
    {
        self.init_entry();
        let ghost m = *self;
        self.is_group_similar = match similar {
            GroupSimilar::Neither => false,
            _ => true,
        };
        let ghost rel = group_added_rel(similar);
        let ghost a = m.nodes();
        let start = self.cur_nodes_start;
        let mut i = start;
        while i < self.nodes.len()
            invariant
                self.wf(),
                m.wf(),
                start == m.cur_nodes_start(),
                start <= i <= self.nodes().len(),
                self.branches() == m.branches(),
                self.params() == m.params(),
                self.cur_branch_ind() == m.cur_branch_ind(),
                self.for_tag_names() == m.for_tag_names(),
                self.cur_nodes_start() == m.cur_nodes_start(),
                self.once() == m.once(),
                self.is_group_similar() == (similar != GroupSimilar::Neither),
                rel == group_added_rel(similar),
                a == m.nodes(),
                a.len() == self.nodes().len(),
                forall|j: int|
                    0 <= j < a.len() ==> if start <= j < i {
                        rel(a[j], #[trigger] self.nodes()[j])
                    } else {
                        self.nodes()[j] == a[j]
                    },
            decreases self.nodes().len() - i,
        {
            let ghost pre = *self;
            self.nodes[i].param_groups.push(ParamGroup::new(similar));
            proof {
                let n0 = pre.nodes()[i as int];
                let n1 = self.nodes()[i as int];
                assert(n1.param_groups@.take(n0.param_groups@.len() as int) =~= n0.param_groups@);
                assert(node_params_valid(n0, pre.params().len() as int));
                assert(node_params_valid(n1, self.params().len() as int)) by {
                    assert forall|g: int, k: int|
                        #![trigger n1.param_groups@[g].params@[k]]
                        0 <= g < n1.param_groups@.len() && 0 <= k < n1.param_groups@[g].params@.len()
                        implies (n1.param_groups@[g].params@[k] matches Some(p) ==> p < self.params().len()) by {
                        if g < n0.param_groups@.len() {
                            assert(n1.param_groups@[g] == n0.param_groups@[g]);
                        }
                    }
                }
                Self::lemma_wf_one_node(&pre, &*self, i as int);
                assert(rel(a[i as int], self.nodes()[i as int]));
                assert forall|j: int| 0 <= j < a.len() && j != i implies #[trigger] self.nodes()[j] == pre.nodes()[j] by {}
            }
            i = i + 1;
        }
        proof {
            assert(m.entry_ready(&*old(self)));
        }
    }

    /// Adds an unshared group to the current nodes.
    pub fn group(self) -> (d: Self)
        requires
            self.wf(),
        ensures
            exists|m: Def<F>|
                #[trigger] m.entry_ready(&self) && d.changed_from(&m, group_added_rel(GroupSimilar::Neither)),
            !d.is_group_similar(),
    {
        let mut this = self;
        this.inner_group(GroupSimilar::Neither);
        this
    }

    /// Adds a group to the current nodes that shares values with adjacent
    /// groups of the same pattern, the left ones filled first.
    pub fn group_left(self) -> (d: Self)
        requires
            self.wf(),
        ensures
            exists|m: Def<F>|
                #[trigger] m.entry_ready(&self) && d.changed_from(&m, group_added_rel(GroupSimilar::Left)),
            d.is_group_similar(),
    {
        let mut this = self;
        this.inner_group(GroupSimilar::Left);
        this
    }

    /// As `group_left`, the right ones filled first.
    pub fn group_right(self) -> (d: Self)
        requires
            self.wf(),
        ensures
            exists|m: Def<F>|
                #[trigger] m.entry_ready(&self) && d.changed_from(&m, group_added_rel(GroupSimilar::Right)),
            d.is_group_similar(),
    {
        let mut this = self;
        this.inner_group(GroupSimilar::Right);
        this
    }


    /// `self` is `old` with only its nodes changed as `rel` says, from the node
    /// start on, and its parsers now `params`; whether groups share is left aside.
    pub open spec fn changed_from_with(&self, old: &Def<F>, rel: spec_fn(Node, Node) -> bool, params: Seq<(u64, F)>) -> bool {
        &&& self.wf()
        &&& self.branches() == old.branches()
        &&& self.params() == params
        &&& self.cur_branch_ind() == old.cur_branch_ind()
        &&& self.for_tag_names() == old.for_tag_names()
        &&& self.cur_nodes_start() == old.cur_nodes_start()
        &&& self.once() == old.once()
        &&& nodes_changed(old.nodes(), self.nodes(), old.cur_nodes_start(), rel)
    }

    /// The pattern that the last group of the last node gets when a parameter
    /// of kind `kind` is added to it: none unless groups share.
    pub open spec fn next_pattern(&self, kind: Option<u64>) -> (int, int) {
        if !self.is_group_similar() {
            (0, 0)
        } else {
            pattern_of(self.group_kinds(self.nodes().last().param_groups@.last()).push(kind))
        }
    }

    /// Makes sure each current node has a group, adding an untagged entry
    /// first if no node is current.
    fn init_group(&mut self)
        requires
            old(self).wf(),
        ensures
            final(self).group_ready(&*old(self)),
            final(self).cur_nodes_start() < final(self).nodes().len(),
            forall|i: int|
                final(self).cur_nodes_start() <= i < final(self).nodes().len() ==> (
                #[trigger] final(self).nodes()[i]).param_groups@.len() >= 1,
    {
        self.init_entry();
        let ghost m = *self;
        if self.cur_nodes_start == self.nodes.len() {
            self.is_group_similar = false;
        }
        let ghost rel = grouped_rel();
        let ghost a = m.nodes();
        let start = self.cur_nodes_start;
        let mut i = start;
        while i < self.nodes.len()
            invariant
                self.wf(),
                m.wf(),
                start == m.cur_nodes_start(),
                start < self.nodes().len(),
                start <= i <= self.nodes().len(),
                self.branches() == m.branches(),
                self.params() == m.params(),
                self.cur_branch_ind() == m.cur_branch_ind(),
                self.for_tag_names() == m.for_tag_names(),
                self.cur_nodes_start() == m.cur_nodes_start(),
                self.once() == m.once(),
                self.is_group_similar() == m.is_group_similar(),
                rel == grouped_rel(),
                a == m.nodes(),
                a.len() == self.nodes().len(),
                forall|j: int|
                    0 <= j < a.len() ==> if start <= j < i {
                        rel(a[j], #[trigger] self.nodes()[j]) && self.nodes()[j].param_groups@.len()
                            >= 1
                    } else {
                        self.nodes()[j] == a[j]
                    },
            decreases self.nodes().len() - i,
        {
            let ghost pre = *self;
            if self.nodes[i].param_groups.len() == 0 {
                self.nodes[i].param_groups.push(ParamGroup::new(GroupSimilar::Neither));
                proof {
                    let n0 = pre.nodes()[i as int];
                    let n1 = self.nodes()[i as int];
                    assert(n1.param_groups@.take(n0.param_groups@.len() as int) =~= n0.param_groups@);
                    assert(node_params_valid(n1, self.params().len() as int)) by {
                        assert forall|g: int, k: int|
                            #![trigger n1.param_groups@[g].params@[k]]
                            0 <= g < n1.param_groups@.len() && 0 <= k < n1.param_groups@[g].params@.len()
                            implies (n1.param_groups@[g].params@[k] matches Some(p) ==> p < self.params().len()) by {
                        }
                    }
                    Self::lemma_wf_one_node(&pre, &*self, i as int);
                }
            }
            proof {
                assert(rel(a[i as int], self.nodes()[i as int]));
                assert forall|j: int| 0 <= j < a.len() && j != i implies #[trigger] self.nodes()[j] == pre.nodes()[j] by {}
            }
            i = i + 1;
        }
        proof {
            assert(m.entry_ready(&*old(self)));
        }
    }

    /// Changes the last group of each current node as `e` says.
    fn edit_last_groups(&mut self, e: GroupEdit)
        requires
            old(self).wf(),
            forall|i: int|
                old(self).cur_nodes_start() <= i < old(self).nodes().len() ==> (
                #[trigger] old(self).nodes()[i]).param_groups@.len() >= 1,
            e matches GroupEdit::Param(Some(p), _, _) ==> p < old(self).params().len(),
        ensures
            final(self).changed_from(&*old(self), last_group_rel(edit_rel(e))),
            final(self).is_group_similar() == old(self).is_group_similar(),
    {
        let ghost rel = last_group_rel(edit_rel(e));
        let ghost a = old(self).nodes();
        let start = self.cur_nodes_start;
        let mut i = start;
        while i < self.nodes.len()
            invariant
                self.wf(),
                start == old(self).cur_nodes_start(),
                start <= i <= self.nodes().len(),
                self.branches() == old(self).branches(),
                self.params() == old(self).params(),
                self.cur_branch_ind() == old(self).cur_branch_ind(),
                self.for_tag_names() == old(self).for_tag_names(),
                self.cur_nodes_start() == old(self).cur_nodes_start(),
                self.once() == old(self).once(),
                self.is_group_similar() == old(self).is_group_similar(),
                e matches GroupEdit::Param(Some(p), _, _) ==> p < self.params().len(),
                rel == last_group_rel(edit_rel(e)),
                a == old(self).nodes(),
                a.len() == self.nodes().len(),
                forall|j: int| start <= j < a.len() ==> (#[trigger] a[j]).param_groups@.len() >= 1,
                forall|j: int|
                    0 <= j < a.len() ==> if start <= j < i {
                        rel(a[j], #[trigger] self.nodes()[j])
                    } else {
                        self.nodes()[j] == a[j]
                    },
            decreases self.nodes().len() - i,
        {
            let ghost pre = *self;
            assert(self.nodes()[i as int] == a[i as int]);
            let k = self.nodes[i].param_groups.len() - 1;
            match e {
                GroupEdit::Name(name) => {
                    self.nodes[i].param_groups[k].name = Some(str_to_string(name));
                },
                GroupEdit::Repeat => {
                    self.nodes[i].param_groups[k].repeat = true;
                },
                GroupEdit::Optional => {
                    self.nodes[i].param_groups[k].optional = true;
                },
                GroupEdit::ParamOptional => {
                    if self.nodes[i].param_groups[k].param_optional.is_none() {
                        let l = self.nodes[i].param_groups[k].params.len();
                        self.nodes[i].param_groups[k].param_optional = Some(l);
                    }
                },
                GroupEdit::Param(p, pl, pm) => {
                    self.nodes[i].param_groups[k].params.push(p);
                    self.nodes[i].param_groups[k].pattern_len = pl;
                    self.nodes[i].param_groups[k].patterns_num = pm;
                },
            }
            proof {
                let n0 = pre.nodes()[i as int];
                let n1 = self.nodes()[i as int];
                assert(n1.param_groups@.drop_last() =~= n0.param_groups@.drop_last());
                assert(n0.param_groups@.last() == n0.param_groups@[k as int]);
                assert(n1.param_groups@.last() == n1.param_groups@[k as int]);
                assert(node_params_valid(n0, pre.params().len() as int));
                assert(node_params_valid(n1, self.params().len() as int)) by {
                    assert forall|g: int, k2: int|
                        #![trigger n1.param_groups@[g].params@[k2]]
                        0 <= g < n1.param_groups@.len() && 0 <= k2 < n1.param_groups@[g].params@.len()
                        implies (n1.param_groups@[g].params@[k2] matches Some(p) ==> p < self.params().len()) by {
                        if g != k {
                            assert(n1.param_groups@[g] == n0.param_groups@[g]);
                        } else if k2 < n0.param_groups@[g].params@.len() {
                            assert(n1.param_groups@[g].params@[k2] == n0.param_groups@[g].params@[k2]);
                        }
                    }
                }
                Self::lemma_wf_one_node(&pre, &*self, i as int);
                assert(rel(a[i as int], self.nodes()[i as int]));
                assert forall|j: int| 0 <= j < a.len() && j != i implies #[trigger] self.nodes()[j] == pre.nodes()[j] by {}
            }
            i = i + 1;
        }
    }

    /// Names the last group of the current nodes.
    pub fn glabel(self, name: &str) -> (d: Self)
        requires
            self.wf(),
        ensures
            exists|m: Def<F>|
                #[trigger] m.group_ready(&self) && d.changed_from(&m, last_group_rel(name_rel(name@))),
            d.is_group_similar() == self.is_group_similar(),
    {
        let mut this = self;
        this.init_group();
        let ghost m = this;
        this.edit_last_groups(GroupEdit::Name(name));
        proof {
            assert(m.group_ready(&self));
        }
        this
    }

    /// Lets the last group of the current nodes take its parameters several times over.
    pub fn grepeat(self) -> (d: Self)
        requires
            self.wf(),
        ensures
            exists|m: Def<F>| #[trigger] m.group_ready(&self) && d.changed_from(&m, last_group_rel(repeat_rel())),
            d.is_group_similar() == self.is_group_similar(),
    {
        let mut this = self;
        this.init_group();
        let ghost m = this;
        this.edit_last_groups(GroupEdit::Repeat);
        proof {
            assert(m.group_ready(&self));
        }
        this
    }

    /// Lets the last group of the current nodes be left out.
    pub fn goptional(self) -> (d: Self)
        requires
            self.wf(),
        ensures
            exists|m: Def<F>| #[trigger] m.group_ready(&self) && d.changed_from(&m, last_group_rel(optional_rel())),
            d.is_group_similar() == self.is_group_similar(),
    {
        let mut this = self;
        this.init_group();
        let ghost m = this;
        this.edit_last_groups(GroupEdit::Optional);
        proof {
            assert(m.group_ready(&self));
        }
        this
    }

    /// Lets the parameters added from now on to the last group be left out.
    pub fn param_optional(self) -> (d: Self)
        requires
            self.wf(),
        ensures
            exists|m: Def<F>|
                #[trigger] m.group_ready(&self) && d.changed_from(&m, last_group_rel(param_optional_rel())),
            d.is_group_similar() == self.is_group_similar(),
    {
        let mut this = self;
        this.init_group();
        let ghost m = this;
        this.edit_last_groups(GroupEdit::ParamOptional);
        proof {
            assert(m.group_ready(&self));
        }
        this
    }

    /// The shortest repeating pattern of the kinds of the last group of the
    /// last node with a parameter of kind `kind` added; none unless groups share.
    fn inner_param_pattern(&self, kind: Option<u64>) -> (r: (usize, usize))
        requires
            self.wf(),
            self.nodes().len() >= 1,
            self.nodes().last().param_groups@.len() >= 1,
        ensures
            r.0 as int == self.next_pattern(kind).0,
            r.1 as int == self.next_pattern(kind).1,
    {
        if !self.is_group_similar {
            return (0, 0);
        }
        let ni = self.nodes.len() - 1;
        let gi = self.nodes[ni].param_groups.len() - 1;
        let ghost g = self.nodes().last().param_groups@.last();
        let mut kinds: Vec<Option<u64>> = Vec::new();
        let mut k: usize = 0;
        proof {
            assert(self.nodes()[ni as int] == self.nodes().last());
            assert(node_params_valid(self.nodes()[ni as int], self.params().len() as int));
        }
        while k < self.nodes[ni].param_groups[gi].params.len()
            invariant
                self.wf(),
                ni == self.nodes().len() - 1,
                gi == self.nodes().last().param_groups@.len() - 1,
                g == self.nodes()[ni as int].param_groups@[gi as int],
                node_params_valid(self.nodes()[ni as int], self.params().len() as int),
                k <= g.params@.len(),
                kinds@ == self.group_kinds(g).take(k as int),
            decreases g.params@.len() - k,
        {
            let kd = match self.nodes[ni].param_groups[gi].params[k] {
                Some(p) => Some(self.params[p].0),
                None => None,
            };
            kinds.push(kd);
            k = k + 1;
            proof {
                assert(kinds@ =~= self.group_kinds(g).take(k as int));
            }
        }
        kinds.push(kind);
        proof {
            assert(self.group_kinds(g).take(k as int) =~= self.group_kinds(g));
        }
        find_pattern(&kinds)
    }

    /// Adds a parameter, any value or one read by a parser, to the last group
    /// of each current node, making sure each has a group.
    fn inner_add_param_item(&mut self, item: Option<(u64, F)>)
        requires
            old(self).wf(),
        ensures
            exists|m: Def<F>|
                #[trigger] m.group_ready(&*old(self)) && final(self).changed_from_with(
                    &m,
                    last_group_rel(
                        param_added_rel(
                            match item {
                                Some(_) => Some(m.params().len() as usize),
                                None => None,
                            },
                            m.next_pattern(
                                match item {
                                    Some(x) => Some(x.0),
                                    None => None,
                                },
                            ).0,
                            m.next_pattern(
                                match item {
                                    Some(x) => Some(x.0),
                                    None => None,
                                },
                            ).1,
                        ),
                    ),
                    match item {
                        Some(x) => m.params().push(x),
                        None => m.params(),
                    },
                ),
            final(self).is_group_similar() == old(self).is_group_similar(),
    {
        self.init_group();
        let ghost m = *self;
        let kind = match &item {
            Some(x) => Some(x.0),
            None => None,
        };
        proof {
            assert(self.nodes()[self.nodes().len() - 1] == self.nodes().last());
        }
        let (pl, pm) = self.inner_param_pattern(kind);
        let ind = match item {
            Some(x) => {
                let n = self.params.len();
                self.params.push(x);
                proof {
                    assert forall|i: int| 0 <= i < self.nodes().len() implies node_params_valid(
                        #[trigger] self.nodes()[i],
                        self.params().len() as int,
                    ) by {
                        assert(node_params_valid(m.nodes()[i], m.params().len() as int));
                    }
                }
                Some(n)
            },
            None => None,
        };
        let ghost mid = *self;
        self.edit_last_groups(GroupEdit::Param(ind, pl, pm));
        proof {
            assert(m.group_ready(&*old(self)));
        }
    }

    /// Adds a parameter that takes any value.
    pub fn param_any(self) -> (d: Self)
        requires
            self.wf(),
        ensures
            exists|m: Def<F>|
                #[trigger] m.group_ready(&self) && d.changed_from_with(
                    &m,
                    last_group_rel(param_added_rel(None, m.next_pattern(None).0, m.next_pattern(None).1)),
                    m.params(),
                ),
            d.is_group_similar() == self.is_group_similar(),
    {
        let mut this = self;
        this.inner_add_param_item(None);
        this
    }

    /// Adds a parameter read by `func`, which gives values of the type with key `type_key`.
    pub fn param_func(self, type_key: u64, func: F) -> (d: Self)
        requires
            self.wf(),
        ensures
            exists|m: Def<F>|
                #[trigger] m.group_ready(&self) && d.changed_from_with(
                    &m,
                    last_group_rel(
                        param_added_rel(
                            Some(m.params().len() as usize),
                            m.next_pattern(Some(type_key)).0,
                            m.next_pattern(Some(type_key)).1,
                        ),
                    ),
                    m.params().push((type_key, func)),
                ),
            d.is_group_similar() == self.is_group_similar(),
    {
        let mut this = self;
        this.inner_add_param_item(Some((type_key, func)));
        this
    }
}

/// A change to the last group of each current node.
pub enum GroupEdit<'s> {
    Name(&'s str),
    Repeat,
    Optional,
    ParamOptional,
    /// Adds a parameter, with the group's new pattern length and count.
    Param(Option<usize>, usize, usize),
}

/// What a group edit does to a group.
pub open spec fn edit_rel(e: GroupEdit) -> spec_fn(ParamGroup, ParamGroup) -> bool {
    match e {
        GroupEdit::Name(n) => name_rel(n@),
        GroupEdit::Repeat => repeat_rel(),
        GroupEdit::Optional => optional_rel(),
        GroupEdit::ParamOptional => param_optional_rel(),
        GroupEdit::Param(p, pl, pm) => param_added_rel(p, pl as int, pm as int),
    }
}

/// Whether two optional type keys are equal.
fn opt_key_eq(a: Option<u64>, b: Option<u64>) -> (r: bool)
    ensures
        r == (a == b),
{
    match (a, b) {
        (Some(x), Some(y)) => x == y,
        (None, None) => true,
        _ => false,
    }
}

/// Whether block `x` of length `i` of the kinds equals the first block.
fn block_equal(t: &Vec<Option<u64>>, i: usize, x: usize) -> (r: bool)
    requires
        1 <= i,
        1 <= x,
        x * i + i <= t@.len(),
    ensures
        r == forall|y: int| 0 <= y < i ==> #[trigger] same_in_block(t@, i as int, x as int, y),
{
    let len = t.len();
    proof {
        assert(x * i <= len);
    }
    let base = x * i;
    let mut y: usize = 0;
    while y < i
        invariant
            base == x * i,
            len == t@.len(),
            base + i <= t@.len(),
            y <= i,
            forall|y2: int| 0 <= y2 < y ==> #[trigger] same_in_block(t@, i as int, x as int, y2),
        decreases i - y,
    {
        if !opt_key_eq(t[base + y], t[y]) {
            proof {
                assert(!same_in_block(t@, i as int, x as int, y as int));
            }
            return false;
        }
        y = y + 1;
    }
    true
}

/// The shortest repeating pattern of the kinds, as `pattern_of` gives it.
fn find_pattern(t: &Vec<Option<u64>>) -> (r: (usize, usize))
    requires
        1 <= t@.len(),
    ensures
        r.0 as int == pattern_of(t@).0,
        r.1 as int == pattern_of(t@).1,
{
    let n = t.len();
    let mut i: usize = 1;
    while i < n
        invariant
            1 <= i <= n,
            n == t@.len(),
            pattern_of(t@) == pattern_from(t@, i as int),
        decreases n - i,
    {
        if n % i == 0 {
            let q = n / i;
            proof {
                vstd::arithmetic::div_mod::lemma_fundamental_div_mod(n as int, i as int);
                assert(q * i == n) by (nonlinear_arith)
                    requires
                        n as int == i * (n as int / i as int) + (n as int % i as int),
                        n as int % i as int == 0,
                        q == n / i,
                ;
                assert(q >= 1) by (nonlinear_arith)
                    requires
                        q * i == n,
                        n > i,
                        i >= 1,
                ;
            }
            let mut ok = true;
            let mut x: usize = 1;
            while x < q && ok
                invariant
                    1 <= i < n,
                    n == t@.len(),
                    q == n / i,
                    q * i == n,
                    (n as int) % (i as int) == 0,
                    1 <= x <= q,
                    ok ==> forall|x2: int, y: int|
                        1 <= x2 < x && 0 <= y < i ==> #[trigger] same_in_block(t@, i as int, x2, y),
                    !ok ==> !block_repeats(t@, i as int),
                decreases q - x,
            {
                proof {
                    assert((x + 1) * i <= q * i) by (nonlinear_arith)
                        requires
                            x + 1 <= q,
                    ;
                    assert(x * i + i == (x + 1) * i) by (nonlinear_arith);
                }
                if !block_equal(t, i, x) {
                    ok = false;
                }
                x = x + 1;
            }
            if ok {
                proof {
                    assert(block_repeats(t@, i as int));
                }
                return (i, q);
            } else {
                proof {
                    assert(!block_repeats(t@, i as int));
                }
            }
        }
        i = i + 1;
    }
    (n, 1)
}

} // verus!
