use vstd::prelude::*;

use crate::def::Def;
use crate::def::node::{GroupSimilar, ParamGroup};
use crate::def::opt_str_view;
use crate::def::container::node::opt_slice_view;
use crate::def::container::node::NodeContainer;
use crate::def::container::param_group::ParamGroupContainer;
use crate::conf::Value;
use super::greedy::{Take, Reading, take_group, stop_at, read_groups, memo_ext, plain_groups, may_share, lemma_ext_refl, lemma_ext_trans, lemma_ext_noted, lemma_attempt_noted};

verus! {

/// Every parser of the definition can be called on every text.
pub open spec fn parsers_total<F, P>(d: Def<F>) -> bool
    where
        F: Fn(&str) -> Option<P>,
{
    forall|i: int, s: &str| 0 <= i < d.params().len() ==> #[trigger] d.params()[i].1.requires((s,))
}

/// A parameter group as matched against a record: the group of the node, the
/// record's values it took (by position among the record's values), and the
/// group's settings.
pub struct MatchedGroup<'a> {
    pub group_ind: usize,
    pub start: usize,
    pub end: usize,
    pub name: Option<&'a str>,
    pub params_num: usize,
    pub optional: bool,
    pub repeat: bool,
}

/// The outcome of matching a record against a node: the node's groups as
/// they took the values, no match, or a definition whose groups cannot be
/// matched (a group that repeats no parameters, or a shared pattern of no
/// parameters).
pub enum MatchOutcome<'a> {
    Matched(Vec<MatchedGroup<'a>>),
    Failed,
    Broken,
}

/// Each matched group names a group of the node and a run of the `n` values.
pub open spec fn groups_in(gs: Seq<MatchedGroup>, n: int, groups_num: int) -> bool {
    forall|k: int|
        0 <= k < gs.len() ==> (#[trigger] gs[k]).start <= gs[k].end <= n && gs[k].group_ind
            < groups_num
}

/// Where the values taken by a matched group end, after values up to `pos`
/// were taken: a group takes a run of values from `pos` on, or is left out
/// (an empty run at 0); -1 if it does neither.
pub open spec fn next_pos(g: MatchedGroup, pos: int) -> int {
    if pos < 0 {
        -1
    } else if g.start == pos && pos <= g.end {
        g.end as int
    } else if g.start == 0 && g.end == 0 {
        pos
    } else {
        -1
    }
}

/// Where the values taken by the matched groups `gs`, in turn, end, from `start`.
pub open spec fn runs_end(gs: Seq<MatchedGroup>, start: int) -> int
    decreases gs.len(),
{
    if gs.len() == 0 {
        start
    } else {
        next_pos(gs.last(), runs_end(gs.drop_last(), start))
    }
}

/// A matched group carries the settings of the group `g` of the node.
pub open spec fn matched_as(m: MatchedGroup, g: ParamGroup) -> bool {
    &&& m.params_num == g.params@.len()
    &&& m.optional == g.optional
    &&& m.repeat == g.repeat
    &&& opt_slice_view(m.name) == opt_str_view(g.name)
}

/// The matched groups are the groups of the node, in order, each with its
/// settings, taking runs of the values one after another from `start` to `n`.
pub open spec fn matched_node(gs: Seq<MatchedGroup>, groups: Seq<ParamGroup>, start: int, n: int) -> bool {
    &&& gs.len() == groups.len()
    &&& forall|k: int| 0 <= k < gs.len() ==> (#[trigger] gs[k]).group_ind == k && matched_as(gs[k], groups[k])
    &&& runs_end(gs, start) == n
}

/// The memo of parse attempts for the values of a record: for each value,
/// each type key tried with what the parser gave.
pub type Memo<P> = Vec<Vec<(u64, Option<P>)>>;

/// `r` is what a parser of `d` with the type key `key` gives for a text whose view is `text`.
pub open spec fn made_by<F, P>(d: Def<F>, key: u64, text: Seq<char>, r: Option<P>) -> bool
    where
        F: Fn(&str) -> Option<P>,
{
    exists|pi: int, s: &str|
        0 <= pi < d.params().len() && d.params()[pi].0 == key && s@ == text && #[trigger] d.params()[pi].1.ensures((s,), r)
}

/// Each parse noted for a value whose text is `text` is what a parser of its
/// type key gives for that text.
pub open spec fn row_ok<F, P>(d: Def<F>, row: Seq<(u64, Option<P>)>, text: Seq<char>) -> bool
    where
        F: Fn(&str) -> Option<P>,
{
    forall|j: int| 0 <= j < row.len() ==> #[trigger] made_by(d, row[j].0, text, row[j].1)
}

/// The parses noted for each value of a record (the texts `val_texts` index)
/// are what parsers of their type keys give for the value's text.
pub open spec fn memo_ok<F, P>(d: Def<F>, memo: Seq<Vec<(u64, Option<P>)>>, texts: Seq<String>, val_texts: Seq<usize>) -> bool
    where
        F: Fn(&str) -> Option<P>,
{
    forall|i: int| 0 <= i < memo.len() ==> #[trigger] row_ok(d, memo[i]@, texts[val_texts[i] as int]@)
}

/// A parse that gave `p` is noted in `row`.
pub open spec fn noted<P>(row: Seq<(u64, Option<P>)>, p: P) -> bool {
    exists|j: int| 0 <= j < row.len() && (#[trigger] row[j]).1 == Some(p)
}

/// Noting parses for one value keeps the parses noted right.
proof fn lemma_memo_set<F, P>(d: Def<F>, m0: Seq<Vec<(u64, Option<P>)>>, m1: Seq<Vec<(u64, Option<P>)>>, texts: Seq<String>, val_texts: Seq<usize>, i: int)
    where
        F: Fn(&str) -> Option<P>,
    requires
        memo_ok(d, m0, texts, val_texts),
        0 <= i < m0.len(),
        m1.len() == m0.len(),
        forall|k: int| 0 <= k < m0.len() && k != i ==> #[trigger] m1[k] == m0[k],
        row_ok(d, m1[i]@, texts[val_texts[i] as int]@),
    ensures
        memo_ok(d, m1, texts, val_texts),
{
    assert forall|k: int| 0 <= k < m1.len() implies #[trigger] row_ok(d, m1[k]@, texts[val_texts[k] as int]@) by {
        if k != i {
            assert(m1[k] == m0[k]);
        }
    }
}

/// Entry `j` is the first of `row` noted for the type key `key`.
pub open spec fn first_at<P>(row: Seq<(u64, Option<P>)>, key: u64, j: int) -> bool {
    &&& 0 <= j < row.len()
    &&& row[j].0 == key
    &&& forall|k: int| 0 <= k < j ==> (#[trigger] row[k]).0 != key
}

/// No entry of `row` is noted for the type key `key`.
pub open spec fn unnoted<P>(row: Seq<(u64, Option<P>)>, key: u64) -> bool {
    forall|k: int| 0 <= k < row.len() ==> (#[trigger] row[k]).0 != key
}

/// The type key of parameter `k` of group `g` of definition `d`: that of its
/// parser, or `None` for a parameter that takes any value or past the last one.
pub open spec fn key_of<F>(d: Def<F>, g: ParamGroup, k: int) -> Option<u64> {
    if 0 <= k < g.params@.len() {
        match g.params@[k] {
            Some(p) => Some(d.params()[p as int].0),
            None => None,
        }
    } else {
        None
    }
}

/// Where a record's values that parameters take begin: after the tag, if
/// the node has one.
pub open spec fn vals_off(has_tag: bool) -> int {
    if has_tag {
        1
    } else {
        0
    }
}

/// Node `ind` of `d` is no definition that cannot be matched against a record
/// of `n` values: where it has a single group, the fit of its values (those
/// after the tag) to that group is known; where it has no groups, there are no
/// values after the tag.
pub open spec fn not_broken<F>(d: Def<F>, ind: int, n: int) -> bool {
    &&& d.nodes()[ind].param_groups@.len() == 1 ==> single_fit(d.nodes()[ind].param_groups@[0], n - vals_off(d.nodes()[ind].has_tag)) is Some
    &&& d.nodes()[ind].param_groups@.len() == 0 ==> n <= vals_off(d.nodes()[ind].has_tag)
}

/// A group that may be left out of a record: it is optional, or all of its
/// parameters may be left out.
pub open spec fn may_skip(g: ParamGroup) -> bool {
    g.optional || g.param_optional == Some(0usize)
}

/// A group that deals out the values fitting its pattern with the adjacent
/// groups of the same pattern, rather than taking them on its own.
pub open spec fn shares_pattern(g: ParamGroup) -> bool {
    g.similar != GroupSimilar::Neither && g.param_optional is None
}

/// A run of `len` values is group `g`'s parameters taken whole `m` times (at
/// most once unless the group repeats), then `r` more of them: from its
/// optional point on, or, where the run reaches the last of the record's
/// values (`at_end`), as many as there were; a run of none only for a group
/// that may be left out.
pub open spec fn taken_as(g: ParamGroup, len: int, at_end: bool, m: int, r: int) -> bool {
    let pn = g.params@.len() as int;
    &&& 0 <= m
    &&& len == m * pn + r
    &&& g.repeat || m == 0 || (m == 1 && r == 0)
    &&& r == 0 || (0 < r < pn && (at_end || (g.param_optional matches Some(po) && po <= r)))
    &&& m == 0 && r == 0 ==> may_skip(g)
}

/// A run of `len` values fits group `g` taken on its own (`at_end`: the run
/// reaches the last of the record's values).
pub open spec fn run_fits(g: ParamGroup, len: int, at_end: bool) -> bool {
    exists|m: int, r: int| #[trigger] taken_as(g, len, at_end, m, r)
}

/// The run of matched group `mg`, among a record's `n` values, fits its group
/// `g`, unless `g` deals out its values with adjacent groups of its pattern.
pub open spec fn run_ok(g: ParamGroup, mg: MatchedGroup, n: int) -> bool {
    shares_pattern(g) || run_fits(g, mg.end - mg.start, mg.end == n)
}

/// Where the values of matched group `gi` begin among the record's values,
/// the runs of the groups before it taken one after another from `off`.
pub open spec fn run_at(gs: Seq<MatchedGroup>, off: int, gi: int) -> int
    decreases gi,
{
    if gi <= 0 {
        off
    } else {
        run_at(gs, off, gi - 1) + (gs[gi - 1].end - gs[gi - 1].start)
    }
}

/// Later groups begin no earlier.
pub proof fn lemma_run_at_mono(gs: Seq<MatchedGroup>, off: int, a: int, b: int)
    requires
        0 <= a <= b <= gs.len(),
        forall|k: int| 0 <= k < gs.len() ==> (#[trigger] gs[k]).start <= gs[k].end,
    ensures
        run_at(gs, off, a) <= run_at(gs, off, b),
        run_at(gs, off, b) >= off,
    decreases b,
{
    if b > 0 {
        assert(gs[b - 1].start <= gs[b - 1].end);
        if a < b {
            lemma_run_at_mono(gs, off, a, b - 1);
        } else {
            lemma_run_at_mono(gs, off, 0, b - 1);
        }
    }
}

/// Value `i` of matched group `gi` (of the node's `groups`) can be given its
/// parse: its group has parameters, it is one of the record's `n` values, and
/// where its parameter's parser has a type key, the first parse noted for that
/// key in `memo` succeeded.
pub open spec fn storable_at<F, P>(d: Def<F>, groups: Seq<ParamGroup>, gs: Seq<MatchedGroup>, memo: Seq<Vec<(u64, Option<P>)>>, off: int, n: int, gi: int, i: int) -> bool {
    let g = groups[gs[gi].group_ind as int];
    let pos = run_at(gs, off, gi) + i;
    &&& g.params@.len() > 0
    &&& pos < n
    &&& (key_of(d, g, i % (g.params@.len() as int)) matches Some(key) ==> exists|j: int|
        first_at(memo[pos]@, key, j) && (#[trigger] memo[pos]@[j]).1 is Some)
}

/// Value `i` of matched group `gi` was given its parse: where its parameter's
/// parser has a type key, the value (at `base` plus its place among the
/// record's values) names the entry of `parsed` that the first parse noted
/// for that key in `memo` gave.
pub open spec fn stored_at<F, P>(d: Def<F>, groups: Seq<ParamGroup>, gs: Seq<MatchedGroup>, memo: Seq<Vec<(u64, Option<P>)>>, off: int, base: int, values: Seq<Value>, parsed: Seq<P>, gi: int, i: int) -> bool {
    let g = groups[gs[gi].group_ind as int];
    let pos = run_at(gs, off, gi) + i;
    key_of(d, g, i % (g.params@.len() as int)) matches Some(key) ==> exists|j: int|
        #![trigger memo[pos]@[j]]
        first_at(memo[pos]@, key, j) && (values[base + pos].parsed_ind matches Some(k) && 0 <= k < parsed.len() && memo[pos]@[j].1 == Some(parsed[k as int]))
}

/// Value `i2` of matched group `gi2` comes before value `i` of group `gi`.
pub open spec fn done_before(gs: Seq<MatchedGroup>, gi2: int, i2: int, gi: int, i: int) -> bool {
    ||| 0 <= gi2 < gi && 0 <= i2 < gs[gi2].end - gs[gi2].start
    ||| gi2 == gi && 0 <= i2 < i
}

/// Giving the value at `base + pos` its parse, where `pos` is that of value `i`
/// of group `gi`, and adding parses, keeps the parses given to earlier values.
pub proof fn lemma_stored_frame<F, P>(d: Def<F>, groups: Seq<ParamGroup>, gs: Seq<MatchedGroup>, memo: Seq<Vec<(u64, Option<P>)>>, off: int, base: int, v0: Seq<Value>, p0: Seq<P>, v1: Seq<Value>, p1: Seq<P>, gi: int, i: int)
    requires
        0 <= gi < gs.len(),
        0 <= i,
        0 <= off,
        0 <= base,
        forall|k: int| 0 <= k < gs.len() ==> (#[trigger] gs[k]).start <= gs[k].end,
        v1.len() == v0.len(),
        forall|q: int| 0 <= q < v0.len() && q != base + run_at(gs, off, gi) + i ==> #[trigger] v1[q] == v0[q],
        p1.len() >= p0.len(),
        forall|k: int| 0 <= k < p0.len() ==> #[trigger] p1[k] == p0[k],
        forall|gi2: int, i2: int| #[trigger] done_before(gs, gi2, i2, gi, i) ==> stored_at(d, groups, gs, memo, off, base, v0, p0, gi2, i2),
        forall|gi2: int, i2: int| #[trigger] done_before(gs, gi2, i2, gi, i) ==> base + run_at(gs, off, gi2) + i2 < v0.len(),
    ensures
        forall|gi2: int, i2: int| #[trigger] done_before(gs, gi2, i2, gi, i) ==> stored_at(d, groups, gs, memo, off, base, v1, p1, gi2, i2),
{
    assert forall|gi2: int, i2: int| #[trigger] done_before(gs, gi2, i2, gi, i) implies stored_at(d, groups, gs, memo, off, base, v1, p1, gi2, i2) by {
        assert(stored_at(d, groups, gs, memo, off, base, v0, p0, gi2, i2));
        lemma_run_at_mono(gs, off, gi2, gi2);
        if gi2 < gi {
            lemma_run_at_mono(gs, off, gi2 + 1, gi);
        }
        let pos = run_at(gs, off, gi2) + i2;
        assert(pos < run_at(gs, off, gi) + i);
        assert(v1[base + pos] == v0[base + pos]);
        if let Some(k) = v0[base + pos].parsed_ind {
            if 0 <= k < p0.len() {
                assert(p1[k as int] == p0[k as int]);
            }
        }
    }
}

/// Whether value `i`'s text, read as parameter `param_ind` of `g`, parses;
/// tries the parser only if no parser of type key `key` was tried on it before.
/// Where one was, the answer is what the first parse noted for `key` gave, and
/// nothing changes; else the parser's result is noted for `key`, last.
fn attempt<'a, F, P>(g: ParamGroupContainer<'a, F>, param_ind: usize, key: u64, text: &str, memo: &mut Vec<(u64, Option<P>)>) -> (found: bool)
    where
        F: Fn(&str) -> Option<P>,
    requires
        g.valid(),
        parsers_total::<F, P>(g.def_view()),
        g.kind(param_ind as int) == Some(key),
        row_ok(g.def_view(), old(memo)@, text@),
    ensures
        row_ok(g.def_view(), final(memo)@, text@),
        forall|j: int| first_at(old(memo)@, key, j) ==> final(memo)@ == old(memo)@ && found == (old(memo)@[j].1 is Some),
        unnoted(old(memo)@, key) ==> {
            &&& final(memo)@ == old(memo)@.push((key, final(memo)@.last().1))
            &&& found == (final(memo)@.last().1 is Some)
            &&& g.parser(param_ind as int) matches Some(f) && f.ensures((text,), final(memo)@.last().1)
        },
        !found ==> exists|j: int| 0 <= j < final(memo)@.len() && (#[trigger] final(memo)@[j]).0 == key && final(memo)@[j].1 is None,
        found ==> exists|j: int| first_at(final(memo)@, key, j) && (#[trigger] final(memo)@[j]).1 is Some,
{
    let mut j: usize = 0;
    while j < memo.len()
        invariant
            j <= memo@.len(),
            memo@ == old(memo)@,
            row_ok(g.def_view(), memo@, text@),
            forall|k: int| 0 <= k < j ==> (#[trigger] memo@[k]).0 != key,
        decreases memo@.len() - j,
    {
        if memo[j].0 == key {
            proof {
                assert(first_at(memo@, key, j as int));
                assert forall|j2: int| first_at(old(memo)@, key, j2) implies j2 == j by {
                    if j2 < j {
                        assert(memo@[j2].0 != key);
                    } else if j2 > j {
                        assert(old(memo)@[j as int].0 != key);
                    }
                }
            }
            return memo[j].1.is_some();
        }
        j = j + 1;
    }
    proof {
        if let Some(f) = g.parser(param_ind as int) {
            let p = g.spec_group().params@[param_ind as int]->0;
            assert(crate::def::node_params_valid(g.def_view().nodes()[g.node()], g.def_view().params().len() as int));
            assert(g.def_view().nodes()[g.node()].param_groups@[g.group()].params@[param_ind as int] matches Some(q) ==> q < g.def_view().params().len());
            assert(g.def_view().params()[p as int].1.requires((text,)));
        }
    }
    let v = g.param_parse(param_ind, text);
    let found = v.is_some();
    let ghost m0 = memo@;
    memo.push((key, v));
    proof {
        assert forall|j2: int| first_at(old(memo)@, key, j2) implies false by {
            assert(old(memo)@[j2].0 != key);
        }
        let p = g.spec_group().params@[param_ind as int]->0 as int;
        assert(g.parser(param_ind as int) == Some(g.def_view().params()[p].1));
    }
    proof {
        let p = g.spec_group().params@[param_ind as int]->0 as int;
        assert(g.def_view().params()[p].1.ensures((text,), v));
        assert(made_by(g.def_view(), key, text@, v));
        assert forall|j: int| 0 <= j < memo@.len() implies #[trigger] made_by(g.def_view(), memo@[j].0, text@, memo@[j].1) by {
            if j < m0.len() {
                assert(memo@[j] == m0[j]);
            }
        }
    }
    found
}

/// Group `k` of a node.
pub(crate) fn group_at<'a, F>(node: NodeContainer<'a, F>, k: usize) -> (g: ParamGroupContainer<'a, F>)
    requires
        node.valid(),
        k < node.def_view().nodes()[node.ind()].param_groups@.len(),
    ensures
        g.valid(),
        g.def_view() == node.def_view(),
        g.node() == node.ind(),
        g.group() == k,
{
    match node.param_group(k) {
        Some(g) => g,
        None => {
            proof {
                assert(false);
            }
            ParamGroupContainer { def: node.def, node_ind: node.node_ind, param_group_ind: k }
        },
    }
}

/// Whether `vals_num` values fit a single group `g`: as many as its parameters;
/// none for an optional group; a multiple of them for a repeating one; else,
/// for a repeating group or fewer values than parameters, whether the values
/// past whole repeats reach its optional point. `None` where that needs a
/// group of no parameters.
pub open spec fn single_fit(g: ParamGroup, vals_num: int) -> Option<bool> {
    let params_num = g.params@.len() as int;
    let param_optional = match g.param_optional {
        Some(x) => x as int,
        None => params_num,
    };
    if vals_num == params_num {
        Some(true)
    } else if g.optional && vals_num == 0 {
        Some(true)
    } else if g.repeat && params_num != 0 && vals_num != 0 && vals_num % params_num == 0 {
        Some(true)
    } else if g.repeat || vals_num < params_num {
        if params_num == 0 {
            None
        } else {
            Some(vals_num % params_num >= param_optional)
        }
    } else {
        Some(false)
    }
}

/// A node of one group fits `n` values exactly when they are the group's
/// parameters whole, once or, if it repeats, again and again, followed by some
/// of its parameters from its optional point on; and no values only where the
/// group may be left out (see `taken_as`, with no leave for values that ran
/// out).
pub proof fn law_single_fit_runs(g: ParamGroup, n: int)
    requires
        g.params@.len() > 0,
        n >= 0,
    ensures
        single_fit(g, n) == Some(true) <==> run_fits(g, n, false),
{
    let pn = g.params@.len() as int;
    vstd::arithmetic::div_mod::lemma_fundamental_div_mod(n, pn);
    vstd::arithmetic::div_mod::lemma_mod_pos_bound(n, pn);
    let m = n / pn;
    let r = n % pn;
    assert(n == m * pn + r) by (nonlinear_arith)
        requires
            n == pn * (n / pn) + (n % pn),
            m == n / pn,
            r == n % pn,
    ;
    assert(m >= 0) by (nonlinear_arith)
        requires
            n >= 0,
            pn > 0,
            m == n / pn,
    ;
    if single_fit(g, n) == Some(true) {
        if n == pn {
            assert(1 * pn + 0 == n) by (nonlinear_arith)
                requires
                    n == pn,
            ;
            assert(taken_as(g, n, false, 1, 0));
        } else if g.optional && n == 0 {
            assert(taken_as(g, n, false, 0, 0));
        } else {
            if !g.repeat {
                assert(n < pn);
                vstd::arithmetic::div_mod::lemma_small_mod(n as nat, pn as nat);
                vstd::arithmetic::div_mod::lemma_fundamental_div_mod_converse(n, pn, 0, n);
            }
            assert(taken_as(g, n, false, m, r));
        }
    }
    if run_fits(g, n, false) {
        let (m2, r2) = choose|m2: int, r2: int| #[trigger] taken_as(g, n, false, m2, r2);
        assert(0 <= r2 < pn);
        vstd::arithmetic::div_mod::lemma_fundamental_div_mod_converse(n, pn, m2, r2);
        assert(m2 == m && r2 == r);
        if r == 0 && m == 1 {
            assert(n == pn) by (nonlinear_arith)
                requires
                    n == m * pn + r,
                    r == 0,
                    m == 1,
            ;
        } else if !g.repeat && m == 0 {
            assert(n == r);
        } else if m == 0 && r == 0 {
            assert(n == 0) by (nonlinear_arith)
                requires
                    n == m * pn + r,
                    r == 0,
                    m == 0,
            ;
        } else if r == 0 {
            assert(n != 0) by (nonlinear_arith)
                requires
                    n == m * pn + r,
                    r == 0,
                    m > 0,
                    pn > 0,
            ;
        }
    }
}

/// The first parse noted for the type key `key` for value `i` succeeded.
pub open spec fn first_parsed<P>(memo: Seq<Vec<(u64, Option<P>)>>, i: int, key: u64) -> bool {
    exists|j: int| first_at(memo[i]@, key, j) && (#[trigger] memo[i]@[j]).1 is Some
}

/// Each value from `start` up to `end` whose parameter in the single group
/// `g` (its place from `start` modulo the number of parameters) has a parser
/// got a successful first parse for that parser's type key.
pub open spec fn single_parsed<F, P>(d: Def<F>, g: ParamGroup, start: int, end: int, memo: Seq<Vec<(u64, Option<P>)>>) -> bool {
    forall|i: int|
        #![trigger memo[i]]
        start <= i < end ==> (key_of(d, g, (i - start) % (g.params@.len() as int)) matches Some(key) ==> first_parsed(memo, i, key))
}

/// Each matched group took values that got the parses its parameters need
/// (see `single_parsed`), and a group that took values has parameters.
#[verifier::opaque]
pub open spec fn groups_parsed<F, P>(d: Def<F>, groups: Seq<ParamGroup>, gs: Seq<MatchedGroup>, memo: Seq<Vec<(u64, Option<P>)>>) -> bool {
    forall|k: int|
        0 <= k < gs.len() ==> #[trigger] single_parsed(d, groups[k], gs[k].start as int, gs[k].end as int, memo) && (gs[k].start
            < gs[k].end ==> groups[k].params@.len() > 0)
}

/// Where a run begins, over a sequence with its last group dropped, is where
/// it begins over the whole.
pub proof fn lemma_run_at_prefix(gs: Seq<MatchedGroup>, off: int, gi: int)
    requires
        0 <= gi < gs.len(),
    ensures
        run_at(gs, off, gi) == run_at(gs.drop_last(), off, gi),
    decreases gi,
{
    if gi > 0 {
        lemma_run_at_prefix(gs, off, gi - 1);
        assert(gs.drop_last()[gi - 1] == gs[gi - 1]);
    }
}

/// Matched groups whose runs follow one another from `off` end where their
/// runs, added up, end; and each group that took values begins where the
/// groups before it left off.
pub proof fn lemma_runs_start(gs: Seq<MatchedGroup>, off: int)
    requires
        runs_end(gs, off) >= 0,
        off >= 0,
    ensures
        runs_end(gs, off) == run_at(gs, off, gs.len() as int),
        forall|gi: int| 0 <= gi < gs.len() && #[trigger] gs[gi].start != gs[gi].end ==> gs[gi].start == run_at(gs, off, gi),
    decreases gs.len(),
{
    if gs.len() > 0 {
        let last = gs.len() - 1;
        let pos = runs_end(gs.drop_last(), off);
        assert(pos >= 0);
        lemma_runs_start(gs.drop_last(), off);
        assert(gs.last() == gs[last]);
        assert(gs.drop_last().len() == last);
        assert forall|gi: int| 0 <= gi < gs.len() && #[trigger] gs[gi].start != gs[gi].end implies gs[gi].start == run_at(gs, off, gi) by {
            if gi < last {
                lemma_run_at_prefix(gs, off, gi);
                assert(gs.drop_last()[gi] == gs[gi]);
            } else {
                lemma_run_at_prefix(gs, off, last);
            }
        }
        lemma_run_at_prefix(gs, off, last);
    }
}

/// A node whose matched groups took values that got their parses can be
/// given them: every value of its matched groups is storable.
pub proof fn lemma_multi_storable<F, P>(
    d: Def<F>,
    groups: Seq<ParamGroup>,
    gs: Seq<MatchedGroup>,
    memo: Seq<Vec<(u64, Option<P>)>>,
    off: int,
    n: int,
)
    requires
        matched_node(gs, groups, off, n),
        groups_parsed(d, groups, gs, memo),
        groups_in(gs, n, groups.len() as int),
        0 <= off <= n,
    ensures
        forall|gi: int, i: int|
            0 <= gi < gs.len() && 0 <= i < gs[gi].end - gs[gi].start ==> #[trigger] storable_at(d, groups, gs, memo, off, n, gi, i),
{
    reveal(groups_parsed);
    lemma_runs_start(gs, off);
    assert forall|gi: int, i: int| 0 <= gi < gs.len() && 0 <= i < gs[gi].end - gs[gi].start implies #[trigger] storable_at(d, groups, gs, memo, off, n, gi, i) by {
        assert(gs[gi].group_ind == gi);
        assert(gs[gi].start != gs[gi].end);
        assert(gs[gi].start == run_at(gs, off, gi));
        let g = groups[gi];
        assert(single_parsed(d, g, gs[gi].start as int, gs[gi].end as int, memo));
        let pos = gs[gi].start + i;
        assert(pos - gs[gi].start == i);
        if let Some(key) = key_of(d, g, i % (g.params@.len() as int)) {
            assert(first_parsed(memo, pos, key));
        }
    }
}

/// A later memo keeps the successful first parses of an earlier one.
pub proof fn lemma_first_parsed_ext<P>(m1: Seq<Vec<(u64, Option<P>)>>, m2: Seq<Vec<(u64, Option<P>)>>, i: int, key: u64)
    requires
        memo_ext(m1, m2),
        0 <= i < m1.len(),
        first_parsed(m1, i, key),
    ensures
        first_parsed(m2, i, key),
{
    let j = choose|j: int| first_at(m1[i]@, key, j) && (#[trigger] m1[i]@[j]).1 is Some;
    assert(m2[i]@.take(m1[i]@.len() as int) == m1[i]@);
    assert(m2[i]@[j] == m2[i]@.take(m1[i]@.len() as int)[j]);
    assert(first_at(m2[i]@, key, j)) by {
        assert forall|k: int| 0 <= k < j implies (#[trigger] m2[i]@[k]).0 != key by {
            assert(m2[i]@[k] == m2[i]@.take(m1[i]@.len() as int)[k]);
        }
    }
}

/// A later memo keeps a run's parses.
pub proof fn lemma_single_parsed_ext<F, P>(d: Def<F>, g: ParamGroup, a: int, b: int, m1: Seq<Vec<(u64, Option<P>)>>, m2: Seq<Vec<(u64, Option<P>)>>)
    requires
        single_parsed(d, g, a, b, m1),
        memo_ext(m1, m2),
        0 <= a,
        b <= m1.len(),
    ensures
        single_parsed(d, g, a, b, m2),
{
    assert forall|i: int| #![trigger m2[i]] a <= i < b implies (key_of(d, g, (i - a) % (g.params@.len() as int)) matches Some(key) ==> first_parsed(m2, i, key)) by {
        if let Some(key) = key_of(d, g, (i - a) % (g.params@.len() as int)) {
            assert(first_parsed(m1, i, key));
            lemma_first_parsed_ext(m1, m2, i, key);
        }
    }
}

/// A run's parses, and those of a partial round after whole rounds of the
/// group's parameters, make the parses of the longer run.
pub proof fn lemma_parsed_join<F, P>(d: Def<F>, g: ParamGroup, start: int, mid: int, end: int, m: Seq<Vec<(u64, Option<P>)>>, rounds: int)
    requires
        single_parsed(d, g, start, mid, m),
        forall|i: int| #![trigger m[i]] mid <= i < end ==> (key_of(d, g, i - mid) matches Some(key) ==> first_parsed(m, i, key)),
        g.params@.len() > 0,
        rounds >= 0,
        mid - start == rounds * g.params@.len(),
        mid <= end <= mid + g.params@.len(),
    ensures
        single_parsed(d, g, start, end, m),
{
    let pn = g.params@.len() as int;
    assert forall|i: int| #![trigger m[i]] start <= i < end implies (key_of(d, g, (i - start) % pn) matches Some(key) ==> first_parsed(m, i, key)) by {
        if i >= mid {
            let x = i - mid;
            assert(i - start == pn * rounds + x) by (nonlinear_arith)
                requires
                    mid - start == rounds * pn,
                    x == i - mid,
            ;
            vstd::arithmetic::div_mod::lemma_mod_multiples_vanish(rounds, x, pn);
            if x < pn {
                vstd::arithmetic::div_mod::lemma_small_mod(x as nat, pn as nat);
            }
            assert((i - start) % pn == x);
        }
    }
}

/// A node of a single group whose values fit it and got their parses can be
/// given them: every value of its matched group is storable.
pub proof fn lemma_single_storable<F, P>(
    d: Def<F>,
    groups: Seq<ParamGroup>,
    gs: Seq<MatchedGroup>,
    memo: Seq<Vec<(u64, Option<P>)>>,
    off: int,
    n: int,
)
    requires
        groups.len() == 1,
        matched_node(gs, groups, off, n),
        single_fit(groups[0], n - off) == Some(true),
        single_parsed(d, groups[0], off, n, memo),
        0 <= off <= n,
    ensures
        forall|gi: int, i: int|
            0 <= gi < gs.len() && 0 <= i < gs[gi].end - gs[gi].start ==> #[trigger] storable_at(d, groups, gs, memo, off, n, gi, i),
{
    assert(gs.len() == 1);
    assert(gs.drop_last() =~= Seq::<MatchedGroup>::empty());
    assert(runs_end(gs.drop_last(), off) == off);
    assert(gs[0] == gs.last());
    assert forall|gi: int, i: int| 0 <= gi < gs.len() && 0 <= i < gs[gi].end - gs[gi].start implies #[trigger] storable_at(d, groups, gs, memo, off, n, gi, i) by {
        assert(gi == 0);
        assert(gs[0].group_ind == 0);
        let g = groups[0];
        assert(run_at(gs, off, 0) == off);
        assert(gs[0].start == off && gs[0].end == n);
        let pl = g.params@.len() as int;
        assert(pl > 0);
        assert((off + i - off) == i);
        if let Some(key) = key_of(d, g, i % pl) {
            assert(key_of(d, g, ((off + i) - off) % pl) == Some(key));
            assert(first_parsed(memo, off + i, key));
        }
    }
}

/// The texts of a record's values, which `vt` indexes in `texts`.
pub open spec fn val_views(texts: Seq<String>, vt: Seq<usize>) -> Seq<Seq<char>> {
    Seq::new(vt.len(), |i: int| texts[vt[i] as int]@)
}

/// A text `t` may fail to parse as parameter `k` of group `g` of `d`: the
/// parameter has a parser, and a parser of its type key gives nothing for it.
pub open spec fn may_fail_as<F, P>(d: Def<F>, g: ParamGroup, k: int, t: Seq<char>) -> bool
    where
        F: Fn(&str) -> Option<P>,
{
    key_of(d, g, k) matches Some(key) && made_by::<F, P>(d, key, t, None)
}

/// Values with the texts `vt`, from `start` on, do not fit the single group
/// `g` of `d`: their number does not fit it, or one of them, read as its
/// parameter (its place modulo the number of parameters), fails to parse.
pub open spec fn single_fails<F, P>(d: Def<F>, g: ParamGroup, start: int, vt: Seq<Seq<char>>) -> bool
    where
        F: Fn(&str) -> Option<P>,
{
    ||| single_fit(g, vt.len() - start) != Some(true)
    ||| exists|i: int| start <= i < vt.len() && #[trigger] may_fail_as::<F, P>(d, g, (i - start) % (g.params@.len() as int), vt[i])
}

/// Each value's parses noted in `m` are what parsers of `d` give for the
/// value's text in `vt`.
pub open spec fn rows_made<F, P>(d: Def<F>, m: Seq<Vec<(u64, Option<P>)>>, vt: Seq<Seq<char>>) -> bool
    where
        F: Fn(&str) -> Option<P>,
{
    &&& m.len() == vt.len()
    &&& forall|i: int| 0 <= i < m.len() ==> #[trigger] row_ok(d, m[i]@, vt[i])
}

/// A record whose values have the texts `vt` does not fit node `ind` of `d`:
/// where the node has a single group, the values do not fit it (see
/// `single_fails`); where it has other than one group and none of them deals
/// out values with others, the groups, taking the values after the tag
/// greedily (see `read_groups`), do not fit them, by parses that parsers of
/// `d` give for the values.
pub open spec fn passed_over<F, P>(d: Def<F>, ind: int, vt: Seq<Seq<char>>) -> bool
    where
        F: Fn(&str) -> Option<P>,
{
    let gs = d.nodes()[ind].param_groups@;
    let off = vals_off(d.nodes()[ind].has_tag);
    &&& gs.len() == 1 ==> single_fails::<F, P>(d, gs[0], off, vt)
    &&& gs.len() != 1 && plain_groups(gs) ==> exists|m: Seq<Vec<(u64, Option<P>)>>|
        #[trigger] rows_made(d, m, vt) && read_groups(d, gs, 0, off, vt.len() as int, m) == Reading::NoFit
}

/// Matches the values of a record, from position `start` on, against a node
/// of a single group: the number of values must fit the group, and each value
/// of a parameter with a parser must parse.
pub(crate) fn match_single<'a, F, P>(node: NodeContainer<'a, F>, start: usize, val_texts: &Vec<usize>, texts: &Vec<String>, memo: &mut Memo<P>) -> (r: MatchOutcome<'a>)
    where
        F: Fn(&str) -> Option<P>,
    requires
        node.valid(),
        node.def_view().nodes()[node.ind()].param_groups@.len() == 1,
        parsers_total::<F, P>(node.def_view()),
        start <= val_texts@.len(),
        old(memo)@.len() == val_texts@.len(),
        forall|i: int| 0 <= i < val_texts@.len() ==> #[trigger] val_texts@[i] < texts@.len(),
        memo_ok(node.def_view(), old(memo)@, texts@, val_texts@),
    ensures
        final(memo)@.len() == val_texts@.len(),
        memo_ok(node.def_view(), final(memo)@, texts@, val_texts@),
        ({
            let g = node.def_view().nodes()[node.ind()].param_groups@[0];
            match single_fit(g, val_texts@.len() - start) {
                None => r is Broken,
                Some(false) => r is Failed,
                Some(true) => r is Failed || (r matches MatchOutcome::Matched(gs) && gs@.len() == 1
                    && gs@[0].group_ind == 0 && gs@[0].start == start && gs@[0].end == val_texts@.len()
                    && gs@[0].params_num == g.params@.len() && gs@[0].optional == g.optional
                    && gs@[0].repeat == g.repeat && opt_slice_view(gs@[0].name) == opt_str_view(g.name)),
            }
        }),
        r is Matched ==> single_parsed(
            node.def_view(),
            node.def_view().nodes()[node.ind()].param_groups@[0],
            start as int,
            val_texts@.len() as int,
            final(memo)@,
        ),
        r is Failed ==> single_fails::<F, P>(
            node.def_view(),
            node.def_view().nodes()[node.ind()].param_groups@[0],
            start as int,
            val_views(texts@, val_texts@),
        ),
{
    let n = val_texts.len();
    let g = group_at(node, 0);
    let vals_num = n - start;
    let params_num = g.params_num();
    let param_optional = match g.param_optional() {
        Some(x) => x,
        None => params_num,
    };
    let fits = if vals_num == params_num {
        true
    } else if g.optional() && vals_num == 0 {
        true
    } else if g.repeat() && params_num != 0 && vals_num != 0 && vals_num % params_num == 0 {
        true
    } else if g.repeat() || vals_num < params_num {
        if params_num == 0 {
            return MatchOutcome::Broken;
        }
        vals_num % params_num >= param_optional
    } else {
        false
    };
    if !fits {
        return MatchOutcome::Failed;
    }
    let mut i = start;
    while i < n
        invariant
            g.valid(),
            parsers_total::<F, P>(g.def_view()),
            start <= i <= n,
            n == val_texts@.len(),
            memo@.len() == n,
            memo_ok(node.def_view(), memo@, texts@, val_texts@),
            params_num == g.spec_group().params@.len(),
            g.spec_group() == node.def_view().nodes()[node.ind()].param_groups@[0],
            g.def_view() == node.def_view(),
            single_fit(g.spec_group(), n - start) == Some(true),
            i < n ==> params_num > 0,
            single_parsed(node.def_view(), g.spec_group(), start as int, i as int, memo@),
            forall|j: int| 0 <= j < val_texts@.len() ==> #[trigger] val_texts@[j] < texts@.len(),
        decreases n - i,
    {
        let param_ind = (i - start) % params_num;
        match g.param_type_id(param_ind) {
            Some(key) => {
                let t = texts[val_texts[i]].as_str();
                let ghost m0 = memo@;
                proof {
                    assert(row_ok(node.def_view(), m0[i as int]@, texts@[val_texts@[i as int] as int]@));
                }
                let found = attempt(g, param_ind, key, t, &mut memo[i]);
                proof {
                    lemma_memo_set(node.def_view(), m0, memo@, texts@, val_texts@, i as int);
                }
                proof {
                    if found {
                        assert forall|i2: int| #![trigger memo@[i2]] start <= i2 < i + 1 implies (key_of(node.def_view(), g.spec_group(), (i2 - start) % (params_num as int)) matches Some(k2) ==> first_parsed(memo@, i2, k2)) by {
                            if i2 < i {
                                assert(memo@[i2] == m0[i2]);
                                assert(m0[i2] == m0[i2]);
                                if let Some(k2) = key_of(node.def_view(), g.spec_group(), (i2 - start) % (params_num as int)) {
                                    assert(first_parsed(m0, i2, k2));
                                    let jj = choose|jj: int| first_at(m0[i2]@, k2, jj) && (#[trigger] m0[i2]@[jj]).1 is Some;
                                    assert(memo@[i2]@[jj] == m0[i2]@[jj]);
                                }
                            } else {
                                let jj = choose|jj: int| first_at(memo@[i as int]@, key, jj) && (#[trigger] memo@[i as int]@[jj]).1 is Some;
                                assert(memo@[i as int]@[jj].1 is Some);
                            }
                        }
                    }
                }
                if !found {
                    proof {
                        let row = memo@[i as int]@;
                        let t = texts@[val_texts@[i as int] as int]@;
                        assert(row_ok(node.def_view(), row, t));
                        let j = choose|j: int| 0 <= j < row.len() && (#[trigger] row[j]).0 == key && row[j].1 is None;
                        assert(made_by(node.def_view(), row[j].0, t, row[j].1));
                        assert(val_views(texts@, val_texts@)[i as int] == t);
                        assert(may_fail_as::<F, P>(node.def_view(), g.spec_group(), (i - start) % (params_num as int), val_views(texts@, val_texts@)[i as int]));
                    }
                    return MatchOutcome::Failed;
                }
            },
            None => {
                proof {
                    assert forall|i2: int| #![trigger memo@[i2]] start <= i2 < i + 1 implies (key_of(node.def_view(), g.spec_group(), (i2 - start) % (params_num as int)) matches Some(k2) ==> first_parsed(memo@, i2, k2)) by {
                        if i2 == i {
                            assert(g.kind(param_ind as int) is None);
                        }
                    }
                }
            },
        }
        i = i + 1;
    }
    let mut gs: Vec<MatchedGroup<'a>> = Vec::new();
    gs.push(
        MatchedGroup {
            group_ind: 0,
            start,
            end: n,
            name: g.name(),
            params_num,
            optional: g.optional(),
            repeat: g.repeat(),
        },
    );
    MatchOutcome::Matched(gs)
}

/// Whether parameters `0..len` of two groups have the same kinds.
fn same_kinds<'a, F>(g: ParamGroupContainer<'a, F>, g2: ParamGroupContainer<'a, F>, len: usize) -> (r: bool)
    requires
        g.valid(),
        g2.valid(),
    ensures
        r == forall|i: int| 0 <= i < len ==> #[trigger] g.kind(i) == g2.kind(i),
{
    let mut i: usize = 0;
    while i < len
        invariant
            g.valid(),
            g2.valid(),
            i <= len,
            forall|j: int| 0 <= j < i ==> #[trigger] g.kind(j) == g2.kind(j),
        decreases len - i,
    {
        let a = g.param_type_id(i);
        let b = g2.param_type_id(i);
        let same = match (a, b) {
            (Some(x), Some(y)) => x == y,
            (None, None) => true,
            _ => false,
        };
        if !same {
            return false;
        }
        i = i + 1;
    }
    true
}

/// How a matching outcome reads.
pub open spec fn reading_of(r: MatchOutcome) -> Reading {
    match r {
        MatchOutcome::Matched(_) => Reading::Fits,
        MatchOutcome::Failed => Reading::NoFit,
        MatchOutcome::Broken => Reading::Broken,
    }
}

/// Group `g`, of at least one parameter, takes values greedily from `start`
/// on (see `take_group`, which it follows by the parses it notes in `memo`):
/// whether it fits, whether it took any, and where its run ends.
#[verifier::rlimit(50)]
#[verifier::loop_isolation(false)]
fn take_run<'a, F, P>(g: ParamGroupContainer<'a, F>, start: usize, val_texts: &Vec<usize>, texts: &Vec<String>, memo: &mut Memo<P>) -> (r: (bool, bool, usize))
    where
        F: Fn(&str) -> Option<P>,
    requires
        g.valid(),
        parsers_total::<F, P>(g.def_view()),
        start < val_texts@.len(),
        old(memo)@.len() == val_texts@.len(),
        forall|i: int| 0 <= i < val_texts@.len() ==> #[trigger] val_texts@[i] < texts@.len(),
        memo_ok(g.def_view(), old(memo)@, texts@, val_texts@),
        g.spec_group().params@.len() > 0,
    ensures
        final(memo)@.len() == val_texts@.len(),
        memo_ok(g.def_view(), final(memo)@, texts@, val_texts@),
        memo_ext(old(memo)@, final(memo)@),
        start <= r.2 <= val_texts@.len(),
        r.0 && r.1 ==> run_fits(g.spec_group(), r.2 - start, r.2 == val_texts@.len()),
        r.0 && !r.1 ==> r.2 == start && may_skip(g.spec_group()),
        r.0 ==> single_parsed(g.def_view(), g.spec_group(), start as int, r.2 as int, final(memo)@),
        forall|m2: Seq<Vec<(u64, Option<P>)>>|
            #![trigger memo_ext(final(memo)@, m2)]
            memo_ext(final(memo)@, m2) ==> take_group(g.def_view(), g.spec_group(), start as int, val_texts@.len() as int, m2, false)
                == if r.0 {
                Take::Took(r.1, r.2 as int)
            } else {
                Take::NoFit
            },
{
    let n = val_texts.len();
    let pn = g.params_num();
    let mut ok = true;
    let mut matched_any = false;
    let mut param_found = false;
    let mut param_optional_used = false;
    let mut rv2 = start;
    let ghost mut m_cnt: int = 0;
    let ghost mut fm: int = 0;
    let ghost mut fr: int = 0;
    let ghost d = g.def_view();
    let ghost gs = g.spec_group();
    let ghost memo_in = memo@;
    proof {
        lemma_ext_refl(memo@);
    }
    loop
        invariant
            d == g.def_view(),
            gs == g.spec_group(),
            memo_ext(memo_in, memo@),
            single_parsed(d, gs, start as int, rv2 as int, memo@),
            forall|m2: Seq<Vec<(u64, Option<P>)>>|
                #![trigger memo_ext(memo@, m2)]
                memo_ext(memo@, m2) ==> take_group(d, gs, start as int, n as int, m2, false) == take_group(
                    d,
                    gs,
                    rv2 as int,
                    n as int,
                    m2,
                    matched_any,
                ),
            ok,
            g.valid(),
            parsers_total::<F, P>(g.def_view()),
            n == val_texts@.len(),
            memo@.len() == n,
            memo_ok(g.def_view(), memo@, texts@, val_texts@),
            pn == g.spec_group().params@.len(),
            pn > 0,
            start <= rv2 <= n,
            forall|i: int| 0 <= i < val_texts@.len() ==> #[trigger] val_texts@[i] < texts@.len(),
            0 <= m_cnt,
            rv2 - start == m_cnt * pn,
            g.spec_group().repeat || m_cnt == 0,
            matched_any <==> m_cnt > 0,
            param_found <==> m_cnt > 0,
            m_cnt > 0 ==> rv2 < n,
            !param_optional_used,
        decreases n - rv2,
    {
        let mut rv3 = rv2;
        let mut completed = true;
        let mut param_ind: usize = 0;
        let ghost memo_h = memo@;
        proof {
            lemma_ext_refl(memo@);
        }
        while param_ind < pn
            invariant
                d == g.def_view(),
                gs == g.spec_group(),
                memo_ext(memo_in, memo@),
                memo_ext(memo_h, memo@),
                single_parsed(d, gs, start as int, rv2 as int, memo@),
                forall|i: int|
                    #![trigger memo@[i]]
                    rv2 <= i < rv3 ==> (key_of(d, gs, i - rv2) matches Some(key) ==> first_parsed(memo@, i, key)),
                forall|m2: Seq<Vec<(u64, Option<P>)>>|
                    #![trigger memo_ext(memo@, m2)]
                    memo_ext(memo@, m2) ==> stop_at(d, gs, rv2 as int, n as int, m2, 0) == stop_at(
                        d,
                        gs,
                        rv2 as int,
                        n as int,
                        m2,
                        param_ind as int,
                    ),
                g.valid(),
                parsers_total::<F, P>(g.def_view()),
                n == val_texts@.len(),
                memo@.len() == n,
                memo_ok(g.def_view(), memo@, texts@, val_texts@),
                pn == g.spec_group().params@.len(),
                rv2 <= rv3 <= n,
                rv3 == rv2 + param_ind,
                param_ind <= pn,
                forall|i: int| 0 <= i < val_texts@.len() ==> #[trigger] val_texts@[i] < texts@.len(),
                param_ind > 0 ==> param_found,
                param_ind == 0 ==> (param_found <==> m_cnt > 0),
                completed,
                !param_optional_used,
            decreases pn - param_ind,
        {
            let ghost mi = memo@;
            if rv3 == n {
                proof {
                    assert forall|m2: Seq<Vec<(u64, Option<P>)>>| #[trigger] memo_ext(memo@, m2) implies stop_at(d, gs, rv2 as int, n as int, m2, 0) == Some(param_ind as int) by {}
                }
                match g.param_optional() {
                    Some(po) => {
                        if param_ind >= po {
                            param_found = true;
                            param_optional_used = true;
                        }
                    },
                    None => {},
                }
                completed = false;
                break;
            }
            param_found = match g.param_type_id(param_ind) {
                Some(key) => {
                    let t = texts[val_texts[rv3]].as_str();
                    let ghost m0 = memo@;
                    proof {
                        assert(row_ok(g.def_view(), m0[rv3 as int]@, texts@[val_texts@[rv3 as int] as int]@));
                    }
                    let found = attempt(g, param_ind, key, t, &mut memo[rv3]);
                    proof {
                        lemma_memo_set(g.def_view(), m0, memo@, texts@, val_texts@, rv3 as int);
                        lemma_attempt_noted(m0, memo@, rv3 as int, key, found);
                        lemma_ext_trans(memo_in, m0, memo@);
                        lemma_ext_trans(memo_h, m0, memo@);
                        assert(key_of(d, gs, param_ind as int) == Some(key));
                        lemma_single_parsed_ext(d, gs, start as int, rv2 as int, m0, memo@);
                        assert forall|i: int| #![trigger memo@[i]] rv2 <= i < rv3 implies (key_of(d, gs, i - rv2) matches Some(key2) ==> first_parsed(memo@, i, key2)) by {
                            if let Some(key2) = key_of(d, gs, i - rv2) {
                                assert(first_parsed(m0, i, key2));
                                lemma_first_parsed_ext(m0, memo@, i, key2);
                            }
                        }
                    }
                    found
                },
                None => true,
            };
            proof {
                if key_of(d, gs, param_ind as int) is None {
                    lemma_ext_refl(memo@);
                }
                assert forall|m2: Seq<Vec<(u64, Option<P>)>>| #[trigger] memo_ext(memo@, m2) implies stop_at(d, gs, rv2 as int, n as int, m2, param_ind as int) == if param_found {
                    stop_at(d, gs, rv2 as int, n as int, m2, param_ind + 1)
                } else {
                    Some(param_ind as int)
                } by {
                    if let Some(key) = key_of(d, gs, param_ind as int) {
                        lemma_ext_noted(memo@, m2, rv3 as int, key);
                    }
                }
                assert forall|m2: Seq<Vec<(u64, Option<P>)>>| #[trigger] memo_ext(memo@, m2) implies stop_at(d, gs, rv2 as int, n as int, m2, 0) == if param_found {
                    stop_at(d, gs, rv2 as int, n as int, m2, param_ind + 1)
                } else {
                    Some(param_ind as int)
                } by {
                    lemma_ext_trans(mi, memo@, m2);
                }
            }
            if param_found {
                rv3 = rv3 + 1;
            } else {
                match g.param_optional() {
                    Some(po) => {
                        if param_ind >= po {
                            param_found = true;
                            param_optional_used = true;
                        }
                    },
                    None => {},
                }
                completed = false;
                break;
            }
            param_ind = param_ind + 1;
        }
        let ghost rv2_0 = rv2;
        let ghost pi: int = param_ind as int;
        let ghost mat0 = matched_any;
        proof {
            if completed {
                assert forall|m2: Seq<Vec<(u64, Option<P>)>>| #[trigger] memo_ext(memo@, m2) implies stop_at(d, gs, rv2 as int, n as int, m2, 0) == Some(pn as int) by {}
            }
            assert forall|m2: Seq<Vec<(u64, Option<P>)>>| #[trigger] memo_ext(memo@, m2) implies stop_at(d, gs, rv2 as int, n as int, m2, 0) == Some(pi) && take_group(d, gs, start as int, n as int, m2, false) == take_group(d, gs, rv2_0 as int, n as int, m2, mat0) by {
                lemma_ext_trans(memo_h, memo@, m2);
            }
        }
        proof {
            if param_found {
                lemma_parsed_join(d, gs, start as int, rv2 as int, rv3 as int, memo@, m_cnt);
            }
        }
        if param_found {
            rv2 = rv3;
            matched_any = true;
            if !param_optional_used && g.repeat() && rv3 < n && completed {
                proof {
                    assert(m_cnt * pn + pn == (m_cnt + 1) * pn) by (nonlinear_arith);
                    m_cnt = m_cnt + 1;
                    assert forall|m2: Seq<Vec<(u64, Option<P>)>>| #[trigger] memo_ext(memo@, m2) implies take_group(d, gs, start as int, n as int, m2, false) == take_group(d, gs, rv2 as int, n as int, m2, matched_any) by {}
                }
                continue;
            }
        } else if !g.optional() && (!g.repeat() || !matched_any) {
            ok = false;
        }
        proof {
            assert forall|m2: Seq<Vec<(u64, Option<P>)>>| #[trigger] memo_ext(memo@, m2) implies take_group(d, gs, start as int, n as int, m2, false) == if ok {
                Take::Took(matched_any, rv2 as int)
            } else {
                Take::NoFit
            } by {}
            if param_found && completed {
                assert(m_cnt * pn + pn == (m_cnt + 1) * pn) by (nonlinear_arith);
                fm = m_cnt + 1;
                fr = 0;
            } else if param_found {
                fm = m_cnt;
                fr = pi;
            } else {
                fm = m_cnt;
                fr = 0;
            }
        }
        break;
    }
    proof {
        if ok && matched_any {
            assert(taken_as(g.spec_group(), rv2 - start, rv2 == n, fm, fr));
        }
    }
    (ok, matched_any, rv2)
}

/// Matches the values of a record, from position `start` on, against the
/// groups of a node in turn. A group that shares values with adjacent groups
/// of the same pattern takes the run of values that fit the pattern, which is
/// then dealt out to those groups; any other group takes its parameters once,
/// or as many times as they fit if it repeats, parameters from its optional
/// point on and optional groups being left out where values run out or do
/// not parse. All values and all groups must be used up; with no values
/// from `start` on, it matches exactly when every group may be left out.
#[verifier::rlimit(100)]
#[verifier::spinoff_prover]
#[verifier::loop_isolation(false)]
pub(crate) fn match_multi<'a, F, P>(node: NodeContainer<'a, F>, start: usize, val_texts: &Vec<usize>, texts: &Vec<String>, memo: &mut Memo<P>) -> (r: MatchOutcome<'a>)
    where
        F: Fn(&str) -> Option<P>,
    requires
        node.valid(),
        parsers_total::<F, P>(node.def_view()),
        start <= val_texts@.len(),
        old(memo)@.len() == val_texts@.len(),
        forall|i: int| 0 <= i < val_texts@.len() ==> #[trigger] val_texts@[i] < texts@.len(),
        memo_ok(node.def_view(), old(memo)@, texts@, val_texts@),
    ensures
        final(memo)@.len() == val_texts@.len(),
        memo_ok(node.def_view(), final(memo)@, texts@, val_texts@),
        r matches MatchOutcome::Matched(gs) ==> groups_in(
            gs@,
            val_texts@.len() as int,
            node.def_view().nodes()[node.ind()].param_groups@.len() as int,
        ) && matched_node(
            gs@,
            node.def_view().nodes()[node.ind()].param_groups@.map_values(|g: ParamGroup| g),
            start as int,
            val_texts@.len() as int,
        ),
        r matches MatchOutcome::Matched(gs) ==> forall|k: int|
            0 <= k < gs@.len() ==> #[trigger] run_ok(
                node.def_view().nodes()[node.ind()].param_groups@[k],
                gs@[k],
                val_texts@.len() as int,
            ),
        plain_groups(node.def_view().nodes()[node.ind()].param_groups@) ==> read_groups(
            node.def_view(),
            node.def_view().nodes()[node.ind()].param_groups@,
            0,
            start as int,
            val_texts@.len() as int,
            final(memo)@,
        ) == reading_of(r),
        plain_groups(node.def_view().nodes()[node.ind()].param_groups@) ==> (r matches MatchOutcome::Matched(gs) ==> groups_parsed(
            node.def_view(),
            node.def_view().nodes()[node.ind()].param_groups@,
            gs@,
            final(memo)@,
        )),
        start == val_texts@.len() ==> !(r is Broken) && (r is Matched <==> forall|k: int|
            0 <= k < node.def_view().nodes()[node.ind()].param_groups@.len() ==> #[trigger] may_skip(
                node.def_view().nodes()[node.ind()].param_groups@[k],
            )),
{
    let n = val_texts.len();
    let gnum = node.param_groups_num();
    let ghost groups = node.def_view().nodes()[node.ind()].param_groups@.map_values(|g: ParamGroup| g);
    let ghost d = node.def_view();
    proof {
        assert(groups =~= node.def_view().nodes()[node.ind()].param_groups@);
    }
    let ghost plain = plain_groups(groups);
    let mut record_val_ind = start;
    let mut param_group_ind: usize = 0;
    let mut ok = true;
    let mut out: Vec<MatchedGroup<'a>> = Vec::new();
    proof {
        reveal(groups_parsed);
        assert(groups_parsed(d, groups, out@, memo@));
    }
    while record_val_ind < n
        invariant
            node.valid(),
            parsers_total::<F, P>(node.def_view()),
            n == val_texts@.len(),
            memo@.len() == n,
            memo_ok(node.def_view(), memo@, texts@, val_texts@),
            gnum == node.def_view().nodes()[node.ind()].param_groups@.len(),
            start <= record_val_ind <= n,
            param_group_ind <= gnum,
            ok,
            groups_in(out@, n as int, gnum as int),
            out@.len() == param_group_ind,
            groups.len() == gnum,
            forall|k: int| 0 <= k < out@.len() ==> (#[trigger] out@[k]).group_ind == k && matched_as(out@[k], groups[k]),
            runs_end(out@, start as int) == record_val_ind,
            forall|i: int| 0 <= i < val_texts@.len() ==> #[trigger] val_texts@[i] < texts@.len(),
            start == n ==> param_group_ind == 0,
            groups == node.def_view().nodes()[node.ind()].param_groups@.map_values(|g: ParamGroup| g),
            forall|k: int| 0 <= k < out@.len() ==> #[trigger] run_ok(groups[k], out@[k], n as int),
            d == node.def_view(),
            plain == plain_groups(groups),
            plain ==> param_group_ind < gnum || param_group_ind == 0,
            plain ==> groups_parsed(d, groups, out@, memo@),
            plain ==> forall|m2: Seq<Vec<(u64, Option<P>)>>|
                #![trigger memo_ext(memo@, m2)]
                memo_ext(memo@, m2) ==> read_groups(d, groups, 0, start as int, n as int, m2) == read_groups(
                    d,
                    groups,
                    param_group_ind as int,
                    record_val_ind as int,
                    n as int,
                    m2,
                ),
        decreases n - record_val_ind, gnum - param_group_ind,
    {
        if param_group_ind >= gnum {
            proof {
                lemma_ext_refl(memo@);
                reveal(read_groups);
            }
            return MatchOutcome::Broken;
        }
        let g = group_at(node, param_group_ind);
        let pn = g.params_num();
        proof {
            assert(groups[param_group_ind as int] == g.spec_group());
            if plain {
                assert(!may_share(groups[param_group_ind as int]));
            }
        }
        if pn == 0 {
            proof {
                lemma_ext_refl(memo@);
                reveal(read_groups);
            }
            ok = false;
            break;
        }
        if g.similar() != GroupSimilar::Neither && g.param_optional().is_none() && (g.optional()
            || g.repeat()) {
            let mut has_repeat = g.repeat();
            let mut gi2 = param_group_ind + 1;
            let mut optional_tuple_count: usize = if g.optional() {
                g.params_patterns_num()
            } else {
                0
            };
            let mut needed_tuple_count: usize = if g.optional() {
                0
            } else {
                g.params_patterns_num()
            };
            proof {
                assert(groups[param_group_ind as int] == g.spec_group());
                assert(shares_pattern(groups[param_group_ind as int]));
            }
            while gi2 < gnum
                invariant
                    node.valid(),
                    g.valid(),
                    gnum == node.def_view().nodes()[node.ind()].param_groups@.len(),
                    param_group_ind < gi2 <= gnum,
                    g.spec_group() == groups[param_group_ind as int],
                    g.spec_group().similar != GroupSimilar::Neither,
                    groups == node.def_view().nodes()[node.ind()].param_groups@.map_values(|g: ParamGroup| g),
                    forall|j: int| param_group_ind <= j < gi2 ==> #[trigger] shares_pattern(groups[j]),
                decreases gnum - gi2,
            {
                let g2 = group_at(node, gi2);
                if g.similar() != g2.similar() || g2.param_optional().is_some() {
                    break;
                }
                if g.params_pattern_len() == g2.params_pattern_len() {
                    if !same_kinds(g, g2, g.params_pattern_len()) {
                        break;
                    }
                }
                if !g2.optional() {
                    needed_tuple_count = match needed_tuple_count.checked_add(g2.params_patterns_num()) {
                        Some(x) => x,
                        None => {
                            return MatchOutcome::Broken;
                        },
                    };
                } else {
                    optional_tuple_count = match optional_tuple_count.checked_add(g2.params_patterns_num()) {
                        Some(x) => x,
                        None => {
                            return MatchOutcome::Broken;
                        },
                    };
                }
                proof {
                    assert(groups[gi2 as int] == g2.spec_group());
                    assert(shares_pattern(groups[gi2 as int]));
                }
                gi2 = gi2 + 1;
                has_repeat = has_repeat || g2.repeat();
            }
            let total_tuple_count = match optional_tuple_count.checked_add(needed_tuple_count) {
                Some(x) => x,
                None => {
                    return MatchOutcome::Broken;
                },
            };
            let adj = gi2 - param_group_ind;
            if adj > 1 {
                let pl = g.params_pattern_len();
                let total_len = match total_tuple_count.checked_mul(pl) {
                    Some(x) => x,
                    None => {
                        return MatchOutcome::Broken;
                    },
                };
                let needed_len = match needed_tuple_count.checked_mul(pl) {
                    Some(x) => x,
                    None => {
                        return MatchOutcome::Broken;
                    },
                };
                let mut rv2 = record_val_ind;
                loop
                    invariant
                        node.valid(),
                        g.valid(),
                        parsers_total::<F, P>(g.def_view()),
                        n == val_texts@.len(),
                        memo@.len() == n,
                        memo_ok(node.def_view(), memo@, texts@, val_texts@),
                        record_val_ind <= rv2 <= n,
                        forall|i: int| 0 <= i < val_texts@.len() ==> #[trigger] val_texts@[i] < texts@.len(),
                    decreases n - rv2,
                {
                    if !has_repeat && rv2 - record_val_ind == total_len {
                        break;
                    }
                    let mut param_found = false;
                    if rv2 == n {
                        break;
                    }
                    let rv_before = rv2;
                    let mut pattern_ind: usize = 0;
                    while pattern_ind < pl
                        invariant
                            g.valid(),
                            parsers_total::<F, P>(g.def_view()),
                            n == val_texts@.len(),
                            memo@.len() == n,
                            memo_ok(node.def_view(), memo@, texts@, val_texts@),
                            rv_before <= rv2,
                            rv_before < n,
                            rv2 == rv_before + pattern_ind,
                            pattern_ind <= pl,
                            param_found ==> rv2 > rv_before,
                            forall|i: int| 0 <= i < val_texts@.len() ==> #[trigger] val_texts@[i] < texts@.len(),
                        decreases pl - pattern_ind,
                    {
                        param_found = match g.param_type_id(pattern_ind) {
                            Some(key) => {
                                if rv2 >= n {
                                    return MatchOutcome::Broken;
                                }
                                let t = texts[val_texts[rv2]].as_str();
                                let ghost m0 = memo@;
                                proof {
                                    assert(row_ok(node.def_view(), m0[rv2 as int]@, texts@[val_texts@[rv2 as int] as int]@));
                                }
                                let found = attempt(g, pattern_ind, key, t, &mut memo[rv2]);
                                proof {
                                    lemma_memo_set(node.def_view(), m0, memo@, texts@, val_texts@, rv2 as int);
                                }
                                found
                            },
                            None => true,
                        };
                        if param_found {
                            rv2 = match rv2.checked_add(1) {
                                Some(x) => x,
                                None => {
                                    return MatchOutcome::Broken;
                                },
                            };
                        } else {
                            break;
                        }
                        pattern_ind = pattern_ind + 1;
                    }
                    if !param_found || rv2 == n {
                        break;
                    }
                    if rv2 > n {
                        if !has_repeat && rv2 - record_val_ind == total_len {
                            break;
                        }
                        return MatchOutcome::Broken;
                    }
                }
                let found_vals_num = rv2 - record_val_ind;
                if needed_len <= found_vals_num && (has_repeat || needed_len == found_vals_num
                    || total_len == found_vals_num) {
                    if pl == 0 {
                        return MatchOutcome::Broken;
                    }
                    let from_right = match g.similar() {
                        GroupSimilar::Right => true,
                        _ => false,
                    };
                    let mut tuple_assigns: Vec<usize> = Vec::new();
                    let mut k: usize = 0;
                    while k < adj
                        invariant
                            k <= adj,
                            tuple_assigns@.len() == k,
                        decreases adj - k,
                    {
                        tuple_assigns.push(0);
                        k = k + 1;
                    }
                    let tuples = found_vals_num / pl;
                    if tuples < needed_tuple_count {
                        return MatchOutcome::Broken;
                    }
                    let mut remaining_tuple_count = tuples - needed_tuple_count;
                    let mut i0: usize = 0;
                    while i0 < adj
                        invariant
                            node.valid(),
                            gnum == node.def_view().nodes()[node.ind()].param_groups@.len(),
                            param_group_ind + adj == gi2,
                            gi2 <= gnum,
                            i0 <= adj,
                            tuple_assigns@.len() == adj,
                        decreases adj - i0,
                    {
                        let i = if from_right {
                            adj - i0 - 1
                        } else {
                            i0
                        };
                        let g3 = group_at(node, param_group_ind + i);
                        let ppn = g3.params_patterns_num();
                        if !g3.optional() {
                            tuple_assigns.set(i, ppn);
                        } else if remaining_tuple_count >= ppn {
                            tuple_assigns.set(i, ppn);
                            remaining_tuple_count = remaining_tuple_count - ppn;
                        }
                        if g3.repeat() {
                            if ppn == 0 {
                                return MatchOutcome::Broken;
                            }
                            while remaining_tuple_count >= ppn
                                invariant
                                    i < adj,
                                    tuple_assigns@.len() == adj,
                                    ppn > 0,
                                decreases remaining_tuple_count,
                            {
                                let ta = match tuple_assigns[i].checked_add(ppn) {
                                    Some(x) => x,
                                    None => {
                                        return MatchOutcome::Broken;
                                    },
                                };
                                tuple_assigns.set(i, ta);
                                remaining_tuple_count = remaining_tuple_count - ppn;
                            }
                        }
                        i0 = i0 + 1;
                    }
                    if remaining_tuple_count == 0 {
                        let ghost rvi0 = record_val_ind;
                        let mut i: usize = 0;
                        while i < adj
                            invariant
                                node.valid(),
                                gnum == node.def_view().nodes()[node.ind()].param_groups@.len(),
                                param_group_ind + adj == gi2,
                                gi2 <= gnum,
                                i <= adj,
                                tuple_assigns@.len() == adj,
                                start <= record_val_ind <= n,
                                rvi0 <= record_val_ind,
                                groups_in(out@, n as int, gnum as int),
                                out@.len() == param_group_ind + i,
                                groups.len() == gnum,
                                forall|k: int| 0 <= k < out@.len() ==> (#[trigger] out@[k]).group_ind == k && matched_as(out@[k], groups[k]),
                                runs_end(out@, start as int) == record_val_ind,
                                forall|k: int| 0 <= k < out@.len() ==> #[trigger] run_ok(groups[k], out@[k], n as int),
                            decreases adj - i,
                        {
                            let g2 = group_at(node, param_group_ind + i);
                            let record_val_num = match tuple_assigns[i].checked_mul(g2.params_pattern_len()) {
                                Some(x) => x,
                                None => {
                                    return MatchOutcome::Broken;
                                },
                            };
                            if record_val_num > n - record_val_ind {
                                return MatchOutcome::Failed;
                            }
                            let ghost o_before = out@;
                            out.push(
                                MatchedGroup {
                                    group_ind: param_group_ind + i,
                                    start: record_val_ind,
                                    end: record_val_ind + record_val_num,
                                    name: g2.name(),
                                    params_num: g2.params_num(),
                                    optional: g2.optional(),
                                    repeat: g2.repeat(),
                                },
                            );
                            proof {
                                assert(out@.drop_last() =~= o_before);
                                assert(shares_pattern(groups[param_group_ind + i]));
                                assert(run_ok(groups[out@.len() - 1], out@.last(), n as int));
                            }
                            record_val_ind = record_val_ind + record_val_num;
                            i = i + 1;
                        }
                        param_group_ind = gi2;
                        continue;
                    }
                }
            }
        }
        let ghost memo_g0 = memo@;
        let (ok_g, matched_any, rv2) = take_run(g, record_val_ind, val_texts, texts, memo);
        proof {
            reveal(read_groups);
            reveal(groups_parsed);
            if plain {
                assert forall|m2: Seq<Vec<(u64, Option<P>)>>| #[trigger] memo_ext(memo@, m2) implies read_groups(d, groups, 0, start as int, n as int, m2) == if ok_g {
                    read_groups(d, groups, param_group_ind + 1, if matched_any {
                        rv2 as int
                    } else {
                        record_val_ind as int
                    }, n as int, m2)
                } else {
                    Reading::NoFit
                } by {
                    lemma_ext_trans(memo_g0, memo@, m2);
                }
                assert(groups_parsed(d, groups, out@, memo@)) by {
                    assert(groups_parsed(d, groups, out@, memo_g0));
                    assert forall|k: int| 0 <= k < out@.len() implies #[trigger] single_parsed(d, groups[k], out@[k].start as int, out@[k].end as int, memo@)
                        && (out@[k].start < out@[k].end ==> groups[k].params@.len() > 0) by {
                        assert(single_parsed(d, groups[k], out@[k].start as int, out@[k].end as int, memo_g0));
                        lemma_single_parsed_ext(d, groups[k], out@[k].start as int, out@[k].end as int, memo_g0, memo@);
                    }
                }
            }
        }
        if !ok_g {
            proof {
                lemma_ext_refl(memo@);
            }
            ok = false;
        }
        if !ok {
            break;
        }
        let ghost o_b = out@;
        let ghost rvi0 = record_val_ind;
        if matched_any {
            let ghost o_before = out@;
            out.push(
                MatchedGroup {
                    group_ind: param_group_ind,
                    start: record_val_ind,
                    end: rv2,
                    name: g.name(),
                    params_num: pn,
                    optional: g.optional(),
                    repeat: g.repeat(),
                },
            );
            proof {
                assert(out@.drop_last() =~= o_before);
                assert(groups[param_group_ind as int] == g.spec_group());
                assert(run_ok(groups[out@.len() - 1], out@.last(), n as int));
            }
            record_val_ind = rv2;
        } else {
            let ghost o_before = out@;
            out.push(
                MatchedGroup {
                    group_ind: param_group_ind,
                    start: 0,
                    end: 0,
                    name: g.name(),
                    params_num: pn,
                    optional: g.optional(),
                    repeat: g.repeat(),
                },
            );
            proof {
                assert(out@.drop_last() =~= o_before);
                assert(groups[param_group_ind as int] == g.spec_group());
                assert(taken_as(g.spec_group(), 0, 0 == n, 0, 0));
                assert(run_ok(groups[out@.len() - 1], out@.last(), n as int));
            }
        }
        proof {
            reveal(groups_parsed);
            if plain {
                assert(out@.len() == o_b.len() + 1);
                assert(out@.last().start == (if matched_any { rvi0 } else { 0 }) && out@.last().end == (if matched_any { rv2 } else { 0 }));
                assert(groups_parsed(d, groups, out@, memo@)) by {
                    assert forall|k: int| 0 <= k < out@.len() implies #[trigger] single_parsed(d, groups[k], out@[k].start as int, out@[k].end as int, memo@)
                        && (out@[k].start < out@[k].end ==> groups[k].params@.len() > 0) by {
                        if k < out@.len() - 1 {
                            assert(out@[k] == o_b[k]);
                            assert(single_parsed(d, groups[k], o_b[k].start as int, o_b[k].end as int, memo@));
                        } else {
                            assert(k == param_group_ind);
                            assert(groups[k] == g.spec_group());
                        }
                    }
                }
            }
        }
        param_group_ind = param_group_ind + 1;
        if param_group_ind == gnum {
            break;
        }
    }
    if !ok {
        return MatchOutcome::Failed;
    }
    let ghost gi0 = param_group_ind;
    let ghost out0 = out@;
    proof {
        lemma_ext_refl(memo@);
    }
    while param_group_ind < gnum
        invariant
            gi0 <= param_group_ind,
            out0.len() <= out@.len(),
            forall|k: int| 0 <= k < out0.len() ==> #[trigger] out@[k] == out0[k],
            forall|k: int| out0.len() <= k < out@.len() ==> (#[trigger] out@[k]).start == 0 && out@[k].end == 0,
            forall|k: int| gi0 <= k < param_group_ind ==> #[trigger] may_skip(groups[k]),
            node.valid(),
            gnum == node.def_view().nodes()[node.ind()].param_groups@.len(),
            param_group_ind <= gnum,
            groups_in(out@, n as int, gnum as int),
            out@.len() == param_group_ind,
            groups.len() == gnum,
            forall|k: int| 0 <= k < out@.len() ==> (#[trigger] out@[k]).group_ind == k && matched_as(out@[k], groups[k]),
            runs_end(out@, start as int) == record_val_ind,
            groups == node.def_view().nodes()[node.ind()].param_groups@.map_values(|g: ParamGroup| g),
            start == n ==> forall|k: int| 0 <= k < param_group_ind ==> #[trigger] may_skip(groups[k]),
            forall|k: int| 0 <= k < out@.len() ==> #[trigger] run_ok(groups[k], out@[k], n as int),
        decreases gnum - param_group_ind,
    {
        let g = group_at(node, param_group_ind);
        let skip = g.optional() || match g.param_optional() {
            Some(po) => po == 0,
            None => false,
        };
        if !skip {
            proof {
                assert(!may_skip(node.def_view().nodes()[node.ind()].param_groups@[param_group_ind as int]));
            }
            break;
        }
        let ghost o_before = out@;
        out.push(
            MatchedGroup {
                group_ind: param_group_ind,
                start: 0,
                end: 0,
                name: g.name(),
                params_num: g.params_num(),
                optional: g.optional(),
                repeat: g.repeat(),
            },
        );
        proof {
            assert(out@.drop_last() =~= o_before);
            assert(groups[param_group_ind as int] == g.spec_group());
            assert(taken_as(g.spec_group(), 0, 0 == n, 0, 0));
            assert(run_ok(groups[out@.len() - 1], out@.last(), n as int));
        }
        param_group_ind = param_group_ind + 1;
    }
    proof {
        if start == n {
            assert(out@.len() == 0 ==> runs_end(out@, start as int) == start);
            if param_group_ind == gnum {
                assert forall|k: int| 0 <= k < gnum implies #[trigger] may_skip(node.def_view().nodes()[node.ind()].param_groups@[k]) by {
                    assert(groups[k] == node.def_view().nodes()[node.ind()].param_groups@[k]);
                    assert(may_skip(groups[k]));
                }
            }
        }
    }
    proof {
        reveal(read_groups);
        if plain {
            if record_val_ind < n {
                assert(gi0 == gnum && gi0 > 0);
                assert(read_groups(d, groups, gi0 as int, record_val_ind as int, n as int, memo@) == Reading::NoFit);
            } else if param_group_ind < gnum {
                assert(!may_skip(groups[param_group_ind as int]));
                assert(read_groups(d, groups, gi0 as int, record_val_ind as int, n as int, memo@) == Reading::NoFit);
            } else {
                assert(read_groups(d, groups, gi0 as int, record_val_ind as int, n as int, memo@) == Reading::Fits);
            }
        }
    }
    if record_val_ind != n || param_group_ind != gnum {
        return MatchOutcome::Failed;
    }
    proof {
        reveal(groups_parsed);
        if plain {
            assert(groups_parsed(d, groups, out@, memo@)) by {
                assert(groups_parsed(d, groups, out0, memo@));
                assert forall|k: int| 0 <= k < out@.len() implies #[trigger] single_parsed(d, groups[k], out@[k].start as int, out@[k].end as int, memo@)
                    && (out@[k].start < out@[k].end ==> groups[k].params@.len() > 0) by {
                    if k < out0.len() {
                        assert(out@[k] == out0[k]);
                        assert(single_parsed(d, groups[k], out0[k].start as int, out0[k].end as int, memo@));
                    }
                }
            }
        }
        assert(groups == node.def_view().nodes()[node.ind()].param_groups@);
        assert(plain == plain_groups(node.def_view().nodes()[node.ind()].param_groups@));
        if plain {
            assert(groups_parsed(node.def_view(), node.def_view().nodes()[node.ind()].param_groups@, out@, memo@));
        }
    }
    MatchOutcome::Matched(out)
}

} // verus!
