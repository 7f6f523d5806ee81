use vstd::prelude::*;

use crate::conf::{Record, Value};
use crate::conf::ParamGroup as ConfGroup;
use crate::def::{Def, find_branch, opt_str_view};
use crate::def::node::{NodeChildren, ParamGroup};
use crate::def::container::node_children::NodeChildrenContainer;
use crate::def::container::node_iter::trav;
use crate::def::container::node::opt_slice_view;
use super::matching::{MatchedGroup, shares_pattern, run_fits, run_ok, runs_end, next_pos, single_fit, matched_node, matched_as, made_by, memo_ok, row_ok, noted, passed_over, not_broken};
use super::greedy::plain_groups;
use super::start::{TempRecord, temps_ok, temp_ok, items_ok, text_views, records_from, laid_out, laid_out_once};
use super::error::ParseErrorType;
use super::nesting::{last_at, lemma_last_at_frame, lemma_last_at_bounds};
use crate::def::strs_view;

verus! {

/// The text at an optional index of `texts`.
pub open spec fn opt_text(texts: Seq<Seq<char>>, o: Option<usize>) -> Option<Seq<char>> {
    match o {
        Some(i) => Some(texts[i as int]),
        None => None,
    }
}

/// Where the runs `spans` (from one value position to another), taken in
/// turn from `pos`, end: a run starts where the last ended, or is left out
/// (an empty run at 0); -1 if one does neither.
pub open spec fn span_next(g: (int, int), pos: int) -> int {
    if pos < 0 {
        -1
    } else if g.0 == pos && pos <= g.1 {
        g.1
    } else if g.0 == 0 && g.1 == 0 {
        pos
    } else {
        -1
    }
}

pub open spec fn spans_end(spans: Seq<(int, int)>, start: int) -> int
    decreases spans.len(),
{
    if spans.len() == 0 {
        start
    } else {
        span_next(spans.last(), spans_end(spans.drop_last(), start))
    }
}

/// The runs of values that matched groups took.
pub open spec fn spans_of(gs: Seq<MatchedGroup>) -> Seq<(int, int)> {
    gs.map_values(|g: MatchedGroup| (g.start as int, g.end as int))
}

/// Matched groups end where their runs end.
pub proof fn lemma_runs_spans(gs: Seq<MatchedGroup>, start: int)
    ensures
        runs_end(gs, start) == spans_end(spans_of(gs), start),
    decreases gs.len(),
{
    if gs.len() > 0 {
        lemma_runs_spans(gs.drop_last(), start);
        assert(spans_of(gs).drop_last() =~= spans_of(gs.drop_last()));
        assert(next_pos(gs.last(), runs_end(gs.drop_last(), start)) == span_next(
            spans_of(gs).last(),
            spans_end(spans_of(gs).drop_last(), start),
        ));
    }
}

/// A parameter group of a record carries the settings and the name of the
/// group `g` of its node.
pub open spec fn group_as(cg: ConfGroup, texts: Seq<Seq<char>>, g: ParamGroup) -> bool {
    &&& cg.params_num == g.params@.len()
    &&& cg.optional == g.optional
    &&& cg.repeat == g.repeat
    &&& opt_text(texts, cg.name) == opt_str_view(g.name)
}

/// The runs of the parameter groups `ps..pe`, by value position from `base`.
pub open spec fn group_spans(groups: Seq<ConfGroup>, ps: int, pe: int, base: int) -> Seq<(int, int)> {
    Seq::new(
        (pe - ps) as nat,
        |j: int| (groups[ps + j].conf_values.start - base, groups[ps + j].conf_values.end - base),
    )
}

/// The parameter groups `ps..pe` of a record with the values `vs..ve` are the
/// groups `ngs` of its node, in order, each with that group's settings and
/// name, taking runs of the record's values one after another from `start`
/// (past the tag, where the node has one) to the last value.
pub open spec fn groups_fit(groups: Seq<ConfGroup>, texts: Seq<Seq<char>>, vs: int, ve: int, ps: int, pe: int, ngs: Seq<ParamGroup>, start: int) -> bool {
    &&& 0 <= ps <= pe
    &&& pe - ps == ngs.len()
    &&& forall|g: int| ps <= g < pe ==> group_as(#[trigger] groups[g], texts, ngs[g - ps])
    &&& spans_end(group_spans(groups, ps, pe, vs), start) == ve - vs
}

/// The nodes tried, in order, for a record whose first value is `first` and
/// that is looked up in branch `b`: those with that tag, then the untagged
/// ones, of the branch and of the branches it takes in.
pub open spec fn candidates<F>(d: Def<F>, b: int, first: Seq<char>) -> Seq<usize> {
    let from = seq![opt_str_view(d.branches()[b].branch_name)];
    trav(d.branches(), Some(first), Seq::empty(), from) + trav(d.branches(), None, Seq::empty(), from)
}

/// The texts of values `vs..ve`.
pub open spec fn vals_texts(texts: Seq<Seq<char>>, values: Seq<Value>, vs: int, ve: int) -> Seq<Seq<char>> {
    Seq::new((ve - vs) as nat, |i: int| texts[values[vs + i].text_ind as int])
}

/// Node `k` is the first node tried in branch `b` that a record with the
/// value texts `vt` may fit: it is among the nodes tried there for the first
/// value, and each node tried before it that has a single group, or groups
/// that deal out no values between them, does not fit the values (see
/// `passed_over`).
pub open spec fn first_fit<F, P>(d: Def<F>, b: int, k: int, vt: Seq<Seq<char>>) -> bool
    where
        F: Fn(&str) -> Option<P>,
{
    let cands = candidates(d, b, vt[0]);
    exists|i: int|
        0 <= i < cands.len() && cands[i] == k && forall|j: int| 0 <= j < i ==> #[trigger] passed_over::<F, P>(d, cands[j] as int, vt)
}

/// A node found among the tagged nodes tried, after nodes that the values do
/// not fit, is the first they may fit.
pub proof fn lemma_first_fit_tagged<F, P>(d: Def<F>, b: int, vt: Seq<Seq<char>>, c: int)
    where
        F: Fn(&str) -> Option<P>,
    requires
        0 <= c < trav(d.branches(), Some(vt[0]), Seq::empty(), seq![opt_str_view(d.branches()[b].branch_name)]).len(),
        forall|j: int| 0 <= j < c ==> #[trigger] passed_over::<F, P>(
            d,
            trav(d.branches(), Some(vt[0]), Seq::empty(), seq![opt_str_view(d.branches()[b].branch_name)])[j] as int,
            vt,
        ),
    ensures
        first_fit::<F, P>(
            d,
            b,
            trav(d.branches(), Some(vt[0]), Seq::empty(), seq![opt_str_view(d.branches()[b].branch_name)])[c] as int,
            vt,
        ),
{
    let from = seq![opt_str_view(d.branches()[b].branch_name)];
    let a = trav(d.branches(), Some(vt[0]), Seq::empty(), from);
    let cands = candidates(d, b, vt[0]);
    assert(cands[c] == a[c]);
    assert forall|j: int| 0 <= j < c implies #[trigger] passed_over::<F, P>(d, cands[j] as int, vt) by {
        assert(cands[j] == a[j]);
    }
}

/// A node found among the untagged nodes tried, after all tagged ones and
/// untagged ones that the values do not fit, is the first they may fit.
pub proof fn lemma_first_fit_untagged<F, P>(d: Def<F>, b: int, vt: Seq<Seq<char>>, c: int)
    where
        F: Fn(&str) -> Option<P>,
    requires
        0 <= c < trav(d.branches(), None, Seq::empty(), seq![opt_str_view(d.branches()[b].branch_name)]).len(),
        forall|j: int|
            0 <= j < trav(d.branches(), Some(vt[0]), Seq::empty(), seq![opt_str_view(d.branches()[b].branch_name)]).len()
                ==> #[trigger] passed_over::<F, P>(
                d,
                trav(d.branches(), Some(vt[0]), Seq::empty(), seq![opt_str_view(d.branches()[b].branch_name)])[j] as int,
                vt,
            ),
        forall|j: int| 0 <= j < c ==> #[trigger] passed_over::<F, P>(
            d,
            trav(d.branches(), None, Seq::empty(), seq![opt_str_view(d.branches()[b].branch_name)])[j] as int,
            vt,
        ),
    ensures
        first_fit::<F, P>(
            d,
            b,
            trav(d.branches(), None, Seq::empty(), seq![opt_str_view(d.branches()[b].branch_name)])[c] as int,
            vt,
        ),
{
    let from = seq![opt_str_view(d.branches()[b].branch_name)];
    let a = trav(d.branches(), Some(vt[0]), Seq::empty(), from);
    let u = trav(d.branches(), None, Seq::empty(), from);
    let cands = candidates(d, b, vt[0]);
    assert(cands[a.len() + c] == u[c]);
    assert forall|j: int| 0 <= j < a.len() + c implies #[trigger] passed_over::<F, P>(d, cands[j] as int, vt) by {
        if j < a.len() {
            assert(cands[j] == a[j]);
        } else {
            assert(cands[j] == u[j - a.len()]);
        }
    }
}

/// The cause of the error `t` of a record line whose values have the texts
/// `vt` and whose parent is `q` (0 for the root), of node `kq`: children
/// where the parent's node takes no records below it, or names a branch that
/// is missing; no node that fits only where, in the branch the record is
/// looked up in, no node tried fits the values, as far as nodes of a single
/// group, or of groups that deal out no values between them, tell (see
/// `passed_over`); a definition that cannot be matched only
/// where a node tried there has several groups, or has one group that no
/// number of values fits; a tag used twice only where `seen` (a tagged record
/// under the same parent has that tag) and the first node tried there that
/// the values may fit (see `first_fit`) lets its tag stand once.
pub open spec fn fail_cause<F, P>(d: Def<F>, rb: int, q: int, kq: int, vt: Seq<Seq<char>>, seen: bool, t: ParseErrorType) -> bool
    where
        F: Fn(&str) -> Option<P>,
{
    &&& t is TagOnce ==> seen && (t matches ParseErrorType::TagOnce(n) && n@ == vt[0]) && exists|b: int|
        #[trigger] looked_up_in(d, rb, q, kq, b) && exists|k: int|
            #[trigger] first_fit::<F, P>(d, b, k, vt) && d.nodes()[k].has_tag && d.nodes()[k].tag_once
    &&& t is DefNoChildren ==> q != 0 && !(d.nodes()[kq].children is Branch)
    &&& t is DefChildrenBranchNotFound ==> q != 0 && (d.nodes()[kq].children matches NodeChildren::Branch(name) && find_branch(
        d.branches(),
        name@,
    ) is None && (t matches ParseErrorType::DefChildrenBranchNotFound(n) && n@ == name@))
    &&& t is NoDefForRecord ==> exists|b: int|
        #[trigger] looked_up_in(d, rb, q, kq, b) && forall|j: int|
            0 <= j < candidates(d, b, vt[0]).len() ==> #[trigger] passed_over::<F, P>(d, candidates(d, b, vt[0])[j] as int, vt)
    &&& t is Unknown ==> exists|b: int|
        #[trigger] looked_up_in(d, rb, q, kq, b) && exists|j: int|
            0 <= j < candidates(d, b, vt[0]).len() && (d.nodes()[candidates(d, b, vt[0])[j] as int].param_groups@.len() != 1 && !plain_groups(d.nodes()[candidates(d, b, vt[0])[j] as int].param_groups@)
                || !not_broken(d, #[trigger] candidates(d, b, vt[0])[j] as int, vt.len() as int))
}

/// Where every node tried with the first value as tag and every untagged
/// node is passed over, every node tried is.
pub proof fn lemma_all_passed<F, P>(d: Def<F>, b: int, vt: Seq<Seq<char>>)
    where
        F: Fn(&str) -> Option<P>,
    requires
        forall|j: int|
            0 <= j < trav(d.branches(), Some(vt[0]), Seq::empty(), seq![opt_str_view(d.branches()[b].branch_name)]).len()
                ==> #[trigger] passed_over::<F, P>(
                d,
                trav(d.branches(), Some(vt[0]), Seq::empty(), seq![opt_str_view(d.branches()[b].branch_name)])[j] as int,
                vt,
            ),
        forall|j: int|
            0 <= j < trav(d.branches(), None, Seq::empty(), seq![opt_str_view(d.branches()[b].branch_name)]).len()
                ==> #[trigger] passed_over::<F, P>(
                d,
                trav(d.branches(), None, Seq::empty(), seq![opt_str_view(d.branches()[b].branch_name)])[j] as int,
                vt,
            ),
    ensures
        forall|j: int| 0 <= j < candidates(d, b, vt[0]).len() ==> #[trigger] passed_over::<F, P>(d, candidates(d, b, vt[0])[j] as int, vt),
{
    let from = seq![opt_str_view(d.branches()[b].branch_name)];
    let a = trav(d.branches(), Some(vt[0]), Seq::empty(), from);
    let u = trav(d.branches(), None, Seq::empty(), from);
    let cands = candidates(d, b, vt[0]);
    assert forall|j: int| 0 <= j < cands.len() implies #[trigger] passed_over::<F, P>(d, cands[j] as int, vt) by {
        if j < a.len() {
            assert(cands[j] == a[j]);
        } else {
            assert(cands[j] == u[j - a.len()]);
        }
    }
}

/// A node tried with the first value as tag, or an untagged one, is among the
/// nodes tried, at the place given.
pub proof fn lemma_cand_at<F>(d: Def<F>, b: int, first: Seq<char>, tagged: bool, c: int)
    requires
        0 <= c < trav(d.branches(), if tagged { Some(first) } else { None }, Seq::empty(), seq![opt_str_view(d.branches()[b].branch_name)]).len(),
    ensures
        ({
            let from = seq![opt_str_view(d.branches()[b].branch_name)];
            let a = trav(d.branches(), Some(first), Seq::empty(), from);
            let x = trav(d.branches(), if tagged { Some(first) } else { None }, Seq::empty(), from);
            let i = if tagged { c } else { a.len() + c };
            0 <= i < candidates(d, b, first).len() && candidates(d, b, first)[i] == x[c]
        }),
{
}

/// Each collected record but the root is of the first node of its branch
/// that its values may fit.
pub open spec fn temps_first_fit<F, P>(d: Def<F>, ts: Seq<TempRecord<F>>, texts: Seq<Seq<char>>, values: Seq<Value>, nodes: Seq<int>, brs: Seq<int>) -> bool
    where
        F: Fn(&str) -> Option<P>,
{
    forall|t: int|
        1 <= t < ts.len() ==> #[trigger] first_fit::<F, P>(d, brs[t], nodes[t], vals_texts(texts, values, ts[t].values.0 as int, ts[t].values.1 as int))
}

/// Each record but the root is of the first node of its branch that its
/// values may fit.
pub open spec fn records_first_fit<F, P>(d: Def<F>, rs: Seq<Record>, texts: Seq<Seq<char>>, values: Seq<Value>, nodes: Seq<int>, brs: Seq<int>) -> bool
    where
        F: Fn(&str) -> Option<P>,
{
    forall|r: int|
        1 <= r < rs.len() ==> #[trigger] first_fit::<F, P>(
            d,
            brs[r],
            nodes[r],
            vals_texts(texts, values, rs[r].conf_values.start as int, rs[r].conf_values.end as int),
        )
}

/// Adding records, values and texts keeps the first fits of the records
/// collected before, whose values and texts stay.
pub proof fn lemma_first_fit_frame<F, P>(
    d: Def<F>,
    ts0: Seq<TempRecord<F>>,
    texts0: Seq<Seq<char>>,
    values0: Seq<Value>,
    nodes0: Seq<int>,
    brs0: Seq<int>,
    ts1: Seq<TempRecord<F>>,
    texts1: Seq<Seq<char>>,
    values1: Seq<Value>,
    nodes1: Seq<int>,
    brs1: Seq<int>,
)
    where
        F: Fn(&str) -> Option<P>,
    requires
        temps_first_fit::<F, P>(d, ts0, texts0, values0, nodes0, brs0),
        ts1.len() >= ts0.len(),
        forall|t: int| 1 <= t < ts0.len() ==> (#[trigger] ts1[t]).values == ts0[t].values && nodes1[t] == nodes0[t] && brs1[t] == brs0[t],
        forall|t: int| 1 <= t < ts0.len() ==> (#[trigger] ts0[t]).values.0 <= ts0[t].values.1 <= values0.len(),
        values1.len() >= values0.len(),
        forall|v: int| 0 <= v < values0.len() ==> (#[trigger] values1[v]).text_ind == values0[v].text_ind && values0[v].text_ind < texts0.len(),
        texts1.len() >= texts0.len(),
        forall|i: int| 0 <= i < texts0.len() ==> #[trigger] texts1[i] == texts0[i],
    ensures
        forall|t: int|
            1 <= t < ts0.len() ==> #[trigger] first_fit::<F, P>(d, brs1[t], nodes1[t], vals_texts(texts1, values1, ts1[t].values.0 as int, ts1[t].values.1 as int)),
{
    assert forall|t: int| 1 <= t < ts0.len() implies #[trigger] first_fit::<F, P>(d, brs1[t], nodes1[t], vals_texts(texts1, values1, ts1[t].values.0 as int, ts1[t].values.1 as int)) by {
        let vs = ts0[t].values.0 as int;
        let ve = ts0[t].values.1 as int;
        assert(ts1[t].values == ts0[t].values);
        assert forall|i: int| 0 <= i < ve - vs implies #[trigger] vals_texts(texts1, values1, vs, ve)[i] == vals_texts(texts0, values0, vs, ve)[i] by {
            assert(values1[vs + i].text_ind == values0[vs + i].text_ind);
        }
        assert(vals_texts(texts1, values1, vs, ve) =~= vals_texts(texts0, values0, vs, ve));
        assert(first_fit::<F, P>(d, brs0[t], nodes0[t], vals_texts(texts0, values0, vs, ve)));
    }
}

/// Collecting one more record, of the first node its values may fit, keeps
/// every collected record of the first node its values may fit.
pub proof fn lemma_first_fit_push<F, P>(
    d: Def<F>,
    ts0: Seq<TempRecord<F>>,
    texts0: Seq<Seq<char>>,
    values0: Seq<Value>,
    nodes0: Seq<int>,
    brs0: Seq<int>,
    ts1: Seq<TempRecord<F>>,
    texts1: Seq<Seq<char>>,
    values1: Seq<Value>,
    nodes1: Seq<int>,
    brs1: Seq<int>,
    vv: Seq<Seq<char>>,
)
    where
        F: Fn(&str) -> Option<P>,
    requires
        temps_first_fit::<F, P>(d, ts0, texts0, values0, nodes0, brs0),
        ts1.len() == ts0.len() + 1,
        forall|t: int| 1 <= t < ts0.len() ==> (#[trigger] ts1[t]).values == ts0[t].values && nodes1[t] == nodes0[t] && brs1[t] == brs0[t],
        forall|t: int| 1 <= t < ts0.len() ==> (#[trigger] ts0[t]).values.0 <= ts0[t].values.1 <= values0.len(),
        values1.len() >= values0.len(),
        forall|v: int| 0 <= v < values0.len() ==> (#[trigger] values1[v]).text_ind == values0[v].text_ind && values0[v].text_ind < texts0.len(),
        texts1.len() >= texts0.len(),
        forall|i: int| 0 <= i < texts0.len() ==> #[trigger] texts1[i] == texts0[i],
        ts1.last().values.0 <= ts1.last().values.1,
        vv.len() == ts1.last().values.1 - ts1.last().values.0,
        forall|i: int| 0 <= i < vv.len() ==> #[trigger] vv[i] == texts1[values1[ts1.last().values.0 + i].text_ind as int],
        first_fit::<F, P>(d, brs1[ts0.len() as int], nodes1[ts0.len() as int], vv),
    ensures
        temps_first_fit::<F, P>(d, ts1, texts1, values1, nodes1, brs1),
{
    lemma_first_fit_frame::<F, P>(d, ts0, texts0, values0, nodes0, brs0, ts1, texts1, values1, nodes1, brs1);
    let t = ts0.len() as int;
    assert(vals_texts(texts1, values1, ts1[t].values.0 as int, ts1[t].values.1 as int) =~= vv);
    assert forall|t2: int| 1 <= t2 < ts1.len() implies #[trigger] first_fit::<F, P>(d, brs1[t2], nodes1[t2], vals_texts(texts1, values1, ts1[t2].values.0 as int, ts1[t2].values.1 as int)) by {}
}

/// The records laid out from the collected records are of the first nodes
/// their values may fit, as the collected records are.
pub proof fn lemma_records_first_fit<F, P>(
    d: Def<F>,
    ts: Seq<TempRecord<F>>,
    texts: Seq<Seq<char>>,
    values: Seq<Value>,
    nodes: Seq<int>,
    brs: Seq<int>,
    rs: Seq<Record>,
    m: Seq<int>,
    inv: Seq<int>,
)
    where
        F: Fn(&str) -> Option<P>,
    requires
        temps_first_fit::<F, P>(d, ts, texts, values, nodes, brs),
        records_from(ts, rs, m),
        laid_out_once(ts.len() as int, m, inv),
    ensures
        records_first_fit::<F, P>(d, rs, texts, values, Seq::new(rs.len(), |r: int| nodes[m[r]]), Seq::new(rs.len(), |r: int| brs[m[r]])),
{
    let ns = Seq::new(rs.len(), |r: int| nodes[m[r]]);
    let bs = Seq::new(rs.len(), |r: int| brs[m[r]]);
    assert forall|r: int| 1 <= r < rs.len() implies #[trigger] first_fit::<F, P>(
        d,
        bs[r],
        ns[r],
        vals_texts(texts, values, rs[r].conf_values.start as int, rs[r].conf_values.end as int),
    ) by {
        assert(laid_out(ts, rs, m, r));
        let t = m[r];
        assert(t != 0) by {
            if t == 0 {
                assert(inv[m[r]] == r);
                assert(inv[m[0]] == 0);
            }
        }
        assert(first_fit::<F, P>(d, brs[t], nodes[t], vals_texts(texts, values, ts[t].values.0 as int, ts[t].values.1 as int)));
    }
}

/// The name of branch `b`, empty for an unnamed one.
pub open spec fn branch_text<F>(d: Def<F>, b: int) -> Seq<char> {
    match opt_str_view(d.branches()[b].branch_name) {
        Some(s) => s,
        None => Seq::empty(),
    }
}

/// A record with the values `vs..ve`, the parameter groups `ps..pe`, the tag
/// flag `tag` and the label and branch texts `label` and `bname` is a record of
/// node `k` of `d`, looked up in branch `b`: the node is among those tried
/// there for the record's first value, and the record has the node's tag,
/// label and parameter groups and names the branch; a node of one group
/// takes as many values as that group fits.
pub open spec fn fits_node<F>(
    d: Def<F>,
    texts: Seq<Seq<char>>,
    values: Seq<Value>,
    groups: Seq<ConfGroup>,
    vs: int,
    ve: int,
    ps: int,
    pe: int,
    tag: bool,
    label: Option<usize>,
    bname: Option<usize>,
    b: int,
    k: int,
) -> bool {
    let ngs = d.nodes()[k].param_groups@;
    let start = if tag {
        1int
    } else {
        0int
    };
    &&& 0 <= b < d.branches().len()
    &&& 0 <= k < d.nodes().len()
    &&& 0 <= vs < ve
    &&& candidates(d, b, texts[values[vs].text_ind as int]).contains(k as usize)
    &&& tag == d.nodes()[k].has_tag
    &&& opt_text(texts, label) == opt_str_view(d.nodes()[k].node_label)
    &&& bname matches Some(i) && texts[i as int] == branch_text(d, b)
    &&& groups_fit(groups, texts, vs, ve, ps, pe, ngs, start)
    &&& ngs.len() == 1 ==> single_fit(ngs[0], ve - vs - start) == Some(true)
    &&& runs_fit(ngs, groups, ps, pe, ve)
}

/// Where a node has other than a single group, the values of each of its
/// stored groups `ps..pe` fit that group (see `group_run_ok`).
#[verifier::opaque]
pub open spec fn runs_fit(ngs: Seq<ParamGroup>, groups: Seq<ConfGroup>, ps: int, pe: int, ve: int) -> bool {
    ngs.len() != 1 ==> forall|g: int| ps <= g < pe ==> #[trigger] group_run_ok(ngs[g - ps], groups[g], ve)
}

/// The values of the stored group `cg` fit the node's group `ng` taken on its
/// own (`ve`: where the record's values end), unless `ng` deals out its values
/// with adjacent groups of its pattern.
pub open spec fn group_run_ok(ng: ParamGroup, cg: ConfGroup, ve: int) -> bool {
    shares_pattern(ng) || run_fits(ng, cg.conf_values.end - cg.conf_values.start, cg.conf_values.end == ve)
}

/// A record whose parent is `q` is looked up in branch `b`: the root branch
/// `rb` for a record at the top, else the branch that its parent's node `kq`
/// names.
pub open spec fn looked_up_in<F>(d: Def<F>, rb: int, q: int, kq: int, b: int) -> bool {
    if q == 0 {
        b == rb
    } else {
        d.nodes()[kq].children matches NodeChildren::Branch(name) && find_branch(d.branches(), name@) == Some(b)
    }
}

/// Record `r` of `rs` is a record of node `nodes[r]`, looked up in branch
/// `brs[r]` as its parent's node says.
pub open spec fn record_fits<F>(
    d: Def<F>,
    rb: int,
    rs: Seq<Record>,
    texts: Seq<Seq<char>>,
    values: Seq<Value>,
    groups: Seq<ConfGroup>,
    nodes: Seq<int>,
    brs: Seq<int>,
    r: int,
) -> bool {
    let rec = rs[r];
    &&& fits_node(
        d,
        texts,
        values,
        groups,
        rec.conf_values.start as int,
        rec.conf_values.end as int,
        rec.param_groups.start as int,
        rec.param_groups.end as int,
        rec.tag,
        rec.node_label,
        rec.branch_name,
        brs[r],
        nodes[r],
    )
    &&& rec.parent matches Some(q) && looked_up_in(d, rb, q as int, nodes[q as int], brs[r])
}

/// Each record but the root is a record of a node of `d`, looked up in the
/// branch that its parent's node names (`rb` at the top): `nodes` and `brs`
/// give, for each record, its node and its branch.
pub open spec fn records_fit<F>(
    d: Def<F>,
    rb: int,
    rs: Seq<Record>,
    texts: Seq<Seq<char>>,
    values: Seq<Value>,
    groups: Seq<ConfGroup>,
    nodes: Seq<int>,
    brs: Seq<int>,
) -> bool {
    &&& nodes.len() == rs.len()
    &&& brs.len() == rs.len()
    &&& forall|r: int| 1 <= r < rs.len() ==> #[trigger] record_fits(d, rb, rs, texts, values, groups, nodes, brs, r)
}

/// What a node's record takes below it, as found in the definition: nothing,
/// a body, the records of the branch the node names, or a missing branch.
pub open spec fn kids_of<'a, F>(d: Def<F>, k: int, kids: NodeChildrenContainer<'a, F>) -> bool {
    match d.nodes()[k].children {
        NodeChildren::Empty => kids is Empty,
        NodeChildren::Body(_) => kids is Body,
        NodeChildren::Branch(name) => match find_branch(d.branches(), name@) {
            Some(b) => kids matches NodeChildrenContainer::Branch(bc) && bc.ind() == b,
            None => kids matches NodeChildrenContainer::BranchMissing(s) && s@ == name@,
        },
    }
}

/// A record keeps fitting its node as texts, values and groups are added after
/// those it indexes.
pub proof fn lemma_fits_node_frame<F>(
    d: Def<F>,
    texts: Seq<Seq<char>>,
    values: Seq<Value>,
    groups: Seq<ConfGroup>,
    texts2: Seq<Seq<char>>,
    values2: Seq<Value>,
    groups2: Seq<ConfGroup>,
    vs: int,
    ve: int,
    ps: int,
    pe: int,
    tag: bool,
    label: Option<usize>,
    bname: Option<usize>,
    b: int,
    k: int,
)
    requires
        fits_node(d, texts, values, groups, vs, ve, ps, pe, tag, label, bname, b, k),
        vs < values.len(),
        values[vs].text_ind < texts.len(),
        label matches Some(i) ==> i < texts.len(),
        bname matches Some(i) ==> i < texts.len(),
        pe <= groups.len(),
        forall|g: int| ps <= g < pe ==> ((#[trigger] groups[g]).name matches Some(i) ==> i < texts.len()),
        texts2.len() >= texts.len(),
        forall|i: int| 0 <= i < texts.len() ==> #[trigger] texts2[i] == texts[i],
        vs < values2.len(),
        values2[vs].text_ind == values[vs].text_ind,
        groups2.len() >= pe,
        forall|g: int| ps <= g < pe ==> #[trigger] groups2[g] == groups[g],
    ensures
        fits_node(d, texts2, values2, groups2, vs, ve, ps, pe, tag, label, bname, b, k),
{
    let ngs = d.nodes()[k].param_groups@;
    assert forall|g: int| ps <= g < pe implies group_as(#[trigger] groups2[g], texts2, ngs[g - ps]) by {
        assert(groups2[g] == groups[g]);
        assert(group_as(groups[g], texts, ngs[g - ps]));
    }
    assert(group_spans(groups2, ps, pe, vs) =~= group_spans(groups, ps, pe, vs)) by {
        assert forall|j: int| 0 <= j < pe - ps implies #[trigger] groups2[ps + j] == groups[ps + j] by {}
    }
    reveal(runs_fit);
    if ngs.len() != 1 {
        assert forall|g: int| ps <= g < pe implies #[trigger] group_run_ok(ngs[g - ps], groups2[g], ve) by {
            assert(groups2[g] == groups[g]);
            assert(group_run_ok(ngs[g - ps], groups[g], ve));
        }
    }
}

/// The nodes tried with the record's first value as tag are among the nodes tried.
pub proof fn lemma_cands_tagged<F>(d: Def<F>, b: int, first: Seq<char>, k: usize)
    requires
        trav(d.branches(), Some(first), Seq::empty(), seq![opt_str_view(d.branches()[b].branch_name)]).contains(k),
    ensures
        candidates(d, b, first).contains(k),
{
    let from = seq![opt_str_view(d.branches()[b].branch_name)];
    let a = trav(d.branches(), Some(first), Seq::empty(), from);
    let j = choose|j: int| 0 <= j < a.len() && a[j] == k;
    assert(candidates(d, b, first)[j] == k);
}

/// The untagged nodes tried are among the nodes tried.
pub proof fn lemma_cands_untagged<F>(d: Def<F>, b: int, first: Seq<char>, k: usize)
    requires
        trav(d.branches(), None, Seq::empty(), seq![opt_str_view(d.branches()[b].branch_name)]).contains(k),
    ensures
        candidates(d, b, first).contains(k),
{
    let from = seq![opt_str_view(d.branches()[b].branch_name)];
    let a = trav(d.branches(), Some(first), Seq::empty(), from);
    let c = trav(d.branches(), None, Seq::empty(), from);
    let j = choose|j: int| 0 <= j < c.len() && c[j] == k;
    assert(candidates(d, b, first)[a.len() + j] == k);
}

/// Parameter group `cg` was stored for the matched group `m`, its values
/// counted from `base`.
pub open spec fn stored_as(cg: ConfGroup, texts: Seq<Seq<char>>, m: MatchedGroup, base: int) -> bool {
    &&& cg.conf_values.start == base + m.start
    &&& cg.conf_values.end == base + m.end
    &&& cg.params_num == m.params_num
    &&& cg.optional == m.optional
    &&& cg.repeat == m.repeat
    &&& opt_text(texts, cg.name) == opt_slice_view(m.name)
}

/// A record of node `k`, found among the nodes tried for its first value in
/// branch `b`, whose groups were stored for the matched groups `gs`, fits `k`.
pub proof fn lemma_fits_new<F>(
    d: Def<F>,
    texts: Seq<Seq<char>>,
    values: Seq<Value>,
    groups: Seq<ConfGroup>,
    vs: int,
    ve: int,
    ps: int,
    pe: int,
    tag: bool,
    label: Option<usize>,
    bname: Option<usize>,
    b: int,
    k: int,
    gs: Seq<MatchedGroup>,
)
    requires
        0 <= b < d.branches().len(),
        0 <= k < d.nodes().len(),
        0 <= vs < ve,
        candidates(d, b, texts[values[vs].text_ind as int]).contains(k as usize),
        tag == d.nodes()[k].has_tag,
        opt_text(texts, label) == opt_str_view(d.nodes()[k].node_label),
        bname matches Some(i) && texts[i as int] == branch_text(d, b),
        matched_node(gs, d.nodes()[k].param_groups@, if tag {
            1int
        } else {
            0int
        }, ve - vs),
        d.nodes()[k].param_groups@.len() == 1 ==> single_fit(d.nodes()[k].param_groups@[0], ve - vs - (if tag {
            1int
        } else {
            0int
        })) == Some(true),
        d.nodes()[k].param_groups@.len() != 1 ==> forall|j: int|
            0 <= j < gs.len() ==> #[trigger] run_ok(d.nodes()[k].param_groups@[j], gs[j], ve - vs),
        0 <= ps,
        pe == ps + gs.len(),
        forall|g: int| ps <= g < pe ==> stored_as(#[trigger] groups[g], texts, gs[g - ps], vs),
    ensures
        fits_node(d, texts, values, groups, vs, ve, ps, pe, tag, label, bname, b, k),
{
    let ngs = d.nodes()[k].param_groups@;
    let start = if tag {
        1int
    } else {
        0int
    };
    assert forall|g: int| ps <= g < pe implies group_as(#[trigger] groups[g], texts, ngs[g - ps]) by {
        assert(stored_as(groups[g], texts, gs[g - ps], vs));
        assert(matched_as(gs[g - ps], ngs[g - ps]));
    }
    assert(group_spans(groups, ps, pe, vs) =~= spans_of(gs)) by {
        assert forall|j: int| 0 <= j < pe - ps implies #[trigger] group_spans(groups, ps, pe, vs)[j] == spans_of(gs)[j] by {
            assert(stored_as(groups[ps + j], texts, gs[ps + j - ps], vs));
        }
    }
    lemma_runs_spans(gs, start);
    reveal(runs_fit);
    if ngs.len() != 1 {
        assert forall|g: int| ps <= g < pe implies #[trigger] group_run_ok(ngs[g - ps], groups[g], ve) by {
            assert(stored_as(groups[g], texts, gs[g - ps], vs));
            assert(run_ok(ngs[g - ps], gs[g - ps], ve - vs));
        }
    }
}

/// Collected record `t` is a record of node `nodes[t]`, looked up in branch
/// `brs[t]` as its parent's node says, and takes below it what that node does.
pub open spec fn temp_fits<F>(
    d: Def<F>,
    rb: int,
    ts: Seq<TempRecord<F>>,
    texts: Seq<Seq<char>>,
    values: Seq<Value>,
    groups: Seq<ConfGroup>,
    nodes: Seq<int>,
    brs: Seq<int>,
    t: int,
) -> bool {
    let tr = ts[t];
    &&& fits_node(
        d,
        texts,
        values,
        groups,
        tr.values.0 as int,
        tr.values.1 as int,
        tr.param_groups.0 as int,
        tr.param_groups.1 as int,
        tr.tag,
        tr.node_label,
        tr.branch_name,
        brs[t],
        nodes[t],
    )
    &&& kids_of(d, nodes[t], tr.kids)
    &&& tr.parent matches Some(p) && looked_up_in(d, rb, p as int, nodes[p as int], brs[t])
}

/// Two collected records agree on what their fit to a node depends on.
pub open spec fn same_fit_fields<F>(a: TempRecord<F>, b: TempRecord<F>) -> bool {
    &&& a.parent == b.parent
    &&& a.values == b.values
    &&& a.param_groups == b.param_groups
    &&& a.tag == b.tag
    &&& a.node_label == b.node_label
    &&& a.branch_name == b.branch_name
    &&& a.kids == b.kids
}

/// The first `n` collected records keep fitting their nodes as texts, values
/// and groups are added after those they index.
pub proof fn lemma_temps_fit_frame<F>(
    d: Def<F>,
    rb: int,
    ts: Seq<TempRecord<F>>,
    texts: Seq<String>,
    values: Seq<Value>,
    groups: Seq<ConfGroup>,
    np: int,
    nodes: Seq<int>,
    brs: Seq<int>,
    ts2: Seq<TempRecord<F>>,
    texts2: Seq<String>,
    values2: Seq<Value>,
    groups2: Seq<ConfGroup>,
    nodes2: Seq<int>,
    brs2: Seq<int>,
    n: int,
)
    requires
        0 <= n <= ts.len(),
        n <= ts2.len(),
        forall|t: int| 1 <= t < n ==> #[trigger] temp_fits(d, rb, ts, text_views(texts), values, groups, nodes, brs, t),
        temps_ok(ts, texts.len() as int, values.len() as int, groups.len() as int),
        items_ok(values, groups, texts.len() as int, np),
        forall|t: int| 0 <= t < n ==> same_fit_fields(#[trigger] ts2[t], ts[t]),
        forall|t: int| 0 <= t < n ==> #[trigger] nodes2[t] == nodes[t],
        forall|t: int| 0 <= t < n ==> #[trigger] brs2[t] == brs[t],
        texts2.len() >= texts.len(),
        forall|i: int| 0 <= i < texts.len() ==> #[trigger] texts2[i] == texts[i],
        values2.len() >= values.len(),
        forall|v: int| 0 <= v < values.len() ==> #[trigger] values2[v].text_ind == values[v].text_ind,
        groups2.len() >= groups.len(),
        forall|g: int| 0 <= g < groups.len() ==> #[trigger] groups2[g] == groups[g],
    ensures
        forall|t: int| 1 <= t < n ==> #[trigger] temp_fits(d, rb, ts2, text_views(texts2), values2, groups2, nodes2, brs2, t),
{
    let tx = text_views(texts);
    let tx2 = text_views(texts2);
    assert forall|i: int| 0 <= i < tx.len() implies #[trigger] tx2[i] == tx[i] by {
        assert(texts2[i] == texts[i]);
    }
    assert forall|t: int| 1 <= t < n implies #[trigger] temp_fits(d, rb, ts2, tx2, values2, groups2, nodes2, brs2, t) by {
        let tr = ts[t];
        assert(temp_fits(d, rb, ts, tx, values, groups, nodes, brs, t));
        assert(temp_ok(ts, t, texts.len() as int, values.len() as int, groups.len() as int));
        assert(same_fit_fields(ts2[t], ts[t]));
        assert(nodes2[t] == nodes[t] && brs2[t] == brs[t]);
        let vs = tr.values.0 as int;
        let ps = tr.param_groups.0 as int;
        let pe = tr.param_groups.1 as int;
        assert(values[vs].text_ind < texts.len());
        assert(values2[vs].text_ind == values[vs].text_ind);
        assert forall|g: int| ps <= g < pe implies ((#[trigger] groups[g]).name matches Some(i) ==> i < tx.len()) by {}
        assert forall|g: int| ps <= g < pe implies #[trigger] groups2[g] == groups[g] by {}
        lemma_fits_node_frame(
            d,
            tx,
            values,
            groups,
            tx2,
            values2,
            groups2,
            vs,
            tr.values.1 as int,
            ps,
            pe,
            tr.tag,
            tr.node_label,
            tr.branch_name,
            brs[t],
            nodes[t],
        );
        let p = tr.parent->0 as int;
        assert(nodes2[p] == nodes[p]);
    }
}

/// The text of the first value of collected record `t`: its tag, where its node has one.
pub open spec fn first_text<F>(ts: Seq<TempRecord<F>>, texts: Seq<Seq<char>>, values: Seq<Value>, t: int) -> Seq<char> {
    texts[values[ts[t].values.0 as int].text_ind as int]
}

/// The tag of each tagged collected record whose parent is `p` is among `tags`.
pub open spec fn tags_noted<F>(ts: Seq<TempRecord<F>>, texts: Seq<Seq<char>>, values: Seq<Value>, tags: Seq<Seq<char>>, p: int) -> bool {
    forall|t: int|
        1 <= t < ts.len() && (#[trigger] ts[t]).tag && (ts[t].parent matches Some(q) && q as int == p) ==> tags.contains(
            first_text(ts, texts, values, t),
        )
}

/// A tagged record whose node's tag may stand once has no earlier tagged
/// sibling with the same tag.
pub open spec fn tags_once_kept<F>(d: Def<F>, ts: Seq<TempRecord<F>>, texts: Seq<Seq<char>>, values: Seq<Value>, nodes: Seq<int>) -> bool {
    forall|t1: int, t2: int|
        #![trigger ts[t1], ts[t2]]
        1 <= t1 < t2 < ts.len() && ts[t1].parent == ts[t2].parent && ts[t1].tag && ts[t2].tag && d.nodes()[nodes[t2]].tag_once
            ==> first_text(ts, texts, values, t1) != first_text(ts, texts, values, t2)
}

/// The tags in use at each depth, as texts.
pub open spec fn tags_view(tags: Seq<Vec<String>>) -> Seq<Seq<Seq<char>>> {
    tags.map_values(|v: Vec<String>| strs_view(v@))
}

/// The tags of tagged records stay as texts and values are added after those
/// they index.
pub proof fn lemma_first_text_frame<F>(
    ts: Seq<TempRecord<F>>,
    texts: Seq<Seq<char>>,
    values: Seq<Value>,
    ts2: Seq<TempRecord<F>>,
    texts2: Seq<Seq<char>>,
    values2: Seq<Value>,
    n: int,
)
    requires
        n <= ts.len(),
        n <= ts2.len(),
        forall|t: int| 1 <= t < n && (#[trigger] ts[t]).tag ==> ts[t].values.0 < values.len() && values[ts[t].values.0 as int].text_ind < texts.len(),
        forall|t: int| 0 <= t < n ==> (#[trigger] ts2[t]).values == ts[t].values && ts2[t].tag == ts[t].tag,
        forall|i: int| 0 <= i < texts.len() ==> #[trigger] texts2[i] == texts[i],
        forall|v: int| 0 <= v < values.len() ==> #[trigger] values2[v].text_ind == values[v].text_ind,
    ensures
        forall|t: int| 1 <= t < n && (#[trigger] ts2[t]).tag ==> first_text(ts2, texts2, values2, t) == first_text(ts, texts, values, t),
{
    assert forall|t: int| 1 <= t < n && (#[trigger] ts2[t]).tag implies first_text(ts2, texts2, values2, t) == first_text(ts, texts, values, t) by {
        assert(ts2[t].values == ts[t].values && ts2[t].tag == ts[t].tag);
        assert(ts[t].tag);
        let v = ts[t].values.0 as int;
        assert(values2[v].text_ind == values[v].text_ind);
        assert(texts2[values[v].text_ind as int] == texts[values[v].text_ind as int]);
    }
}

/// The tags noted and kept once stay as texts and values are added, the
/// records keeping their parents and tags.
pub proof fn lemma_tags_frame<F>(
    d: Def<F>,
    ts: Seq<TempRecord<F>>,
    texts: Seq<Seq<char>>,
    values: Seq<Value>,
    ts2: Seq<TempRecord<F>>,
    texts2: Seq<Seq<char>>,
    values2: Seq<Value>,
    nodes: Seq<int>,
    tags: Seq<Seq<Seq<char>>>,
    dp: Seq<int>,
)
    requires
        ts2.len() == ts.len(),
        forall|t: int| 1 <= t < ts.len() && (#[trigger] ts[t]).tag ==> ts[t].values.0 < values.len() && values[ts[t].values.0 as int].text_ind < texts.len(),
        forall|t: int| 0 <= t < ts.len() ==> (#[trigger] ts2[t]).values == ts[t].values && ts2[t].tag == ts[t].tag && ts2[t].parent == ts[t].parent,
        forall|i: int| 0 <= i < texts.len() ==> #[trigger] texts2[i] == texts[i],
        forall|v: int| 0 <= v < values.len() ==> #[trigger] values2[v].text_ind == values[v].text_ind,
        forall|x: int| 0 <= x < tags.len() ==> #[trigger] tags_noted(ts, texts, values, tags[x], last_at(dp, ts.len() as int, x)),
        tags_once_kept(d, ts, texts, values, nodes),
    ensures
        forall|x: int| 0 <= x < tags.len() ==> #[trigger] tags_noted(ts2, texts2, values2, tags[x], last_at(dp, ts.len() as int, x)),
        tags_once_kept(d, ts2, texts2, values2, nodes),
{
    let n = ts.len() as int;
    lemma_first_text_frame(ts, texts, values, ts2, texts2, values2, n);
    assert forall|x: int| 0 <= x < tags.len() implies #[trigger] tags_noted(ts2, texts2, values2, tags[x], last_at(dp, n, x)) by {
        assert(tags_noted(ts, texts, values, tags[x], last_at(dp, n, x)));
        assert forall|t: int|
            1 <= t < n && (#[trigger] ts2[t]).tag && (ts2[t].parent matches Some(q) && q as int == last_at(dp, n, x)) implies tags[x].contains(
            first_text(ts2, texts2, values2, t),
        ) by {
            assert(ts[t].tag);
        }
    }
    assert forall|t1: int, t2: int|
        1 <= t1 < t2 < n && ts2[t1].parent == ts2[t2].parent && ts2[t1].tag && ts2[t2].tag && d.nodes()[nodes[t2]].tag_once implies first_text(
        ts2,
        texts2,
        values2,
        t1,
    ) != first_text(ts2, texts2, values2, t2) by {
        assert(ts[t1].tag && ts[t2].tag);
    }
}

/// Each tag among `tags` is the tag of a tagged collected record whose parent
/// is `p`.
pub open spec fn tags_from<F>(ts: Seq<TempRecord<F>>, texts: Seq<Seq<char>>, values: Seq<Value>, tags: Seq<Seq<char>>, p: int) -> bool {
    forall|i: int| 0 <= i < tags.len() ==> #[trigger] tag_under(ts, texts, values, tags[i], p)
}

/// `w` is the tag of a tagged collected record whose parent is `p`.
pub open spec fn tag_under<F>(ts: Seq<TempRecord<F>>, texts: Seq<Seq<char>>, values: Seq<Value>, w: Seq<char>, p: int) -> bool {
    exists|t: int| 1 <= t < ts.len() && ts[t].tag && (ts[t].parent matches Some(u) && u as int == p) && #[trigger] first_text(ts, texts, values, t) == w
}

/// Texts and values added after those the tagged records index keep the tags
/// noted the tags of those records.
pub proof fn lemma_tags_from_frame<F>(
    ts: Seq<TempRecord<F>>,
    texts: Seq<Seq<char>>,
    values: Seq<Value>,
    ts2: Seq<TempRecord<F>>,
    texts2: Seq<Seq<char>>,
    values2: Seq<Value>,
    tags: Seq<Seq<Seq<char>>>,
    dp: Seq<int>,
)
    requires
        ts2.len() == ts.len(),
        forall|t: int| 1 <= t < ts.len() && (#[trigger] ts[t]).tag ==> ts[t].values.0 < values.len() && values[ts[t].values.0 as int].text_ind < texts.len(),
        forall|t: int| 0 <= t < ts.len() ==> (#[trigger] ts2[t]).values == ts[t].values && ts2[t].tag == ts[t].tag && ts2[t].parent == ts[t].parent,
        forall|i: int| 0 <= i < texts.len() ==> #[trigger] texts2[i] == texts[i],
        forall|v: int| 0 <= v < values.len() ==> #[trigger] values2[v].text_ind == values[v].text_ind,
        forall|x: int| 0 <= x < tags.len() ==> #[trigger] tags_from(ts, texts, values, tags[x], last_at(dp, ts.len() as int, x)),
    ensures
        forall|x: int| 0 <= x < tags.len() ==> #[trigger] tags_from(ts2, texts2, values2, tags[x], last_at(dp, ts.len() as int, x)),
{
    let n = ts.len() as int;
    lemma_first_text_frame(ts, texts, values, ts2, texts2, values2, n);
    assert forall|x: int| 0 <= x < tags.len() implies #[trigger] tags_from(ts2, texts2, values2, tags[x], last_at(dp, n, x)) by {
        let p = last_at(dp, n, x);
        assert(tags_from(ts, texts, values, tags[x], p));
        assert forall|i: int| 0 <= i < tags[x].len() implies #[trigger] tag_under(ts2, texts2, values2, tags[x][i], p) by {
            assert(tag_under(ts, texts, values, tags[x][i], p));
            let t = choose|t: int|
                1 <= t < ts.len() && ts[t].tag && (ts[t].parent matches Some(u) && u as int == p) && #[trigger] first_text(ts, texts, values, t) == tags[x][i];
            assert(ts2[t].values == ts[t].values && ts2[t].tag == ts[t].tag && ts2[t].parent == ts[t].parent);
            assert(first_text(ts2, texts2, values2, t) == first_text(ts, texts, values, t));
        }
    }
}

/// Collecting a record under `cp`, the last record at depth `indent`, and
/// noting its tag there, if it has one, keeps the tags noted the tags of the
/// records under the last record at each depth.
pub proof fn lemma_tags_from_push<F>(
    ts: Seq<TempRecord<F>>,
    texts: Seq<Seq<char>>,
    values: Seq<Value>,
    tags: Seq<Seq<Seq<char>>>,
    dp: Seq<int>,
    ts3: Seq<TempRecord<F>>,
    texts3: Seq<Seq<char>>,
    values3: Seq<Value>,
    tags3: Seq<Seq<Seq<char>>>,
    li: int,
    indent: int,
    cp: int,
    first: Seq<char>,
)
    requires
        ts.len() >= 1,
        tags.len() == li + 1,
        0 <= indent <= li + 1,
        forall|x: int| 0 <= x < tags.len() ==> #[trigger] tags_from(ts, texts, values, tags[x], last_at(dp, ts.len() as int, x)),
        forall|t: int| 1 <= t < ts.len() && (#[trigger] ts[t]).tag ==> ts[t].values.0 < values.len() && values[ts[t].values.0 as int].text_ind < texts.len(),
        0 <= cp < ts.len(),
        cp == last_at(dp, ts.len() as int, indent),
        dp.len() == ts.len(),
        ts3.len() == ts.len() + 1,
        forall|t: int| 0 <= t < ts.len() ==> (#[trigger] ts3[t]).values == ts[t].values && ts3[t].tag == ts[t].tag && ts3[t].parent == ts[t].parent,
        ts3[ts.len() as int].parent matches Some(q) && q as int == cp,
        forall|i: int| 0 <= i < texts.len() ==> #[trigger] texts3[i] == texts[i],
        forall|v: int| 0 <= v < values.len() ==> #[trigger] values3[v].text_ind == values[v].text_ind,
        first_text(ts3, texts3, values3, ts.len() as int) == first,
        tags3.len() == indent + 1,
        forall|x: int| 0 <= x < indent ==> #[trigger] tags3[x] == tags[x],
        tags3[indent] == ({
            let pre = if indent <= li {
                tags[indent]
            } else {
                Seq::<Seq<char>>::empty()
            };
            if ts3[ts.len() as int].tag {
                pre.push(first)
            } else {
                pre
            }
        }),
    ensures
        forall|x: int| 0 <= x < tags3.len() ==> #[trigger] tags_from(ts3, texts3, values3, tags3[x], last_at(dp.push(indent + 1), ts3.len() as int, x)),
{
    let n = ts.len() as int;
    let dp3 = dp.push(indent + 1);
    lemma_first_text_frame(ts, texts, values, ts3, texts3, values3, n);
    assert forall|x: int| 0 <= x < tags3.len() implies #[trigger] tags_from(ts3, texts3, values3, tags3[x], last_at(dp3, n + 1, x)) by {
        lemma_last_at_frame(dp, dp3, n, x);
        assert(last_at(dp3, n + 1, x) == last_at(dp, n, x));
        let p = last_at(dp, n, x);
        assert forall|i: int| 0 <= i < tags3[x].len() implies #[trigger] tag_under(ts3, texts3, values3, tags3[x][i], p) by {
            if x < indent || (x == indent && indent <= li && i < tags[x].len()) {
                assert(tags3[x][i] == tags[x][i]);
                assert(tags_from(ts, texts, values, tags[x], p));
                assert(tag_under(ts, texts, values, tags[x][i], p));
                let t = choose|t: int|
                    1 <= t < ts.len() && ts[t].tag && (ts[t].parent matches Some(u) && u as int == p) && #[trigger] first_text(ts, texts, values, t) == tags[x][i];
                assert(ts3[t].values == ts[t].values && ts3[t].tag == ts[t].tag && ts3[t].parent == ts[t].parent);
                assert(first_text(ts3, texts3, values3, t) == first_text(ts, texts, values, t));
            } else {
                assert(x == indent);
                assert(ts3[n].tag);
                assert(tags3[x][i] == first);
                assert(p == cp);
                assert(first_text(ts3, texts3, values3, n) == tags3[x][i]);
            }
        }
    }
}

/// A tagged record collected under `cp`, the last record at depth `indent`,
/// whose tag is noted at `indent` and, where its node's tag may stand once,
/// was not noted there before, keeps the tags noted and kept once.
pub proof fn lemma_tags_push<F>(
    d: Def<F>,
    ts: Seq<TempRecord<F>>,
    texts: Seq<Seq<char>>,
    values: Seq<Value>,
    nodes: Seq<int>,
    tags: Seq<Seq<Seq<char>>>,
    dp: Seq<int>,
    ts3: Seq<TempRecord<F>>,
    texts3: Seq<Seq<char>>,
    values3: Seq<Value>,
    nodes3: Seq<int>,
    tags3: Seq<Seq<Seq<char>>>,
    pre: Seq<Seq<char>>,
    li: int,
    indent: int,
    cp: int,
    first: Seq<char>,
)
    requires
        ts.len() >= 1,
        tags.len() == li + 1,
        0 <= indent <= li + 1,
        forall|x: int| 0 <= x < tags.len() ==> #[trigger] tags_noted(ts, texts, values, tags[x], last_at(dp, ts.len() as int, x)),
        tags_once_kept(d, ts, texts, values, nodes),
        forall|t: int| 1 <= t < ts.len() ==> ((#[trigger] ts[t]).parent matches Some(p) && p < t),
        forall|t: int| 1 <= t < ts.len() && (#[trigger] ts[t]).tag ==> ts[t].values.0 < values.len() && values[ts[t].values.0 as int].text_ind < texts.len(),
        0 <= cp < ts.len(),
        cp == last_at(dp, ts.len() as int, indent),
        indent == li + 1 ==> cp == ts.len() - 1,
        dp.len() == ts.len(),
        ts3.len() == ts.len() + 1,
        forall|t: int| 0 <= t < ts.len() ==> (#[trigger] ts3[t]).values == ts[t].values && ts3[t].tag == ts[t].tag && ts3[t].parent == ts[t].parent,
        ts3[ts.len() as int].parent matches Some(q) && q as int == cp,
        nodes3.len() == ts.len() + 1,
        forall|t: int| 0 <= t < ts.len() ==> #[trigger] nodes3[t] == nodes[t],
        forall|i: int| 0 <= i < texts.len() ==> #[trigger] texts3[i] == texts[i],
        forall|v: int| 0 <= v < values.len() ==> #[trigger] values3[v].text_ind == values[v].text_ind,
        first_text(ts3, texts3, values3, ts.len() as int) == first,
        tags3.len() == indent + 1,
        forall|x: int, w: Seq<char>| 0 <= x <= indent && x <= li && #[trigger] tags[x].contains(w) ==> #[trigger] tags3[x].contains(w),
        indent <= li ==> forall|w: Seq<char>| #[trigger] tags[indent].contains(w) ==> pre.contains(w),
        ts3[ts.len() as int].tag ==> tags3[indent].contains(first),
        ts3[ts.len() as int].tag && d.nodes()[nodes3[ts.len() as int]].tag_once ==> !pre.contains(first),
    ensures
        forall|x: int| 0 <= x < tags3.len() ==> #[trigger] tags_noted(ts3, texts3, values3, tags3[x], last_at(dp.push(indent + 1), ts3.len() as int, x)),
        tags_once_kept(d, ts3, texts3, values3, nodes3),
{
    let n = ts.len() as int;
    let dp3 = dp.push(indent + 1);
    lemma_first_text_frame(ts, texts, values, ts3, texts3, values3, n);
    assert forall|x: int| 0 <= x < tags3.len() implies #[trigger] tags_noted(ts3, texts3, values3, tags3[x], last_at(dp3, n + 1, x)) by {
        lemma_last_at_frame(dp, dp3, n, x);
        assert(last_at(dp3, n + 1, x) == last_at(dp, n, x));
        let p = last_at(dp, n, x);
        assert forall|t: int|
            1 <= t < n + 1 && (#[trigger] ts3[t]).tag && (ts3[t].parent matches Some(q) && q as int == p) implies tags3[x].contains(
            first_text(ts3, texts3, values3, t),
        ) by {
            if t < n {
                assert(ts[t].tag && ts[t].parent == ts3[t].parent);
                if x <= li {
                    assert(tags_noted(ts, texts, values, tags[x], p));
                    assert(tags[x].contains(first_text(ts, texts, values, t)));
                } else {
                    assert(x == indent);
                    assert(p == n - 1);
                    assert(ts[t].parent matches Some(q) && q < t);
                    assert(false);
                }
            } else {
                lemma_last_at_bounds(dp, n, x);
                lemma_last_at_bounds(dp, n, indent);
                assert(x == indent) by {
                    if x != indent {
                        assert(last_at(dp, n, x) >= 0 ==> dp[last_at(dp, n, x)] == x);
                        assert(last_at(dp, n, indent) >= 0 ==> dp[last_at(dp, n, indent)] == indent);
                    }
                }
            }
        }
    }
    assert forall|t1: int, t2: int|
        1 <= t1 < t2 < n + 1 && ts3[t1].parent == ts3[t2].parent && ts3[t1].tag && ts3[t2].tag && d.nodes()[nodes3[t2]].tag_once implies first_text(
        ts3,
        texts3,
        values3,
        t1,
    ) != first_text(ts3, texts3, values3, t2) by {
        assert(ts3[t1].values == ts[t1].values && ts3[t1].tag == ts[t1].tag && ts3[t1].parent == ts[t1].parent);
        if t2 < n {
            assert(ts3[t2].values == ts[t2].values && ts3[t2].tag == ts[t2].tag && ts3[t2].parent == ts[t2].parent);
            assert(nodes3[t2] == nodes[t2]);
        } else {
            if indent <= li {
                assert(tags_noted(ts, texts, values, tags[indent], last_at(dp, n, indent)));
                assert(tags[indent].contains(first_text(ts, texts, values, t1)));
            } else {
                assert(ts[t1].parent matches Some(q) && q < t1);
            }
        }
    }
}

/// Texts added after the others keep each text among them.
pub proof fn lemma_strs_grow(a: Seq<String>, b: Seq<String>)
    requires
        b.len() >= a.len(),
        forall|i: int| 0 <= i < a.len() ==> #[trigger] b[i] == a[i],
    ensures
        forall|w: Seq<char>| #[trigger] strs_view(a).contains(w) ==> strs_view(b).contains(w),
{
    assert forall|w: Seq<char>| #[trigger] strs_view(a).contains(w) implies strs_view(b).contains(w) by {
        let j = choose|j: int| 0 <= j < strs_view(a).len() && strs_view(a)[j] == w;
        assert(strs_view(b)[j] == w);
    }
}

/// A parser of `d` gives `p` for a text whose view is `text`.
pub open spec fn parsed_by<F, P>(d: Def<F>, text: Seq<char>, p: P) -> bool
    where
        F: Fn(&str) -> Option<P>,
{
    exists|key: u64| #[trigger] made_by(d, key, text, Some(p))
}

/// Each value's parsed value is what a parser of `d` gives for the value's text.
pub open spec fn parsed_ok<F, P>(d: Def<F>, values: Seq<Value>, texts: Seq<Seq<char>>, parsed: Seq<P>) -> bool
    where
        F: Fn(&str) -> Option<P>,
{
    forall|v: int|
        0 <= v < values.len() ==> ((#[trigger] values[v]).parsed_ind matches Some(k) ==> parsed_by(
            d,
            texts[values[v].text_ind as int],
            parsed[k as int],
        ))
}

/// Values, texts and parsed values added after the others, the new values
/// parsed as nothing, keep each value's parsed value what a parser gives.
pub proof fn lemma_parsed_frame<F, P>(
    d: Def<F>,
    values: Seq<Value>,
    texts: Seq<Seq<char>>,
    parsed: Seq<P>,
    values2: Seq<Value>,
    texts2: Seq<Seq<char>>,
    parsed2: Seq<P>,
)
    where
        F: Fn(&str) -> Option<P>,
    requires
        parsed_ok(d, values, texts, parsed),
        forall|v: int|
            0 <= v < values.len() ==> (#[trigger] values[v]).text_ind < texts.len() && (values[v].parsed_ind matches Some(k) ==> k
                < parsed.len()),
        values2.len() >= values.len(),
        forall|v: int| 0 <= v < values.len() ==> #[trigger] values2[v] == values[v],
        forall|v: int| values.len() <= v < values2.len() ==> (#[trigger] values2[v]).parsed_ind is None,
        forall|i: int| 0 <= i < texts.len() ==> #[trigger] texts2[i] == texts[i],
        forall|k: int| 0 <= k < parsed.len() ==> #[trigger] parsed2[k] == parsed[k],
    ensures
        parsed_ok(d, values2, texts2, parsed2),
{
    assert forall|v: int| 0 <= v < values2.len() implies ((#[trigger] values2[v]).parsed_ind matches Some(k) ==> parsed_by(
        d,
        texts2[values2[v].text_ind as int],
        parsed2[k as int],
    )) by {
        if v < values.len() {
            assert(values2[v] == values[v]);
            if let Some(k) = values[v].parsed_ind {
                assert(texts2[values[v].text_ind as int] == texts[values[v].text_ind as int]);
                assert(parsed2[k as int] == parsed[k as int]);
            }
        }
    }
}

/// The parses stored for a record's values, each noted in `memo` for that
/// value, are what parsers give for the values' texts.
pub proof fn lemma_parsed_store<F, P>(
    d: Def<F>,
    values: Seq<Value>,
    texts: Seq<String>,
    parsed: Seq<P>,
    values2: Seq<Value>,
    parsed2: Seq<P>,
    memo: Seq<Vec<(u64, Option<P>)>>,
    val_texts: Seq<usize>,
    start: int,
)
    where
        F: Fn(&str) -> Option<P>,
    requires
        parsed_ok(d, values, text_views(texts), parsed),
        forall|v: int|
            0 <= v < start ==> ((#[trigger] values[v]).parsed_ind matches Some(k) ==> k < parsed.len()),
        0 <= start,
        start + memo.len() == values.len(),
        values2.len() == values.len(),
        memo_ok(d, memo, texts, val_texts),
        forall|i: int| 0 <= i < memo.len() ==> #[trigger] val_texts[i] == values[start + i].text_ind && val_texts[i] < texts.len(),
        forall|v: int| 0 <= v < start ==> #[trigger] values2[v] == values[v],
        forall|v: int| 0 <= v < values2.len() ==> (#[trigger] values2[v]).text_ind == values[v].text_ind,
        forall|k: int| 0 <= k < parsed.len() ==> #[trigger] parsed2[k] == parsed[k],
        forall|v: int|
            start <= v < values2.len() ==> ((#[trigger] values2[v]).parsed_ind matches Some(k) ==> noted(
                memo[v - start]@,
                parsed2[k as int],
            )),
    ensures
        parsed_ok(d, values2, text_views(texts), parsed2),
{
    let tx = text_views(texts);
    assert forall|v: int| 0 <= v < values2.len() implies ((#[trigger] values2[v]).parsed_ind matches Some(k) ==> parsed_by(
        d,
        tx[values2[v].text_ind as int],
        parsed2[k as int],
    )) by {
        if v < start {
            assert(values2[v] == values[v]);
            if let Some(k) = values[v].parsed_ind {
                assert(parsed_by(d, tx[values[v].text_ind as int], parsed[k as int]));
                assert(parsed2[k as int] == parsed[k as int]);
            }
        } else if let Some(k) = values2[v].parsed_ind {
            let i = v - start;
            assert(noted(memo[i]@, parsed2[k as int]));
            let j = choose|j: int| 0 <= j < memo[i]@.len() && (#[trigger] memo[i]@[j]).1 == Some(parsed2[k as int]);
            assert(row_ok(d, memo[i]@, texts[val_texts[i] as int]@));
            assert(made_by(d, memo[i]@[j].0, texts[val_texts[i] as int]@, memo[i]@[j].1));
            assert(val_texts[i] == values[start + i].text_ind && val_texts[i] < texts.len());
            assert(values2[v].text_ind == values[v].text_ind);
            assert(tx[values2[v].text_ind as int] == texts[val_texts[i] as int]@);
        }
    }
}

} // verus!
