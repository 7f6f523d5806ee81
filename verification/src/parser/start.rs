use vstd::prelude::*;
use vstd::set_lib::set_int_range;

use std::path::Path;

use crate::lexer::{Lexer, Loc, Token};
use crate::lexer::loc::src_fits;
use crate::paths::opt_path_to_buf;
use crate::text::str_to_chars;
use crate::def::{find_branch, lemma_find_branch_from, strs_view, opt_str_view};
use crate::def::node::{NodeChildren, ParamGroup};
use super::error::ParseError;
use super::grammar::{
    parse_ending, parse_cmnt, parse_ml_cmnt, lexer_at, ending_end, cmnt_end, ml_cmnt_end, spc_end,
    eol_len, line_rest_end, ml_scan, indent_scan, record_spec, record_indent, loc_of, TokSpec,
    tokens_are, token_is,
    lemma_spc_end_bounds, lemma_line_rest_end_bounds, lemma_ml_scan_bounds, lemma_at_moved,
    lemma_indent_scan_bounds, lemma_val_scan_bounds,
};
use super::record::{parse_record, parse_body, body_loop};

use crate::conf::{Conf, Record, Value, conf_wf, record_wf, range_in};
use crate::conf::ParamGroup as ConfGroup;
use crate::def::container::branch::BranchContainer;
use crate::def::container::node::NodeContainer;
use crate::def::container::node_iter::{NodeContainerIter, trav};
use crate::def::container::node_children::NodeChildrenContainer;
use crate::text::{str_eq, str_to_string};
use super::error::ParseErrorType;
use super::matching::{MatchedGroup, MatchOutcome, run_ok, rows_made, reading_of, groups_parsed, lemma_multi_storable, Memo, groups_in, vals_off, not_broken, passed_over, val_views, single_parsed, lemma_single_storable, run_at, storable_at, stored_at, done_before, key_of, first_at, lemma_run_at_mono, lemma_stored_frame, parsers_total, group_at, match_single, match_multi, matched_node, single_fit, runs_end, noted, memo_ok, row_ok};
use super::greedy::{plain_groups, read_groups, lemma_broken_only_empty};
use super::fit::{tags_from, tag_under, lemma_tags_from_frame, lemma_tags_from_push, candidates, fail_cause, lemma_all_passed, lemma_cand_at, first_fit, temps_first_fit, vals_texts, lemma_first_fit_tagged, lemma_first_fit_untagged, lemma_first_fit_frame, lemma_first_fit_push, parsed_ok, lemma_parsed_frame, lemma_parsed_store, lemma_strs_grow, tags_view, tags_noted, tags_once_kept, lemma_tags_frame, lemma_tags_push, first_text, temp_fits, same_fit_fields, lemma_temps_fit_frame, lemma_fits_new, lemma_cands_tagged, lemma_cands_untagged, stored_as, kids_of, looked_up_in, opt_text, branch_text};
use super::nesting::{
    last_at, anc_at, depths_ok, nested, lemma_nested_init, lemma_nested_cur, lemma_nested_last_child, lemma_nested_up,
    lemma_nested_frame, lemma_nested_push, lemma_anc_parent, lemma_anc_depth, lemma_last_at_bounds,
};

verus! {

/// The texts of tokens.
pub open spec fn token_texts(ts: Seq<Token>) -> Seq<Seq<char>> {
    Seq::new(ts.len(), |i: int| ts[i].extracted@)
}

/// An error that a record line that reads can meet: no node of its branch
/// fits it, a tag used twice where it may stand once, children where the
/// parent's node takes none or names a missing branch, or a definition that
/// cannot be matched.
pub open spec fn record_err_kind(t: ParseErrorType) -> bool {
    ||| t is Unknown
    ||| t is NoDefForRecord
    ||| t is TagOnce
    ||| t is DefNoChildren
    ||| t is DefChildrenBranchNotFound
}

/// A record as first collected, before the records are laid out so that the
/// children of each one stand together.
pub struct TempRecord<'a, F> {
    pub parent: Option<usize>,
    pub children_records: Vec<usize>,
    pub children_text: Option<(usize, usize)>,
    pub param_groups: (usize, usize),
    pub values: (usize, usize),
    pub node_label: Option<usize>,
    pub branch_name: Option<usize>,
    pub tag: bool,
    /// What the record's node takes below it.
    pub kids: NodeChildrenContainer<'a, F>,
}

/// The indices of collected record `t` are in range: its parent comes before
/// it, its children after it and name it as their parent, and a record with a
/// body has no child records.
pub open spec fn temp_ok<F>(ts: Seq<TempRecord<F>>, t: int, nt: int, nv: int, ng: int) -> bool {
    let r = ts[t];
    &&& t > 0 ==> (r.parent matches Some(p) && p < t)
    &&& forall|k: int|
        0 <= k < r.children_records@.len() ==> t < #[trigger] r.children_records@[k] < ts.len()
            && ts[r.children_records@[k] as int].parent == Some(t as usize)
    &&& r.children_text matches Some(c) ==> c.0 <= c.1 <= nv && r.children_records@.len() == 0
    &&& r.param_groups.0 <= r.param_groups.1 <= ng
    &&& r.values.0 <= r.values.1 <= nv
    &&& r.node_label matches Some(x) ==> x < nt
    &&& r.branch_name matches Some(x) ==> x < nt
    &&& r.tag ==> r.values.0 < r.values.1
}

pub open spec fn temps_ok<F>(ts: Seq<TempRecord<F>>, nt: int, nv: int, ng: int) -> bool {
    &&& ts.len() >= 1
    &&& ts[0].parent is None
    &&& ts[0].children_text is None
    &&& forall|t: int| 0 <= t < ts.len() ==> #[trigger] temp_ok(ts, t, nt, nv, ng)
}

/// Each collected record lists its children once each, in order, and each
/// record but the root is listed among its parent's children.
pub open spec fn temps_listed<F>(ts: Seq<TempRecord<F>>) -> bool {
    &&& forall|t: int, k1: int, k2: int|
        0 <= t < ts.len() && 0 <= k1 < k2 < ts[t].children_records@.len() ==> #[trigger] ts[t].children_records@[k1]
            < #[trigger] ts[t].children_records@[k2]
    &&& forall|t: int|
        0 < t < ts.len() ==> ((#[trigger] ts[t]).parent matches Some(p) && p < t && ts[p as int].children_records@.contains(
            t as usize,
        ))
}

/// Records whose children and parents stay keep being listed.
proof fn lemma_listed_same<F>(ts0: Seq<TempRecord<F>>, ts: Seq<TempRecord<F>>)
    requires
        temps_listed(ts0),
        ts.len() == ts0.len(),
        forall|t: int| 0 <= t < ts.len() ==> (#[trigger] ts[t]).children_records == ts0[t].children_records
            && ts[t].parent == ts0[t].parent,
    ensures
        temps_listed(ts),
{
    assert forall|t: int, k1: int, k2: int|
        0 <= t < ts.len() && 0 <= k1 < k2 < ts[t].children_records@.len() implies #[trigger] ts[t].children_records@[k1]
            < #[trigger] ts[t].children_records@[k2] by {
        assert(ts[t].children_records == ts0[t].children_records);
        assert(ts0[t].children_records@[k1] < ts0[t].children_records@[k2]);
    }
    assert forall|t: int| 0 < t < ts.len() implies ((#[trigger] ts[t]).parent matches Some(p) && p < t && ts[p as int].children_records@.contains(
        t as usize,
    )) by {
        assert(ts[t].parent == ts0[t].parent);
        assert(ts0[t].parent matches Some(p) && p < t && ts0[p as int].children_records@.contains(t as usize));
        let p = ts0[t].parent->0;
        assert(ts[p as int].children_records == ts0[p as int].children_records);
    }
}

/// A record collected as the last child of record `cp` keeps the records listed.
proof fn lemma_listed_push<F>(ts: Seq<TempRecord<F>>, ts2: Seq<TempRecord<F>>, ts3: Seq<TempRecord<F>>, cp: int, nt: int, nv: int, ng: int)
    requires
        temps_listed(ts),
        temps_ok(ts, nt, nv, ng),
        0 <= cp < ts.len(),
        ts.len() <= usize::MAX,
        ts2.len() == ts.len() + 1,
        forall|t: int| 0 <= t < ts.len() ==> #[trigger] ts2[t] == ts[t],
        ts2[ts.len() as int].parent == Some(cp as usize),
        ts2[ts.len() as int].children_records@.len() == 0,
        ts3.len() == ts2.len(),
        forall|t: int| 0 <= t < ts3.len() && t != cp ==> #[trigger] ts3[t] == ts2[t],
        ts3[cp].children_records@ == ts2[cp].children_records@.push(ts.len() as usize),
        ts3[cp].parent == ts2[cp].parent,
    ensures
        temps_listed(ts3),
{
    let ri = ts.len() as usize;
    assert forall|t: int, k1: int, k2: int|
        0 <= t < ts3.len() && 0 <= k1 < k2 < ts3[t].children_records@.len() implies #[trigger] ts3[t].children_records@[k1]
            < #[trigger] ts3[t].children_records@[k2] by {
        if t < ts.len() {
            assert(temp_ok(ts, t, nt, nv, ng));
            if t != cp {
                assert(ts3[t] == ts2[t]);
                assert(ts2[t] == ts[t]);
                assert(ts[t].children_records@[k1] < ts[t].children_records@[k2]);
            } else {
                assert(ts2[t] == ts[t]);
                if k2 == ts[t].children_records@.len() {
                    assert(ts3[t].children_records@[k1] == ts[t].children_records@[k1]);
                    assert(ts[t].children_records@[k1] < ts.len());
                } else {
                    assert(ts3[t].children_records@[k1] == ts[t].children_records@[k1]);
                    assert(ts3[t].children_records@[k2] == ts[t].children_records@[k2]);
                    assert(ts[t].children_records@[k1] < ts[t].children_records@[k2]);
                }
            }
        } else {
            assert(ts3[t] == ts2[t]);
        }
    }
    assert forall|t: int| 0 < t < ts3.len() implies ((#[trigger] ts3[t]).parent matches Some(p) && p < t && ts3[p as int].children_records@.contains(
        t as usize,
    )) by {
        if t < ts.len() {
            assert(ts2[t] == ts[t]);
            if t != cp {
                assert(ts3[t] == ts2[t]);
            } else {
                assert(ts3[t].parent == ts[t].parent);
            }
            assert(ts[t].parent matches Some(p) && p < t && ts[p as int].children_records@.contains(t as usize));
            let p = ts[t].parent->0;
            let k = choose|k: int| 0 <= k < ts[p as int].children_records@.len() && #[trigger] ts[p as int].children_records@[k] == t as usize;
            if p as int == cp {
                assert(ts2[cp] == ts[cp]);
                assert(ts3[p as int].children_records@[k] == ts[p as int].children_records@[k]);
            } else {
                assert(ts3[p as int] == ts2[p as int]);
                assert(ts2[p as int] == ts[p as int]);
            }
        } else {
            assert(ts3[t] == ts2[t]);
            let n0 = ts2[cp].children_records@.len();
            assert(ts3[cp].children_records@[n0 as int] == ri);
        }
    }
}

/// The values and parameter groups index texts, parsed values and values in range.
pub open spec fn items_ok(values: Seq<Value>, groups: Seq<ConfGroup>, nt: int, np: int) -> bool {
    &&& forall|v: int|
        0 <= v < values.len() ==> (#[trigger] values[v]).text_ind < nt && (values[v].parsed_ind matches Some(
            k,
        ) ==> k < np)
    &&& forall|g: int|
        0 <= g < groups.len() ==> range_in((#[trigger] groups[g]).conf_values, values.len() as int)
            && (groups[g].name matches Some(t) ==> t < nt)
}

/// Value `v` holds the locations of token `t` and, among `texts`, its text.
pub open spec fn value_of(v: Value, texts: Seq<String>, t: Token) -> bool {
    &&& v.start_loc == t.start_loc
    &&& v.end_loc == t.end_loc
    &&& v.text_ind < texts.len()
    &&& texts[v.text_ind as int]@ == t.extracted@
}

/// Two values have the same text index and locations.
pub open spec fn same_text_loc(a: Value, b: Value) -> bool {
    a.text_ind == b.text_ind && a.start_loc == b.start_loc && a.end_loc == b.end_loc
}

/// A collected record keeps its parent, values, body and what it takes below it.
pub open spec fn kept_temp<F>(a: TempRecord<F>, b: TempRecord<F>) -> bool {
    &&& a.parent == b.parent
    &&& a.values == b.values
    &&& a.children_text == b.children_text
    &&& a.kids == b.kids
    &&& a.tag == b.tag
}

/// The values `nv` and texts `nt` are `ov` and `ot` with, after the old values
/// (their texts and locations kept), one value for each of `tokens`, in order;
/// the old texts stay in place.
pub open spec fn appended(ov: Seq<Value>, ot: Seq<String>, nv: Seq<Value>, nt: Seq<String>, tokens: Seq<Token>) -> bool {
    &&& nt.len() >= ot.len()
    &&& forall|i: int| 0 <= i < ot.len() ==> #[trigger] nt[i] == ot[i]
    &&& nv.len() == ov.len() + tokens.len()
    &&& forall|v: int| 0 <= v < ov.len() ==> same_text_loc(#[trigger] nv[v], ov[v])
    &&& forall|i: int| 0 <= i < tokens.len() ==> value_of(#[trigger] nv[ov.len() + i], nt, tokens[i])
}

/// Value `v` stands for token `t` of source `s`: it has its locations and,
/// among `texts`, its text.
pub open spec fn value_at(v: Value, texts: Seq<Seq<char>>, s: Seq<char>, t: TokSpec) -> bool {
    &&& v.start_loc == loc_of(s, t.0)
    &&& v.end_loc == loc_of(s, t.1)
    &&& v.text_ind < texts.len()
    &&& texts[v.text_ind as int] == t.2
}

/// The values stand, in order, for the tokens `toks` of source `s`.
pub open spec fn values_are(values: Seq<Value>, texts: Seq<Seq<char>>, s: Seq<char>, toks: Seq<TokSpec>) -> bool {
    &&& values.len() == toks.len()
    &&& forall|i: int| 0 <= i < values.len() ==> #[trigger] value_at(values[i], texts, s, toks[i])
}

/// The views of texts.
pub open spec fn text_views(texts: Seq<String>) -> Seq<Seq<char>> {
    texts.map_values(|t: String| t@)
}

/// Appending the values of tokens read from the source keeps the values
/// standing for the tokens read so far, those new ones after them.
pub proof fn lemma_values_appended(
    ov: Seq<Value>,
    ot: Seq<String>,
    nv: Seq<Value>,
    nt: Seq<String>,
    tokens: Seq<Token>,
    s: Seq<char>,
    vt: Seq<TokSpec>,
    ts: Seq<TokSpec>,
)
    requires
        values_are(ov, text_views(ot), s, vt),
        appended(ov, ot, nv, nt, tokens),
        tokens_are(tokens, s, ts),
    ensures
        values_are(nv, text_views(nt), s, vt + ts),
{
    let t2 = vt + ts;
    assert forall|i: int| 0 <= i < nv.len() implies #[trigger] value_at(nv[i], text_views(nt), s, t2[i]) by {
        if i < ov.len() {
            assert(value_at(ov[i], text_views(ot), s, vt[i]));
            assert(same_text_loc(nv[i], ov[i]));
            let k = ov[i].text_ind as int;
            assert(nt[k] == ot[k]);
            assert(t2[i] == vt[i]);
        } else {
            let j = i - ov.len();
            assert(value_of(nv[ov.len() + j], nt, tokens[j]));
            assert(token_is(tokens[j], s, ts[j]));
            assert(t2[i] == ts[j]);
        }
    }
}

/// The parent of collected record `t`, or -1 for none.
pub open spec fn parent_of<F>(ts: Seq<TempRecord<F>>, t: int) -> int {
    match ts[t].parent {
        Some(p) => p as int,
        None => -1,
    }
}

/// The laying out so far, between loop rounds: `m` (records to collected
/// records) and `inv` (back, -1 for none yet) are inverse; a collected record
/// is laid out once its parent is done (the root from the start); the done
/// ones are laid out; `waiting` holds, once each, the laid out ones not done.
pub open spec fn layout_ok<F>(ts: Seq<TempRecord<F>>, n: int, m: Seq<int>, inv: Seq<int>, done: Set<int>, waiting: Seq<int>) -> bool {
    &&& m.len() == n
    &&& inv.len() == ts.len()
    &&& forall|i: int| 0 <= i < n ==> 0 <= #[trigger] m[i] < ts.len() && inv[m[i]] == i
    &&& forall|u: int| 0 <= u < ts.len() ==> -1 <= #[trigger] inv[u] < n && (inv[u] >= 0 ==> m[inv[u]] == u)
    &&& forall|u: int| 0 <= u < ts.len() ==> (#[trigger] inv[u] >= 0 <==> (u == 0 || done.contains(parent_of(ts, u))))
    &&& done.subset_of(set_int_range(0, ts.len() as int))
    &&& forall|u: int| #[trigger] done.contains(u) ==> inv[u] >= 0
    &&& forall|k: int| 0 <= k < waiting.len() ==> 0 <= #[trigger] waiting[k] < ts.len() && inv[waiting[k]] >= 0
        && !done.contains(waiting[k])
    &&& forall|k1: int, k2: int| 0 <= k1 < k2 < waiting.len() ==> #[trigger] waiting[k1] != #[trigger] waiting[k2]
    &&& forall|u: int| 0 <= u < ts.len() && #[trigger] inv[u] >= 0 && !done.contains(u) ==> waiting.contains(u)
}

/// The laying out while the children of `t` are laid out, `k` of them so far.
pub open spec fn layout_mid<F>(
    ts: Seq<TempRecord<F>>,
    n: int,
    m: Seq<int>,
    inv: Seq<int>,
    done: Set<int>,
    waiting: Seq<int>,
    t: int,
    k: int,
) -> bool {
    let kids = ts[t].children_records@;
    &&& 0 <= t < ts.len()
    &&& 0 <= k <= kids.len()
    &&& m.len() == n
    &&& inv.len() == ts.len()
    &&& forall|i: int| 0 <= i < n ==> 0 <= #[trigger] m[i] < ts.len() && inv[m[i]] == i
    &&& forall|u: int| 0 <= u < ts.len() ==> -1 <= #[trigger] inv[u] < n && (inv[u] >= 0 ==> m[inv[u]] == u)
    &&& forall|u: int|
        0 <= u < ts.len() ==> (#[trigger] inv[u] >= 0 <==> (u == 0 || done.contains(parent_of(ts, u)) || (
        parent_of(ts, u) == t && kids.take(k).contains(u as usize))))
    &&& done.subset_of(set_int_range(0, ts.len() as int))
    &&& forall|u: int| #[trigger] done.contains(u) ==> inv[u] >= 0 && (u == 0 || done.contains(parent_of(ts, u)))
    &&& inv[t] >= 0
    &&& !done.contains(t)
    &&& forall|k2: int| 0 <= k2 < waiting.len() ==> 0 <= #[trigger] waiting[k2] < ts.len() && inv[waiting[k2]] >= 0
        && !done.contains(waiting[k2]) && waiting[k2] != t && (waiting[k2] == 0 || done.contains(
        parent_of(ts, waiting[k2]),
    ))
    &&& forall|k1: int, k2: int| 0 <= k1 < k2 < waiting.len() ==> #[trigger] waiting[k1] != #[trigger] waiting[k2]
    &&& forall|u: int|
        0 <= u < ts.len() && #[trigger] inv[u] >= 0 && !done.contains(u) && u != t && !(parent_of(ts, u) == t
            && kids.take(k).contains(u as usize)) ==> waiting.contains(u)
}

/// Taking the last record waiting starts laying out its children.
proof fn lemma_layout_pop<F>(ts: Seq<TempRecord<F>>, n: int, m: Seq<int>, inv: Seq<int>, done: Set<int>, waiting: Seq<int>, nt: int, nv: int, ng: int)
    requires
        layout_ok(ts, n, m, inv, done, waiting),
        waiting.len() > 0,
        temps_ok(ts, nt, nv, ng),
    ensures
        layout_mid(ts, n, m, inv, done, waiting.drop_last(), waiting.last(), 0),
{
    let t = waiting.last();
    let w2 = waiting.drop_last();
    assert(ts[t].children_records@.take(0) =~= Seq::<usize>::empty());
    assert forall|k2: int| 0 <= k2 < w2.len() implies 0 <= #[trigger] w2[k2] < ts.len() && inv[w2[k2]] >= 0
        && !done.contains(w2[k2]) && w2[k2] != t && (w2[k2] == 0 || done.contains(parent_of(ts, w2[k2]))) by {
        assert(w2[k2] == waiting[k2]);
        assert(waiting[k2] != waiting[waiting.len() - 1]);
        assert(inv[waiting[k2]] >= 0);
    }
    assert forall|k1: int, k2: int| 0 <= k1 < k2 < w2.len() implies #[trigger] w2[k1] != #[trigger] w2[k2] by {
        assert(w2[k1] == waiting[k1]);
        assert(w2[k2] == waiting[k2]);
    }
    assert forall|u: int|
        0 <= u < ts.len() && #[trigger] inv[u] >= 0 && !done.contains(u) && u != t && !(parent_of(ts, u) == t
            && ts[t].children_records@.take(0).contains(u as usize)) implies w2.contains(u) by {
        assert(waiting.contains(u));
        let k = choose|k: int| 0 <= k < waiting.len() && #[trigger] waiting[k] == u;
        assert(k != waiting.len() - 1);
        assert(w2[k] == u);
    }
    assert forall|u: int| 0 <= u < ts.len() implies (#[trigger] inv[u] >= 0 <==> (u == 0 || done.contains(parent_of(ts, u)) || (
        parent_of(ts, u) == t && ts[t].children_records@.take(0).contains(u as usize)))) by {}
    assert forall|u: int| #[trigger] done.contains(u) implies inv[u] >= 0 && (u == 0 || done.contains(parent_of(ts, u))) by {
        assert(set_int_range(0, ts.len() as int).contains(u));
    }
}

/// Laying out child `k` of `t` as record `n`.
proof fn lemma_layout_child<F>(ts: Seq<TempRecord<F>>, n: int, m: Seq<int>, inv: Seq<int>, done: Set<int>, waiting: Seq<int>, t: int, k: int, nt: int, nv: int, ng: int)
    requires
        layout_mid(ts, n, m, inv, done, waiting, t, k),
        k < ts[t].children_records@.len(),
        temps_ok(ts, nt, nv, ng),
        temps_listed(ts),
        ts.len() <= usize::MAX,
    ensures
        ({
            let c = ts[t].children_records@[k] as int;
            &&& 0 < c < ts.len()
            &&& inv[c] == -1
            &&& layout_mid(ts, n + 1, m.push(c), inv.update(c, n), done, waiting, t, k + 1)
        }),
{
    let kids = ts[t].children_records@;
    let c = kids[k] as int;
    assert(temp_ok(ts, t, nt, nv, ng));
    assert(t < c < ts.len());
    assert(ts[c].parent == Some(t as usize));
    assert(parent_of(ts, c) == t);
    assert(!kids.take(k).contains(c as usize)) by {
        if kids.take(k).contains(c as usize) {
            let j = choose|j: int| 0 <= j < kids.take(k).len() && #[trigger] kids.take(k)[j] == c as usize;
            assert(kids[j] < kids[k]);
        }
    }
    assert(inv[c] < 0);
    let m2 = m.push(c);
    let inv2 = inv.update(c, n);
    assert(kids.take(k + 1) =~= kids.take(k).push(kids[k]));
    assert forall|i: int| 0 <= i < n + 1 implies 0 <= #[trigger] m2[i] < ts.len() && inv2[m2[i]] == i by {
        if i < n {
            assert(m2[i] == m[i]);
            assert(inv[m[i]] == i);
            assert(m[i] != c);
        }
    }
    assert forall|u: int| 0 <= u < ts.len() implies -1 <= #[trigger] inv2[u] < n + 1 && (inv2[u] >= 0 ==> m2[inv2[u]] == u) by {
        if u != c {
            assert(inv2[u] == inv[u]);
        }
    }
    assert forall|u: int| 0 <= u < ts.len() implies (#[trigger] inv2[u] >= 0 <==> (u == 0 || done.contains(parent_of(ts, u)) || (
        parent_of(ts, u) == t && kids.take(k + 1).contains(u as usize)))) by {
        if u != c {
            assert(inv2[u] == inv[u]);
            if kids.take(k + 1).contains(u as usize) {
                let j = choose|j: int| 0 <= j < kids.take(k + 1).len() && #[trigger] kids.take(k + 1)[j] == u as usize;
                if j == k {
                    assert(u as usize == c as usize);
                    assert(false);
                }
                assert(kids.take(k)[j] == u as usize);
            }
            if kids.take(k).contains(u as usize) {
                let j = choose|j: int| 0 <= j < kids.take(k).len() && #[trigger] kids.take(k)[j] == u as usize;
                assert(kids.take(k + 1)[j] == u as usize);
            }
        } else {
            assert(kids.take(k + 1)[k] == c as usize);
        }
    }
    assert forall|u: int| #[trigger] done.contains(u) implies inv2[u] >= 0 && (u == 0 || done.contains(parent_of(ts, u))) by {
        if u != c {
            assert(inv2[u] == inv[u]);
        }
    }
    assert forall|k2: int| 0 <= k2 < waiting.len() implies 0 <= #[trigger] waiting[k2] < ts.len() && inv2[waiting[k2]] >= 0
        && !done.contains(waiting[k2]) && waiting[k2] != t && (waiting[k2] == 0 || done.contains(parent_of(ts, waiting[k2]))) by {
        let u = waiting[k2];
        if u == c {
            assert(done.contains(parent_of(ts, u)));
            assert(false);
        }
        assert(inv2[u] == inv[u]);
    }
    assert forall|u: int|
        0 <= u < ts.len() && #[trigger] inv2[u] >= 0 && !done.contains(u) && u != t && !(parent_of(ts, u) == t
            && kids.take(k + 1).contains(u as usize)) implies waiting.contains(u) by {
        if u == c {
            assert(kids.take(k + 1)[k] == c as usize);
        } else {
            assert(inv2[u] == inv[u]);
            if kids.take(k).contains(u as usize) {
                let j = choose|j: int| 0 <= j < kids.take(k).len() && #[trigger] kids.take(k)[j] == u as usize;
                assert(kids.take(k + 1)[j] == u as usize);
            }
        }
    }
    assert(inv2[t] == inv[t]);
}

/// Once all its children are laid out, `t` is done and they wait, in order.
#[verifier::rlimit(80)]
proof fn lemma_layout_done<F>(ts: Seq<TempRecord<F>>, n: int, m: Seq<int>, inv: Seq<int>, done: Set<int>, waiting: Seq<int>, t: int, nt: int, nv: int, ng: int)
    requires
        layout_mid(ts, n, m, inv, done, waiting, t, ts[t].children_records@.len() as int),
        temps_ok(ts, nt, nv, ng),
        temps_listed(ts),
        ts.len() <= usize::MAX,
    ensures
        layout_ok(
            ts,
            n,
            m,
            inv,
            done.insert(t),
            waiting + ts[t].children_records@.map_values(|c: usize| c as int),
        ),
        !done.contains(t),
        0 <= t < ts.len(),
{
    let kids = ts[t].children_records@;
    let kc = kids.map_values(|c: usize| c as int);
    let d2 = done.insert(t);
    let w2 = waiting + kc;
    assert(kids.take(kids.len() as int) =~= kids);
    assert(temp_ok(ts, t, nt, nv, ng));
    assert forall|u: int| 0 <= u < ts.len() implies (#[trigger] inv[u] >= 0 <==> (u == 0 || d2.contains(parent_of(ts, u)))) by {
        if parent_of(ts, u) == t && u != 0 {
            assert(ts[u].parent == Some(t as usize));
            assert(temps_listed(ts));
            assert(ts[t].children_records@.contains(u as usize));
        }
        if kids.contains(u as usize) {
            let j = choose|j: int| 0 <= j < kids.len() && #[trigger] kids[j] == u as usize;
            assert(t < kids[j] < ts.len());
            assert(ts[kids[j] as int].parent == Some(t as usize));
        }
    }
    assert(d2.subset_of(set_int_range(0, ts.len() as int)));
    assert forall|u: int| #[trigger] d2.contains(u) implies inv[u] >= 0 by {}
    assert forall|k: int| 0 <= k < w2.len() implies 0 <= #[trigger] w2[k] < ts.len() && inv[w2[k]] >= 0 && !d2.contains(w2[k]) by {
        if k < waiting.len() {
            assert(w2[k] == waiting[k]);
        } else {
            let j = k - waiting.len();
            assert(w2[k] == kids[j] as int);
            assert(t < kids[j] < ts.len());
            assert(ts[kids[j] as int].parent == Some(t as usize));
            assert(kids.take(kids.len() as int)[j] == kids[j]);
            let c = kids[j] as int;
            assert(!done.contains(c)) by {
                if done.contains(c) {
                    assert(c == 0 || done.contains(parent_of(ts, c)));
                }
            }
        }
    }
    assert forall|k1: int, k2: int| 0 <= k1 < k2 < w2.len() implies #[trigger] w2[k1] != #[trigger] w2[k2] by {
        if k2 < waiting.len() {
            assert(w2[k1] == waiting[k1]);
            assert(w2[k2] == waiting[k2]);
        } else if k1 >= waiting.len() {
            assert(kids[k1 - waiting.len()] < kids[k2 - waiting.len()]);
        } else {
            let u = waiting[k1];
            let c = kids[k2 - waiting.len()] as int;
            assert(ts[c].parent == Some(t as usize));
            assert(w2[k1] == u);
            if u == c {
                assert(u == 0 || done.contains(parent_of(ts, u)));
                assert(parent_of(ts, u) == t);
            }
        }
    }
    assert forall|u: int| 0 <= u < ts.len() && #[trigger] inv[u] >= 0 && !d2.contains(u) implies w2.contains(u) by {
        if parent_of(ts, u) == t && kids.contains(u as usize) {
            let j = choose|j: int| 0 <= j < kids.len() && #[trigger] kids[j] == u as usize;
            assert(kc[j] == kids[j] as int);
            assert(w2[waiting.len() + j] == kc[j]);
        } else {
            assert(waiting.contains(u));
            let k = choose|k: int| 0 <= k < waiting.len() && #[trigger] waiting[k] == u;
            assert(w2[k] == u);
        }
    }
}

/// With nothing waiting, every collected record is laid out and done.
proof fn lemma_layout_complete<F>(ts: Seq<TempRecord<F>>, n: int, m: Seq<int>, inv: Seq<int>, done: Set<int>, t: int, nt: int, nv: int, ng: int)
    requires
        layout_ok(ts, n, m, inv, done, Seq::empty()),
        temps_ok(ts, nt, nv, ng),
        0 <= t < ts.len(),
    ensures
        inv[t] >= 0,
        done.contains(t),
    decreases t,
{
    if t > 0 {
        assert(temp_ok(ts, t, nt, nv, ng));
        let p = ts[t].parent->0 as int;
        lemma_layout_complete(ts, n, m, inv, done, p, nt, nv, ng);
        assert(parent_of(ts, t) == p);
    }
    assert(inv[t] >= 0);
    if !done.contains(t) {
        assert(Seq::<int>::empty().contains(t));
    }
}

/// While a record waits, not all are done.
proof fn lemma_layout_fuel<F>(ts: Seq<TempRecord<F>>, n: int, m: Seq<int>, inv: Seq<int>, done: Set<int>, waiting: Seq<int>)
    requires
        layout_ok(ts, n, m, inv, done, waiting),
        waiting.len() > 0,
    ensures
        done.finite(),
        done.len() < ts.len(),
{
    vstd::set_lib::lemma_int_range(0, ts.len() as int);
    let r = set_int_range(0, ts.len() as int);
    vstd::set_lib::lemma_len_subset(done, r);
    let u = waiting[0];
    assert(r.contains(u));
    done.lemma_subset_not_in_lt(r, u);
}

/// The records laid out from the collected records `ts` as `m` says, each of
/// them once: `inv` gives for each collected record the record laid out for it.
pub open spec fn laid_out_once(ts_len: int, m: Seq<int>, inv: Seq<int>) -> bool {
    &&& inv.len() == ts_len
    &&& forall|t: int| 0 <= t < ts_len ==> 0 <= #[trigger] inv[t] < m.len() && m[inv[t]] == t
    &&& forall|i: int| 0 <= i < m.len() ==> inv[#[trigger] m[i]] == i
}

/// The collected records waiting on a stack of (collected record, record) pairs.
pub open spec fn waiting_of(stk: Seq<(usize, usize)>) -> Seq<int> {
    stk.map_values(|e: (usize, usize)| e.0 as int)
}

/// Record `i` laid out is collected record `m[i]`: it has its values,
/// parameter groups, tag flag and label and branch texts, and its parent is
/// the record laid out for that record's parent.
pub open spec fn laid_out<F>(ts: Seq<TempRecord<F>>, rs: Seq<Record>, m: Seq<int>, i: int) -> bool {
    &&& 0 <= m[i] < ts.len()
    &&& i > 0 ==> {
        &&& rs[i].conf_values.start == ts[m[i]].values.0
        &&& rs[i].conf_values.end == ts[m[i]].values.1
        &&& rs[i].param_groups.start == ts[m[i]].param_groups.0
        &&& rs[i].param_groups.end == ts[m[i]].param_groups.1
        &&& rs[i].tag == ts[m[i]].tag
        &&& rs[i].node_label == ts[m[i]].node_label
        &&& rs[i].branch_name == ts[m[i]].branch_name
        &&& rs[i].parent matches Some(q) && 0 <= q < i && (ts[m[i]].parent matches Some(p) && p as int == m[q as int])
    }
}

/// The records `rs` are laid out from the collected records `ts` as `m` says,
/// the root for the root.
pub open spec fn records_from<F>(ts: Seq<TempRecord<F>>, rs: Seq<Record>, m: Seq<int>) -> bool {
    &&& m.len() == rs.len()
    &&& m.len() >= 1
    &&& m[0] == 0
    &&& forall|i: int| 0 <= i < rs.len() ==> #[trigger] laid_out(ts, rs, m, i)
}

/// Lays the collected records out so that the children of each record stand
/// together: the root first, then, taking the last record waiting, its
/// children. Each collected record is laid out once; the count of rounds is
/// bounded by the count of records, so the bound never stops it early.
#[verifier::rlimit(60)]
#[verifier::spinoff_prover]
pub(crate) fn build_records<F>(temps: &Vec<TempRecord<F>>, nt: usize, nv: usize, ng: usize) -> (r: Option<Vec<Record>>)
    requires
        temps_ok(temps@, nt as int, nv as int, ng as int),
        temps_listed(temps@),
    ensures
        r is Some,
        r matches Some(records) ==> {
            &&& records@.len() >= 1
            &&& records@[0].parent is None
            &&& forall|i: int|
                0 <= i < records@.len() ==> #[trigger] record_wf(records@, i, nt as int, nv as int, ng as int)
            &&& exists|mi: (Seq<int>, Seq<int>)|
                #[trigger] records_from(temps@, records@, mi.0) && laid_out_once(temps@.len() as int, mi.0, mi.1)
        },
{
    let mut records: Vec<Record> = Vec::new();
    records.push(
        Record {
            param_groups: 0..0,
            conf_values: 0..0,
            parent: None,
            children: 0..0,
            children_text: false,
            node_label: None,
            branch_name: None,
            tag: false,
        },
    );
    let mut stk: Vec<(usize, usize)> = Vec::new();
    stk.push((0, 0));
    let mut fuel: usize = temps.len();
    let ghost mut m: Seq<int> = seq![0int];
    let ghost mut inv: Seq<int> = Seq::new(temps@.len(), |u: int| if u == 0 { 0int } else { -1int });
    let ghost mut done: Set<int> = Set::empty();
    proof {
        assert(record_wf(records@, 0, nt as int, nv as int, ng as int));
        assert(waiting_of(stk@) =~= seq![0int]);
        assert(temps@.len() >= 1);
        assert(inv[0] == 0);
        assert(seq![0int][0] == 0);
        assert forall|u: int| 0 <= u < temps@.len() implies (#[trigger] inv[u] >= 0 <==> (u == 0 || done.contains(parent_of(temps@, u)))) by {}
        assert forall|u: int| 0 <= u < temps@.len() && #[trigger] inv[u] >= 0 && !done.contains(u) implies waiting_of(stk@).contains(u) by {
            assert(u == 0);
            assert(waiting_of(stk@)[0] == 0);
        }
        assert(done.subset_of(set_int_range(0, temps@.len() as int)));
        assert(layout_ok(temps@, 1, m, inv, done, waiting_of(stk@)));
    }
    while stk.len() > 0
        invariant
            temps_ok(temps@, nt as int, nv as int, ng as int),
            records@.len() >= 1,
            records@[0].parent is None,
            forall|i: int|
                0 <= i < records@.len() ==> #[trigger] record_wf(records@, i, nt as int, nv as int, ng as int),
            forall|k: int|
                0 <= k < stk@.len() ==> (#[trigger] stk@[k]).0 < temps@.len() && stk@[k].1
                    < records@.len() && records@[stk@[k].1 as int].children_text == (
                temps@[stk@[k].0 as int].children_text is Some),
            records_from(temps@, records@, m),
            forall|k: int| 0 <= k < stk@.len() ==> m[(#[trigger] stk@[k]).1 as int] == stk@[k].0,
            temps_listed(temps@),
            temps@.len() <= usize::MAX,
            done.finite(),
            fuel == temps@.len() - done.len(),
            layout_ok(temps@, records@.len() as int, m, inv, done, waiting_of(stk@)),
        decreases fuel,
    {
        proof {
            lemma_layout_fuel(temps@, records@.len() as int, m, inv, done, waiting_of(stk@));
        }
        if fuel == 0 {
            proof {
                assert(false);
            }
            return None;
        }
        fuel = fuel - 1;
        let ghost stk0 = stk@;
        let (t, ri) = stk.pop().unwrap();
        proof {
            lemma_layout_pop(temps@, records@.len() as int, m, inv, done, waiting_of(stk0), nt as int, nv as int, ng as int);
            assert(waiting_of(stk@) =~= waiting_of(stk0).drop_last());
            assert(waiting_of(stk0).last() == t as int);
            assert(stk0[stk0.len() - 1] == (t, ri));
            assert(stk@ == stk0.drop_last());
            assert(temp_ok(temps@, t as int, nt as int, nv as int, ng as int));
            assert(records@[ri as int].children_text == (temps@[t as int].children_text is Some));
            assert(m[ri as int] == t);
        }
        let tr = &temps[t];
        let start = records.len();
        let mut k: usize = 0;
        while k < tr.children_records.len()
            invariant
                temps_ok(temps@, nt as int, nv as int, ng as int),
                tr == temps@[t as int],
                t < temps@.len(),
                temp_ok(temps@, t as int, nt as int, nv as int, ng as int),
                ri < start <= records@.len(),
                records@[ri as int].children_text == (tr.children_text is Some),
                records@.len() == start + k,
                k <= tr.children_records@.len(),
                records@[0].parent is None,
                forall|i: int|
                    0 <= i < start ==> #[trigger] record_wf(records@, i, nt as int, nv as int, ng as int),
                forall|i: int|
                    start <= i < records@.len() ==> (#[trigger] records@[i]).parent == Some(ri)
                        && record_wf(records@, i, nt as int, nv as int, ng as int)
                        && records@[i].children_text == (temps@[tr.children_records@[i - start] as int].children_text is Some),
                forall|k2: int|
                    0 <= k2 < stk@.len() ==> (#[trigger] stk@[k2]).0 < temps@.len() && stk@[k2].1
                        < records@.len() && records@[stk@[k2].1 as int].children_text == (
                    temps@[stk@[k2].0 as int].children_text is Some),
                records_from(temps@, records@, m),
                m[ri as int] == t,
                forall|k2: int| 0 <= k2 < stk@.len() ==> m[(#[trigger] stk@[k2]).1 as int] == stk@[k2].0,
                forall|i: int| start <= i < records@.len() ==> #[trigger] m[i] == tr.children_records@[i - start],
                temps_listed(temps@),
                temps@.len() <= usize::MAX,
                layout_mid(temps@, records@.len() as int, m, inv, done, waiting_of(stk@), t as int, k as int),
            decreases tr.children_records@.len() - k,
        {
            let c = tr.children_records[k];
            proof {
                assert(t < tr.children_records@[k as int] < temps@.len());
                assert(temp_ok(temps@, c as int, nt as int, nv as int, ng as int));
            }
            let ct = &temps[c];
            let (cs, ce) = match ct.children_text {
                Some((a, b)) => (a, b),
                None => (0, 0),
            };
            let ghost before = records@;
            records.push(
                Record {
                    parent: Some(ri),
                    children: cs..ce,
                    children_text: ct.children_text.is_some(),
                    param_groups: ct.param_groups.0..ct.param_groups.1,
                    conf_values: ct.values.0..ct.values.1,
                    node_label: ct.node_label,
                    branch_name: ct.branch_name,
                    tag: ct.tag,
                },
            );
            proof {
                let m0 = m;
                lemma_layout_child(temps@, before.len() as int, m0, inv, done, waiting_of(stk@), t as int, k as int, nt as int, nv as int, ng as int);
                inv = inv.update(c as int, before.len() as int);
                m = m.push(c as int);
                assert(temps@[c as int].parent == Some(t as usize));
                assert forall|i: int| 0 <= i < records@.len() implies #[trigger] laid_out(temps@, records@, m, i) by {
                    if i < before.len() {
                        assert(laid_out(temps@, before, m0, i));
                        assert(records@[i] == before[i]);
                        assert(m[i] == m0[i]);
                        if i > 0 {
                            let q = records@[i].parent->0 as int;
                            assert(m[q] == m0[q]);
                        }
                    } else {
                        assert(m[ri as int] == m0[ri as int]);
                    }
                }
                assert forall|k2: int| 0 <= k2 < stk@.len() implies m[(#[trigger] stk@[k2]).1 as int] == stk@[k2].0 by {
                    assert(m[stk@[k2].1 as int] == m0[stk@[k2].1 as int]);
                }
                assert(records@[ri as int] == before[ri as int]);
                assert forall|i: int| 0 <= i < records@.len() implies #[trigger] record_wf(
                    records@,
                    i,
                    nt as int,
                    nv as int,
                    ng as int,
                ) by {
                    if i < before.len() {
                        assert(records@[i] == before[i]);
                        assert(record_wf(before, i, nt as int, nv as int, ng as int));
                        if !records@[i].children_text {
                            assert forall|c2: int|
                                records@[i].children.start <= c2 < records@[i].children.end implies (
                            #[trigger] records@[c2]).parent == Some(i as usize) by {
                                assert(before[c2] == records@[c2]);
                            }
                        }
                    }
                }
            }
            k = k + 1;
        }
        proof {
            lemma_layout_done(temps@, records@.len() as int, m, inv, done, waiting_of(stk@), t as int, nt as int, nv as int, ng as int);
            done = done.insert(t as int);
        }
        let ghost wstk = waiting_of(stk@);
        let ghost kc = tr.children_records@.map_values(|c: usize| c as int);
        let end = records.len();
        if end > start {
            let ghost before = records@;
            proof {
                assert(tr.children_records@.len() > 0);
                assert forall|c: int| start <= c < end implies (#[trigger] before[c]).parent == Some(ri) by {}
            }
            records[ri].children = start..end;
            proof {
                assert forall|i: int| 0 <= i < records@.len() implies #[trigger] laid_out(temps@, records@, m, i) by {
                    assert(laid_out(temps@, before, m, i));
                    assert(records@[i].conf_values == before[i].conf_values);
                    assert(records@[i].param_groups == before[i].param_groups);
                    assert(records@[i].tag == before[i].tag);
                    assert(records@[i].node_label == before[i].node_label);
                    assert(records@[i].branch_name == before[i].branch_name);
                    assert(records@[i].parent == before[i].parent);
                }
                assert(tr.children_text is None);
                assert forall|c: int| 0 <= c < records@.len() implies (#[trigger] records@[c]).parent == before[c].parent by {}
                assert forall|i: int| 0 <= i < records@.len() implies #[trigger] record_wf(
                    records@,
                    i,
                    nt as int,
                    nv as int,
                    ng as int,
                ) by {
                    if i != ri {
                        assert(records@[i] == before[i]);
                        assert(record_wf(before, i, nt as int, nv as int, ng as int));
                    } else {
                        assert(record_wf(before, i, nt as int, nv as int, ng as int));
                    }
                }
            }
        }
        let mut j: usize = 0;
        while j < tr.children_records.len()
            invariant
                temps_ok(temps@, nt as int, nv as int, ng as int),
                tr == temps@[t as int],
                t < temps@.len(),
                temp_ok(temps@, t as int, nt as int, nv as int, ng as int),
                end == records@.len(),
                start + tr.children_records@.len() == records@.len(),
                j <= tr.children_records@.len(),
                forall|i: int|
                    start <= i < records@.len() ==> (#[trigger] records@[i]).children_text == (
                    temps@[tr.children_records@[i - start] as int].children_text is Some),
                forall|k2: int|
                    0 <= k2 < stk@.len() ==> (#[trigger] stk@[k2]).0 < temps@.len() && stk@[k2].1
                        < records@.len() && records@[stk@[k2].1 as int].children_text == (
                    temps@[stk@[k2].0 as int].children_text is Some),
                records_from(temps@, records@, m),
                forall|k2: int| 0 <= k2 < stk@.len() ==> m[(#[trigger] stk@[k2]).1 as int] == stk@[k2].0,
                forall|i: int| start <= i < records@.len() ==> #[trigger] m[i] == tr.children_records@[i - start],
                temps_listed(temps@),
                temps@.len() <= usize::MAX,
                done.finite(),
                fuel == temps@.len() - done.len(),
                layout_ok(temps@, records@.len() as int, m, inv, done, wstk + kc),
                kc == tr.children_records@.map_values(|c: usize| c as int),
                waiting_of(stk@) == wstk + kc.take(j as int),
            decreases tr.children_records@.len() - j,
        {
            let ghost s0 = stk@;
            stk.push((tr.children_records[j], start + j));
            proof {
                assert(kc[j as int] == tr.children_records@[j as int] as int);
                assert(kc.take(j + 1) =~= kc.take(j as int).push(kc[j as int]));
                assert(waiting_of(stk@) =~= waiting_of(s0).push(tr.children_records@[j as int] as int));
            }
            j = j + 1;
            proof {
                assert(waiting_of(stk@) =~= wstk + kc.take(j as int));
            }
        }
        proof {
            assert(kc.take(j as int) =~= kc);
        }
    }
    proof {
        assert forall|t: int| 0 <= t < temps@.len() implies 0 <= #[trigger] inv[t] < m.len() && m[inv[t]] == t by {
            assert(waiting_of(stk@) =~= Seq::<int>::empty());
            lemma_layout_complete(temps@, records@.len() as int, m, inv, done, t, nt as int, nv as int, ng as int);
        }
        assert(laid_out_once(temps@.len() as int, m, inv));
        assert(records_from(temps@, records@, (m, inv).0) && laid_out_once(temps@.len() as int, (m, inv).0, (m, inv).1));
    }
    Some(records)
}

/// Keeps the tags used at the first `len` depths, adding empty lists as needed.
fn resize_tags(tags: &mut Vec<Vec<String>>, len: usize)
    requires
        len >= 1,
    ensures
        final(tags)@.len() == len,
        forall|i: int| 0 <= i < len && i < old(tags)@.len() ==> #[trigger] final(tags)@[i] == old(tags)@[i],
        forall|i: int| old(tags)@.len() <= i < len ==> (#[trigger] final(tags)@[i])@.len() == 0,
{
    while tags.len() > len
        invariant
            len >= 1,
            tags@.len() <= old(tags)@.len(),
            tags@.len() < old(tags)@.len() ==> tags@.len() >= len,
            forall|i: int| 0 <= i < tags@.len() ==> #[trigger] tags@[i] == old(tags)@[i],
        decreases tags@.len(),
    {
        tags.pop();
    }
    let ghost m = tags@.len();
    while tags.len() < len
        invariant
            tags@.len() <= len,
            m <= tags@.len(),
            m <= old(tags)@.len(),
            m < old(tags)@.len() ==> m == len,
            forall|i: int| 0 <= i < m ==> #[trigger] tags@[i] == old(tags)@[i],
            forall|i: int| m <= i < tags@.len() ==> (#[trigger] tags@[i])@.len() == 0,
        decreases len - tags@.len(),
    {
        tags.push(Vec::new());
    }
}

/// Tries the nodes that `it` gives in turn, until the record's values fit one.
/// A tagged node that may stand once only and whose tag `first` was used
/// already under the same parent is an error; otherwise its tag is noted.
/// It stops at the node that fits, or that gives the error; `Ok(None)` once
/// every node was tried.
fn try_nodes<'d, F, P>(it: &mut NodeContainerIter<'d, F>, first: &str, val_texts: &Vec<usize>, texts: &Vec<String>, memo: &mut Memo<P>, tags_used: &mut Vec<String>) -> (r: Result<
    Option<(NodeContainer<'d, F>, Vec<MatchedGroup<'d>>)>,
    ParseErrorType,
>)
    where
        F: Fn(&str) -> Option<P>,
    requires
        old(it).inv(),
        old(it).valid(),
        parsers_total::<F, P>(old(it).def_view()),
        val_texts@.len() >= 1,
        old(memo)@.len() == val_texts@.len(),
        forall|i: int| 0 <= i < val_texts@.len() ==> #[trigger] val_texts@[i] < texts@.len(),
        memo_ok(old(it).def_view(), old(memo)@, texts@, val_texts@),
    ensures
        final(memo)@.len() == val_texts@.len(),
        memo_ok(old(it).def_view(), final(memo)@, texts@, val_texts@),
        r matches Ok(Some((node, gs))) ==> node.valid() && node.def_view() == old(it).def_view()
            && groups_in(gs@, val_texts@.len() as int, node.def_view().nodes()[node.ind()].param_groups@.len() as int),
        r matches Ok(Some((node, gs))) ==> ({
            let nd = node.def_view().nodes()[node.ind()];
            let start = if nd.has_tag {
                1int
            } else {
                0int
            };
            &&& old(it).remaining().contains(node.ind() as usize)
            &&& matched_node(gs@, nd.param_groups@, start, val_texts@.len() as int)
            &&& nd.param_groups@.len() == 1 ==> single_fit(nd.param_groups@[0], val_texts@.len() - start) == Some(true)
            &&& nd.param_groups@.len() != 1 ==> forall|j: int|
                0 <= j < gs@.len() ==> #[trigger] run_ok(nd.param_groups@[j], gs@[j], val_texts@.len() as int)
            &&& nd.param_groups@.len() != 1 && plain_groups(nd.param_groups@) ==> groups_parsed(node.def_view(), nd.param_groups@, gs@, final(memo)@)
            &&& nd.has_tag ==> strs_view(final(tags_used)@).contains(first@)
            &&& nd.has_tag && nd.tag_once ==> !strs_view(old(tags_used)@).contains(first@)
        }),
        final(tags_used)@.len() >= old(tags_used)@.len(),
        forall|i: int| 0 <= i < old(tags_used)@.len() ==> #[trigger] final(tags_used)@[i] == old(tags_used)@[i],
        r matches Err(e) ==> (e matches ParseErrorType::TagOnce(t) && t@ == first@) || e is Unknown,
        r matches Ok(None) ==> final(it).remaining().len() == 0 && final(tags_used)@ == old(tags_used)@,
        r matches Ok(None) ==> forall|k: int|
            0 <= k < old(it).remaining().len() ==> #[trigger] passed_over::<F, P>(
                old(it).def_view(),
                old(it).remaining()[k] as int,
                val_views(texts@, val_texts@),
            ),
        r matches Ok(Some((node, gs))) ==> (node.def_view().nodes()[node.ind()].param_groups@.len() == 1 ==> single_parsed(
            node.def_view(),
            node.def_view().nodes()[node.ind()].param_groups@[0],
            vals_off(node.def_view().nodes()[node.ind()].has_tag),
            val_texts@.len() as int,
            final(memo)@,
        )),
        r matches Ok(Some(_)) ==> forall|k: int|
            0 <= k < old(it).remaining().len() - final(it).remaining().len() - 1 ==> #[trigger] passed_over::<F, P>(
                old(it).def_view(),
                old(it).remaining()[k] as int,
                val_views(texts@, val_texts@),
            ),
        final(it).remaining().len() <= old(it).remaining().len(),
        !(r matches Err(ParseErrorType::Unknown)) ==> forall|k: int|
            0 <= k < old(it).remaining().len() - final(it).remaining().len() ==> #[trigger] not_broken(
                old(it).def_view(),
                old(it).remaining()[k] as int,
                val_texts@.len() as int,
            ),
        r matches Err(ParseErrorType::Unknown) ==> ({
            let k = old(it).remaining().len() - final(it).remaining().len() - 1;
            let nd = old(it).def_view().nodes()[old(it).remaining()[k] as int];
            &&& 0 <= k
            &&& final(it).remaining() == old(it).remaining().skip(k + 1)
            &&& forall|k2: int| 0 <= k2 < k ==> #[trigger] not_broken(old(it).def_view(), old(it).remaining()[k2] as int, val_texts@.len() as int)
            &&& nd.param_groups@.len() == 1 ==> single_fit(nd.param_groups@[0], val_texts@.len() - vals_off(nd.has_tag)) is None
            &&& nd.param_groups@.len() != 1 && plain_groups(nd.param_groups@) ==> nd.param_groups@.len() == 0
                && vals_off(nd.has_tag) < val_texts@.len()
        }),
        r is Err ==> final(tags_used)@ == old(tags_used)@,
        r matches Ok(Some((node, gs))) ==> exists|k: int|
            0 <= k < old(it).remaining().len() && #[trigger] old(it).remaining()[k] == node.ind()
                && final(it).remaining() == old(it).remaining().skip(k + 1),
        r matches Ok(Some((node, gs))) ==> strs_view(final(tags_used)@) == if node.def_view().nodes()[node.ind()].has_tag {
            strs_view(old(tags_used)@).push(first@)
        } else {
            strs_view(old(tags_used)@)
        },
        r matches Err(ParseErrorType::TagOnce(_)) ==> strs_view(old(tags_used)@).contains(first@) && exists|k: int|
            0 <= k < old(it).remaining().len() && #[trigger] old(it).remaining()[k] < old(it).def_view().nodes().len()
                && old(it).def_view().nodes()[old(it).remaining()[k] as int].has_tag
                && old(it).def_view().nodes()[old(it).remaining()[k] as int].tag_once
                && final(it).remaining() == old(it).remaining().skip(k + 1)
                && forall|j: int| 0 <= j < k ==> #[trigger] passed_over::<F, P>(
                    old(it).def_view(),
                    old(it).remaining()[j] as int,
                    val_views(texts@, val_texts@),
                ),
{
    loop
        invariant
            it.inv(),
            it.valid(),
            parsers_total::<F, P>(it.def_view()),
            it.def_view() == old(it).def_view(),
            val_texts@.len() >= 1,
            memo@.len() == val_texts@.len(),
            forall|i: int| 0 <= i < val_texts@.len() ==> #[trigger] val_texts@[i] < texts@.len(),
            it.remaining().len() <= old(it).remaining().len(),
            it.remaining() == old(it).remaining().skip(old(it).remaining().len() - it.remaining().len()),
            tags_used == old(tags_used),
            memo_ok(it.def_view(), memo@, texts@, val_texts@),
            forall|k: int|
                0 <= k < old(it).remaining().len() - it.remaining().len() ==> #[trigger] not_broken(
                    old(it).def_view(),
                    old(it).remaining()[k] as int,
                    val_texts@.len() as int,
                ),
            forall|k: int|
                0 <= k < old(it).remaining().len() - it.remaining().len() ==> #[trigger] passed_over::<F, P>(
                    old(it).def_view(),
                    old(it).remaining()[k] as int,
                    val_views(texts@, val_texts@),
                ),
        decreases it.remaining().len(),
    {
        let ghost rem0 = it.remaining();
        let node = match it.next() {
            Some(node) => node,
            None => {
                return Ok(None);
            },
        };
        let record_val_start: usize = if node.has_tag() {
            1
        } else {
            0
        };
        let outcome = if node.param_groups_num() == 1 {
            match_single(node, record_val_start, val_texts, texts, memo)
        } else {
            match_multi(node, record_val_start, val_texts, texts, memo)
        };
        proof {
            let c = old(it).remaining().len() - rem0.len();
            assert(old(it).remaining()[c] == rem0[0]);
            assert(it.remaining() =~= old(it).remaining().skip(c + 1));
            let nd = node.def_view().nodes()[node.ind()];
            if nd.param_groups@.len() != 1 && plain_groups(nd.param_groups@) {
                assert(read_groups(node.def_view(), nd.param_groups@, 0, record_val_start as int, val_texts@.len() as int, memo@) == reading_of(outcome));
                reveal(read_groups);
                lemma_broken_only_empty(node.def_view(), nd.param_groups@, 0, record_val_start as int, val_texts@.len() as int, memo@);
            }
            if !(outcome is Broken) {
                assert(not_broken(old(it).def_view(), old(it).remaining()[c] as int, val_texts@.len() as int));
            }
            assert forall|k: int| 0 <= k < c + 1 && !(outcome is Broken) implies #[trigger] not_broken(
                old(it).def_view(),
                old(it).remaining()[k] as int,
                val_texts@.len() as int,
            ) by {}
        }
        match outcome {
            MatchOutcome::Broken => {
                return Err(ParseErrorType::Unknown);
            },
            MatchOutcome::Failed => {
                proof {
                    let c = old(it).remaining().len() - rem0.len();
                    let nd = node.def_view().nodes()[node.ind()];
                    if nd.param_groups@.len() != 1 {
                        let vt = val_views(texts@, val_texts@);
                        assert(rows_made(node.def_view(), memo@, vt)) by {
                            assert forall|i: int| 0 <= i < memo@.len() implies #[trigger] row_ok(node.def_view(), memo@[i]@, vt[i]) by {
                                assert(row_ok(node.def_view(), memo@[i]@, texts@[val_texts@[i] as int]@));
                            }
                        }
                    }
                    assert(passed_over::<F, P>(old(it).def_view(), old(it).remaining()[c] as int, val_views(texts@, val_texts@)));
                    assert forall|k: int| 0 <= k < c + 1 implies #[trigger] passed_over::<F, P>(
                        old(it).def_view(),
                        old(it).remaining()[k] as int,
                        val_views(texts@, val_texts@),
                    ) by {}
                }
            },
            MatchOutcome::Matched(gs) => {
                proof {
                    let nd = node.def_view().nodes()[node.ind()];
                    let off = old(it).remaining().len() - rem0.len();
                    assert(old(it).remaining()[off] == rem0[0]);
                    assert(old(it).remaining().contains(node.ind() as usize));
                    assert(nd.param_groups@.map_values(|g: ParamGroup| g) =~= nd.param_groups@);
                    let start: int = if nd.has_tag {
                        1int
                    } else {
                        0int
                    };
                    if nd.param_groups@.len() == 1 {
                        assert(gs@.drop_last() =~= Seq::<MatchedGroup>::empty());
                        assert(runs_end(gs@.drop_last(), start) == start);
                        assert(gs@.last() == gs@[0]);
                        assert(runs_end(gs@, start) == val_texts@.len());
                    }
                    assert(matched_node(gs@, nd.param_groups@, start, val_texts@.len() as int));
                }
                if node.has_tag() {
                    let mut used = false;
                    let mut k: usize = 0;
                    while k < tags_used.len()
                        invariant
                            k <= tags_used@.len(),
                            used <==> exists|j: int| 0 <= j < k && #[trigger] tags_used@[j]@ == first@,
                        decreases tags_used@.len() - k,
                    {
                        if str_eq(tags_used[k].as_str(), first) {
                            used = true;
                        }
                        k = k + 1;
                    }
                    if node.tag_once() && used {
                        proof {
                            let k = old(it).remaining().len() - rem0.len();
                            assert(old(it).remaining()[k] == rem0[0]);
                            assert(it.remaining() =~= old(it).remaining().skip(k + 1));
                            let j = choose|j: int| 0 <= j < tags_used@.len() && #[trigger] tags_used@[j]@ == first@;
                            assert(strs_view(tags_used@)[j] == first@);
                        }
                        return Err(ParseErrorType::TagOnce(str_to_string(first)));
                    }
                    proof {
                        if strs_view(tags_used@).contains(first@) {
                            let j = choose|j: int| 0 <= j < strs_view(tags_used@).len() && strs_view(tags_used@)[j] == first@;
                            assert(tags_used@[j]@ == first@);
                        }
                    }
                    let ghost tu0 = tags_used@;
                    tags_used.push(str_to_string(first));
                    proof {
                        assert(strs_view(tags_used@)[tu0.len() as int] == first@);
                        assert(strs_view(tags_used@) =~= strs_view(tu0).push(first@));
                    }
                }
                proof {
                    let k = old(it).remaining().len() - rem0.len();
                    assert(old(it).remaining()[k] == rem0[0]);
                    assert(it.remaining() =~= old(it).remaining().skip(k + 1));
                }
                return Ok(Some((node, gs)));
            },
        }
    }
}

/// Stores what the parsers made of the record's values, in the order of the
/// matched groups; `false` if a value lacks the parse its parameter needs.
/// The values are taken one after another from the first after the tag; value
/// `i` of a group is read as the group's parameter `i` modulo its number of
/// parameters, and one whose parameter has a parser gets the first parse noted
/// for that parser's type key. The result is `true` exactly when every value
/// can be given its parse so (see `storable_at`), and then each was (see
/// `stored_at`).
fn store_parsed<'d, F, P>(node: NodeContainer<'d, F>, gs: &Vec<MatchedGroup<'d>>, memo: &mut Memo<P>, conf_val_start: usize, values: &mut Vec<Value>, parsed: &mut Vec<P>) -> (ok: bool)
    requires
        node.valid(),
        groups_in(gs@, old(memo)@.len() as int, node.def_view().nodes()[node.ind()].param_groups@.len() as int),
        conf_val_start + old(memo)@.len() == old(values)@.len(),
        forall|v: int|
            0 <= v < old(values)@.len() ==> ((#[trigger] old(values)@[v]).parsed_ind matches Some(k) ==> k < old(parsed)@.len()),
        forall|v: int| conf_val_start <= v < old(values)@.len() ==> (#[trigger] old(values)@[v]).parsed_ind is None,
    ensures
        final(values)@.len() == old(values)@.len(),
        forall|v: int|
            0 <= v < final(values)@.len() ==> (#[trigger] final(values)@[v]).text_ind == old(values)@[v].text_ind
                && final(values)@[v].start_loc == old(values)@[v].start_loc
                && final(values)@[v].end_loc == old(values)@[v].end_loc,
        forall|v: int|
            0 <= v < final(values)@.len() ==> ((#[trigger] final(values)@[v]).parsed_ind matches Some(k) ==> k < final(parsed)@.len()),
        final(parsed)@.len() >= old(parsed)@.len(),
        forall|k: int| 0 <= k < old(parsed)@.len() ==> #[trigger] final(parsed)@[k] == old(parsed)@[k],
        forall|v: int| 0 <= v < conf_val_start ==> #[trigger] final(values)@[v] == old(values)@[v],
        forall|v: int|
            conf_val_start <= v < final(values)@.len() ==> ((#[trigger] final(values)@[v]).parsed_ind matches Some(k) ==> noted(old(memo)@[v - conf_val_start]@, final(parsed)@[k as int])),
        ok <==> forall|gi: int, i: int|
            0 <= gi < gs@.len() && 0 <= i < gs@[gi].end - gs@[gi].start ==> #[trigger] storable_at(
                node.def_view(),
                node.def_view().nodes()[node.ind()].param_groups@,
                gs@,
                old(memo)@,
                vals_off(node.def_view().nodes()[node.ind()].has_tag),
                old(memo)@.len() as int,
                gi,
                i,
            ),
        ok ==> forall|gi: int, i: int|
            0 <= gi < gs@.len() && 0 <= i < gs@[gi].end - gs@[gi].start ==> #[trigger] stored_at(
                node.def_view(),
                node.def_view().nodes()[node.ind()].param_groups@,
                gs@,
                old(memo)@,
                vals_off(node.def_view().nodes()[node.ind()].has_tag),
                conf_val_start as int,
                final(values)@,
                final(parsed)@,
                gi,
                i,
            ),
{
    let n = memo.len();
    let ghost d = node.def_view();
    let ghost groups = d.nodes()[node.ind()].param_groups@;
    let ghost om = memo@;
    let ghost off: int = vals_off(d.nodes()[node.ind()].has_tag);
    let mut record_val_ind: usize = if node.has_tag() {
        1
    } else {
        0
    };
    let mut gi: usize = 0;
    while gi < gs.len()
        invariant
            node.valid(),
            d == node.def_view(),
            groups == d.nodes()[node.ind()].param_groups@,
            om == old(memo)@,
            off == vals_off(d.nodes()[node.ind()].has_tag),
            groups_in(gs@, n as int, node.def_view().nodes()[node.ind()].param_groups@.len() as int),
            gi <= gs@.len(),
            record_val_ind == run_at(gs@, off, gi as int),
            memo@.len() == n,
            n == old(memo)@.len(),
            conf_val_start + n == values@.len(),
            values@.len() == old(values)@.len(),
            forall|p: int| record_val_ind <= p < n ==> #[trigger] memo@[p] == om[p],
            forall|gi2: int, i2: int|
                #[trigger] done_before(gs@, gi2, i2, gi as int, 0) ==> storable_at(d, groups, gs@, om, off, n as int, gi2, i2),
            forall|gi2: int, i2: int|
                #[trigger] done_before(gs@, gi2, i2, gi as int, 0) ==> stored_at(d, groups, gs@, om, off, conf_val_start as int, values@, parsed@, gi2, i2),
            forall|gi2: int, i2: int|
                #[trigger] done_before(gs@, gi2, i2, gi as int, 0) ==> run_at(gs@, off, gi2) + i2 < n,
            forall|v: int|
                0 <= v < values@.len() ==> (#[trigger] values@[v]).text_ind == old(values)@[v].text_ind
                    && values@[v].start_loc == old(values)@[v].start_loc
                    && values@[v].end_loc == old(values)@[v].end_loc,
            forall|v: int|
                0 <= v < values@.len() ==> ((#[trigger] values@[v]).parsed_ind matches Some(k) ==> k < parsed@.len()),
            parsed@.len() >= old(parsed)@.len(),
            forall|k: int| 0 <= k < old(parsed)@.len() ==> #[trigger] parsed@[k] == old(parsed)@[k],
            forall|v: int| 0 <= v < conf_val_start ==> #[trigger] values@[v] == old(values)@[v],
            forall|v: int|
                conf_val_start <= v < values@.len() ==> ((#[trigger] values@[v]).parsed_ind matches Some(k) ==> noted(old(memo)@[v - conf_val_start]@, parsed@[k as int])),
        decreases gs@.len() - gi,
    {
        let tg = &gs[gi];
        proof {
            assert(tg.start <= tg.end <= n && tg.group_ind < node.def_view().nodes()[node.ind()].param_groups@.len());
            lemma_run_at_mono(gs@, off, gi as int, gi as int);
        }
        let g = group_at(node, tg.group_ind);
        let len = tg.end - tg.start;
        let pn = g.params_num();
        let mut i: usize = 0;
        while i < len
            invariant
                d == node.def_view(),
                groups == d.nodes()[node.ind()].param_groups@,
                g.valid(),
                g.def_view() == d,
                g.spec_group() == groups[gs@[gi as int].group_ind as int],
                pn == g.spec_group().params@.len(),
                0 <= gi < gs@.len(),
                len == gs@[gi as int].end - gs@[gi as int].start,
                off == vals_off(d.nodes()[node.ind()].has_tag),
                off >= 0,
                forall|k: int| 0 <= k < gs@.len() ==> (#[trigger] gs@[k]).start <= gs@[k].end,
                record_val_ind == run_at(gs@, off, gi as int) + i,
                om == old(memo)@,
                memo@.len() == n,
                n == old(memo)@.len(),
                conf_val_start + n == values@.len(),
                values@.len() == old(values)@.len(),
                forall|p: int| record_val_ind <= p < n ==> #[trigger] memo@[p] == om[p],
                forall|gi2: int, i2: int|
                    #[trigger] done_before(gs@, gi2, i2, gi as int, i as int) ==> storable_at(d, groups, gs@, om, off, n as int, gi2, i2),
                forall|gi2: int, i2: int|
                    #[trigger] done_before(gs@, gi2, i2, gi as int, i as int) ==> stored_at(d, groups, gs@, om, off, conf_val_start as int, values@, parsed@, gi2, i2),
                forall|gi2: int, i2: int|
                    #[trigger] done_before(gs@, gi2, i2, gi as int, i as int) ==> run_at(gs@, off, gi2) + i2 < n,
                forall|v: int|
                    0 <= v < values@.len() ==> (#[trigger] values@[v]).text_ind == old(values)@[v].text_ind
                        && values@[v].start_loc == old(values)@[v].start_loc
                        && values@[v].end_loc == old(values)@[v].end_loc,
                forall|v: int|
                    0 <= v < values@.len() ==> ((#[trigger] values@[v]).parsed_ind matches Some(k) ==> k < parsed@.len()),
                parsed@.len() >= old(parsed)@.len(),
                i <= len,
                forall|k: int| 0 <= k < old(parsed)@.len() ==> #[trigger] parsed@[k] == old(parsed)@[k],
                forall|v: int| 0 <= v < conf_val_start ==> #[trigger] values@[v] == old(values)@[v],
                forall|v: int|
                    conf_val_start <= v < values@.len() ==> ((#[trigger] values@[v]).parsed_ind matches Some(k) ==> noted(old(memo)@[v - conf_val_start]@, parsed@[k as int])),
            decreases len - i,
        {
            if pn == 0 {
                proof {
                    assert(!storable_at(d, groups, gs@, om, off, n as int, gi as int, i as int));
                }
                return false;
            }
            let param_ind = i % pn;
            let ghost pos: int = record_val_ind as int;
            match g.param_type_id(param_ind) {
                Some(key) => {
                    if record_val_ind >= n {
                        proof {
                            assert(!storable_at(d, groups, gs@, om, off, n as int, gi as int, i as int));
                        }
                        return false;
                    }
                    let mut j: usize = 0;
                    let mut found: Option<usize> = None;
                    while j < memo[record_val_ind].len()
                        invariant
                            record_val_ind < memo@.len(),
                            j <= memo@[record_val_ind as int]@.len(),
                            found matches Some(f) ==> first_at(memo@[record_val_ind as int]@, key, f as int),
                            found is None ==> forall|k: int| 0 <= k < j ==> (#[trigger] memo@[record_val_ind as int]@[k]).0 != key,
                        decreases memo@[record_val_ind as int]@.len() - j,
                    {
                        if found.is_none() && memo[record_val_ind][j].0 == key {
                            found = Some(j);
                        }
                        j = j + 1;
                    }
                    let j = match found {
                        Some(j) => j,
                        None => {
                            proof {
                                assert(memo@[pos] == om[pos]);
                                if storable_at(d, groups, gs@, om, off, n as int, gi as int, i as int) {
                                    assert(key_of(d, groups[gs@[gi as int].group_ind as int], i as int % (pn as int)) == Some(key));
                                    let j2 = choose|j2: int| first_at(om[pos]@, key, j2) && (#[trigger] om[pos]@[j2]).1 is Some;
                                    assert(om[pos]@[j2].0 == key);
                                }
                            }
                            return false;
                        },
                    };
                    let ghost m0 = memo@;
                    proof {
                        assert(memo@[pos] == om[pos]);
                        assert(key_of(d, groups[gs@[gi as int].group_ind as int], i as int % (pn as int)) == Some(key));
                    }
                    let v = memo[record_val_ind][j].1.take();
                    proof {
                        assert forall|i2: int| 0 <= i2 < n && i2 != pos implies #[trigger] memo@[i2] == m0[i2] by {}
                        assert(v == om[pos]@[j as int].1);
                    }
                    match v {
                        Some(p) => {
                            let vlen = values.len();
                            if conf_val_start >= vlen || record_val_ind >= vlen - conf_val_start {
                                return false;
                            }
                            let vi = conf_val_start + record_val_ind;
                            let ghost before = values@;
                            let ghost pbefore = parsed@;
                            values[vi].parsed_ind = Some(parsed.len());
                            parsed.push(p);
                            proof {
                                assert forall|v2: int| 0 <= v2 < values@.len() implies ((#[trigger] values@[v2]).parsed_ind matches Some(k) ==> k < parsed@.len()) by {
                                    if v2 != vi {
                                        assert(values@[v2] == before[v2]);
                                    }
                                }
                                assert forall|v2: int| 0 <= v2 < values@.len() implies (#[trigger] values@[v2]).text_ind == old(values)@[v2].text_ind
                                    && values@[v2].start_loc == old(values)@[v2].start_loc
                                    && values@[v2].end_loc == old(values)@[v2].end_loc by {
                                    assert(values@[v2].text_ind == before[v2].text_ind);
                                }
                                assert forall|k: int| 0 <= k < old(parsed)@.len() implies #[trigger] parsed@[k] == old(parsed)@[k] by {
                                    assert(parsed@[k] == pbefore[k]);
                                }
                                assert forall|v2: int| 0 <= v2 < conf_val_start implies #[trigger] values@[v2] == old(values)@[v2] by {
                                    assert(values@[v2] == before[v2]);
                                }
                                assert forall|v2: int|
                                    conf_val_start <= v2 < values@.len() implies ((#[trigger] values@[v2]).parsed_ind matches Some(k) ==> noted(old(memo)@[v2 - conf_val_start]@, parsed@[k as int])) by {
                                    if v2 != vi {
                                        assert(values@[v2] == before[v2]);
                                        if let Some(k) = before[v2].parsed_ind {
                                            assert(parsed@[k as int] == pbefore[k as int]);
                                        }
                                    } else {
                                        assert(parsed@[pbefore.len() as int] == p);
                                        assert(old(memo)@[v2 - conf_val_start]@[j as int].1 == Some(p));
                                        assert(noted(old(memo)@[v2 - conf_val_start]@, p));
                                    }
                                }
                                assert forall|q: int| 0 <= q < before.len() && q != conf_val_start + run_at(gs@, off, gi as int) + i implies #[trigger] values@[q] == before[q] by {}
                                lemma_stored_frame(d, groups, gs@, om, off, conf_val_start as int, before, pbefore, values@, parsed@, gi as int, i as int);
                                assert(values@[vi as int].parsed_ind == Some(pbefore.len() as usize));
                                assert(parsed@[pbefore.len() as int] == p);
                                assert(first_at(om[pos]@, key, j as int));
                                assert(stored_at(d, groups, gs@, om, off, conf_val_start as int, values@, parsed@, gi as int, i as int));
                            }
                        },
                        None => {
                            proof {
                                assert(first_at(om[pos]@, key, j as int));
                                if storable_at(d, groups, gs@, om, off, n as int, gi as int, i as int) {
                                    let j2 = choose|j2: int| first_at(om[pos]@, key, j2) && (#[trigger] om[pos]@[j2]).1 is Some;
                                    if j2 < j {
                                        assert(om[pos]@[j2].0 != key);
                                    } else if j2 > j {
                                        assert(om[pos]@[j as int].0 != key);
                                    }
                                }
                            }
                            return false;
                        },
                    }
                },
                None => {
                    proof {
                        assert(key_of(d, groups[gs@[gi as int].group_ind as int], i as int % (pn as int)) is None);
                    }
                },
            }
            if record_val_ind >= n {
                proof {
                    assert(!storable_at(d, groups, gs@, om, off, n as int, gi as int, i as int));
                }
                return false;
            }
            proof {
                assert(storable_at(d, groups, gs@, om, off, n as int, gi as int, i as int));
                assert(stored_at(d, groups, gs@, om, off, conf_val_start as int, values@, parsed@, gi as int, i as int));
                assert forall|gi2: int, i2: int| #[trigger] done_before(gs@, gi2, i2, gi as int, i + 1) implies storable_at(d, groups, gs@, om, off, n as int, gi2, i2)
                    && stored_at(d, groups, gs@, om, off, conf_val_start as int, values@, parsed@, gi2, i2)
                    && run_at(gs@, off, gi2) + i2 < n by {
                    if !(gi2 == gi && i2 == i) {
                        assert(done_before(gs@, gi2, i2, gi as int, i as int));
                    }
                }
            }
            record_val_ind = record_val_ind + 1;
            i = i + 1;
        }
        proof {
            assert forall|gi2: int, i2: int| #[trigger] done_before(gs@, gi2, i2, gi + 1, 0) implies done_before(gs@, gi2, i2, gi as int, i as int) by {}
        }
        gi = gi + 1;
    }
    proof {
        assert forall|gi2: int, i2: int| 0 <= gi2 < gs@.len() && 0 <= i2 < gs@[gi2].end - gs@[gi2].start implies #[trigger] storable_at(d, groups, gs@, om, off, n as int, gi2, i2) by {
            assert(done_before(gs@, gi2, i2, gi as int, 0));
        }
        assert forall|gi2: int, i2: int| 0 <= gi2 < gs@.len() && 0 <= i2 < gs@[gi2].end - gs@[gi2].start implies #[trigger] stored_at(d, groups, gs@, om, off, conf_val_start as int, values@, parsed@, gi2, i2) by {
            assert(done_before(gs@, gi2, i2, gi as int, 0));
        }
    }
    true
}

/// Where a line ending ends, it ends after `p`, unless `p` is the end.
pub proof fn lemma_ending_progress(s: Seq<char>, p: int)
    requires
        0 <= p <= s.len(),
    ensures
        ending_end(s, p) matches Some(e) ==> p <= e <= s.len() && (p < s.len() ==> p < e),
{
    lemma_spc_end_bounds(s, p);
    let q = spc_end(s, p);
    if eol_len(s, q) > 0 {
        assert(crate::lexer::matches_at(s, q, seq!['\n']) || crate::lexer::matches_at(s, q, seq!['\r', '\n']));
    }
}

/// A comment line that starts at `p` ends after `p`.
pub proof fn lemma_cmnt_progress(s: Seq<char>, p: int)
    requires
        0 <= p <= s.len(),
    ensures
        cmnt_end(s, p) matches Some(e) ==> p < e <= s.len(),
{
    lemma_spc_end_bounds(s, p);
    let q = spc_end(s, p);
    if crate::lexer::matches_at(s, q, seq!['#']) {
        lemma_line_rest_end_bounds(s, q + 1);
        lemma_ending_progress(s, line_rest_end(s, q + 1));
    }
}

/// A multi-line comment that starts at `p` ends after `p`.
pub proof fn lemma_ml_progress(s: Seq<char>, p: int, start: Seq<char>, end: Seq<char>)
    requires
        0 <= p <= s.len(),
        start.len() == 2,
        end.len() == 2,
    ensures
        ml_cmnt_end(s, p, start, end) matches Some(e) ==> p < e <= s.len(),
{
    lemma_spc_end_bounds(s, p);
    let q = spc_end(s, p);
    if crate::lexer::matches_at(s, q, start) {
        lemma_ml_scan_bounds(s, q + 2, end);
        let k = ml_scan(s, q + 2, end);
        if crate::lexer::matches_at(s, k, end) {
            lemma_ending_progress(s, k + 2);
        }
    }
}

/// What has been collected while parsing: the records so far (with the parent
/// that the next record at `last_indent` takes, `cur_parent`), the texts,
/// values, parameter groups and parsed values they index, and the tags used
/// under the parent at each depth.
pub(crate) struct ParseState<'d, F, P> {
    pub(crate) temp_records: Vec<TempRecord<'d, F>>,
    pub(crate) texts: Vec<String>,
    pub(crate) values: Vec<Value>,
    pub(crate) groups: Vec<ConfGroup>,
    pub(crate) parsed: Vec<P>,
    pub(crate) cur_parent: usize,
    pub(crate) last_indent: usize,
    pub(crate) tags_useds: Vec<Vec<String>>,
    /// The depth of each record: 0 for the root, one more than its parent's.
    pub(crate) depth: Ghost<Seq<int>>,
    /// The node of each record but the root, by index in the definition.
    pub(crate) nodes: Ghost<Seq<int>>,
    /// The branch each record but the root was looked up in.
    pub(crate) brs: Ghost<Seq<int>>,
}

/// A tag among those noted at depth `indent` (`pre`, as noted there, none
/// past the depths noted) is the tag of a tagged record collected under the
/// last record at that depth.
proof fn lemma_seen_tag<'d, F, P>(o: ParseState<'d, F, P>, root: BranchContainer<'d, F>, indent: int, pre: Seq<String>, w: Seq<char>)
    requires
        o.tags_ok(root),
        0 <= indent,
        indent < o.tags_useds@.len() ==> pre == o.tags_useds@[indent]@,
        indent >= o.tags_useds@.len() ==> pre.len() == 0,
        strs_view(pre).contains(w),
    ensures
        tag_under(o.temp_records@, text_views(o.texts@), o.values@, w, last_at(o.depth@, o.temp_records@.len() as int, indent)),
{
    let tags = tags_view(o.tags_useds@);
    assert(indent < o.tags_useds@.len());
    assert(tags[indent] == strs_view(pre));
    let i = choose|i: int| 0 <= i < strs_view(pre).len() && strs_view(pre)[i] == w;
    assert(tags_from(o.temp_records@, text_views(o.texts@), o.values@, tags[indent], last_at(o.depth@, o.temp_records@.len() as int, indent)));
    assert(tag_under(o.temp_records@, text_views(o.texts@), o.values@, tags[indent][i], last_at(o.depth@, o.temp_records@.len() as int, indent)));
}

impl<'d, F, P> ParseState<'d, F, P> {
    /// The collected records form a tree whose indices are in range; the parent
    /// for the next record at the last indent has that indent as its depth; a
    /// record with a body takes a body, and a record that takes the records of
    /// a branch names a branch of the definition of `root`.
    pub(crate) open spec fn ok(&self, root: BranchContainer<'d, F>) -> bool {
        self.ok_at(root, self.cur_parent as int, self.last_indent as int)
    }

    /// As `ok`, with `cp` the parent for the next record at indent `li`.
    pub(crate) open spec fn ok_at(&self, root: BranchContainer<'d, F>, cp: int, li: int) -> bool {
        let ts = self.temp_records@;
        let d = self.depth@;
        &&& temps_ok(ts, self.texts@.len() as int, self.values@.len() as int, self.groups@.len() as int)
        &&& temps_listed(ts)
        &&& items_ok(self.values@, self.groups@, self.texts@.len() as int, self.parsed@.len() as int)
        &&& 0 <= cp < ts.len()
        &&& self.tags_useds@.len() >= 1
        &&& d.len() == ts.len()
        &&& d[0] == 0
        &&& forall|t: int| 0 < t < ts.len() ==> ((#[trigger] ts[t]).parent matches Some(p) && d[t] == d[p as int] + 1)
        &&& forall|t: int| 0 <= t < ts.len() ==> #[trigger] d[t] >= 0
        &&& d[cp] == li
        &&& nested(ts, d, cp, li)
        &&& forall|t: int| 0 <= t < ts.len() && (#[trigger] ts[t]).children_text is Some ==> ts[t].kids is Body
        &&& forall|t: int|
            0 <= t < ts.len() ==> ((#[trigger] ts[t]).kids matches NodeChildrenContainer::Branch(b) ==> b.valid()
                && b.def_view() == root.def_view())
    }

    /// Each collected record but the root is a record of node `nodes[t]`,
    /// looked up in branch `brs[t]` as its parent's node says, and takes below
    /// it what that node does; the root takes the records of `root`'s branch.
    pub(crate) open spec fn fits(&self, root: BranchContainer<'d, F>) -> bool {
        let ts = self.temp_records@;
        &&& self.nodes@.len() == ts.len()
        &&& self.brs@.len() == ts.len()
        &&& ts[0].kids matches NodeChildrenContainer::Branch(bc) && bc.ind() == root.ind()
        &&& forall|t: int|
            1 <= t < ts.len() ==> #[trigger] temp_fits(
                root.def_view(),
                root.ind(),
                ts,
                text_views(self.texts@),
                self.values@,
                self.groups@,
                self.nodes@,
                self.brs@,
                t,
            )
    }

    /// The tags in use at each depth up to the last indent hold the tag of each
    /// tagged child of the last record at that depth, and a tagged record whose
    /// node's tag may stand once has no earlier tagged sibling with its tag.
    pub(crate) open spec fn tags_ok(&self, root: BranchContainer<'d, F>) -> bool {
        let ts = self.temp_records@;
        let tags = tags_view(self.tags_useds@);
        &&& self.tags_useds@.len() == self.last_indent + 1
        &&& forall|x: int|
            0 <= x < tags.len() ==> #[trigger] tags_noted(
                ts,
                text_views(self.texts@),
                self.values@,
                tags[x],
                last_at(self.depth@, ts.len() as int, x),
            )
        &&& tags_once_kept(root.def_view(), ts, text_views(self.texts@), self.values@, self.nodes@)
        &&& forall|x: int|
            0 <= x < tags.len() ==> #[trigger] tags_from(
                ts,
                text_views(self.texts@),
                self.values@,
                tags[x],
                last_at(self.depth@, ts.len() as int, x),
            )
    }

    /// The tag of each tagged record is the text of a value.
    pub(crate) proof fn lemma_tag_texts(&self, root: BranchContainer<'d, F>, cp: int, li: int)
        requires
            self.ok_at(root, cp, li),
        ensures
            forall|t: int|
                1 <= t < self.temp_records@.len() && (#[trigger] self.temp_records@[t]).tag ==> self.temp_records@[t].values.0
                    < self.values@.len() && self.values@[self.temp_records@[t].values.0 as int].text_ind < text_views(
                    self.texts@,
                ).len(),
            forall|t: int|
                1 <= t < self.temp_records@.len() ==> ((#[trigger] self.temp_records@[t]).parent matches Some(p) && p < t),
    {
        let ts = self.temp_records@;
        assert forall|t: int| 1 <= t < ts.len() && (#[trigger] ts[t]).tag implies ts[t].values.0 < self.values@.len()
            && self.values@[ts[t].values.0 as int].text_ind < text_views(self.texts@).len() by {
            assert(temp_ok(ts, t, self.texts@.len() as int, self.values@.len() as int, self.groups@.len() as int));
        }
        assert forall|t: int| 1 <= t < ts.len() implies ((#[trigger] ts[t]).parent matches Some(p) && p < t) by {
            assert(temp_ok(ts, t, self.texts@.len() as int, self.values@.len() as int, self.groups@.len() as int));
        }
    }

    /// The depths of the collected records grow by one from each parent.
    pub(crate) proof fn lemma_depths(&self, root: BranchContainer<'d, F>, cp: int, li: int)
        requires
            self.ok_at(root, cp, li),
        ensures
            depths_ok(self.temp_records@, self.depth@),
    {
        let ts = self.temp_records@;
        assert forall|t: int| 0 < t < ts.len() implies ((#[trigger] ts[t]).parent matches Some(p) && p < t
            && self.depth@[t] == self.depth@[p as int] + 1) by {
            assert(temp_ok(ts, t, self.texts@.len() as int, self.values@.len() as int, self.groups@.len() as int));
        }
    }

    /// Nothing collected yet: the root record alone.
    pub(crate) fn new(root: BranchContainer<'d, F>) -> (st: Self)
        requires
            root.valid(),
        ensures
            st.ok(root),
            st.fits(root),
            st.tags_ok(root),
            st.last_indent == 0,
            st.values@.len() == 0,
            st.temp_records@.len() == 1,
    {
        let mut temp_records: Vec<TempRecord<'d, F>> = Vec::new();
        temp_records.push(
            TempRecord {
                parent: None,
                children_records: Vec::new(),
                children_text: None,
                param_groups: (0, 0),
                values: (0, 0),
                node_label: None,
                branch_name: None,
                tag: false,
                kids: NodeChildrenContainer::Branch(root),
            },
        );
        let mut tags_useds: Vec<Vec<String>> = Vec::new();
        tags_useds.push(Vec::new());
        let depth: Ghost<Seq<int>> = Ghost(Seq::<int>::empty().push(0int));
        let nodes: Ghost<Seq<int>> = Ghost(Seq::<int>::empty().push(0int));
        let brs: Ghost<Seq<int>> = Ghost(Seq::<int>::empty().push(root.ind()));
        let st = ParseState {
            temp_records,
            texts: Vec::new(),
            values: Vec::new(),
            groups: Vec::new(),
            parsed: Vec::new(),
            cur_parent: 0,
            last_indent: 0,
            tags_useds,
            depth,
            nodes,
            brs,
        };
        proof {
            assert(temp_ok(st.temp_records@, 0, 0, 0, 0));
            assert(st.depth@ =~= seq![0int]);
            lemma_nested_init(st.temp_records@, st.depth@);
        }
        st
    }

    /// Adds the lines of a body to the last record.
    pub(crate) fn add_body(&mut self, root: BranchContainer<'d, F>, tokens: Vec<Token>)
        where
            F: Fn(&str) -> Option<P>,
        requires
            old(self).ok(root),
            old(self).temp_records@.len() > 1,
            old(self).temp_records@.last().kids is Body,
        ensures
            final(self).ok(root),
            old(self).fits(root) ==> final(self).fits(root),
            temps_first_fit::<F, P>(root.def_view(), old(self).temp_records@, text_views(old(self).texts@), old(self).values@, old(self).nodes@, old(self).brs@)
                ==> temps_first_fit::<F, P>(root.def_view(), final(self).temp_records@, text_views(final(self).texts@), final(self).values@, final(self).nodes@, final(self).brs@),
            old(self).tags_ok(root) ==> final(self).tags_ok(root),
            parsed_ok(root.def_view(), old(self).values@, text_views(old(self).texts@), old(self).parsed@) ==> parsed_ok(
                root.def_view(),
                final(self).values@,
                text_views(final(self).texts@),
                final(self).parsed@,
            ),
            final(self).last_indent == old(self).last_indent,
            appended(old(self).values@, old(self).texts@, final(self).values@, final(self).texts@, tokens@),
            final(self).temp_records@.len() == old(self).temp_records@.len(),
            final(self).temp_records@.last().kids == old(self).temp_records@.last().kids,
            final(self).depth == old(self).depth,
            forall|t: int| 0 <= t < old(self).temp_records@.len() - 1 ==> kept_temp(#[trigger] final(self).temp_records@[t], old(self).temp_records@[t]),
            final(self).temp_records@.last().parent == old(self).temp_records@.last().parent,
            final(self).temp_records@.last().values == old(self).temp_records@.last().values,
            final(self).temp_records@.last().children_text == if tokens@.len() == 0 {
                old(self).temp_records@.last().children_text
            } else {
                Some((old(self).values@.len() as usize, (old(self).values@.len() + tokens@.len()) as usize))
            },
    {
        if tokens.len() == 0 {
            proof {
                assert forall|v: int| 0 <= v < old(self).values@.len() implies same_text_loc(#[trigger] self.values@[v], old(self).values@[v]) by {}
            }
            return;
        }
        let val_start = self.values.len();
        let mut i: usize = 0;
        while i < tokens.len()
            invariant
                old(self).ok(root),
                self.temp_records == old(self).temp_records,
                self.groups == old(self).groups,
                self.parsed == old(self).parsed,
                self.cur_parent == old(self).cur_parent,
                self.last_indent == old(self).last_indent,
                self.tags_useds == old(self).tags_useds,
                self.depth == old(self).depth,
                self.nodes == old(self).nodes,
                self.brs == old(self).brs,
                self.texts@.len() >= old(self).texts@.len(),
                self.values@.len() >= old(self).values@.len(),
                val_start == old(self).values@.len(),
                self.values@.take(val_start as int) == old(self).values@.take(val_start as int),
                forall|v: int| val_start <= v < self.values@.len() ==> (#[trigger] self.values@[v]).parsed_ind is None,
                items_ok(self.values@, self.groups@, self.texts@.len() as int, self.parsed@.len() as int),
                i <= tokens@.len(),
                appended(old(self).values@, old(self).texts@, self.values@, self.texts@, tokens@.take(i as int)),
            decreases tokens@.len() - i,
        {
            let t = tokens[i].clone();
            let text_ind = self.texts.len();
            let ghost texts0 = self.texts@;
            self.texts.push(t.extracted);
            let ghost before = self.values@;
            self.values.push(Value { start_loc: t.start_loc, end_loc: t.end_loc, text_ind, parsed_ind: None });
            proof {
                let tk = tokens@.take(i + 1);
                assert(tk[i as int] == tokens@[i as int]);
                assert forall|j: int| 0 <= j < i + 1 implies value_of(#[trigger] self.values@[old(self).values@.len() + j], self.texts@, tk[j]) by {
                    if j < i {
                        assert(tk[j] == tokens@.take(i as int)[j]);
                        assert(self.values@[old(self).values@.len() + j] == before[old(self).values@.len() + j]);
                        assert(self.texts@[before[old(self).values@.len() + j].text_ind as int] == texts0[before[old(self).values@.len() + j].text_ind as int]);
                    }
                }
                assert forall|k: int| 0 <= k < old(self).texts@.len() implies #[trigger] self.texts@[k] == old(self).texts@[k] by {
                    assert(self.texts@[k] == texts0[k]);
                }
                assert forall|v: int| 0 <= v < old(self).values@.len() implies same_text_loc(#[trigger] self.values@[v], old(self).values@[v]) by {
                    assert(self.values@[v] == before[v]);
                }
                assert forall|v: int| 0 <= v < self.values@.len() implies (#[trigger] self.values@[v]).text_ind < self.texts@.len()
                    && (self.values@[v].parsed_ind matches Some(k) ==> k < self.parsed@.len()) by {
                    if v < before.len() {
                        assert(self.values@[v] == before[v]);
                    }
                }
                assert(self.values@.take(val_start as int) =~= before.take(val_start as int));
                assert forall|v: int| val_start <= v < self.values@.len() implies (#[trigger] self.values@[v]).parsed_ind is None by {
                    if v < before.len() {
                        assert(self.values@[v] == before[v]);
                    }
                }
            }
            i = i + 1;
        }
        let val_end = self.values.len();
        let last = self.temp_records.len() - 1;
        let ghost ts0 = self.temp_records@;
        self.temp_records[last].children_text = Some((val_start, val_end));
        proof {
            assert(tokens@.take(i as int) =~= tokens@);
            let ts = self.temp_records@;
            assert(temp_ok(ts0, last as int, old(self).texts@.len() as int, old(self).values@.len() as int, old(self).groups@.len() as int));
            if ts0[last as int].children_records@.len() > 0 {
                assert(last < ts0[last as int].children_records@[0] < ts0.len());
            }
            assert forall|t: int| 0 <= t < ts.len() implies #[trigger] temp_ok(ts, t, self.texts@.len() as int, self.values@.len() as int, self.groups@.len() as int) by {
                assert(temp_ok(ts0, t, old(self).texts@.len() as int, old(self).values@.len() as int, old(self).groups@.len() as int));
                if t != last {
                    assert(ts[t] == ts0[t]);
                }
                assert forall|k: int| 0 <= k < ts[t].children_records@.len() implies t < #[trigger] ts[t].children_records@[k] < ts.len()
                    && ts[ts[t].children_records@[k] as int].parent == Some(t as usize) by {
                    assert(ts[t].children_records == ts0[t].children_records);
                    let c = ts0[t].children_records@[k] as int;
                    assert(ts[c].parent == ts0[c].parent);
                }
            }
            assert forall|t: int| 0 < t < ts.len() implies ((#[trigger] ts[t]).parent matches Some(p) && self.depth@[t] == self.depth@[p as int] + 1) by {
                assert(ts[t].parent == ts0[t].parent);
            }
            assert forall|t: int| 0 <= t < ts.len() && (#[trigger] ts[t]).children_text is Some implies ts[t].kids is Body by {
                assert(ts[t].kids == ts0[t].kids);
                if t != last {
                    assert(ts[t] == ts0[t]);
                }
            }
            assert forall|t: int| 0 <= t < ts.len() implies ((#[trigger] ts[t]).kids matches NodeChildrenContainer::Branch(b) ==> b.valid()
                && b.def_view() == root.def_view()) by {
                assert(ts[t].kids == ts0[t].kids);
            }
            assert forall|t: int| 0 <= t < ts.len() implies (#[trigger] ts[t]).children_records == ts0[t].children_records
                && ts[t].parent == ts0[t].parent by {
                if t != last {
                    assert(ts[t] == ts0[t]);
                }
            }
            lemma_listed_same(ts0, ts);
            old(self).lemma_depths(root, old(self).cur_parent as int, old(self).last_indent as int);
            lemma_nested_frame(ts0, ts, self.depth@, self.cur_parent as int, self.last_indent as int);
            if old(self).fits(root) {
                assert forall|t: int| 0 <= t < ts.len() implies same_fit_fields(#[trigger] ts[t], ts0[t]) by {
                    if t != last {
                        assert(ts[t] == ts0[t]);
                    }
                }
                assert forall|v: int| 0 <= v < old(self).values@.len() implies #[trigger] self.values@[v].text_ind
                    == old(self).values@[v].text_ind by {
                    assert(same_text_loc(self.values@[v], old(self).values@[v]));
                }
                lemma_temps_fit_frame(
                    root.def_view(),
                    root.ind(),
                    ts0,
                    old(self).texts@,
                    old(self).values@,
                    old(self).groups@,
                    old(self).parsed@.len() as int,
                    self.nodes@,
                    self.brs@,
                    ts,
                    self.texts@,
                    self.values@,
                    self.groups@,
                    self.nodes@,
                    self.brs@,
                    ts.len() as int,
                );
                assert(ts[0] == ts0[0]);
            }
            if parsed_ok(root.def_view(), old(self).values@, text_views(old(self).texts@), old(self).parsed@) {
                let tx0 = text_views(old(self).texts@);
                let tx = text_views(self.texts@);
                assert forall|i: int| 0 <= i < tx0.len() implies #[trigger] tx[i] == tx0[i] by {}
                assert forall|v: int| 0 <= v < old(self).values@.len() implies #[trigger] self.values@[v] == old(self).values@[v] by {
                    assert(self.values@.take(val_start as int)[v] == old(self).values@.take(val_start as int)[v]);
                }
                lemma_parsed_frame(root.def_view(), old(self).values@, tx0, old(self).parsed@, self.values@, tx, self.parsed@);
            }
            if old(self).tags_ok(root) {
                old(self).lemma_tag_texts(root, old(self).cur_parent as int, old(self).last_indent as int);
                let tx0 = text_views(old(self).texts@);
                let tx = text_views(self.texts@);
                assert forall|i: int| 0 <= i < tx0.len() implies #[trigger] tx[i] == tx0[i] by {}
                assert forall|v: int| 0 <= v < old(self).values@.len() implies #[trigger] self.values@[v].text_ind
                    == old(self).values@[v].text_ind by {
                    assert(same_text_loc(self.values@[v], old(self).values@[v]));
                }
                assert forall|t: int| 0 <= t < ts0.len() implies (#[trigger] ts[t]).values == ts0[t].values && ts[t].tag == ts0[t].tag
                    && ts[t].parent == ts0[t].parent by {
                    if t != last {
                        assert(ts[t] == ts0[t]);
                    }
                }
                lemma_tags_frame(
                    root.def_view(),
                    ts0,
                    tx0,
                    old(self).values@,
                    ts,
                    tx,
                    self.values@,
                    self.nodes@,
                    tags_view(self.tags_useds@),
                    self.depth@,
                );
                lemma_tags_from_frame(ts0, tx0, old(self).values@, ts, tx, self.values@, tags_view(self.tags_useds@), self.depth@);
            }
            let d = root.def_view();
            let tx0 = text_views(old(self).texts@);
            let tx = text_views(self.texts@);
            if temps_first_fit::<F, P>(d, ts0, tx0, old(self).values@, old(self).nodes@, old(self).brs@) {
                assert forall|t: int| 1 <= t < ts0.len() implies (#[trigger] ts[t]).values == ts0[t].values
                    && self.nodes@[t] == old(self).nodes@[t] && self.brs@[t] == old(self).brs@[t] by {
                    if t != last {
                        assert(ts[t] == ts0[t]);
                    }
                }
                assert forall|t: int| 1 <= t < ts0.len() implies (#[trigger] ts0[t]).values.0 <= ts0[t].values.1 <= old(self).values@.len() by {
                    assert(temp_ok(ts0, t, old(self).texts@.len() as int, old(self).values@.len() as int, old(self).groups@.len() as int));
                }
                assert forall|v: int| 0 <= v < old(self).values@.len() implies (#[trigger] self.values@[v]).text_ind
                    == old(self).values@[v].text_ind && old(self).values@[v].text_ind < tx0.len() by {
                    assert(same_text_loc(self.values@[v], old(self).values@[v]));
                }
                assert forall|i: int| 0 <= i < tx0.len() implies #[trigger] tx[i] == tx0[i] by {}
                lemma_first_fit_frame::<F, P>(d, ts0, tx0, old(self).values@, old(self).nodes@, old(self).brs@, ts, tx, self.values@, self.nodes@, self.brs@);
            }
        }
    }
}

impl<'d, F, P> ParseState<'d, F, P> {
    /// Adds the values of a record as texts and values; returns where they start.
    fn push_values(&mut self, root: BranchContainer<'d, F>, tokens: &Vec<Token>) -> (r: (usize, Vec<usize>))
        requires
            old(self).ok(root),
        ensures
            final(self).ok(root),
            final(self).temp_records == old(self).temp_records,
            final(self).cur_parent == old(self).cur_parent,
            final(self).last_indent == old(self).last_indent,
            final(self).tags_useds == old(self).tags_useds,
            final(self).depth == old(self).depth,
            final(self).nodes == old(self).nodes,
            final(self).brs == old(self).brs,
            final(self).groups == old(self).groups,
            final(self).parsed == old(self).parsed,
            r.0 == old(self).values@.len(),
            final(self).values@.len() == r.0 + tokens@.len(),
            r.1@.len() == tokens@.len(),
            forall|i: int| 0 <= i < r.1@.len() ==> #[trigger] r.1@[i] < final(self).texts@.len(),
            forall|i: int| 0 <= i < r.1@.len() ==> #[trigger] final(self).values@[r.0 + i].parsed_ind is None,
            forall|v: int| 0 <= v < r.0 ==> #[trigger] final(self).values@[v] == old(self).values@[v],
            tokens@.len() > 0 ==> final(self).values@[r.0 as int].start_loc == tokens@[0].start_loc,
            appended(old(self).values@, old(self).texts@, final(self).values@, final(self).texts@, tokens@),
            forall|i: int| 0 <= i < r.1@.len() ==> #[trigger] r.1@[i] == final(self).values@[r.0 + i].text_ind,
    {
        let val_start = self.values.len();
        let mut val_texts: Vec<usize> = Vec::new();
        let mut i: usize = 0;
        while i < tokens.len()
            invariant
                old(self).ok(root),
                self.temp_records == old(self).temp_records,
                self.groups == old(self).groups,
                self.parsed == old(self).parsed,
                self.cur_parent == old(self).cur_parent,
                self.last_indent == old(self).last_indent,
                self.tags_useds == old(self).tags_useds,
                self.depth == old(self).depth,
                self.nodes == old(self).nodes,
                self.brs == old(self).brs,
                self.texts@.len() >= old(self).texts@.len(),
                val_start == old(self).values@.len(),
                self.values@.len() == val_start + i,
                val_texts@.len() == i,
                forall|j: int| 0 <= j < val_texts@.len() ==> #[trigger] val_texts@[j] < self.texts@.len(),
                forall|j: int| 0 <= j < i ==> #[trigger] self.values@[val_start + j].parsed_ind is None,
                forall|v: int| 0 <= v < val_start ==> #[trigger] self.values@[v] == old(self).values@[v],
                i > 0 ==> self.values@[val_start as int].start_loc == tokens@[0].start_loc,
                items_ok(self.values@, self.groups@, self.texts@.len() as int, self.parsed@.len() as int),
                i <= tokens@.len(),
                appended(old(self).values@, old(self).texts@, self.values@, self.texts@, tokens@.take(i as int)),
                forall|j: int| 0 <= j < i ==> #[trigger] val_texts@[j] == self.values@[val_start + j].text_ind,
            decreases tokens@.len() - i,
        {
            let t = tokens[i].clone();
            let text_ind = self.texts.len();
            let ghost texts0 = self.texts@;
            self.texts.push(t.extracted);
            let ghost before = self.values@;
            self.values.push(Value { start_loc: t.start_loc, end_loc: t.end_loc, text_ind, parsed_ind: None });
            val_texts.push(text_ind);
            proof {
                let tk = tokens@.take(i + 1);
                assert(tk[i as int] == tokens@[i as int]);
                assert forall|j: int| 0 <= j < i + 1 implies value_of(#[trigger] self.values@[old(self).values@.len() + j], self.texts@, tk[j]) by {
                    if j < i {
                        assert(tk[j] == tokens@.take(i as int)[j]);
                        assert(self.values@[old(self).values@.len() + j] == before[old(self).values@.len() + j]);
                        assert(self.texts@[before[old(self).values@.len() + j].text_ind as int] == texts0[before[old(self).values@.len() + j].text_ind as int]);
                    }
                }
                assert forall|k: int| 0 <= k < old(self).texts@.len() implies #[trigger] self.texts@[k] == old(self).texts@[k] by {
                    assert(self.texts@[k] == texts0[k]);
                }
                assert forall|v: int| 0 <= v < old(self).values@.len() implies same_text_loc(#[trigger] self.values@[v], old(self).values@[v]) by {
                    assert(self.values@[v] == before[v]);
                }
                assert forall|j: int| 0 <= j < i + 1 implies #[trigger] val_texts@[j] == self.values@[val_start + j].text_ind by {
                    if j < i {
                        assert(self.values@[val_start + j] == before[val_start + j]);
                    }
                }
                assert forall|v: int| 0 <= v < self.values@.len() implies (#[trigger] self.values@[v]).text_ind < self.texts@.len()
                    && (self.values@[v].parsed_ind matches Some(k) ==> k < self.parsed@.len()) by {
                    if v < before.len() {
                        assert(self.values@[v] == before[v]);
                    }
                }
                assert forall|j: int| 0 <= j < i + 1 implies #[trigger] self.values@[val_start + j].parsed_ind is None by {
                    if j < i {
                        assert(self.values@[val_start + j] == before[val_start + j]);
                    }
                }
                assert forall|v: int| 0 <= v < val_start implies #[trigger] self.values@[v] == old(self).values@[v] by {
                    assert(self.values@[v] == before[v]);
                }
                if i > 0 {
                    assert(self.values@[val_start as int] == before[val_start as int]);
                }
            }
            i = i + 1;
        }
        proof {
            let ts = self.temp_records@;
            assert forall|t: int| 0 <= t < ts.len() implies #[trigger] temp_ok(ts, t, self.texts@.len() as int, self.values@.len() as int, self.groups@.len() as int) by {
                assert(temp_ok(ts, t, old(self).texts@.len() as int, old(self).values@.len() as int, old(self).groups@.len() as int));
            }
            assert(tokens@.take(i as int) =~= tokens@);
        }
        (val_start, val_texts)
    }
}

impl<'d, F, P> ParseState<'d, F, P> {
    /// Makes `cur_parent` the parent for a record at `indent`, one deeper than
    /// the last, or as deep, or shallower; an error for a record one deeper
    /// than the last where there is no last record at that depth.
    fn seek_parent(&mut self, root: BranchContainer<'d, F>, indent: usize) -> (ok: bool)
        requires
            old(self).ok(root),
            indent <= old(self).last_indent + 1,
            old(self).last_indent < usize::MAX,
        ensures
            final(self).temp_records == old(self).temp_records,
            final(self).texts == old(self).texts,
            final(self).values == old(self).values,
            final(self).groups == old(self).groups,
            final(self).parsed == old(self).parsed,
            final(self).tags_useds == old(self).tags_useds,
            final(self).depth == old(self).depth,
            final(self).nodes == old(self).nodes,
            final(self).brs == old(self).brs,
            ok ==> final(self).cur_parent < final(self).temp_records@.len()
                && final(self).depth@[final(self).cur_parent as int] == indent
                && final(self).last_indent == old(self).last_indent,
            ok ==> final(self).cur_parent as int == last_at(old(self).depth@, old(self).temp_records@.len() as int, indent as int),
            ok <==> !(indent == old(self).last_indent + 1 && old(self).temp_records@.len() == 1),
            !ok ==> final(self).cur_parent == old(self).cur_parent,
    {
        let ghost ts = self.temp_records@;
        let ghost d = self.depth@;
        let ghost cp0 = self.cur_parent as int;
        let ghost li = self.last_indent as int;
        proof {
            self.lemma_depths(root, self.cur_parent as int, self.last_indent as int);
            lemma_nested_cur(ts, d, cp0, li);
        }
        if indent == self.last_indent + 1 {
            let cp = self.cur_parent;
            let nc = self.temp_records[cp].children_records.len();
            if nc == 0 {
                proof {
                    if ts.len() > 1 {
                        lemma_nested_last_child(ts, d, cp0, li);
                    }
                }
                return false;
            }
            let c = self.temp_records[cp].children_records[nc - 1];
            proof {
                assert(ts.len() > 1) by {
                    assert(temp_ok(ts, cp as int, self.texts@.len() as int, self.values@.len() as int, self.groups@.len() as int));
                    assert(cp < ts[cp as int].children_records@[nc - 1] < ts.len());
                }
                assert(temp_ok(ts, cp as int, self.texts@.len() as int, self.values@.len() as int, self.groups@.len() as int));
                assert(cp < ts[cp as int].children_records@[nc - 1] < ts.len());
                assert(ts[c as int].parent == Some(cp));
                lemma_nested_last_child(ts, d, cp0, li);
            }
            self.cur_parent = c;
            return true;
        } else if indent < self.last_indent {
            proof {
                assert(anc_at(ts, d, cp0, li) == cp0);
            }
            let mut k = indent;
            while k < self.last_indent
                invariant
                    self.temp_records@ == ts,
                    self.depth@ == d,
                    old(self).ok(root),
                    ts == old(self).temp_records@,
                    d == old(self).depth@,
                    indent <= k <= self.last_indent,
                    self.last_indent == old(self).last_indent,
                    self.texts == old(self).texts,
                    self.values == old(self).values,
                    self.groups == old(self).groups,
                    self.parsed == old(self).parsed,
                    self.tags_useds == old(self).tags_useds,
                    self.depth == old(self).depth,
                    self.nodes == old(self).nodes,
                    self.brs == old(self).brs,
                    self.temp_records == old(self).temp_records,
                    self.cur_parent < ts.len(),
                    d[self.cur_parent as int] == self.last_indent - (k - indent),
                    depths_ok(ts, d),
                    cp0 == old(self).cur_parent,
                    li == old(self).last_indent,
                    d[cp0] == li,
                    self.cur_parent as int == anc_at(ts, d, cp0, li - (k - indent)),
                decreases self.last_indent - k,
            {
                let cp = self.cur_parent;
                proof {
                    lemma_anc_parent(ts, d, cp0, li - (k - indent));
                    lemma_anc_depth(ts, d, cp0, li - (k - indent) - 1);
                    assert(d[cp as int] > 0);
                    assert(cp != 0);
                    assert(ts[cp as int].parent matches Some(p) && d[cp as int] == d[p as int] + 1);
                    assert(temp_ok(ts, cp as int, self.texts@.len() as int, self.values@.len() as int, self.groups@.len() as int));
                }
                match self.temp_records[cp].parent {
                    Some(p) => {
                        self.cur_parent = p;
                    },
                    None => {
                        return false;
                    },
                }
                k = k + 1;
            }
            proof {
                lemma_nested_up(ts, d, cp0, li, li, indent as int);
            }
            return true;
        }
        true
    }
}

impl<'d, F, P> ParseState<'d, F, P> {
    /// `st1` is the state `o` with the values `tokens` taken in: texts and
    /// values for them, from `vs` on, their texts at `vt`; nothing else changes.
    pub(crate) open spec fn pushed_values(o: Self, st1: Self, root: BranchContainer<'d, F>, tokens: Seq<Token>, vs: usize, vt: Seq<usize>) -> bool {
        &&& st1.ok(root)
        &&& st1.temp_records == o.temp_records
        &&& st1.cur_parent == o.cur_parent
        &&& st1.last_indent == o.last_indent
        &&& st1.tags_useds == o.tags_useds
        &&& st1.depth == o.depth
        &&& st1.nodes == o.nodes
        &&& st1.brs == o.brs
        &&& st1.groups == o.groups
        &&& st1.parsed == o.parsed
        &&& vs == o.values@.len()
        &&& st1.values@.len() == vs + tokens.len()
        &&& vt.len() == tokens.len()
        &&& forall|i: int| 0 <= i < vt.len() ==> #[trigger] vt[i] < st1.texts@.len()
        &&& forall|i: int| 0 <= i < vt.len() ==> #[trigger] st1.values@[vs + i].parsed_ind is None
        &&& forall|v: int| 0 <= v < vs ==> #[trigger] st1.values@[v] == o.values@[v]
        &&& appended(o.values@, o.texts@, st1.values@, st1.texts@, tokens)
        &&& forall|i: int| 0 <= i < vt.len() ==> #[trigger] vt[i] == st1.values@[vs + i].text_ind
    }

    /// `f` is `st1` with the parent for a record at `indent` found (the last
    /// record at depth `indent`), the tags in use cut or grown to that depth,
    /// and `b` the branch the record's node is looked up in: the root branch at
    /// the top, else the branch the parent's node names.
    pub(crate) open spec fn placed(st1: Self, f: Self, root: BranchContainer<'d, F>, indent: usize, b: BranchContainer<'d, F>) -> bool {
        let cp = f.cur_parent as int;
        &&& f.temp_records == st1.temp_records
        &&& f.texts == st1.texts
        &&& f.values == st1.values
        &&& f.groups == st1.groups
        &&& f.parsed == st1.parsed
        &&& f.depth == st1.depth
        &&& f.nodes == st1.nodes
        &&& f.brs == st1.brs
        &&& f.last_indent == indent
        &&& 0 <= cp < f.temp_records@.len()
        &&& f.depth@[cp] == indent
        &&& cp == last_at(st1.depth@, st1.temp_records@.len() as int, indent as int)
        &&& f.tags_useds@.len() == indent + 1
        &&& forall|i: int| 0 <= i < indent + 1 && i < st1.tags_useds@.len() ==> #[trigger] f.tags_useds@[i] == st1.tags_useds@[i]
        &&& forall|i: int| st1.tags_useds@.len() <= i < indent + 1 ==> (#[trigger] f.tags_useds@[i])@.len() == 0
        &&& b.valid()
        &&& b.def_view() == root.def_view()
        &&& indent == 0 ==> b == root && cp == 0
        &&& indent != 0 ==> cp != 0 && f.temp_records@[cp].kids == NodeChildrenContainer::Branch(b)
        &&& f.temp_records@[cp].children_text is None
    }

    /// Takes in the values of a record at `indent`, finds the record it goes
    /// under and the branch its node is looked up in. The errors: a record one
    /// level deeper than the last where there is no last record, children where
    /// the parent's node takes none or names a missing branch.
    fn place_record(&mut self, root: BranchContainer<'d, F>, indent: usize, tokens: &Vec<Token>, path: Option<&Path>) -> (r: Result<
        (usize, Vec<usize>, BranchContainer<'d, F>, Loc, Ghost<Self>),
        ParseError,
    >)
        where
            F: Fn(&str) -> Option<P>,
        requires
            old(self).ok(root),
            old(self).fits(root),
            root.valid(),
            tokens@.len() >= 1,
            indent <= old(self).last_indent + 1,
            old(self).last_indent < usize::MAX,
            indent < usize::MAX,
        ensures
            r matches Ok((vs, vt, b, l, g)) ==> l == tokens@[0].start_loc,
            r matches Err(e) ==> e.loc == tokens@[0].start_loc && record_err_kind(e.error_type),
            r is Err ==> indent != 0,
            r matches Err(e) ==> if indent > 0 && last_at(old(self).depth@, old(self).temp_records@.len() as int, indent as int) < 1 {
                e.error_type is Unknown
            } else {
                fail_cause::<F, P>(
                root.def_view(),
                root.ind(),
                last_at(old(self).depth@, old(self).temp_records@.len() as int, indent as int),
                old(self).nodes@[last_at(old(self).depth@, old(self).temp_records@.len() as int, indent as int)],
                    token_texts(tokens@),
                    tag_under(
                        old(self).temp_records@,
                        text_views(old(self).texts@),
                        old(self).values@,
                        token_texts(tokens@)[0],
                        last_at(old(self).depth@, old(self).temp_records@.len() as int, indent as int),
                    ),
                    e.error_type,
                )
            },
            r is Err ==> final(self).temp_records == old(self).temp_records,
            r matches Ok((vs, vt, b, _l, g)) ==> Self::pushed_values(*old(self), g@, root, tokens@, vs, vt@)
                && Self::placed(g@, *final(self), root, indent, b),
            r matches Err(e) ==> (e.path is Some) == (path is Some),
    {
        let (val_start, val_texts) = self.push_values(root, tokens);
        let ghost st1 = *self;
        let first_loc = self.values[val_start].start_loc;
        let ghost cpa = last_at(old(self).depth@, old(self).temp_records@.len() as int, indent as int);
        if !self.seek_parent(root, indent) {
            proof {
                old(self).lemma_depths(root, old(self).cur_parent as int, old(self).last_indent as int);
                assert(last_at(old(self).depth@, 0, indent as int) == -1);
                assert(cpa < 1);
            }
            return Err(ParseError { path: opt_path_to_buf(path), loc: first_loc, error_type: ParseErrorType::Unknown });
        }
        resize_tags(&mut self.tags_useds, indent + 1);
        let ghost ts = self.temp_records@;
        let cp = self.cur_parent;
        proof {
            assert(st1.ok(root));
            assert(ts == st1.temp_records@);
            assert(st1.temp_records@[cp as int].kids matches NodeChildrenContainer::Branch(b) ==> b.valid() && b.def_view() == root.def_view());
            assert(temp_ok(ts, cp as int, self.texts@.len() as int, self.values@.len() as int, self.groups@.len() as int));
            assert(st1.temp_records@[cp as int].children_text is Some ==> st1.temp_records@[cp as int].kids is Body);
        }
        let cur_branch = if indent == 0 {
            root
        } else {
            proof {
                assert(ts[cp as int].kids matches NodeChildrenContainer::Branch(b) ==> b.valid() && b.def_view() == root.def_view());
            }
            proof {
                assert(cp as int == cpa);
                assert(cp != 0);
                assert(temp_fits(root.def_view(), root.ind(), old(self).temp_records@, text_views(old(self).texts@), old(self).values@, old(self).groups@, old(self).nodes@, old(self).brs@, cp as int));
                assert(kids_of(root.def_view(), old(self).nodes@[cp as int], ts[cp as int].kids));
            }
            match self.temp_records[cp].kids {
                NodeChildrenContainer::BranchMissing(name) => {
                    return Err(
                        ParseError {
                            path: opt_path_to_buf(path),
                            loc: first_loc,
                            error_type: ParseErrorType::DefChildrenBranchNotFound(str_to_string(name)),
                        },
                    );
                },
                NodeChildrenContainer::Branch(b) => b,
                _ => {
                    return Err(
                        ParseError { path: opt_path_to_buf(path), loc: first_loc, error_type: ParseErrorType::DefNoChildren },
                    );
                },
            }
        };
        proof {
            if indent == 0 {
                if cp != 0 {
                    assert(ts[cp as int].parent matches Some(p) && self.depth@[cp as int] == self.depth@[p as int] + 1);
                    let p = ts[cp as int].parent->0;
                    assert(temp_ok(ts, cp as int, self.texts@.len() as int, self.values@.len() as int, self.groups@.len() as int));
                    assert(self.depth@[p as int] >= 0);
                }
                assert(cp == 0);
            } else {
                assert(ts[cp as int].kids is Branch);
                assert(ts[cp as int].children_text is None);
            }
            assert(ts[cp as int].children_text is None);
        }
        self.last_indent = indent;
        proof {
            if indent != 0 {
                assert(cp != 0) by {
                    if cp == 0 {
                        assert(self.depth@[0] == 0);
                    }
                }
            }
        }
        Ok((val_start, val_texts, cur_branch, first_loc, Ghost(st1)))
    }
}

impl<'d, F, P> ParseState<'d, F, P> {
    /// Adds a record at `indent` with the values `tokens`: finds its parent and
    /// the branch its node is looked up in, matches it against the nodes
    /// there, and stores what it took. The errors are those of the language:
    /// children where the parent's node takes none or names a missing branch,
    /// a tag used twice where it may stand once, no node that fits.
    #[verifier::rlimit(100)]
    #[verifier::spinoff_prover]
    pub(crate) fn add_record(&mut self, root: BranchContainer<'d, F>, indent: usize, tokens: &Vec<Token>, path: Option<&Path>) -> (r: Result<(), ParseError>)
        where
            F: Fn(&str) -> Option<P>,
        requires
            old(self).ok(root),
            old(self).fits(root),
            old(self).tags_ok(root),
            parsed_ok(root.def_view(), old(self).values@, text_views(old(self).texts@), old(self).parsed@),
            temps_first_fit::<F, P>(root.def_view(), old(self).temp_records@, text_views(old(self).texts@), old(self).values@, old(self).nodes@, old(self).brs@),
            root.valid(),
            parsers_total::<F, P>(root.def_view()),
            tokens@.len() >= 1,
            indent <= old(self).last_indent + 1,
            old(self).last_indent < usize::MAX,
            indent < usize::MAX,
        ensures
            r is Ok ==> final(self).ok(root) && final(self).last_indent == indent,
            r is Ok ==> final(self).fits(root),
            r is Ok ==> final(self).tags_ok(root),
            r is Ok ==> parsed_ok(root.def_view(), final(self).values@, text_views(final(self).texts@), final(self).parsed@),
            r is Ok ==> final(self).temp_records@.len() == old(self).temp_records@.len() + 1,
            r is Ok ==> final(self).temp_records@.last().values.0 == old(self).values@.len(),
            r is Ok ==> final(self).temp_records@.last().values.1 == old(self).values@.len() + tokens@.len(),
            r is Ok ==> final(self).depth@ == old(self).depth@.push(indent + 1),
            r is Ok ==> forall|t: int| 0 <= t < old(self).temp_records@.len() ==> kept_temp(#[trigger] final(self).temp_records@[t], old(self).temp_records@[t]),
            r is Ok ==> appended(old(self).values@, old(self).texts@, final(self).values@, final(self).texts@, tokens@),
            r is Ok ==> temps_first_fit::<F, P>(root.def_view(), final(self).temp_records@, text_views(final(self).texts@), final(self).values@, final(self).nodes@, final(self).brs@),
            r matches Err(e) ==> (e.path is Some) == (path is Some),
            r matches Err(e) ==> e.loc == tokens@[0].start_loc && record_err_kind(e.error_type),
            r matches Err(e) ==> if indent > 0 && last_at(old(self).depth@, old(self).temp_records@.len() as int, indent as int) < 1 {
                e.error_type is Unknown
            } else {
                fail_cause::<F, P>(
                root.def_view(),
                root.ind(),
                last_at(old(self).depth@, old(self).temp_records@.len() as int, indent as int),
                old(self).nodes@[last_at(old(self).depth@, old(self).temp_records@.len() as int, indent as int)],
                    token_texts(tokens@),
                    tag_under(
                        old(self).temp_records@,
                        text_views(old(self).texts@),
                        old(self).values@,
                        token_texts(tokens@)[0],
                        last_at(old(self).depth@, old(self).temp_records@.len() as int, indent as int),
                    ),
                    e.error_type,
                )
            },
            r is Err ==> final(self).temp_records == old(self).temp_records,
    {
        let (val_start, val_texts, cur_branch, first_loc, g1) = match self.place_record(root, indent, tokens, path) {
            Ok(x) => x,
            Err(e) => {
                return Err(e);
            },
        };
        let ghost st1 = g1@;
        let ghost ts = self.temp_records@;
        let cp = self.cur_parent;
        let n = val_texts.len();
        let mut memo: Memo<P> = Vec::new();
        let mut k: usize = 0;
        while k < n
            invariant
                memo@.len() == k,
                k <= n,
                forall|i: int| 0 <= i < k ==> (#[trigger] memo@[i])@.len() == 0,
            decreases n - k,
        {
            memo.push(Vec::new());
            k = k + 1;
        }
        proof {
            assert forall|i: int| 0 <= i < memo@.len() implies #[trigger] row_ok(root.def_view(), memo@[i]@, self.texts@[val_texts@[i] as int]@) by {}
        }
        let ti = self.tags_useds.len() - 1;
        let ghost d = root.def_view();
        let ghost bi = cur_branch.ind();
        let ghost first_v = self.texts@[val_texts@[0] as int]@;
        let ghost tags_r = self.tags_useds@;
        let ghost mut pre: Seq<String> = self.tags_useds@[ti as int]@;
        let ghost vv = val_views(self.texts@, val_texts@);
        let ghost tx_try = self.texts@;
        let ghost cpa = last_at(old(self).depth@, old(self).temp_records@.len() as int, indent as int);
        let ghost kqa = old(self).nodes@[cpa];
        let ghost seen = tag_under(old(self).temp_records@, text_views(old(self).texts@), old(self).values@, vv[0], cpa);
        proof {
            assert(vv[0] == first_v);
            assert(bi == cur_branch.ind());
            assert(indent == 0 ==> bi == root.ind());
            assert(cpa == cp as int);
            if cp != 0 {
                assert(temp_fits(d, root.ind(), old(self).temp_records@, text_views(old(self).texts@), old(self).values@, old(self).groups@, old(self).nodes@, old(self).brs@, cp as int));
                assert(kids_of(d, kqa, ts[cp as int].kids));
            }
            assert(looked_up_in(d, root.ind(), cpa, kqa, bi));
            assert(vv =~= token_texts(tokens@)) by {
                assert forall|i: int| 0 <= i < vv.len() implies #[trigger] vv[i] == token_texts(tokens@)[i] by {
                    assert(appended(old(self).values@, old(self).texts@, st1.values@, st1.texts@, tokens@));
                    assert(value_of(st1.values@[old(self).values@.len() + i], st1.texts@, tokens@[i]));
                    assert(val_texts@[i] == st1.values@[val_start + i].text_ind);
                }
            }
        }
        let found = {
            let first = self.texts[val_texts[0]].as_str();
            let mut it = cur_branch.get_tag_nodes(first);
            let ghost rem_t = it.remaining();
            match try_nodes(&mut it, first, &val_texts, &self.texts, &mut memo, &mut self.tags_useds[ti]) {
                Err(e) => {
                    proof {
                        assert(fail_cause::<F, P>(d, root.ind(), cpa, kqa, vv, seen, e)) by {
                            if e is Unknown {
                                let k = rem_t.len() - it.remaining().len() - 1;
                                lemma_cand_at(d, bi, vv[0], true, k);
                                assert(candidates(d, bi, vv[0])[k] == rem_t[k]);
                            }
                            if e is TagOnce {
                                let k = rem_t.len() - it.remaining().len() - 1;
                                let kk = choose|kk: int|
                                    0 <= kk < rem_t.len() && #[trigger] rem_t[kk] < d.nodes().len() && d.nodes()[rem_t[kk] as int].has_tag
                                        && d.nodes()[rem_t[kk] as int].tag_once && it.remaining() == rem_t.skip(kk + 1);
                                assert(kk == k);
                                lemma_first_fit_tagged::<F, P>(d, bi, vv, k);
                                assert(first_fit::<F, P>(d, bi, rem_t[k] as int, vv));
                                lemma_seen_tag(*old(self), root, indent as int, pre, vv[0]);
                            }
                        }
                    }
                    return Err(ParseError { path: opt_path_to_buf(path), loc: first_loc, error_type: e });
                },
                Ok(Some(x)) => {
                    proof {
                        let c = rem_t.len() - it.remaining().len() - 1;
                        let kk = choose|kk: int| 0 <= kk < rem_t.len() && #[trigger] rem_t[kk] == x.0.ind() && it.remaining() == rem_t.skip(kk + 1);
                        assert(kk == c);
                        lemma_first_fit_tagged::<F, P>(d, bi, vv, c);
                        assert(first_fit::<F, P>(d, bi, x.0.ind(), vv));
                        lemma_cands_tagged(d, bi, first_v, x.0.ind() as usize);
                        lemma_strs_grow(pre, self.tags_useds@[ti as int]@);
                    }
                    Some(x)
                },
                Ok(None) => {
                    let mut it2 = cur_branch.get_tagless_nodes();
                    let ghost rem_u = it2.remaining();
                    let ghost tu1 = self.tags_useds@[ti as int]@;
                    proof {
                        lemma_strs_grow(pre, tu1);
                    }
                    match try_nodes(&mut it2, first, &val_texts, &self.texts, &mut memo, &mut self.tags_useds[ti]) {
                        Err(e) => {
                            proof {
                                assert(fail_cause::<F, P>(d, root.ind(), cpa, kqa, vv, seen, e)) by {
                                    if e is Unknown {
                                        let k = rem_u.len() - it2.remaining().len() - 1;
                                        lemma_cand_at(d, bi, vv[0], false, k);
                                        let a = trav(d.branches(), Some(vv[0]), Seq::empty(), seq![opt_str_view(d.branches()[bi].branch_name)]);
                                        assert(candidates(d, bi, vv[0])[a.len() + k] == rem_u[k]);
                                    }
                                    if e is TagOnce {
                                        let k = rem_u.len() - it2.remaining().len() - 1;
                                        let kk = choose|kk: int|
                                            0 <= kk < rem_u.len() && #[trigger] rem_u[kk] < d.nodes().len() && d.nodes()[rem_u[kk] as int].has_tag
                                                && d.nodes()[rem_u[kk] as int].tag_once && it2.remaining() == rem_u.skip(kk + 1);
                                        assert(kk == k);
                                        lemma_first_fit_untagged::<F, P>(d, bi, vv, k);
                                        assert(first_fit::<F, P>(d, bi, rem_u[k] as int, vv));
                                        assert(strs_view(tu1) == strs_view(pre));
                                        lemma_seen_tag(*old(self), root, indent as int, pre, vv[0]);
                                    }
                                }
                            }
                            return Err(ParseError { path: opt_path_to_buf(path), loc: first_loc, error_type: e });
                        },
                        Ok(x) => {
                            proof {
                                if x is Some {
                                    let c = rem_u.len() - it2.remaining().len() - 1;
                                    let kk = choose|kk: int| 0 <= kk < rem_u.len() && #[trigger] rem_u[kk] == (x->0).0.ind() && it2.remaining() == rem_u.skip(kk + 1);
                                    assert(kk == c);
                                    lemma_first_fit_untagged::<F, P>(d, bi, vv, c);
                                    assert(first_fit::<F, P>(d, bi, (x->0).0.ind(), vv));
                                    lemma_cands_untagged(d, bi, first_v, (x->0).0.ind() as usize);
                                } else {
                                    lemma_all_passed::<F, P>(d, bi, vv);
                                }
                                lemma_strs_grow(tu1, self.tags_useds@[ti as int]@);
                                pre = tu1;
                            }
                            x
                        },
                    }
                },
            }
        };
        proof {
            assert(self.tags_useds@.len() == tags_r.len());
            assert forall|x: int| 0 <= x < tags_r.len() && x != ti implies #[trigger] self.tags_useds@[x] == tags_r[x] by {}
        }
        let (node, gs) = match found {
            Some(x) => x,
            None => {
                return Err(ParseError { path: opt_path_to_buf(path), loc: first_loc, error_type: ParseErrorType::NoDefForRecord });
            },
        };
        let ghost vals0 = self.values@;
        let ghost parsed0 = self.parsed@;
        let ghost memo0 = memo@;
        proof {
            assert forall|v: int| val_start <= v < self.values@.len() implies (#[trigger] self.values@[v]).parsed_ind is None by {
                assert(self.values@[val_start + (v - val_start)].parsed_ind is None);
            }
            assert(parsed_ok(d, vals0, text_views(self.texts@), parsed0)) by {
                let tx0 = text_views(old(self).texts@);
                let tx = text_views(self.texts@);
                assert forall|i: int| 0 <= i < tx0.len() implies #[trigger] tx[i] == tx0[i] by {
                    assert(st1.texts@[i] == old(self).texts@[i]);
                }
                assert forall|v: int| 0 <= v < old(self).values@.len() implies #[trigger] vals0[v] == old(self).values@[v] by {}
                lemma_parsed_frame(d, old(self).values@, tx0, old(self).parsed@, vals0, tx, parsed0);
            }
        }
        if !store_parsed(node, &gs, &mut memo, val_start, &mut self.values, &mut self.parsed) {
            proof {
                let nd = d.nodes()[node.ind()];
                if nd.param_groups@.len() == 1 {
                    lemma_single_storable::<F, P>(d, nd.param_groups@, gs@, memo0, vals_off(nd.has_tag), n as int);
                    assert(false);
                }
                if plain_groups(nd.param_groups@) {
                    lemma_multi_storable::<F, P>(d, nd.param_groups@, gs@, memo0, vals_off(nd.has_tag), n as int);
                    assert(false);
                }
                assert(fail_cause::<F, P>(d, root.ind(), cpa, kqa, vv, seen, ParseErrorType::Unknown)) by {
                    let cands = candidates(d, bi, vv[0]);
                    assert(cands.contains(node.ind() as usize));
                    let j = choose|j: int| 0 <= j < cands.len() && cands[j] == node.ind() as usize;
                    assert(d.nodes()[cands[j] as int].param_groups@.len() != 1);
                }
            }
            return Err(ParseError { path: opt_path_to_buf(path), loc: first_loc, error_type: ParseErrorType::Unknown });
        }
        proof {
            assert(parsed_ok(d, self.values@, text_views(self.texts@), self.parsed@)) by {
                assert forall|i: int| 0 <= i < memo0.len() implies #[trigger] val_texts@[i] == vals0[val_start + i].text_ind
                    && val_texts@[i] < self.texts@.len() by {}
                lemma_parsed_store(d, vals0, self.texts@, parsed0, self.values@, self.parsed@, memo0, val_texts@, val_start as int);
            }
        }
        proof {
            assert forall|v: int| 0 <= v < self.values@.len() implies (#[trigger] self.values@[v]).text_ind < self.texts@.len()
                && (self.values@[v].parsed_ind matches Some(k) ==> k < self.parsed@.len()) by {
                assert(self.values@[v].text_ind == vals0[v].text_ind);
            }
        }
        let ghost st2 = *self;
        let (pg_start, pg_end) = self.push_groups(&gs, val_start, n);
        let ghost tx1 = self.texts@;
        let bn = match cur_branch.name() {
            Some(x) => str_to_string(x),
            None => String::new(),
        };
        let bni = self.texts.len();
        self.texts.push(bn);
        let nl = match node.label() {
            Some(l) => {
                let t = self.texts.len();
                self.texts.push(str_to_string(l));
                Some(t)
            },
            None => None,
        };
        let kids = node.children();
        let vlen = self.values.len();
        proof {
            assert(vlen == val_start + n);
            match node.def_view().nodes()[node.ind()].children {
                NodeChildren::Branch(name) => {
                    lemma_find_branch_from(node.def_view().branches(), name@, 0);
                },
                _ => {},
            }
        }
        let tr = TempRecord {
            parent: Some(cp),
            children_records: Vec::new(),
            children_text: None,
            param_groups: (pg_start, pg_end),
            values: (val_start, val_start + n),
            node_label: nl,
            branch_name: Some(bni),
            tag: node.has_tag(),
            kids,
        };
        proof {
            let tx = text_views(self.texts@);
            assert forall|k: int| 0 <= k < tx1.len() implies #[trigger] self.texts@[k] == tx1[k] by {
                if nl is Some {
                    assert(self.texts@[k] == self.texts@.drop_last()[k]);
                }
            }
            let ov = old(self).values@;
            let ot = old(self).texts@;
            assert(appended(ov, ot, st1.values@, st1.texts@, tokens@));
            assert forall|k: int| 0 <= k < ot.len() implies #[trigger] self.texts@[k] == ot[k] by {
                assert(st1.texts@[k] == ot[k]);
                assert(st2.texts@[k] == st1.texts@[k]);
                assert(tx1[k] == st2.texts@[k]);
            }
            assert forall|v: int| 0 <= v < ov.len() implies same_text_loc(#[trigger] self.values@[v], ov[v]) by {
                assert(self.values@[v] == st2.values@[v]);
                assert(same_text_loc(st2.values@[v], st1.values@[v]));
                assert(same_text_loc(st1.values@[v], ov[v]));
            }
            assert forall|i: int| 0 <= i < tokens@.len() implies value_of(#[trigger] self.values@[ov.len() + i], self.texts@, tokens@[i]) by {
                let v = ov.len() + i;
                assert(value_of(st1.values@[v], st1.texts@, tokens@[i]));
                assert(self.values@[v] == st2.values@[v]);
                assert(same_text_loc(st2.values@[v], st1.values@[v]));
                let ti = st1.values@[v].text_ind as int;
                assert(st2.texts@[ti] == st1.texts@[ti]);
                assert(tx1[ti] == st2.texts@[ti]);
                assert(self.texts@[ti] == tx1[ti]);
            }
            // the state before the record is collected
            lemma_ok_at_grow(st1, *self, root, st1.cur_parent as int, st1.last_indent as int);
            assert(self.fits(root)) by {
                assert forall|v: int| 0 <= v < ov.len() implies #[trigger] self.values@[v].text_ind == ov[v].text_ind by {
                    assert(same_text_loc(self.values@[v], ov[v]));
                }
                assert forall|t: int| 0 <= t < ts.len() implies same_fit_fields(#[trigger] ts[t], old(self).temp_records@[t]) by {}
                assert forall|g: int| 0 <= g < old(self).groups@.len() implies #[trigger] self.groups@[g] == old(self).groups@[g] by {
                    assert(self.groups@[g] == st2.groups@[g]);
                }
                lemma_temps_fit_frame(
                    d,
                    root.ind(),
                    old(self).temp_records@,
                    old(self).texts@,
                    old(self).values@,
                    old(self).groups@,
                    old(self).parsed@.len() as int,
                    old(self).nodes@,
                    old(self).brs@,
                    ts,
                    self.texts@,
                    self.values@,
                    self.groups@,
                    self.nodes@,
                    self.brs@,
                    ts.len() as int,
                );
            }
            // the record fits its node
            let k = node.ind();
            let vs = val_start as int;
            assert(self.values@[vs].text_ind == val_texts@[0]) by {
                assert(self.values@[vs] == st2.values@[vs]);
                assert(st2.values@[vs].text_ind == vals0[vs].text_ind);
            }
            assert(tx[val_texts@[0] as int] == first_v) by {
                assert(self.texts@[val_texts@[0] as int] == tx1[val_texts@[0] as int]);
                assert(tx1[val_texts@[0] as int] == st2.texts@[val_texts@[0] as int]);
            }
            assert(temp_fits(d, root.ind(), ts.push(tr), tx, self.values@, self.groups@, self.nodes@.push(k), self.brs@.push(bi), ts.len() as int)) by {
                assert forall|g: int| pg_start <= g < pg_end implies stored_as(#[trigger] self.groups@[g], tx, gs@[g - pg_start], vs) by {
                    assert(stored_as(self.groups@[g], text_views(tx1), gs@[g - pg_start], vs));
                    if let Some(i) = self.groups@[g].name {
                        assert(self.texts@[i as int] == tx1[i as int]);
                    }
                }
                assert(tx[bni as int] == branch_text(d, bi));
                lemma_fits_new(
                    d,
                    tx,
                    self.values@,
                    self.groups@,
                    vs,
                    vs + n,
                    pg_start as int,
                    pg_end as int,
                    tr.tag,
                    nl,
                    Some(bni),
                    bi,
                    k,
                    gs@,
                );
                assert(kids_of(d, k, kids));
                if cp != 0 {
                    assert(temp_fits(d, root.ind(), ts, tx, self.values@, self.groups@, self.nodes@, self.brs@, cp as int));
                }
                assert(looked_up_in(d, root.ind(), cp as int, self.nodes@[cp as int], bi));
            }
        }
        let ghost stp = *self;
        proof {
            assert(found matches Some(x) && first_fit::<F, P>(d, bi, x.0.ind(), vv));
        }
        self.push_temp(root, tr, Ghost(st1.cur_parent as int), Ghost(st1.last_indent as int), Ghost(node.ind()), Ghost(bi));
        proof {
            assert forall|t: int| 0 <= t < old(self).temp_records@.len() implies kept_temp(#[trigger] self.temp_records@[t], old(self).temp_records@[t]) by {
                assert(kept_temp(self.temp_records@[t], stp.temp_records@[t]));
            }
        }
        proof {
            assert({
                let ts = self.temp_records@;
                let tags = tags_view(self.tags_useds@);
                &&& self.tags_useds@.len() == self.last_indent + 1
                &&& forall|x: int|
                    0 <= x < tags.len() ==> #[trigger] tags_noted(
                        ts,
                        text_views(self.texts@),
                        self.values@,
                        tags[x],
                        last_at(self.depth@, ts.len() as int, x),
                    )
                &&& tags_once_kept(root.def_view(), ts, text_views(self.texts@), self.values@, self.nodes@)
            }) by {
                let ots = old(self).temp_records@;
                let n0 = ots.len() as int;
                let od = old(self).depth@;
                let li = old(self).last_indent as int;
                old(self).lemma_tag_texts(root, old(self).cur_parent as int, li);
                old(self).lemma_depths(root, old(self).cur_parent as int, li);
                lemma_nested_cur(ots, od, old(self).cur_parent as int, li);
                if indent == li + 1 && n0 > 1 {
                    lemma_nested_last_child(ots, od, old(self).cur_parent as int, li);
                }
                let otx = text_views(old(self).texts@);
                let tx = text_views(self.texts@);
                assert forall|i: int| 0 <= i < otx.len() implies #[trigger] tx[i] == otx[i] by {
                    assert(self.texts@[i] == old(self).texts@[i]);
                }
                assert forall|v: int| 0 <= v < old(self).values@.len() implies #[trigger] self.values@[v].text_ind
                    == old(self).values@[v].text_ind by {
                    assert(same_text_loc(self.values@[v], old(self).values@[v]));
                }
                assert forall|t: int| 0 <= t < n0 implies (#[trigger] self.temp_records@[t]).values == ots[t].values
                    && self.temp_records@[t].tag == ots[t].tag && self.temp_records@[t].parent == ots[t].parent by {
                    assert(kept_temp(self.temp_records@[t], ots[t]));
                }
                assert forall|t: int| 0 <= t < n0 implies #[trigger] self.nodes@[t] == old(self).nodes@[t] by {}
                let otags = tags_view(old(self).tags_useds@);
                let tags3 = tags_view(self.tags_useds@);
                assert forall|x: int, w: Seq<char>| 0 <= x <= indent && x <= li && #[trigger] otags[x].contains(w) implies #[trigger] tags3[x].contains(w) by {
                    assert(tags_r[x] == old(self).tags_useds@[x]);
                    if x != ti {
                        assert(self.tags_useds@[x] == tags_r[x]);
                    }
                }
                assert(first_text(self.temp_records@, tx, self.values@, n0) == first_v);
                lemma_tags_push(
                    d,
                    ots,
                    otx,
                    old(self).values@,
                    old(self).nodes@,
                    otags,
                    od,
                    self.temp_records@,
                    tx,
                    self.values@,
                    self.nodes@,
                    tags3,
                    strs_view(pre),
                    li,
                    indent as int,
                    cp as int,
                    first_v,
                );
            }
            assert(forall|x: int|
                0 <= x < tags_view(self.tags_useds@).len() ==> #[trigger] tags_from(
                    self.temp_records@,
                    text_views(self.texts@),
                    self.values@,
                    tags_view(self.tags_useds@)[x],
                    last_at(self.depth@, self.temp_records@.len() as int, x),
                )) by {
                let ots = old(self).temp_records@;
                let n0 = ots.len() as int;
                let od = old(self).depth@;
                let li = old(self).last_indent as int;
                old(self).lemma_tag_texts(root, old(self).cur_parent as int, li);
                let otx = text_views(old(self).texts@);
                let tx = text_views(self.texts@);
                assert forall|i: int| 0 <= i < otx.len() implies #[trigger] tx[i] == otx[i] by {
                    assert(self.texts@[i] == old(self).texts@[i]);
                }
                assert forall|v: int| 0 <= v < old(self).values@.len() implies #[trigger] self.values@[v].text_ind
                    == old(self).values@[v].text_ind by {
                    assert(same_text_loc(self.values@[v], old(self).values@[v]));
                }
                assert forall|t: int| 0 <= t < n0 implies (#[trigger] self.temp_records@[t]).values == ots[t].values
                    && self.temp_records@[t].tag == ots[t].tag && self.temp_records@[t].parent == ots[t].parent by {
                    assert(kept_temp(self.temp_records@[t], ots[t]));
                }
                let otags = tags_view(old(self).tags_useds@);
                let tags3 = tags_view(self.tags_useds@);
                assert forall|x: int| 0 <= x < indent implies #[trigger] tags3[x] == otags[x] by {
                    assert(self.tags_useds@[x] == tags_r[x]);
                    assert(tags_r[x] == old(self).tags_useds@[x]);
                }
                assert(strs_view(pre) == (if indent <= li { otags[indent as int] } else { Seq::<Seq<char>>::empty() }));
                assert(first_text(self.temp_records@, tx, self.values@, n0) == first_v);
                lemma_tags_from_push(
                    ots,
                    otx,
                    old(self).values@,
                    otags,
                    od,
                    self.temp_records@,
                    tx,
                    self.values@,
                    tags3,
                    li,
                    indent as int,
                    cp as int,
                    first_v,
                );
            }
            assert(self.tags_ok(root));
        }
        proof {
            let ots = old(self).temp_records@;
            let n0 = ots.len() as int;
            let tx = text_views(self.texts@);
            let otx = text_views(old(self).texts@);
            assert(temps_first_fit::<F, P>(d, self.temp_records@, tx, self.values@, self.nodes@, self.brs@)) by {
                assert forall|t: int| 1 <= t < n0 implies (#[trigger] self.temp_records@[t]).values == ots[t].values
                    && self.nodes@[t] == old(self).nodes@[t] && self.brs@[t] == old(self).brs@[t] by {
                    assert(kept_temp(self.temp_records@[t], ots[t]));
                }
                assert forall|t: int| 1 <= t < n0 implies (#[trigger] ots[t]).values.0 <= ots[t].values.1 <= old(self).values@.len() by {
                    assert(temp_ok(ots, t, old(self).texts@.len() as int, old(self).values@.len() as int, old(self).groups@.len() as int));
                }
                assert forall|v: int| 0 <= v < old(self).values@.len() implies (#[trigger] self.values@[v]).text_ind
                    == old(self).values@[v].text_ind && old(self).values@[v].text_ind < otx.len() by {
                    assert(same_text_loc(self.values@[v], old(self).values@[v]));
                }
                assert forall|i: int| 0 <= i < otx.len() implies #[trigger] tx[i] == otx[i] by {
                    assert(self.texts@[i] == old(self).texts@[i]);
                }
                assert forall|i: int| 0 <= i < vv.len() implies #[trigger] vv[i] == tx[self.values@[val_start + i].text_ind as int] by {
                    assert(self.values@[val_start + i] == stp.values@[val_start + i]);
                    assert(stp.values@[val_start + i].text_ind == val_texts@[i]);
                    assert(self.texts@[val_texts@[i] as int] == tx_try[val_texts@[i] as int]);
                }
                lemma_first_fit_push::<F, P>(d, ots, otx, old(self).values@, old(self).nodes@, old(self).brs@, self.temp_records@, tx, self.values@, self.nodes@, self.brs@, vv);
            }
        }
        Ok(())
    }
}

impl<'d, F, P> ParseState<'d, F, P> {
    /// Stores the matched groups `gs` of a record whose values start at
    /// `val_start` as parameter groups, with the texts of their names.
    fn push_groups(&mut self, gs: &Vec<MatchedGroup<'d>>, val_start: usize, n: usize) -> (pg: (usize, usize))
        requires
            forall|k: int| 0 <= k < gs@.len() ==> (#[trigger] gs@[k]).start <= gs@[k].end <= n,
            val_start + n == old(self).values@.len(),
            items_ok(old(self).values@, old(self).groups@, old(self).texts@.len() as int, old(self).parsed@.len() as int),
        ensures
            final(self).temp_records == old(self).temp_records,
            final(self).values == old(self).values,
            final(self).parsed == old(self).parsed,
            final(self).cur_parent == old(self).cur_parent,
            final(self).last_indent == old(self).last_indent,
            final(self).tags_useds == old(self).tags_useds,
            final(self).depth == old(self).depth,
            final(self).nodes == old(self).nodes,
            final(self).brs == old(self).brs,
            pg.0 == old(self).groups@.len(),
            pg.1 == final(self).groups@.len(),
            pg.1 == pg.0 + gs@.len(),
            forall|g: int| 0 <= g < pg.0 ==> #[trigger] final(self).groups@[g] == old(self).groups@[g],
            forall|g: int|
                pg.0 <= g < pg.1 ==> stored_as(#[trigger] final(self).groups@[g], text_views(final(self).texts@), gs@[g - pg.0], val_start as int),
            final(self).texts@.len() >= old(self).texts@.len(),
            forall|i: int| 0 <= i < old(self).texts@.len() ==> #[trigger] final(self).texts@[i] == old(self).texts@[i],
            items_ok(final(self).values@, final(self).groups@, final(self).texts@.len() as int, final(self).parsed@.len() as int),
    {
        let pg_start = self.groups.len();
        let vlen = self.values.len();
        let mut gi: usize = 0;
        while gi < gs.len()
            invariant
                vlen == self.values@.len(),
                self.temp_records == old(self).temp_records,
                self.values == old(self).values,
                self.parsed == old(self).parsed,
                self.cur_parent == old(self).cur_parent,
                self.last_indent == old(self).last_indent,
                self.tags_useds == old(self).tags_useds,
                self.depth == old(self).depth,
                self.nodes == old(self).nodes,
                self.brs == old(self).brs,
                forall|k: int| 0 <= k < gs@.len() ==> (#[trigger] gs@[k]).start <= gs@[k].end <= n,
                val_start + n == self.values@.len(),
                pg_start == old(self).groups@.len(),
                gi <= gs@.len(),
                self.groups@.len() == pg_start + gi,
                forall|g: int| 0 <= g < pg_start ==> #[trigger] self.groups@[g] == old(self).groups@[g],
                forall|g: int|
                    pg_start <= g < self.groups@.len() ==> stored_as(#[trigger] self.groups@[g], text_views(self.texts@), gs@[g - pg_start], val_start as int),
                self.texts@.len() >= old(self).texts@.len(),
                forall|i: int| 0 <= i < old(self).texts@.len() ==> #[trigger] self.texts@[i] == old(self).texts@[i],
                items_ok(self.values@, self.groups@, self.texts@.len() as int, self.parsed@.len() as int),
            decreases gs@.len() - gi,
        {
            let tg = &gs[gi];
            proof {
                assert(tg.start <= tg.end <= n);
            }
            let ghost tx0 = self.texts@;
            let name = match tg.name {
                Some(nm) => {
                    let t = self.texts.len();
                    self.texts.push(str_to_string(nm));
                    Some(t)
                },
                None => None,
            };
            let ghost before = self.groups@;
            self.groups.push(
                ConfGroup {
                    conf_values: val_start + tg.start..val_start + tg.end,
                    name,
                    params_num: tg.params_num,
                    optional: tg.optional,
                    repeat: tg.repeat,
                },
            );
            proof {
                assert forall|k: int| 0 <= k < tx0.len() implies #[trigger] self.texts@[k] == tx0[k] by {
                    if name is Some {
                        assert(self.texts@[k] == self.texts@.drop_last()[k]);
                    }
                }
                assert forall|i: int| 0 <= i < old(self).texts@.len() implies #[trigger] self.texts@[i] == old(self).texts@[i] by {
                    assert(self.texts@[i] == tx0[i]);
                }
                assert forall|g: int| 0 <= g < self.groups@.len() implies range_in((#[trigger] self.groups@[g]).conf_values, self.values@.len() as int)
                    && (self.groups@[g].name matches Some(t) ==> t < self.texts@.len()) by {
                    if g < before.len() {
                        assert(self.groups@[g] == before[g]);
                    }
                }
                assert forall|g: int| 0 <= g < pg_start implies #[trigger] self.groups@[g] == old(self).groups@[g] by {
                    assert(self.groups@[g] == before[g]);
                }
                assert forall|g: int|
                    pg_start <= g < self.groups@.len() implies stored_as(#[trigger] self.groups@[g], text_views(self.texts@), gs@[g - pg_start], val_start as int) by {
                    if g < before.len() {
                        assert(self.groups@[g] == before[g]);
                        assert(stored_as(before[g], text_views(tx0), gs@[g - pg_start], val_start as int));
                        if let Some(i) = before[g].name {
                            assert(i < tx0.len());
                            assert(self.texts@[i as int] == tx0[i as int]);
                        }
                    } else {
                        assert(g - pg_start == gi);
                    }
                }
            }
            gi = gi + 1;
        }
        (pg_start, self.groups.len())
    }

    /// Collects `tr`, a record at the last indent whose parent `cur_parent` is
    /// the last record one level up, as the last child of that parent, which
    /// stays the parent for a next record at that indent.
    fn push_temp(
        &mut self,
        root: BranchContainer<'d, F>,
        tr: TempRecord<'d, F>,
        Ghost(cp0): Ghost<int>,
        Ghost(li0): Ghost<int>,
        Ghost(k): Ghost<int>,
        Ghost(b): Ghost<int>,
    )
        requires
            old(self).ok_at(root, cp0, li0),
            old(self).fits(root),
            old(self).last_indent <= li0 + 1,
            old(self).cur_parent < old(self).temp_records@.len(),
            old(self).cur_parent as int == last_at(old(self).depth@, old(self).temp_records@.len() as int, old(self).last_indent as int),
            old(self).last_indent < usize::MAX,
            old(self).temp_records@[old(self).cur_parent as int].children_text is None,
            tr.parent == Some(old(self).cur_parent),
            tr.children_records@.len() == 0,
            tr.children_text is None,
            tr.param_groups.0 <= tr.param_groups.1 <= old(self).groups@.len(),
            tr.values.0 <= tr.values.1 <= old(self).values@.len(),
            tr.node_label matches Some(x) ==> x < old(self).texts@.len(),
            tr.branch_name matches Some(x) ==> x < old(self).texts@.len(),
            tr.tag ==> tr.values.0 < tr.values.1,
            tr.kids matches NodeChildrenContainer::Branch(bc) ==> bc.valid() && bc.def_view() == root.def_view(),
            temp_fits(
                root.def_view(),
                root.ind(),
                old(self).temp_records@.push(tr),
                text_views(old(self).texts@),
                old(self).values@,
                old(self).groups@,
                old(self).nodes@.push(k),
                old(self).brs@.push(b),
                old(self).temp_records@.len() as int,
            ),
        ensures
            final(self).ok(root),
            final(self).fits(root),
            final(self).cur_parent == old(self).cur_parent,
            final(self).last_indent == old(self).last_indent,
            final(self).texts == old(self).texts,
            final(self).values == old(self).values,
            final(self).groups == old(self).groups,
            final(self).parsed == old(self).parsed,
            final(self).tags_useds == old(self).tags_useds,
            final(self).depth@ == old(self).depth@.push(old(self).last_indent + 1),
            final(self).nodes@ == old(self).nodes@.push(k),
            final(self).brs@ == old(self).brs@.push(b),
            final(self).temp_records@.len() == old(self).temp_records@.len() + 1,
            final(self).temp_records@.last() == tr,
            forall|t: int| 0 <= t < old(self).temp_records@.len() ==> kept_temp(#[trigger] final(self).temp_records@[t], old(self).temp_records@[t]),
    {
        let ghost ts = self.temp_records@;
        let ghost d0 = self.depth@;
        let cp = self.cur_parent;
        let indent = self.last_indent;
        let record_ind = self.temp_records.len();
        self.temp_records.push(tr);
        let ghost ts2 = self.temp_records@;
        self.temp_records[cp].children_records.push(record_ind);
        proof {
            let ts3 = self.temp_records@;
            let nt = self.texts@.len() as int;
            let nv = self.values@.len() as int;
            let ng = self.groups@.len() as int;
            old(self).lemma_depths(root, cp0, li0);
            lemma_last_at_bounds(d0, ts.len() as int, indent as int);
            assert(d0[cp as int] == indent);
            self.depth@ = self.depth@.push(indent + 1);
            self.nodes@ = self.nodes@.push(k);
            self.brs@ = self.brs@.push(b);
            assert forall|t: int| 0 <= t < ts3.len() implies #[trigger] temp_ok(ts3, t, nt, nv, ng) by {
                if t < ts.len() {
                    assert(temp_ok(ts, t, nt, nv, ng));
                    if t != cp {
                        assert(ts3[t] == ts[t]);
                    }
                    assert forall|k2: int| 0 <= k2 < ts3[t].children_records@.len() implies t < #[trigger] ts3[t].children_records@[k2] < ts3.len()
                        && ts3[ts3[t].children_records@[k2] as int].parent == Some(t as usize) by {
                        if t == cp && k2 == ts[t].children_records@.len() {
                            assert(ts3[t].children_records@[k2] == record_ind);
                        } else {
                            assert(ts3[t].children_records@[k2] == ts[t].children_records@[k2]);
                            let c = ts[t].children_records@[k2] as int;
                            assert(ts3[c].parent == ts[c].parent);
                        }
                    }
                } else {
                    assert(ts3[t] == ts2[t]);
                    assert(ts3[t].children_records@.len() == 0);
                }
            }
            assert forall|t: int| 0 < t < ts3.len() implies ((#[trigger] ts3[t]).parent matches Some(p) && self.depth@[t] == self.depth@[p as int] + 1) by {
                assert(ts3[t].parent == ts2[t].parent);
                if t < ts.len() {
                    assert(ts2[t] == ts[t]);
                    assert(ts[t].parent matches Some(p) && d0[t] == d0[p as int] + 1);
                    let p = ts[t].parent->0;
                    assert(temp_ok(ts, t, nt, nv, ng));
                    assert(self.depth@[t] == d0[t]);
                    assert(self.depth@[p as int] == d0[p as int]);
                } else {
                    assert(ts3[t].parent == Some(cp));
                    assert(self.depth@[t] == indent + 1);
                    assert(self.depth@[cp as int] == d0[cp as int]);
                }
            }
            assert forall|t: int| 0 <= t < ts3.len() && (#[trigger] ts3[t]).children_text is Some implies ts3[t].kids is Body by {
                assert(ts3[t].kids == ts2[t].kids);
                assert(ts3[t].children_text == ts2[t].children_text);
                if t < ts.len() {
                    assert(ts2[t] == ts[t]);
                }
            }
            assert forall|t: int| 0 <= t < ts3.len() implies ((#[trigger] ts3[t]).kids matches NodeChildrenContainer::Branch(bc) ==> bc.valid()
                && bc.def_view() == root.def_view()) by {
                assert(ts3[t].kids == ts2[t].kids);
                if t < ts.len() {
                    assert(ts2[t] == ts[t]);
                }
            }
            assert(self.depth@[cp as int] == indent);
            lemma_listed_push(ts, ts2, ts3, cp as int, nt, nv, ng);
            assert forall|t: int| 0 <= t < ts.len() implies (#[trigger] ts3[t]).parent == ts[t].parent by {
                assert(ts3[t].parent == ts2[t].parent);
                assert(ts2[t] == ts[t]);
            }
            assert(ts3[cp as int].children_records@.last() == ts.len());
            lemma_nested_push(ts, ts3, d0, cp0, li0, cp as int, indent as int);
            // fits
            let tx = text_views(self.texts@);
            assert forall|t: int| 0 <= t < ts.len() implies same_fit_fields(#[trigger] ts3[t], ts[t]) by {
                assert(ts3[t].parent == ts2[t].parent);
                assert(ts2[t] == ts[t]);
                if t != cp {
                    assert(ts3[t] == ts[t]);
                }
            }
            lemma_temps_fit_frame(
                root.def_view(),
                root.ind(),
                ts,
                self.texts@,
                self.values@,
                self.groups@,
                self.parsed@.len() as int,
                old(self).nodes@,
                old(self).brs@,
                ts3,
                self.texts@,
                self.values@,
                self.groups@,
                self.nodes@,
                self.brs@,
                ts.len() as int,
            );
            assert(ts3[ts.len() as int] == ts.push(tr)[ts.len() as int]);
            assert(temp_fits(root.def_view(), root.ind(), ts3, tx, self.values@, self.groups@, self.nodes@, self.brs@, ts.len() as int));
            assert(ts3[0].kids == ts[0].kids) by {
                assert(ts3[0].kids == ts2[0].kids);
                assert(ts2[0] == ts[0]);
            }
            assert forall|t: int| 0 <= t < ts.len() implies kept_temp(#[trigger] ts3[t], ts[t]) by {
                assert(ts3[t].parent == ts2[t].parent);
                assert(ts2[t] == ts[t]);
                if t != cp {
                    assert(ts3[t] == ts[t]);
                }
            }
        }
    }
}

/// A state that gains texts, values and groups after those its records index
/// keeps its records in range.
proof fn lemma_ok_at_grow<'d, F, P>(a: ParseState<'d, F, P>, b: ParseState<'d, F, P>, root: BranchContainer<'d, F>, cp: int, li: int)
    requires
        a.ok_at(root, cp, li),
        b.temp_records == a.temp_records,
        b.depth == a.depth,
        b.texts@.len() >= a.texts@.len(),
        b.values@.len() >= a.values@.len(),
        b.groups@.len() >= a.groups@.len(),
        items_ok(b.values@, b.groups@, b.texts@.len() as int, b.parsed@.len() as int),
        b.tags_useds@.len() >= 1,
    ensures
        b.ok_at(root, cp, li),
{
    let ts = a.temp_records@;
    assert forall|t: int| 0 <= t < ts.len() implies #[trigger] temp_ok(
        ts,
        t,
        b.texts@.len() as int,
        b.values@.len() as int,
        b.groups@.len() as int,
    ) by {
        assert(temp_ok(ts, t, a.texts@.len() as int, a.values@.len() as int, a.groups@.len() as int));
    }
}

} // verus!
