pub mod error;
pub mod grammar;
pub mod record;
pub mod matching;
pub mod start;
pub mod nesting;
pub mod fit;
pub mod greedy;

use vstd::prelude::*;

use std::path::Path;

use crate::conf::{Conf, Record, record_depth};
use crate::def::container::branch::BranchContainer;
use crate::lexer::{Lexer, Token};
use crate::lexer::loc::src_fits;
use crate::paths::opt_path_to_buf;
use crate::text::{str_to_chars, str_to_string};
use error::{ParseError, ParseErrorType};
use grammar::{
    parse_ending, parse_cmnt, parse_ml_cmnt, lexer_at, ending_end, cmnt_end, ml_cmnt_end,
    record_spec, record_indent, indent_scan, lemma_at_moved, lemma_indent_scan_bounds, TokSpec, err_is, loc_of, token_is,
};
use record::{parse_record, parse_body, body_loop};
use matching::{parsers_total, passed_over, not_broken};
use greedy::plain_groups;
use nesting::{last_at, lemma_nested_parents, lemma_last_at_bounds};
use fit::{fail_cause, tag_under, first_text, candidates, looked_up_in, temp_fits, records_fit, record_fits, tags_once_kept, parsed_ok, temps_first_fit, records_first_fit, lemma_records_first_fit};
use crate::conf::{Value, ParamGroup as ConfGroup};
use crate::def::Def;
use start::{
    record_err_kind, token_texts, ParseState, TempRecord, kept_temp, build_records, records_from, laid_out, laid_out_once, lemma_ending_progress, lemma_cmnt_progress, lemma_ml_progress, values_are, text_views,
    lemma_values_appended,
};

verus! {

/// An item read from the source: the tokens of body lines (`false`), or a
/// record line (`true`) with its indent and the tokens of its values.
pub type ReadItem = (bool, int, Seq<TokSpec>);

/// The items `a`, then those read after, unless reading after fails.
pub open spec fn then_read(a: Seq<ReadItem>, r: Option<Seq<ReadItem>>) -> Option<Seq<ReadItem>> {
    match r {
        Some(b) => Some(a + b),
        None => None,
    }
}

/// The tokens of the items, in order.
pub open spec fn items_toks(items: Seq<ReadItem>) -> Seq<TokSpec>
    decreases items.len(),
{
    if items.len() == 0 {
        Seq::empty()
    } else {
        items_toks(items.drop_last()) + items.last().2
    }
}

/// The tokens of two runs of items are those of the first, then of the second.
pub proof fn lemma_items_toks_concat(a: Seq<ReadItem>, b: Seq<ReadItem>)
    ensures
        items_toks(a + b) == items_toks(a) + items_toks(b),
    decreases b.len(),
{
    if b.len() == 0 {
        assert(a + b =~= a);
        assert(items_toks(a) + items_toks(b) =~= items_toks(a));
    } else {
        lemma_items_toks_concat(a, b.drop_last());
        assert((a + b).drop_last() =~= a + b.drop_last());
        assert((a + b).last() == b.last());
        assert(items_toks(a) + items_toks(b.drop_last()) + b.last().2 =~= items_toks(a) + (items_toks(b.drop_last())
            + b.last().2));
    }
}

/// The body item read first when the last record takes a body.
pub open spec fn body_items(bo: (int, int, Seq<TokSpec>), body: bool) -> Seq<ReadItem> {
    if body {
        seq![(false, 0int, bo.2)]
    } else {
        Seq::empty()
    }
}

/// Whether record `k` read takes a body, as `bodies` says (no for one past them).
pub open spec fn body_at(bodies: Seq<bool>, k: int) -> bool {
    0 <= k < bodies.len() && bodies[k]
}

/// The body lines read from `p` below a record at indent `last` that takes a
/// body (`body`), as (outcome, end, tokens); nothing read otherwise.
pub open spec fn body_part(s: Seq<char>, p: int, last: int, body: bool) -> (int, int, Seq<TokSpec>) {
    if body {
        body_loop(s, p, last, Seq::empty())
    } else {
        (0int, p, Seq::<TokSpec>::empty())
    }
}

/// Where a line ending or a comment that starts at `p` ends, tried in that
/// order: a line ending, a `#!` or a `#>` comment of several lines, a comment.
pub open spec fn skip_end(s: Seq<char>, p: int) -> Option<int> {
    if ending_end(s, p) is Some {
        ending_end(s, p)
    } else if ml_cmnt_end(s, p, seq!['#', '!'], seq!['!', '#']) is Some {
        ml_cmnt_end(s, p, seq!['#', '!'], seq!['!', '#'])
    } else if ml_cmnt_end(s, p, seq!['#', '>'], seq!['<', '#']) is Some {
        ml_cmnt_end(s, p, seq!['#', '>'], seq!['<', '#'])
    } else {
        cmnt_end(s, p)
    }
}

/// What parsing reads of the source `s` from `p` on, as the items it
/// collects, in order: each time, first the body lines below the last record
/// if its node takes a body (`body`), then a line ending, a comment, or a
/// record line, with its indent and values, whose node takes a body as
/// `bodies` says for the `k`-th record; `last` is the indent of the last
/// record. `None` where the text does not read as the language has it.
pub open spec fn read_from(s: Seq<char>, p: int, last: int, body: bool, bodies: Seq<bool>, k: int) -> Option<Seq<ReadItem>>
    decreases s.len() - p,
{
    if p < 0 || p >= s.len() {
        Some(Seq::empty())
    } else {
        let bo = body_part(s, p, last, body);
        let p1 = bo.1;
        let t = body_items(bo, body);
        if bo.0 != 0 || p1 < p || p1 > s.len() {
            None
        } else if p1 == s.len() {
            Some(t)
        } else if skip_end(s, p1) is Some {
            let e = skip_end(s, p1)->0;
            if p1 < e <= s.len() {
                then_read(t, read_from(s, e, last, body, bodies, k))
            } else {
                None
            }
        } else {
            let out = record_spec(s, p1, last);
            if out.0 == 0 && p1 < out.1 <= s.len() {
                then_read(
                    t.push((true, record_indent(s, p1, last), out.2)),
                    read_from(s, out.1, record_indent(s, p1, last), body_at(bodies, k), bodies, k + 1),
                )
            } else {
                None
            }
        }
    }
}

/// Reading the values before and after a point reads them all.
proof fn lemma_then_read_assoc(a: Seq<ReadItem>, b: Seq<ReadItem>, r: Option<Seq<ReadItem>>)
    ensures
        then_read(a, then_read(b, r)) == then_read(a + b, r),
{
    if let Some(c) = r {
        assert(a + (b + c) =~= a + b + c);
    }
}

/// Where the tokens of item `i` start among the tokens of all the items.
pub open spec fn tok_off(items: Seq<ReadItem>, i: int) -> int {
    items_toks(items.take(i)).len() as int
}

/// Collected record `tr`, at depth `depth`, is the record line of item `i`:
/// it holds that line's values and stands one level deeper than its indent.
pub open spec fn temp_is_item<F>(tr: TempRecord<F>, depth: int, items: Seq<ReadItem>, i: int) -> bool {
    &&& 0 <= i < items.len()
    &&& items[i].0
    &&& tr.values.0 == tok_off(items, i)
    &&& tr.values.1 == tok_off(items, i) + items[i].2.len()
    &&& depth == items[i].1 + 1
}

/// The collected records but the root are the record lines of the items at
/// `pos`, in order.
pub open spec fn temps_are<F>(ts: Seq<TempRecord<F>>, d: Seq<int>, pos: Seq<int>, items: Seq<ReadItem>) -> bool {
    &&& ts.len() >= 1
    &&& pos.len() == ts.len() - 1
    &&& d.len() == ts.len()
    &&& forall|t: int| 1 <= t < ts.len() ==> #[trigger] temp_is_item(ts[t], d[t], items, pos[t - 1])
}

/// More items read, and records whose values stay, keep the records the lines they are.
proof fn lemma_temps_are_frame<F>(
    ts: Seq<TempRecord<F>>,
    ts2: Seq<TempRecord<F>>,
    d: Seq<int>,
    pos: Seq<int>,
    items: Seq<ReadItem>,
    items2: Seq<ReadItem>,
)
    requires
        temps_are(ts, d, pos, items),
        ts2.len() == ts.len(),
        forall|t: int| 0 <= t < ts.len() ==> #[trigger] ts2[t].values == ts[t].values,
        items2.len() >= items.len(),
        items2.take(items.len() as int) == items,
    ensures
        temps_are(ts2, d, pos, items2),
{
    assert forall|t: int| 1 <= t < ts2.len() implies #[trigger] temp_is_item(ts2[t], d[t], items2, pos[t - 1]) by {
        assert(temp_is_item(ts[t], d[t], items, pos[t - 1]));
        let i = pos[t - 1];
        assert(items2.take(i) =~= items.take(i));
        assert(items2[i] == items2.take(items.len() as int)[i]);
    }
}

/// A record line read last, collected as a new record, is that record.
proof fn lemma_temps_are_push<F>(
    ts: Seq<TempRecord<F>>,
    ts2: Seq<TempRecord<F>>,
    d: Seq<int>,
    pos: Seq<int>,
    items: Seq<ReadItem>,
    item: ReadItem,
)
    requires
        temps_are(ts, d, pos, items),
        ts2.len() == ts.len() + 1,
        forall|t: int| 0 <= t < ts.len() ==> #[trigger] ts2[t].values == ts[t].values,
        ts2.last().values.0 == items_toks(items).len(),
        ts2.last().values.1 == items_toks(items).len() + item.2.len(),
        item.0,
    ensures
        temps_are(ts2, d.push(item.1 + 1), pos.push(items.len() as int), items.push(item)),
{
    let items2 = items.push(item);
    assert(items2.take(items.len() as int) =~= items);
    lemma_temps_are_frame(ts, ts2.take(ts.len() as int), d, pos, items, items2);
    let d2 = d.push(item.1 + 1);
    let pos2 = pos.push(items.len() as int);
    assert forall|t: int| 1 <= t < ts2.len() implies #[trigger] temp_is_item(ts2[t], d2[t], items2, pos2[t - 1]) by {
        if t < ts.len() {
            assert(ts2.take(ts.len() as int)[t] == ts2[t]);
            assert(temp_is_item(ts2.take(ts.len() as int)[t], d[t], items2, pos[t - 1]));
        } else {
            assert(t == ts.len());
            assert(tok_off(items2, items.len() as int) == items_toks(items).len());
        }
    }
}

/// Record `r` of `rs` is the record line of item `i`: it holds the values of
/// that line and stands one level deeper than the line's indent.
pub open spec fn record_is_line(rs: Seq<Record>, r: int, items: Seq<ReadItem>, i: int) -> bool {
    &&& 0 <= i < items.len()
    &&& items[i].0
    &&& rs[r].conf_values.start == tok_off(items, i)
    &&& rs[r].conf_values.end == tok_off(items, i) + items[i].2.len()
    &&& record_depth(rs, r) == items[i].1 + 1
}

/// The last record line before item `i` whose indent is `x`, or -1 for none.
pub open spec fn last_line(items: Seq<ReadItem>, i: int, x: int) -> int
    decreases i,
{
    if i <= 0 {
        -1
    } else if items[i - 1].0 && items[i - 1].1 == x {
        i - 1
    } else {
        last_line(items, i - 1, x)
    }
}

/// The parent of record `r` is the record of the last record line before its
/// own whose indent is one less; the root, whose line is -1, where there is none.
pub open spec fn parent_is_line(rs: Seq<Record>, r: int, items: Seq<ReadItem>, lines: Seq<int>) -> bool {
    rs[r].parent matches Some(q) && lines[q as int] == last_line(items, lines[r], items[lines[r]].1 - 1)
}

/// The records but the root are the record lines among the items, one each:
/// `lines[r]` is the item of record `r`, no two records have the same line,
/// each record line is the line of a record, and each record's parent is the
/// record of the last line before its own one level less indented.
pub open spec fn records_match_lines(rs: Seq<Record>, items: Seq<ReadItem>, lines: Seq<int>) -> bool {
    &&& lines.len() == rs.len()
    &&& lines[0] == -1
    &&& forall|r: int| 1 <= r < rs.len() ==> #[trigger] record_is_line(rs, r, items, lines[r])
    &&& forall|r: int| 1 <= r < rs.len() ==> #[trigger] parent_is_line(rs, r, items, lines)
    &&& forall|r1: int, r2: int| 1 <= r1 < rs.len() && 1 <= r2 < rs.len() && r1 != r2 ==> #[trigger] lines[r1]
        != #[trigger] lines[r2]
    &&& forall|i: int| 0 <= i < items.len() && (#[trigger] items[i]).0 ==> exists|r: int| 1 <= r < rs.len() && #[trigger] lines[r] == i
}

/// The items at `pos` are, in order, all the record lines.
pub open spec fn pos_exact(pos: Seq<int>, items: Seq<ReadItem>) -> bool {
    &&& forall|a: int, b: int| 0 <= a < b < pos.len() ==> #[trigger] pos[a] < #[trigger] pos[b]
    &&& forall|i: int| 0 <= i < items.len() && (#[trigger] items[i]).0 ==> pos.contains(i)
}

/// The depth of a laid out record is that of the collected record it is.
proof fn lemma_laid_out_depth<F>(ts: Seq<TempRecord<F>>, d: Seq<int>, rs: Seq<Record>, m: Seq<int>, r: int)
    requires
        records_from(ts, rs, m),
        d.len() == ts.len(),
        d[0] == 0,
        ts.len() >= 1,
        ts[0].parent is None,
        forall|t: int| 0 < t < ts.len() ==> ((#[trigger] ts[t]).parent matches Some(p) && d[t] == d[p as int] + 1),
        0 <= r < rs.len(),
    ensures
        record_depth(rs, r) == d[m[r]],
    decreases r,
{
    assert(laid_out(ts, rs, m, r));
    if r > 0 {
        let q = rs[r].parent->0 as int;
        assert(laid_out(ts, rs, m, q));
        lemma_laid_out_depth(ts, d, rs, m, q);
        let t = m[r];
        assert(t != 0);
    }
}

/// Body lines read keep the record lines where they are.
proof fn lemma_pos_body(pos: Seq<int>, items: Seq<ReadItem>, more: Seq<ReadItem>)
    requires
        pos_exact(pos, items),
        forall|j: int| 0 <= j < more.len() ==> !(#[trigger] more[j]).0,
    ensures
        pos_exact(pos, items + more),
{
    let all = items + more;
    assert forall|i: int| 0 <= i < all.len() && (#[trigger] all[i]).0 implies pos.contains(i) by {
        if i < items.len() {
            assert(all[i] == items[i]);
        } else {
            assert(all[i] == more[i - items.len()]);
        }
    }
}

/// A record line read last is the last one at `pos`.
proof fn lemma_pos_record<F>(ts: Seq<TempRecord<F>>, d: Seq<int>, pos: Seq<int>, items: Seq<ReadItem>, item: ReadItem)
    requires
        pos_exact(pos, items),
        temps_are(ts, d, pos, items),
    ensures
        pos_exact(pos.push(items.len() as int), items.push(item)),
{
    let p2 = pos.push(items.len() as int);
    let all = items.push(item);
    assert forall|a: int, b: int| 0 <= a < b < p2.len() implies #[trigger] p2[a] < #[trigger] p2[b] by {
        if b < pos.len() {
            assert(p2[a] == pos[a] && p2[b] == pos[b]);
        } else {
            let t = a + 1;
            assert(temp_is_item(ts[t], d[t], items, pos[t - 1]));
            assert(p2[a] == pos[a]);
        }
    }
    assert forall|i: int| 0 <= i < all.len() && (#[trigger] all[i]).0 implies p2.contains(i) by {
        if i < items.len() {
            assert(all[i] == items[i]);
            let k = choose|k: int| 0 <= k < pos.len() && #[trigger] pos[k] == i;
            assert(p2[k] == i);
        } else {
            assert(p2[pos.len() as int] == i);
        }
    }
}

/// Among the items before `i`, past the record line of collected record `k`
/// and up to that of record `k + 1`, the last record line at indent `x - 1` is
/// the line of the last collected record up to `k` at depth `x`; -1 where that
/// is the root or there is none.
proof fn lemma_last_line<F>(
    ts: Seq<TempRecord<F>>,
    d: Seq<int>,
    pos: Seq<int>,
    items: Seq<ReadItem>,
    k: int,
    i: int,
    x: int,
)
    requires
        temps_are(ts, d, pos, items),
        pos_exact(pos, items),
        forall|t: int| 1 <= t < ts.len() ==> #[trigger] d[t] >= 1,
        d[0] == 0,
        0 <= k < ts.len(),
        k == 0 || pos[k - 1] < i,
        k == ts.len() - 1 || i <= pos[k],
        i <= items.len(),
        x >= 0,
    ensures
        last_line(items, i, x - 1) == (if last_at(d, k + 1, x) >= 1 {
            pos[last_at(d, k + 1, x) - 1]
        } else {
            -1
        }),
    decreases i,
{
    if k >= 1 {
        assert(temp_is_item(ts[k], d[k], items, pos[k - 1]));
    }
    if i <= 0 {
        assert(last_at(d, 0, x) == -1);
        assert(last_at(d, 1, x) < 1);
    } else if items[i - 1].0 {
        assert(pos.contains(i - 1));
        let a = choose|a: int| 0 <= a < pos.len() && #[trigger] pos[a] == i - 1;
        if k == 0 {
            if a > 0 {
                assert(pos[0] < pos[a]);
            }
            assert(false);
        }
        if a > k - 1 {
            if a > k {
                assert(pos[k] < pos[a]);
            }
            assert(false);
        }
        if a < k - 1 {
            assert(pos[a] < pos[k - 1]);
            assert(false);
        }
        assert(a == k - 1);
        if d[k] != x {
            assert(last_at(d, k + 1, x) == last_at(d, k, x));
            if k >= 2 {
                assert(pos[k - 2] < pos[k - 1]);
            }
            lemma_last_line(ts, d, pos, items, k - 1, i - 1, x);
        }
    } else {
        lemma_last_line(ts, d, pos, items, k, i - 1, x);
    }
}

/// The records laid out from the collected ones, each once, are the record
/// lines read, one each, each under the record that its line's place puts it under.
proof fn lemma_records_match_lines<F>(
    ts: Seq<TempRecord<F>>,
    d: Seq<int>,
    pos: Seq<int>,
    items: Seq<ReadItem>,
    rs: Seq<Record>,
    m: Seq<int>,
    inv: Seq<int>,
)
    requires
        temps_are(ts, d, pos, items),
        pos_exact(pos, items),
        records_from(ts, rs, m),
        laid_out_once(ts.len() as int, m, inv),
        d[0] == 0,
        ts[0].parent is None,
        forall|t: int| 0 < t < ts.len() ==> ((#[trigger] ts[t]).parent matches Some(p) && d[t] == d[p as int] + 1),
        forall|t: int| 0 <= t < ts.len() ==> #[trigger] d[t] >= 0,
        forall|t: int| 1 <= t < ts.len() ==> ((#[trigger] ts[t]).parent matches Some(p) && p as int == last_at(d, t, d[t] - 1)),
    ensures
        records_match_lines(rs, items, Seq::new(rs.len(), |r: int| if r == 0 { -1 } else { pos[m[r] - 1] })),
{
    let lines = Seq::new(rs.len(), |r: int| if r == 0 { -1 } else { pos[m[r] - 1] });
    assert forall|t: int| 1 <= t < ts.len() implies #[trigger] d[t] >= 1 by {
        let p = ts[t].parent->0 as int;
        assert(d[p] >= 0) by {
            lemma_last_at_bounds(d, t, d[t] - 1);
            assert(0 <= p < ts.len());
        }
    }
    assert forall|r: int| 1 <= r < rs.len() implies #[trigger] parent_is_line(rs, r, items, lines) by {
        assert(laid_out(ts, rs, m, r));
        let t = m[r];
        assert(t != 0) by {
            if t == 0 {
                assert(inv[m[r]] == r);
                assert(inv[m[0]] == 0);
            }
        }
        let q = rs[r].parent->0 as int;
        assert(laid_out(ts, rs, m, q));
        assert(temp_is_item(ts[t], d[t], items, pos[t - 1]));
        if t >= 2 {
            assert(pos[t - 2] < pos[t - 1]);
        }
        lemma_last_line(ts, d, pos, items, t - 1, pos[t - 1], d[t] - 1);
        if q != 0 {
            assert(m[q] != 0) by {
                if m[q] == 0 {
                    assert(inv[m[q]] == q);
                    assert(inv[m[0]] == 0);
                }
            }
        }
    }
    assert forall|r: int| 1 <= r < rs.len() implies #[trigger] record_is_line(rs, r, items, lines[r]) by {
        assert(laid_out(ts, rs, m, r));
        let t = m[r];
        assert(t != 0);
        lemma_laid_out_depth(ts, d, rs, m, r);
        assert(temp_is_item(ts[t], d[t], items, pos[t - 1]));
    }
    assert forall|r1: int, r2: int| 1 <= r1 < rs.len() && 1 <= r2 < rs.len() && r1 != r2 implies #[trigger] lines[r1]
        != #[trigger] lines[r2] by {
        assert(laid_out(ts, rs, m, r1));
        assert(laid_out(ts, rs, m, r2));
        let t1 = m[r1];
        let t2 = m[r2];
        assert(inv[t1] == r1 && inv[t2] == r2);
        assert(t1 != 0 && t2 != 0);
        if t1 < t2 {
            assert(pos[t1 - 1] < pos[t2 - 1]);
        } else {
            assert(pos[t2 - 1] < pos[t1 - 1]);
        }
    }
    assert forall|i: int| 0 <= i < items.len() && (#[trigger] items[i]).0 implies exists|r: int| 1 <= r < rs.len() && #[trigger] lines[r] == i by {
        assert(pos.contains(i));
        let k = choose|k: int| 0 <= k < pos.len() && #[trigger] pos[k] == i;
        let t = k + 1;
        let r = inv[t];
        assert(0 <= r < m.len() && m[r] == t);
        assert(r != 0) by {
            if r == 0 {
                assert(m[0] == 0);
            }
        }
        assert(lines[r] == i);
    }
}

/// The records laid out from the collected ones fit the nodes that those fit,
/// looked up in the same branches.
proof fn lemma_records_fit<F>(
    d: Def<F>,
    rb: int,
    ts: Seq<TempRecord<F>>,
    texts: Seq<Seq<char>>,
    values: Seq<Value>,
    groups: Seq<ConfGroup>,
    nodes: Seq<int>,
    brs: Seq<int>,
    rs: Seq<Record>,
    m: Seq<int>,
    inv: Seq<int>,
)
    requires
        forall|t: int| 1 <= t < ts.len() ==> #[trigger] temp_fits(d, rb, ts, texts, values, groups, nodes, brs, t),
        records_from(ts, rs, m),
        laid_out_once(ts.len() as int, m, inv),
    ensures
        records_fit(
            d,
            rb,
            rs,
            texts,
            values,
            groups,
            Seq::new(rs.len(), |r: int| nodes[m[r]]),
            Seq::new(rs.len(), |r: int| brs[m[r]]),
        ),
{
    let ns = Seq::new(rs.len(), |r: int| nodes[m[r]]);
    let bs = Seq::new(rs.len(), |r: int| brs[m[r]]);
    assert forall|r: int| 1 <= r < rs.len() implies #[trigger] record_fits(d, rb, rs, texts, values, groups, ns, bs, r) by {
        assert(laid_out(ts, rs, m, r));
        let t = m[r];
        assert(t != 0) by {
            if t == 0 {
                assert(inv[m[r]] == r);
                assert(inv[m[0]] == 0);
            }
        }
        assert(temp_fits(d, rb, ts, texts, values, groups, nodes, brs, t));
        let q = rs[r].parent->0 as int;
        assert(laid_out(ts, rs, m, q));
        let p = ts[t].parent->0 as int;
        assert(p == m[q]);
        if q != 0 {
            assert(m[q] != 0) by {
                if m[q] == 0 {
                    assert(inv[m[q]] == q);
                    assert(inv[m[0]] == 0);
                }
            }
        }
        assert(ns[q] == nodes[p]);
    }
}

/// How many record lines stand among the items before item `i`.
pub open spec fn lines_before(items: Seq<ReadItem>, i: int) -> int
    decreases i,
{
    if i <= 0 {
        0
    } else {
        lines_before(items, i - 1) + if items[i - 1].0 {
            1int
        } else {
            0int
        }
    }
}

/// Between the record lines of collected records `k` and `k + 1`, `k` record
/// lines stand before an item.
proof fn lemma_lines_before<F>(ts: Seq<TempRecord<F>>, d: Seq<int>, pos: Seq<int>, items: Seq<ReadItem>, k: int, i: int)
    requires
        temps_are(ts, d, pos, items),
        pos_exact(pos, items),
        0 <= k < ts.len(),
        k == 0 || pos[k - 1] < i,
        k == ts.len() - 1 || i <= pos[k],
        i <= items.len(),
    ensures
        lines_before(items, i) == k,
    decreases i,
{
    if k >= 1 {
        assert(temp_is_item(ts[k], d[k], items, pos[k - 1]));
    }
    if i <= 0 {
    } else if items[i - 1].0 {
        assert(pos.contains(i - 1));
        let a = choose|a: int| 0 <= a < pos.len() && #[trigger] pos[a] == i - 1;
        if k == 0 {
            if a > 0 {
                assert(pos[0] < pos[a]);
            }
            assert(false);
        }
        if a > k - 1 {
            if a > k {
                assert(pos[k] < pos[a]);
            }
            assert(false);
        }
        if a < k - 1 {
            assert(pos[a] < pos[k - 1]);
            assert(false);
        }
        if k >= 2 {
            assert(pos[k - 2] < pos[k - 1]);
        }
        lemma_lines_before(ts, d, pos, items, k - 1, i - 1);
    } else {
        lemma_lines_before(ts, d, pos, items, k, i - 1);
    }
}

/// A record line takes a body exactly where the node of its record does.
pub open spec fn body_choice<F>(d: Def<F>, bodies: Seq<bool>, items: Seq<ReadItem>, lines: Seq<int>, nodes: Seq<int>, r: int) -> bool {
    body_at(bodies, lines_before(items, lines[r])) == (d.nodes()[nodes[r]].children is Body)
}

/// The text of the first value of record `r`: its tag, where its node has one.
pub open spec fn record_first(rs: Seq<Record>, texts: Seq<Seq<char>>, values: Seq<Value>, r: int) -> Seq<char> {
    texts[values[rs[r].conf_values.start as int].text_ind as int]
}

/// Of two tagged records under one parent, the later (by its line, `lines`)
/// does not have the earlier one's tag where its node (`nodes`) lets its tag
/// stand once.
pub open spec fn tags_once_hold<F>(d: Def<F>, rs: Seq<Record>, texts: Seq<Seq<char>>, values: Seq<Value>, lines: Seq<int>, nodes: Seq<int>) -> bool {
    forall|r1: int, r2: int|
        #![trigger rs[r1], rs[r2]]
        1 <= r1 < rs.len() && 1 <= r2 < rs.len() && rs[r1].parent == rs[r2].parent && lines[r1] < lines[r2] && rs[r1].tag
            && rs[r2].tag && d.nodes()[nodes[r2]].tag_once ==> record_first(rs, texts, values, r1) != record_first(
            rs,
            texts,
            values,
            r2,
        )
}

/// The records laid out from the collected ones keep a tag that may stand once
/// from standing twice under one parent.
proof fn lemma_tags_once_hold<F>(
    d: Def<F>,
    ts: Seq<TempRecord<F>>,
    dp: Seq<int>,
    pos: Seq<int>,
    items: Seq<ReadItem>,
    texts: Seq<Seq<char>>,
    values: Seq<Value>,
    nodes: Seq<int>,
    rs: Seq<Record>,
    m: Seq<int>,
    inv: Seq<int>,
    lines: Seq<int>,
    ns: Seq<int>,
)
    requires
        lines == Seq::new(rs.len(), |r: int| if r == 0 { -1 } else { pos[m[r] - 1] }),
        ns == Seq::new(rs.len(), |r: int| nodes[m[r]]),
        temps_are(ts, dp, pos, items),
        pos_exact(pos, items),
        records_from(ts, rs, m),
        laid_out_once(ts.len() as int, m, inv),
        tags_once_kept(d, ts, texts, values, nodes),
    ensures
        tags_once_hold(d, rs, texts, values, lines, ns),
{
    assert forall|r1: int, r2: int|
        1 <= r1 < rs.len() && 1 <= r2 < rs.len() && rs[r1].parent == rs[r2].parent && lines[r1] < lines[r2] && rs[r1].tag
            && rs[r2].tag && d.nodes()[ns[r2]].tag_once implies record_first(rs, texts, values, r1) != record_first(
        rs,
        texts,
        values,
        r2,
    ) by {
        assert(laid_out(ts, rs, m, r1));
        assert(laid_out(ts, rs, m, r2));
        let t1 = m[r1];
        let t2 = m[r2];
        assert(t1 != 0) by {
            if t1 == 0 {
                assert(inv[m[r1]] == r1);
                assert(inv[m[0]] == 0);
            }
        }
        assert(t2 != 0) by {
            if t2 == 0 {
                assert(inv[m[r2]] == r2);
                assert(inv[m[0]] == 0);
            }
        }
        let q = rs[r1].parent->0 as int;
        assert(ts[t1].parent == ts[t2].parent);
        assert(t1 < t2) by {
            if t1 > t2 {
                assert(pos[t2 - 1] < pos[t1 - 1]);
            }
        }
        assert(ts[t1].tag && ts[t2].tag);
        assert(ns[r2] == nodes[t2]);
    }
}

/// The configuration `c` is what the language reads of the source `s` against
/// the definition `d` from its branch `rb`: with the body choices `w.0` the
/// source reads as `items`; the values are, in order, the tokens of the items;
/// each record but the root is one of the record lines (`w.1`), under the
/// record of the last line before it one level less indented; each is a record
/// of a node (`w.2`) of the branch (`w.3`) that its parent's node names; and a
/// record line takes a body exactly where its record's node takes one; no
/// tag that its node lets stand once stands twice under one parent; and each
/// parsed value is what a parser of the definition gives for its value's text.
pub open spec fn conf_reads<F, P>(d: Def<F>, rb: int, c: Conf<P>, s: Seq<char>, w: (Seq<bool>, Seq<int>, Seq<int>, Seq<int>)) -> bool
    where
        F: Fn(&str) -> Option<P>,
{
    &&& read_from(s, 0, 0, false, w.0, 0) is Some
    &&& conf_matches::<F, P>(d, rb, c.records(), c.texts(), c.values(), c.groups(), c.parsed(), s, read_from(s, 0, 0, false, w.0, 0)->0, w)
}

/// The records `rs`, with their texts, values, parameter groups and parsed
/// values, are what the language makes of the items `items` read from the
/// source `s` against the definition `d` from its branch `rb` (see
/// `conf_reads`), with the body choices, lines, nodes and branches `w`.
pub open spec fn conf_matches<F, P>(
    d: Def<F>,
    rb: int,
    rs: Seq<Record>,
    texts: Seq<Seq<char>>,
    values: Seq<Value>,
    groups: Seq<ConfGroup>,
    parsed: Seq<P>,
    s: Seq<char>,
    items: Seq<ReadItem>,
    w: (Seq<bool>, Seq<int>, Seq<int>, Seq<int>),
) -> bool
    where
        F: Fn(&str) -> Option<P>,
{
    &&& values_are(values, texts, s, items_toks(items))
    &&& records_match_lines(rs, items, w.1)
    &&& records_fit(d, rb, rs, texts, values, groups, w.2, w.3)
    &&& forall|r: int| 1 <= r < rs.len() ==> #[trigger] body_choice(d, w.0, items, w.1, w.2, r)
    &&& tags_once_hold(d, rs, texts, values, w.1, w.2)
    &&& parsed_ok(d, values, texts, parsed)
    &&& records_first_fit::<F, P>(d, rs, texts, values, w.2, w.3)
}

/// Each record line takes a body exactly where its record's node takes one,
/// where each collected record `t` took a body as `bodies[t - 1]` says.
proof fn lemma_body_choices<F>(
    d: Def<F>,
    rb: int,
    ts: Seq<TempRecord<F>>,
    dp: Seq<int>,
    pos: Seq<int>,
    items: Seq<ReadItem>,
    texts: Seq<Seq<char>>,
    values: Seq<Value>,
    groups: Seq<ConfGroup>,
    nodes: Seq<int>,
    brs: Seq<int>,
    bodies: Seq<bool>,
    rs: Seq<Record>,
    m: Seq<int>,
    inv: Seq<int>,
    lines: Seq<int>,
    ns: Seq<int>,
)
    requires
        lines == Seq::new(rs.len(), |r: int| if r == 0 { -1 } else { pos[m[r] - 1] }),
        ns == Seq::new(rs.len(), |r: int| nodes[m[r]]),
        temps_are(ts, dp, pos, items),
        pos_exact(pos, items),
        records_from(ts, rs, m),
        laid_out_once(ts.len() as int, m, inv),
        forall|t: int| 1 <= t < ts.len() ==> #[trigger] temp_fits(d, rb, ts, texts, values, groups, nodes, brs, t),
        bodies.len() + 1 == ts.len(),
        forall|t: int| 1 <= t < ts.len() ==> bodies[t - 1] == (#[trigger] ts[t]).kids is Body,
    ensures
        forall|r: int| 1 <= r < rs.len() ==> #[trigger] body_choice(d, bodies, items, lines, ns, r),
{
    assert forall|r: int| 1 <= r < rs.len() implies #[trigger] body_choice(d, bodies, items, lines, ns, r) by {
        assert(laid_out(ts, rs, m, r));
        let t = m[r];
        assert(t != 0) by {
            if t == 0 {
                assert(inv[m[r]] == r);
                assert(inv[m[0]] == 0);
            }
        }
        assert(temp_is_item(ts[t], dp[t], items, pos[t - 1]));
        if t >= 2 {
            assert(pos[t - 2] < pos[t - 1]);
        }
        lemma_lines_before(ts, dp, pos, items, t - 1, pos[t - 1]);
        assert(temp_fits(d, rb, ts, texts, values, groups, nodes, brs, t));
        assert(bodies[t - 1] == ts[t].kids is Body);
    }
}

/// Whether the last record collected takes a body.
pub(crate) open spec fn takes_body<'d, F, P>(st: ParseState<'d, F, P>) -> bool {
    st.temp_records@.len() > 1 && st.temp_records@.last().kids is Body
}

/// `b` begins with the body choices `bodies`.
pub open spec fn follows(b: Seq<bool>, bodies: Seq<bool>) -> bool {
    b.len() >= bodies.len() && b.take(bodies.len() as int) == bodies
}

/// What was read so far, up to `p`, with the body choices `bodies`, and what
/// is read from `p` on make what is read of the whole source.
pub open spec fn read_so_far(s: Seq<char>, p: int, last: int, body: bool, bodies: Seq<bool>, toks: Seq<ReadItem>) -> bool {
    forall|b: Seq<bool>|
        follows(b, bodies) ==> #[trigger] read_from(s, 0, 0, false, b, 0) == then_read(
            toks,
            read_from(s, p, last, body, b, bodies.len() as int),
        )
}

/// Skipping a line ending or a comment after the body lines keeps what is
/// read in step.
proof fn lemma_read_skip(s: Seq<char>, p0: int, last: int, body: bool, bodies: Seq<bool>, vt: Seq<ReadItem>, e: int)
    requires
        read_so_far(s, p0, last, body, bodies, vt),
        0 <= p0 < s.len(),
        body_part(s, p0, last, body).0 == 0,
        p0 <= body_part(s, p0, last, body).1 < s.len(),
        skip_end(s, body_part(s, p0, last, body).1) == Some(e),
        body_part(s, p0, last, body).1 < e <= s.len(),
    ensures
        read_so_far(s, e, last, body, bodies, vt + body_items(body_part(s, p0, last, body), body)),
{
    let t = body_items(body_part(s, p0, last, body), body);
    assert forall|b: Seq<bool>| follows(b, bodies) implies #[trigger] read_from(s, 0, 0, false, b, 0) == then_read(
        vt + t,
        read_from(s, e, last, body, b, bodies.len() as int),
    ) by {
        assert(read_from(s, p0, last, body, b, bodies.len() as int) == then_read(t, read_from(s, e, last, body, b, bodies.len() as int)));
        lemma_then_read_assoc(vt, t, read_from(s, e, last, body, b, bodies.len() as int));
    }
}

/// Body lines that run to the end of the source end what is read.
proof fn lemma_read_to_end(s: Seq<char>, p0: int, last: int, body: bool, bodies: Seq<bool>, vt: Seq<ReadItem>)
    requires
        read_so_far(s, p0, last, body, bodies, vt),
        0 <= p0 < s.len(),
        body_part(s, p0, last, body).0 == 0,
        body_part(s, p0, last, body).1 == s.len(),
    ensures
        read_so_far(s, s.len() as int, last, body, bodies, vt + body_items(body_part(s, p0, last, body), body)),
{
    let t = body_items(body_part(s, p0, last, body), body);
    assert forall|b: Seq<bool>| follows(b, bodies) implies #[trigger] read_from(s, 0, 0, false, b, 0) == then_read(
        vt + t,
        read_from(s, s.len() as int, last, body, b, bodies.len() as int),
    ) by {
        assert(read_from(s, p0, last, body, b, bodies.len() as int) == Some(t));
        assert(read_from(s, s.len() as int, last, body, b, bodies.len() as int) == Some(Seq::<ReadItem>::empty()));
        assert(vt + t + Seq::<ReadItem>::empty() =~= vt + t);
    }
}

/// Reading a record line after the body lines keeps what is read in step,
/// the record's node taking a body as `nb` says.
proof fn lemma_read_record(s: Seq<char>, p0: int, last: int, body: bool, bodies: Seq<bool>, vt: Seq<ReadItem>, nb: bool)
    requires
        read_so_far(s, p0, last, body, bodies, vt),
        0 <= p0 < s.len(),
        body_part(s, p0, last, body).0 == 0,
        p0 <= body_part(s, p0, last, body).1 < s.len(),
        skip_end(s, body_part(s, p0, last, body).1) is None,
        record_spec(s, body_part(s, p0, last, body).1, last).0 == 0,
        body_part(s, p0, last, body).1 < record_spec(s, body_part(s, p0, last, body).1, last).1 <= s.len(),
    ensures
        ({
            let p1 = body_part(s, p0, last, body).1;
            let out = record_spec(s, p1, last);
            read_so_far(
                s,
                out.1,
                record_indent(s, p1, last),
                nb,
                bodies.push(nb),
                (vt + body_items(body_part(s, p0, last, body), body)).push((true, record_indent(s, p1, last), out.2)),
            )
        }),
{
    let t = body_items(body_part(s, p0, last, body), body);
    let p1 = body_part(s, p0, last, body).1;
    let out = record_spec(s, p1, last);
    let k = bodies.len() as int;
    let bodies2 = bodies.push(nb);
    let li = record_indent(s, p1, last);
    let item = (true, li, out.2);
    assert forall|b: Seq<bool>| follows(b, bodies2) implies #[trigger] read_from(s, 0, 0, false, b, 0) == then_read(
        (vt + t).push(item),
        read_from(s, out.1, li, nb, b, k + 1),
    ) by {
        assert(b.take(k) =~= b.take(k + 1).take(k));
        assert(bodies2.take(k) =~= bodies);
        assert(follows(b, bodies));
        assert(b[k] == b.take(k + 1)[k]);
        assert(body_at(b, k) == nb);
        assert(read_from(s, p0, last, body, b, k) == then_read(t.push(item), read_from(s, out.1, li, nb, b, k + 1)));
        lemma_then_read_assoc(vt, t.push(item), read_from(s, out.1, li, nb, b, k + 1));
        assert(vt + t.push(item) =~= (vt + t).push(item));
    }
    assert(bodies2.len() == k + 1);
}

/// The body choices, lines, nodes and branches of the records `rs` laid out
/// as `m` says from the records collected in `st`.
pub(crate) open spec fn state_ways<'d, F, P>(st: ParseState<'d, F, P>, rec_pos: Seq<int>, bodies: Seq<bool>, rs: Seq<Record>, m: Seq<int>) -> (
    Seq<bool>,
    Seq<int>,
    Seq<int>,
    Seq<int>,
) {
    (
        bodies,
        Seq::new(rs.len(), |r: int| if r == 0 { -1 } else { rec_pos[m[r] - 1] }),
        Seq::new(rs.len(), |r: int| st.nodes@[m[r]]),
        Seq::new(rs.len(), |r: int| st.brs@[m[r]]),
    )
}

/// What has been collected while reading the items `vitems`, laid out as the
/// records `rs`, is what the language makes of those items.
proof fn lemma_state_matches<'d, F, P>(
    st: ParseState<'d, F, P>,
    root: BranchContainer<'d, F>,
    s: Seq<char>,
    rec_pos: Seq<int>,
    vitems: Seq<ReadItem>,
    bodies: Seq<bool>,
    rs: Seq<Record>,
    m: Seq<int>,
    inv: Seq<int>,
)
    where
        F: Fn(&str) -> Option<P>,
    requires
        st.ok(root),
        st.fits(root),
        st.tags_ok(root),
        parsed_ok(root.def_view(), st.values@, text_views(st.texts@), st.parsed@),
        temps_first_fit::<F, P>(root.def_view(), st.temp_records@, text_views(st.texts@), st.values@, st.nodes@, st.brs@),
        root.valid(),
        values_are(st.values@, text_views(st.texts@), s, items_toks(vitems)),
        temps_are(st.temp_records@, st.depth@, rec_pos, vitems),
        pos_exact(rec_pos, vitems),
        bodies.len() + 1 == st.temp_records@.len(),
        forall|t: int| 1 <= t < st.temp_records@.len() ==> bodies[t - 1] == (#[trigger] st.temp_records@[t]).kids is Body,
        records_from(st.temp_records@, rs, m),
        laid_out_once(st.temp_records@.len() as int, m, inv),
    ensures
        conf_matches::<F, P>(
            root.def_view(),
            root.ind(),
            rs,
            text_views(st.texts@),
            st.values@,
            st.groups@,
            st.parsed@,
            s,
            vitems,
            state_ways(st, rec_pos, bodies, rs, m),
        ),
{
    let d = root.def_view();
    let texts = text_views(st.texts@);
    lemma_nested_parents(st.temp_records@, st.depth@, st.cur_parent as int, st.last_indent as int);
    lemma_records_match_lines(st.temp_records@, st.depth@, rec_pos, vitems, rs, m, inv);
    let w = state_ways(st, rec_pos, bodies, rs, m);
    assert(records_match_lines(rs, vitems, w.1));
    lemma_records_fit(d, root.ind(), st.temp_records@, texts, st.values@, st.groups@, st.nodes@, st.brs@, rs, m, inv);
    assert(records_fit(d, root.ind(), rs, texts, st.values@, st.groups@, w.2, w.3));
    lemma_body_choices(
        d,
        root.ind(),
        st.temp_records@,
        st.depth@,
        rec_pos,
        vitems,
        texts,
        st.values@,
        st.groups@,
        st.nodes@,
        st.brs@,
        bodies,
        rs,
        m,
        inv,
        w.1,
        w.2,
    );
    lemma_tags_once_hold(d, st.temp_records@, st.depth@, rec_pos, vitems, texts, st.values@, st.nodes@, rs, m, inv, w.1, w.2);
    lemma_records_first_fit::<F, P>(d, st.temp_records@, texts, st.values@, st.nodes@, st.brs@, rs, m, inv);
}

/// Some collected record stands at depth 0: the root.
proof fn lemma_last_at_root(d: Seq<int>, n: int)
    requires
        1 <= n <= d.len(),
        d[0] == 0,
    ensures
        last_at(d, n, 0) >= 0,
    decreases n,
{
    if d[n - 1] != 0 {
        lemma_last_at_root(d, n - 1);
    }
}

/// The record a new record line at indent `li` goes under, among the records
/// `rs` laid out as `m` says from those collected in `st`: where the last
/// collected record at depth `li` (`last_at`) is the root or a record, it is
/// the record whose line is the last one before at indent `li - 1` (the
/// root, whose line is -1, at the top), of the same node; otherwise there is
/// no such line.
proof fn lemma_parent_line<'d, F, P>(
    st: ParseState<'d, F, P>,
    root: BranchContainer<'d, F>,
    rec_pos: Seq<int>,
    vitems: Seq<ReadItem>,
    bodies: Seq<bool>,
    rs: Seq<Record>,
    m: Seq<int>,
    inv: Seq<int>,
    li: int,
) -> (q: int)
    where
        F: Fn(&str) -> Option<P>,
    requires
        st.ok(root),
        temps_are(st.temp_records@, st.depth@, rec_pos, vitems),
        pos_exact(rec_pos, vitems),
        records_from(st.temp_records@, rs, m),
        laid_out_once(st.temp_records@.len() as int, m, inv),
        li >= 0,
    ensures
        ({
            let cpa = last_at(st.depth@, st.temp_records@.len() as int, li);
            let pl = if li == 0 {
                -1int
            } else {
                last_line(vitems, vitems.len() as int, li - 1)
            };
            let w = state_ways(st, rec_pos, bodies, rs, m);
            &&& li > 0 && cpa < 1 ==> pl == -1
            &&& !(li > 0 && cpa < 1) ==> {
                &&& 0 <= q < rs.len()
                &&& 0 <= cpa
                &&& m[q] == cpa
                &&& w.1[q] == pl
                &&& w.2[q] == st.nodes@[cpa]
                &&& (q == 0 <==> cpa == 0)
                &&& (q == 0 ==> li == 0)
            }
        }),
{
    let ts = st.temp_records@;
    let d = st.depth@;
    st.lemma_depths(root, st.cur_parent as int, st.last_indent as int);
    assert forall|t: int| 1 <= t < ts.len() implies #[trigger] d[t] >= 1 by {
        let p = ts[t].parent->0 as int;
        assert(d[p] >= 0);
    }
    let cpa = last_at(d, ts.len() as int, li);
    lemma_last_at_bounds(d, ts.len() as int, li);
    if ts.len() >= 2 {
        let t = ts.len() - 1;
        assert(temp_is_item(ts[t], d[t], vitems, rec_pos[t - 1]));
    }
    lemma_last_line(ts, d, rec_pos, vitems, ts.len() - 1, vitems.len() as int, li);
    if li == 0 {
        lemma_last_at_root(d, ts.len() as int);
        assert(cpa == 0);
    }
    if !(li > 0 && cpa < 1) {
        assert(cpa >= 0);
        let q = inv[cpa];
        assert(m[q] == cpa);
        assert(laid_out(ts, rs, m, q));
        assert(inv[m[0]] == 0);
        if q == 0 {
            assert(cpa == m[0]);
        }
        if cpa == 0 {
            assert(q == inv[m[0]]);
        }
        q
    } else {
        0
    }
}

/// A failure at the line after what was read into `st` is a failure of the
/// parse (see `parse_fails`).
proof fn lemma_fails<'d, F, P>(
    st: ParseState<'d, F, P>,
    root: BranchContainer<'d, F>,
    s: Seq<char>,
    p0: int,
    last0: int,
    body0: bool,
    rec_pos: Seq<int>,
    vitems: Seq<ReadItem>,
    bodies: Seq<bool>,
    rs: Seq<Record>,
    m: Seq<int>,
    inv: Seq<int>,
    vi0: Seq<ReadItem>,
    e: ParseError,
    has_path: bool,
)
    where
        F: Fn(&str) -> Option<P>,
    requires
        vitems == read_items(s, p0, last0, body0, vi0),
        st.ok(root),
        st.fits(root),
        st.tags_ok(root),
        parsed_ok(root.def_view(), st.values@, text_views(st.texts@), st.parsed@),
        temps_first_fit::<F, P>(root.def_view(), st.temp_records@, text_views(st.texts@), st.values@, st.nodes@, st.brs@),
        root.valid(),
        values_are(st.values@, text_views(st.texts@), s, items_toks(vitems)),
        temps_are(st.temp_records@, st.depth@, rec_pos, vitems),
        pos_exact(rec_pos, vitems),
        bodies.len() + 1 == st.temp_records@.len(),
        forall|t: int| 1 <= t < st.temp_records@.len() ==> bodies[t - 1] == (#[trigger] st.temp_records@[t]).kids is Body,
        records_from(st.temp_records@, rs, m),
        laid_out_once(st.temp_records@.len() as int, m, inv),
        0 <= p0 < s.len(),
        read_so_far(s, p0, last0, body0, bodies, vi0),
        fails_at::<F, P>(
            root.def_view(),
            root.ind(),
            s,
            p0,
            last0,
            body0,
            vitems,
            rs,
            text_views(st.texts@),
            st.values@,
            state_ways(st, rec_pos, bodies, rs, m).1,
            state_ways(st, rec_pos, bodies, rs, m).2,
            e,
            has_path,
        ),
    ensures
        parse_fails::<F, P>(root.def_view(), root.ind(), s, e, has_path),
{
    lemma_state_matches(st, root, s, rec_pos, vitems, bodies, rs, m, inv);
    let w = state_ways(st, rec_pos, bodies, rs, m);
    assert(read_so_far(s, p0, last0, body0, w.0, vi0));
    assert(conf_matches::<F, P>(root.def_view(), root.ind(), rs, text_views(st.texts@), st.values@, st.groups@, st.parsed@, s, vitems, w));
}

/// A record line whose record could not be added for a cause stated over the
/// collected records in `st` fails for that cause over the records laid out.
proof fn lemma_line_fails<'d, F, P>(
    st: ParseState<'d, F, P>,
    root: BranchContainer<'d, F>,
    rec_pos: Seq<int>,
    vitems: Seq<ReadItem>,
    bodies: Seq<bool>,
    rs: Seq<Record>,
    m: Seq<int>,
    inv: Seq<int>,
    li: int,
    toks: Seq<TokSpec>,
    tokens: Seq<Token>,
    t: ParseErrorType,
)
    where
        F: Fn(&str) -> Option<P>,
    requires
        st.ok(root),
        temps_are(st.temp_records@, st.depth@, rec_pos, vitems),
        pos_exact(rec_pos, vitems),
        records_from(st.temp_records@, rs, m),
        laid_out_once(st.temp_records@.len() as int, m, inv),
        li >= 0,
        token_texts(tokens) == tok_texts(toks),
        if li > 0 && last_at(st.depth@, st.temp_records@.len() as int, li) < 1 {
            t is Unknown
        } else {
            fail_cause::<F, P>(
                root.def_view(),
                root.ind(),
                last_at(st.depth@, st.temp_records@.len() as int, li),
                st.nodes@[last_at(st.depth@, st.temp_records@.len() as int, li)],
                token_texts(tokens),
                tag_under(
                    st.temp_records@,
                    text_views(st.texts@),
                    st.values@,
                    token_texts(tokens)[0],
                    last_at(st.depth@, st.temp_records@.len() as int, li),
                ),
                t,
            )
        },
    ensures
        line_fails::<F, P>(
            root.def_view(),
            root.ind(),
            li,
            toks,
            vitems,
            rs,
            text_views(st.texts@),
            st.values@,
            state_ways(st, rec_pos, bodies, rs, m).1,
            state_ways(st, rec_pos, bodies, rs, m).2,
            t,
        ),
{
    let q = lemma_parent_line(st, root, rec_pos, vitems, bodies, rs, m, inv, li);
    let cpa = last_at(st.depth@, st.temp_records@.len() as int, li);
    let w = state_ways(st, rec_pos, bodies, rs, m);
    if !(li > 0 && cpa < 1) {
        let d = root.def_view();
        let rb = root.ind();
        let kq = st.nodes@[cpa];
        let vt = tok_texts(toks);
        assert(w.1[q] == (if li == 0 { -1int } else { last_line(vitems, vitems.len() as int, li - 1) }));
        assert(w.2[q] == kq);
        let tx = text_views(st.texts@);
        let seen0 = tag_under(st.temp_records@, tx, st.values@, token_texts(tokens)[0], cpa);
        let seen1 = rec_tag_under(rs, tx, st.values@, vt[0], q);
        assert(seen0 ==> seen1) by {
            if seen0 {
                let ts = st.temp_records@;
                let tt = choose|tt: int| 1 <= tt < ts.len() && ts[tt].tag && (ts[tt].parent matches Some(u) && u as int == cpa) && #[trigger] first_text(ts, tx, st.values@, tt) == token_texts(tokens)[0];
                let r1 = inv[tt];
                assert(m[r1] == tt);
                assert(laid_out(ts, rs, m, r1));
                assert(r1 != 0) by {
                    if r1 == 0 {
                        assert(inv[m[0]] == 0);
                    }
                }
                let q1 = rs[r1].parent->0 as int;
                assert(laid_out(ts, rs, m, q1));
                assert(cpa >= 0);
                lemma_last_at_bounds(st.depth@, ts.len() as int, li);
                assert(cpa < ts.len());
                assert(ts[m[r1]].parent->0 as int == cpa);
                assert(m[q1] == cpa);
                assert(inv[m[q1]] == q1);
                assert(inv[m[q]] == q);
                assert(q1 == q);
                assert(record_first(rs, tx, st.values@, r1) == first_text(ts, tx, st.values@, tt));
            }
        }
        assert(fail_cause::<F, P>(d, rb, cpa, kq, vt, seen0, t));
        assert(fail_cause::<F, P>(d, rb, q, kq, vt, seen1, t)) by {
            if t is TagOnce {
                let b = choose|b: int| #[trigger] looked_up_in(d, rb, cpa, kq, b) && exists|j: int|
                    0 <= j < candidates(d, b, vt[0]).len() && d.nodes()[#[trigger] candidates(d, b, vt[0])[j] as int].has_tag
                        && d.nodes()[candidates(d, b, vt[0])[j] as int].tag_once;
                assert(looked_up_in(d, rb, q, kq, b));
            }
            if t is NoDefForRecord {
                let b = choose|b: int| #[trigger] looked_up_in(d, rb, cpa, kq, b) && forall|j: int|
                    0 <= j < candidates(d, b, vt[0]).len() ==> #[trigger] passed_over::<F, P>(d, candidates(d, b, vt[0])[j] as int, vt);
                assert(looked_up_in(d, rb, q, kq, b));
            }
            if t is Unknown {
                let b = choose|b: int| #[trigger] looked_up_in(d, rb, cpa, kq, b) && exists|j: int|
                    0 <= j < candidates(d, b, vt[0]).len() && (d.nodes()[candidates(d, b, vt[0])[j] as int].param_groups@.len() != 1 && !plain_groups(d.nodes()[candidates(d, b, vt[0])[j] as int].param_groups@)
                        || !not_broken(d, #[trigger] candidates(d, b, vt[0])[j] as int, vt.len() as int));
                assert(looked_up_in(d, rb, q, kq, b));
            }
        }
    }
}

/// The texts of the values of a record line.
pub open spec fn tok_texts(toks: Seq<TokSpec>) -> Seq<Seq<char>> {
    Seq::new(toks.len(), |i: int| toks[i].2)
}

/// A tagged record of `rs` under record `q` has the tag `w`.
pub open spec fn rec_tag_under(rs: Seq<Record>, texts: Seq<Seq<char>>, values: Seq<Value>, w: Seq<char>, q: int) -> bool {
    exists|r: int| 1 <= r < rs.len() && (rs[r].parent matches Some(u) && u as int == q) && rs[r].tag && #[trigger] record_first(rs, texts, values, r) == w
}

/// The record line at `p1`, read after the items `items`, with the values
/// `toks`, fails with `t` for its cause: its parent is the record whose line
/// (`lines`) is the last one before at one indent less (the root at the top),
/// of node `nodes[q]`, and `t` has its cause there (see `fail_cause`); or, at
/// an indent below the top with no such line, `t` is `Unknown`.
pub open spec fn line_fails<F, P>(
    d: Def<F>,
    rb: int,
    li: int,
    toks: Seq<TokSpec>,
    items: Seq<ReadItem>,
    rs: Seq<Record>,
    texts: Seq<Seq<char>>,
    values: Seq<Value>,
    lines: Seq<int>,
    nodes: Seq<int>,
    t: ParseErrorType,
) -> bool
    where
        F: Fn(&str) -> Option<P>,
{
    let pl = if li == 0 {
        -1int
    } else {
        last_line(items, items.len() as int, li - 1)
    };
    ||| t is Unknown && li > 0 && pl == -1
    ||| exists|q: int|
        0 <= q < lines.len() && #[trigger] lines[q] == pl && (q == 0 ==> li == 0) && fail_cause::<F, P>(
            d,
            rb,
            q,
            nodes[q],
            tok_texts(toks),
            rec_tag_under(rs, texts, values, tok_texts(toks)[0], q),
            t,
        )
}

/// Reading `s` from `p` on, below a record at indent `last` (that takes a
/// body if `body`), after the items `items` whose records have the lines
/// `lines` and the nodes `nodes`, fails at the next line with the error `e`:
/// its body lines do not read; or, after them, the next line is neither a
/// line ending nor a comment and does not read as a record line (`e` is the
/// error of the language there, `Unknown` where no value starts); or it reads
/// as a record line and `e`, at its first value, is one a record line can meet
/// (see `record_err_kind`), with its cause (see `line_fails`).
pub open spec fn fails_at<F, P>(
    d: Def<F>,
    rb: int,
    s: Seq<char>,
    p: int,
    last: int,
    body: bool,
    items: Seq<ReadItem>,
    rs: Seq<Record>,
    texts: Seq<Seq<char>>,
    values: Seq<Value>,
    lines: Seq<int>,
    nodes: Seq<int>,
    e: ParseError,
    has_path: bool,
) -> bool
    where
        F: Fn(&str) -> Option<P>,
{
    let bo = body_part(s, p, last, body);
    let p1 = bo.1;
    ||| bo.0 != 0 && err_is(e, bo.0, loc_of(s, bo.1), Seq::empty(), has_path)
    ||| bo.0 == 0 && p <= p1 < s.len() && skip_end(s, p1) is None && ({
        let out = record_spec(s, p1, last);
        ||| 1 <= out.0 <= 5 && err_is(e, out.0, loc_of(s, out.1), out.3, has_path)
        ||| out.0 == 6 && e.error_type is Unknown && e.loc == loc_of(s, p1)
        ||| out.0 == 0 && p1 < out.1 <= s.len() && out.2.len() >= 1 && e.loc == loc_of(s, out.2[0].0) && record_err_kind(e.error_type)
            && line_fails::<F, P>(d, rb, record_indent(s, p1, last), out.2, items, rs, texts, values, lines, nodes, e.error_type)
    })
}

/// The items read up to a line at `p`, `items`, with the body lines there
/// (see `body_part`) where they read.
pub open spec fn read_items(s: Seq<char>, p: int, last: int, body: bool, items: Seq<ReadItem>) -> Seq<ReadItem> {
    if body_part(s, p, last, body).0 == 0 {
        items + body_items(body_part(s, p, last, body), body)
    } else {
        items
    }
}

/// Parsing `s` against `d` from its branch `rb` fails with `e`: the source
/// reads up to some point `p` as `items` (with the body lines there, where
/// they read: `read_items`), which make the records `rs` (with their texts,
/// values, groups, parsed values, body choices, lines, nodes and branches
/// `w`) as the language has them (see `conf_matches`), and fails at the next
/// line (see `fails_at`).
pub open spec fn parse_fails<F, P>(d: Def<F>, rb: int, s: Seq<char>, e: ParseError, has_path: bool) -> bool
    where
        F: Fn(&str) -> Option<P>,
{
    exists|
        p: int,
        last: int,
        body: bool,
        items: Seq<ReadItem>,
        rs: Seq<Record>,
        texts: Seq<Seq<char>>,
        values: Seq<Value>,
        groups: Seq<ConfGroup>,
        parsed: Seq<P>,
        w: (Seq<bool>, Seq<int>, Seq<int>, Seq<int>),
    |
        #![trigger read_so_far(s, p, last, body, w.0, items), conf_matches::<F, P>(d, rb, rs, texts, values, groups, parsed, s, read_items(s, p, last, body, items), w)]
        0 <= p < s.len() && read_so_far(s, p, last, body, w.0, items) && conf_matches::<F, P>(
            d,
            rb,
            rs,
            texts,
            values,
            groups,
            parsed,
            s,
            read_items(s, p, last, body, items),
            w,
        ) && fails_at::<F, P>(d, rb, s, p, last, body, read_items(s, p, last, body, items), rs, texts, values, w.1, w.2, e, has_path)
}

/// Parses `src` against the definition of `root_branch`: a tree of records
/// below a root, each record matched to a node of the branch its parent's node
/// names (the root branch at the top), with its values, parameter groups and
/// what the parameters' parsers made of them, and the text of bodies. As
/// `conf_reads` states: the values of the configuration are, in order, the
/// values and body lines of the source as the language reads them
/// (`read_from`), a record line taking a body where its node takes one; each
/// record line is a record, under the last record line before it one level
/// less indented; each record has the tag, label and parameter groups of a
/// node tried for it, a tag that may stand once standing once under a parent;
/// and each parsed value is what a parser gives for its value's text. The
/// source is kept if `keep_src` says so, and `path` is noted, also in errors.
#[verifier::rlimit(100)]
#[verifier::spinoff_prover]
pub fn parse_start<'d, F, P>(root_branch: BranchContainer<'d, F>, src: &str, keep_src: bool, path: Option<&Path>) -> (r: Result<Conf<P>, ParseError>)
    where
        F: Fn(&str) -> Option<P>,
    requires
        root_branch.valid(),
        parsers_total::<F, P>(root_branch.def_view()),
        src_fits(src@),
    ensures
        r matches Ok(c) ==> c.src_view() == (if keep_src {
            Some(src@)
        } else {
            None
        }) && c.has_path() == (path is Some),
        r matches Ok(c) ==> exists|w: (Seq<bool>, Seq<int>, Seq<int>, Seq<int>)|
            #[trigger] conf_reads(root_branch.def_view(), root_branch.ind(), c, src@, w),
        r matches Err(e) ==> (e.path is Some) == (path is Some),
        r matches Err(e) ==> parse_fails::<F, P>(root_branch.def_view(), root_branch.ind(), src@, e, path is Some),
{
    let chars = str_to_chars(src);
    let mut lexer = Lexer::new(chars.as_slice());
    let ghost s = chars@;
    let mut st: ParseState<'d, F, P> = ParseState::new(root_branch);
    let ghost mut vitems: Seq<ReadItem> = Seq::empty();
    let ghost mut bodies: Seq<bool> = Seq::empty();
    let ghost mut rec_pos: Seq<int> = Seq::empty();
    proof {
        assert forall|b: Seq<bool>| follows(b, bodies) implies #[trigger] read_from(s, 0, 0, false, b, 0) == then_read(
            vitems,
            read_from(s, 0, 0, false, b, 0),
        ) by {
            if let Some(x) = read_from(s, 0, 0, false, b, 0) {
                assert(vitems + x =~= x);
            }
        }
        assert(values_are(st.values@, text_views(st.texts@), s, items_toks(vitems)));
        assert(temps_are(st.temp_records@, st.depth@, rec_pos, vitems));
        assert(pos_exact(rec_pos, vitems));
    }
    while !lexer.is_end()
        invariant
            lexer_at(&lexer, s, lexer.pos()),
            0 <= lexer.pos() <= s.len(),
            src_fits(s),
            s == src@,
            st.ok(root_branch),
            st.fits(root_branch),
            st.tags_ok(root_branch),
            parsed_ok(root_branch.def_view(), st.values@, text_views(st.texts@), st.parsed@),
            temps_first_fit::<F, P>(root_branch.def_view(), st.temp_records@, text_views(st.texts@), st.values@, st.nodes@, st.brs@),
            root_branch.valid(),
            parsers_total::<F, P>(root_branch.def_view()),
            st.last_indent <= s.len(),
            values_are(st.values@, text_views(st.texts@), s, items_toks(vitems)),
            read_so_far(s, lexer.pos(), st.last_indent as int, takes_body(st), bodies, vitems),
            temps_are(st.temp_records@, st.depth@, rec_pos, vitems),
            pos_exact(rec_pos, vitems),
            bodies.len() + 1 == st.temp_records@.len(),
            forall|t: int| 1 <= t < st.temp_records@.len() ==> bodies[t - 1] == (#[trigger] st.temp_records@[t]).kids is Body,
        decreases s.len() - lexer.pos(),
    {
        let ghost p0 = lexer.pos();
        let ghost body0 = takes_body(st);
        let ghost last0 = st.last_indent as int;
        let ghost vi0 = vitems;
        let ghost bo = body_part(s, p0, last0, body0);
        proof {
            assert(p0 < s.len());
        }
        let last = st.temp_records.len() - 1;
        if last > 0 && st.temp_records[last].kids.is_body() {
            let ghost st0 = st;
            let tokens = match parse_body(&mut lexer, st.last_indent, path) {
                Ok(t) => t,
                Err(e) => {
                    let recs = build_records(&st.temp_records, st.texts.len(), st.values.len(), st.groups.len());
                    proof {
                        let mi = choose|mi: (Seq<int>, Seq<int>)| records_from(st.temp_records@, recs->0@, mi.0) && laid_out_once(st.temp_records@.len() as int, mi.0, mi.1);
                        let w = state_ways(st, rec_pos, bodies, recs->0@, mi.0);
                        assert(read_items(s, p0, last0, body0, vi0) == vitems);
                        assert(fails_at::<F, P>(root_branch.def_view(), root_branch.ind(), s, p0, last0, body0, vitems, recs->0@, text_views(st.texts@), st.values@, w.1, w.2, e, path is Some));
                        lemma_fails(st, root_branch, s, p0, last0, body0, rec_pos, vitems, bodies, recs->0@, mi.0, mi.1, vi0, e, path is Some);
                    }
                    return Err(e);
                },
            };
            st.add_body(root_branch, tokens);
            proof {
                lemma_values_appended(st0.values@, st0.texts@, st.values@, st.texts@, tokens@, s, items_toks(vi0), bo.2);
                lemma_items_toks_concat(vi0, body_items(bo, body0));
                assert(body0);
                let bi = body_items(bo, body0);
                assert(bi.len() == 1 && bi.last().2 == bo.2);
                assert(bi.drop_last() =~= Seq::<ReadItem>::empty());
                assert(items_toks(bi) == items_toks(bi.drop_last()) + bi.last().2);
                assert(items_toks(bi) =~= bo.2);
                vitems = vi0 + body_items(bo, body0);
                assert(vitems.take(vi0.len() as int) =~= vi0);
                assert forall|t: int| 0 <= t < st0.temp_records@.len() implies #[trigger] st.temp_records@[t].values
                    == st0.temp_records@[t].values by {
                    if t < st0.temp_records@.len() - 1 {
                        assert(kept_temp(st.temp_records@[t], st0.temp_records@[t]));
                    }
                }
                lemma_temps_are_frame(st0.temp_records@, st.temp_records@, st.depth@, rec_pos, vi0, vitems);
                lemma_pos_body(rec_pos, vi0, body_items(bo, body0));
            }
        } else {
            proof {
                assert(vi0 + body_items(bo, body0) =~= vi0);
            }
        }
        let ghost p1 = lexer.pos();
        let ghost a = lexer;
        proof {
            assert(p1 == bo.1);
            assert(bo.0 == 0);
            assert(vitems == vi0 + body_items(bo, body0));
            assert(takes_body(st) == body0);
            assert(st.last_indent == last0);
            lemma_ending_progress(s, p1);
        }
        if parse_ending(&mut lexer) {
            proof {
                lemma_at_moved(&a, &lexer, s, p1, lexer.pos() - p1);
                if p1 == s.len() {
                    lemma_read_to_end(s, p0, last0, body0, bodies, vi0);
                } else {
                    lemma_read_skip(s, p0, last0, body0, bodies, vi0, lexer.pos());
                }
            }
            continue;
        }
        proof {
            reveal_strlit("#!");
            reveal_strlit("!#");
            reveal_strlit("#>");
            reveal_strlit("<#");
            assert("#!"@ =~= seq!['#', '!']);
            assert("!#"@ =~= seq!['!', '#']);
            assert("#>"@ =~= seq!['#', '>']);
            assert("<#"@ =~= seq!['<', '#']);
            lemma_ml_progress(s, p1, "#!"@, "!#"@);
            lemma_ml_progress(s, p1, "#>"@, "<#"@);
            lemma_cmnt_progress(s, p1);
            assert(p1 < s.len());
        }
        if parse_ml_cmnt(&mut lexer, "#!", "!#") {
            proof {
                lemma_at_moved(&a, &lexer, s, p1, lexer.pos() - p1);
                lemma_read_skip(s, p0, last0, body0, bodies, vi0, lexer.pos());
            }
            continue;
        }
        if parse_ml_cmnt(&mut lexer, "#>", "<#") {
            proof {
                lemma_at_moved(&a, &lexer, s, p1, lexer.pos() - p1);
                lemma_read_skip(s, p0, last0, body0, bodies, vi0, lexer.pos());
            }
            continue;
        }
        if parse_cmnt(&mut lexer) {
            proof {
                lemma_at_moved(&a, &lexer, s, p1, lexer.pos() - p1);
                lemma_read_skip(s, p0, last0, body0, bodies, vi0, lexer.pos());
            }
            continue;
        }
        proof {
            lemma_indent_scan_bounds(s, p1, 0, 0, st.last_indent as int, false);
            assert(skip_end(s, p1) is None);
        }
        let ghost st1 = st;
        proof {
            assert(values_are(st1.values@, text_views(st1.texts@), s, items_toks(vitems)));
        }
        proof {
            assert(read_so_far(s, p0, last0, body0, bodies, vi0));
            assert(bo.0 == 0 && p0 <= p1 < s.len());
        }
        match parse_record(&mut lexer, st.last_indent, path) {
            Err(e) => {
                let recs = build_records(&st.temp_records, st.texts.len(), st.values.len(), st.groups.len());
                proof {
                    let mi = choose|mi: (Seq<int>, Seq<int>)| records_from(st.temp_records@, recs->0@, mi.0) && laid_out_once(st.temp_records@.len() as int, mi.0, mi.1);
                    let w = state_ways(st, rec_pos, bodies, recs->0@, mi.0);
                    assert(read_items(s, p0, last0, body0, vi0) == vitems);
                    assert(fails_at::<F, P>(root_branch.def_view(), root_branch.ind(), s, p0, last0, body0, vitems, recs->0@, text_views(st.texts@), st.values@, w.1, w.2, e, path is Some));
                    lemma_fails(st, root_branch, s, p0, last0, body0, rec_pos, vitems, bodies, recs->0@, mi.0, mi.1, vi0, e, path is Some);
                }
                return Err(e);
            },
            Ok(Some((indent, tokens))) => {
                let nt0 = st.texts.len();
                let nv0 = st.values.len();
                let ng0 = st.groups.len();
                match st.add_record(root_branch, indent, &tokens, path) {
                    Ok(()) => {},
                    Err(e) => {
                        let recs = build_records(&st.temp_records, nt0, nv0, ng0);
                        proof {
                            let out = record_spec(s, p1, last0);
                            assert(token_is(tokens@[0], s, out.2[0]));
                            assert(token_texts(tokens@) =~= tok_texts(out.2)) by {
                                assert forall|i: int| 0 <= i < tokens@.len() implies #[trigger] token_texts(tokens@)[i] == tok_texts(out.2)[i] by {
                                    assert(token_is(tokens@[i], s, out.2[i]));
                                }
                            }
                            let rs = recs->0@;
                            let mi = choose|mi: (Seq<int>, Seq<int>)| records_from(st1.temp_records@, rs, mi.0) && laid_out_once(st1.temp_records@.len() as int, mi.0, mi.1);
                            let w = state_ways(st1, rec_pos, bodies, rs, mi.0);
                            lemma_line_fails(st1, root_branch, rec_pos, vitems, bodies, rs, mi.0, mi.1, indent as int, out.2, tokens@, e.error_type);
                            assert(read_items(s, p0, last0, body0, vi0) == vitems);
                            assert(fails_at::<F, P>(root_branch.def_view(), root_branch.ind(), s, p0, last0, body0, vitems, rs, text_views(st1.texts@), st1.values@, w.1, w.2, e, path is Some));
                            lemma_fails(st1, root_branch, s, p0, last0, body0, rec_pos, vitems, bodies, rs, mi.0, mi.1, vi0, e, path is Some);
                        }
                        return Err(e);
                    },
                }
                proof {
                    let out = record_spec(s, p1, last0);
                    lemma_values_appended(st1.values@, st1.texts@, st.values@, st.texts@, tokens@, s, items_toks(vitems), out.2);
                    lemma_read_record(s, p0, last0, body0, bodies, vi0, takes_body(st));
                    let item = (true, record_indent(s, p1, last0), out.2);
                    assert(vitems.push(item).drop_last() =~= vitems);
                    assert forall|t: int| 0 <= t < st1.temp_records@.len() implies #[trigger] st.temp_records@[t].values
                        == st1.temp_records@[t].values by {
                        assert(kept_temp(st.temp_records@[t], st1.temp_records@[t]));
                    }
                    assert(st1.values@.len() == items_toks(vitems).len());
                    assert(tokens@.len() == out.2.len());
                    assert(st.temp_records@.last().values.0 == st1.values@.len());
                    lemma_pos_record(st1.temp_records@, st1.depth@, rec_pos, vitems, item);
                    lemma_temps_are_push(st1.temp_records@, st.temp_records@, st1.depth@, rec_pos, vitems, item);
                    rec_pos = rec_pos.push(vitems.len() as int);
                    vitems = vitems.push(item);
                    bodies = bodies.push(takes_body(st));
                }
                continue;
            },
            Ok(None) => {},
        }
        if !lexer.is_end() {
            let e = ParseError { path: opt_path_to_buf(path), loc: lexer.loc(), error_type: ParseErrorType::Unknown };
            let recs = build_records(&st.temp_records, st.texts.len(), st.values.len(), st.groups.len());
            proof {
                let mi = choose|mi: (Seq<int>, Seq<int>)| records_from(st.temp_records@, recs->0@, mi.0) && laid_out_once(st.temp_records@.len() as int, mi.0, mi.1);
                let w = state_ways(st, rec_pos, bodies, recs->0@, mi.0);
                assert(read_items(s, p0, last0, body0, vi0) == vitems);
                assert(fails_at::<F, P>(root_branch.def_view(), root_branch.ind(), s, p0, last0, body0, vitems, recs->0@, text_views(st.texts@), st.values@, w.1, w.2, e, path is Some));
                lemma_fails(st, root_branch, s, p0, last0, body0, rec_pos, vitems, bodies, recs->0@, mi.0, mi.1, vi0, e, path is Some);
            }
            return Err(e);
        }
        proof {
            assert(false);
        }
    }
    proof {
        assert(lexer.pos() == s.len());
        assert(read_from(s, lexer.pos(), st.last_indent as int, takes_body(st), bodies, bodies.len() as int) == Some(
            Seq::<ReadItem>::empty(),
        ));
        assert(follows(bodies, bodies)) by {
            assert(bodies.take(bodies.len() as int) =~= bodies);
        }
        assert(vitems + Seq::<ReadItem>::empty() =~= vitems);
        assert(read_from(s, 0, 0, false, bodies, 0) == Some(vitems));
    }
    let records = match build_records(&st.temp_records, st.texts.len(), st.values.len(), st.groups.len()) {
        Some(r) => r,
        None => {
            return Err(ParseError { path: opt_path_to_buf(path), loc: lexer.loc(), error_type: ParseErrorType::Unknown });
        },
    };
    let kept = if keep_src {
        Some(str_to_string(src))
    } else {
        None
    };
    let c = Conf {
        records,
        texts: st.texts,
        path: opt_path_to_buf(path),
        src: kept,
        values: st.values,
        param_groups: st.groups,
        parsed_values: st.parsed,
    };
    proof {
        assert(c.texts() =~= text_views(c.texts@));
        assert(c.values() == c.values@);
        assert(c.records() == records@);
        let mi = choose|mi: (Seq<int>, Seq<int>)| records_from(st.temp_records@, records@, mi.0) && laid_out_once(st.temp_records@.len() as int, mi.0, mi.1);
        lemma_state_matches(st, root_branch, s, rec_pos, vitems, bodies, records@, mi.0, mi.1);
        assert(conf_reads(root_branch.def_view(), root_branch.ind(), c, src@, state_ways(st, rec_pos, bodies, records@, mi.0)));
    }
    Ok(c)
}

} // verus!
