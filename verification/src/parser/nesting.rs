use vstd::prelude::*;

use super::start::TempRecord;

verus! {

/// The last collected record before `n` at depth `x`, or -1 for none.
pub open spec fn last_at(d: Seq<int>, n: int, x: int) -> int
    decreases n,
{
    if n <= 0 {
        -1
    } else if d[n - 1] == x {
        n - 1
    } else {
        last_at(d, n - 1, x)
    }
}

/// Depths that grow by one from each collected record's parent, from 0 at
/// the root, parents standing before their children.
pub open spec fn depths_ok<F>(ts: Seq<TempRecord<F>>, d: Seq<int>) -> bool {
    &&& ts.len() >= 1
    &&& d.len() == ts.len()
    &&& d[0] == 0
    &&& ts[0].parent is None
    &&& forall|t: int| 0 <= t < ts.len() ==> #[trigger] d[t] >= 0
    &&& forall|t: int|
        0 < t < ts.len() ==> ((#[trigger] ts[t]).parent matches Some(p) && p < t && d[t] == d[p as int] + 1)
}

/// The ancestor of collected record `t` at depth `x`: `t` itself at its own depth.
pub open spec fn anc_at<F>(ts: Seq<TempRecord<F>>, d: Seq<int>, t: int, x: int) -> int
    decreases t,
{
    if t <= 0 || t >= ts.len() || d[t] <= x {
        t
    } else {
        match ts[t].parent {
            Some(p) => if p < t {
                anc_at(ts, d, p as int, x)
            } else {
                t
            },
            None => t,
        }
    }
}

/// Records nest by their depths: each record's parent is the last record
/// before it one level up; the ancestors of the last record are the last
/// records at their depths; `cur_parent`, the parent for a record at the last
/// indent, is the last record at that depth, and the last record, one level
/// deeper, is its last child.
pub closed spec fn nested<F>(ts: Seq<TempRecord<F>>, d: Seq<int>, cur_parent: int, last_indent: int) -> bool {
    let n = ts.len() as int;
    &&& forall|t: int|
        1 <= t < n ==> ((#[trigger] ts[t]).parent matches Some(p) && p as int == last_at(d, t, d[t] - 1))
    &&& forall|x: int| 0 <= x <= d[n - 1] ==> #[trigger] anc_at(ts, d, n - 1, x) == last_at(d, n, x)
    &&& cur_parent == last_at(d, n, last_indent)
    &&& n > 1 ==> d[n - 1] == last_indent + 1 && ts[cur_parent].children_records@.len() > 0
        && ts[cur_parent].children_records@.last() == n - 1
    &&& n == 1 ==> last_indent == 0
}

/// The ancestor at a depth no deeper than a record's is at that depth, at or before it.
pub proof fn lemma_anc_depth<F>(ts: Seq<TempRecord<F>>, d: Seq<int>, t: int, x: int)
    requires
        depths_ok(ts, d),
        0 <= t < ts.len(),
        0 <= x <= d[t],
    ensures
        0 <= anc_at(ts, d, t, x) <= t,
        d[anc_at(ts, d, t, x)] == x,
    decreases t,
{
    if t > 0 && d[t] > x {
        let p = ts[t].parent->0 as int;
        lemma_anc_depth(ts, d, p, x);
    }
}

/// Going up to depth `y`, then to depth `x`, is going up to depth `x`.
pub proof fn lemma_anc_compose<F>(ts: Seq<TempRecord<F>>, d: Seq<int>, t: int, x: int, y: int)
    requires
        depths_ok(ts, d),
        0 <= t < ts.len(),
        0 <= x <= y <= d[t],
    ensures
        anc_at(ts, d, anc_at(ts, d, t, y), x) == anc_at(ts, d, t, x),
    decreases t,
{
    if t > 0 && d[t] > y {
        let p = ts[t].parent->0 as int;
        lemma_anc_compose(ts, d, p, x, y);
    }
}

/// The parent of the ancestor at depth `y` is the ancestor at depth `y - 1`.
pub proof fn lemma_anc_parent<F>(ts: Seq<TempRecord<F>>, d: Seq<int>, t: int, y: int)
    requires
        depths_ok(ts, d),
        0 <= t < ts.len(),
        1 <= y <= d[t],
    ensures
        anc_at(ts, d, t, y) > 0,
        ts[anc_at(ts, d, t, y)].parent == Some(anc_at(ts, d, t, y - 1) as usize),
{
    lemma_anc_depth(ts, d, t, y);
    let a = anc_at(ts, d, t, y);
    assert(a != 0);
    let p = ts[a].parent->0 as int;
    lemma_anc_compose(ts, d, t, y - 1, y);
    assert(anc_at(ts, d, a, y - 1) == anc_at(ts, d, p, y - 1));
    assert(d[p] == y - 1);
}

/// The ancestors of a record depend only on the records up to it.
pub proof fn lemma_anc_frame<F>(ts: Seq<TempRecord<F>>, ts2: Seq<TempRecord<F>>, d: Seq<int>, d2: Seq<int>, t: int, x: int)
    requires
        depths_ok(ts, d),
        0 <= t < ts.len(),
        t < ts2.len(),
        t < d2.len(),
        forall|u: int| 0 <= u <= t ==> #[trigger] ts2[u].parent == ts[u].parent && d2[u] == d[u],
    ensures
        anc_at(ts2, d2, t, x) == anc_at(ts, d, t, x),
    decreases t,
{
    if t > 0 && d[t] > x {
        let p = ts[t].parent->0 as int;
        assert(ts2[t].parent == ts[t].parent);
        lemma_anc_frame(ts, ts2, d, d2, p, x);
    }
}

/// The last record at a depth among the first `m` depends only on them.
pub proof fn lemma_last_at_frame(d: Seq<int>, d2: Seq<int>, m: int, x: int)
    requires
        0 <= m <= d.len(),
        m <= d2.len(),
        forall|u: int| 0 <= u < m ==> #[trigger] d2[u] == d[u],
    ensures
        last_at(d2, m, x) == last_at(d, m, x),
    decreases m,
{
    if m > 0 {
        lemma_last_at_frame(d, d2, m - 1, x);
    }
}

/// The last record at a depth is before `n` and at that depth.
pub proof fn lemma_last_at_bounds(d: Seq<int>, n: int, x: int)
    requires
        0 <= n <= d.len(),
    ensures
        -1 <= last_at(d, n, x) < n,
        last_at(d, n, x) >= 0 ==> d[last_at(d, n, x)] == x,
    decreases n,
{
    if n > 0 {
        lemma_last_at_bounds(d, n - 1, x);
    }
}

/// The root alone nests, and is the parent for a record at indent 0.
pub proof fn lemma_nested_init<F>(ts: Seq<TempRecord<F>>, d: Seq<int>)
    requires
        ts.len() == 1,
        d == seq![0int],
    ensures
        nested(ts, d, 0, 0),
{
    assert(last_at(d, 1, 0) == 0);
    assert forall|x: int| 0 <= x <= d[0] implies #[trigger] anc_at(ts, d, 0, x) == last_at(d, 1, x) by {
        assert(x == 0);
    }
}

/// Each record's parent is the last record before it one level up.
pub proof fn lemma_nested_parents<F>(ts: Seq<TempRecord<F>>, d: Seq<int>, cp: int, li: int)
    requires
        nested(ts, d, cp, li),
    ensures
        forall|t: int|
            1 <= t < ts.len() ==> ((#[trigger] ts[t]).parent matches Some(p) && p as int == last_at(d, t, d[t] - 1)),
{
}

/// The parent for a record at the last indent is the last record at that depth.
pub proof fn lemma_nested_cur<F>(ts: Seq<TempRecord<F>>, d: Seq<int>, cp: int, li: int)
    requires
        nested(ts, d, cp, li),
    ensures
        cp == last_at(d, ts.len() as int, li),
        ts.len() == 1 ==> li == 0,
{
}

/// Past the root, the last record is the last child of the parent for a
/// record at the last indent, and the last record one level deeper.
pub proof fn lemma_nested_last_child<F>(ts: Seq<TempRecord<F>>, d: Seq<int>, cp: int, li: int)
    requires
        nested(ts, d, cp, li),
        ts.len() > 1,
    ensures
        ts[cp].children_records@.len() > 0,
        ts[cp].children_records@.last() == ts.len() - 1,
        last_at(d, ts.len() as int, li + 1) == ts.len() - 1,
{
    let n = ts.len() as int;
    assert(d[n - 1] == li + 1);
}

/// From the last record at a depth no deeper than one below the last indent,
/// going up to depth `x` reaches the last record at depth `x`.
pub proof fn lemma_nested_up<F>(ts: Seq<TempRecord<F>>, d: Seq<int>, cp: int, li: int, y: int, x: int)
    requires
        depths_ok(ts, d),
        nested(ts, d, cp, li),
        y <= li + 1,
        last_at(d, ts.len() as int, y) >= 0,
        0 <= x <= y,
    ensures
        anc_at(ts, d, last_at(d, ts.len() as int, y), x) == last_at(d, ts.len() as int, x),
{
    let n = ts.len() as int;
    lemma_last_at_bounds(d, n, y);
    if n == 1 {
        assert(y == 0);
        assert(x == 0);
        assert(last_at(d, 1, 0) == 0);
    } else {
        assert(d[n - 1] == li + 1);
        assert(anc_at(ts, d, n - 1, y) == last_at(d, n, y));
        assert(anc_at(ts, d, n - 1, x) == last_at(d, n, x));
        lemma_anc_compose(ts, d, n - 1, x, y);
    }
}

/// Records whose parents and children stay keep nesting.
pub proof fn lemma_nested_frame<F>(ts: Seq<TempRecord<F>>, ts2: Seq<TempRecord<F>>, d: Seq<int>, cp: int, li: int)
    requires
        depths_ok(ts, d),
        nested(ts, d, cp, li),
        0 <= cp < ts.len(),
        ts2.len() == ts.len(),
        forall|t: int|
            0 <= t < ts.len() ==> (#[trigger] ts2[t]).parent == ts[t].parent && ts2[t].children_records == ts[t].children_records,
    ensures
        nested(ts2, d, cp, li),
{
    let n = ts.len() as int;
    assert forall|t: int| 1 <= t < n implies ((#[trigger] ts2[t]).parent matches Some(p) && p as int == last_at(d, t, d[t] - 1)) by {
        assert(ts2[t].parent == ts[t].parent);
    }
    assert forall|x: int| 0 <= x <= d[n - 1] implies #[trigger] anc_at(ts2, d, n - 1, x) == last_at(d, n, x) by {
        assert forall|u: int| 0 <= u <= n - 1 implies #[trigger] ts2[u].parent == ts[u].parent && d[u] == d[u] by {}
        lemma_anc_frame(ts, ts2, d, d, n - 1, x);
    }
    assert(ts2[cp].children_records == ts[cp].children_records);
}

/// A record at `indent` collected last, as the last child of the last record
/// one level up, nests, and the parent it took is the parent for the next
/// record at its indent.
pub proof fn lemma_nested_push<F>(
    ts: Seq<TempRecord<F>>,
    ts3: Seq<TempRecord<F>>,
    d: Seq<int>,
    cp0: int,
    li: int,
    cp: int,
    indent: int,
)
    requires
        depths_ok(ts, d),
        nested(ts, d, cp0, li),
        0 <= indent <= li + 1,
        0 <= cp < ts.len(),
        cp == last_at(d, ts.len() as int, indent),
        ts3.len() == ts.len() + 1,
        forall|t: int| 0 <= t < ts.len() ==> (#[trigger] ts3[t]).parent == ts[t].parent,
        ts3[ts.len() as int].parent == Some(cp as usize),
        ts3[cp].children_records@.len() > 0,
        ts3[cp].children_records@.last() == ts.len(),
    ensures
        nested(ts3, d.push(indent + 1), cp, indent),
{
    let n = ts.len() as int;
    let d2 = d.push(indent + 1);
    lemma_last_at_bounds(d, n, indent);
    assert forall|u: int| 0 <= u < n implies #[trigger] d2[u] == d[u] by {}
    assert forall|t: int| 1 <= t < n + 1 implies ((#[trigger] ts3[t]).parent matches Some(p) && p as int == last_at(
        d2,
        t,
        d2[t] - 1,
    )) by {
        if t < n {
            assert(ts3[t].parent == ts[t].parent);
            assert(ts[t].parent matches Some(p) && p as int == last_at(d, t, d[t] - 1));
            lemma_last_at_frame(d, d2, t, d[t] - 1);
        } else {
            lemma_last_at_frame(d, d2, n, indent);
        }
    }
    assert forall|x: int| 0 <= x <= d2[n] implies #[trigger] anc_at(ts3, d2, n, x) == last_at(d2, n + 1, x) by {
        if x != indent + 1 {
            lemma_last_at_frame(d, d2, n, x);
            assert(last_at(d2, n + 1, x) == last_at(d2, n, x));
            assert(anc_at(ts3, d2, n, x) == anc_at(ts3, d2, cp, x));
            assert forall|u: int| 0 <= u <= cp implies #[trigger] ts3[u].parent == ts[u].parent && d2[u] == d[u] by {}
            lemma_anc_frame(ts, ts3, d, d2, cp, x);
            lemma_nested_up(ts, d, cp0, li, indent, x);
        }
    }
    lemma_last_at_frame(d, d2, n, indent);
    assert(last_at(d2, n + 1, indent) == last_at(d2, n, indent));
}

} // verus!
