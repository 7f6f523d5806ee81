use vstd::prelude::*;

use crate::def::Def;
use crate::def::node::{GroupSimilar, ParamGroup};
use super::matching::{first_at, unnoted, key_of, may_skip};

verus! {

/// Whether value `i` parses with the type key `key`, by the first parse noted
/// for that key in `m`; `None` where none is noted.
pub open spec fn noted_parse<P>(m: Seq<Vec<(u64, Option<P>)>>, i: int, key: u64) -> Option<bool> {
    if exists|j: int| first_at(m[i]@, key, j) {
        let j = choose|j: int| first_at(m[i]@, key, j);
        Some(m[i]@[j].1 is Some)
    } else {
        None
    }
}

/// `m2` notes what `m1` notes, for each value, and perhaps more after it.
pub open spec fn memo_ext<P>(m1: Seq<Vec<(u64, Option<P>)>>, m2: Seq<Vec<(u64, Option<P>)>>) -> bool {
    &&& m1.len() == m2.len()
    &&& forall|i: int|
        #![trigger m2[i]]
        0 <= i < m1.len() ==> m1[i]@.len() <= m2[i]@.len() && m2[i]@.take(m1[i]@.len() as int) == m1[i]@
}

/// A group that would deal out its values with adjacent groups of its
/// pattern, were there such groups.
pub open spec fn may_share(g: ParamGroup) -> bool {
    g.similar != GroupSimilar::Neither && g.param_optional is None && (g.optional || g.repeat)
}

/// No group of the node deals out its values with others.
pub open spec fn plain_groups(groups: Seq<ParamGroup>) -> bool {
    forall|k: int| 0 <= k < groups.len() ==> !#[trigger] may_share(groups[k])
}

/// Reading group `g`'s parameters against the values from `rv` on, from
/// parameter `j`: where they stop, by the parses noted in `m`. They stop at
/// the first parameter that runs past the `n` values or whose value does not
/// parse, else after all of them; `None` where a parse needed is not noted.
pub open spec fn stop_at<F, P>(d: Def<F>, g: ParamGroup, rv: int, n: int, m: Seq<Vec<(u64, Option<P>)>>, j: int) -> Option<int>
    decreases g.params@.len() - j,
{
    if j >= g.params@.len() {
        Some(g.params@.len() as int)
    } else if rv + j >= n {
        Some(j)
    } else {
        match key_of(d, g, j) {
            Some(key) => match noted_parse(m, rv + j, key) {
                Some(true) => stop_at(d, g, rv, n, m, j + 1),
                Some(false) => Some(j),
                None => None,
            },
            None => stop_at(d, g, rv, n, m, j + 1),
        }
    }
}

/// How a group takes values: a run (whether it took any, and where it ends),
/// no fit, or a parse needed that is not noted.
pub enum Take {
    Took(bool, int),
    NoFit,
    Unnoted,
}

/// Group `g` takes values greedily from `rv` on (`took`: it took some
/// already): its parameters whole, again and again while it repeats and
/// values remain; where they stop short, it takes those read if they reach its
/// optional point or the values ran out after at least one; else it takes
/// nothing more, which fails unless it is optional or took some as it repeats.
pub open spec fn take_group<F, P>(d: Def<F>, g: ParamGroup, rv: int, n: int, m: Seq<Vec<(u64, Option<P>)>>, took: bool) -> Take
    decreases n - rv,
{
    let pn = g.params@.len() as int;
    if pn == 0 {
        Take::NoFit
    } else {
        match stop_at(d, g, rv, n, m, 0) {
            None => Take::Unnoted,
            Some(j) => if j == pn {
                if g.repeat && rv + pn < n {
                    take_group(d, g, rv + pn, n, m, true)
                } else {
                    Take::Took(true, rv + pn)
                }
            } else if (g.param_optional matches Some(po) && j >= po) || (rv + j == n && j > 0) {
                Take::Took(true, rv + j)
            } else if !g.optional && (!g.repeat || !took) {
                Take::NoFit
            } else {
                Take::Took(took, rv)
            },
        }
    }
}

/// How a record's values fit a node's groups: they fit, they do not, the node
/// has no groups for them, or a parse needed is not noted.
pub enum Reading {
    Fits,
    NoFit,
    Broken,
    Unnoted,
}

/// The node's `groups` from `gi` on take the values from `pos` to `n` in turn,
/// each greedily (see `take_group`). Once the values are used up, the rest of
/// the groups must be ones that may be left out; values left over with no
/// group to take them do not fit, or, where the node has no groups, are
/// values it cannot take.
#[verifier::opaque]
pub open spec fn read_groups<F, P>(d: Def<F>, groups: Seq<ParamGroup>, gi: int, pos: int, n: int, m: Seq<Vec<(u64, Option<P>)>>) -> Reading
    decreases groups.len() - gi,
{
    if pos >= n {
        if forall|k: int| gi <= k < groups.len() ==> #[trigger] may_skip(groups[k]) {
            Reading::Fits
        } else {
            Reading::NoFit
        }
    } else if gi >= groups.len() || gi < 0 {
        if gi == 0 {
            Reading::Broken
        } else {
            Reading::NoFit
        }
    } else if groups[gi].params@.len() == 0 {
        Reading::NoFit
    } else {
        match take_group(d, groups[gi], pos, n, m, false) {
            Take::Unnoted => Reading::Unnoted,
            Take::NoFit => Reading::NoFit,
            Take::Took(t, e) => read_groups(d, groups, gi + 1, if t {
                e
            } else {
                pos
            }, n, m),
        }
    }
}

/// Only the first entry for a key is the first.
pub proof fn lemma_first_at_unique<P>(row: Seq<(u64, Option<P>)>, key: u64, a: int, b: int)
    requires
        first_at(row, key, a),
        first_at(row, key, b),
    ensures
        a == b,
{
    if a < b {
        assert(row[a].0 != key);
    } else if b < a {
        assert(row[b].0 != key);
    }
}

/// A row in which `key` is noted has a first entry for it.
pub proof fn lemma_noted_first<P>(row: Seq<(u64, Option<P>)>, key: u64)
    requires
        !unnoted(row, key),
    ensures
        exists|j: int| first_at(row, key, j),
    decreases row.len(),
{
    let last = row.len() - 1;
    if unnoted(row.drop_last(), key) {
        assert(row[last].0 == key) by {
            let k = choose|k: int| 0 <= k < row.len() && row[k].0 == key;
            if k < last {
                assert(row.drop_last()[k].0 == key);
            }
        }
        assert(first_at(row, key, last)) by {
            assert forall|k: int| 0 <= k < last implies (#[trigger] row[k]).0 != key by {
                assert(row.drop_last()[k] == row[k]);
            }
        }
    } else {
        lemma_noted_first(row.drop_last(), key);
        let j = choose|j: int| first_at(row.drop_last(), key, j);
        assert(first_at(row, key, j)) by {
            assert forall|k: int| 0 <= k < j implies (#[trigger] row[k]).0 != key by {
                assert(row.drop_last()[k] == row[k]);
            }
        }
    }
}

/// What `m1` notes, `m2` notes the same where it notes on from `m1`.
pub proof fn lemma_ext_noted<P>(m1: Seq<Vec<(u64, Option<P>)>>, m2: Seq<Vec<(u64, Option<P>)>>, i: int, key: u64)
    requires
        memo_ext(m1, m2),
        0 <= i < m1.len(),
        noted_parse(m1, i, key) is Some,
    ensures
        noted_parse(m2, i, key) == noted_parse(m1, i, key),
{
    let j = choose|j: int| first_at(m1[i]@, key, j);
    assert(m2[i]@.take(m1[i]@.len() as int) == m1[i]@);
    assert(first_at(m2[i]@, key, j)) by {
        assert forall|k: int| 0 <= k < j implies (#[trigger] m2[i]@[k]).0 != key by {
            assert(m2[i]@[k] == m2[i]@.take(m1[i]@.len() as int)[k]);
        }
        assert(m2[i]@[j] == m2[i]@.take(m1[i]@.len() as int)[j]);
    }
    let j2 = choose|j2: int| first_at(m2[i]@, key, j2);
    lemma_first_at_unique(m2[i]@, key, j, j2);
    assert(m2[i]@[j] == m2[i]@.take(m1[i]@.len() as int)[j]);
}

/// Noting on is transitive.
pub proof fn lemma_ext_trans<P>(m1: Seq<Vec<(u64, Option<P>)>>, m2: Seq<Vec<(u64, Option<P>)>>, m3: Seq<Vec<(u64, Option<P>)>>)
    requires
        memo_ext(m1, m2),
        memo_ext(m2, m3),
    ensures
        memo_ext(m1, m3),
{
    assert forall|i: int| 0 <= i < m1.len() implies m1[i]@.len() <= m3[i]@.len() && #[trigger] m3[i]@.take(
        m1[i]@.len() as int,
    ) == m1[i]@ by {
        assert(m3[i]@.take(m2[i]@.len() as int) == m2[i]@);
        assert(m2[i]@.take(m1[i]@.len() as int) == m1[i]@);
        assert(m3[i]@.take(m1[i]@.len() as int) =~= m3[i]@.take(m2[i]@.len() as int).take(m1[i]@.len() as int));
    }
}

/// A memo notes on from itself.
pub proof fn lemma_ext_refl<P>(m: Seq<Vec<(u64, Option<P>)>>)
    ensures
        memo_ext(m, m),
{
    assert forall|i: int| 0 <= i < m.len() implies m[i]@.len() <= m[i]@.len() && #[trigger] m[i]@.take(m[i]@.len() as int) == m[i]@ by {
        assert(m[i]@.take(m[i]@.len() as int) =~= m[i]@);
    }
}

/// Trying the parse of value `i` for `key` (the row left as it was where
/// `key` was noted, else the new parse noted after it) notes on from the memo,
/// and notes for `key` the outcome `found`.
pub proof fn lemma_attempt_noted<P>(m0: Seq<Vec<(u64, Option<P>)>>, m1: Seq<Vec<(u64, Option<P>)>>, i: int, key: u64, found: bool)
    requires
        0 <= i < m0.len(),
        m1.len() == m0.len(),
        forall|k: int| 0 <= k < m0.len() && k != i ==> #[trigger] m1[k] == m0[k],
        forall|j: int| first_at(m0[i]@, key, j) ==> m1[i]@ == m0[i]@ && found == (m0[i]@[j].1 is Some),
        unnoted(m0[i]@, key) ==> m1[i]@ == m0[i]@.push((key, m1[i]@.last().1)) && found == (m1[i]@.last().1 is Some),
    ensures
        memo_ext(m0, m1),
        noted_parse(m1, i, key) == Some(found),
{
    assert forall|k: int| 0 <= k < m0.len() implies m0[k]@.len() <= m1[k]@.len() && #[trigger] m1[k]@.take(
        m0[k]@.len() as int,
    ) == m0[k]@ by {
        if k != i {
            assert(m1[k] == m0[k]);
            assert(m1[k]@.take(m0[k]@.len() as int) =~= m0[k]@);
        } else if unnoted(m0[i]@, key) {
            assert(m1[k]@.take(m0[k]@.len() as int) =~= m0[k]@);
        } else {
            lemma_noted_first(m0[i]@, key);
            assert(m1[k]@.take(m0[k]@.len() as int) =~= m0[k]@);
        }
    }
    if unnoted(m0[i]@, key) {
        let last = m0[i]@.len() as int;
        assert(first_at(m1[i]@, key, last)) by {
            assert forall|k: int| 0 <= k < last implies (#[trigger] m1[i]@[k]).0 != key by {
                assert(m1[i]@[k] == m0[i]@[k]);
            }
        }
        let j2 = choose|j2: int| first_at(m1[i]@, key, j2);
        lemma_first_at_unique(m1[i]@, key, last, j2);
    } else {
        lemma_noted_first(m0[i]@, key);
        let j = choose|j: int| first_at(m0[i]@, key, j);
        let j2 = choose|j2: int| first_at(m1[i]@, key, j2);
        lemma_first_at_unique(m1[i]@, key, j, j2);
    }
}

/// The groups read as values they cannot take only where there are no groups
/// at all and values are left.
pub proof fn lemma_broken_only_empty<F, P>(d: Def<F>, groups: Seq<ParamGroup>, gi: int, pos: int, n: int, m: Seq<Vec<(u64, Option<P>)>>)
    requires
        0 <= gi,
    ensures
        read_groups(d, groups, gi, pos, n, m) is Broken ==> gi == 0 && groups.len() == 0 && pos < n,
    decreases groups.len() - gi,
{
    reveal(read_groups);
    if pos < n && gi < groups.len() && groups[gi].params@.len() != 0 {
        if let Take::Took(t, e) = take_group(d, groups[gi], pos, n, m, false) {
            lemma_broken_only_empty(d, groups, gi + 1, if t {
                e
            } else {
                pos
            }, n, m);
        }
    }
}

} // verus!
