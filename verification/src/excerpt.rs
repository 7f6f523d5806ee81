use vstd::prelude::*;

use crate::lexer::Loc;
use crate::text::{str_to_chars, string_push};

verus! {

/// Where the first line feed at or after `p` stands in `s`, or the end.
pub open spec fn nl_from(s: Seq<char>, p: int) -> int
    decreases s.len() - p,
{
    if p < 0 || p >= s.len() {
        s.len() as int
    } else if s[p] == '\n' {
        p
    } else {
        nl_from(s, p + 1)
    }
}

/// Where line `n` of `s` starts, the lines counted as `str::lines` yields
/// them: each ends at a line feed, and none follows a last line feed.
pub open spec fn line_start(s: Seq<char>, n: nat) -> Option<int>
    decreases n,
{
    if n == 0 {
        if s.len() > 0 {
            Some(0)
        } else {
            None
        }
    } else {
        match line_start(s, (n - 1) as nat) {
            Some(p) => if nl_from(s, p) + 1 < s.len() {
                Some(nl_from(s, p) + 1)
            } else {
                None
            },
            None => None,
        }
    }
}

/// Line `n` of `s` as `str::lines` yields it: without its line feed, nor a
/// carriage return just before that line feed.
pub open spec fn line_at(s: Seq<char>, n: nat) -> Option<Seq<char>> {
    match line_start(s, n) {
        Some(p) => {
            let e = nl_from(s, p);
            let t = s.subrange(p, e);
            Some(
                if e < s.len() && t.len() > 0 && t.last() == '\r' {
                    t.drop_last()
                } else {
                    t
                },
            )
        },
        None => None,
    }
}

/// The excerpt of `s` that shows where `row` and `col` (counted from one)
/// stand: the line of that row, then a line of spaces up to the column,
/// with a caret under it; none where the source has no such line.
pub open spec fn excerpt_of(s: Seq<char>, row: usize, col: usize) -> Option<Seq<char>> {
    let n: nat = if row > 0 {
        (row - 1) as nat
    } else {
        0
    };
    let sp: nat = if col > 0 {
        (col - 1) as nat
    } else {
        0
    };
    match line_at(s, n) {
        Some(l) => Some(l + seq!['\n'] + Seq::new(sp, |i: int| ' ') + seq!['^']),
        None => None,
    }
}

/// Where there is no line `m`, there is no later one.
proof fn lemma_no_line_after(s: Seq<char>, m: nat, n: nat)
    requires
        line_start(s, m) is None,
        m <= n,
    ensures
        line_start(s, n) is None,
    decreases n - m,
{
    if m < n {
        lemma_no_line_after(s, m, (n - 1) as nat);
    }
}

/// A line feed at or after `p` stands no earlier than `p`.
proof fn lemma_nl_from_bounds(s: Seq<char>, p: int)
    requires
        0 <= p <= s.len(),
    ensures
        p <= nl_from(s, p) <= s.len(),
        nl_from(s, p) < s.len() ==> s[nl_from(s, p)] == '\n',
    decreases s.len() - p,
{
    if p < s.len() && s[p] != '\n' {
        lemma_nl_from_bounds(s, p + 1);
    }
}

/// The first line feed in `cs` at or after `p`, or the length.
fn find_nl(cs: &Vec<char>, p: usize) -> (e: usize)
    requires
        p <= cs@.len(),
    ensures
        e == nl_from(cs@, p as int),
{
    let mut i = p;
    while i < cs.len() && cs[i] != '\n'
        invariant
            p <= i <= cs@.len(),
            nl_from(cs@, p as int) == nl_from(cs@, i as int),
        decreases cs@.len() - i,
    {
        i = i + 1;
    }
    i
}

/// The excerpt of a source that shows a location (see `excerpt_of`): the
/// line of its row, then a caret under its column.
pub fn error_excerpt(src: &str, loc: Loc) -> (r: Option<String>)
    ensures
        (r is Some) == (excerpt_of(src@, loc.row, loc.col) is Some),
        r matches Some(x) ==> x@ == excerpt_of(src@, loc.row, loc.col)->0,
{
    let cs = str_to_chars(src);
    let ghost s = cs@;
    let n = cs.len();
    let target: usize = if loc.row > 0 {
        loc.row - 1
    } else {
        0
    };
    if n == 0 {
        proof {
            lemma_no_line_after(s, 0, target as nat);
        }
        return None;
    }
    let mut p: usize = 0;
    let mut k: usize = 0;
    while k < target
        invariant
            s == cs@,
            s == src@,
            target == (if loc.row > 0 { loc.row - 1 } else { 0 }),
            n == s.len(),
            k <= target,
            p < n,
            line_start(s, k as nat) == Some(p as int),
        decreases target - k,
    {
        let e = find_nl(&cs, p);
        proof {
            lemma_nl_from_bounds(s, p as int);
            assert(line_start(s, (k + 1) as nat) == (if e + 1 < n {
                Some(e + 1)
            } else {
                None::<int>
            }));
        }
        if e >= n || e + 1 >= n {
            proof {
                lemma_no_line_after(s, (k + 1) as nat, target as nat);
                assert(line_at(s, target as nat) is None);
                assert(src@ == s);
            }
            return None;
        }
        p = e + 1;
        k = k + 1;
    }
    let e = find_nl(&cs, p);
    proof {
        lemma_nl_from_bounds(s, p as int);
    }
    let mut end = e;
    if e < n && e > p && cs[e - 1] == '\r' {
        end = e - 1;
    }
    let ghost line = line_at(s, target as nat)->0;
    proof {
        let t = s.subrange(p as int, e as int);
        if e < n && e > p && s[e - 1] == '\r' {
            assert(t.last() == s[e - 1]);
            assert(line =~= s.subrange(p as int, end as int));
        } else {
            assert(line =~= s.subrange(p as int, end as int));
        }
    }
    let mut out = String::new();
    proof {
        assert(out@ =~= Seq::<char>::empty());
    }
    let mut i = p;
    while i < end
        invariant
            s == cs@,
            n == s.len(),
            p <= i <= end,
            end <= n,
            out@ =~= s.subrange(p as int, i as int),
        decreases end - i,
    {
        string_push(&mut out, cs[i]);
        i = i + 1;
        proof {
            assert(out@ =~= s.subrange(p as int, i as int));
        }
    }
    string_push(&mut out, '\n');
    let sp: usize = if loc.col > 0 {
        loc.col - 1
    } else {
        0
    };
    let ghost base = out@;
    let mut j: usize = 0;
    while j < sp
        invariant
            j <= sp,
            out@ =~= base + Seq::new(j as nat, |x: int| ' '),
        decreases sp - j,
    {
        string_push(&mut out, ' ');
        j = j + 1;
        proof {
            assert(out@ =~= base + Seq::new(j as nat, |x: int| ' '));
        }
    }
    string_push(&mut out, '^');
    proof {
        assert(out@ =~= line + seq!['\n'] + Seq::new(sp as nat, |x: int| ' ') + seq!['^']);
    }
    Some(out)
}

} // verus!
