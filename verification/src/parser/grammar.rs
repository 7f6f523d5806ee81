use vstd::prelude::*;

use crate::lexer::{Lexer, Token, matches_at, token_extended, first_match_from};
use crate::lexer::loc::{Loc, loc_advance, src_fits};
use crate::text::string_push;
use crate::paths::opt_path_to_buf;
use super::error::{ParseError, ParseErrorType};

use std::path::Path;

verus! {

// ---------------------------------------------------------------------------
// Frames of the lexer between grammar rules
// ---------------------------------------------------------------------------

/// Both lexers are in the same state.
pub open spec fn unchanged<'a>(a: &Lexer<'a>, b: &Lexer<'a>) -> bool {
    &&& a.stack() == b.stack()
    &&& a.labels() == b.labels()
    &&& a.debug_enabled() == b.debug_enabled()
}

/// `b` is `a` with only the read-ahead buffer of the current entry changed.
pub open spec fn buf_only<'a>(a: &Lexer<'a>, b: &Lexer<'a>) -> bool {
    &&& a.same_frame(b)
    &&& a.top_input().with_buf(&b.top_input())
    &&& a.top_token() == b.top_token()
}

pub proof fn lemma_loc_advance_concat(l: Loc, a: Seq<char>, b: Seq<char>)
    ensures
        loc_advance(loc_advance(l, a), b) == loc_advance(l, a + b),
    decreases b.len(),
{
    if b.len() == 0 {
        assert(a + b =~= a);
    } else {
        lemma_loc_advance_concat(l, a, b.drop_last());
        assert((a + b).drop_last() =~= a + b.drop_last());
        assert((a + b).last() == b.last());
    }
}

/// Reading `n` then `m` characters is reading `n + m` characters.
pub proof fn lemma_moved_trans<'a>(a: &Lexer<'a>, b: &Lexer<'a>, c: &Lexer<'a>, n: int, m: int)
    requires
        a.wf(),
        b.wf(),
        c.wf(),
        a.moved(b, n),
        b.moved(c, m),
    ensures
        a.moved(c, n + m),
{
    let s = a.src_seq();
    let p = a.pos();
    lemma_loc_advance_concat(a.spec_loc(), s.subrange(p, p + n), s.subrange(p + n, p + n + m));
    assert(s.subrange(p, p + n) + s.subrange(p + n, p + n + m) =~= s.subrange(p, p + n + m));
}

pub proof fn lemma_moved_zero<'a>(a: &Lexer<'a>, b: &Lexer<'a>)
    requires
        a.wf(),
        buf_only(a, b),
    ensures
        a.moved(b, 0),
{
    assert(a.src_seq().subrange(a.pos(), a.pos()) =~= Seq::<char>::empty());
}

/// Saving, moving on and keeping what was read moves the saved lexer on.
pub proof fn lemma_push_keep<'a>(a: &Lexer<'a>, b: &Lexer<'a>, c: &Lexer<'a>, d: &Lexer<'a>)
    requires
        a.wf(),
        c.wf(),
        b.stack() == a.stack().push(a.stack().last()),
        b.labels() == a.labels(),
        b.debug_enabled() == a.debug_enabled(),
        b.same_frame(c),
        d.stack() == c.stack().take(c.stack().len() - 2).push(c.stack().last()),
        d.labels() == c.labels(),
        d.debug_enabled() == c.debug_enabled(),
    ensures
        a.same_frame(d),
        d.top_input() == c.top_input(),
        d.top_token() == c.top_token(),
{
    let n = a.stack().len();
    assert(b.stack().drop_last() =~= a.stack());
    assert(c.stack().drop_last() == a.stack());
    assert(c.stack().take(n - 1) =~= a.stack().drop_last());
    assert(d.stack().drop_last() =~= a.stack().drop_last());
    if n > 1 {
        assert(d.stack()[0] == a.stack()[0]);
    } else {
        assert(d.stack()[0] == c.stack().last());
        assert(c.stack()[c.stack().len() - 1] == c.stack().last());
        assert(c.stack()[0] == b.stack()[0]);
    }
}

/// Saving, moving on and discarding what was read restores the lexer.
pub proof fn lemma_push_discard<'a>(a: &Lexer<'a>, b: &Lexer<'a>, c: &Lexer<'a>, d: &Lexer<'a>)
    requires
        a.wf(),
        b.stack() == a.stack().push(a.stack().last()),
        b.labels() == a.labels(),
        b.debug_enabled() == a.debug_enabled(),
        b.same_frame(c),
        d.stack() == c.stack().drop_last(),
        d.labels() == c.labels(),
        d.debug_enabled() == c.debug_enabled(),
    ensures
        unchanged(a, d),
{
    assert(b.stack().drop_last() =~= a.stack());
}

// ---------------------------------------------------------------------------
// Character classes and the lexical rules as functions of the source
// ---------------------------------------------------------------------------

pub open spec fn is_spc(c: char) -> bool {
    c == ' ' || c == '\t'
}

/// `spc => [\s\t]*`: the end of the run of spaces and tabs from `p`.
pub open spec fn spc_end(s: Seq<char>, p: int) -> int
    decreases s.len() - p,
{
    if 0 <= p < s.len() && is_spc(s[p]) {
        spc_end(s, p + 1)
    } else {
        p
    }
}

pub proof fn lemma_spc_end_bounds(s: Seq<char>, p: int)
    requires
        0 <= p <= s.len(),
    ensures
        p <= spc_end(s, p) <= s.len(),
    decreases s.len() - p,
{
    if p < s.len() && is_spc(s[p]) {
        lemma_spc_end_bounds(s, p + 1);
    }
}

/// `eol => [\n]|[\r][\n]`: the length of the line ending at `p`, or 0.
pub open spec fn eol_len(s: Seq<char>, p: int) -> int {
    if matches_at(s, p, seq!['\n']) {
        1
    } else if matches_at(s, p, seq!['\r', '\n']) {
        2
    } else {
        0
    }
}

/// `ending => spc? (eol|eof)`: where the ending that starts at `p` ends, if there is one.
pub open spec fn ending_end(s: Seq<char>, p: int) -> Option<int> {
    let q = spc_end(s, p);
    if eol_len(s, q) > 0 {
        Some(q + eol_len(s, q))
    } else if q == s.len() {
        Some(q)
    } else {
        None
    }
}

// ---------------------------------------------------------------------------
// Rules that only move the lexer
// ---------------------------------------------------------------------------

/// `spc => [\s\t]+`: skips spaces and tabs; returns whether there were any.
pub fn parse_spc(lexer: &mut Lexer) -> (r: bool)
    requires
        old(lexer).wf(),
    ensures
        final(lexer).wf(),
        old(lexer).moved(&*final(lexer), spc_end(old(lexer).src_seq(), old(lexer).pos()) - old(
            lexer,
        ).pos()),
        r == (spc_end(old(lexer).src_seq(), old(lexer).pos()) > old(lexer).pos()),
{
    let ghost s = lexer.src_seq();
    let ghost p = lexer.pos();
    let ghost start = *lexer;
    let mut found = false;
    proof {
        lemma_moved_zero(&start, &start);
    }
    loop
        invariant
            lexer.wf(),
            start.wf(),
            start.moved(&*lexer, lexer.pos() - p),
            s == start.src_seq(),
            p == start.pos(),
            spc_end(s, p) == spc_end(s, lexer.pos()),
            found == (lexer.pos() > p),
        ensures
            lexer.wf(),
            start.moved(&*lexer, lexer.pos() - p),
            spc_end(s, p) == lexer.pos(),
            found == (lexer.pos() > p),
        decreases lexer.rem(),
    {
        let ghost before = *lexer;
        let xs = [" ", "\t"];
        proof {
            reveal_strlit(" ");
            reveal_strlit("\t");
            assert(xs@[0]@ =~= seq![' ']);
            assert(xs@[1]@ =~= seq!['\t']);
        }
        match lexer.has(0, xs) {
            Some(x) => {
                let n = x.unicode_len();
                proof {
                    let k = choose|k: int| 0 <= k < 2 && x == #[trigger] xs@[k];
                    assert(k == 0 || k == 1);
                    assert(x@.len() == 1);
                    let q = before.pos();
                    assert(s.subrange(q, q + 1) == x@);
                    assert(s[q] == x@[0]);
                }
                lexer.skip(n);
                proof {
                    lemma_moved_trans(&start, &before, &*lexer, before.pos() - p, n as int);
                }
                found = true;
            },
            None => {
                proof {
                    let q = lexer.pos();
                    assert(!matches_at(s, q, xs@[0]@));
                    assert(!matches_at(s, q, xs@[1]@));
                    if 0 <= q < s.len() && is_spc(s[q]) {
                        assert(s.subrange(q, q + 1) =~= seq![s[q]]);
                    }
                }
                break;
            },
        }
    }
    found
}


/// `eol => [\n]|[\r][\n]`: skips a line ending; returns whether there was one.
pub fn parse_eol(lexer: &mut Lexer) -> (r: bool)
    requires
        old(lexer).wf(),
    ensures
        final(lexer).wf(),
        old(lexer).moved(&*final(lexer), eol_len(old(lexer).src_seq(), old(lexer).pos())),
        r == (eol_len(old(lexer).src_seq(), old(lexer).pos()) > 0),
{
    let ghost s = lexer.src_seq();
    let ghost p = lexer.pos();
    let ghost before = *lexer;
    let xs = ["\n", "\r\n"];
    proof {
        reveal_strlit("\n");
        reveal_strlit("\r\n");
        assert(xs@[0]@ =~= seq!['\n']);
        assert(xs@[1]@ =~= seq!['\r', '\n']);
    }
    match lexer.has(0, xs) {
        Some(x) => {
            let n = x.unicode_len();
            proof {
                let k = choose|k: int|
                    0 <= k < 2 && x == #[trigger] xs@[k] && forall|j: int|
                        0 <= j < k ==> !matches_at(s, p, (#[trigger] xs@[j])@);
                assert(k == 0 || k == 1);
                if k == 1 {
                    assert(!matches_at(s, p, xs@[0]@));
                }
                assert(n == eol_len(s, p));
            }
            lexer.skip(n);
            true
        },
        None => {
            proof {
                assert(!matches_at(s, p, xs@[0]@));
                assert(!matches_at(s, p, xs@[1]@));
                lemma_moved_zero(&before, &*lexer);
            }
            false
        },
    }
}

/// `ending => spc? (eol|eof)`: skips to the end of the line if only spaces and
/// tabs are left on it; otherwise leaves the lexer as it was.
pub fn parse_ending(lexer: &mut Lexer) -> (r: bool)
    requires
        old(lexer).wf(),
    ensures
        final(lexer).wf(),
        match ending_end(old(lexer).src_seq(), old(lexer).pos()) {
            Some(q) => r && old(lexer).moved(&*final(lexer), q - old(lexer).pos()),
            None => !r && unchanged(&*old(lexer), &*final(lexer)),
        },
{
    let ghost s = lexer.src_seq();
    let ghost p = lexer.pos();
    let ghost a = *lexer;
    lexer.push();
    let ghost b = *lexer;
    proof {
        lemma_moved_zero(&b, &b);
    }
    parse_spc(lexer);
    let ghost c1 = *lexer;
    let ghost q = spc_end(s, p);
    proof {
        lemma_spc_end_bounds(s, p);
    }
    let eol = parse_eol(lexer);
    let ghost c2 = *lexer;
    proof {
        lemma_moved_trans(&b, &c1, &c2, q - p, eol_len(s, q));
    }
    if !eol {
        let end = lexer.is_end();
        let ghost c3 = *lexer;
        proof {
            lemma_moved_zero(&c2, &c3);
            lemma_moved_trans(&b, &c2, &c3, q - p, 0);
        }
        if !end {
            lexer.pop_discard();
            proof {
                lemma_push_discard(&a, &b, &c3, &*lexer);
            }
            return false;
        }
        lexer.pop_keep();
        proof {
            lemma_push_keep(&a, &b, &c3, &*lexer);
        }
        return true;
    }
    lexer.pop_keep();
    proof {
        lemma_push_keep(&a, &b, &c2, &*lexer);
    }
    true
}

/// `sep => ([\s\t]|[\\]([\r][\n]|[\n]))+`: where the separator run from `p` ends.
pub open spec fn sep_end(s: Seq<char>, p: int) -> int
    decreases s.len() - p,
{
    if p < 0 || p >= s.len() {
        p
    } else if matches_at(s, p, seq![' ']) || matches_at(s, p, seq!['\t']) {
        sep_end(s, p + 1)
    } else if matches_at(s, p, seq!['\\', '\n']) {
        sep_end(s, p + 2)
    } else if matches_at(s, p, seq!['\\', '\r', '\n']) {
        sep_end(s, p + 3)
    } else {
        p
    }
}

/// Skips spaces, tabs and escaped line endings; returns whether there were any.
pub fn parse_sep(lexer: &mut Lexer) -> (r: bool)
    requires
        old(lexer).wf(),
    ensures
        final(lexer).wf(),
        old(lexer).moved(&*final(lexer), sep_end(old(lexer).src_seq(), old(lexer).pos()) - old(
            lexer,
        ).pos()),
        r == (sep_end(old(lexer).src_seq(), old(lexer).pos()) > old(lexer).pos()),
{
    let ghost s = lexer.src_seq();
    let ghost p = lexer.pos();
    let ghost start = *lexer;
    let mut found = false;
    proof {
        lemma_moved_zero(&start, &start);
    }
    loop
        invariant
            lexer.wf(),
            start.wf(),
            start.moved(&*lexer, lexer.pos() - p),
            s == start.src_seq(),
            p == start.pos(),
            sep_end(s, p) == sep_end(s, lexer.pos()),
            found == (lexer.pos() > p),
        ensures
            lexer.wf(),
            start.moved(&*lexer, lexer.pos() - p),
            sep_end(s, p) == lexer.pos(),
            found == (lexer.pos() > p),
        decreases lexer.rem(),
    {
        let ghost before = *lexer;
        let ghost q = lexer.pos();
        let xs = [" ", "\t", "\\\n", "\\\r\n"];
        proof {
            reveal_strlit(" ");
            reveal_strlit("\t");
            reveal_strlit("\\\n");
            reveal_strlit("\\\r\n");
            assert(xs@[0]@ =~= seq![' ']);
            assert(xs@[1]@ =~= seq!['\t']);
            assert(xs@[2]@ =~= seq!['\\', '\n']);
            assert(xs@[3]@ =~= seq!['\\', '\r', '\n']);
        }
        match lexer.has(0, xs) {
            Some(x) => {
                let n = x.unicode_len();
                proof {
                    let k = choose|k: int|
                        0 <= k < 4 && x == #[trigger] xs@[k] && forall|j: int|
                            0 <= j < k ==> !matches_at(s, q, (#[trigger] xs@[j])@);
                    assert(0 <= k < 4);
                    if k >= 1 {
                        assert(!matches_at(s, q, xs@[0]@));
                    }
                    if k >= 2 {
                        assert(!matches_at(s, q, xs@[1]@));
                    }
                    if k >= 3 {
                        assert(!matches_at(s, q, xs@[2]@));
                    }
                    assert(sep_end(s, q) == sep_end(s, q + n));
                }
                lexer.skip(n);
                proof {
                    lemma_moved_trans(&start, &before, &*lexer, q - p, n as int);
                }
                found = true;
            },
            None => {
                proof {
                    assert(!matches_at(s, q, xs@[0]@));
                    assert(!matches_at(s, q, xs@[1]@));
                    assert(!matches_at(s, q, xs@[2]@));
                    assert(!matches_at(s, q, xs@[3]@));
                }
                break;
            },
        }
    }
    found
}

/// The first position from `k` on that holds `\r` or `\n`, or the end.
pub open spec fn line_rest_end(s: Seq<char>, k: int) -> int
    decreases s.len() - k,
{
    if 0 <= k < s.len() && s[k] != '\r' && s[k] != '\n' {
        line_rest_end(s, k + 1)
    } else {
        k
    }
}

pub proof fn lemma_line_rest_end_bounds(s: Seq<char>, k: int)
    requires
        0 <= k <= s.len(),
    ensures
        k <= line_rest_end(s, k) <= s.len(),
    decreases s.len() - k,
{
    if k < s.len() && s[k] != '\r' && s[k] != '\n' {
        lemma_line_rest_end_bounds(s, k + 1);
    }
}

/// `cmnt => spc? [#] not_eols ending`: where the comment line from `p` ends, if it is one.
pub open spec fn cmnt_end(s: Seq<char>, p: int) -> Option<int> {
    let q = spc_end(s, p);
    if !matches_at(s, q, seq!['#']) {
        None
    } else {
        ending_end(s, line_rest_end(s, q + 1))
    }
}

/// Skips a comment line; otherwise leaves the lexer as it was.
pub fn parse_cmnt(lexer: &mut Lexer) -> (r: bool)
    requires
        old(lexer).wf(),
    ensures
        final(lexer).wf(),
        match cmnt_end(old(lexer).src_seq(), old(lexer).pos()) {
            Some(e) => r && old(lexer).moved(&*final(lexer), e - old(lexer).pos()),
            None => !r && unchanged(&*old(lexer), &*final(lexer)),
        },
{
    let ghost s = lexer.src_seq();
    let ghost p = lexer.pos();
    let ghost a = *lexer;
    lexer.push();
    let ghost b = *lexer;
    parse_spc(lexer);
    let ghost c1 = *lexer;
    let ghost q = spc_end(s, p);
    proof {
        lemma_spc_end_bounds(s, p);
    }
    let xs = ["#"];
    proof {
        reveal_strlit("#");
        assert(xs@[0]@ =~= seq!['#']);
    }
    if lexer.has(0, xs).is_none() {
        let ghost c2 = *lexer;
        proof {
            assert(!matches_at(s, q, xs@[0]@));
            lemma_moved_zero(&c1, &c2);
            lemma_moved_trans(&b, &c1, &c2, q - p, 0);
        }
        lexer.pop_discard();
        proof {
            lemma_push_discard(&a, &b, &c2, &*lexer);
        }
        return false;
    }
    proof {
        assert(matches_at(s, q, xs@[0]@));
    }
    let ghost c2 = *lexer;
    lexer.skip(1);
    proof {
        lemma_moved_trans(&b, &c2, &*lexer, q - p, 1);
        lemma_line_rest_end_bounds(s, q + 1);
    }
    loop
        invariant
            lexer.wf(),
            b.wf(),
            b.moved(&*lexer, lexer.pos() - p),
            s == b.src_seq(),
            p == b.pos(),
            q + 1 <= lexer.pos(),
            line_rest_end(s, q + 1) == line_rest_end(s, lexer.pos()),
        ensures
            lexer.wf(),
            b.moved(&*lexer, lexer.pos() - p),
            line_rest_end(s, q + 1) == lexer.pos(),
        decreases lexer.rem(),
    {
        let ghost before = *lexer;
        let ghost k = lexer.pos();
        let ys = ["\r", "\n"];
        proof {
            reveal_strlit("\r");
            reveal_strlit("\n");
            assert(ys@[0]@ =~= seq!['\r']);
            assert(ys@[1]@ =~= seq!['\n']);
        }
        if lexer.has(0, ys).is_some() {
            proof {
                let m = choose|m: int| 0 <= m < 2 && #[trigger] ys@[m] == ys@[m] && matches_at(
                    s,
                    k,
                    ys@[m]@,
                );
                assert(s[k] == '\r' || s[k] == '\n') by {
                    if matches_at(s, k, ys@[0]@) {
                        assert(s.subrange(k, k + 1)[0] == s[k]);
                    } else {
                        assert(s.subrange(k, k + 1)[0] == s[k]);
                    }
                }
            }
            break;
        }
        let ghost mid = *lexer;
        if lexer.skip(1).is_none() {
            proof {
                assert(!matches_at(s, k, ys@[0]@));
                assert(k == s.len());
                lemma_moved_zero(&before, &mid);
                lemma_moved_trans(&b, &before, &mid, k - p, 0);
            }
            break;
        }
        proof {
            assert(!matches_at(s, k, ys@[0]@));
            assert(!matches_at(s, k, ys@[1]@));
            assert(s.subrange(k, k + 1) =~= seq![s[k]]);
            lemma_moved_zero(&before, &mid);
            lemma_moved_trans(&b, &before, &mid, k - p, 0);
            lemma_moved_trans(&b, &mid, &*lexer, k - p, 1);
        }
    }
    let ghost c3 = *lexer;
    if !parse_ending(lexer) {
        let ghost c4 = *lexer;
        proof {
            lemma_moved_zero(&c3, &c4);
        }
        lexer.pop_discard();
        proof {
            lemma_moved_trans(&b, &c3, &c4, c3.pos() - p, 0);
            lemma_push_discard(&a, &b, &c4, &*lexer);
        }
        return false;
    }
    let ghost c4 = *lexer;
    proof {
        let e = ending_end(s, c3.pos()).unwrap();
        lemma_moved_trans(&b, &c3, &c4, c3.pos() - p, e - c3.pos());
    }
    lexer.pop_keep();
    proof {
        lemma_push_keep(&a, &b, &c4, &*lexer);
    }
    true
}


/// `b` is `a` moved `n` characters on, with what was read appended to the pending token.
pub open spec fn consumed<'a>(a: &Lexer<'a>, b: &Lexer<'a>, n: int, added: Seq<char>) -> bool {
    &&& a.same_frame(b)
    &&& 0 <= n <= a.rem()
    &&& b.pos() == a.pos() + n
    &&& b.spec_loc() == loc_advance(a.spec_loc(), a.src_seq().subrange(a.pos(), a.pos() + n))
    &&& token_extended(a.top_token(), a.spec_loc(), b.spec_loc(), added, b.top_token())
}

pub proof fn lemma_consumed_moved<'a>(a: &Lexer<'a>, b: &Lexer<'a>, c: &Lexer<'a>, n: int, m: int, x: Seq<char>)
    requires
        a.wf(),
        b.wf(),
        c.wf(),
        consumed(a, b, n, x),
        b.moved(c, m),
    ensures
        a.same_frame(c),
        c.pos() == a.pos() + n + m,
        c.spec_loc() == loc_advance(a.spec_loc(), a.src_seq().subrange(a.pos(), a.pos() + n + m)),
        token_extended(a.top_token(), a.spec_loc(), b.spec_loc(), x, c.top_token()),
{
    let s = a.src_seq();
    let p = a.pos();
    lemma_loc_advance_concat(a.spec_loc(), s.subrange(p, p + n), s.subrange(p + n, p + n + m));
    assert(s.subrange(p, p + n) + s.subrange(p + n, p + n + m) =~= s.subrange(p, p + n + m));
}

pub proof fn lemma_consumed_trans<'a>(a: &Lexer<'a>, b: &Lexer<'a>, c: &Lexer<'a>, n: int, m: int, x: Seq<char>, y: Seq<char>)
    requires
        a.wf(),
        b.wf(),
        c.wf(),
        consumed(a, b, n, x),
        consumed(b, c, m, y),
    ensures
        consumed(a, c, n + m, x + y),
{
    let s = a.src_seq();
    let p = a.pos();
    lemma_loc_advance_concat(a.spec_loc(), s.subrange(p, p + n), s.subrange(p + n, p + n + m));
    assert(s.subrange(p, p + n) + s.subrange(p + n, p + n + m) =~= s.subrange(p, p + n + m));
    let t0 = a.top_token();
    let e0 = match t0 {
        Some(t) => t.extracted@,
        None => Seq::<char>::empty(),
    };
    assert(c.top_token()->0.extracted@ =~= e0 + (x + y));
}

/// The first position from `k` on where a line ends, or the end.
pub open spec fn not_eol_end(s: Seq<char>, k: int) -> int
    decreases s.len() - k,
{
    if 0 <= k < s.len() && eol_len(s, k) == 0 {
        not_eol_end(s, k + 1)
    } else {
        k
    }
}

pub proof fn lemma_not_eol_end_bounds(s: Seq<char>, k: int)
    requires
        0 <= k <= s.len(),
    ensures
        k <= not_eol_end(s, k) <= s.len(),
        not_eol_end(s, k) == s.len() || eol_len(s, not_eol_end(s, k)) > 0,
    decreases s.len() - k,
{
    if k < s.len() && eol_len(s, k) == 0 {
        lemma_not_eol_end_bounds(s, k + 1);
    }
}

/// `not_eols => ^eol*`: reads up to the end of the line, discarding what was
/// read or appending it to the pending token; returns whether anything was read.
pub fn parse_not_eols(lexer: &mut Lexer, discard: bool) -> (r: bool)
    requires
        old(lexer).wf(),
    ensures
        final(lexer).wf(),
        ({
            let s = old(lexer).src_seq();
            let p = old(lexer).pos();
            let e = not_eol_end(s, p);
            &&& r == (e > p)
            &&& (discard || e == p) ==> old(lexer).moved(&*final(lexer), e - p)
            &&& (!discard && e > p) ==> consumed(
                &*old(lexer),
                &*final(lexer),
                e - p,
                s.subrange(p, e),
            )
        }),
{
    let ghost s = lexer.src_seq();
    let ghost p = lexer.pos();
    let ghost start = *lexer;
    let mut found = false;
    proof {
        lemma_moved_zero(&start, &start);
        lemma_not_eol_end_bounds(s, p);
    }
    loop
        invariant
            lexer.wf(),
            start.wf(),
            s == start.src_seq(),
            p == start.pos(),
            p <= lexer.pos(),
            not_eol_end(s, p) == not_eol_end(s, lexer.pos()),
            found == (lexer.pos() > p),
            (discard || !found) ==> start.moved(&*lexer, lexer.pos() - p),
            (!discard && found) ==> consumed(
                &start,
                &*lexer,
                lexer.pos() - p,
                s.subrange(p, lexer.pos()),
            ),
        ensures
            lexer.wf(),
            not_eol_end(s, p) == lexer.pos(),
            found == (lexer.pos() > p),
            (discard || !found) ==> start.moved(&*lexer, lexer.pos() - p),
            (!discard && found) ==> consumed(
                &start,
                &*lexer,
                lexer.pos() - p,
                s.subrange(p, lexer.pos()),
            ),
        decreases lexer.rem(),
    {
        let ghost before = *lexer;
        let ghost k = lexer.pos();
        let xs = ["\n", "\r\n"];
        proof {
            reveal_strlit("\n");
            reveal_strlit("\r\n");
            assert(xs@[0]@ =~= seq!['\n']);
            assert(xs@[1]@ =~= seq!['\r', '\n']);
        }
        if lexer.has(0, xs).is_some() {
            proof {
                assert(eol_len(s, k) > 0);
            }
            break;
        }
        let ghost b1 = *lexer;
        if lexer.is_end() {
            break;
        }
        let ghost b2 = *lexer;
        proof {
            assert(!matches_at(s, k, xs@[0]@));
            assert(!matches_at(s, k, xs@[1]@));
            assert(eol_len(s, k) == 0);
            lemma_moved_zero(&before, &b1);
            lemma_moved_zero(&b1, &b2);
        }
        if discard {
            lexer.skip(1);
            proof {
                lemma_moved_trans(&before, &b1, &b2, 0, 0);
                lemma_moved_trans(&start, &before, &b2, k - p, 0);
                lemma_moved_trans(&start, &b2, &*lexer, k - p, 1);
            }
        } else {
            lexer.consume(1, None);
            proof {
                lemma_moved_trans(&before, &b1, &b2, 0, 0);
                assert(consumed(&b2, &*lexer, 1, s.subrange(k, k + 1)));
                if found {
                    lemma_consumed_moved(&start, &before, &b2, k - p, 0, s.subrange(p, k));
                    assert(consumed(&start, &b2, k - p, s.subrange(p, k)));
                    lemma_consumed_trans(&start, &b2, &*lexer, k - p, 1, s.subrange(p, k), s.subrange(k, k + 1));
                    assert(s.subrange(p, k) + s.subrange(k, k + 1) =~= s.subrange(p, k + 1));
                } else {
                    assert(k == p);
                    lemma_moved_trans(&start, &before, &b2, 0, 0);
                    assert(s.subrange(p, k + 1) =~= s.subrange(k, k + 1));
                    assert(consumed(&start, &*lexer, 1, s.subrange(p, k + 1))) by {
                        lemma_loc_advance_concat(start.spec_loc(), s.subrange(p, p), s.subrange(p, p + 1));
                        assert(s.subrange(p, p) + s.subrange(p, p + 1) =~= s.subrange(p, p + 1));
                    }
                }
            }
        }
        found = true;
    }
    found
}


/// Scans a multi-line comment body from `k`: stops at `end` (or the end of the
/// source), stepping over an escape `\` followed by the first character of `end`.
pub open spec fn ml_scan(s: Seq<char>, k: int, end: Seq<char>) -> int
    decreases s.len() - k,
{
    if k < 0 || k > s.len() {
        k
    } else if k < s.len() && !matches_at(s, k, end) {
        ml_scan(s, k + 1, end)
    } else if end.len() > 0 && matches_at(s, k, seq!['\\']) && matches_at(s, k + 1, seq![end[0]]) {
        ml_scan(s, k + 2, end)
    } else {
        k
    }
}

pub proof fn lemma_ml_scan_bounds(s: Seq<char>, k: int, end: Seq<char>)
    requires
        0 <= k <= s.len(),
    ensures
        k <= ml_scan(s, k, end) <= s.len(),
    decreases s.len() - k,
{
    if k < s.len() && !matches_at(s, k, end) {
        lemma_ml_scan_bounds(s, k + 1, end);
    } else if end.len() > 0 && matches_at(s, k, seq!['\\']) && matches_at(s, k + 1, seq![end[0]]) {
        lemma_ml_scan_bounds(s, k + 2, end);
    }
}

/// `ml_cmnt => spc? start (^end|\end0)* end ending`: where the multi-line comment
/// from `p` ends, if it is one.
pub open spec fn ml_cmnt_end(s: Seq<char>, p: int, start: Seq<char>, end: Seq<char>) -> Option<int> {
    let q = spc_end(s, p);
    if !matches_at(s, q, start) {
        None
    } else {
        let k = ml_scan(s, q + 2, end);
        if !matches_at(s, k, end) {
            None
        } else {
            ending_end(s, k + 2)
        }
    }
}

/// Skips a multi-line comment delimited by `start` and `end` (two characters
/// each); otherwise leaves the lexer as it was.
pub fn parse_ml_cmnt(lexer: &mut Lexer, start: &str, end: &str) -> (r: bool)
    requires
        old(lexer).wf(),
        start@.len() == 2,
        end@.len() == 2,
    ensures
        final(lexer).wf(),
        match ml_cmnt_end(old(lexer).src_seq(), old(lexer).pos(), start@, end@) {
            Some(e) => r && old(lexer).moved(&*final(lexer), e - old(lexer).pos()),
            None => !r && unchanged(&*old(lexer), &*final(lexer)),
        },
{
    let ghost s = lexer.src_seq();
    let ghost p = lexer.pos();
    let ghost a = *lexer;
    lexer.push();
    let ghost b = *lexer;
    parse_spc(lexer);
    let ghost c1 = *lexer;
    let ghost q = spc_end(s, p);
    proof {
        lemma_spc_end_bounds(s, p);
    }
    if lexer.has(0, [start]).is_none() {
        let ghost c2 = *lexer;
        proof {
            lemma_moved_zero(&c1, &c2);
            lemma_moved_trans(&b, &c1, &c2, q - p, 0);
        }
        lexer.pop_discard();
        proof {
            lemma_push_discard(&a, &b, &c2, &*lexer);
        }
        return false;
    }
    let ghost c2 = *lexer;
    lexer.skip(2);
    proof {
        lemma_moved_trans(&b, &c2, &*lexer, q - p, 2);
        lemma_ml_scan_bounds(s, q + 2, end@);
    }
    let mut end0 = String::new();
    string_push(&mut end0, end.get_char(0));
    let ghost e0 = seq![end@[0]];
    loop
        invariant
            lexer.wf(),
            b.wf(),
            b.moved(&*lexer, lexer.pos() - p),
            s == b.src_seq(),
            p == b.pos(),
            q + 2 <= lexer.pos(),
            ml_scan(s, q + 2, end@) == ml_scan(s, lexer.pos(), end@),
            end0@ == e0,
            e0 == seq![end@[0]],
            end@.len() == 2,
        ensures
            lexer.wf(),
            b.moved(&*lexer, lexer.pos() - p),
            ml_scan(s, q + 2, end@) == lexer.pos(),
        decreases lexer.rem(),
    {
        let ghost before = *lexer;
        let ghost k = lexer.pos();
        if lexer.has(0, [end]).is_none() {
            let ghost mid = *lexer;
            if lexer.skip(1).is_some() {
                proof {
                    assert(!matches_at(s, k, end@));
                    lemma_moved_zero(&before, &mid);
                    lemma_moved_trans(&b, &before, &mid, k - p, 0);
                    lemma_moved_trans(&b, &mid, &*lexer, k - p, 1);
                }
                continue;
            }
            proof {
                assert(k == s.len());
            }
        }
        let ghost b1 = *lexer;
        let first_end = lexer.has(0, [end]).is_some();
        proof {
            if !first_end {
                assert(k == s.len());
            }
        }
        let ghost b2 = *lexer;
        let bs = ["\\"];
        proof {
            reveal_strlit("\\");
            assert(bs@[0]@ =~= seq!['\\']);
            lemma_moved_zero(&before, &b1);
            lemma_moved_zero(&b1, &b2);
            lemma_moved_trans(&before, &b1, &b2, 0, 0);
            lemma_moved_trans(&b, &before, &b2, k - p, 0);
        }
        if lexer.has(0, bs).is_some() {
            let ghost b3 = *lexer;
            if lexer.has(1, [end0.as_str()]).is_some() {
                let ghost b4 = *lexer;
                proof {
                    lemma_moved_zero(&b2, &b3);
                    lemma_moved_zero(&b3, &b4);
                    lemma_moved_trans(&b2, &b3, &b4, 0, 0);
                    lemma_moved_trans(&b, &b2, &b4, k - p, 0);
                }
                if lexer.skip(2).is_some() {
                    proof {
                        lemma_moved_trans(&b, &b4, &*lexer, k - p, 2);
                    }
                    continue;
                }
            }
        }
        proof {
            assert(ml_scan(s, k, end@) == k);
        }
        break;
    }
    let ghost c3 = *lexer;
    if lexer.has(0, [end]).is_none() {
        let ghost c4 = *lexer;
        proof {
            lemma_moved_zero(&c3, &c4);
            lemma_moved_trans(&b, &c3, &c4, c3.pos() - p, 0);
        }
        lexer.pop_discard();
        proof {
            lemma_push_discard(&a, &b, &c4, &*lexer);
        }
        return false;
    }
    let ghost c4 = *lexer;
    lexer.skip(2);
    let ghost c5 = *lexer;
    proof {
        lemma_moved_trans(&b, &c4, &c5, c3.pos() - p, 2);
    }
    if !parse_ending(lexer) {
        let ghost c6 = *lexer;
        proof {
            lemma_moved_zero(&c5, &c6);
            lemma_moved_trans(&b, &c5, &c6, c5.pos() - p, 0);
        }
        lexer.pop_discard();
        proof {
            lemma_push_discard(&a, &b, &c6, &*lexer);
        }
        return false;
    }
    let ghost c6 = *lexer;
    proof {
        let e = ending_end(s, c5.pos()).unwrap();
        lemma_moved_trans(&b, &c5, &c6, c5.pos() - p, e - c5.pos());
    }
    lexer.pop_keep();
    proof {
        lemma_push_keep(&a, &b, &c6, &*lexer);
    }
    true
}

/// `indent => [\s\t]*`: counts the spaces and tabs from `p` (a tab counts four),
/// stopping early in a body once past the indent that a body line needs.
/// Returns (characters scanned, spaces counted).
pub open spec fn indent_scan(s: Seq<char>, p: int, i: int, spcs: int, last: int, in_body: bool) -> (int, int)
    decreases s.len() - (p + i),
{
    if p + i < 0 || p + i >= s.len() || i < 0 {
        (i, spcs)
    } else if is_spc(s[p + i]) {
        let sp = spcs + if s[p + i] == '\t' {
            4int
        } else {
            1int
        };
        if in_body && sp >= last * 4 + 4 {
            (i + 1, sp)
        } else {
            indent_scan(s, p, i + 1, sp, last, in_body)
        }
    } else {
        (i, spcs)
    }
}

pub proof fn lemma_indent_scan_bounds(s: Seq<char>, p: int, i: int, spcs: int, last: int, in_body: bool)
    requires
        0 <= p,
        0 <= i,
        p + i <= s.len(),
        0 <= spcs <= 4 * i,
    ensures
        i <= indent_scan(s, p, i, spcs, last, in_body).0 <= s.len() - p,
        0 <= indent_scan(s, p, i, spcs, last, in_body).1 <= 4 * indent_scan(
            s,
            p,
            i,
            spcs,
            last,
            in_body,
        ).0,
    decreases s.len() - (p + i),
{
    if p + i < s.len() && is_spc(s[p + i]) {
        let sp = spcs + if s[p + i] == '\t' {
            4int
        } else {
            1int
        };
        if !(in_body && sp >= last * 4 + 4) {
            lemma_indent_scan_bounds(s, p, i + 1, sp, last, in_body);
        }
    }
}

/// Scanning a run of one indent character (`c`, a space or a tab) up to
/// position `n`, followed by no more of the indent, adds `w` per character.
proof fn lemma_indent_run(s: Seq<char>, p: int, i: int, n: int, spcs: int, last: int, c: char, w: int)
    requires
        0 <= p,
        0 <= i <= n,
        p + n <= s.len(),
        c == ' ' || c == '\t',
        w == if c == '\t' {
            4int
        } else {
            1int
        },
        forall|j: int| p + i <= j < p + n ==> s[j] == c,
        p + n == s.len() || !is_spc(s[p + n]),
    ensures
        indent_scan(s, p, i, spcs, last, false) == (n, spcs + (n - i) * w),
    decreases n - i,
{
    if i < n {
        lemma_indent_run(s, p, i + 1, n, spcs + w, last, c, w);
        assert(spcs + w + (n - (i + 1)) * w == spcs + (n - i) * w) by (nonlinear_arith);
    }
}

/// A tab in a line's indentation counts as four spaces: a record line indented
/// by `k` tabs reads at indent `k` (all `k` tabs taken as its indentation), as
/// one indented by `4k` spaces does.
pub proof fn law_tab_counts_four(pre: Seq<char>, k: nat, rest: Seq<char>, last: int)
    requires
        rest.len() == 0 || !is_spc(rest[0]),
    ensures
        indent_scan(pre + Seq::new(k, |i: int| '\t') + rest, pre.len() as int, 0, 0, last, false) == (k as int, 4 * k as int),
        record_indent(pre + Seq::new(k, |i: int| '\t') + rest, pre.len() as int, last) == k,
        indent_scan(pre + Seq::new(4 * k, |i: int| ' ') + rest, pre.len() as int, 0, 0, last, false) == (4 * k as int, 4 * k as int),
        record_indent(pre + Seq::new(4 * k, |i: int| ' ') + rest, pre.len() as int, last) == k,
{
    let p = pre.len() as int;
    let st = pre + Seq::new(k, |i: int| '\t') + rest;
    assert forall|j: int| p <= j < p + k implies st[j] == '\t' by {
        assert(st[j] == Seq::new(k, |i: int| '\t')[j - p]);
    }
    if rest.len() > 0 {
        assert(st[p + k] == rest[0]);
    }
    lemma_indent_run(st, p, 0, k as int, 0, last, '\t', 4);
    let ss = pre + Seq::new(4 * k, |i: int| ' ') + rest;
    assert forall|j: int| p <= j < p + 4 * k implies ss[j] == ' ' by {
        assert(ss[j] == Seq::new(4 * k, |i: int| ' ')[j - p]);
    }
    if rest.len() > 0 {
        assert(ss[p + 4 * k] == rest[0]);
    }
    lemma_indent_run(ss, p, 0, (4 * k) as int, 0, last, ' ', 1);
    assert((4 * k) / 4 == k);
}

/// Reads the indentation of a line. In a body, a line indented no deeper than
/// `last_indent` yields `Ok(0)` and moves nothing; otherwise the spaces and tabs
/// are read and the indent (spaces / 4) is checked.
pub fn parse_indent(lexer: &mut Lexer, last_indent: usize, in_body: bool, path: Option<&Path>) -> (r: Result<usize, ParseError>)
    requires
        old(lexer).wf(),
        last_indent <= old(lexer).src_seq().len(),
    ensures
        final(lexer).wf(),
        ({
            let s = old(lexer).src_seq();
            let p = old(lexer).pos();
            let (i, sp) = indent_scan(s, p, 0, 0, last_indent as int, in_body);
            let ind = sp / 4;
            if in_body && ind <= last_indent {
                r == Ok::<usize, ParseError>(0) && buf_only(&*old(lexer), &*final(lexer))
            } else {
                &&& old(lexer).moved(&*final(lexer), i)
                &&& sp % 4 != 0 ==> (r matches Err(e) && e.error_type is InvalidIndentIncrement
                    && e.loc == final(lexer).spec_loc() && (e.path is Some <==> path is Some))
                &&& (sp % 4 == 0 && ind > last_indent + 1) ==> (r matches Err(e)
                    && e.error_type is InvalidIndent && e.loc == final(lexer).spec_loc() && (
                e.path is Some <==> path is Some))
                &&& (sp % 4 == 0 && ind <= last_indent + 1) ==> r == Ok::<usize, ParseError>(
                    ind as usize,
                )
            }
        }),
{
    let ghost s = lexer.src_seq();
    let ghost p = lexer.pos();
    let ghost start = *lexer;
    let mut spcs: usize = 0;
    let mut i: usize = 0;
    proof {
        lemma_moved_zero(&start, &start);
        lemma_indent_scan_bounds(s, p, 0, 0, last_indent as int, in_body);
    }
    loop
        invariant_except_break
            indent_scan(s, p, 0, 0, last_indent as int, in_body) == indent_scan(
                s,
                p,
                i as int,
                spcs as int,
                last_indent as int,
                in_body,
            ),
        invariant
            lexer.wf(),
            start.wf(),
            s == start.src_seq(),
            p == start.pos(),
            buf_only(&start, &*lexer),
            src_fits(s),
            last_indent <= s.len(),
            0 <= i <= s.len() - p,
            spcs <= 4 * i,
            lexer.buf() >= i,
        ensures
            lexer.wf(),
            buf_only(&start, &*lexer),
            lexer.buf() >= i,
            spcs <= 4 * i,
            0 <= i <= s.len() - p,
            indent_scan(s, p, 0, 0, last_indent as int, in_body) == (i as int, spcs as int),
        decreases s.len() - p - i,
    {
        let ghost before = *lexer;
        let xs = [" ", "\t"];
        proof {
            reveal_strlit(" ");
            reveal_strlit("\t");
            assert(xs@[0]@ =~= seq![' ']);
            assert(xs@[1]@ =~= seq!['\t']);
        }
        match lexer.has(i, xs) {
            Some(x) => {
                let c = x.get_char(0);
                proof {
                    let k = choose|k: int|
                        0 <= k < 2 && x == #[trigger] xs@[k] && forall|j: int|
                            0 <= j < k ==> !matches_at(s, p + i, (#[trigger] xs@[j])@);
                    assert(k == 0 || k == 1);
                    assert(s.subrange(p + i, p + i + 1) == x@);
                    assert(s[p + i] == x@[0]);
                    assert(is_spc(s[p + i]));
                }
                let ghost i0 = i as int;
                let ghost sp0 = spcs as int;
                if c == '\t' {
                    spcs = spcs + 4;
                } else {
                    spcs = spcs + 1;
                }
                i = i + 1;
                proof {
                    assert(indent_scan(s, p, i0, sp0, last_indent as int, in_body) == if in_body
                        && spcs >= last_indent * 4 + 4 {
                        (i as int, spcs as int)
                    } else {
                        indent_scan(s, p, i as int, spcs as int, last_indent as int, in_body)
                    });
                }
                if in_body && spcs >= last_indent * 4 + 4 {
                    break;
                }
            },
            None => {
                proof {
                    assert(!matches_at(s, p + i, xs@[0]@));
                    assert(!matches_at(s, p + i, xs@[1]@));
                    if p + i < s.len() && is_spc(s[p + i]) {
                        assert(s.subrange(p + i, p + i + 1) =~= seq![s[p + i]]);
                    }
                }
                break;
            },
        }
    }
    let indent = spcs / 4;
    if in_body && indent <= last_indent {
        return Ok(0);
    }
    let ghost before_skip = *lexer;
    lexer.skip(i);
    proof {
        lemma_moved_zero(&start, &before_skip);
        lemma_moved_trans(&start, &before_skip, &*lexer, 0, i as int);
    }
    if spcs % 4 != 0 {
        Err(ParseError {
            path: opt_path_to_buf(path),
            loc: lexer.loc(),
            error_type: ParseErrorType::InvalidIndentIncrement,
        })
    } else if indent > last_indent + 1 {
        Err(ParseError {
            path: opt_path_to_buf(path),
            loc: lexer.loc(),
            error_type: ParseErrorType::InvalidIndent,
        })
    } else {
        Ok(indent)
    }
}


/// What a value scan has read into the token so far: the characters added,
/// where the first addition started, and where the last one ended.
pub type ScanAcc = (Seq<char>, Option<int>, int);

pub open spec fn acc_step(acc: ScanAcc, k: int, k2: int, add: Seq<char>) -> ScanAcc {
    (
        acc.0 + add,
        if acc.1 is None {
            Some(k)
        } else {
            acc.1
        },
        k2,
    )
}

pub open spec fn acc_init(p: int) -> ScanAcc {
    (Seq::<char>::empty(), None, p)
}

/// The location after reading from `p` up to `j`.
pub open spec fn loc_at(l0: Loc, s: Seq<char>, p: int, j: int) -> Loc {
    loc_advance(l0, s.subrange(p, j))
}

pub proof fn lemma_loc_at_step(l0: Loc, s: Seq<char>, p: int, k: int, n: int)
    requires
        0 <= p <= k,
        0 <= n,
        k + n <= s.len(),
    ensures
        loc_advance(loc_at(l0, s, p, k), s.subrange(k, k + n)) == loc_at(l0, s, p, k + n),
{
    lemma_loc_advance_concat(l0, s.subrange(p, k), s.subrange(k, k + n));
    assert(s.subrange(p, k) + s.subrange(k, k + n) =~= s.subrange(p, k + n));
}

/// The pending token `t` relates to the scan so far as `acc` says.
pub open spec fn token_follows(t0: Option<Token>, l0: Loc, s: Seq<char>, p: int, acc: ScanAcc, t: Option<Token>) -> bool {
    &&& acc.1 is None ==> t == t0 && acc.0 == Seq::<char>::empty()
    &&& acc.1 matches Some(f) ==> token_extended(
        t0,
        loc_at(l0, s, p, f),
        loc_at(l0, s, p, acc.2),
        acc.0,
        t,
    )
}

pub proof fn lemma_token_follows_step(t0: Option<Token>, l0: Loc, s: Seq<char>, p: int, acc: ScanAcc, t: Option<Token>, k: int, k2: int, add: Seq<char>, t2: Option<Token>)
    requires
        token_follows(t0, l0, s, p, acc, t),
        token_extended(t, loc_at(l0, s, p, k), loc_at(l0, s, p, k2), add, t2),
    ensures
        token_follows(t0, l0, s, p, acc_step(acc, k, k2, add), t2),
{
    if acc.1 is Some {
        let e0 = match t0 {
            Some(t) => t.extracted@,
            None => Seq::<char>::empty(),
        };
        assert(t2->0.extracted@ =~= e0 + (acc.0 + add));
    } else {
        assert(acc.0 + add =~= add);
    }
}


/// What an escaped space, tab or backslash adds to a value: spaces and tabs
/// stand for themselves, a backslash keeps its escape.
pub open spec fn sval_escape_add(x: char) -> Seq<char> {
    if x == '\\' {
        seq!['\\', '\\']
    } else {
        seq![x]
    }
}

pub open spec fn is_val_break(s: Seq<char>, k: int) -> bool {
    s[k] == ' ' || s[k] == '\t' || s[k] == '\n' || matches_at(s, k, seq!['\r', '\n'])
}

/// One step of an unquoted value from `k`: where it ends and what it adds to
/// the value (`None` for an escaped line ending, which adds nothing); `None`
/// where the value stops.
pub open spec fn sval_step(s: Seq<char>, k: int, qs: Seq<Seq<char>>) -> Option<(int, Option<Seq<char>>)> {
    if k < 0 || k >= s.len() {
        None
    } else if s[k] == '\\' && k + 1 < s.len() && (s[k + 1] == ' ' || s[k + 1] == '\t' || s[k + 1]
        == '\\') {
        Some((k + 2, Some(sval_escape_add(s[k + 1]))))
    } else if s[k] == '\\' && eol_len(s, k + 1) > 0 {
        Some((k + 1 + eol_len(s, k + 1), None))
    } else if s[k] == '\\' && first_match_from(s, k + 1, qs, 0) is Some {
        let m = first_match_from(s, k + 1, qs, 0)->0;
        Some((k + 1 + qs[m].len(), Some(qs[m])))
    } else if !is_val_break(s, k) {
        Some((k + 1, Some(seq![s[k]])))
    } else {
        None
    }
}

pub proof fn lemma_sval_step_bounds(s: Seq<char>, k: int, qs: Seq<Seq<char>>)
    ensures
        sval_step(s, k, qs) matches Some((k2, _)) ==> 0 <= k < k2 <= s.len(),
{
    if 0 <= k < s.len() && s[k] == '\\' && !(k + 1 < s.len() && (s[k + 1] == ' ' || s[k + 1]
        == '\t' || s[k + 1] == '\\')) && !(eol_len(s, k + 1) > 0) && first_match_from(
        s,
        k + 1,
        qs,
        0,
    ) is Some {
        crate::lexer::lemma_first_match_bounds(s, k + 1, qs, 0);
    }
}

/// `s_val => ([\\]([\s\t\\]|eol|quote)|[^\s\t\n])+`: scans an unquoted value from
/// `k`. Escaped spaces, tabs and quotes stand for themselves, an escaped line
/// ending continues the value on the next line and adds nothing.
pub open spec fn sval_scan(s: Seq<char>, k: int, qs: Seq<Seq<char>>, acc: ScanAcc) -> (int, ScanAcc)
    decreases s.len() - k,
{
    match sval_step(s, k, qs) {
        Some((k2, add)) => if k < k2 <= s.len() {
            match add {
                Some(a) => sval_scan(s, k2, qs, acc_step(acc, k, k2, a)),
                None => sval_scan(s, k2, qs, acc),
            }
        } else {
            (k, acc)
        },
        None => (k, acc),
    }
}

/// Reads one step of an unquoted value, as `sval_step` says.
fn parse_sval_step<const Q: usize>(lexer: &mut Lexer, quotes: [&str; Q]) -> (r: bool)
    requires
        old(lexer).wf(),
        forall|k: int| 0 <= k < Q ==> 1 + (#[trigger] quotes@[k])@.len() <= usize::MAX,
    ensures
        final(lexer).wf(),
        ({
            let qs = quotes@.map_values(|x: &str| x@);
            let s = old(lexer).src_seq();
            let k = old(lexer).pos();
            match sval_step(s, k, qs) {
                None => !r && buf_only(&*old(lexer), &*final(lexer)),
                Some((k2, None)) => r && old(lexer).moved(&*final(lexer), k2 - k),
                Some((k2, Some(add))) => r && consumed(&*old(lexer), &*final(lexer), k2 - k, add),
            }
        }),
{
    let ghost s = lexer.src_seq();
    let ghost k = lexer.pos();
    let ghost qs = quotes@.map_values(|x: &str| x@);
    let ghost start = *lexer;
    let bs = ["\\"];
    proof {
        reveal_strlit("\\");
        assert(bs@[0]@ =~= seq!['\\']);
    }
    if lexer.has(0, bs).is_some() {
        proof {
            assert(s.subrange(k, k + 1)[0] == s[k]);
            assert(s[k] == '\\');
        }
        let e1 = [" ", "\t", "\\"];
        proof {
            reveal_strlit(" ");
            reveal_strlit("\t");
            assert(e1@[0]@ =~= seq![' ']);
            assert(e1@[1]@ =~= seq!['\t']);
            assert(e1@[2]@ =~= seq!['\\']);
        }
        if let Some(x) = lexer.has(1, e1) {
            let n = x.unicode_len();
            let c = x.get_char(0);
            proof {
                let j = choose|j: int|
                    0 <= j < 3 && x == #[trigger] e1@[j] && forall|i: int|
                        0 <= i < j ==> !matches_at(s, k + 1, (#[trigger] e1@[i])@);
                assert(j == 0 || j == 1 || j == 2);
                assert(n == 1);
                assert(s.subrange(k + 1, k + 2)[0] == s[k + 1]);
                assert(s[k + 1] == c);
            }
            let rep = if c != '\\' {
                Some(x)
            } else {
                None
            };
            let ghost b2 = *lexer;
            lexer.consume(1 + n, rep);
            proof {
                let add = sval_escape_add(s[k + 1]);
                assert(match rep {
                    Some(x) => x@,
                    None => s.subrange(k, k + 2),
                } =~= add);
            }
            return true;
        }
        let e2 = ["\n", "\r\n"];
        proof {
            assert(!matches_at(s, k + 1, e1@[0]@));
            assert(!matches_at(s, k + 1, e1@[1]@));
            assert(!matches_at(s, k + 1, e1@[2]@));
            if k + 1 < s.len() {
                assert(s.subrange(k + 1, k + 2) =~= seq![s[k + 1]]);
            }
            reveal_strlit("\n");
            reveal_strlit("\r\n");
            assert(e2@[0]@ =~= seq!['\n']);
            assert(e2@[1]@ =~= seq!['\r', '\n']);
        }
        if let Some(x) = lexer.has(1, e2) {
            let n = x.unicode_len();
            proof {
                let j = choose|j: int|
                    0 <= j < 2 && x == #[trigger] e2@[j] && forall|i: int|
                        0 <= i < j ==> !matches_at(s, k + 1, (#[trigger] e2@[i])@);
                assert(j == 0 || j == 1);
                if j == 1 {
                    assert(!matches_at(s, k + 1, e2@[0]@));
                }
                assert(n == eol_len(s, k + 1));
            }
            let ghost b2 = *lexer;
            lexer.skip(1 + n);
            proof {
                lemma_moved_zero(&start, &b2);
                lemma_moved_trans(&start, &b2, &*lexer, 0, 1 + n);
            }
            return true;
        }
        proof {
            assert(!matches_at(s, k + 1, e2@[0]@));
            assert(!matches_at(s, k + 1, e2@[1]@));
            assert(eol_len(s, k + 1) == 0);
        }
        if let Some(x) = lexer.has(1, quotes) {
            let n = x.unicode_len();
            proof {
                let j = choose|j: int|
                    0 <= j < Q && x == #[trigger] quotes@[j] && forall|i: int|
                        0 <= i < j ==> !matches_at(s, k + 1, (#[trigger] quotes@[i])@);
                assert(qs[j] == x@);
                assert forall|i: int| 0 <= i < j implies !matches_at(s, k + 1, #[trigger] qs[i]) by {
                    assert(qs[i] == quotes@[i]@);
                }
                crate::lexer::lemma_first_match_skip(s, k + 1, qs, 0, j);
                assert(first_match_from(s, k + 1, qs, 0) == Some(j));
            }
            lexer.consume(1 + n, Some(x));
            return true;
        }
        proof {
            assert forall|i: int| 0 <= i < Q implies !matches_at(s, k + 1, #[trigger] qs[i]) by {
                assert(qs[i] == quotes@[i]@);
            }
            crate::lexer::lemma_first_match_skip(s, k + 1, qs, 0, Q as int);
        }
    }
    let ws = [" ", "\t", "\n", "\r\n"];
    proof {
        reveal_strlit(" ");
        reveal_strlit("\t");
        reveal_strlit("\n");
        reveal_strlit("\r\n");
        assert(ws@[0]@ =~= seq![' ']);
        assert(ws@[1]@ =~= seq!['\t']);
        assert(ws@[2]@ =~= seq!['\n']);
        assert(ws@[3]@ =~= seq!['\r', '\n']);
    }
    let ghost b1 = *lexer;
    if let Some(w) = lexer.has(0, ws) {
        proof {
            let j = choose|j: int|
                0 <= j < 4 && w == #[trigger] ws@[j] && forall|i: int|
                    0 <= i < j ==> !matches_at(s, k, (#[trigger] ws@[i])@);
            assert(0 <= j < 4);
            assert(matches_at(s, k, ws@[j]@));
            assert(s.subrange(k, k + ws@[j]@.len())[0] == s[k]);
            assert(is_val_break(s, k));
        }
        return false;
    }
    let ghost b2 = *lexer;
    proof {
        assert(!matches_at(s, k, ws@[0]@));
        assert(!matches_at(s, k, ws@[1]@));
        assert(!matches_at(s, k, ws@[2]@));
        assert(!matches_at(s, k, ws@[3]@));
        if k < s.len() {
            assert(s.subrange(k, k + 1) =~= seq![s[k]]);
            assert(!is_val_break(s, k));
        }
    }
    if lexer.consume(1, None).is_some() {
        proof {
            assert(s.subrange(k, k + 1) =~= seq![s[k]]);
        }
        return true;
    }
    proof {
        assert(k == s.len());
    }
    false
}

/// The lexer's position, location and token after a value scan from `p` that
/// stopped at `e` with `acc`, relative to the lexer `a` before the scan.
pub open spec fn scanned<'a>(a: &Lexer<'a>, b: &Lexer<'a>, e: int, acc: ScanAcc) -> bool {
    let s = a.src_seq();
    let p = a.pos();
    &&& a.same_frame(b)
    &&& p <= e <= s.len()
    &&& b.pos() == e
    &&& b.spec_loc() == loc_at(a.spec_loc(), s, p, e)
    &&& token_follows(a.top_token(), a.spec_loc(), s, p, acc, b.top_token())
}

/// Reads an unquoted value; returns whether anything was read.
pub fn parse_sval<const Q: usize>(lexer: &mut Lexer, quotes: [&str; Q]) -> (r: bool)
    requires
        old(lexer).wf(),
        forall|k: int| 0 <= k < Q ==> 1 + (#[trigger] quotes@[k])@.len() <= usize::MAX,
    ensures
        final(lexer).wf(),
        ({
            let qs = quotes@.map_values(|x: &str| x@);
            let (e, acc) = sval_scan(old(lexer).src_seq(), old(lexer).pos(), qs, acc_init(old(lexer).pos()));
            &&& scanned(&*old(lexer), &*final(lexer), e, acc)
            &&& r == (e > old(lexer).pos())
        }),
{
    let ghost s = lexer.src_seq();
    let ghost p = lexer.pos();
    let ghost start = *lexer;
    let ghost l0 = lexer.spec_loc();
    let ghost qs = quotes@.map_values(|x: &str| x@);
    let ghost mut acc = acc_init(p);
    let mut found = false;
    proof {
        assert(s.subrange(p, p) =~= Seq::<char>::empty());
    }
    loop
        invariant
            lexer.wf(),
            start.wf(),
            start.same_frame(&*lexer),
            s == start.src_seq(),
            p == start.pos(),
            l0 == start.spec_loc(),
            p <= lexer.pos() <= s.len(),
            lexer.spec_loc() == loc_at(l0, s, p, lexer.pos()),
            sval_scan(s, p, qs, acc_init(p)) == sval_scan(s, lexer.pos(), qs, acc),
            token_follows(start.top_token(), l0, s, p, acc, lexer.top_token()),
            found == (lexer.pos() > p),
            qs == quotes@.map_values(|x: &str| x@),
            forall|m: int| 0 <= m < Q ==> 1 + (#[trigger] quotes@[m])@.len() <= usize::MAX,
        ensures
            lexer.wf(),
            start.same_frame(&*lexer),
            p <= lexer.pos() <= s.len(),
            lexer.spec_loc() == loc_at(l0, s, p, lexer.pos()),
            sval_scan(s, p, qs, acc_init(p)) == (lexer.pos() as int, acc),
            token_follows(start.top_token(), l0, s, p, acc, lexer.top_token()),
            found == (lexer.pos() > p),
        decreases lexer.rem(),
    {
        let ghost before = *lexer;
        let ghost k = lexer.pos();
        proof {
            lemma_sval_step_bounds(s, k, qs);
        }
        if !parse_sval_step(lexer, quotes) {
            break;
        }
        proof {
            let (k2, add) = sval_step(s, k, qs)->0;
            lemma_loc_at_step(l0, s, p, k, k2 - k);
            match add {
                Some(a) => {
                    lemma_token_follows_step(start.top_token(), l0, s, p, acc, before.top_token(), k, k2, a, lexer.top_token());
                    acc = acc_step(acc, k, k2, a);
                },
                None => {},
            }
        }
        found = true;
    }
    found
}


/// One step inside a quoted value from `k`: an escaped backslash is kept as
/// is, an escaped quote stands for the quote, any other character but the
/// quote stands for itself. `None` where the value stops.
pub open spec fn qval_step(s: Seq<char>, k: int, quote: Seq<char>) -> Option<(int, Seq<char>)> {
    let esc = seq![seq!['\\'], quote];
    if k < 0 || k >= s.len() {
        None
    } else if s[k] == '\\' && first_match_from(s, k + 1, esc, 0) is Some {
        let x = esc[first_match_from(s, k + 1, esc, 0)->0];
        Some(
            (
                k + 1 + x.len(),
                if x == quote {
                    quote
                } else {
                    s.subrange(k, k + 1 + x.len())
                },
            ),
        )
    } else if !matches_at(s, k, quote) {
        Some((k + 1, seq![s[k]]))
    } else {
        None
    }
}

pub proof fn lemma_qval_step_bounds(s: Seq<char>, k: int, quote: Seq<char>)
    ensures
        qval_step(s, k, quote) matches Some((k2, _)) ==> 0 <= k < k2 <= s.len(),
{
    let esc = seq![seq!['\\'], quote];
    crate::lexer::lemma_first_match_bounds(s, k + 1, esc, 0);
}

pub open spec fn qval_scan(s: Seq<char>, k: int, quote: Seq<char>, acc: ScanAcc) -> (int, ScanAcc)
    decreases s.len() - k,
{
    match qval_step(s, k, quote) {
        Some((k2, add)) => if k < k2 <= s.len() {
            qval_scan(s, k2, quote, acc_step(acc, k, k2, add))
        } else {
            (k, acc)
        },
        None => (k, acc),
    }
}

/// The delimiter of a quoted value: the quote, or three of it.
pub open spec fn quote_delim(quote: Seq<char>, tripple: bool) -> Seq<char> {
    if tripple {
        quote + quote + quote
    } else {
        quote
    }
}

fn parse_qval_step(lexer: &mut Lexer, quote: &str) -> (r: bool)
    requires
        old(lexer).wf(),
        quote@.len() <= isize::MAX,
    ensures
        final(lexer).wf(),
        match qval_step(old(lexer).src_seq(), old(lexer).pos(), quote@) {
            None => !r && buf_only(&*old(lexer), &*final(lexer)),
            Some((k2, add)) => r && consumed(&*old(lexer), &*final(lexer), k2 - old(lexer).pos(), add),
        },
{
    let ghost s = lexer.src_seq();
    let ghost k = lexer.pos();
    let ghost esc = seq![seq!['\\'], quote@];
    let bs = ["\\"];
    proof {
        reveal_strlit("\\");
        assert(bs@[0]@ =~= seq!['\\']);
    }
    if lexer.has(0, bs).is_some() {
        proof {
            assert(s.subrange(k, k + 1)[0] == s[k]);
        }
        let e1 = ["\\", quote];
        proof {
            assert(e1@[0]@ =~= seq!['\\']);
            assert(e1@.map_values(|x: &str| x@) =~= esc);
        }
        if let Some(x) = lexer.has(1, e1) {
            let n = x.unicode_len();
            proof {
                let j = choose|j: int|
                    0 <= j < 2 && x == #[trigger] e1@[j] && forall|i: int|
                        0 <= i < j ==> !matches_at(s, k + 1, (#[trigger] e1@[i])@);
                assert(esc[j] == x@);
                if j == 1 {
                    assert(!matches_at(s, k + 1, esc[0]));
                }
                crate::lexer::lemma_first_match_skip(s, k + 1, esc, 0, j);
                assert(first_match_from(s, k + 1, esc, 0) == Some(j));
            }
            let is_quote = crate::text::str_eq(x, quote);
            let rep = if is_quote {
                Some(x)
            } else {
                None
            };
            lexer.consume(1 + n, rep);
            return true;
        }
        proof {
            assert(!matches_at(s, k + 1, esc[0]));
            assert(!matches_at(s, k + 1, esc[1]));
            crate::lexer::lemma_first_match_skip(s, k + 1, esc, 0, 2);
        }
    } else {
        proof {
            if k < s.len() {
                assert(s.subrange(k, k + 1) =~= seq![s[k]]);
                assert(s[k] != '\\');
            }
        }
    }
    let ghost b1 = *lexer;
    let qs1 = [quote];
    if let Some(x) = lexer.has(0, qs1) {
        proof {
            let j = choose|j: int|
                0 <= j < 1 && x == #[trigger] qs1@[j] && forall|i: int|
                    0 <= i < j ==> !matches_at(s, k, (#[trigger] qs1@[i])@);
            assert(j == 0);
            assert(matches_at(s, k, quote@));
        }
        return false;
    }
    proof {
        assert(!matches_at(s, k, qs1@[0]@));
        if quote@.len() == 0 {
            assert(s.subrange(k, k) =~= quote@);
        }
    }
    let ghost b2 = *lexer;
    if lexer.consume(1, None).is_some() {
        proof {
            assert(s.subrange(k, k + 1) =~= seq![s[k]]);
        }
        return true;
    }
    proof {
        assert(k == s.len());
    }
    false
}

/// `q_val => quote ([\\]([\\]|quote)|^quote)* quote`: reads a quoted value
/// delimited by `quote` (tripled if `tripple`). `Ok(false)` if no such value
/// starts here; an error if it is not closed.
pub fn parse_qval(lexer: &mut Lexer, quote: &str, tripple: bool, path: Option<&Path>) -> (r: Result<bool, ParseError>)
    requires
        old(lexer).wf(),
        quote@.len() <= isize::MAX,
        tripple ==> 3 * quote@.len() <= isize::MAX,
    ensures
        final(lexer).wf(),
        qval_result(&*old(lexer), &*final(lexer), quote@, tripple, path is Some, r),
{
    let ghost s = lexer.src_seq();
    let ghost p = lexer.pos();
    let ghost start = *lexer;
    let ghost l0 = lexer.spec_loc();
    let mut quote2 = String::new();
    crate::text::push_str(&mut quote2, quote);
    if tripple {
        crate::text::push_str(&mut quote2, quote);
        crate::text::push_str(&mut quote2, quote);
    }
    let ghost q2 = quote_delim(quote@, tripple);
    proof {
        assert(quote2@ =~= q2);
    }
    if lexer.has(0, [quote2.as_str()]).is_none() {
        return Ok(false);
    }
    let n2 = quote2.as_str().unicode_len();
    let ghost b1 = *lexer;
    lexer.skip(n2);
    let ghost mut acc = acc_init(p + n2);
    let ghost k0 = p + n2;
    proof {
        lemma_moved_zero(&start, &b1);
        lemma_moved_trans(&start, &b1, &*lexer, 0, n2 as int);
    }
    loop
        invariant
            lexer.wf(),
            start.wf(),
            start.same_frame(&*lexer),
            s == start.src_seq(),
            p == start.pos(),
            l0 == start.spec_loc(),
            k0 == p + q2.len(),
            k0 <= lexer.pos() <= s.len(),
            lexer.spec_loc() == loc_at(l0, s, p, lexer.pos()),
            qval_scan(s, k0, quote@, acc_init(k0)) == qval_scan(s, lexer.pos(), quote@, acc),
            token_follows(start.top_token(), l0, s, p, acc, lexer.top_token()),
            quote@.len() <= isize::MAX,
        ensures
            lexer.wf(),
            start.same_frame(&*lexer),
            k0 <= lexer.pos() <= s.len(),
            lexer.spec_loc() == loc_at(l0, s, p, lexer.pos()),
            qval_scan(s, k0, quote@, acc_init(k0)) == (lexer.pos() as int, acc),
            token_follows(start.top_token(), l0, s, p, acc, lexer.top_token()),
        decreases lexer.rem(),
    {
        let ghost before = *lexer;
        let ghost k = lexer.pos();
        proof {
            lemma_qval_step_bounds(s, k, quote@);
        }
        if !parse_qval_step(lexer, quote) {
            break;
        }
        proof {
            let (k2, add) = qval_step(s, k, quote@)->0;
            lemma_loc_at_step(l0, s, p, k, k2 - k);
            lemma_token_follows_step(start.top_token(), l0, s, p, acc, before.top_token(), k, k2, add, lexer.top_token());
            acc = acc_step(acc, k, k2, add);
        }
    }
    proof {
        assert(acc_init(p + q2.len()) == acc_init(k0));
    }
    let ghost c = *lexer;
    if lexer.has(0, [quote2.as_str()]).is_none() {
        return Err(ParseError {
            path: opt_path_to_buf(path),
            loc: lexer.loc(),
            error_type: ParseErrorType::NoClosingQuote(quote2),
        });
    }
    let ghost c2 = *lexer;
    lexer.skip(n2);
    proof {
        lemma_loc_at_step(l0, s, p, c.pos(), n2 as int);
    }
    Ok(true)
}


// ---------------------------------------------------------------------------
// Values
// ---------------------------------------------------------------------------

/// The location of position `j` of a source read from its start.
pub open spec fn loc_of(s: Seq<char>, j: int) -> Loc {
    loc_advance(Loc::spec_one(), s.take(j))
}

/// The lexer stands at position `k` of `s`, with its location consistent with
/// reading from the start and no pending token.
pub open spec fn lexer_at<'a>(l: &Lexer<'a>, s: Seq<char>, k: int) -> bool {
    &&& l.wf()
    &&& l.src_seq() == s
    &&& l.pos() == k
    &&& l.spec_loc() == loc_of(s, k)
    &&& l.top_token() is None
}

pub proof fn lemma_loc_of_at(s: Seq<char>, p: int, j: int)
    requires
        0 <= p <= j <= s.len(),
    ensures
        loc_at(loc_of(s, p), s, p, j) == loc_of(s, j),
{
    lemma_loc_advance_concat(Loc::spec_one(), s.take(p), s.subrange(p, j));
    assert(s.take(p) + s.subrange(p, j) =~= s.take(j));
}

pub proof fn lemma_at_moved<'a>(a: &Lexer<'a>, b: &Lexer<'a>, s: Seq<char>, k: int, n: int)
    requires
        lexer_at(a, s, k),
        b.wf(),
        a.moved(b, n),
    ensures
        lexer_at(b, s, k + n),
{
    lemma_loc_of_at(s, k, k + n);
}

/// The three quote characters, in the order they are tried.
pub open spec fn val_quotes() -> Seq<Seq<char>> {
    seq![seq!['\''], seq!['"'], seq!['`']]
}

/// The quoted value that starts at `p`, as (quote, tripled), trying the tripled
/// quotes first.
pub open spec fn val_quote(s: Seq<char>, p: int) -> Option<(Seq<char>, bool)> {
    let q = val_quotes();
    if matches_at(s, p, quote_delim(q[0], true)) {
        Some((q[0], true))
    } else if matches_at(s, p, quote_delim(q[1], true)) {
        Some((q[1], true))
    } else if matches_at(s, p, quote_delim(q[2], true)) {
        Some((q[2], true))
    } else if matches_at(s, p, q[0]) {
        Some((q[0], false))
    } else if matches_at(s, p, q[1]) {
        Some((q[1], false))
    } else if matches_at(s, p, q[2]) {
        Some((q[2], false))
    } else {
        None
    }
}

/// `val => q_val | s_val`: the outcome of reading a value at `p`, as (kind,
/// position, scan): kind 0 is no value (nothing read), 1 an unclosed quote
/// (position where it stops), 2 a value (position after it).
pub open spec fn val_scan(s: Seq<char>, p: int) -> (int, int, ScanAcc) {
    match val_quote(s, p) {
        Some((q, t)) => {
            let d = quote_delim(q, t);
            let (e, acc) = qval_scan(s, p + d.len(), q, acc_init(p + d.len()));
            if matches_at(s, e, d) {
                (2, e + d.len(), acc)
            } else {
                (1, e, acc)
            }
        },
        None => {
            let (e, acc) = sval_scan(s, p, val_quotes(), acc_init(p));
            (
                if e > p {
                    2
                } else {
                    0
                },
                e,
                acc,
            )
        },
    }
}

/// What `parse_qval` promises of a lexer `b` reached from `a`.
pub open spec fn qval_result<'a>(a: &Lexer<'a>, b: &Lexer<'a>, quote: Seq<char>, tripple: bool, has_path: bool, r: Result<bool, ParseError>) -> bool {
    let s = a.src_seq();
    let p = a.pos();
    let q2 = quote_delim(quote, tripple);
    if !matches_at(s, p, q2) {
        r == Ok::<bool, ParseError>(false) && buf_only(a, b)
    } else {
        let (e, acc) = qval_scan(s, p + q2.len(), quote, acc_init(p + q2.len()));
        if matches_at(s, e, q2) {
            r == Ok::<bool, ParseError>(true) && scanned(a, b, e + q2.len(), acc)
        } else {
            &&& r matches Err(err)
            &&& err.error_type matches ParseErrorType::NoClosingQuote(q) && q@ == q2
            &&& err.loc == b.spec_loc()
            &&& (err.path is Some <==> has_path)
            &&& a.same_frame(b)
            &&& b.pos() == e
            &&& b.spec_loc() == loc_at(a.spec_loc(), s, p, e)
        }
    }
}

/// A lexer differing only in its read-ahead buffer gets the same promise.
pub proof fn lemma_qval_result_rebase<'a>(a: &Lexer<'a>, a2: &Lexer<'a>, b: &Lexer<'a>, quote: Seq<char>, tripple: bool, has_path: bool, r: Result<bool, ParseError>)
    requires
        buf_only(a, a2),
        qval_result(a2, b, quote, tripple, has_path, r),
        r != Ok::<bool, ParseError>(false),
    ensures
        qval_result(a, b, quote, tripple, has_path, r),
{
}

/// Reads a quoted or unquoted value.
pub fn parse_val(lexer: &mut Lexer, path: Option<&Path>) -> (r: Result<bool, ParseError>)
    requires
        old(lexer).wf(),
    ensures
        final(lexer).wf(),
        ({
            let s = old(lexer).src_seq();
            let p = old(lexer).pos();
            match val_quote(s, p) {
                Some((q, t)) => qval_result(&*old(lexer), &*final(lexer), q, t, path is Some, r),
                None => {
                    let (e, acc) = sval_scan(s, p, val_quotes(), acc_init(p));
                    r == Ok::<bool, ParseError>(e > p) && scanned(&*old(lexer), &*final(lexer), e, acc)
                },
            }
        }),
{
    let ghost s = lexer.src_seq();
    let ghost p = lexer.pos();
    let ghost a = *lexer;
    let quotes = ["'", "\"", "`"];
    proof {
        reveal_strlit("'");
        reveal_strlit("\"");
        reveal_strlit("`");
        assert(quotes@[0]@ =~= seq!['\'']);
        assert(quotes@[1]@ =~= seq!['"']);
        assert(quotes@[2]@ =~= seq!['`']);
        assert(quotes@.map_values(|x: &str| x@) =~= val_quotes());
        lemma_moved_zero(&a, &a);
    }
    let mut ti: usize = 0;
    while ti < 2
        invariant
            0 <= ti <= 2,
            lexer.wf(),
            a.wf(),
            a == *old(lexer),
            buf_only(&a, &*lexer),
            s == a.src_seq(),
            p == a.pos(),
            quotes@.map_values(|x: &str| x@) == val_quotes(),
            forall|m: int| 0 <= m < 3 ==> (#[trigger] quotes@[m])@ == val_quotes()[m],
            ti >= 1 ==> forall|m: int| 0 <= m < 3 ==> !matches_at(s, p, quote_delim(#[trigger] val_quotes()[m], true)),
            ti >= 2 ==> forall|m: int| 0 <= m < 3 ==> !matches_at(s, p, #[trigger] val_quotes()[m]),
        decreases 2 - ti,
    {
        let tripple = ti == 0;
        let mut qi: usize = 0;
        while qi < 3
            invariant
                0 <= qi <= 3,
                0 <= ti < 2,
                tripple == (ti == 0),
                lexer.wf(),
                a.wf(),
                a == *old(lexer),
                buf_only(&a, &*lexer),
                s == a.src_seq(),
                p == a.pos(),
                quotes@.map_values(|x: &str| x@) == val_quotes(),
                forall|m: int| 0 <= m < 3 ==> (#[trigger] quotes@[m])@ == val_quotes()[m],
                ti >= 1 ==> forall|m: int| 0 <= m < 3 ==> !matches_at(s, p, quote_delim(#[trigger] val_quotes()[m], true)),
                forall|m: int| 0 <= m < qi ==> !matches_at(s, p, quote_delim(#[trigger] val_quotes()[m], tripple)),
            decreases 3 - qi,
        {
            let ghost before = *lexer;
            let res = parse_qval(lexer, quotes[qi], tripple, path);
            proof {
                assert(quotes@[qi as int]@ == val_quotes()[qi as int]);
            }
            match res {
                Ok(false) => {
                    proof {
                        assert(!matches_at(s, p, quote_delim(val_quotes()[qi as int], tripple)));
                    }
                },
                _ => {
                    proof {
                        let q = val_quotes()[qi as int];
                        assert(matches_at(s, p, quote_delim(q, tripple)));
                        lemma_qval_result_rebase(&a, &before, &*lexer, q, tripple, path is Some, res);
                        assert(val_quote(s, p) == Some((q, tripple)));
                    }
                    return res;
                },
            }
            qi = qi + 1;
        }
        ti = ti + 1;
    }
    proof {
        assert(val_quote(s, p) is None);
    }
    let ghost before = *lexer;
    let r = parse_sval(lexer, quotes);
    Ok(r)
}


// ---------------------------------------------------------------------------
// Records and bodies
// ---------------------------------------------------------------------------

/// A token as (start position, end position, text).
pub type TokSpec = (int, int, Seq<char>);

pub open spec fn tok_of(acc: ScanAcc) -> TokSpec {
    (acc.1->0, acc.2, acc.0)
}

pub open spec fn token_is(t: Token, s: Seq<char>, ts: TokSpec) -> bool {
    &&& t.start_loc == loc_of(s, ts.0)
    &&& t.end_loc == loc_of(s, ts.1)
    &&& t.extracted@ == ts.2
}

pub open spec fn tokens_are(ts: Seq<Token>, s: Seq<char>, toks: Seq<TokSpec>) -> bool {
    &&& ts.len() == toks.len()
    &&& forall|j: int| 0 <= j < ts.len() ==> token_is(#[trigger] ts[j], s, toks[j])
}

/// The delimiter of the quoted value that starts at `p`.
pub open spec fn delim_at(s: Seq<char>, p: int) -> Seq<char> {
    match val_quote(s, p) {
        Some((q, t)) => quote_delim(q, t),
        None => Seq::<char>::empty(),
    }
}

/// The outcome of reading a record, as (code, position, tokens, quote):
/// code 0 is a record ending at `position`; 1 an unclosed quote `quote`;
/// 2 a value that holds no character; 3 a missing end of line; 4 an indent
/// that is not a multiple of four; 5 an indent more than one deeper than the
/// last; 6 no record (nothing read). For the errors, `position` is where the
/// error is reported.
pub type RecOut = (int, int, Seq<TokSpec>, Seq<char>);

pub open spec fn rec_end(s: Seq<char>, k: int, toks: Seq<TokSpec>) -> RecOut {
    match ending_end(s, k) {
        Some(e) => (0, e, toks, Seq::<char>::empty()),
        None => (3, k, toks, Seq::<char>::empty()),
    }
}

/// `(sep val)* (cmnt | ending)` after the values `toks`, from `k`.
pub open spec fn rec_loop(s: Seq<char>, k: int, toks: Seq<TokSpec>) -> RecOut
    decreases s.len() - k,
{
    let k1 = sep_end(s, k);
    if k < 0 || k1 <= k || k1 > s.len() {
        rec_end(s, k, toks)
    } else if cmnt_end(s, k1) is Some {
        (0, cmnt_end(s, k1)->0, toks, Seq::<char>::empty())
    } else {
        let (kind, e, acc) = val_scan(s, k1);
        if kind == 0 {
            rec_end(s, k, toks)
        } else if kind == 1 {
            (1, e, toks, delim_at(s, k1))
        } else if acc.1 is None {
            (2, e, toks, Seq::<char>::empty())
        } else if k < e <= s.len() {
            rec_loop(s, e, toks.push(tok_of(acc)))
        } else {
            (2, e, toks, Seq::<char>::empty())
        }
    }
}

/// `record => indent val (sep val)* (cmnt | ending)` from `p`.
pub open spec fn record_spec(s: Seq<char>, p: int, last: int) -> RecOut {
    let (i, sp) = indent_scan(s, p, 0, 0, last, false);
    let q = p + i;
    if sp % 4 != 0 {
        (4, q, Seq::<TokSpec>::empty(), Seq::<char>::empty())
    } else if sp / 4 > last + 1 {
        (5, q, Seq::<TokSpec>::empty(), Seq::<char>::empty())
    } else {
        let (kind, e, acc) = val_scan(s, q);
        if kind == 0 {
            (6, p, Seq::<TokSpec>::empty(), Seq::<char>::empty())
        } else if kind == 1 {
            (1, e, Seq::<TokSpec>::empty(), delim_at(s, q))
        } else if acc.1 is None {
            (2, e, Seq::<TokSpec>::empty(), Seq::<char>::empty())
        } else {
            rec_loop(s, e, seq![tok_of(acc)])
        }
    }
}

/// The indent of the record at `p`.
pub open spec fn record_indent(s: Seq<char>, p: int, last: int) -> int {
    indent_scan(s, p, 0, 0, last, false).1 / 4
}

/// What an error promise says: its kind, where it is reported, and that it carries a path if one was given.
pub open spec fn err_is(err: ParseError, code: int, loc: Loc, quote: Seq<char>, has_path: bool) -> bool {
    &&& err.loc == loc
    &&& (err.path is Some <==> has_path)
    &&& code == 1 ==> (err.error_type matches ParseErrorType::NoClosingQuote(q) && q@ == quote)
    &&& code == 2 ==> err.error_type is Unknown
    &&& code == 3 ==> err.error_type is ExpectedEOL
    &&& code == 4 ==> err.error_type is InvalidIndentIncrement
    &&& code == 5 ==> err.error_type is InvalidIndent
}

pub proof fn lemma_sep_end_bounds(s: Seq<char>, p: int)
    requires
        0 <= p <= s.len(),
    ensures
        p <= sep_end(s, p) <= s.len(),
    decreases s.len() - p,
{
    if p < s.len() {
        if matches_at(s, p, seq![' ']) || matches_at(s, p, seq!['\t']) {
            lemma_sep_end_bounds(s, p + 1);
        } else if matches_at(s, p, seq!['\\', '\n']) {
            lemma_sep_end_bounds(s, p + 2);
        } else if matches_at(s, p, seq!['\\', '\r', '\n']) {
            lemma_sep_end_bounds(s, p + 3);
        }
    }
}

pub proof fn lemma_sval_scan_bounds(s: Seq<char>, k: int, qs: Seq<Seq<char>>, acc: ScanAcc)
    requires
        0 <= k <= s.len(),
        acc.2 <= k,
        acc.1 matches Some(f) ==> f <= acc.2,
    ensures
        k <= sval_scan(s, k, qs, acc).0 <= s.len(),
        acc.1 is None ==> (sval_scan(s, k, qs, acc).1.1 matches Some(f) ==> k <= f),
        sval_scan(s, k, qs, acc).1.1 matches Some(f) ==> f <= sval_scan(s, k, qs, acc).1.2
            <= sval_scan(s, k, qs, acc).0,
        acc.1 matches Some(f) ==> sval_scan(s, k, qs, acc).1.1 == Some(f),
        sval_scan(s, k, qs, acc).1.1 is None ==> sval_scan(s, k, qs, acc).1 == acc,
        sval_scan(s, k, qs, acc).0 == k ==> sval_scan(s, k, qs, acc).1 == acc,
    decreases s.len() - k,
{
    lemma_sval_step_bounds(s, k, qs);
    match sval_step(s, k, qs) {
        Some((k2, add)) => {
            match add {
                Some(a) => lemma_sval_scan_bounds(s, k2, qs, acc_step(acc, k, k2, a)),
                None => lemma_sval_scan_bounds(s, k2, qs, acc),
            }
        },
        None => {},
    }
}

pub proof fn lemma_qval_scan_bounds(s: Seq<char>, k: int, quote: Seq<char>, acc: ScanAcc)
    requires
        0 <= k <= s.len(),
        acc.2 <= k,
        acc.1 matches Some(f) ==> f <= acc.2,
    ensures
        k <= qval_scan(s, k, quote, acc).0 <= s.len(),
        acc.1 is None ==> (qval_scan(s, k, quote, acc).1.1 matches Some(f) ==> k <= f),
        qval_scan(s, k, quote, acc).1.1 matches Some(f) ==> f <= qval_scan(s, k, quote, acc).1.2
            <= qval_scan(s, k, quote, acc).0,
        acc.1 matches Some(f) ==> qval_scan(s, k, quote, acc).1.1 == Some(f),
    decreases s.len() - k,
{
    lemma_qval_step_bounds(s, k, quote);
    match qval_step(s, k, quote) {
        Some((k2, add)) => lemma_qval_scan_bounds(s, k2, quote, acc_step(acc, k, k2, add)),
        None => {},
    }
}

pub proof fn lemma_val_scan_bounds(s: Seq<char>, p: int)
    requires
        0 <= p <= s.len(),
    ensures
        ({
            let (kind, e, acc) = val_scan(s, p);
            &&& p <= e <= s.len()
            &&& kind == 2 ==> p < e
            &&& kind == 0 ==> e == p && acc.1 is None
            &&& acc.1 matches Some(f) ==> p <= f <= acc.2 <= e
        }),
{
    match val_quote(s, p) {
        Some((q, t)) => {
            let d = quote_delim(q, t);
            assert(matches_at(s, p, d));
            lemma_qval_scan_bounds(s, p + d.len(), q, acc_init(p + d.len()));
            let (e, acc) = qval_scan(s, p + d.len(), q, acc_init(p + d.len()));
            if matches_at(s, e, d) {
                assert(e + d.len() <= s.len());
            }
            assert(d.len() >= 1);
        },
        None => {
            lemma_sval_scan_bounds(s, p, val_quotes(), acc_init(p));
        },
    }
}

/// After a value read at `p` from a lexer standing there, the lexer stands
/// after it, its token as the scan says.
pub proof fn lemma_val_token<'a>(a: &Lexer<'a>, b: &Lexer<'a>, s: Seq<char>, p: int)
    requires
        lexer_at(a, s, p),
        b.wf(),
        ({
            let (kind, e, acc) = val_scan(s, p);
            scanned(a, b, e, acc)
        }),
    ensures
        ({
            let (kind, e, acc) = val_scan(s, p);
            &&& b.pos() == e
            &&& b.spec_loc() == loc_of(s, e)
            &&& b.src_seq() == s
            &&& acc.1 is None ==> b.top_token() is None
            &&& acc.1 is Some ==> (b.top_token() matches Some(t) && token_is(t, s, tok_of(acc)))
        }),
{
    let (kind, e, acc) = val_scan(s, p);
    lemma_val_scan_bounds(s, p);
    lemma_loc_of_at(s, p, e);
    if acc.1 is Some {
        lemma_loc_of_at(s, p, acc.1->0);
        lemma_loc_of_at(s, p, acc.2);
        assert(Seq::<char>::empty() + acc.0 =~= acc.0);
    }
}


/// Reads the value at the current position of a lexer that stands at `k` and
/// takes its token. `Ok(None)` if no value starts there (the buffer aside, the
/// lexer is unchanged); an error for an unclosed quote or a value that holds no
/// character.
pub(crate) fn read_val(lexer: &mut Lexer, path: Option<&Path>) -> (r: Result<Option<Token>, ParseError>)
    requires
        lexer_at(&*old(lexer), old(lexer).src_seq(), old(lexer).pos()),
    ensures
        final(lexer).wf(),
        final(lexer).src_seq() == old(lexer).src_seq(),
        ({
            let s = old(lexer).src_seq();
            let k = old(lexer).pos();
            let (kind, e, acc) = val_scan(s, k);
            &&& kind == 0 ==> (r matches Ok(None) && old(lexer).same_frame(&*final(lexer)) && lexer_at(&*final(lexer), s, k))
            &&& kind == 1 ==> (r matches Err(err) && err_is(err, 1, loc_of(s, e), delim_at(s, k), path is Some))
            &&& (kind == 2 && acc.1 is None) ==> (r matches Err(err) && err_is(err, 2, loc_of(s, e), Seq::<char>::empty(), path is Some))
            &&& (kind == 2 && acc.1 is Some) ==> (r matches Ok(Some(t)) && token_is(t, s, tok_of(acc))
                && lexer_at(&*final(lexer), s, e) && old(lexer).same_frame(&*final(lexer)))
        }),
{
    let ghost s = lexer.src_seq();
    let ghost k = lexer.pos();
    let ghost a = *lexer;
    proof {
        lemma_val_scan_bounds(s, k);
    }
    let v = parse_val(lexer, path);
    let ghost b = *lexer;
    proof {
        let (kind, e, acc) = val_scan(s, k);
        match val_quote(s, k) {
            Some((q, t)) => {
                let d = quote_delim(q, t);
                assert(matches_at(s, k, d));
                if kind == 1 {
                    lemma_loc_of_at(s, k, e);
                } else {
                    lemma_val_token(&a, &b, s, k);
                }
            },
            None => {
                lemma_val_token(&a, &b, s, k);
                if kind == 0 {
                    assert(acc.1 is None);
                    assert(b.pos() == k);
                }
            },
        }
    }
    match v {
        Err(e) => Err(e),
        Ok(false) => {
            Ok(None)
        },
        Ok(true) => {
            match lexer.token() {
                Some(t) => Ok(Some(t)),
                None => Err(ParseError {
                    path: opt_path_to_buf(path),
                    loc: lexer.loc(),
                    error_type: ParseErrorType::Unknown,
                }),
            }
        },
    }
}

} // verus!
