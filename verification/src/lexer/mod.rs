pub mod loc;
pub mod input;
pub mod error;

use vstd::prelude::*;

pub use loc::Loc;

use error::ErrorManager;
use input::{Input, reserved};
use loc::{src_fits, loc_advance};
use crate::text::{push_chars, push_str, chars_eq_str};

verus! {

/// A piece of text read by the lexer, with where it starts and ends.
#[derive(Debug)]
pub struct Token {
    pub start_loc: Loc,
    pub end_loc: Loc,
    pub extracted: String,
}

impl Clone for Token {
    fn clone(&self) -> (r: Token)
        ensures
            r == *self,
    {
        Token {
            start_loc: self.start_loc,
            end_loc: self.end_loc,
            extracted: self.extracted.clone(),
        }
    }
}

#[derive(Debug)]
struct Hist<'a> {
    input: Input<'a>,
    token: Option<Token>,
}

fn clone_hist<'a>(h: &Hist<'a>) -> (r: Hist<'a>)
    ensures
        r == *h,
{
    let token = match &h.token {
        Some(t) => Some(t.clone()),
        None => None,
    };
    Hist { input: h.input.clone(), token }
}

/// A character-level reader with a stack of positions, so that a parser
/// can try a rule and then keep or discard what it read.
pub struct Lexer<'a> {
    stk: Vec<Hist<'a>>,
    error_manager: ErrorManager,
    debug_label_strs: Vec<&'a str>,
    debug_print_enable: bool,
}

/// Whether `x` stands in `src` at position `p`.
pub open spec fn matches_at(src: Seq<char>, p: int, x: Seq<char>) -> bool {
    &&& 0 <= p
    &&& p + x.len() <= src.len()
    &&& src.subrange(p, p + x.len()) == x
}

/// The first index from `k` on of a candidate that stands in `src` at `p`.
pub open spec fn first_match_from(src: Seq<char>, p: int, xs: Seq<Seq<char>>, k: int) -> Option<int>
    decreases xs.len() - k,
{
    if k < 0 || k >= xs.len() {
        None
    } else if matches_at(src, p, xs[k]) {
        Some(k)
    } else {
        first_match_from(src, p, xs, k + 1)
    }
}

/// The buffer length after asking in turn for each candidate `i` characters ahead.
pub open spec fn reserve_seq(buf: int, rem: int, i: int, xs: Seq<Seq<char>>) -> int
    decreases xs.len(),
{
    if xs.len() == 0 {
        buf
    } else {
        reserved(reserve_seq(buf, rem, i, xs.drop_last()), rem, i + xs.last().len())
    }
}

pub proof fn lemma_reserve_seq_each(buf: int, rem: int, i: int, xs: Seq<Seq<char>>)
    requires
        0 <= buf <= rem,
    ensures
        buf <= reserve_seq(buf, rem, i, xs) <= rem,
        forall|k: int|
            0 <= k < xs.len() ==> reserve_seq(buf, rem, i, xs) >= i + (#[trigger] xs[k]).len()
                || reserve_seq(buf, rem, i, xs) == rem,
    decreases xs.len(),
{
    if xs.len() > 0 {
        lemma_reserve_seq_each(buf, rem, i, xs.drop_last());
        assert forall|k: int| 0 <= k < xs.len() implies reserve_seq(buf, rem, i, xs) >= i + (
        #[trigger] xs[k]).len() || reserve_seq(buf, rem, i, xs) == rem by {
            if k < xs.len() - 1 {
                assert(xs[k] == xs.drop_last()[k]);
            }
        }
    }
}

/// The candidates tried by a search that returned `fm`.
pub open spec fn tried(xs: Seq<Seq<char>>, fm: Option<int>) -> Seq<Seq<char>> {
    match fm {
        Some(k) => xs.take(k + 1),
        None => xs,
    }
}

pub proof fn lemma_first_match_skip(src: Seq<char>, p: int, xs: Seq<Seq<char>>, j: int, k: int)
    requires
        0 <= j <= k <= xs.len(),
        forall|m: int| j <= m < k ==> !matches_at(src, p, #[trigger] xs[m]),
    ensures
        first_match_from(src, p, xs, j) == first_match_from(src, p, xs, k),
    decreases k - j,
{
    if j < k {
        lemma_first_match_skip(src, p, xs, j + 1, k);
    }
}

pub proof fn lemma_first_match_bounds(src: Seq<char>, p: int, xs: Seq<Seq<char>>, k: int)
    ensures
        first_match_from(src, p, xs, k) matches Some(m) ==> k <= m < xs.len() && matches_at(
            src,
            p,
            xs[m],
        ),
    decreases xs.len() - k,
{
    if 0 <= k < xs.len() && !matches_at(src, p, xs[k]) {
        lemma_first_match_bounds(src, p, xs, k + 1);
    }
}

/// The token after appending `added` to the token `t`, read from `start` to `end`.
pub open spec fn token_extended(t: Option<Token>, start: Loc, end: Loc, added: Seq<char>, r: Option<
    Token,
>) -> bool {
    &&& r is Some
    &&& r->0.start_loc == match t {
        Some(t) => t.start_loc,
        None => start,
    }
    &&& r->0.end_loc == end
    &&& r->0.extracted@ == match t {
        Some(t) => t.extracted@,
        None => Seq::<char>::empty(),
    } + added
}

impl<'a> Lexer<'a> {
    /// The stack of (cursor, pending token) pairs; the last one is current.
    pub closed spec fn stack(&self) -> Seq<(Input<'a>, Option<Token>)> {
        self.stk@.map_values(|h: Hist<'a>| (h.input, h.token))
    }

    pub closed spec fn labels(&self) -> Seq<&'a str> {
        self.debug_label_strs@
    }

    pub closed spec fn debug_enabled(&self) -> bool {
        self.debug_print_enable
    }

    /// No error is recorded and the error history has one clean entry per stack level.
    pub closed spec fn errors_clean(&self) -> bool {
        &&& self.error_manager.errors().len() == 0
        &&& self.error_manager.hists().len() == self.stk@.len()
        &&& forall|k: int|
            0 <= k < self.error_manager.hists().len() ==> #[trigger] self.error_manager.hists()[k]
                == (0usize, 0usize)
    }

    pub open spec fn src_seq(&self) -> Seq<char> {
        self.stack()[0].0.src_seq()
    }

    pub open spec fn wf(&self) -> bool {
        &&& self.stack().len() >= 1
        &&& self.errors_clean()
        &&& forall|k: int|
            0 <= k < self.stack().len() ==> (#[trigger] self.stack()[k]).0.wf()
                && self.stack()[k].0.src_seq() == self.src_seq()
    }

    pub open spec fn top_input(&self) -> Input<'a> {
        self.stack().last().0
    }

    pub open spec fn top_token(&self) -> Option<Token> {
        self.stack().last().1
    }

    pub open spec fn pos(&self) -> int {
        self.top_input().pos()
    }

    pub open spec fn buf(&self) -> int {
        self.top_input().buf_len()
    }

    pub open spec fn rem(&self) -> int {
        self.top_input().rem()
    }

    pub open spec fn spec_loc(&self) -> Loc {
        self.top_input().spec_loc()
    }

    /// Everything but the current stack entry is the same in both lexers.
    pub open spec fn same_frame(&self, other: &Lexer<'a>) -> bool {
        &&& other.stack().len() == self.stack().len()
        &&& other.stack().drop_last() == self.stack().drop_last()
        &&& other.labels() == self.labels()
        &&& other.debug_enabled() == self.debug_enabled()
        &&& other.src_seq() == self.src_seq()
    }

    /// `other` is this lexer moved `n` characters on with the same pending token.
    pub open spec fn moved(&self, other: &Lexer<'a>, n: int) -> bool {
        &&& self.same_frame(other)
        &&& 0 <= n <= self.rem()
        &&& other.pos() == self.pos() + n
        &&& other.spec_loc() == loc_advance(
            self.spec_loc(),
            self.src_seq().subrange(self.pos(), self.pos() + n),
        )
        &&& other.top_token() == self.top_token()
    }

    proof fn lemma_top(&self)
        requires
            self.wf(),
        ensures
            self.stk@.last().input.wf(),
            self.stk@.last().input.src_seq() == self.src_seq(),
            self.top_input() == self.stk@.last().input,
            self.top_token() == self.stk@.last().token,
    {
        assert(self.stack()[self.stack().len() - 1] == self.stack().last());
    }

    /// Replacing the current entry by a well-formed cursor over the same source keeps the lexer well formed.
    proof fn lemma_replace_top(old_l: &Lexer<'a>, new_l: &Lexer<'a>)
        requires
            old_l.wf(),
            new_l.errors_clean(),
            new_l.stk@.len() == old_l.stk@.len(),
            new_l.stk@.drop_last() == old_l.stk@.drop_last(),
            new_l.stk@.last().input.wf(),
            new_l.stk@.last().input.src_seq() == old_l.src_seq(),
            new_l.debug_label_strs == old_l.debug_label_strs,
            new_l.debug_print_enable == old_l.debug_print_enable,
        ensures
            new_l.wf(),
            old_l.same_frame(new_l),
            new_l.top_input() == new_l.stk@.last().input,
            new_l.top_token() == new_l.stk@.last().token,
    {
        let n = new_l.stk@.len();
        assert forall|k: int| 0 <= k < n - 1 implies #[trigger] new_l.stack()[k] == old_l.stack()[k] by {
            assert(new_l.stk@[k] == new_l.stk@.drop_last()[k]);
            assert(old_l.stk@[k] == old_l.stk@.drop_last()[k]);
        }
        assert(new_l.stack().drop_last() =~= old_l.stack().drop_last());
        assert(new_l.stack()[n - 1] == (new_l.stk@.last().input, new_l.stk@.last().token));
        if n > 1 {
            assert(new_l.stack()[0] == old_l.stack()[0]);
        }
        assert(new_l.src_seq() == old_l.src_seq());
    }

    proof fn lemma_stack_view(&self)
        ensures
            self.stack().len() == self.stk@.len(),
            forall|k: int|
                0 <= k < self.stk@.len() ==> #[trigger] self.stack()[k] == (
                    self.stk@[k].input,
                    self.stk@[k].token,
                ),
    {
    }

    pub fn new(src: &'a [char]) -> (r: Self)
        requires
            src_fits(src@),
        ensures
            r.wf(),
            r.src_seq() == src@,
            r.stack().len() == 1,
            r.pos() == 0,
            r.buf() == 0,
            r.spec_loc() == Loc::spec_one(),
            r.top_input().spec_prev_loc() == Loc::spec_one(),
            r.top_token() is None,
            r.labels() == Seq::<&'a str>::empty(),
            !r.debug_enabled(),
    {
        let r = Self {
            stk: vec![Hist { input: Input::new(src), token: None }],
            error_manager: ErrorManager::new(),
            debug_label_strs: Vec::new(),
            debug_print_enable: false,
        };
        proof {
            r.lemma_stack_view();
            assert(r.labels() =~= Seq::<&'a str>::empty());
        }
        r
    }

    pub fn debug_label_push(&mut self, debug_label_str: &'a str)
        ensures
            final(self).stack() == old(self).stack(),
            final(self).errors_clean() == old(self).errors_clean(),
            final(self).debug_enabled() == old(self).debug_enabled(),
            final(self).labels() == old(self).labels().push(debug_label_str),
    {
        self.debug_label_strs.push(debug_label_str);
    }

    pub fn debug_label_pop(&mut self)
        requires
            old(self).labels().len() >= 1,
        ensures
            final(self).stack() == old(self).stack(),
            final(self).errors_clean() == old(self).errors_clean(),
            final(self).debug_enabled() == old(self).debug_enabled(),
            final(self).labels() == old(self).labels().drop_last(),
    {
        self.debug_label_strs.pop();
    }

    pub fn debug_print(&mut self, debug_print_enable: bool)
        ensures
            final(self).stack() == old(self).stack(),
            final(self).errors_clean() == old(self).errors_clean(),
            final(self).labels() == old(self).labels(),
            final(self).debug_enabled() == debug_print_enable,
    {
        self.debug_print_enable = debug_print_enable;
    }

    pub fn loc(&self) -> (l: Loc)
        requires
            self.wf(),
        ensures
            l == self.spec_loc(),
    {
        self.stk[self.stk.len() - 1].input.loc()
    }

    /// Number of saved positions below the current one.
    pub fn stack_size(&self) -> (n: usize)
        requires
            self.wf(),
        ensures
            n == self.stack().len() - 1,
    {
        self.stk.len() - 1
    }

    /// Saves the current position (and pending token) so that it can be restored.
    pub fn push(&mut self)
        requires
            old(self).wf(),
        ensures
            final(self).wf(),
            final(self).stack() == old(self).stack().push(old(self).stack().last()),
            final(self).labels() == old(self).labels(),
            final(self).debug_enabled() == old(self).debug_enabled(),
    {
        let x = clone_hist(&self.stk[self.stk.len() - 1]);
        self.stk.push(x);
        self.error_manager.push();
        proof {
            assert(self.stack() =~= old(self).stack().push(old(self).stack().last()));
            assert forall|k: int| 0 <= k < self.error_manager.hists().len() implies #[trigger]
                self.error_manager.hists()[k] == (0usize, 0usize) by {
                if k < old(self).error_manager.hists().len() {
                    assert(self.error_manager.hists()[k] == old(self).error_manager.hists()[k]);
                }
            }
            assert(self.stack()[0] == old(self).stack()[0]);
        }
    }

    /// Restores the last saved position, dropping what was read since.
    pub fn pop_discard(&mut self)
        requires
            old(self).wf(),
            old(self).stack().len() >= 2,
        ensures
            final(self).wf(),
            final(self).stack() == old(self).stack().drop_last(),
            final(self).labels() == old(self).labels(),
            final(self).debug_enabled() == old(self).debug_enabled(),
    {
        self.error_manager.on_pop_discard();
        self.stk.pop();
        proof {
            assert(self.stack() =~= old(self).stack().drop_last());
            assert(self.stack()[0] == old(self).stack()[0]);
            assert forall|k: int| 0 <= k < self.error_manager.hists().len() implies #[trigger]
                self.error_manager.hists()[k] == (0usize, 0usize) by {
                assert(self.error_manager.hists()[k] == old(self).error_manager.hists()[k]);
            }
        }
    }

    /// Drops the last saved position, keeping what was read since.
    pub fn pop_keep(&mut self)
        requires
            old(self).wf(),
            old(self).stack().len() >= 2,
        ensures
            final(self).wf(),
            final(self).stack() == old(self).stack().take(old(self).stack().len() - 2).push(
                old(self).stack().last(),
            ),
            final(self).labels() == old(self).labels(),
            final(self).debug_enabled() == old(self).debug_enabled(),
    {
        proof {
            let h = self.error_manager.hists();
            assert(h[h.len() - 2] == (0usize, 0usize));
            assert(h[h.len() - 1] == (0usize, 0usize));
        }
        self.error_manager.on_pop_keep();
        let len = self.stk.len();
        self.stk.remove(len - 2);
        proof {
            let s = old(self).stack();
            assert(self.stack() =~= s.take(s.len() - 2).push(s.last()));
            assert(old(self).error_manager.errors().take(0) =~= Seq::<error::Error>::empty());
            assert forall|k: int| 0 <= k < self.error_manager.hists().len() implies #[trigger]
                self.error_manager.hists()[k] == (0usize, 0usize) by {
                if k < self.error_manager.hists().len() - 1 {
                    assert(self.error_manager.hists()[k] == old(self).error_manager.hists()[k]);
                }
            }
            if len > 2 {
                assert(self.stack()[0] == old(self).stack()[0]);
            } else {
                assert(self.stack()[0] == old(self).stack().last());
            }
        }
    }

    /// The first candidate that stands `i` characters ahead, reading ahead as needed.
    pub fn has<'b, const N: usize>(&mut self, i: usize, xs: [&'b str; N]) -> (r: Option<&'b str>)
        requires
            old(self).wf(),
            forall|k: int| 0 <= k < N ==> i + (#[trigger] xs@[k])@.len() <= usize::MAX,
        ensures
            final(self).wf(),
            old(self).same_frame(&*final(self)),
            old(self).top_input().with_buf(&final(self).top_input()),
            final(self).top_token() == old(self).top_token(),
            ({
                let xv = xs@.map_values(|x: &'b str| x@);
                let fm = first_match_from(old(self).src_seq(), old(self).pos() + i, xv, 0);
                &&& r == match fm {
                    Some(k) => Some(xs@[k]),
                    None => None,
                }
                &&& final(self).buf() == reserve_seq(
                    old(self).buf(),
                    old(self).rem(),
                    i as int,
                    tried(xv, fm),
                )
            }),
            r matches Some(x) ==> matches_at(old(self).src_seq(), old(self).pos() + i, x@)
                && final(self).buf() >= i + x@.len(),
            r matches Some(x) ==> exists|k: int|
                0 <= k < N && x == #[trigger] xs@[k] && forall|j: int|
                    0 <= j < k ==> !matches_at(
                        old(self).src_seq(),
                        old(self).pos() + i,
                        (#[trigger] xs@[j])@,
                    ),
            r is None ==> forall|k: int|
                0 <= k < N ==> !matches_at(
                    old(self).src_seq(),
                    old(self).pos() + i,
                    (#[trigger] xs@[k])@,
                ) && (final(self).buf() >= i + xs@[k]@.len() || final(self).buf() == old(
                    self,
                ).rem()),
    {
        let ghost xv = xs@.map_values(|x: &'b str| x@);
        let ghost src = self.src_seq();
        let ghost p = self.pos() + i;
        proof {
            self.lemma_top();
        }
        let mut cur = self.stk.pop().unwrap();
        let mut k: usize = 0;
        let mut res: Option<&'b str> = None;
        proof {
            assert(xv.take(0) =~= Seq::<Seq<char>>::empty());
        }
        while k < N
            invariant_except_break
                res is None,
                cur.input.buf_len() == reserve_seq(
                    old(self).buf(),
                    old(self).rem(),
                    i as int,
                    xv.take(k as int),
                ),
            invariant
                k <= N,
                xv.len() == N,
                forall|m: int| 0 <= m < N ==> (#[trigger] xv[m]) == xs@[m]@,
                forall|m: int| 0 <= m < N ==> i + (#[trigger] xs@[m])@.len() <= usize::MAX,
                forall|m: int| 0 <= m < k ==> !matches_at(src, p, #[trigger] xv[m]),
                cur.input.wf(),
                cur.input.src_seq() == src,
                old(self).top_input().with_buf(&cur.input),
                cur.token == old(self).top_token(),
                p == old(self).pos() + i,
                src == old(self).src_seq(),
                self.stk@ == old(self).stk@.drop_last(),
                self.error_manager == old(self).error_manager,
                self.debug_label_strs == old(self).debug_label_strs,
                self.debug_print_enable == old(self).debug_print_enable,
            ensures
                res matches Some(x) ==> k < N && x == xs@[k as int] && matches_at(
                    src,
                    p,
                    xv[k as int],
                ) && cur.input.buf_len() == reserve_seq(
                    old(self).buf(),
                    old(self).rem(),
                    i as int,
                    xv.take(k + 1),
                ),
                res is None ==> k == N && cur.input.buf_len() == reserve_seq(
                    old(self).buf(),
                    old(self).rem(),
                    i as int,
                    xv.take(k as int),
                ),
                forall|m: int| 0 <= m < k ==> !matches_at(src, p, #[trigger] xv[m]),
                cur.input.wf(),
                cur.input.src_seq() == src,
                old(self).top_input().with_buf(&cur.input),
                cur.token == old(self).top_token(),
            decreases N - k,
        {
            let x = xs[k];
            let n = x.unicode_len();
            let got = cur.input.get_reserve(i, n);
            proof {
                assert(xv.take(k + 1).drop_last() =~= xv.take(k as int));
                assert(xv[k as int] == x@);
            }
            let hit = match got {
                Some(s) => chars_eq_str(s, x),
                None => false,
            };
            if hit {
                res = Some(x);
                break;
            }
            k = k + 1;
        }
        self.stk.push(cur);
        proof {
            let fm = first_match_from(src, p, xv, 0);
            lemma_first_match_skip(src, p, xv, 0, k as int);
            if res is None {
                assert(fm is None);
                assert(xv.take(k as int) =~= xv);
                lemma_reserve_seq_each(old(self).buf(), old(self).rem(), i as int, xv);
                assert forall|m: int| 0 <= m < N implies !matches_at(src, p, (#[trigger] xs@[m])@)
                    && (cur.input.buf_len() >= i + xs@[m]@.len() || cur.input.buf_len()
                    == old(self).rem()) by {
                    assert(xv[m] == xs@[m]@);
                }
            } else {
                assert(fm == Some(k as int));
                assert forall|j: int| 0 <= j < k implies !matches_at(src, p, (#[trigger] xs@[j])@) by {
                    assert(xv[j] == xs@[j]@);
                }
                let t = xv.take(k + 1);
                assert(t.drop_last() =~= xv.take(k as int));
                assert(t.last() == xv[k as int]);
            }
            assert(self.stk@.drop_last() =~= old(self).stk@.drop_last());
            Self::lemma_replace_top(&*old(self), &*self);
        }
        res
    }

    /// The `n` characters that start `i` characters ahead, reading ahead as needed.
    pub fn get(&mut self, i: usize, n: usize) -> (r: Option<&'a [char]>)
        requires
            old(self).wf(),
            i + n <= usize::MAX,
        ensures
            final(self).wf(),
            old(self).same_frame(&*final(self)),
            old(self).top_input().with_buf(&final(self).top_input()),
            final(self).top_token() == old(self).top_token(),
            final(self).buf() == reserved(old(self).buf(), old(self).rem(), i + n),
            r is Some <==> i + n <= old(self).rem(),
            r matches Some(s) ==> s@ == old(self).src_seq().subrange(
                old(self).pos() + i,
                old(self).pos() + i + n,
            ),
    {
        proof {
            self.lemma_top();
        }
        let mut cur = self.stk.pop().unwrap();
        let res = cur.input.get_reserve(i, n);
        self.stk.push(cur);
        proof {
            assert(self.stk@.drop_last() =~= old(self).stk@.drop_last());
            Self::lemma_replace_top(&*old(self), &*self);
        }
        res
    }

    /// The character `i` characters ahead, reading ahead as needed.
    pub fn getc(&mut self, i: usize) -> (r: Option<char>)
        requires
            old(self).wf(),
            i + 1 <= usize::MAX,
        ensures
            final(self).wf(),
            old(self).same_frame(&*final(self)),
            old(self).top_input().with_buf(&final(self).top_input()),
            final(self).top_token() == old(self).top_token(),
            final(self).buf() == reserved(old(self).buf(), old(self).rem(), i + 1),
            r == if i + 1 <= old(self).rem() {
                Some(old(self).src_seq()[old(self).pos() + i])
            } else {
                None
            },
    {
        match self.get(i, 1) {
            Some(s) => Some(s[0]),
            None => None,
        }
    }

    /// Whether no character is left, reading ahead one character.
    pub fn is_end(&mut self) -> (r: bool)
        requires
            old(self).wf(),
        ensures
            final(self).wf(),
            old(self).same_frame(&*final(self)),
            old(self).top_input().with_buf(&final(self).top_input()),
            final(self).top_token() == old(self).top_token(),
            final(self).buf() == reserved(old(self).buf(), old(self).rem(), 1),
            r == (old(self).rem() == 0),
    {
        self.get(0, 1).is_none()
    }

    /// Moves `n` characters on, if the buffer holds them.
    pub fn skip(&mut self, n: usize) -> (r: Option<()>)
        requires
            old(self).wf(),
        ensures
            final(self).wf(),
            r is Some <==> old(self).buf() >= n,
            r is None ==> *final(self) == *old(self),
            r is Some ==> old(self).moved(&*final(self), n as int),
            r is Some ==> final(self).buf() == old(self).buf() - n,
            r is Some ==> final(self).top_input().spec_prev_loc() == old(self).spec_loc(),
    {
        let len = self.stk.len();
        if !self.stk[len - 1].input.has_buf_left(n) {
            return None;
        }
        proof {
            self.lemma_top();
        }
        let mut cur = self.stk.pop().unwrap();
        cur.input.next(n);
        let loc = cur.input.loc();
        self.stk.push(cur);
        self.error_manager.on_next(loc);
        proof {
            let e = old(self).error_manager.errors();
            assert(e.take(0) =~= Seq::<error::Error>::empty());
            assert(e.skip(0) =~= Seq::<error::Error>::empty());
            assert(self.error_manager.errors() =~= Seq::<error::Error>::empty());
            assert forall|k: int| 0 <= k < self.error_manager.hists().len() implies #[trigger]
                self.error_manager.hists()[k] == (0usize, 0usize) by {
                if k < self.error_manager.hists().len() - 1 {
                    assert(self.error_manager.hists()[k] == old(self).error_manager.hists()[k]);
                }
            }
            assert(self.stk@.drop_last() =~= old(self).stk@.drop_last());
            Self::lemma_replace_top(&*old(self), &*self);
        }
        Some(())
    }

    /// Moves `n` characters on, if the buffer holds them, appending them (or
    /// `replace` in their place) to the pending token, which starts here if there is none.
    pub fn consume(&mut self, n: usize, replace: Option<&str>) -> (r: Option<()>)
        requires
            old(self).wf(),
        ensures
            final(self).wf(),
            r is Some <==> old(self).buf() >= n,
            r is None ==> *final(self) == *old(self),
            r is Some ==> old(self).same_frame(&*final(self)),
            r is Some ==> final(self).pos() == old(self).pos() + n,
            r is Some ==> final(self).spec_loc() == loc_advance(
                old(self).spec_loc(),
                old(self).src_seq().subrange(old(self).pos(), old(self).pos() + n),
            ),
            r is Some ==> final(self).buf() == old(self).buf() - n,
            r is Some ==> final(self).top_input().spec_prev_loc() == old(self).spec_loc(),
            r is Some ==> token_extended(
                old(self).top_token(),
                old(self).spec_loc(),
                final(self).spec_loc(),
                match replace {
                    Some(x) => x@,
                    None => old(self).src_seq().subrange(old(self).pos(), old(self).pos() + n),
                },
                final(self).top_token(),
            ),
    {
        let len = self.stk.len();
        if !self.stk[len - 1].input.has_buf_left(n) {
            return None;
        }
        proof {
            self.lemma_top();
        }
        let mut cur = self.stk.pop().unwrap();
        let start = cur.input.loc();
        let mut token = match cur.token {
            Some(t) => t,
            None => Token { start_loc: start, end_loc: start, extracted: String::new() },
        };
        let got = cur.input.get_reserve(0, n);
        match got {
            Some(s) => {
                match replace {
                    Some(x) => push_str(&mut token.extracted, x),
                    None => push_chars(&mut token.extracted, s),
                }
            },
            None => {},
        }
        cur.input.next(n);
        token.end_loc = cur.input.loc();
        cur.token = Some(token);
        let loc = cur.input.loc();
        self.stk.push(cur);
        self.error_manager.on_next(loc);
        proof {
            let e = old(self).error_manager.errors();
            assert(e.take(0) =~= Seq::<error::Error>::empty());
            assert(e.skip(0) =~= Seq::<error::Error>::empty());
            assert(self.error_manager.errors() =~= Seq::<error::Error>::empty());
            assert forall|k: int| 0 <= k < self.error_manager.hists().len() implies #[trigger]
                self.error_manager.hists()[k] == (0usize, 0usize) by {
                if k < self.error_manager.hists().len() - 1 {
                    assert(self.error_manager.hists()[k] == old(self).error_manager.hists()[k]);
                }
            }
            assert(self.stk@.drop_last() =~= old(self).stk@.drop_last());
            Self::lemma_replace_top(&*old(self), &*self);
        }
        Some(())
    }

    /// Takes the pending token out.
    pub fn token(&mut self) -> (r: Option<Token>)
        requires
            old(self).wf(),
        ensures
            final(self).wf(),
            old(self).same_frame(&*final(self)),
            final(self).top_input() == old(self).top_input(),
            final(self).top_token() is None,
            r == old(self).top_token(),
    {
        proof {
            self.lemma_top();
        }
        let mut cur = self.stk.pop().unwrap();
        let res = cur.token.take();
        self.stk.push(cur);
        proof {
            assert(self.stk@.drop_last() =~= old(self).stk@.drop_last());
            Self::lemma_replace_top(&*old(self), &*self);
        }
        res
    }

    pub fn set_token(&mut self, token: Token)
        requires
            old(self).wf(),
        ensures
            final(self).wf(),
            old(self).same_frame(&*final(self)),
            final(self).top_input() == old(self).top_input(),
            final(self).top_token() == Some(token),
    {
        proof {
            self.lemma_top();
        }
        let mut cur = self.stk.pop().unwrap();
        cur.token = Some(token);
        self.stk.push(cur);
        proof {
            assert(self.stk@.drop_last() =~= old(self).stk@.drop_last());
            Self::lemma_replace_top(&*old(self), &*self);
        }
    }
}

} // verus!
