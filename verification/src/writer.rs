use vstd::prelude::*;

use crate::text::{string_push, str_to_chars};
use crate::lexer::{matches_at, first_match_from};
use crate::parser::grammar::{
    qval_scan, qval_step, val_scan, val_quote, val_quotes, sval_scan, sval_step, acc_init, acc_step, ScanAcc, eol_len, is_val_break,
    sval_escape_add, quote_delim, record_spec, rec_loop, rec_end, indent_scan, sep_end, cmnt_end, ending_end, spc_end,
    tok_of, TokSpec, RecOut, is_spc, record_indent,
};
use crate::parser::{read_from, skip_end, body_at, body_part, body_items, then_read, ReadItem};

verus! {

/// Four spaces for each level of indent.
pub open spec fn indent_of(n: nat) -> Seq<char>
    decreases n,
{
    if n == 0 {
        Seq::empty()
    } else {
        indent_of((n - 1) as nat) + seq![' ', ' ', ' ', ' ']
    }
}

/// Each character of `s` as `f` writes it, in order.
pub open spec fn flat_map(s: Seq<char>, f: spec_fn(char) -> Seq<char>) -> Seq<char>
    decreases s.len(),
{
    if s.len() == 0 {
        Seq::empty()
    } else {
        flat_map(s.drop_last(), f) + f(s.last())
    }
}

/// A comment keeps its text on one line: line breaks are written as escapes.
pub open spec fn comment_char(c: char) -> Seq<char> {
    if c == '\n' {
        seq!['\\', 'n']
    } else if c == '\r' {
        seq!['\\', 'r']
    } else {
        seq![c]
    }
}

/// A body line break starts a new line at the body's indent; carriage returns are dropped.
pub open spec fn text_char(c: char, ind: Seq<char>) -> Seq<char> {
    if c == '\n' {
        seq!['\n'] + ind
    } else if c == '\r' {
        Seq::empty()
    } else {
        seq![c]
    }
}

/// An unquoted value escapes what would end it or start a quoted one.
pub open spec fn plain_char(c: char) -> Seq<char> {
    if c == '\n' {
        seq!['\\', 'n']
    } else if c == '\r' {
        seq!['\\', 'r']
    } else if c == ' ' {
        seq!['\\', ' ']
    } else if c == '\t' {
        seq!['\\', 't']
    } else if c == '"' {
        seq!['\\', '"']
    } else if c == '\'' {
        seq!['\\', '\'']
    } else if c == '`' {
        seq!['\\', '`']
    } else {
        seq![c]
    }
}

/// A quoted value escapes each character at which the quote stands.
pub open spec fn quoted_from(v: Seq<char>, q: Seq<char>, i: int) -> Seq<char>
    decreases i,
{
    if i <= 0 {
        Seq::empty()
    } else {
        quoted_from(v, q, i - 1) + if i - 1 + q.len() <= v.len() && v.subrange(i - 1, i - 1 + q.len()) == q {
            seq!['\\', v[i - 1]]
        } else {
            seq![v[i - 1]]
        }
    }
}

/// The text of a parameter in `quote` (none for an unquoted one).
pub open spec fn param_text(v: Seq<char>, quote: Seq<char>) -> Seq<char> {
    if quote.len() == 0 {
        flat_map(v, |c: char| plain_char(c))
    } else {
        quote + quoted_from(v, quote, v.len() as int) + quote
    }
}

/// The text of parameters `vs` in `quote`: the first after `lead`, each next
/// after a space.
pub open spec fn params_text(lead: Seq<char>, vs: Seq<Seq<char>>, quote: Seq<char>) -> Seq<char>
    decreases vs.len(),
{
    if vs.len() == 0 {
        Seq::empty()
    } else if vs.len() == 1 {
        lead + param_text(vs[0], quote)
    } else {
        params_text(lead, vs.drop_last(), quote) + seq![' '] + param_text(vs.last(), quote)
    }
}

/// The characters of each string slice.
pub open spec fn strs_view(vs: Seq<&str>) -> Seq<Seq<char>> {
    vs.map_values(|s: &str| s@)
}

/// Whether `q` stands in `v` at position `i`.
fn slice_eq_at(v: &Vec<char>, i: usize, q: &Vec<char>) -> (r: bool)
    requires
        i + q@.len() <= v@.len(),
    ensures
        r == (v@.subrange(i as int, i + q@.len()) == q@),
{
    let vl = v.len();
    let mut k: usize = 0;
    while k < q.len()
        invariant
            k <= q@.len(),
            vl == v@.len(),
            i + q@.len() <= v@.len(),
            forall|j: int| 0 <= j < k ==> v@[i + j] == q@[j],
        decreases q@.len() - k,
    {
        if v[i + k] != q[k] {
            proof {
                assert(v@.subrange(i as int, i + q@.len())[k as int] != q@[k as int]);
            }
            return false;
        }
        k = k + 1;
    }
    proof {
        assert(v@.subrange(i as int, i + q@.len()) =~= q@);
    }
    true
}

/// Writes configuration text: comments, blank lines, bodies and records of
/// parameters, each quoted or escaped so that it reads back as written.
pub struct Writer {
    buffer: String,
    record_indent: usize,
    param_used: bool,
    last_newline: bool,
}

impl Writer {
    /// The text written so far.
    pub closed spec fn buf(&self) -> Seq<char> {
        self.buffer@
    }

    /// The indent of the record being started.
    pub closed spec fn cur_indent(&self) -> nat {
        self.record_indent as nat
    }

    /// Whether the current record has a parameter already.
    pub closed spec fn used(&self) -> bool {
        self.param_used
    }

    /// Whether the text written so far ends a line.
    pub closed spec fn at_line_start(&self) -> bool {
        self.last_newline
    }

    /// A line break if the last line is open.
    pub open spec fn close_line(&self) -> Seq<char> {
        if self.at_line_start() {
            Seq::empty()
        } else {
            seq!['\n']
        }
    }

    /// What comes before the next parameter: a space after another one, else
    /// the end of the open line and the record's indent.
    pub open spec fn lead(&self) -> Seq<char> {
        if self.used() {
            seq![' ']
        } else {
            self.close_line() + indent_of(self.cur_indent())
        }
    }

    /// What writing parameters `vs` in `quote` leaves after `old`.
    pub open spec fn params_done(&self, old: &Writer, vs: Seq<Seq<char>>, quote: Seq<char>) -> bool {
        &&& vs.len() == 0 ==> *self == *old
        &&& vs.len() > 0 ==> {
            &&& self.buf() == old.buf() + params_text(old.lead(), vs, quote)
            &&& self.cur_indent() == 0
            &&& self.used()
            &&& !self.at_line_start()
        }
    }

    /// What a line-level write leaves: no record begun, at a line start.
    pub open spec fn line_done(&self, old: &Writer, added: Seq<char>) -> bool {
        &&& self.buf() == old.buf() + old.close_line() + added
        &&& self.cur_indent() == 0
        &&& !self.used()
        &&& self.at_line_start()
    }

    pub fn new() -> (w: Self)
        ensures
            w.buf() == Seq::<char>::empty(),
            w.cur_indent() == 0,
            !w.used(),
            w.at_line_start(),
    {
        Writer { buffer: String::new(), record_indent: 0, param_used: false, last_newline: true }
    }

    /// Drops what was written.
    pub fn clear(&mut self)
        ensures
            final(self).buf() == Seq::<char>::empty(),
            final(self).cur_indent() == 0,
            !final(self).used(),
            final(self).at_line_start(),
    {
        self.buffer = String::new();
        self.record_indent = 0;
        self.param_used = false;
        self.last_newline = true;
    }

    /// Appends the indent of `n` levels.
    fn push_indent(&mut self, n: usize)
        ensures
            final(self).buf() == old(self).buf() + indent_of(n as nat),
            final(self).record_indent == old(self).record_indent,
            final(self).param_used == old(self).param_used,
            final(self).last_newline == old(self).last_newline,
    {
        let mut k: usize = 0;
        while k < n
            invariant
                k <= n,
                self.buffer@ == old(self).buffer@ + indent_of(k as nat),
                self.record_indent == old(self).record_indent,
                self.param_used == old(self).param_used,
                self.last_newline == old(self).last_newline,
            decreases n - k,
        {
            string_push(&mut self.buffer, ' ');
            string_push(&mut self.buffer, ' ');
            string_push(&mut self.buffer, ' ');
            string_push(&mut self.buffer, ' ');
            k = k + 1;
            proof {
                assert(self.buffer@ =~= old(self).buffer@ + indent_of(k as nat));
            }
        }
    }

    /// Appends a line break if the last line is open.
    fn close(&mut self)
        ensures
            final(self).buf() == old(self).buf() + old(self).close_line(),
            final(self).record_indent == old(self).record_indent,
            final(self).param_used == old(self).param_used,
            final(self).last_newline == old(self).last_newline,
    {
        if !self.last_newline {
            string_push(&mut self.buffer, '\n');
        } else {
            proof {
                assert(self.buffer@ =~= self.buffer@ + Seq::<char>::empty());
            }
        }
    }

    /// Writes a comment line at `indent`, its line breaks escaped.
    pub fn comment(&mut self, indent: usize, val: &str) -> (r: &mut Self)
        ensures
            r.line_done(
                &*old(self),
                indent_of(indent as nat) + seq!['#'] + flat_map(val@, |c: char| comment_char(c))
                    + seq!['\n'],
            ),
            *final(self) == *final(r),
    {
        self.close();
        self.record_indent = 0;
        self.param_used = false;
        self.last_newline = true;
        let ghost b0 = self.buffer@;
        self.push_indent(indent);
        string_push(&mut self.buffer, '#');
        let cs = str_to_chars(val);
        let ghost b1 = self.buffer@;
        let mut i: usize = 0;
        while i < cs.len()
            invariant
                i <= cs@.len(),
                cs@ == val@,
                self.buffer@ == b1 + flat_map(cs@.take(i as int), |c: char| comment_char(c)),
                self.record_indent == 0,
                !self.param_used,
                self.last_newline,
            decreases cs@.len() - i,
        {
            let c = cs[i];
            if c == '\n' {
                string_push(&mut self.buffer, '\\');
                string_push(&mut self.buffer, 'n');
            } else if c == '\r' {
                string_push(&mut self.buffer, '\\');
                string_push(&mut self.buffer, 'r');
            } else {
                string_push(&mut self.buffer, c);
            }
            proof {
                assert(cs@.take(i + 1).drop_last() =~= cs@.take(i as int));
            }
            i = i + 1;
            proof {
                assert(self.buffer@ =~= b1 + flat_map(cs@.take(i as int), |c: char| comment_char(c)));
            }
        }
        string_push(&mut self.buffer, '\n');
        proof {
            assert(cs@.take(i as int) =~= val@);
            assert(self.buffer@ =~= old(self).buf() + old(self).close_line() + (indent_of(indent as nat)
                + seq!['#'] + flat_map(val@, |c: char| comment_char(c)) + seq!['\n']));
        }
        self
    }
    /// Writes a blank line at `indent`.
    pub fn newline(&mut self, indent: usize) -> (r: &mut Self)
        ensures
            r.line_done(&*old(self), indent_of(indent as nat) + seq!['\n']),
            *final(self) == *final(r),
    {
        self.close();
        self.record_indent = 0;
        self.param_used = false;
        self.last_newline = true;
        self.push_indent(indent);
        string_push(&mut self.buffer, '\n');
        proof {
            assert(self.buffer@ =~= old(self).buf() + old(self).close_line() + (indent_of(indent as nat) + seq!['\n']));
        }
        self
    }

    /// Writes a body of text at `indent`: each of its lines at that indent,
    /// carriage returns dropped.
    pub fn text(&mut self, indent: usize, val: &str) -> (r: &mut Self)
        ensures
            r.line_done(
                &*old(self),
                indent_of(indent as nat) + flat_map(val@, |c: char| text_char(c, indent_of(indent as nat)))
                    + seq!['\n'],
            ),
            *final(self) == *final(r),
    {
        self.close();
        self.record_indent = 0;
        self.param_used = false;
        self.last_newline = true;
        let ghost ind = indent_of(indent as nat);
        self.push_indent(indent);
        let cs = str_to_chars(val);
        let ghost b1 = self.buffer@;
        let mut i: usize = 0;
        while i < cs.len()
            invariant
                i <= cs@.len(),
                cs@ == val@,
                ind == indent_of(indent as nat),
                self.buffer@ == b1 + flat_map(cs@.take(i as int), |c: char| text_char(c, ind)),
                self.record_indent == 0,
                !self.param_used,
                self.last_newline,
            decreases cs@.len() - i,
        {
            let c = cs[i];
            if c == '\n' {
                string_push(&mut self.buffer, '\n');
                self.push_indent(indent);
            } else if c == '\r' {
            } else {
                string_push(&mut self.buffer, c);
            }
            proof {
                assert(cs@.take(i + 1).drop_last() =~= cs@.take(i as int));
            }
            i = i + 1;
            proof {
                assert(self.buffer@ =~= b1 + flat_map(cs@.take(i as int), |c: char| text_char(c, ind)));
            }
        }
        string_push(&mut self.buffer, '\n');
        proof {
            assert(cs@.take(i as int) =~= val@);
            assert(self.buffer@ =~= old(self).buf() + old(self).close_line() + (indent_of(indent as nat)
                + flat_map(val@, |c: char| text_char(c, indent_of(indent as nat))) + seq!['\n']));
        }
        self
    }

    /// Begins a record at `indent`: its first parameter starts a new line there.
    pub fn record(&mut self, indent: usize) -> (r: &mut Self)
        ensures
            r.buf() == old(self).buf(),
            r.cur_indent() == indent,
            !r.used(),
            r.at_line_start() == old(self).at_line_start(),
            *final(self) == *final(r),
    {
        self.param_used = false;
        self.record_indent = indent;
        self
    }

    /// What a parameter write leaves: the parameter after a space, or on a new
    /// line at the record's indent if it is the record's first.
    pub open spec fn param_done(&self, old: &Writer, v: Seq<char>, quote: Seq<char>) -> bool {
        &&& self.buf() == old.buf() + (if old.used() {
            seq![' ']
        } else {
            old.close_line() + indent_of(old.cur_indent())
        }) + param_text(v, quote)
        &&& self.cur_indent() == 0
        &&& self.used()
        &&& !self.at_line_start()
    }

    /// Writes a parameter in `quote`, or unquoted and escaped if `quote` is empty.
    fn inner_param(&mut self, quote: &str, val: &str)
        ensures
            final(self).param_done(&*old(self), val@, quote@),
    {
        let quote_chars = str_to_chars(quote);
        self.inner_param_chars(&quote_chars, val);
    }

    /// As `inner_param`, with the quote as characters.
    fn inner_param_chars(&mut self, quote_chars: &Vec<char>, val: &str)
        ensures
            final(self).param_done(&*old(self), val@, quote_chars@),
    {
        let ghost quote = quote_chars@;
        if self.param_used {
            string_push(&mut self.buffer, ' ');
        } else {
            self.close();
            let ri = self.record_indent;
            self.push_indent(ri);
        }
        let ghost b0 = self.buffer@;
        let v = str_to_chars(val);
        if quote_chars.len() == 0 {
            let mut i: usize = 0;
            while i < v.len()
                invariant
                    i <= v@.len(),
                    self.buffer@ == b0 + flat_map(v@.take(i as int), |c: char| plain_char(c)),
                decreases v@.len() - i,
            {
                let c = v[i];
                if c == '\n' {
                    string_push(&mut self.buffer, '\\');
                    string_push(&mut self.buffer, 'n');
                } else if c == '\r' {
                    string_push(&mut self.buffer, '\\');
                    string_push(&mut self.buffer, 'r');
                } else if c == ' ' {
                    string_push(&mut self.buffer, '\\');
                    string_push(&mut self.buffer, ' ');
                } else if c == '\t' {
                    string_push(&mut self.buffer, '\\');
                    string_push(&mut self.buffer, 't');
                } else if c == '"' {
                    string_push(&mut self.buffer, '\\');
                    string_push(&mut self.buffer, '"');
                } else if c == '\'' {
                    string_push(&mut self.buffer, '\\');
                    string_push(&mut self.buffer, '\'');
                } else if c == '`' {
                    string_push(&mut self.buffer, '\\');
                    string_push(&mut self.buffer, '`');
                } else {
                    string_push(&mut self.buffer, c);
                }
                proof {
                    assert(v@.take(i + 1).drop_last() =~= v@.take(i as int));
                }
                i = i + 1;
                proof {
                    assert(self.buffer@ =~= b0 + flat_map(v@.take(i as int), |c: char| plain_char(c)));
                }
            }
            proof {
                assert(v@.take(i as int) =~= val@);
            }
        } else {
            self.push_chars_of(quote_chars);
            let ghost b1 = self.buffer@;
            let ql = quote_chars.len();
            let mut i: usize = 0;
            while i < v.len()
                invariant
                    i <= v@.len(),
                    v@ == val@,
                    quote_chars@ == quote,
                    ql == quote.len(),
                    self.buffer@ == b1 + quoted_from(v@, quote_chars@, i as int),
                decreases v@.len() - i,
            {
                let c = v[i];
                if ql <= v.len() - i && slice_eq_at(&v, i, &quote_chars) {
                    string_push(&mut self.buffer, '\\');
                    string_push(&mut self.buffer, c);
                } else {
                    string_push(&mut self.buffer, c);
                }
                i = i + 1;
                proof {
                    assert(self.buffer@ =~= b1 + quoted_from(v@, quote_chars@, i as int));
                }
            }
            self.push_chars_of(quote_chars);
        }
        self.param_used = true;
        self.record_indent = 0;
        self.last_newline = false;
        proof {
            if quote.len() > 0 {
                assert(self.buffer@ =~= old(self).buf() + (if old(self).used() {
                    seq![' ']
                } else {
                    old(self).close_line() + indent_of(old(self).cur_indent())
                }) + param_text(val@, quote));
            } else {
                assert(self.buffer@ =~= old(self).buf() + (if old(self).used() {
                    seq![' ']
                } else {
                    old(self).close_line() + indent_of(old(self).cur_indent())
                }) + param_text(val@, quote));
            }
        }
    }

    /// Appends characters.
    fn push_chars_of(&mut self, cs: &Vec<char>)
        ensures
            final(self).buf() == old(self).buf() + cs@,
            final(self).record_indent == old(self).record_indent,
            final(self).param_used == old(self).param_used,
            final(self).last_newline == old(self).last_newline,
    {
        let mut i: usize = 0;
        while i < cs.len()
            invariant
                i <= cs@.len(),
                self.buffer@ == old(self).buffer@ + cs@.take(i as int),
                self.record_indent == old(self).record_indent,
                self.param_used == old(self).param_used,
                self.last_newline == old(self).last_newline,
            decreases cs@.len() - i,
        {
            string_push(&mut self.buffer, cs[i]);
            i = i + 1;
            proof {
                assert(self.buffer@ =~= old(self).buffer@ + cs@.take(i as int));
            }
        }
        proof {
            assert(cs@.take(i as int) =~= cs@);
        }
    }

    /// Writes an unquoted parameter, escaping spaces, tabs, line breaks and quotes.
    pub fn param(&mut self, val: &str) -> (r: &mut Self)
        ensures
            r.param_done(&*old(self), val@, Seq::empty()),
            *final(self) == *final(r),
    {
        self.inner_param("", val);
        proof {
            reveal_strlit("");
        }
        self
    }

    /// Writes unquoted parameters in turn.
    pub fn params(&mut self, vals: &[&str]) -> (r: &mut Self)
        ensures
            r.params_done(&*old(self), strs_view(vals@), Seq::empty()),
            *final(self) == *final(r),
    {
        let ghost vs = strs_view(vals@);
        let mut i: usize = 0;
        while i < vals.len()
            invariant
                i <= vals@.len(),
                vs == strs_view(vals@),
                self.params_done(&*old(self), vs.take(i as int), Seq::empty()),
            decreases vals@.len() - i,
        {
            let ghost w0 = *self;
            self.param(vals[i]);
            proof {
                Self::lemma_params_step(&*old(self), &w0, &*self, vs, i as int, Seq::empty());
            }
            i = i + 1;
        }
        proof {
            assert(vs.take(i as int) =~= vs);
        }
        self
    }

    /// Writing one more parameter extends what writing the first `i` of `vs` left.
    proof fn lemma_params_step(w0: &Writer, w1: &Writer, w2: &Writer, vs: Seq<Seq<char>>, i: int, quote: Seq<char>)
        requires
            0 <= i < vs.len(),
            w1.params_done(w0, vs.take(i), quote),
            w2.param_done(w1, vs[i], quote),
        ensures
            w2.params_done(w0, vs.take(i + 1), quote),
    {
        let t = vs.take(i + 1);
        assert(t.drop_last() =~= vs.take(i));
        assert(t.last() == vs[i]);
        if i == 0 {
            assert(t.len() == 1);
            assert(t[0] == vs[0]);
            assert(*w1 == *w0);
            assert(w2.buf() =~= w0.buf() + params_text(w0.lead(), t, quote));
        } else {
            let a = params_text(w0.lead(), vs.take(i), quote);
            assert(params_text(w0.lead(), t, quote) == a + seq![' '] + param_text(vs[i], quote));
            assert(w2.buf() =~= w0.buf() + (a + seq![' '] + param_text(vs[i], quote)));
        }
    }

    /// The quote character `q`, once or three times.
    fn quote_str(q: char, tripple: bool) -> (s: Vec<char>)
        ensures
            s@ == if tripple {
                seq![q, q, q]
            } else {
                seq![q]
            },
    {
        let mut s: Vec<char> = Vec::new();
        s.push(q);
        if tripple {
            s.push(q);
            s.push(q);
        }
        s
    }
    /// The quote `q`, once or three times.
    pub open spec fn quote_of(q: char, tripple: bool) -> Seq<char> {
        if tripple {
            seq![q, q, q]
        } else {
            seq![q]
        }
    }

    /// Writes a parameter in single quotes (three of them if `tripple`).
    pub fn param_squote(&mut self, tripple: bool, val: &str) -> (r: &mut Self)
        ensures
            r.param_done(&*old(self), val@, Self::quote_of('\'', tripple)),
            *final(self) == *final(r),
    {
        let q = Self::quote_str('\'', tripple);
        self.inner_param_chars(&q, val);
        self
    }

    /// Writes parameters in single quotes in turn.
    pub fn param_squotes(&mut self, tripple: bool, vals: &[&str]) -> (r: &mut Self)
        ensures
            r.params_done(&*old(self), strs_view(vals@), Self::quote_of('\'', tripple)),
            *final(self) == *final(r),
    {
        self.quoted_params('\'', tripple, vals);
        self
    }

    /// Writes a parameter in double quotes (three of them if `tripple`).
    pub fn param_dquote(&mut self, tripple: bool, val: &str) -> (r: &mut Self)
        ensures
            r.param_done(&*old(self), val@, Self::quote_of('"', tripple)),
            *final(self) == *final(r),
    {
        let q = Self::quote_str('"', tripple);
        self.inner_param_chars(&q, val);
        self
    }

    /// Writes parameters in double quotes in turn.
    pub fn param_dquotes(&mut self, tripple: bool, vals: &[&str]) -> (r: &mut Self)
        ensures
            r.params_done(&*old(self), strs_view(vals@), Self::quote_of('"', tripple)),
            *final(self) == *final(r),
    {
        self.quoted_params('"', tripple, vals);
        self
    }

    /// Writes a parameter in backquotes (three of them if `tripple`).
    pub fn param_bquote(&mut self, tripple: bool, val: &str) -> (r: &mut Self)
        ensures
            r.param_done(&*old(self), val@, Self::quote_of('`', tripple)),
            *final(self) == *final(r),
    {
        let q = Self::quote_str('`', tripple);
        self.inner_param_chars(&q, val);
        self
    }

    /// Writes parameters in backquotes in turn.
    pub fn param_bquotes(&mut self, tripple: bool, vals: &[&str]) -> (r: &mut Self)
        ensures
            r.params_done(&*old(self), strs_view(vals@), Self::quote_of('`', tripple)),
            *final(self) == *final(r),
    {
        self.quoted_params('`', tripple, vals);
        self
    }

    /// Writes parameters in the quote `q` in turn.
    fn quoted_params(&mut self, q: char, tripple: bool, vals: &[&str])
        ensures
            final(self).params_done(&*old(self), strs_view(vals@), Self::quote_of(q, tripple)),
    {
        let ghost vs = strs_view(vals@);
        let qs = Self::quote_str(q, tripple);
        let mut i: usize = 0;
        while i < vals.len()
            invariant
                i <= vals@.len(),
                vs == strs_view(vals@),
                qs@ == Self::quote_of(q, tripple),
                self.params_done(&*old(self), vs.take(i as int), qs@),
            decreases vals@.len() - i,
        {
            let ghost w0 = *self;
            self.inner_param_chars(&qs, vals[i]);
            proof {
                Self::lemma_params_step(&*old(self), &w0, &*self, vs, i as int, qs@);
            }
            i = i + 1;
        }
        proof {
            assert(vs.take(i as int) =~= vs);
        }
    }

    /// The text written so far.
    pub fn to_string(&self) -> (s: String)
        ensures
            s@ == self.buf(),
    {
        crate::text::str_to_string(self.buffer.as_str())
    }
}

/// A character that an unquoted parameter reads back as: any but a line
/// break, a carriage return, a tab or a backslash, which it writes as escapes
/// that are read as two characters.
pub open spec fn plain_ok(c: char) -> bool {
    c != '\n' && c != '\r' && c != '\t' && c != '\\'
}

proof fn lemma_flat_map_concat(a: Seq<char>, b: Seq<char>, f: spec_fn(char) -> Seq<char>)
    ensures
        flat_map(a + b, f) == flat_map(a, f) + flat_map(b, f),
    decreases b.len(),
{
    if b.len() == 0 {
        assert(a + b =~= a);
        assert(flat_map(a, f) + flat_map(b, f) =~= flat_map(a, f));
    } else {
        lemma_flat_map_concat(a, b.drop_last(), f);
        assert((a + b).drop_last() =~= a + b.drop_last());
        assert((a + b).last() == b.last());
        assert(flat_map(a, f) + flat_map(b.drop_last(), f) + f(b.last()) =~= flat_map(a, f) + (flat_map(
            b.drop_last(),
            f,
        ) + f(b.last())));
    }
}

/// The text an unquoted parameter `v` is written as, one character at a time.
pub open spec fn plain_text(v: Seq<char>) -> Seq<char> {
    flat_map(v, |c: char| plain_char(c))
}

/// The written text of the first `j` characters, then of character `j`.
proof fn lemma_plain_text_split(v: Seq<char>, j: int)
    requires
        0 <= j < v.len(),
    ensures
        plain_text(v) == plain_text(v.take(j)) + plain_char(v[j]) + plain_text(v.skip(j + 1)),
        plain_text(v.take(j + 1)) == plain_text(v.take(j)) + plain_char(v[j]),
{
    let f = |c: char| plain_char(c);
    assert(v =~= v.take(j + 1) + v.skip(j + 1));
    lemma_flat_map_concat(v.take(j + 1), v.skip(j + 1), f);
    assert(v.take(j + 1).drop_last() =~= v.take(j));
    assert(v.take(j + 1).last() == v[j]);
}

/// What reading the written characters from `j` on gives, having read the
/// first `j`: the value stops right after the written text, with all of `v`.
proof fn lemma_plain_scan(pre: Seq<char>, v: Seq<char>, r: Seq<char>, j: int)
    requires
        forall|i: int| 0 <= i < v.len() ==> plain_ok(#[trigger] v[i]),
        0 <= j <= v.len(),
        r.len() == 0 || r[0] == ' ' || r[0] == '\n',
    ensures
        ({
            let s = pre + plain_text(v) + r;
            let p = pre.len() as int;
            let pj = p + plain_text(v.take(j)).len();
            let acc: ScanAcc = if j == 0 {
                acc_init(p)
            } else {
                (v.take(j), Some(p), pj)
            };
            let fin: ScanAcc = if v.len() == 0 {
                acc_init(p)
            } else {
                (v, Some(p), p + plain_text(v).len())
            };
            sval_scan(s, pj, val_quotes(), acc) == (p + plain_text(v).len(), fin)
        }),
    decreases v.len() - j,
{
    let s = pre + plain_text(v) + r;
    let p = pre.len() as int;
    let pj = p + plain_text(v.take(j)).len();
    let qs = val_quotes();
    if j == v.len() {
        assert(v.take(j) =~= v);
        let k = pj;
        if r.len() > 0 {
            assert(s[k] == r[0]);
            assert(is_val_break(s, k));
        }
        assert(sval_step(s, k, qs) is None);
    } else {
        lemma_plain_text_split(v, j);
        let c = v[j];
        let pc = plain_char(c);
        let k = pj;
        assert(plain_text(v) =~= plain_text(v.take(j)) + pc + plain_text(v.skip(j + 1)));
        assert forall|t: int| 0 <= t < pc.len() implies s[k + t] == pc[t] by {
            assert(s[k + t] == (pre + plain_text(v))[k + t]);
            assert(plain_text(v)[k + t - p] == pc[t]);
        }
        assert(k + pc.len() <= s.len());
        let acc: ScanAcc = if j == 0 {
            acc_init(p)
        } else {
            (v.take(j), Some(p), pj)
        };
        let k2 = k + pc.len();
        assert(sval_step(s, k, qs) == Some((k2, Some(seq![c])))) by {
            if c == ' ' {
                assert(s[k] == '\\' && s[k + 1] == ' ');
                assert(sval_escape_add(' ') =~= seq![' ']);
            } else if c == '"' || c == '\'' || c == '`' {
                assert(s[k] == '\\' && s[k + 1] == c);
                assert(!matches_at(s, k + 1, seq!['\n'])) by {
                    assert(s.subrange(k + 1, k + 2)[0] == c);
                }
                assert(!matches_at(s, k + 1, seq!['\r', '\n'])) by {
                    if k + 3 <= s.len() {
                        assert(s.subrange(k + 1, k + 3)[0] == c);
                    }
                }
                assert(eol_len(s, k + 1) == 0);
                assert(qs[0] =~= seq!['\'']);
                assert(qs[1] =~= seq!['"']);
                assert(qs[2] =~= seq!['`']);
                let m: int = if c == '\'' {
                    0
                } else if c == '"' {
                    1
                } else {
                    2
                };
                assert(s.subrange(k + 1, k + 2) =~= seq![c]);
                assert(matches_at(s, k + 1, qs[m]));
                if m >= 1 {
                    assert(!matches_at(s, k + 1, qs[0])) by {
                        assert(s.subrange(k + 1, k + 2)[0] == c);
                    }
                }
                if m >= 2 {
                    assert(!matches_at(s, k + 1, qs[1])) by {
                        assert(s.subrange(k + 1, k + 2)[0] == c);
                    }
                }
                assert(qs.len() == 3);
                if m == 2 {
                    assert(first_match_from(s, k + 1, qs, 2) == Some(2int));
                    assert(first_match_from(s, k + 1, qs, 1) == Some(2int));
                } else if m == 1 {
                    assert(first_match_from(s, k + 1, qs, 1) == Some(1int));
                }
                assert(first_match_from(s, k + 1, qs, 0) == Some(m));
                assert(qs[m] =~= seq![c]);
            } else {
                assert(pc =~= seq![c]);
                assert(s[k] == c);
                assert(!matches_at(s, k, seq!['\r', '\n'])) by {
                    if k + 2 <= s.len() {
                        assert(s.subrange(k, k + 2)[0] == c);
                    }
                }
                assert(!is_val_break(s, k));
            }
        }
        let acc2 = acc_step(acc, k, k2, seq![c]);
        assert(v.take(j + 1) =~= v.take(j).push(c));
        assert(acc2.0 =~= v.take(j + 1));
        lemma_plain_scan(pre, v, r, j + 1);
    }
}

/// A parameter written unquoted reads back as itself: where the text written
/// for a value `v` of such characters stands in a line, followed by a space or
/// the end of the line, reading a value there takes exactly that text and
/// gives `v`.
pub proof fn law_plain_param_reads_back(pre: Seq<char>, v: Seq<char>, r: Seq<char>)
    requires
        v.len() > 0,
        forall|i: int| 0 <= i < v.len() ==> plain_ok(#[trigger] v[i]),
        r.len() == 0 || r[0] == ' ' || r[0] == '\n',
    ensures
        ({
            let s = pre + param_text(v, Seq::empty()) + r;
            let p = pre.len() as int;
            &&& val_scan(s, p).0 == 2
            &&& val_scan(s, p).1 == p + param_text(v, Seq::empty()).len()
            &&& val_scan(s, p).2 == (v, Some(p), p + param_text(v, Seq::empty()).len())
        }),
{
    let s = pre + plain_text(v) + r;
    let p = pre.len() as int;
    assert(param_text(v, Seq::empty()) == plain_text(v));
    lemma_plain_scan(pre, v, r, 0);
    assert(v.take(0) =~= Seq::<char>::empty());
    assert(plain_text(v.take(0)) =~= Seq::<char>::empty());
    lemma_plain_text_split(v, 0);
    let pc = plain_char(v[0]);
    assert(plain_text(v) =~= plain_text(v.take(0)) + pc + plain_text(v.skip(1)));
    assert(s[p] == pc[0]) by {
        assert(s[p] == (pre + plain_text(v))[p]);
    }
    let q = val_quotes();
    assert(q[0] =~= seq!['\'']);
    assert(q[1] =~= seq!['"']);
    assert(q[2] =~= seq!['`']);
    assert forall|x: Seq<char>| x.len() >= 1 && (x[0] == '\'' || x[0] == '"' || x[0] == '`') implies !matches_at(s, p, x) by {
        if matches_at(s, p, x) {
            assert(s.subrange(p, p + x.len())[0] == s[p]);
        }
    }
    assert(quote_delim(q[0], true)[0] == '\'');
    assert(quote_delim(q[1], true)[0] == '"');
    assert(quote_delim(q[2], true)[0] == '`');
    assert(val_quote(s, p) is None);
    assert(plain_text(v).len() >= 1);
}

/// What the quoted text of `v` in the one-character quote `q` gives for
/// character `j` of `v`: the character, escaped where the quote stands.
proof fn lemma_quoted_step(v: Seq<char>, q: Seq<char>, j: int)
    requires
        q.len() == 1,
        0 <= j < v.len(),
    ensures
        quoted_from(v, q, j + 1) == quoted_from(v, q, j) + if v[j] == q[0] {
            seq!['\\', v[j]]
        } else {
            seq![v[j]]
        },
{
    assert(v.subrange(j, j + 1) =~= seq![v[j]]);
    if v.subrange(j, j + 1) == q {
        assert(v[j] == q[0]);
    }
    if v[j] == q[0] {
        assert(v.subrange(j, j + 1) =~= q);
    }
}

/// The quoted text of the first `j` characters starts that of the first `i`.
proof fn lemma_quoted_prefix(v: Seq<char>, q: Seq<char>, j: int, i: int)
    requires
        q.len() == 1,
        0 <= j <= i <= v.len(),
    ensures
        quoted_from(v, q, j).len() <= quoted_from(v, q, i).len(),
        quoted_from(v, q, i).subrange(0, quoted_from(v, q, j).len() as int) == quoted_from(v, q, j),
    decreases i - j,
{
    if j < i {
        lemma_quoted_prefix(v, q, j, i - 1);
        lemma_quoted_step(v, q, i - 1);
        let a = quoted_from(v, q, i - 1);
        let b = quoted_from(v, q, j);
        assert(quoted_from(v, q, i).subrange(0, b.len() as int) =~= a.subrange(0, b.len() as int));
    } else {
        assert(quoted_from(v, q, i).subrange(0, quoted_from(v, q, j).len() as int) =~= quoted_from(v, q, i));
    }
}

/// Reading inside the quoted text of `v` from character `j` on gives the rest
/// of `v` and stops at the closing quote.
proof fn lemma_quoted_scan(pre: Seq<char>, v: Seq<char>, qc: char, r: Seq<char>, j: int, acc: ScanAcc)
    requires
        qc == '\'' || qc == '"' || qc == '`',
        forall|i: int| 0 <= i < v.len() ==> #[trigger] v[i] != '\\',
        0 <= j <= v.len(),
        acc.0 == v.take(j),
    ensures
        ({
            let q = seq![qc];
            let s = pre + param_text(v, q) + r;
            let base = pre.len() + 1int;
            let fin = qval_scan(s, base + quoted_from(v, q, j).len(), q, acc);
            &&& fin.0 == base + quoted_from(v, q, v.len() as int).len()
            &&& fin.1.0 == v
        }),
    decreases v.len() - j,
{
    let q = seq![qc];
    let s = pre + param_text(v, q) + r;
    let base = pre.len() + 1int;
    let qa = quoted_from(v, q, v.len() as int);
    let kj: int = base + quoted_from(v, q, j).len();
    assert(s == pre + q + qa + q + r);
    lemma_quoted_prefix(v, q, j, v.len() as int);
    if j == v.len() {
        assert(s[kj] == qc) by {
            assert(s[kj] == (pre + q + qa + q)[kj]);
        }
        assert(matches_at(s, kj, q)) by {
            assert(s.subrange(kj, kj + 1) =~= q);
        }
        assert(v.take(j) =~= v);
        assert(qval_step(s, kj, q) is None);
    } else {
        lemma_quoted_step(v, q, j);
        lemma_quoted_prefix(v, q, j + 1, v.len() as int);
        let b = quoted_from(v, q, j);
        let b1 = quoted_from(v, q, j + 1);
        assert(s[kj] == b1[b.len() as int]) by {
            assert(s[kj] == (pre + q + qa)[kj]);
            assert(qa[b.len() as int] == qa.subrange(0, b1.len() as int)[b.len() as int]);
        }
        if b1.len() > b.len() + 1 {
            assert(s[kj + 1] == b1[b.len() + 1int]) by {
                assert(s[kj + 1] == (pre + q + qa)[kj + 1]);
                assert(qa[b.len() + 1int] == qa.subrange(0, b1.len() as int)[b.len() + 1int]);
            }
        }
        let esc = seq![seq!['\\'], q];
        if v[j] == qc {
            assert(s[kj] == '\\');
            assert(s[kj + 1] == qc);
            assert(!matches_at(s, kj + 1, esc[0])) by {
                if matches_at(s, kj + 1, esc[0]) {
                    assert(s.subrange(kj + 1, kj + 2)[0] == s[kj + 1]);
                }
            }
            assert(matches_at(s, kj + 1, esc[1])) by {
                assert(s.subrange(kj + 1, kj + 2) =~= q);
            }
            assert(esc.len() == 2);
            assert(first_match_from(s, kj + 1, esc, 1) == Some(1int));
            assert(first_match_from(s, kj + 1, esc, 0) == Some(1int));
            assert(qval_step(s, kj, q) == Some((kj + 2, q)));
            assert(v.take(j + 1) =~= v.take(j) + q);
            lemma_quoted_scan(pre, v, qc, r, j + 1, acc_step(acc, kj, kj + 2, q));
        } else {
            assert(s[kj] == v[j]);
            assert(!matches_at(s, kj, q)) by {
                if matches_at(s, kj, q) {
                    assert(s.subrange(kj, kj + 1)[0] == s[kj]);
                }
            }
            assert(qval_step(s, kj, q) == Some((kj + 1, seq![v[j]])));
            assert(v.take(j + 1) =~= v.take(j) + seq![v[j]]);
            lemma_quoted_scan(pre, v, qc, r, j + 1, acc_step(acc, kj, kj + 1, seq![v[j]]));
        }
    }
}

/// A parameter written in a quote reads back as itself: where the text the
/// writer gives for a value `v` (with no backslash) in one of the quotes
/// stands in a line, followed by a space or the end of the line, reading a
/// value there takes exactly that text and gives `v`; an escaped quote inside
/// stands for the quote alone.
pub proof fn law_quoted_param_reads_back(pre: Seq<char>, v: Seq<char>, qc: char, r: Seq<char>)
    requires
        qc == '\'' || qc == '"' || qc == '`',
        forall|i: int| 0 <= i < v.len() ==> #[trigger] v[i] != '\\',
        r.len() == 0 || r[0] == ' ' || r[0] == '\n',
    ensures
        ({
            let t = param_text(v, seq![qc]);
            let s = pre + t + r;
            let p = pre.len() as int;
            &&& val_scan(s, p).0 == 2
            &&& val_scan(s, p).1 == p + t.len()
            &&& val_scan(s, p).2.0 == v
        }),
{
    let q = seq![qc];
    let t = param_text(v, q);
    let s = pre + t + r;
    let p = pre.len() as int;
    let qa = quoted_from(v, q, v.len() as int);
    assert(t == q + qa + q);
    assert(s[p] == qc) by {
        assert(s[p] == (pre + t)[p]);
    }
    assert(quoted_from(v, q, 0) =~= Seq::<char>::empty());
    assert(v.take(0) =~= Seq::<char>::empty());
    lemma_quoted_scan(pre, v, qc, r, 0, acc_init(p + 1));
    let e = p + 1 + qa.len();
    assert(s[e] == qc) by {
        assert(s[e] == (pre + t)[e]);
    }
    assert(matches_at(s, e, q)) by {
        assert(s.subrange(e, e + 1) =~= q);
    }
    // no tripled quote starts here: the character after the opening quote is
    // no quote, or, for an empty value, the one after the closing quote is none
    if v.len() > 0 {
        lemma_quoted_prefix(v, q, 1, v.len() as int);
        lemma_quoted_step(v, q, 0);
        assert(s[p + 1] == qa[0]) by {
            assert(s[p + 1] == (pre + t)[p + 1]);
        }
        assert(qa[0] == quoted_from(v, q, 1)[0]);
        assert(s[p + 1] != qc);
    } else {
        assert(e == p + 1);
        if p + 2 < s.len() {
            assert(s[p + 2] == r[0]);
        }
    }
    let qs = val_quotes();
    assert(qs[0] =~= seq!['\'']);
    assert(qs[1] =~= seq!['"']);
    assert(qs[2] =~= seq!['`']);
    assert forall|x: Seq<char>| x.len() == 3 && x[0] == x[1] && x[1] == x[2] implies !matches_at(s, p, x) by {
        if matches_at(s, p, x) {
            assert(s.subrange(p, p + 3)[0] == s[p]);
            assert(s.subrange(p, p + 3)[1] == s[p + 1]);
            assert(s.subrange(p, p + 3)[2] == s[p + 2]);
        }
    }
    assert forall|x: Seq<char>| x.len() == 1 implies (matches_at(s, p, x) <==> x[0] == qc) by {
        if matches_at(s, p, x) {
            assert(s.subrange(p, p + 1)[0] == s[p]);
        }
        if x[0] == qc {
            assert(s.subrange(p, p + 1) =~= x);
        }
    }
    assert(quote_delim(qs[0], true) =~= seq!['\'', '\'', '\'']);
    assert(quote_delim(qs[1], true) =~= seq!['"', '"', '"']);
    assert(quote_delim(qs[2], true) =~= seq!['`', '`', '`']);
    assert(val_quote(s, p) == Some((q, false)));
    assert(quote_delim(q, false) == q);
}

/// The parameters of `vs` from `j` on, each after a space.
pub open spec fn params_tail(vs: Seq<Seq<char>>, j: int) -> Seq<char>
    decreases vs.len() - j,
{
    if j < 0 || j >= vs.len() {
        Seq::empty()
    } else {
        seq![' '] + plain_text(vs[j]) + params_tail(vs, j + 1)
    }
}

proof fn lemma_params_tail_last(vs: Seq<Seq<char>>, j: int)
    requires
        1 <= j < vs.len(),
    ensures
        params_tail(vs, j) == params_tail(vs.drop_last(), j) + seq![' '] + plain_text(vs.last()),
    decreases vs.len() - j,
{
    let dl = vs.drop_last();
    if j == vs.len() - 1 {
        assert(params_tail(vs, j + 1) == Seq::<char>::empty());
        assert(params_tail(dl, j) == Seq::<char>::empty());
        assert(params_tail(vs, j) =~= Seq::<char>::empty() + seq![' '] + plain_text(vs.last()));
    } else {
        lemma_params_tail_last(vs, j + 1);
        assert(dl[j] == vs[j]);
        assert(params_tail(vs, j) =~= params_tail(dl, j) + seq![' '] + plain_text(vs.last()));
    }
}

/// Unquoted parameters written after `lead` are `lead`, the first, then the
/// others each after a space.
proof fn lemma_params_text_split(lead: Seq<char>, vs: Seq<Seq<char>>)
    requires
        vs.len() >= 1,
    ensures
        params_text(lead, vs, Seq::empty()) == lead + plain_text(vs[0]) + params_tail(vs, 1),
    decreases vs.len(),
{
    let e = Seq::<char>::empty();
    assert(param_text(vs[0], e) == plain_text(vs[0]));
    if vs.len() == 1 {
        assert(params_tail(vs, 1) == e);
        assert(params_text(lead, vs, e) =~= lead + plain_text(vs[0]) + params_tail(vs, 1));
    } else {
        let dl = vs.drop_last();
        lemma_params_text_split(lead, dl);
        lemma_params_tail_last(vs, 1);
        assert(dl[0] == vs[0]);
        assert(param_text(vs.last(), e) == plain_text(vs.last()));
        assert(params_text(lead, vs, e) =~= lead + plain_text(vs[0]) + params_tail(vs, 1));
    }
}

proof fn lemma_indent_spaces(n: nat, i: int)
    requires
        0 <= i < indent_of(n).len(),
    ensures
        indent_of(n).len() == 4 * n,
        indent_of(n)[i] == ' ',
    decreases n,
{
    if n > 0 {
        lemma_indent_len((n - 1) as nat);
        if i < indent_of((n - 1) as nat).len() {
            lemma_indent_spaces((n - 1) as nat, i);
        }
    }
}

proof fn lemma_indent_len(n: nat)
    ensures
        indent_of(n).len() == 4 * n,
    decreases n,
{
    if n > 0 {
        lemma_indent_len((n - 1) as nat);
    }
}

/// The first written character of a value that does not start with `#`: not
/// a space, a tab or `#`, and a backslash only before an escaped character.
proof fn lemma_plain_first(v: Seq<char>)
    requires
        v.len() > 0,
        v[0] != '#',
        forall|i: int| 0 <= i < v.len() ==> plain_ok(#[trigger] v[i]),
    ensures
        plain_text(v).len() >= 1,
        plain_text(v)[0] != ' ' && plain_text(v)[0] != '\t' && plain_text(v)[0] != '#' && plain_text(v)[0] != '\n',
        plain_text(v)[0] == '\\' ==> plain_text(v).len() >= 2 && plain_text(v)[1] != '\n' && plain_text(v)[1] != '\r',
        plain_text(v) == plain_char(v[0]) + plain_text(v.skip(1)),
{
    lemma_plain_text_split(v, 0);
    assert(v.take(0) =~= Seq::<char>::empty());
    assert(plain_text(v.take(0)) =~= Seq::<char>::empty());
    assert(plain_text(v) =~= plain_char(v[0]) + plain_text(v.skip(1)));
    assert(plain_ok(v[0]));
}

/// Where a line ends at `e`, reading on ends the record after the line end.
proof fn lemma_rec_loop_end(s: Seq<char>, e: int, toks: Seq<TokSpec>)
    requires
        0 <= e < s.len(),
        s[e] == '\n',
    ensures
        rec_loop(s, e, toks) == (0int, e + 1, toks, Seq::<char>::empty()),
{
    assert(!matches_at(s, e, seq![' '])) by {
        if matches_at(s, e, seq![' ']) {
            assert(s.subrange(e, e + 1)[0] == s[e]);
        }
    }
    assert(!matches_at(s, e, seq!['\t'])) by {
        if matches_at(s, e, seq!['\t']) {
            assert(s.subrange(e, e + 1)[0] == s[e]);
        }
    }
    assert(!matches_at(s, e, seq!['\\', '\n'])) by {
        if matches_at(s, e, seq!['\\', '\n']) {
            assert(s.subrange(e, e + 2)[0] == s[e]);
        }
    }
    assert(!matches_at(s, e, seq!['\\', '\r', '\n'])) by {
        if matches_at(s, e, seq!['\\', '\r', '\n']) {
            assert(s.subrange(e, e + 3)[0] == s[e]);
        }
    }
    assert(sep_end(s, e) == e);
    assert(spc_end(s, e) == e);
    assert(s.subrange(e, e + 1) =~= seq!['\n']);
    assert(eol_len(s, e) == 1);
    assert(ending_end(s, e) == Some(e + 1));
}

/// Where a space and the written text of `v` follow `a`, reading on takes
/// `v` as the next value.
#[verifier::rlimit(40)]
proof fn lemma_rec_loop_step(a: Seq<char>, v: Seq<char>, r: Seq<char>, toks: Seq<TokSpec>)
    requires
        v.len() > 0,
        v[0] != '#',
        forall|k: int| 0 <= k < v.len() ==> plain_ok(#[trigger] v[k]),
        r.len() > 0,
        r[0] == ' ' || r[0] == '\n',
    ensures
        ({
            let s = a + seq![' '] + plain_text(v) + r;
            let e = a.len() as int;
            let e2 = e + 1 + plain_text(v).len();
            rec_loop(s, e, toks) == rec_loop(s, e2, toks.push((e + 1, e2, v)))
        }),
{
    let pt = plain_text(v);
    let a1 = a + seq![' '];
    let s = a1 + pt + r;
    let e = a.len() as int;
    lemma_plain_first(v);
    assert(s[e] == ' ');
    assert(s[e + 1] == pt[0]);
    assert(s.subrange(e, e + 1) =~= seq![' ']);
    assert(sep_end(s, e) == sep_end(s, e + 1));
    let k1 = e + 1;
    assert(!matches_at(s, k1, seq![' '])) by {
        if matches_at(s, k1, seq![' ']) {
            assert(s.subrange(k1, k1 + 1)[0] == s[k1]);
        }
    }
    assert(!matches_at(s, k1, seq!['\t'])) by {
        if matches_at(s, k1, seq!['\t']) {
            assert(s.subrange(k1, k1 + 1)[0] == s[k1]);
        }
    }
    assert(!matches_at(s, k1, seq!['\\', '\n'])) by {
        if matches_at(s, k1, seq!['\\', '\n']) {
            assert(s.subrange(k1, k1 + 2)[0] == s[k1]);
            assert(s.subrange(k1, k1 + 2)[1] == s[k1 + 1]);
            assert(s[k1 + 1] == pt[1]);
        }
    }
    assert(!matches_at(s, k1, seq!['\\', '\r', '\n'])) by {
        if matches_at(s, k1, seq!['\\', '\r', '\n']) {
            assert(s.subrange(k1, k1 + 3)[0] == s[k1]);
            assert(s.subrange(k1, k1 + 3)[1] == s[k1 + 1]);
            assert(s[k1 + 1] == pt[1]);
        }
    }
    assert(sep_end(s, k1) == k1);
    assert(spc_end(s, k1) == k1);
    assert(!matches_at(s, k1, seq!['#'])) by {
        if matches_at(s, k1, seq!['#']) {
            assert(s.subrange(k1, k1 + 1)[0] == s[k1]);
        }
    }
    assert(cmnt_end(s, k1) is None);
    law_plain_param_reads_back(a1, v, r);
    assert(param_text(v, Seq::<char>::empty()) == pt);
}

/// Reading on from `e`, where the written parameters of `vs` from `j` on and
/// a line end follow: each is read as its value, then the line ends.
#[verifier::rlimit(60)]
proof fn lemma_rec_loop_plain(a: Seq<char>, vs: Seq<Seq<char>>, j: int, rest: Seq<char>, toks: Seq<TokSpec>)
    requires
        1 <= j <= vs.len(),
        forall|i: int| 0 <= i < vs.len() ==> (#[trigger] vs[i]).len() > 0 && vs[i][0] != '#',
        forall|i: int, k: int| 0 <= i < vs.len() && 0 <= k < vs[i].len() ==> plain_ok(#[trigger] vs[i][k]),
    ensures
        ({
            let s = a + params_tail(vs, j) + seq!['\n'] + rest;
            let e = a.len() as int;
            let out = rec_loop(s, e, toks);
            &&& out.0 == 0
            &&& out.1 == e + params_tail(vs, j).len() + 1
            &&& out.2.len() == toks.len() + vs.len() - j
            &&& forall|i: int| 0 <= i < toks.len() ==> out.2[i] == toks[i]
            &&& forall|i: int| j <= i < vs.len() ==> (#[trigger] out.2[toks.len() + i - j]).2 == vs[i]
            &&& out.3 == Seq::<char>::empty()
        }),
    decreases vs.len() - j,
{
    let s = a + params_tail(vs, j) + seq!['\n'] + rest;
    let e = a.len() as int;
    if j == vs.len() {
        assert(params_tail(vs, j) == Seq::<char>::empty());
        assert(s[e] == '\n');
        lemma_rec_loop_end(s, e, toks);
    } else {
        let v = vs[j];
        let pt = plain_text(v);
        let tail = params_tail(vs, j + 1);
        assert(params_tail(vs, j) == seq![' '] + pt + tail);
        assert forall|k: int| 0 <= k < v.len() implies plain_ok(#[trigger] v[k]) by {
            assert(plain_ok(vs[j][k]));
        }
        let r = tail + seq!['\n'] + rest;
        if tail.len() > 0 {
            assert(tail[0] == ' ');
        }
        assert(s =~= a + seq![' '] + pt + r);
        lemma_rec_loop_step(a, v, r, toks);
        let e2 = e + 1 + pt.len();
        let tok = (e + 1, e2, v);
        let a2 = a + seq![' '] + pt;
        assert(s =~= a2 + tail + seq!['\n'] + rest);
        lemma_rec_loop_plain(a2, vs, j + 1, rest, toks.push(tok));
        let out = rec_loop(s, e2, toks.push(tok));
        assert(rec_loop(s, e, toks) == out);
        assert(params_tail(vs, j).len() == 1 + pt.len() + tail.len());
        assert(out.1 == e + params_tail(vs, j).len() + 1);
        assert(out.2.len() == toks.len() + vs.len() - j);
        assert forall|i: int| 0 <= i < toks.len() implies out.2[i] == toks[i] by {
            assert(out.2[i] == toks.push(tok)[i]);
        }
        assert forall|i: int| j <= i < vs.len() implies (#[trigger] out.2[toks.len() + i - j]).2 == vs[i] by {
            if i > j {
                assert(out.2[toks.push(tok).len() + i - (j + 1)].2 == vs[i]);
            } else {
                assert(out.2[toks.len() as int] == toks.push(tok)[toks.len() as int]);
            }
        }
    }
}

/// A record written with unquoted parameters reads back as written: where a
/// line holds the indent of `n` levels and the parameters of `vs`, each of
/// such characters, not starting with `#`, reading a record there, with the
/// last record at most one level less deep, ends at the end of the line and
/// gives the values of `vs`, in order.
#[verifier::spinoff_prover]
#[verifier::rlimit(40)]
pub proof fn law_plain_record_reads_back(pre: Seq<char>, n: nat, vs: Seq<Seq<char>>, rest: Seq<char>, last: int)
    requires
        vs.len() > 0,
        forall|i: int| 0 <= i < vs.len() ==> (#[trigger] vs[i]).len() > 0 && vs[i][0] != '#',
        forall|i: int, k: int| 0 <= i < vs.len() && 0 <= k < vs[i].len() ==> plain_ok(#[trigger] vs[i][k]),
        0 <= last,
        n <= last + 1,
    ensures
        ({
            let line = params_text(indent_of(n), vs, Seq::empty());
            let s = pre + line + seq!['\n'] + rest;
            let out = record_spec(s, pre.len() as int, last);
            &&& out.0 == 0
            &&& out.1 == pre.len() + line.len() + 1
            &&& out.2.len() == vs.len()
            &&& forall|i: int| 0 <= i < vs.len() ==> (#[trigger] out.2[i]).2 == vs[i]
        }),
{
    let e0 = Seq::<char>::empty();
    let ind = indent_of(n);
    let line = params_text(ind, vs, e0);
    let s = pre + line + seq!['\n'] + rest;
    let p = pre.len() as int;
    lemma_params_text_split(ind, vs);
    let v = vs[0];
    let pt = plain_text(v);
    assert forall|k: int| 0 <= k < v.len() implies plain_ok(#[trigger] v[k]) by {
        assert(plain_ok(vs[0][k]));
    }
    lemma_plain_first(v);
    lemma_indent_len(n);
    let tail = params_tail(vs, 1);
    let r = tail + seq!['\n'] + rest;
    let pre1 = pre + ind;
    assert(s =~= pre1 + pt + r);
    let m: int = (4 * n) as int;
    assert forall|k: int| p <= k < p + m implies s[k] == ' ' by {
        lemma_indent_spaces(n, k - p);
        assert(s[k] == pre1[k]);
    }
    assert(s[p + m] == pt[0]);
    assert forall|i: int| 0 <= i <= m implies #[trigger] indent_scan(s, p, i, i, last, false) == (m as int, m as int) by {
        lemma_indent_scan_from(s, p, i, m, last);
    }
    assert(indent_scan(s, p, 0, 0, last, false) == (m as int, m as int));
    let q = p + m;
    if tail.len() > 0 {
        assert(tail[0] == ' ');
        assert(r[0] == ' ');
    } else {
        assert(r[0] == '\n');
    }
    law_plain_param_reads_back(pre1, v, r);
    assert(param_text(v, e0) == pt);
    let e1 = q + pt.len();
    let tok = (q, e1, v);
    assert(tok_of(val_scan(s, q).2) == tok);
    let a2 = pre1 + pt;
    assert(s =~= a2 + tail + seq!['\n'] + rest);
    lemma_rec_loop_plain(a2, vs, 1, rest, seq![tok]);
    let out = record_spec(s, p, last);
    assert(out == rec_loop(s, e1, seq![tok]));
    assert forall|i: int| 0 <= i < vs.len() implies (#[trigger] out.2[i]).2 == vs[i] by {
        if i > 0 {
            assert(out.2[1 + i - 1].2 == vs[i]);
        } else {
            assert(out.2[0] == seq![tok][0]);
        }
    }
}

/// Counting the spaces of an indent from `i` of them on.
proof fn lemma_indent_scan_from(s: Seq<char>, p: int, i: int, m: int, last: int)
    requires
        0 <= p,
        0 <= i <= m,
        p + m < s.len(),
        forall|k: int| p <= k < p + m ==> s[k] == ' ',
        !is_spc(s[p + m]),
    ensures
        indent_scan(s, p, i, i, last, false) == (m, m),
    decreases m - i,
{
    if i < m {
        assert(s[p + i] == ' ');
        lemma_indent_scan_from(s, p, i + 1, m, last);
    }
}

/// A line of a document: the indent of a record and its unquoted parameters.
pub type DocLine = (nat, Seq<Seq<char>>);

/// The text of record line `l`, with its line end.
pub open spec fn line_text(l: DocLine) -> Seq<char> {
    params_text(indent_of(l.0), l.1, Seq::empty()) + seq!['\n']
}

/// The text of the lines from `j` on.
pub open spec fn doc_from(lines: Seq<DocLine>, j: int) -> Seq<char>
    decreases lines.len() - j,
{
    if j < 0 || j >= lines.len() {
        Seq::empty()
    } else {
        line_text(lines[j]) + doc_from(lines, j + 1)
    }
}

/// Lines that a writer can give so that they read back: each record has
/// values, each of characters that read back and not starting with `#`; the
/// first record is at the top and each one at most one level deeper than the
/// one before.
pub open spec fn doc_ok(lines: Seq<DocLine>) -> bool {
    &&& forall|j: int| 0 <= j < lines.len() ==> (#[trigger] lines[j]).1.len() > 0
    &&& forall|j: int, i: int| 0 <= j < lines.len() && 0 <= i < lines[j].1.len() ==> (#[trigger] lines[j].1[i]).len() > 0
        && lines[j].1[i][0] != '#'
    &&& forall|j: int, i: int, k: int|
        0 <= j < lines.len() && 0 <= i < lines[j].1.len() && 0 <= k < lines[j].1[i].len() ==> plain_ok(
            #[trigger] lines[j].1[i][k],
        )
    &&& lines.len() > 0 ==> lines[0].0 == 0
    &&& forall|j: int| 0 < j < lines.len() ==> (#[trigger] lines[j]).0 <= lines[j - 1].0 + 1
}

/// The text from line `j` on is what follows the text of the lines before it.
proof fn lemma_doc_skip(lines: Seq<DocLine>, j: int)
    requires
        0 <= j <= lines.len(),
    ensures
        doc_from(lines, 0).len() >= doc_from(lines, j).len(),
        doc_from(lines, 0).skip(doc_from(lines, 0).len() - doc_from(lines, j).len()) == doc_from(lines, j),
    decreases j,
{
    if j > 0 {
        lemma_doc_skip(lines, j - 1);
        let s = doc_from(lines, 0);
        let a = doc_from(lines, j - 1);
        let b = doc_from(lines, j);
        assert(a == line_text(lines[j - 1]) + b);
        assert(s.skip(s.len() - b.len()) =~= a.skip(line_text(lines[j - 1]).len() as int));
        assert(a.skip(line_text(lines[j - 1]).len() as int) =~= b);
    } else {
        assert(doc_from(lines, 0).skip(0) =~= doc_from(lines, 0));
    }
}

/// A record line at `p` is no line ending or comment.
proof fn lemma_line_not_skipped(s: Seq<char>, p: int, n: nat, v: Seq<char>)
    requires
        0 <= p,
        p + 4 * n + plain_text(v).len() <= s.len(),
        forall|k: int| p <= k < p + 4 * n ==> s[k] == ' ',
        s.subrange(p + 4 * n, p + 4 * n + plain_text(v).len()) == plain_text(v),
        v.len() > 0,
        v[0] != '#',
        forall|k: int| 0 <= k < v.len() ==> plain_ok(#[trigger] v[k]),
    ensures
        skip_end(s, p) is None,
{
    lemma_plain_first(v);
    let q = p + 4 * n;
    assert forall|i: int| p <= i <= q implies #[trigger] spc_end(s, i) == q by {
        lemma_spc_run(s, i, q);
    }
    assert(s[q] == plain_text(v)[0]) by {
        assert(s.subrange(q, q + plain_text(v).len())[0] == s[q]);
    }
    assert(spc_end(s, p) == q);
    assert(!matches_at(s, q, seq!['\n'])) by {
        if matches_at(s, q, seq!['\n']) {
            assert(s.subrange(q, q + 1)[0] == s[q]);
        }
    }
    assert(!matches_at(s, q, seq!['\r', '\n'])) by {
        if matches_at(s, q, seq!['\r', '\n']) {
            assert(s.subrange(q, q + 2)[0] == s[q]);
            assert(plain_text(v)[0] != '\r') by {
                assert(plain_ok(v[0]));
            }
        }
    }
    assert(ending_end(s, p) is None);
    assert forall|x: Seq<char>| x.len() >= 1 && x[0] == '#' implies !matches_at(s, q, x) by {
        if matches_at(s, q, x) {
            assert(s.subrange(q, q + x.len())[0] == s[q]);
        }
    }
    assert(seq!['#', '!'][0] == '#');
    assert(seq!['#', '>'][0] == '#');
    assert(seq!['#'][0] == '#');
}

/// Spaces from `i` up to a non-space at `q` are one run.
proof fn lemma_spc_run(s: Seq<char>, i: int, q: int)
    requires
        0 <= i <= q < s.len(),
        forall|k: int| i <= k < q ==> s[k] == ' ',
        !is_spc(s[q]),
    ensures
        spc_end(s, i) == q,
    decreases q - i,
{
    if i < q {
        lemma_spc_run(s, i + 1, q);
    }
}

/// What reading record line `j` of the text gives: it is no line ending or
/// comment, and reads as a record at its indent with its values, ending
/// where the next line starts.
#[verifier::rlimit(40)]
proof fn lemma_doc_line(lines: Seq<DocLine>, j: int, last: int)
    requires
        doc_ok(lines),
        0 <= j < lines.len(),
        0 <= last,
        lines[j].0 <= last + 1,
    ensures
        ({
            let s = doc_from(lines, 0);
            let p = s.len() - doc_from(lines, j).len();
            let e = s.len() - doc_from(lines, j + 1).len();
            let out = record_spec(s, p, last);
            &&& 0 <= p < e <= s.len()
            &&& skip_end(s, p) is None
            &&& out.0 == 0
            &&& out.1 == e
            &&& out.2.map_values(|t: TokSpec| t.2) == lines[j].1
            &&& record_indent(s, p, last) == lines[j].0
        }),
{
    let s = doc_from(lines, 0);
    let rest = doc_from(lines, j);
    let p = s.len() - rest.len();
    lemma_doc_skip(lines, j);
    let l = lines[j];
    let n = l.0;
    let vs = l.1;
    let line = params_text(indent_of(n), vs, Seq::empty());
    let after = doc_from(lines, j + 1);
    assert(rest == line + seq!['\n'] + after);
    let pre = s.take(p);
    assert(s =~= pre + line + seq!['\n'] + after) by {
        assert(s =~= s.take(p) + s.skip(p));
    }
    assert forall|i: int| 0 <= i < vs.len() implies (#[trigger] vs[i]).len() > 0 && vs[i][0] != '#' by {
        assert(lines[j].1[i].len() > 0);
    }
    assert forall|i: int, q: int| 0 <= i < vs.len() && 0 <= q < vs[i].len() implies plain_ok(#[trigger] vs[i][q]) by {
        assert(plain_ok(lines[j].1[i][q]));
    }
    law_plain_record_reads_back(pre, n, vs, after, last);
    let out = record_spec(s, p, last);
    assert(out.2.map_values(|t: TokSpec| t.2) =~= vs);
    lemma_params_text_split(indent_of(n), vs);
    lemma_indent_len(n);
    let v0 = vs[0];
    assert forall|q: int| 0 <= q < v0.len() implies plain_ok(#[trigger] v0[q]) by {
        assert(plain_ok(vs[0][q]));
    }
    lemma_plain_first(v0);
    assert forall|q: int| p <= q < p + 4 * n implies s[q] == ' ' by {
        lemma_indent_spaces(n, q - p);
        assert(s[q] == (pre + line)[q]);
        assert(line[q - p] == indent_of(n)[q - p]);
    }
    assert(s.subrange(p + 4 * n, p + 4 * n + plain_text(v0).len()) =~= plain_text(v0)) by {
        assert forall|q: int| 0 <= q < plain_text(v0).len() implies s[p + 4 * n + q] == plain_text(v0)[q] by {
            assert(s[p + 4 * n + q] == (pre + line)[p + 4 * n + q]);
            assert(line[4 * n + q] == (indent_of(n) + plain_text(v0))[4 * n + q]);
        }
    }
    lemma_line_not_skipped(s, p, n, v0);
    assert(s[p + 4 * n] == plain_text(v0)[0]) by {
        assert(s.subrange(p + 4 * n, p + 4 * n + plain_text(v0).len())[0] == s[p + 4 * n]);
    }
    lemma_indent_scan_line(s, p, n, last, v0);
}

/// Item `it` is the record line `l`: its indent and, in order, its values.
pub open spec fn item_is_line(it: ReadItem, l: DocLine) -> bool {
    &&& it.0
    &&& it.1 == l.0
    &&& it.2.map_values(|t: TokSpec| t.2) == l.1
}

/// Reading the lines from `j` on, after a record at indent `last`, gives
/// them as records, in order.
proof fn lemma_doc_read(lines: Seq<DocLine>, j: int, last: int, k: int)
    requires
        doc_ok(lines),
        0 <= j <= lines.len(),
        0 <= last,
        j > 0 ==> last == lines[j - 1].0,
        j == 0 ==> last == 0,
    ensures
        ({
            let s = doc_from(lines, 0);
            let p = s.len() - doc_from(lines, j).len();
            read_from(s, p, last, false, Seq::empty(), k) matches Some(items) && items.len() == lines.len() - j
                && forall|i: int| 0 <= i < items.len() ==> #[trigger] item_is_line(items[i], lines[j + i])
        }),
    decreases lines.len() - j,
{
    let s = doc_from(lines, 0);
    let p = s.len() - doc_from(lines, j).len();
    lemma_doc_skip(lines, j);
    if j == lines.len() {
        assert(read_from(s, p, last, false, Seq::empty(), k) == Some(Seq::<ReadItem>::empty()));
    } else {
        if j > 0 {
            assert(lines[j].0 <= lines[j - 1].0 + 1);
        }
        lemma_doc_line(lines, j, last);
        let e = s.len() - doc_from(lines, j + 1).len();
        let out = record_spec(s, p, last);
        let n = lines[j].0;
        lemma_doc_read(lines, j + 1, n as int, k + 1);
        assert(body_at(Seq::<bool>::empty(), k) == false);
        let t2 = read_from(s, e, n as int, false, Seq::empty(), k + 1)->0;
        let bo = body_part(s, p, last, false);
        assert(bo == (0int, p, Seq::<TokSpec>::empty()));
        let item = (true, n as int, out.2);
        assert(body_items(bo, false).push(item) =~= seq![item]);
        assert(read_from(s, p, last, false, Seq::empty(), k) == then_read(
            seq![item],
            read_from(s, e, n as int, false, Seq::empty(), k + 1),
        ));
        let all = seq![item] + t2;
        assert(item_is_line(item, lines[j]));
        assert forall|i: int| 0 <= i < all.len() implies #[trigger] item_is_line(all[i], lines[j + i]) by {
            if i > 0 {
                assert(all[i] == t2[i - 1]);
                assert(item_is_line(t2[i - 1], lines[j + 1 + (i - 1)]));
            }
        }
    }
}

/// The indent of a written record line is its level.
proof fn lemma_indent_scan_line(s: Seq<char>, p: int, n: nat, last: int, v: Seq<char>)
    requires
        0 <= p,
        p + 4 * n < s.len(),
        forall|k: int| p <= k < p + 4 * n ==> s[k] == ' ',
        !is_spc(s[p + 4 * n]),
    ensures
        record_indent(s, p, last) == n,
{
    let m = (4 * n) as int;
    assert forall|i: int| 0 <= i <= m implies #[trigger] indent_scan(s, p, i, i, last, false) == (m, m) by {
        lemma_indent_scan_from(s, p, i, m, last);
    }
}

/// A document written as records of unquoted parameters reads back as
/// written: reading the whole text, no record taking a body, gives the
/// records, in order, each at its indent with its values in order.
pub proof fn law_plain_document_reads_back(lines: Seq<DocLine>)
    requires
        doc_ok(lines),
    ensures
        read_from(doc_from(lines, 0), 0, 0, false, Seq::empty(), 0) matches Some(items) && items.len() == lines.len()
            && forall|i: int| 0 <= i < items.len() ==> #[trigger] item_is_line(items[i], lines[i]),
{
    lemma_doc_read(lines, 0, 0, 0);
    let items = read_from(doc_from(lines, 0), 0, 0, false, Seq::empty(), 0)->0;
    assert forall|i: int| 0 <= i < items.len() implies #[trigger] item_is_line(items[i], lines[i]) by {
        assert(item_is_line(items[i], lines[0 + i]));
    }
}

} // verus!
