use vstd::prelude::*;

use crate::lexer::{Lexer, Token, matches_at};
use crate::paths::opt_path_to_buf;
use super::error::{ParseError, ParseErrorType};
use super::grammar::{
    parse_indent, parse_sep, parse_cmnt, parse_ending, parse_not_eols, read_val, lexer_at,
    loc_of, record_spec, record_indent, rec_loop, rec_end, tokens_are, token_is, err_is,
    val_scan, tok_of, delim_at, sep_end, cmnt_end, ending_end, indent_scan, not_eol_end,
    eol_len, spc_end, is_spc, TokSpec, RecOut, unchanged, buf_only, consumed,
    lemma_loc_of_at, lemma_push_keep, lemma_push_discard, lemma_val_scan_bounds,
    lemma_sep_end_bounds, lemma_indent_scan_bounds, lemma_spc_end_bounds, lemma_not_eol_end_bounds,
    lemma_moved_trans, lemma_moved_zero, lemma_consumed_moved,
};

use std::path::Path;

verus! {

/// Reads one record: its indent and the tokens of its values.
/// `record => indent val (sep val)* (cmnt | ending)`.
/// `Ok(None)` where no value starts after the indent; the outcome otherwise
/// follows `record_spec`.
#[verifier::rlimit(50)]
pub fn parse_record(lexer: &mut Lexer, last_indent: usize, path: Option<&Path>) -> (r: Result<
    Option<(usize, Vec<Token>)>,
    ParseError,
>)
    requires
        lexer_at(&*old(lexer), old(lexer).src_seq(), old(lexer).pos()),
        last_indent <= old(lexer).src_seq().len(),
    ensures
        final(lexer).wf(),
        final(lexer).src_seq() == old(lexer).src_seq(),
        ({
            let s = old(lexer).src_seq();
            let p = old(lexer).pos();
            let out = record_spec(s, p, last_indent as int);
            &&& 0 <= out.0 <= 6
            &&& out.0 == 0 ==> (r matches Ok(Some((ind, ts))) && ind == record_indent(
                s,
                p,
                last_indent as int,
            ) && tokens_are(ts@, s, out.2) && ts.len() >= 1 && lexer_at(&*final(lexer), s, out.1)
                && out.1 > p)
            &&& out.0 == 6 ==> (r matches Ok(None) && lexer_at(&*final(lexer), s, p))
            &&& (1 <= out.0 <= 5) ==> (r matches Err(err) && err_is(
                err,
                out.0,
                loc_of(s, out.1),
                out.3,
                path is Some,
            ))
        }),
{
    let ghost s = lexer.src_seq();
    let ghost p = lexer.pos();
    let ghost last = last_indent as int;
    let ghost a = *lexer;
    let mut tokens: Vec<Token> = Vec::new();
    lexer.push();
    let ghost b = *lexer;
    proof {
        assert(b.stack()[0] == a.stack()[0]);
        lemma_indent_scan_bounds(s, p, 0, 0, last, false);
    }
    let indent = match parse_indent(lexer, last_indent, false, path) {
        Ok(i) => i,
        Err(e) => {
            proof {
                let (i, sp) = indent_scan(s, p, 0, 0, last, false);
                lemma_loc_of_at(s, p, p + i);
            }
            return Err(e);
        },
    };
    let ghost c = *lexer;
    let ghost q = c.pos();
    proof {
        let (i, sp) = indent_scan(s, p, 0, 0, last, false);
        lemma_loc_of_at(s, p, p + i);
        assert(q == p + i);
        lemma_val_scan_bounds(s, q);
    }
    let first = read_val(lexer, path);
    let ghost d = *lexer;
    let t = match first {
        Err(e) => {
            return Err(e);
        },
        Ok(None) => {
            lexer.pop_discard();
            proof {
                lemma_push_discard(&a, &b, &d, &*lexer);
            }
            return Ok(None);
        },
        Ok(Some(t)) => t,
    };
    tokens.push(t);
    lexer.pop_keep();
    proof {
        lemma_push_keep(&a, &b, &d, &*lexer);
    }
    let ghost (kind0, e0, acc0) = val_scan(s, q);
    let ghost mut k: int = e0;
    let ghost mut toks: Seq<TokSpec> = seq![tok_of(acc0)];
    proof {
        assert(tokens@ =~= seq![t]);
        assert(rec_loop(s, k, toks) == record_spec(s, p, last));
    }
    loop
        invariant
            s == old(lexer).src_seq(),
            p == old(lexer).pos(),
            last == last_indent,
            indent as int == record_indent(s, p, last),
            lexer_at(&*lexer, s, k),
            p < k <= s.len(),
            tokens_are(tokens@, s, toks),
            tokens@.len() >= 1,
            rec_loop(s, k, toks) == record_spec(s, p, last),
        ensures
            lexer_at(&*lexer, s, k),
            p < k <= s.len(),
            tokens_are(tokens@, s, toks),
            tokens@.len() >= 1,
            rec_end(s, k, toks) == record_spec(s, p, last),
        decreases s.len() - k,
    {
        let ghost a1 = *lexer;
        lexer.push();
        let ghost b1 = *lexer;
        proof {
            assert(b1.stack()[0] == a1.stack()[0]);
            lemma_sep_end_bounds(s, k);
        }
        if !parse_sep(lexer) {
            proof {
                lemma_loc_of_at(s, k, k);
                assert(s.subrange(k, k) =~= Seq::<char>::empty());
            }
            break;
        }
        let ghost k1 = sep_end(s, k);
        let ghost c1 = *lexer;
        proof {
            lemma_loc_of_at(s, k, k1);
        }
        if parse_cmnt(lexer) {
            let ghost e = cmnt_end(s, k1)->0;
            let ghost d1 = *lexer;
            lexer.pop_keep();
            proof {
                assert(b1.same_frame(&d1));
                lemma_push_keep(&a1, &b1, &d1, &*lexer);
                lemma_loc_of_at(s, k1, e);
                assert(a1.same_frame(&*lexer));
                assert(lexer.src_seq() == a1.src_seq());
            }
            return Ok(Some((indent, tokens)));
        }
        proof {
            lemma_val_scan_bounds(s, k1);
        }
        let v = read_val(lexer, path);
        let ghost d1 = *lexer;
        match v {
            Err(e) => {
                return Err(e);
            },
            Ok(None) => {
                lexer.pop_discard();
                proof {
                    lemma_push_discard(&a1, &b1, &d1, &*lexer);
                }
                break;
            },
            Ok(Some(t)) => {
                let ghost (kind, e, acc) = val_scan(s, k1);
                tokens.push(t);
                lexer.pop_keep();
                proof {
                    lemma_push_keep(&a1, &b1, &d1, &*lexer);
                    toks = toks.push(tok_of(acc));
                    k = e;
                }
            },
        }
    }
    let ghost a2 = *lexer;
    if !parse_ending(lexer) {
        return Err(
            ParseError {
                path: opt_path_to_buf(path),
                loc: lexer.loc(),
                error_type: ParseErrorType::ExpectedEOL,
            },
        );
    }
    proof {
        let e = ending_end(s, k)->0;
        lemma_loc_of_at(s, k, e);
    }
    Ok(Some((indent, tokens)))
}

/// The outcome of reading a body from `k`, after the text lines `toks`, as
/// (code, position, tokens): code 0 is a body ending at `position`; 4 an indent
/// that is not a multiple of four, reported at `position`.
/// `body => (ending | indent not_eols ending)*` while lines are indented deeper
/// than `last`; each such line gives the text after the first `last + 1` levels
/// of indent, if any.
pub open spec fn body_loop(s: Seq<char>, k: int, last: int, toks: Seq<TokSpec>) -> (int, int, Seq<TokSpec>)
    decreases s.len() - k,
{
    if k < 0 || k >= s.len() {
        (0, k, toks)
    } else if ending_end(s, k) is Some && k < ending_end(s, k)->0 <= s.len() {
        body_loop(s, ending_end(s, k)->0, last, toks)
    } else {
        let (i, sp) = indent_scan(s, k, 0, 0, last, true);
        let q = k + i;
        if sp / 4 <= last {
            (0, k, toks)
        } else if sp % 4 != 0 {
            (4, q, toks)
        } else if sp / 4 > last + 1 {
            (5, q, toks)
        } else {
            let n = not_eol_end(s, q);
            let toks2 = if n > q {
                toks.push((q, n, s.subrange(q, n)))
            } else {
                toks
            };
            match ending_end(s, n) {
                Some(e) => if k < e <= s.len() {
                    body_loop(s, e, last, toks2)
                } else {
                    (0, k, toks)
                },
                None => (0, k, toks),
            }
        }
    }
}

/// The end of a line always closes with an ending.
proof fn lemma_not_eol_ending(s: Seq<char>, k: int)
    requires
        0 <= k <= s.len(),
    ensures
        ending_end(s, not_eol_end(s, k)) matches Some(e) && e >= not_eol_end(s, k) && e <= s.len(),
{
    lemma_not_eol_end_bounds(s, k);
    let n = not_eol_end(s, k);
    if n < s.len() {
        assert(!is_spc(s[n])) by {
            assert(eol_len(s, n) > 0);
            if matches_at(s, n, seq!['\n']) {
                assert(s.subrange(n, n + 1)[0] == s[n]);
            } else {
                assert(s.subrange(n, n + 2)[0] == s[n]);
            }
        }
        assert(spc_end(s, n) == n);
    } else {
        assert(spc_end(s, n) == n);
    }
}

/// Reads the lines of a body: each line indented deeper than `last_indent`
/// gives a token with the text after the indent of `last_indent + 1`; blank
/// lines are skipped. Stops at the first line indented no deeper, or at the end.
pub fn parse_body(lexer: &mut Lexer, last_indent: usize, path: Option<&Path>) -> (r: Result<
    Vec<Token>,
    ParseError,
>)
    requires
        lexer_at(&*old(lexer), old(lexer).src_seq(), old(lexer).pos()),
        last_indent <= old(lexer).src_seq().len(),
    ensures
        final(lexer).wf(),
        final(lexer).src_seq() == old(lexer).src_seq(),
        ({
            let s = old(lexer).src_seq();
            let p = old(lexer).pos();
            let out = body_loop(s, p, last_indent as int, Seq::<TokSpec>::empty());
            &&& out.0 == 0 || out.0 == 4 || out.0 == 5
            &&& out.0 == 0 ==> (r matches Ok(ts) && tokens_are(ts@, s, out.2) && lexer_at(
                &*final(lexer),
                s,
                out.1,
            ) && out.1 >= p)
            &&& out.0 != 0 ==> (r matches Err(err) && err_is(
                err,
                out.0,
                loc_of(s, out.1),
                Seq::<char>::empty(),
                path is Some,
            ))
        }),
{
    let ghost s = lexer.src_seq();
    let ghost p = lexer.pos();
    let ghost last = last_indent as int;
    let mut tokens: Vec<Token> = Vec::new();
    let ghost mut k: int = p;
    let ghost mut toks: Seq<TokSpec> = Seq::empty();
    loop
        invariant
            s == old(lexer).src_seq(),
            p == old(lexer).pos(),
            lexer_at(&*lexer, s, k),
            p <= k <= s.len(),
            last == last_indent,
            last <= s.len(),
            tokens_are(tokens@, s, toks),
            body_loop(s, k, last, toks) == body_loop(s, p, last, Seq::<TokSpec>::empty()),
        ensures
            lexer_at(&*lexer, s, k),
            p <= k <= s.len(),
            tokens_are(tokens@, s, toks),
            body_loop(s, p, last, Seq::<TokSpec>::empty()) == (0int, k, toks),
        decreases s.len() - k,
    {
        let ghost a = *lexer;
        if lexer.is_end() {
            break;
        }
        let ghost a0 = *lexer;
        proof {
            lemma_spc_end_bounds(s, k);
        }
        if parse_ending(lexer) {
            proof {
                let e = ending_end(s, k)->0;
                lemma_loc_of_at(s, k, e);
                k = e;
            }
            continue;
        }
        lexer.push();
        let ghost b = *lexer;
        proof {
            assert(b.stack()[0] == a0.stack()[0]);
            lemma_indent_scan_bounds(s, k, 0, 0, last, true);
        }
        let indent = match parse_indent(lexer, last_indent, true, path) {
            Ok(i) => i,
            Err(e) => {
                proof {
                    let (i, sp) = indent_scan(s, k, 0, 0, last, true);
                    lemma_loc_of_at(s, k, k + i);
                }
                return Err(e);
            },
        };
        let ghost c = *lexer;
        if indent <= last_indent {
            lexer.pop_discard();
            proof {
                lemma_push_discard(&a0, &b, &c, &*lexer);
            }
            break;
        }
        lexer.pop_keep();
        proof {
            lemma_push_keep(&a0, &b, &c, &*lexer);
        }
        let ghost q = lexer.pos();
        let ghost c2 = *lexer;
        proof {
            let (i, sp) = indent_scan(s, k, 0, 0, last, true);
            lemma_loc_of_at(s, k, k + i);
            assert(q == k + i);
            lemma_not_eol_end_bounds(s, q);
            lemma_not_eol_ending(s, q);
        }
        let ghost n = not_eol_end(s, q);
        if parse_not_eols(lexer, false) {
            let ghost c3 = *lexer;
            let t = lexer.token();
            match t {
                Some(t) => {
                    tokens.push(t);
                },
                None => {},
            }
            proof {
                lemma_loc_of_at(s, q, n);
                toks = toks.push((q, n, s.subrange(q, n)));
            }
        } else {
            proof {
                lemma_loc_of_at(s, q, q);
                assert(s.subrange(q, q) =~= Seq::<char>::empty());
            }
        }
        let ghost c4 = *lexer;
        let ghost e = ending_end(s, n)->0;
        let _ = parse_ending(lexer);
        proof {
            lemma_loc_of_at(s, n, e);
            k = e;
        }
    }
    Ok(tokens)
}

} // verus!
