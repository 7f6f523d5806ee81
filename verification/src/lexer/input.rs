use vstd::prelude::*;

use super::loc::{Loc, loc_within, src_fits, loc_advance, lemma_loc_step_within, lemma_bytes_len_take_mono, step_loc};

verus! {

/// A cursor over a character source. The characters before `pos` are
/// read; the next `buf_len` characters are held ahead in the buffer.
#[derive(Debug)]
pub struct Input<'a> {
    src: &'a [char],
    pos: usize,
    buf_len: usize,
    loc: Loc,
    prev_loc: Loc,
}

/// The buffer length after asking for `m` characters ahead: it grows up to
/// `m`, as far as the source has characters left.
pub open spec fn reserved(buf_len: int, rem: int, m: int) -> int {
    if buf_len >= m {
        buf_len
    } else if m <= rem {
        m
    } else {
        rem
    }
}

impl<'a> Clone for Input<'a> {
    fn clone(&self) -> (r: Self)
        ensures
            r == *self,
    {
        Input {
            src: self.src,
            pos: self.pos,
            buf_len: self.buf_len,
            loc: self.loc,
            prev_loc: self.prev_loc,
        }
    }
}

impl<'a> Input<'a> {
    pub closed spec fn src_seq(&self) -> Seq<char> {
        self.src@
    }

    pub closed spec fn pos(&self) -> int {
        self.pos as int
    }

    pub closed spec fn buf_len(&self) -> int {
        self.buf_len as int
    }

    pub closed spec fn spec_loc(&self) -> Loc {
        self.loc
    }

    pub closed spec fn spec_prev_loc(&self) -> Loc {
        self.prev_loc
    }

    /// Characters left in the source after the cursor.
    pub open spec fn rem(&self) -> int {
        self.src_seq().len() - self.pos()
    }

    pub open spec fn wf(&self) -> bool {
        &&& self.wf_core()
        &&& loc_within(self.spec_loc(), self.src_seq(), self.pos())
    }

    /// The cursor invariant, apart from the bounds of the location.
    pub open spec fn wf_core(&self) -> bool {
        &&& 0 <= self.pos()
        &&& 0 <= self.buf_len()
        &&& self.pos() + self.buf_len() <= self.src_seq().len()
        &&& src_fits(self.src_seq())
    }

    /// The same cursor with another buffer length.
    pub open spec fn with_buf(&self, other: &Input<'a>) -> bool {
        &&& other.src_seq() == self.src_seq()
        &&& other.pos() == self.pos()
        &&& other.spec_loc() == self.spec_loc()
        &&& other.spec_prev_loc() == self.spec_prev_loc()
    }

    pub fn new(src: &'a [char]) -> (r: Input<'a>)
        requires
            src_fits(src@),
        ensures
            r.src_seq() == src@,
            r.pos() == 0,
            r.buf_len() == 0,
            r.spec_loc() == Loc::spec_one(),
            r.spec_prev_loc() == Loc::spec_one(),
            r.wf(),
    {
        proof {
            assert(src@.take(0) =~= Seq::<char>::empty());
        }
        Input { src, pos: 0, buf_len: 0, loc: Loc::one(), prev_loc: Loc::one() }
    }

    /// Reads characters ahead into the buffer until it holds `m` of them or the source ends.
    pub fn reserve(&mut self, m: usize)
        requires
            old(self).wf(),
        ensures
            final(self).wf(),
            old(self).with_buf(&*final(self)),
            final(self).buf_len() == reserved(old(self).buf_len(), old(self).rem(), m as int),
    {
        let rem = self.src.len() - self.pos;
        if self.buf_len < m {
            if m <= rem {
                self.buf_len = m;
            } else {
                self.buf_len = rem;
            }
        }
    }

    /// The `n` buffered characters that start `i` characters ahead, if the buffer holds them.
    pub fn get(&self, i: usize, n: usize) -> (r: Option<&'a [char]>)
        requires
            self.wf(),
            i + n <= usize::MAX,
        ensures
            r is Some <==> self.buf_len() >= i + n,
            r matches Some(s) ==> s@ == self.src_seq().subrange(
                self.pos() + i,
                self.pos() + i + n,
            ),
    {
        let m = i + n;
        if self.buf_len >= m {
            let s: &'a [char] = self.src;
            Some(&s[self.pos + i..self.pos + m])
        } else {
            None
        }
    }

    /// Reads ahead, then returns the `n` characters that start `i` characters ahead.
    pub fn get_reserve(&mut self, i: usize, n: usize) -> (r: Option<&'a [char]>)
        requires
            old(self).wf(),
            i + n <= usize::MAX,
        ensures
            final(self).wf(),
            old(self).with_buf(&*final(self)),
            final(self).buf_len() == reserved(old(self).buf_len(), old(self).rem(), i + n),
            r is Some <==> i + n <= old(self).rem(),
            r matches Some(s) ==> s@ == old(self).src_seq().subrange(
                old(self).pos() + i,
                old(self).pos() + i + n,
            ),
    {
        self.reserve(i + n);
        self.get(i, n)
    }

    fn calc_loc(&mut self, n: usize)
        requires
            old(self).wf(),
        ensures
            final(self).wf_core(),
            n <= old(self).rem() ==> loc_within(final(self).spec_loc(), final(self).src_seq(), final(self).pos() + n),
            n > old(self).rem() ==> final(self).wf(),
            final(self).src_seq() == old(self).src_seq(),
            final(self).pos() == old(self).pos(),
            final(self).buf_len() == reserved(old(self).buf_len(), old(self).rem(), n as int),
            n <= old(self).rem() ==> final(self).spec_loc() == loc_advance(
                old(self).spec_loc(),
                old(self).src_seq().subrange(old(self).pos(), old(self).pos() + n),
            ),
            n <= old(self).rem() ==> final(self).spec_prev_loc() == old(self).spec_loc(),
            n > old(self).rem() ==> final(self).spec_loc() == old(self).spec_loc(),
            n > old(self).rem() ==> final(self).spec_prev_loc() == old(self).spec_prev_loc(),
    {
        let mut loc = self.loc;
        if let Some(v) = self.get_reserve(0, n) {
            let ghost start = self.pos as int;
            let ghost src = self.src@;
            let mut k: usize = 0;
            while k < v.len()
                invariant
                    0 <= k <= v@.len(),
                    v@ == src.subrange(start, start + n),
                    start + n <= src.len(),
                    src_fits(src),
                    loc == loc_advance(self.loc, v@.take(k as int)),
                    loc_within(loc, src, start + k),
                    loc_within(self.loc, src, start),
                    loc.pos == self.loc.pos + k,
                decreases v@.len() - k,
            {
                proof {
                    lemma_loc_step_within(loc, src, start + k);
                    assert(v@.take(k + 1).drop_last() =~= v@.take(k as int));
                    assert(v@[k as int] == src[start + k]);
                }
                loc = step_loc(loc, v[k]);
                k = k + 1;
            }
            proof {
                assert(v@.take(k as int) =~= v@);
            }
            self.prev_loc = self.loc;
            self.loc = loc;
        }
    }

    /// Moves the cursor `n` characters on. Returns whether the buffer held fewer
    /// than `n` characters beforehand.
    pub fn next(&mut self, n: usize) -> (e: bool)
        requires
            old(self).wf(),
        ensures
            final(self).wf(),
            e == (old(self).buf_len() < n),
            final(self).src_seq() == old(self).src_seq(),
            n <= old(self).rem() ==> final(self).pos() == old(self).pos() + n,
            n <= old(self).rem() ==> final(self).buf_len() == reserved(
                old(self).buf_len(),
                old(self).rem(),
                n as int,
            ) - n,
            n <= old(self).rem() ==> final(self).spec_loc() == loc_advance(
                old(self).spec_loc(),
                old(self).src_seq().subrange(old(self).pos(), old(self).pos() + n),
            ),
            n <= old(self).rem() ==> final(self).spec_prev_loc() == old(self).spec_loc(),
            n > old(self).rem() ==> final(self).pos() == old(self).src_seq().len(),
            n > old(self).rem() ==> final(self).buf_len() == 0,
            n > old(self).rem() ==> final(self).spec_loc() == old(self).spec_loc(),
            n > old(self).rem() ==> final(self).spec_prev_loc() == old(self).spec_prev_loc(),
    {
        let e = self.buf_len < n;
        self.calc_loc(n);
        let d = if self.buf_len < n {
            self.buf_len
        } else {
            n
        };
        self.pos = self.pos + d;
        self.buf_len = self.buf_len - d;
        proof {
            if n > old(self).rem() {
                assert(loc_within(self.loc, self.src@, old(self).pos()));
                lemma_bytes_len_take_mono(self.src@, old(self).pos(), self.pos as int);
            }
        }
        e
    }

    /// Whether the buffer holds at least `n` characters.
    pub fn has_buf_left(&self, n: usize) -> (r: bool)
        ensures
            r == (self.buf_len() >= n),
    {
        self.buf_len >= n
    }

    pub fn loc(&self) -> (l: Loc)
        ensures
            l == self.spec_loc(),
    {
        self.loc
    }
}

} // verus!
