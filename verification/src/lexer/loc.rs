use vstd::prelude::*;

verus! {

/// A position in a source text: characters read so far, line and column
/// (both counted from one) and bytes read so far in UTF-8.
#[derive(Debug, Clone, Copy, PartialEq, Eq, Structural)]
pub struct Loc {
    pub pos: usize,
    pub row: usize,
    pub col: usize,
    pub byte_pos: usize,
}

/// Number of bytes of the UTF-8 encoding of a character.
pub open spec fn char_bytes(c: char) -> nat {
    if (c as u32) < 0x80 {
        1
    } else if (c as u32) < 0x800 {
        2
    } else if (c as u32) < 0x10000 {
        3
    } else {
        4
    }
}

/// Number of bytes of the UTF-8 encoding of a character sequence.
pub open spec fn bytes_len(s: Seq<char>) -> nat
    decreases s.len(),
{
    if s.len() == 0 {
        0
    } else {
        bytes_len(s.drop_last()) + char_bytes(s.last())
    }
}

/// A source text small enough that every position counter fits in a machine word.
pub open spec fn src_fits(s: Seq<char>) -> bool {
    &&& bytes_len(s) <= isize::MAX
    &&& 4 * s.len() + 8 <= usize::MAX
}

/// The location after reading one more character.
pub open spec fn loc_step(l: Loc, c: char) -> Loc {
    Loc {
        pos: (l.pos + 1) as usize,
        row: if c == '\n' {
            (l.row + 1) as usize
        } else {
            l.row
        },
        col: if c == '\n' {
            1
        } else if c != '\r' {
            (l.col + 1) as usize
        } else {
            l.col
        },
        byte_pos: (l.byte_pos + char_bytes(c)) as usize,
    }
}

/// The location after reading a sequence of characters.
pub open spec fn loc_advance(l: Loc, s: Seq<char>) -> Loc
    decreases s.len(),
{
    if s.len() == 0 {
        l
    } else {
        loc_step(loc_advance(l, s.drop_last()), s.last())
    }
}

/// Bounds that a location reached after reading the first `k` characters of `src` keeps.
pub open spec fn loc_within(l: Loc, src: Seq<char>, k: int) -> bool {
    &&& l.pos <= k
    &&& l.row <= l.pos + 1
    &&& l.col <= l.pos + 1
    &&& l.byte_pos <= bytes_len(src.take(k))
}

pub proof fn lemma_bytes_len_take_step(s: Seq<char>, k: int)
    requires
        0 <= k < s.len(),
    ensures
        bytes_len(s.take(k + 1)) == bytes_len(s.take(k)) + char_bytes(s[k]),
{
    assert(s.take(k + 1).drop_last() =~= s.take(k));
}

pub proof fn lemma_bytes_len_take_mono(s: Seq<char>, j: int, k: int)
    requires
        0 <= j <= k <= s.len(),
    ensures
        bytes_len(s.take(j)) <= bytes_len(s.take(k)),
    decreases k - j,
{
    if j < k {
        lemma_bytes_len_take_step(s, k - 1);
        lemma_bytes_len_take_mono(s, j, k - 1);
    }
}

pub proof fn lemma_bytes_len_whole(s: Seq<char>, k: int)
    requires
        0 <= k <= s.len(),
    ensures
        bytes_len(s.take(k)) <= bytes_len(s),
{
    lemma_bytes_len_take_mono(s, k, s.len() as int);
    assert(s.take(s.len() as int) =~= s);
}

/// Reading one more character of `src` keeps a location within its bounds.
pub proof fn lemma_loc_step_within(l: Loc, src: Seq<char>, k: int)
    requires
        0 <= k < src.len(),
        loc_within(l, src, k),
        src_fits(src),
    ensures
        loc_within(loc_step(l, src[k]), src, k + 1),
        l.pos + 1 <= usize::MAX,
        l.row + 1 <= usize::MAX,
        l.col + 1 <= usize::MAX,
        l.byte_pos + char_bytes(src[k]) <= usize::MAX,
{
    lemma_bytes_len_take_step(src, k);
    lemma_bytes_len_whole(src, k + 1);
}

impl Loc {
    /// The location of the first character of a text.
    pub fn one() -> (l: Loc)
        ensures
            l == Loc::spec_one(),
    {
        Loc { pos: 0, row: 1, col: 1, byte_pos: 0 }
    }

    /// All counters at zero.
    pub open spec fn spec_default() -> Loc {
        Loc { pos: 0, row: 0, col: 0, byte_pos: 0 }
    }

    pub open spec fn spec_one() -> Loc {
        Loc { pos: 0, row: 1, col: 1, byte_pos: 0 }
    }

    /// Lexicographic order on (pos, row, col, byte_pos).
    pub open spec fn spec_lt(self, other: Loc) -> bool {
        ||| self.pos < other.pos
        ||| (self.pos == other.pos && self.row < other.row)
        ||| (self.pos == other.pos && self.row == other.row && self.col < other.col)
        ||| (self.pos == other.pos && self.row == other.row && self.col == other.col
            && self.byte_pos < other.byte_pos)
    }

    /// Whether this location comes strictly before another one.
    pub fn lt(&self, other: &Loc) -> (r: bool)
        ensures
            r == self.spec_lt(*other),
    {
        if self.pos != other.pos {
            self.pos < other.pos
        } else if self.row != other.row {
            self.row < other.row
        } else if self.col != other.col {
            self.col < other.col
        } else {
            self.byte_pos < other.byte_pos
        }
    }
}

impl Default for Loc {
    fn default() -> (l: Loc)
        ensures
            l == Loc::spec_default(),
    {
        Loc { pos: 0, row: 0, col: 0, byte_pos: 0 }
    }
}

/// Number of UTF-8 bytes of a character.
pub fn char_byte_len(c: char) -> (n: usize)
    ensures
        n == char_bytes(c),
{
    let u = c as u32;
    if u < 0x80 {
        1
    } else if u < 0x800 {
        2
    } else if u < 0x10000 {
        3
    } else {
        4
    }
}

/// The location after reading one more character.
pub fn step_loc(l: Loc, c: char) -> (r: Loc)
    requires
        l.pos + 1 <= usize::MAX,
        l.row + 1 <= usize::MAX,
        l.col + 1 <= usize::MAX,
        l.byte_pos + char_bytes(c) <= usize::MAX,
    ensures
        r == loc_step(l, c),
{
    let b = char_byte_len(c);
    Loc {
        pos: l.pos + 1,
        row: if c == '\n' {
            l.row + 1
        } else {
            l.row
        },
        col: if c == '\n' {
            1
        } else if c != '\r' {
            l.col + 1
        } else {
            l.col
        },
        byte_pos: l.byte_pos + b,
    }
}

} // verus!
