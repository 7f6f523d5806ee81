use vstd::prelude::*;
use vstd::std_specs::iter::IteratorSpec;

verus! {

/// `String::push`: appends one character.
#[verifier::external_body]
pub(crate) fn string_push(s: &mut String, c: char)
    ensures
        final(s)@ == old(s)@.push(c),
{
    s.push(c);
}

/// The characters of a string slice, in order.
pub(crate) fn str_to_chars(s: &str) -> (v: Vec<char>)
    ensures
        v@ == s@,
{
    broadcast use vstd::string::axiom_spec_iter, vstd::string::next_postcondition;

    let mut it = s.chars();
    let mut v: Vec<char> = Vec::new();
    loop
        invariant
            v@ + it.remaining() == s@,
            it.obeys_prophetic_iter_laws(),
            it.decrease() is Some,
        decreases it.decrease()->0,
    {
        let ghost before = it.remaining();
        match it.next() {
            Some(c) => {
                v.push(c);
                proof {
                    assert(v@ + it.remaining() =~= s@) by {
                        assert(before =~= seq![c] + it.remaining());
                    }
                }
            },
            None => {
                proof {
                    assert(v@ =~= s@);
                }
                return v;
            },
        }
    }
}

/// Appends the characters of a slice to a string.
pub(crate) fn push_chars(s: &mut String, cs: &[char])
    ensures
        final(s)@ == old(s)@ + cs@,
{
    let mut k: usize = 0;
    while k < cs.len()
        invariant
            k <= cs@.len(),
            s@ == old(s)@ + cs@.take(k as int),
        decreases cs@.len() - k,
    {
        string_push(s, cs[k]);
        k = k + 1;
        proof {
            assert(cs@.take(k as int) =~= cs@.take(k - 1).push(cs@[k - 1]));
        }
    }
    proof {
        assert(cs@.take(k as int) =~= cs@);
    }
}

/// Appends the characters of a string slice to a string.
pub(crate) fn push_str(s: &mut String, t: &str)
    ensures
        final(s)@ == old(s)@ + t@,
{
    s.append(t);
}

/// Whether a character slice holds exactly the characters of a string slice.
pub(crate) fn chars_eq_str(cs: &[char], t: &str) -> (r: bool)
    ensures
        r == (cs@ == t@),
{
    let n = t.unicode_len();
    if cs.len() != n {
        return false;
    }
    let mut k: usize = 0;
    while k < n
        invariant
            k <= n,
            n == t@.len(),
            cs@.len() == n,
            forall|j: int| 0 <= j < k ==> cs@[j] == t@[j],
        decreases n - k,
    {
        if cs[k] != t.get_char(k) {
            return false;
        }
        k = k + 1;
    }
    proof {
        assert(cs@ =~= t@);
    }
    true
}

/// Whether two string slices hold the same characters.
pub(crate) fn str_eq(a: &str, b: &str) -> (r: bool)
    ensures
        r == (a@ == b@),
{
    let n = a.unicode_len();
    if b.unicode_len() != n {
        return false;
    }
    let mut k: usize = 0;
    while k < n
        invariant
            k <= n,
            n == a@.len(),
            b@.len() == n,
            forall|j: int| 0 <= j < k ==> a@[j] == b@[j],
        decreases n - k,
    {
        if a.get_char(k) != b.get_char(k) {
            return false;
        }
        k = k + 1;
    }
    proof {
        assert(a@ =~= b@);
    }
    true
}

/// A new string holding the characters of a string slice.
pub(crate) fn str_to_string(t: &str) -> (s: String)
    ensures
        s@ == t@,
{
    t.to_owned()
}

} // verus!
