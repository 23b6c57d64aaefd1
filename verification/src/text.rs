//! Strings as sequences of scalar values.
//!
//! The algorithms of this crate work on `char`s, one per Unicode scalar value.
//! The functions here take a string apart into that form and put one together
//! again.

use vstd::prelude::*;

verus! {

/// The scalar values of `s`, in order.
pub fn chars_of(s: &str) -> (v: Vec<char>)
    ensures
        v@ == s@,
{
    let mut v: Vec<char> = Vec::new();
    for c in it: s.chars()
        invariant
            it.seq() == s@,
            v@ == s@.take(it.index()),
    {
        v.push(c);
    }
    v
}

/// The number of scalar values in `s`.
pub fn scalar_length(s: &str) -> (n: usize)
    ensures
        n == s@.len(),
{
    s.unicode_len()
}

/// What `String::push` does: the character is added at the end of the string,
/// and the rest of the string stays as it was.
pub assume_specification[ String::push ](s: &mut String, ch: char)
    ensures
        final(s)@ == old(s)@.push(ch),
;

/// The string made of the scalar values `chars`, in order.
pub fn string_of(chars: &[char]) -> (s: String)
    ensures
        s@ == chars@,
{
    let mut s = String::new();
    for i in 0..chars.len()
        invariant
            s@ == chars@.take(i as int),
    {
        s.push(chars[i]);
    }
    proof {
        assert(chars@.take(chars.len() as int) == chars@);
    }
    s
}

/// What a list of character vectors holds: the sequence of scalar values of
/// each, in the order of the list.
pub open spec fn seqs_of(v: Seq<Vec<char>>) -> Seq<Seq<char>> {
    Seq::new(v.len(), |i: int| v[i]@)
}

} // verus!
