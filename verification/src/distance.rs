//! The Levenshtein distance.
//!
//! A string is read as its sequence of Unicode scalar values, so a character that
//! takes several bytes in UTF-8 still counts as one unit.

use crate::edits::{is_least_number_of_edits, lemma_distance_is_least};
use crate::text::{chars_of, scalar_length};
use vstd::prelude::*;

verus! {

/// The smallest of three numbers.
pub open spec fn min3(x: nat, y: nat, z: nat) -> nat {
    if x <= y && x <= z {
        x
    } else if y <= z {
        y
    } else {
        z
    }
}

/// The Levenshtein distance between `a` and `b`.
///
/// Turning `a` into nothing costs one deletion for each of its elements, and
/// making `b` out of nothing costs one insertion for each of `b`'s. Otherwise
/// the last elements are compared: where they agree they cost nothing, and
/// where they differ the cheapest of a deletion (drop the last of `a`), an
/// insertion (supply the last of `b`) and a substitution is paid for.
pub open spec fn edit_distance(a: Seq<char>, b: Seq<char>) -> nat
    decreases a.len() + b.len(),
{
    if a.len() == 0 {
        b.len()
    } else if b.len() == 0 {
        a.len()
    } else if a.last() == b.last() {
        edit_distance(a.drop_last(), b.drop_last())
    } else {
        1 + min3(
            edit_distance(a.drop_last(), b),
            edit_distance(a, b.drop_last()),
            edit_distance(a.drop_last(), b.drop_last()),
        )
    }
}

/// The distance never exceeds the length of the longer sequence.
pub proof fn lemma_distance_at_most_longer(a: Seq<char>, b: Seq<char>)
    ensures
        edit_distance(a, b) <= a.len() || edit_distance(a, b) <= b.len(),
    decreases a.len() + b.len(),
{
    if a.len() > 0 && b.len() > 0 {
        lemma_distance_at_most_longer(a.drop_last(), b.drop_last());
    }
}

/// Every sequence is at distance zero from itself.
pub proof fn lemma_distance_to_self(s: Seq<char>)
    ensures
        edit_distance(s, s) == 0,
    decreases s.len(),
{
    if s.len() > 0 {
        lemma_distance_to_self(s.drop_last());
    }
}

/// The distance does not depend on the direction: from `a` to `b` it is as far
/// as from `b` to `a`.
pub proof fn lemma_distance_symmetric(a: Seq<char>, b: Seq<char>)
    ensures
        edit_distance(a, b) == edit_distance(b, a),
    decreases a.len() + b.len(),
{
    if a.len() > 0 && b.len() > 0 {
        lemma_distance_symmetric(a.drop_last(), b.drop_last());
        lemma_distance_symmetric(a.drop_last(), b);
        lemma_distance_symmetric(a, b.drop_last());
    }
}

/// The distance between the empty sequence and `a`, in either direction, is the
/// length of `a`.
pub proof fn lemma_distance_from_empty(a: Seq<char>)
    ensures
        edit_distance(Seq::<char>::empty(), a) == a.len(),
        edit_distance(a, Seq::<char>::empty()) == a.len(),
{
}

/// Sequences of one scalar value each are at distance one where the two values
/// differ, whatever the values are and however many bytes they take in a
/// string.
pub proof fn lemma_distance_of_singles(x: char, y: char)
    ensures
        edit_distance(seq![x], seq![y]) == if x == y {
            0nat
        } else {
            1nat
        },
{
    let a = seq![x];
    let b = seq![y];
    assert(a.drop_last() == Seq::<char>::empty());
    assert(b.drop_last() == Seq::<char>::empty());
    assert(a.last() == x);
    assert(b.last() == y);
    assert(edit_distance(a.drop_last(), b) == 1);
    assert(edit_distance(a, b.drop_last()) == 1);
    assert(edit_distance(a.drop_last(), b.drop_last()) == 0);
}

/// The distance is at least the difference of the lengths.
pub proof fn lemma_distance_at_least_gap(a: Seq<char>, b: Seq<char>)
    ensures
        a.len() <= b.len() + edit_distance(a, b),
        b.len() <= a.len() + edit_distance(a, b),
    decreases a.len() + b.len(),
{
    if a.len() > 0 && b.len() > 0 {
        lemma_distance_at_least_gap(a.drop_last(), b.drop_last());
        lemma_distance_at_least_gap(a.drop_last(), b);
        lemma_distance_at_least_gap(a, b.drop_last());
    }
}

/// One more element at the end of a sequence changes its distance to another
/// by one at most, up or down.
pub proof fn lemma_distance_with_one_more(a: Seq<char>, b: Seq<char>, c: char)
    ensures
        edit_distance(a.push(c), b) <= edit_distance(a, b) + 1,
        edit_distance(a, b) <= edit_distance(a.push(c), b) + 1,
    decreases a.len() + b.len(),
{
    let longer = a.push(c);
    assert(longer.drop_last() == a);
    if b.len() > 0 {
        let shorter = b.drop_last();
        assert(shorter.push(b.last()) == b);
        lemma_distance_with_one_more(shorter, a, b.last());
        lemma_distance_symmetric(shorter, a);
        lemma_distance_symmetric(b, a);
        lemma_distance_with_one_more(a, shorter, c);
    }
}

/// Finds the Levenshtein distance between two sequences of scalar values.
///
/// One row of the table of distances between prefixes is kept: before the
/// characters of `a` are looked at it holds the distance from nothing to each
/// prefix of `b`, and each character of `a` turns the row for one prefix of `a`
/// into the row for the next, from left to right.
pub fn char_distance(a: &[char], b: &[char]) -> (d: usize)
    ensures
        d == edit_distance(a@, b@),
        is_least_number_of_edits(a@, b@, d as nat),
{
    proof {
        lemma_distance_is_least(a@, b@);
    }
    let n = a.len();
    let m = b.len();
    let mut row: Vec<usize> = Vec::new();
    row.push(0);
    let mut k: usize = 0;
    while k < m
        invariant
            k <= m,
            row.len() == k + 1,
            forall|j: int| 0 <= j <= k ==> row[j] == j,
        decreases m - k,
    {
        k = k + 1;
        row.push(k);
    }
    for i in 0..n
        invariant
            n == a.len(),
            m == b.len(),
            row.len() == m + 1,
            forall|j: int| 0 <= j <= m ==> row[j] == edit_distance(a@.take(i as int), b@.take(j)),
    {
        let mut diagonal: usize = row[0];
        row[0] = i + 1;
        for j in 0..m
            invariant
                i < n,
                n == a.len(),
                m == b.len(),
                row.len() == m + 1,
                diagonal == edit_distance(a@.take(i as int), b@.take(j as int)),
                forall|c: int|
                    0 <= c <= j ==> row[c] == edit_distance(a@.take(i + 1), b@.take(c)),
                forall|c: int|
                    j < c <= m ==> row[c] == edit_distance(a@.take(i as int), b@.take(c)),
        {
            let above: usize = row[j + 1];
            proof {
                let x = a@.take(i + 1);
                let y = b@.take(j + 1);
                assert(x.drop_last() == a@.take(i as int));
                assert(y.drop_last() == b@.take(j as int));
                assert(x.last() == a@[i as int]);
                assert(y.last() == b@[j as int]);
                lemma_distance_at_most_longer(a@.take(i as int), b@.take(j as int));
            }
            if a[i] == b[j] {
                row[j + 1] = diagonal;
            } else {
                let left: usize = row[j];
                let mut least: usize = if diagonal < above { diagonal } else { above };
                if left < least {
                    least = left;
                }
                row[j + 1] = least + 1;
            }
            diagonal = above;
        }
    }
    proof {
        assert(a@.take(n as int) == a@);
        assert(b@.take(m as int) == b@);
    }
    row[m]
}

/// Finds the Levenshtein distance between two strings: the smallest number of
/// insertions, deletions and substitutions of single scalar values that make
/// `b` of `a`.
pub fn lev_distance(a: &str, b: &str) -> (d: usize)
    ensures
        d == edit_distance(a@, b@),
        is_least_number_of_edits(a@, b@, d as nat),
{
    proof {
        lemma_distance_is_least(a@, b@);
    }
    if a.is_empty() {
        return scalar_length(b);
    } else if b.is_empty() {
        return scalar_length(a);
    }
    let a_chars = chars_of(a);
    let b_chars = chars_of(b);
    char_distance(a_chars.as_slice(), b_chars.as_slice())
}

} // verus!
