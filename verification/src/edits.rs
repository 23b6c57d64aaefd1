//! What the Levenshtein distance measures.
//!
//! A sequence is changed by single edits: a scalar value is put in, taken out,
//! or replaced by another. A script is a list of edits that are made one after
//! the other. The distance between two sequences is the length of the shortest
//! script that turns the one into the other: there is a script of that length,
//! and none is shorter.

use crate::distance::{
    edit_distance, lemma_distance_at_least_gap, lemma_distance_at_most_longer,
    lemma_distance_symmetric, lemma_distance_to_self, lemma_distance_with_one_more,
};
use vstd::prelude::*;

verus! {

/// One change to a sequence of scalar values.
pub enum Edit {
    /// Puts `ch` in front of the element at `at`, or behind the last element
    /// where `at` is the length.
    Insert { at: int, ch: char },
    /// Takes out the element at `at`.
    Delete { at: int },
    /// Puts `ch` in the place of the element at `at`.
    Substitute { at: int, ch: char },
}

impl Edit {
    /// Whether the edit can be made to `s`: its position lies within `s`.
    pub open spec fn fits(self, s: Seq<char>) -> bool {
        match self {
            Edit::Insert { at, .. } => 0 <= at <= s.len(),
            Edit::Delete { at } => 0 <= at < s.len(),
            Edit::Substitute { at, .. } => 0 <= at < s.len(),
        }
    }

    /// The sequence that the edit makes of `s`.
    pub open spec fn apply(self, s: Seq<char>) -> Seq<char> {
        match self {
            Edit::Insert { at, ch } => s.insert(at, ch),
            Edit::Delete { at } => s.remove(at),
            Edit::Substitute { at, ch } => s.update(at, ch),
        }
    }

    /// Whether the edit changes the end of `s`: it deletes or replaces the
    /// last element, or inserts behind it.
    pub open spec fn at_end(self, s: Seq<char>) -> bool {
        match self {
            Edit::Insert { at, .. } => at == s.len(),
            Edit::Delete { at } => at == s.len() - 1,
            Edit::Substitute { at, .. } => at == s.len() - 1,
        }
    }
}

/// Whether the edits of `script`, made one after the other, turn `a` into `b`.
pub open spec fn turns_into(script: Seq<Edit>, a: Seq<char>, b: Seq<char>) -> bool
    decreases script.len(),
{
    if script.len() == 0 {
        a == b
    } else {
        script.first().fits(a) && turns_into(script.drop_first(), script.first().apply(a), b)
    }
}

/// A single edit brings a sequence nearer to another by one at most.
pub proof fn lemma_one_edit(e: Edit, s: Seq<char>, b: Seq<char>)
    requires
        e.fits(s),
    ensures
        edit_distance(s, b) <= 1 + edit_distance(e.apply(s), b),
    decreases s.len() + b.len(),
{
    let t = e.apply(s);
    if b.len() == 0 {
    } else if s.len() == 0 {
        lemma_distance_at_least_gap(t, b);
    } else if t.len() == 0 {
        lemma_distance_at_most_longer(s, b);
    } else if !e.at_end(s) {
        assert(e.fits(s.drop_last()));
        assert(t.drop_last() == e.apply(s.drop_last()));
        assert(t.last() == s.last());
        lemma_one_edit(e, s.drop_last(), b.drop_last());
        lemma_one_edit(e, s.drop_last(), b);
        lemma_one_edit(e, s, b.drop_last());
    } else {
        match e {
            Edit::Insert { at, ch } => {
                assert(t == s.push(ch));
                lemma_distance_with_one_more(s, b, ch);
            },
            Edit::Delete { at } => {
                assert(t == s.drop_last());
                assert(s == s.drop_last().push(s.last()));
                lemma_distance_with_one_more(s.drop_last(), b, s.last());
            },
            Edit::Substitute { at, ch } => {
                assert(t.drop_last() == s.drop_last());
                assert(t == s.drop_last().push(ch));
                assert(b == b.drop_last().push(b.last()));
                lemma_distance_with_one_more(s.drop_last(), b.drop_last(), ch);
                lemma_distance_with_one_more(b.drop_last(), s.drop_last(), b.last());
                lemma_distance_symmetric(b.drop_last(), s.drop_last());
                lemma_distance_symmetric(b, s.drop_last());
                lemma_one_edit(e, s, b.drop_last());
            },
        }
    }
}

/// No script is shorter than the distance between its two ends.
pub proof fn lemma_no_shorter_script(script: Seq<Edit>, a: Seq<char>, b: Seq<char>)
    requires
        turns_into(script, a, b),
    ensures
        edit_distance(a, b) <= script.len(),
    decreases script.len(),
{
    if script.len() == 0 {
        lemma_distance_to_self(a);
    } else {
        lemma_one_edit(script.first(), a, b);
        lemma_no_shorter_script(script.drop_first(), script.first().apply(a), b);
    }
}

/// Two scripts, of which the second starts where the first ends, make one.
pub proof fn lemma_script_then(
    first: Seq<Edit>,
    second: Seq<Edit>,
    a: Seq<char>,
    between: Seq<char>,
    b: Seq<char>,
)
    requires
        turns_into(first, a, between),
        turns_into(second, between, b),
    ensures
        turns_into(first + second, a, b),
    decreases first.len(),
{
    if first.len() == 0 {
        assert(first + second == second);
    } else {
        lemma_script_then(first.drop_first(), second, first.first().apply(a), between, b);
        assert((first + second).drop_first() == first.drop_first() + second);
    }
}

/// A script does the same to a sequence that has one more element at its end,
/// and leaves that element where it is.
pub proof fn lemma_script_before_last(script: Seq<Edit>, a: Seq<char>, b: Seq<char>, c: char)
    requires
        turns_into(script, a, b),
    ensures
        turns_into(script, a.push(c), b.push(c)),
    decreases script.len(),
{
    if script.len() > 0 {
        let e = script.first();
        assert(e.apply(a.push(c)) == e.apply(a).push(c));
        lemma_script_before_last(script.drop_first(), e.apply(a), b, c);
    }
}

/// One insertion puts `ch` behind the last element of `s`.
proof fn lemma_insert_behind(s: Seq<char>, ch: char) -> (script: Seq<Edit>)
    ensures
        script.len() == 1,
        turns_into(script, s, s.push(ch)),
{
    let e = Edit::Insert { at: s.len() as int, ch };
    let script = Seq::<Edit>::empty().push(e);
    assert(e.apply(s) == s.push(ch));
    assert(turns_into(script.drop_first(), s.push(ch), s.push(ch)));
    script
}

/// One substitution puts `ch` in the place of the last element of `s`.
proof fn lemma_substitute_last(s: Seq<char>, ch: char) -> (script: Seq<Edit>)
    requires
        s.len() > 0,
    ensures
        script.len() == 1,
        turns_into(script, s, s.drop_last().push(ch)),
{
    let e = Edit::Substitute { at: s.len() - 1, ch };
    let script = Seq::<Edit>::empty().push(e);
    assert(e.apply(s) == s.drop_last().push(ch));
    assert(turns_into(script.drop_first(), s.drop_last().push(ch), s.drop_last().push(ch)));
    script
}

/// One deletion takes out the last element of `s`.
proof fn lemma_delete_last(s: Seq<char>) -> (script: Seq<Edit>)
    requires
        s.len() > 0,
    ensures
        script.len() == 1,
        turns_into(script, s, s.drop_last()),
{
    let e = Edit::Delete { at: s.len() - 1 };
    let script = Seq::<Edit>::empty().push(e);
    assert(e.apply(s) == s.drop_last());
    assert(turns_into(script.drop_first(), s.drop_last(), s.drop_last()));
    script
}

/// There is a script from `a` to `b` that is as long as their distance.
pub proof fn lemma_shortest_script(a: Seq<char>, b: Seq<char>) -> (script: Seq<Edit>)
    ensures
        turns_into(script, a, b),
        script.len() == edit_distance(a, b),
    decreases a.len() + b.len(),
{
    if a.len() == 0 && b.len() == 0 {
        assert(a == b);
        Seq::<Edit>::empty()
    } else if b.len() == 0 || (a.len() > 0 && a.last() != b.last() && edit_distance(
        a.drop_last(),
        b,
    ) <= edit_distance(a, b.drop_last()) && edit_distance(a.drop_last(), b) <= edit_distance(
        a.drop_last(),
        b.drop_last(),
    )) {
        let first = lemma_delete_last(a);
        let rest = lemma_shortest_script(a.drop_last(), b);
        lemma_script_then(first, rest, a, a.drop_last(), b);
        first + rest
    } else if a.len() == 0 || (a.last() != b.last() && edit_distance(a, b.drop_last())
        <= edit_distance(a.drop_last(), b.drop_last())) {
        let rest = lemma_shortest_script(a, b.drop_last());
        let last = lemma_insert_behind(b.drop_last(), b.last());
        assert(b.drop_last().push(b.last()) == b);
        lemma_script_then(rest, last, a, b.drop_last(), b);
        rest + last
    } else {
        let rest = lemma_shortest_script(a.drop_last(), b.drop_last());
        lemma_script_before_last(rest, a.drop_last(), b.drop_last(), b.last());
        assert(b.drop_last().push(b.last()) == b);
        if a.last() == b.last() {
            assert(a.drop_last().push(b.last()) == a);
            rest
        } else {
            let first = lemma_substitute_last(a, b.last());
            lemma_script_then(first, rest, a, a.drop_last().push(b.last()), b);
            first + rest
        }
    }
}

/// Whether `d` is the smallest number of insertions, deletions and
/// substitutions of single scalar values that make `b` of `a`: some script
/// from `a` to `b` has that length, and none is shorter.
pub open spec fn is_least_number_of_edits(a: Seq<char>, b: Seq<char>, d: nat) -> bool {
    &&& exists|script: Seq<Edit>| #[trigger] turns_into(script, a, b) && script.len() == d
    &&& forall|script: Seq<Edit>| #[trigger] turns_into(script, a, b) ==> d <= script.len()
}

/// The distance from `a` to `b` is the length of the shortest script that
/// turns `a` into `b`.
pub proof fn lemma_distance_is_least(a: Seq<char>, b: Seq<char>)
    ensures
        is_least_number_of_edits(a, b, edit_distance(a, b)),
{
    let shortest = lemma_shortest_script(a, b);
    assert(turns_into(shortest, a, b));
    assert forall|script: Seq<Edit>| #[trigger] turns_into(script, a, b) implies edit_distance(a, b)
        <= script.len() by {
        lemma_no_shorter_script(script, a, b);
    }
}

/// Only one number is the least number of edits between two sequences: their
/// distance.
pub proof fn lemma_least_is_distance(a: Seq<char>, b: Seq<char>, d: nat)
    requires
        is_least_number_of_edits(a, b, d),
    ensures
        d == edit_distance(a, b),
{
    lemma_distance_is_least(a, b);
}

/// Two sequences at distance zero are the same sequence.
pub proof fn lemma_distance_zero_is_equality(a: Seq<char>, b: Seq<char>)
    requires
        edit_distance(a, b) == 0,
    ensures
        a == b,
{
    let script = lemma_shortest_script(a, b);
}

/// The way over a third sequence is never shorter than the direct way.
pub proof fn lemma_distance_triangle(a: Seq<char>, b: Seq<char>, c: Seq<char>)
    ensures
        edit_distance(a, c) <= edit_distance(a, b) + edit_distance(b, c),
{
    let first = lemma_shortest_script(a, b);
    let second = lemma_shortest_script(b, c);
    lemma_script_then(first, second, a, b, c);
    lemma_no_shorter_script(first + second, a, c);
}

} // verus!
