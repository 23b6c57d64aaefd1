//! The search for the best match of a name among candidates.
//!
//! Three rules are tried in turn, and the first that finds a candidate decides:
//!
//! 1. the first candidate that equals the name when both are written in upper
//!    case;
//! 2. the candidate at the smallest edit distance from the name, if that
//!    distance is within the threshold, and the first of them if there are
//!    several;
//! 3. the first candidate that is made of the same words as the name.

use crate::distance::{edit_distance, lev_distance};
use crate::text::scalar_length;
use crate::words::{normal_form, sort_by_words};
use vstd::prelude::*;

verus! {

/// The upper-case form of a string: what `str::to_uppercase` returns for it.
pub uninterp spec fn uppercase(s: Seq<char>) -> Seq<char>;

/// What `str::to_uppercase` returns: the upper-case form of the string. The
/// form is taken from the Unicode tables that the standard library holds, so
/// it depends on the characters of the string and on nothing else.
pub assume_specification[ str::to_uppercase ](s: &str) -> (r: String)
    ensures
        r@ == uppercase(s@),
;

/// The upper-case form of each name.
pub open spec fn upper_forms(names: Seq<Seq<char>>) -> Seq<Seq<char>> {
    Seq::new(names.len(), |i: int| uppercase(names[i]))
}

/// The normal form of each name.
pub open spec fn normal_forms(names: Seq<Seq<char>>) -> Seq<Seq<char>> {
    Seq::new(names.len(), |i: int| normal_form(names[i]))
}

/// The threshold that is used where the caller gives none: a third of the
/// length of the name, and one for a name shorter than three.
pub open spec fn default_threshold(lookup: Seq<char>) -> nat {
    (if lookup.len() >= 3 {
        lookup.len()
    } else {
        3
    }) / 3
}

/// The largest edit distance at which a candidate is still accepted.
pub open spec fn threshold(lookup: Seq<char>, dist: Option<usize>) -> nat {
    match dist {
        Some(d) => d as nat,
        None => default_threshold(lookup),
    }
}

/// A position of a vector as a position of its view.
pub open spec fn position(r: Option<usize>) -> Option<int> {
    match r {
        Some(i) => Some(i as int),
        None => None,
    }
}

/// The name at the position, if there is a position.
pub open spec fn pick(names: Seq<Seq<char>>, at: Option<int>) -> Option<Seq<char>> {
    match at {
        Some(i) => Some(names[i]),
        None => None,
    }
}

/// Whether the candidate at `i` is the closest to `lookup`: it is within the
/// threshold, every candidate before it is farther away, and no candidate
/// behind it is nearer.
pub open spec fn is_closest_at(
    names: Seq<Seq<char>>,
    lookup: Seq<char>,
    max_dist: nat,
    i: int,
) -> bool {
    &&& 0 <= i < names.len()
    &&& edit_distance(lookup, names[i]) <= max_dist
    &&& forall|j: int|
        0 <= j < i ==> edit_distance(lookup, names[i]) < edit_distance(lookup, #[trigger] names[j])
    &&& forall|j: int|
        i < j < names.len() ==> edit_distance(lookup, names[i]) <= edit_distance(
            lookup,
            #[trigger] names[j],
        )
}

/// The position of the candidate closest to `lookup`, if any candidate is
/// within the threshold.
pub open spec fn closest_position(
    names: Seq<Seq<char>>,
    lookup: Seq<char>,
    max_dist: nat,
) -> Option<int> {
    if exists|i: int| is_closest_at(names, lookup, max_dist, i) {
        Some(choose|i: int| is_closest_at(names, lookup, max_dist, i))
    } else {
        None
    }
}

/// The first candidate that is made of the same words as `lookup`.
pub open spec fn word_match(names: Seq<Seq<char>>, lookup: Seq<char>) -> Option<Seq<char>> {
    pick(names, normal_forms(names).index_of_first(normal_form(lookup)))
}

/// The candidate that the three rules select, where `upper_names` holds the
/// upper-case form of each candidate and `upper_lookup` that of `lookup`.
pub open spec fn selection(
    names: Seq<Seq<char>>,
    upper_names: Seq<Seq<char>>,
    lookup: Seq<char>,
    upper_lookup: Seq<char>,
    max_dist: nat,
) -> Option<Seq<char>> {
    if upper_names.index_of_first(upper_lookup) is Some {
        pick(names, upper_names.index_of_first(upper_lookup))
    } else if closest_position(names, lookup, max_dist) is Some {
        pick(names, closest_position(names, lookup, max_dist))
    } else {
        word_match(names, lookup)
    }
}

/// The best match for `lookup` among `names`.
pub open spec fn best_match(names: Seq<Seq<char>>, lookup: Seq<char>, max_dist: nat) -> Option<
    Seq<char>,
> {
    selection(names, upper_forms(names), lookup, uppercase(lookup), max_dist)
}

/// Scans the first `n` candidates for the closest one.
proof fn lemma_closest_among(
    names: Seq<Seq<char>>,
    lookup: Seq<char>,
    max_dist: nat,
    n: int,
) -> (r: Option<int>)
    requires
        0 <= n <= names.len(),
    ensures
        match r {
            Some(i) => is_closest_at(names.take(n), lookup, max_dist, i),
            None => forall|j: int|
                0 <= j < n ==> max_dist < edit_distance(lookup, #[trigger] names[j]),
        },
    decreases n,
{
    if n == 0 {
        None
    } else {
        let before = lemma_closest_among(names, lookup, max_dist, n - 1);
        let d = edit_distance(lookup, names[n - 1]);
        assert forall|j: int| 0 <= j < n - 1 implies names.take(n - 1)[j] == names.take(n)[j] by {}
        match before {
            Some(i) => {
                assert(names.take(n - 1)[i] == names.take(n)[i]);
                if d < edit_distance(lookup, names[i]) {
                    assert(is_closest_at(names.take(n), lookup, max_dist, n - 1));
                    Some(n - 1)
                } else {
                    assert(is_closest_at(names.take(n), lookup, max_dist, i));
                    Some(i)
                }
            },
            None => {
                if d <= max_dist {
                    assert(is_closest_at(names.take(n), lookup, max_dist, n - 1));
                    Some(n - 1)
                } else {
                    None
                }
            },
        }
    }
}

/// What the closest position is: a position that holds the closest candidate
/// where one is given, and none only where every candidate is beyond the
/// threshold.
pub proof fn lemma_closest_position(names: Seq<Seq<char>>, lookup: Seq<char>, max_dist: nat)
    ensures
        match closest_position(names, lookup, max_dist) {
            Some(i) => is_closest_at(names, lookup, max_dist, i),
            None => forall|j: int|
                0 <= j < names.len() ==> max_dist < edit_distance(lookup, #[trigger] names[j]),
        },
{
    let found = lemma_closest_among(names, lookup, max_dist, names.len() as int);
    assert(names.take(names.len() as int) == names);
}

/// There is one closest candidate at most, so its position is the closest
/// position.
pub proof fn lemma_closest_is_unique(
    names: Seq<Seq<char>>,
    lookup: Seq<char>,
    max_dist: nat,
    i: int,
)
    requires
        is_closest_at(names, lookup, max_dist, i),
    ensures
        closest_position(names, lookup, max_dist) == Some(i),
{
}

/// Without candidates there is no match.
pub proof fn lemma_no_candidates_no_match(lookup: Seq<char>, max_dist: nat)
    ensures
        best_match(Seq::<Seq<char>>::empty(), lookup, max_dist) is None,
{
    let names = Seq::<Seq<char>>::empty();
    upper_forms(names).index_of_first_ensures(uppercase(lookup));
    normal_forms(names).index_of_first_ensures(normal_form(lookup));
    lemma_closest_position(names, lookup, max_dist);
}

/// A match is one of the candidates, as it was given.
pub proof fn lemma_match_is_a_candidate(names: Seq<Seq<char>>, lookup: Seq<char>, max_dist: nat)
    ensures
        match best_match(names, lookup, max_dist) {
            Some(found) => names.contains(found),
            None => true,
        },
{
    upper_forms(names).index_of_first_ensures(uppercase(lookup));
    normal_forms(names).index_of_first_ensures(normal_form(lookup));
    lemma_closest_position(names, lookup, max_dist);
}

/// The first rule: the first candidate that equals `lookup` when both are
/// written in upper case is the match, whatever the threshold and the edit
/// distances are.
pub proof fn lemma_same_in_upper_case_wins(
    names: Seq<Seq<char>>,
    lookup: Seq<char>,
    max_dist: nat,
    i: int,
)
    requires
        0 <= i < names.len(),
        uppercase(names[i]) == uppercase(lookup),
        forall|j: int| 0 <= j < i ==> uppercase(#[trigger] names[j]) != uppercase(lookup),
    ensures
        best_match(names, lookup, max_dist) == Some(names[i]),
{
    let forms = upper_forms(names);
    forms.index_of_first_ensures(uppercase(lookup));
    assert(forms[i] == uppercase(lookup));
    assert forall|j: int| 0 <= j < i implies forms[j] != uppercase(lookup) by {
        assert(forms[j] == uppercase(names[j]));
    }
}

/// The second rule: where no candidate equals `lookup` in upper case, the
/// closest candidate within the threshold is the match.
pub proof fn lemma_closest_wins(names: Seq<Seq<char>>, lookup: Seq<char>, max_dist: nat, i: int)
    requires
        forall|j: int|
            0 <= j < names.len() ==> uppercase(#[trigger] names[j]) != uppercase(lookup),
        is_closest_at(names, lookup, max_dist, i),
    ensures
        best_match(names, lookup, max_dist) == Some(names[i]),
{
    let forms = upper_forms(names);
    forms.index_of_first_ensures(uppercase(lookup));
    if forms.contains(uppercase(lookup)) {
        let j = choose|j: int| 0 <= j < forms.len() && forms[j] == uppercase(lookup);
        assert(forms[j] == uppercase(names[j]));
    }
    lemma_closest_is_unique(names, lookup, max_dist, i);
}

/// The third rule: where no candidate equals `lookup` in upper case and none
/// is within the threshold, the first candidate with the normal form of
/// `lookup` is the match.
pub proof fn lemma_same_words_win(names: Seq<Seq<char>>, lookup: Seq<char>, max_dist: nat, i: int)
    requires
        forall|j: int|
            0 <= j < names.len() ==> uppercase(#[trigger] names[j]) != uppercase(lookup),
        forall|j: int|
            0 <= j < names.len() ==> max_dist < edit_distance(lookup, #[trigger] names[j]),
        0 <= i < names.len(),
        normal_form(names[i]) == normal_form(lookup),
        forall|j: int| 0 <= j < i ==> normal_form(#[trigger] names[j]) != normal_form(lookup),
    ensures
        best_match(names, lookup, max_dist) == Some(names[i]),
{
    let forms = upper_forms(names);
    forms.index_of_first_ensures(uppercase(lookup));
    if forms.contains(uppercase(lookup)) {
        let j = choose|j: int| 0 <= j < forms.len() && forms[j] == uppercase(lookup);
        assert(forms[j] == uppercase(names[j]));
    }
    lemma_closest_position(names, lookup, max_dist);
    let normal = normal_forms(names);
    normal.index_of_first_ensures(normal_form(lookup));
    assert(normal[i] == normal_form(lookup));
    assert forall|j: int| 0 <= j < i implies normal[j] != normal_form(lookup) by {
        assert(normal[j] == normal_form(names[j]));
    }
}

/// Where no rule finds a candidate, there is no match.
pub proof fn lemma_no_rule_no_match(names: Seq<Seq<char>>, lookup: Seq<char>, max_dist: nat)
    requires
        forall|j: int|
            0 <= j < names.len() ==> uppercase(#[trigger] names[j]) != uppercase(lookup),
        forall|j: int|
            0 <= j < names.len() ==> max_dist < edit_distance(lookup, #[trigger] names[j]),
        forall|j: int|
            0 <= j < names.len() ==> normal_form(#[trigger] names[j]) != normal_form(lookup),
    ensures
        best_match(names, lookup, max_dist) is None,
{
    let forms = upper_forms(names);
    forms.index_of_first_ensures(uppercase(lookup));
    if forms.contains(uppercase(lookup)) {
        let j = choose|j: int| 0 <= j < forms.len() && forms[j] == uppercase(lookup);
        assert(forms[j] == uppercase(names[j]));
    }
    lemma_closest_position(names, lookup, max_dist);
    let normal = normal_forms(names);
    normal.index_of_first_ensures(normal_form(lookup));
    if normal.contains(normal_form(lookup)) {
        let j = choose|j: int| 0 <= j < normal.len() && normal[j] == normal_form(lookup);
        assert(normal[j] == normal_form(names[j]));
    }
}

/// A search keeps nothing from one call to the next: what it finds is decided
/// by the candidates, the name and the threshold alone. So two searches with
/// the same three find the same.
pub proof fn lemma_search_is_repeatable(
    names: Seq<Seq<char>>,
    lookup: Seq<char>,
    dist: Option<usize>,
    first: Option<Seq<char>>,
    second: Option<Seq<char>>,
)
    requires
        first == best_match(names, lookup, threshold(lookup, dist)),
        second == best_match(names, lookup, threshold(lookup, dist)),
    ensures
        first == second,
{
}

/// The threshold for `lookup`: `dist` where it is given, and else a third of
/// the number of scalar values of `lookup`, but at least one.
pub fn threshold_for(lookup: &str, dist: Option<usize>) -> (max_dist: usize)
    ensures
        max_dist == threshold(lookup@, dist),
{
    match dist {
        Some(d) => d,
        None => {
            let len = scalar_length(lookup);
            if len >= 3 {
                len / 3
            } else {
                1
            }
        },
    }
}

/// Finds the first of `items` that equals `target`.
pub fn position_of(items: &Vec<String>, target: &String) -> (r: Option<usize>)
    ensures
        position(r) == items.deep_view().index_of_first(target@),
{
    proof {
        items.deep_view().index_of_first_ensures(target@);
    }
    for i in 0..items.len()
        invariant
            forall|j: int| 0 <= j < i ==> #[trigger] items.deep_view()[j] != target@,
    {
        if items[i] == *target {
            proof {
                assert(items.deep_view()[i as int] == target@);
                items.deep_view().index_of_first_ensures(target@);
            }
            return Some(i);
        }
    }
    None
}

/// Finds the candidate closest to `lookup` among those within `max_dist` of it,
/// and the first of them where several are equally close.
pub fn closest_within(names: &[&str], lookup: &str, max_dist: usize) -> (r: Option<usize>)
    ensures
        position(r) == closest_position(names.deep_view(), lookup@, max_dist as nat),
{
    let ghost all = names.deep_view();
    let mut best: Option<(usize, usize)> = None;
    for i in 0..names.len()
        invariant
            all == names.deep_view(),
            match best {
                Some((at, d)) => {
                    &&& at < i
                    &&& d == edit_distance(lookup@, all[at as int])
                    &&& d <= max_dist
                    &&& forall|j: int| 0 <= j < at ==> d < edit_distance(lookup@, #[trigger] all[j])
                    &&& forall|j: int| at < j < i ==> d <= edit_distance(lookup@, #[trigger] all[j])
                },
                None => forall|j: int|
                    0 <= j < i ==> max_dist < edit_distance(lookup@, #[trigger] all[j]),
            },
    {
        let d = lev_distance(lookup, names[i]);
        proof {
            assert(all[i as int] == names[i as int]@);
        }
        if d <= max_dist {
            match best {
                Some((_, least)) => {
                    if d < least {
                        best = Some((i, d));
                    }
                },
                None => {
                    best = Some((i, d));
                },
            }
        }
    }
    match best {
        Some((at, _)) => {
            proof {
                assert(is_closest_at(all, lookup@, max_dist as nat, at as int));
            }
            Some(at)
        },
        None => None,
    }
}

/// Finds the first candidate that is made of the same words as `lookup`, in
/// whatever order.
pub fn find_match_by_sorted_words(names: &[&str], lookup: &str) -> (r: Option<String>)
    ensures
        r.deep_view() == word_match(names.deep_view(), lookup@),
{
    let wanted = sort_by_words(lookup);
    let mut forms: Vec<String> = Vec::new();
    for i in 0..names.len()
        invariant
            forms.deep_view() == normal_forms(names.deep_view()).take(i as int),
    {
        let ghost before = forms.deep_view();
        forms.push(sort_by_words(names[i]));
        proof {
            assert(names.deep_view()[i as int] == names[i as int]@);
            assert(forms.deep_view() == before.push(normal_form(names[i as int]@)));
        }
    }
    proof {
        assert(forms.deep_view() == normal_forms(names.deep_view()));
        forms.deep_view().index_of_first_ensures(wanted@);
    }
    match position_of(&forms, &wanted) {
        Some(i) => Some(names[i].to_owned()),
        None => None,
    }
}

/// Applies the three rules to candidates whose upper-case forms are at hand.
pub fn select_match(
    names: &[&str],
    upper_names: &Vec<String>,
    lookup: &str,
    upper_lookup: &String,
    max_dist: usize,
) -> (r: Option<String>)
    requires
        upper_names.len() == names.len(),
    ensures
        r.deep_view() == selection(
            names.deep_view(),
            upper_names.deep_view(),
            lookup@,
            upper_lookup@,
            max_dist as nat,
        ),
{
    proof {
        upper_names.deep_view().index_of_first_ensures(upper_lookup@);
    }
    if let Some(i) = position_of(upper_names, upper_lookup) {
        return Some(names[i].to_owned());
    }
    if let Some(i) = closest_within(names, lookup, max_dist) {
        return Some(names[i].to_owned());
    }
    find_match_by_sorted_words(names, lookup)
}

/// Finds the best match for `lookup` among `names`.
///
/// `dist` is the largest edit distance at which a candidate is accepted.
/// Without it, a third of the length of `lookup` is allowed, and one at least.
/// The result is a candidate as it was given, or nothing where no rule finds
/// one.
pub fn find_best_match_for_name(names: &[&str], lookup: &str, dist: Option<usize>) -> (r: Option<
    String,
>)
    ensures
        r.deep_view() == best_match(names.deep_view(), lookup@, threshold(lookup@, dist)),
{
    let max_dist = threshold_for(lookup, dist);
    let upper_lookup = lookup.to_uppercase();
    let mut upper_names: Vec<String> = Vec::new();
    for i in 0..names.len()
        invariant
            upper_names.deep_view() == upper_forms(names.deep_view()).take(i as int),
    {
        let ghost before = upper_names.deep_view();
        upper_names.push(names[i].to_uppercase());
        proof {
            assert(names.deep_view()[i as int] == names[i as int]@);
            assert(upper_names.deep_view() == before.push(uppercase(names[i as int]@)));
        }
    }
    proof {
        assert(upper_names.deep_view() == upper_forms(names.deep_view()));
    }
    select_match(names, &upper_names, lookup, &upper_lookup, max_dist)
}

} // verus!
