//! Names as lists of words.
//!
//! A name such as `a_longer_name` is made of the words `a`, `longer` and `name`,
//! held apart by the separator `_`. Two names are made of the same words when
//! one can be had from the other by moving its words around. To tell, each is
//! brought into a normal form: its words in dictionary order, joined again.

use crate::text::{chars_of, seqs_of, string_of};
use vstd::prelude::*;
use vstd::relations::{sorted_by, total_ordering};
use vstd::seq_lib::{group_to_multiset_ensures, lemma_sorted_unique};

verus! {

/// The character that holds the words of a name apart.
pub const WORD_SEPARATOR: char = '_';

/// Dictionary order on sequences of scalar values: `a` comes no later than `b`.
///
/// The first position at which the two differ decides, by the scalar values
/// found there; where there is none, the shorter one comes first.
pub open spec fn in_order(a: Seq<char>, b: Seq<char>) -> bool
    decreases a.len(),
{
    if a.len() == 0 {
        true
    } else if b.len() == 0 {
        false
    } else if a.first() == b.first() {
        in_order(a.drop_first(), b.drop_first())
    } else {
        a.first() < b.first()
    }
}

/// Dictionary order as a relation, for the functions of `vstd` that take one.
pub open spec fn word_order() -> spec_fn(Seq<char>, Seq<char>) -> bool {
    |a: Seq<char>, b: Seq<char>| in_order(a, b)
}

/// The words of `s`: the pieces that its separators cut it into, from left to
/// right. There is one more word than there are separators, so a string without
/// a separator is one word, and a separator at either end, or next to another,
/// has an empty word beside it.
pub open spec fn words_of(s: Seq<char>) -> Seq<Seq<char>>
    decreases s.len(),
{
    if s.len() == 0 {
        seq![Seq::<char>::empty()]
    } else {
        let before = words_of(s.drop_last());
        if s.last() == WORD_SEPARATOR {
            before.push(Seq::<char>::empty())
        } else {
            before.drop_last().push(before.last().push(s.last()))
        }
    }
}

/// The words put together again, with one separator between each two neighbours.
pub open spec fn joined(words: Seq<Seq<char>>) -> Seq<char>
    decreases words.len(),
{
    if words.len() == 0 {
        Seq::<char>::empty()
    } else if words.len() == 1 {
        words[0]
    } else {
        joined(words.drop_last()) + seq![WORD_SEPARATOR] + words.last()
    }
}

/// The same words in dictionary order.
pub open spec fn sorted_words(words: Seq<Seq<char>>) -> Seq<Seq<char>> {
    words.sort_by(word_order())
}

/// The normal form of a name: its words in dictionary order, joined again.
pub open spec fn normal_form(s: Seq<char>) -> Seq<char> {
    joined(sorted_words(words_of(s)))
}

/// Every sequence is in order with itself.
pub proof fn lemma_in_order_reflexive(a: Seq<char>)
    ensures
        in_order(a, a),
    decreases a.len(),
{
    if a.len() > 0 {
        lemma_in_order_reflexive(a.drop_first());
    }
}

/// Two sequences that are in order both ways are equal.
pub proof fn lemma_in_order_antisymmetric(a: Seq<char>, b: Seq<char>)
    requires
        in_order(a, b),
        in_order(b, a),
    ensures
        a == b,
    decreases a.len(),
{
    if a.len() > 0 {
        lemma_in_order_antisymmetric(a.drop_first(), b.drop_first());
        assert(a == seq![a.first()] + a.drop_first());
        assert(b == seq![b.first()] + b.drop_first());
    } else {
        assert(a =~= b);
    }
}

/// Being in order carries over a middle term.
pub proof fn lemma_in_order_transitive(a: Seq<char>, b: Seq<char>, c: Seq<char>)
    requires
        in_order(a, b),
        in_order(b, c),
    ensures
        in_order(a, c),
    decreases a.len(),
{
    if a.len() > 0 && a.first() == b.first() && b.first() == c.first() {
        lemma_in_order_transitive(a.drop_first(), b.drop_first(), c.drop_first());
    }
}

/// Of any two sequences, one is in order with the other.
pub proof fn lemma_in_order_total(a: Seq<char>, b: Seq<char>)
    ensures
        in_order(a, b) || in_order(b, a),
    decreases a.len(),
{
    if a.len() > 0 && b.len() > 0 && a.first() == b.first() {
        lemma_in_order_total(a.drop_first(), b.drop_first());
    }
}

/// Dictionary order is a total order.
pub proof fn lemma_word_order_total()
    ensures
        total_ordering(word_order()),
{
    let r = word_order();
    assert forall|a: Seq<char>| #[trigger] r(a, a) by {
        lemma_in_order_reflexive(a);
    }
    assert forall|a: Seq<char>, b: Seq<char>| #[trigger] r(a, b) && #[trigger] r(b, a) implies a
        == b by {
        lemma_in_order_antisymmetric(a, b);
    }
    assert forall|a: Seq<char>, b: Seq<char>, c: Seq<char>| #[trigger]
        r(a, b) && #[trigger] r(b, c) implies r(a, c) by {
        lemma_in_order_transitive(a, b, c);
    }
    assert forall|a: Seq<char>, b: Seq<char>| #[trigger] r(a, b) || #[trigger] r(b, a) by {
        lemma_in_order_total(a, b);
    }
}

/// Whether `w` can be a word: it holds no separator.
pub open spec fn is_word(w: Seq<char>) -> bool {
    forall|i: int| 0 <= i < w.len() ==> w[i] != WORD_SEPARATOR
}

/// Whether `words` can be the words of a name: there is one at least, and none
/// holds a separator.
pub open spec fn are_words(words: Seq<Seq<char>>) -> bool {
    &&& words.len() >= 1
    &&& forall|i: int| 0 <= i < words.len() ==> is_word(#[trigger] words[i])
}

/// A character that is added to the last word is added to the joined text.
proof fn lemma_joined_with_longer_last(words: Seq<Seq<char>>, c: char)
    requires
        words.len() >= 1,
    ensures
        joined(words.drop_last().push(words.last().push(c))) == joined(words).push(c),
{
    let longer = words.drop_last().push(words.last().push(c));
    assert(longer.drop_last() == words.drop_last());
    if words.len() > 1 {
        assert(joined(longer) == joined(words.drop_last()) + seq![WORD_SEPARATOR] + words.last().push(
            c,
        ));
    }
}

/// Cutting a text into words loses nothing: there is a word at least, no word
/// holds a separator, and joined again the words give the text.
pub proof fn lemma_words_of(s: Seq<char>)
    ensures
        are_words(words_of(s)),
        joined(words_of(s)) == s,
    decreases s.len(),
{
    if s.len() == 0 {
        assert(joined(words_of(s)) == s);
    } else {
        let before = words_of(s.drop_last());
        lemma_words_of(s.drop_last());
        if s.last() == WORD_SEPARATOR {
            assert(before.push(Seq::<char>::empty()).drop_last() == before);
            assert(s == s.drop_last() + seq![WORD_SEPARATOR] + Seq::<char>::empty());
        } else {
            lemma_joined_with_longer_last(before, s.last());
            assert(s == s.drop_last().push(s.last()));
        }
    }
}

/// A text that is followed by a word has its last word made longer by it.
proof fn lemma_words_of_with_word(s: Seq<char>, w: Seq<char>)
    requires
        is_word(w),
    ensures
        words_of(s + w) == words_of(s).drop_last().push(words_of(s).last() + w),
    decreases w.len(),
{
    lemma_words_of(s);
    let found = words_of(s);
    if w.len() == 0 {
        assert(s + w == s);
        assert(found.last() + w == found.last());
        assert(found.drop_last().push(found.last()) == found);
    } else {
        lemma_words_of_with_word(s, w.drop_last());
        assert((s + w).drop_last() == s + w.drop_last());
        assert((found.last() + w.drop_last()).push(w.last()) == found.last() + w);
        let before = found.drop_last().push(found.last() + w.drop_last());
        assert(before.drop_last() == found.drop_last());
    }
}

/// Joining words and cutting the text again gives the words back.
pub proof fn lemma_words_of_joined(words: Seq<Seq<char>>)
    requires
        are_words(words),
    ensures
        words_of(joined(words)) == words,
    decreases words.len(),
{
    let empty = Seq::<char>::empty();
    if words.len() == 1 {
        lemma_words_of_with_word(empty, words[0]);
        assert(empty + words[0] == words[0]);
        assert(words_of(empty).drop_last().push(words_of(empty).last() + words[0]) == words);
    } else {
        let before = words.drop_last();
        lemma_words_of_joined(before);
        let head = joined(before) + seq![WORD_SEPARATOR];
        assert(head.drop_last() == joined(before));
        assert(words_of(head) == before.push(empty));
        lemma_words_of_with_word(head, words.last());
        assert(empty + words.last() == words.last());
        assert(before.push(empty).drop_last().push(words.last()) == words);
    }
}

/// What it is to put words into dictionary order: the result is in order, and
/// it holds the same words, each as often as before.
pub proof fn lemma_sorted_words(words: Seq<Seq<char>>)
    ensures
        sorted_by(sorted_words(words), word_order()),
        sorted_words(words).to_multiset() == words.to_multiset(),
        sorted_words(words).len() == words.len(),
{
    broadcast use group_to_multiset_ensures;

    lemma_word_order_total();
    words.lemma_sort_by_ensures(word_order());
    assert(sorted_words(words).to_multiset().len() == sorted_words(words).len());
    assert(words.to_multiset().len() == words.len());
}

/// There is one way only to put words into dictionary order.
pub proof fn lemma_sorted_words_unique(words: Seq<Seq<char>>, sorted: Seq<Seq<char>>)
    requires
        sorted_by(sorted, word_order()),
        sorted.to_multiset() == words.to_multiset(),
    ensures
        sorted == sorted_words(words),
{
    lemma_sorted_words(words);
    lemma_word_order_total();
    lemma_sorted_unique(sorted, sorted_words(words), word_order());
}

/// Words in dictionary order are still words.
proof fn lemma_sorted_are_words(words: Seq<Seq<char>>)
    requires
        are_words(words),
    ensures
        are_words(sorted_words(words)),
{
    broadcast use group_to_multiset_ensures;

    lemma_sorted_words(words);
    let sorted = sorted_words(words);
    assert forall|i: int| 0 <= i < sorted.len() implies is_word(#[trigger] sorted[i]) by {
        assert(sorted.to_multiset().count(sorted[i]) > 0);
        assert(words.contains(sorted[i]));
    }
}

/// Two names have the same normal form exactly when they are made of the same
/// words, each as often in the one as in the other.
pub proof fn lemma_same_normal_form(a: Seq<char>, b: Seq<char>)
    ensures
        normal_form(a) == normal_form(b) <==> words_of(a).to_multiset() == words_of(
            b,
        ).to_multiset(),
{
    lemma_words_of(a);
    lemma_words_of(b);
    lemma_sorted_words(words_of(a));
    lemma_sorted_words(words_of(b));
    let sorted_a = sorted_words(words_of(a));
    let sorted_b = sorted_words(words_of(b));
    if normal_form(a) == normal_form(b) {
        lemma_sorted_are_words(words_of(a));
        lemma_sorted_are_words(words_of(b));
        lemma_words_of_joined(sorted_a);
        lemma_words_of_joined(sorted_b);
    }
    if words_of(a).to_multiset() == words_of(b).to_multiset() {
        lemma_sorted_words_unique(words_of(b), sorted_a);
    }
}

/// Tells whether `a` comes no later than `b` in dictionary order.
pub fn word_le(a: &[char], b: &[char]) -> (r: bool)
    ensures
        r == in_order(a@, b@),
{
    let mut i: usize = 0;
    proof {
        assert(a@.skip(0) == a@);
        assert(b@.skip(0) == b@);
    }
    while i < a.len() && i < b.len()
        invariant
            i <= a.len(),
            i <= b.len(),
            in_order(a@, b@) == in_order(a@.skip(i as int), b@.skip(i as int)),
        decreases a.len() - i,
    {
        proof {
            assert(a@.skip(i as int).drop_first() == a@.skip(i + 1));
            assert(b@.skip(i as int).drop_first() == b@.skip(i + 1));
        }
        if a[i] != b[i] {
            return a[i] < b[i];
        }
        i = i + 1;
    }
    i == a.len()
}

/// Cuts `s` into its words.
pub fn split_words(s: &[char]) -> (words: Vec<Vec<char>>)
    ensures
        seqs_of(words@) == words_of(s@),
{
    let mut words: Vec<Vec<char>> = Vec::new();
    let mut current: Vec<char> = Vec::new();
    proof {
        assert(seqs_of(words@).push(current@) == words_of(s@.take(0)));
    }
    for i in 0..s.len()
        invariant
            seqs_of(words@).push(current@) == words_of(s@.take(i as int)),
    {
        proof {
            assert(s@.take(i + 1).drop_last() == s@.take(i as int));
        }
        let ghost done = seqs_of(words@);
        if s[i] == WORD_SEPARATOR {
            words.push(current);
            current = Vec::new();
            proof {
                assert(seqs_of(words@) == words_of(s@.take(i as int)));
            }
        } else {
            current.push(s[i]);
            proof {
                assert(words_of(s@.take(i as int)).drop_last() == done);
            }
        }
    }
    proof {
        assert(s@.take(s.len() as int) == s@);
        assert(seqs_of(words@.push(current)) == seqs_of(words@).push(current@));
    }
    words.push(current);
    words
}

/// Puts `words` together, with one separator between each two neighbours.
pub fn join_words(words: &Vec<Vec<char>>) -> (s: Vec<char>)
    ensures
        s@ == joined(seqs_of(words@)),
{
    let mut s: Vec<char> = Vec::new();
    for i in 0..words.len()
        invariant
            s@ == joined(seqs_of(words@).take(i as int)),
    {
        if i > 0 {
            s.push(WORD_SEPARATOR);
        }
        let word = &words[i];
        let ghost head = s@;
        for k in 0..word.len()
            invariant
                s@ == head + word@.take(k as int),
        {
            s.push(word[k]);
        }
        proof {
            assert(word@.take(word.len() as int) == word@);
            assert(seqs_of(words@).take(i + 1).drop_last() == seqs_of(words@).take(i as int));
        }
    }
    proof {
        assert(seqs_of(words@).take(words.len() as int) == seqs_of(words@));
    }
    s
}

/// Puts `words` into dictionary order.
///
/// Each word is taken from the end of `words` and put into the ordered list
/// behind the words that come no later than it.
pub fn sort_words(words: Vec<Vec<char>>) -> (sorted: Vec<Vec<char>>)
    ensures
        seqs_of(sorted@) == sorted_words(seqs_of(words@)),
{
    let ghost all = seqs_of(words@);
    let mut rest = words;
    let mut sorted: Vec<Vec<char>> = Vec::new();
    proof {
        broadcast use group_to_multiset_ensures;

        assert(seqs_of(sorted@) == Seq::<Seq<char>>::empty());
        assert(seqs_of(sorted@).to_multiset().add(all.to_multiset()) == all.to_multiset());
    }
    while rest.len() > 0
        invariant
            sorted_by(seqs_of(sorted@), word_order()),
            seqs_of(sorted@).to_multiset().add(seqs_of(rest@).to_multiset()) == all.to_multiset(),
        decreases rest.len(),
    {
        let ghost rest_before = seqs_of(rest@);
        let ghost sorted_before = seqs_of(sorted@);
        let word = rest.pop().unwrap();
        let mut at: usize = 0;
        while at < sorted.len() && word_le(sorted[at].as_slice(), word.as_slice())
            invariant
                at <= sorted.len(),
                forall|k: int| 0 <= k < at ==> in_order(#[trigger] sorted[k]@, word@),
            decreases sorted.len() - at,
        {
            at = at + 1;
        }
        sorted.insert(at, word);
        proof {
            broadcast use group_to_multiset_ensures;

            let after = seqs_of(sorted@);
            assert(after == sorted_before.insert(at as int, word@));
            assert(rest_before == seqs_of(rest@).push(word@));
            assert forall|i: int, j: int| 0 <= i < j < after.len() implies #[trigger] word_order()(
                after[i],
                after[j],
            ) by {
                if j == at {
                    assert(after[i] == sorted_before[i]);
                } else if i == at {
                    assert(after[j] == sorted_before[j - 1]);
                    lemma_in_order_total(sorted_before[at as int], word@);
                    if j - 1 > at {
                        assert(word_order()(sorted_before[at as int], sorted_before[j - 1]));
                        lemma_in_order_transitive(
                            word@,
                            sorted_before[at as int],
                            sorted_before[j - 1],
                        );
                    }
                } else {
                    let i0 = if i < at { i } else { i - 1 };
                    let j0 = if j < at { j } else { j - 1 };
                    assert(word_order()(sorted_before[i0], sorted_before[j0]));
                }
            }
            assert(after.to_multiset().add(seqs_of(rest@).to_multiset()) == all.to_multiset());
        }
    }
    proof {
        broadcast use group_to_multiset_ensures;

        assert(seqs_of(rest@) == Seq::<Seq<char>>::empty());
        assert(seqs_of(sorted@).to_multiset() == all.to_multiset());
        lemma_sorted_words_unique(all, seqs_of(sorted@));
    }
    sorted
}

/// Brings a name into its normal form: its words in dictionary order, joined
/// again by the separator.
pub fn sort_by_words(name: &str) -> (r: String)
    ensures
        r@ == normal_form(name@),
{
    let chars = chars_of(name);
    let words = split_words(chars.as_slice());
    let sorted = sort_words(words);
    let text = join_words(&sorted);
    string_of(text.as_slice())
}

} // verus!
