use lev_distance::sort_by_words;
use lev_distance::text::{chars_of, scalar_length, string_of};
use lev_distance::words::{join_words, sort_words, split_words, word_le};

fn chars(s: &str) -> Vec<char> {
    s.chars().collect()
}

fn words(list: &[&str]) -> Vec<Vec<char>> {
    list.iter().map(|w| chars(w)).collect()
}

#[test]
fn normal_form_sorts_the_words() {
    assert_eq!(sort_by_words("a_variable_longer_name"), "a_longer_name_variable");
    assert_eq!(sort_by_words("a_longer_variable_name"), "a_longer_name_variable");
    assert_eq!(sort_by_words("b_a"), "a_b");
    assert_eq!(sort_by_words("word"), "word");
    assert_eq!(sort_by_words(""), "");
}

#[test]
fn normal_form_keeps_empty_words() {
    assert_eq!(sort_by_words("_"), "_");
    assert_eq!(sort_by_words("b_"), "_b");
    assert_eq!(sort_by_words("_b"), "_b");
    assert_eq!(sort_by_words("b__a"), "_a_b");
    assert_eq!(sort_by_words("__"), "__");
}

#[test]
fn normal_form_orders_by_scalar_value() {
    assert_eq!(sort_by_words("b_B_a_A"), "A_B_a_b");
    assert_eq!(sort_by_words("ab_a_abc"), "a_ab_abc");
    assert_eq!(sort_by_words("ä_z_a"), "a_z_ä");
    assert_eq!(sort_by_words("\u{10000}_\u{ffff}"), "\u{ffff}_\u{10000}");
    assert_eq!(sort_by_words("b_a_b_a"), "a_a_b_b");
}

#[test]
fn normal_form_agrees_with_the_standard_library() {
    for name in ["c_b_a", "", "_", "x__y", "naïve_name_Name", "z_ä_日本_a", "b_ab_a_abc_"] {
        let mut parts: Vec<&str> = name.split('_').collect();
        parts.sort_unstable();
        assert_eq!(sort_by_words(name), parts.join("_"));
    }
}

#[test]
fn split_cuts_at_each_separator() {
    assert_eq!(split_words(&chars("a_bc_d")), words(&["a", "bc", "d"]));
    assert_eq!(split_words(&chars("abc")), words(&["abc"]));
    assert_eq!(split_words(&chars("")), words(&[""]));
    assert_eq!(split_words(&chars("_")), words(&["", ""]));
    assert_eq!(split_words(&chars("a__b_")), words(&["a", "", "b", ""]));
}

#[test]
fn join_puts_separators_between() {
    assert_eq!(join_words(&words(&["a", "bc", "d"])), chars("a_bc_d"));
    assert_eq!(join_words(&words(&["abc"])), chars("abc"));
    assert_eq!(join_words(&words(&[])), chars(""));
    assert_eq!(join_words(&words(&["", ""])), chars("_"));
    assert_eq!(join_words(&words(&["a", "", "b", ""])), chars("a__b_"));
}

#[test]
fn join_undoes_split() {
    for s in ["", "_", "a", "a_b", "__a__", "long_name_with_words"] {
        assert_eq!(join_words(&split_words(&chars(s))), chars(s));
    }
}

#[test]
fn sort_orders_the_words() {
    assert_eq!(
        sort_words(words(&["name", "a", "longer", "a"])),
        words(&["a", "a", "longer", "name"])
    );
    assert_eq!(sort_words(words(&[])), words(&[]));
    assert_eq!(sort_words(words(&["b", "", "ab"])), words(&["", "ab", "b"]));
}

#[test]
fn dictionary_order() {
    assert!(word_le(&chars(""), &chars("")));
    assert!(word_le(&chars(""), &chars("a")));
    assert!(!word_le(&chars("a"), &chars("")));
    assert!(word_le(&chars("a"), &chars("a")));
    assert!(word_le(&chars("a"), &chars("ab")));
    assert!(!word_le(&chars("ab"), &chars("a")));
    assert!(word_le(&chars("ab"), &chars("b")));
    assert!(!word_le(&chars("b"), &chars("ab")));
    assert!(word_le(&chars("Z"), &chars("a")));
    assert!(word_le(&chars("z"), &chars("ä")));
}

#[test]
fn strings_and_scalar_values() {
    assert_eq!(chars_of("lämb"), vec!['l', 'ä', 'm', 'b']);
    assert_eq!(chars_of(""), Vec::<char>::new());
    assert_eq!(string_of(&['l', 'ä', 'm', 'b']), "lämb");
    assert_eq!(string_of(&[]), "");
    assert_eq!(scalar_length("lämb"), 4);
    assert_eq!(scalar_length("日本語"), 3);
    assert_eq!(scalar_length(""), 0);
}
