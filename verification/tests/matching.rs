use lev_distance::find_best_match_for_name;
use lev_distance::find_match_by_sorted_words;
use lev_distance::matching::{closest_within, position_of, select_match, threshold_for};

#[test]
fn test_find_best_match_for_name() {
    let input = vec!["aaab", "aaabc"];
    assert_eq!(
        find_best_match_for_name(&input, "aaaa", None),
        Some("aaab".to_string())
    );

    assert_eq!(find_best_match_for_name(&input, "1111111111", None), None);

    let input = vec!["AAAA"];
    assert_eq!(
        find_best_match_for_name(&input, "aaaa", None),
        Some("AAAA".to_string())
    );

    let input = vec!["AAAA"];
    assert_eq!(
        find_best_match_for_name(&input, "aaaa", Some(4)),
        Some("AAAA".to_string())
    );

    let input = vec!["a_longer_variable_name"];
    assert_eq!(
        find_best_match_for_name(&input, "a_variable_longer_name", None),
        Some("a_longer_variable_name".to_string())
    );
}

#[test]
fn no_candidates_no_match() {
    let input: Vec<&str> = Vec::new();
    assert_eq!(find_best_match_for_name(&input, "aaaa", None), None);
    assert_eq!(find_best_match_for_name(&input, "", None), None);
    assert_eq!(find_best_match_for_name(&input, "aaaa", Some(100)), None);
    assert_eq!(find_match_by_sorted_words(&input, "a_b"), None);
    assert_eq!(closest_within(&input, "a", 10), None);
}

#[test]
fn default_threshold_is_a_third_but_at_least_one() {
    assert_eq!(threshold_for("", None), 1);
    assert_eq!(threshold_for("a", None), 1);
    assert_eq!(threshold_for("ab", None), 1);
    assert_eq!(threshold_for("abc", None), 1);
    assert_eq!(threshold_for("abcd", None), 1);
    assert_eq!(threshold_for("abcde", None), 1);
    assert_eq!(threshold_for("abcdef", None), 2);
    assert_eq!(threshold_for("abcdefgh", None), 2);
    assert_eq!(threshold_for("abcdefghi", None), 3);
    assert_eq!(threshold_for("1111111111", None), 3);
}

#[test]
fn default_threshold_counts_scalar_values() {
    assert_eq!(threshold_for("äää", None), 1);
    assert_eq!(threshold_for("日本語日本", None), 1);
    assert_eq!(threshold_for("日本語日本語", None), 2);
}

#[test]
fn given_threshold_is_taken_as_it_is() {
    assert_eq!(threshold_for("abcdefghi", Some(0)), 0);
    assert_eq!(threshold_for("", Some(7)), 7);
    assert_eq!(threshold_for("abc", Some(usize::MAX)), usize::MAX);
}

#[test]
fn empty_lookup_has_threshold_one() {
    let input = vec!["ab", "a", "b"];
    assert_eq!(
        find_best_match_for_name(&input, "", None),
        Some("a".to_string())
    );
    let input = vec!["ab", "cd"];
    assert_eq!(find_best_match_for_name(&input, "", None), None);
}

#[test]
fn case_insensitive_match_comes_first() {
    // "nama" is one edit away, "NAME" is four, yet the latter is the same name.
    let input = vec!["nama", "NAME"];
    assert_eq!(
        find_best_match_for_name(&input, "name", None),
        Some("NAME".to_string())
    );
    let input = vec!["Name", "NAME"];
    assert_eq!(
        find_best_match_for_name(&input, "name", None),
        Some("Name".to_string())
    );
    let input = vec!["STRASSE"];
    assert_eq!(
        find_best_match_for_name(&input, "straße", Some(0)),
        Some("STRASSE".to_string())
    );
}

#[test]
fn case_insensitive_match_ignores_the_distance() {
    let long = "ABCDEFGHIJKLMNOPQRSTUVWXYZABCDEFGHIJKLMNOPQRSTUVWXYZ";
    let input = vec![long];
    assert_eq!(
        find_best_match_for_name(&input, &long.to_lowercase(), Some(0)),
        Some(long.to_string())
    );
}

#[test]
fn smallest_distance_wins() {
    let input = vec!["abxx", "abcx", "abcd"];
    assert_eq!(
        find_best_match_for_name(&input, "abce", Some(3)),
        Some("abcx".to_string())
    );
    assert_eq!(closest_within(&input, "abce", 3), Some(1));
    assert_eq!(closest_within(&input, "abce", 1), Some(1));
    assert_eq!(closest_within(&input, "abce", 0), None);
    assert_eq!(closest_within(&input, "abcd", 0), Some(2));
}

#[test]
fn first_of_equally_close_candidates_wins() {
    let input = vec!["aaab", "aaac", "aaad"];
    assert_eq!(
        find_best_match_for_name(&input, "aaaa", None),
        Some("aaab".to_string())
    );
    assert_eq!(closest_within(&input, "aaaa", 1), Some(0));
    let input = vec!["aabb", "aaac", "aaad"];
    assert_eq!(closest_within(&input, "aaaa", 2), Some(1));
}

#[test]
fn threshold_bounds_the_distance() {
    let input = vec!["aaab", "aaabc"];
    assert_eq!(find_best_match_for_name(&input, "aaaa", Some(0)), None);
    assert_eq!(
        find_best_match_for_name(&input, "aaaa", Some(1)),
        Some("aaab".to_string())
    );
    let input = vec!["aaabc"];
    assert_eq!(find_best_match_for_name(&input, "aaaa", Some(1)), None);
    assert_eq!(
        find_best_match_for_name(&input, "aaaa", Some(2)),
        Some("aaabc".to_string())
    );
}

#[test]
fn word_match_is_the_last_resort() {
    let input = vec!["aaaa_bbbb_cccc", "bbbb_aaaa_cccc"];
    assert_eq!(
        find_best_match_for_name(&input, "cccc_bbbb_aaaa", None),
        Some("aaaa_bbbb_cccc".to_string())
    );
    assert_eq!(
        find_match_by_sorted_words(&input, "cccc_bbbb_aaaa"),
        Some("aaaa_bbbb_cccc".to_string())
    );
    assert_eq!(find_match_by_sorted_words(&input, "cccc_bbbb"), None);
    assert_eq!(find_match_by_sorted_words(&input, "cccc_bbbb_aaaa_"), None);
}

#[test]
fn word_match_counts_repeated_words() {
    let input = vec!["a_b", "a_a_b", "a_b_b"];
    assert_eq!(
        find_match_by_sorted_words(&input, "b_a_a"),
        Some("a_a_b".to_string())
    );
    assert_eq!(
        find_match_by_sorted_words(&input, "b_b_a"),
        Some("a_b_b".to_string())
    );
    assert_eq!(find_match_by_sorted_words(&input, "b_b_a_a"), None);
}

#[test]
fn result_is_the_candidate_as_given() {
    let input = vec!["Some_Mixed_Name"];
    assert_eq!(
        find_best_match_for_name(&input, "some_mixed_name", None),
        Some("Some_Mixed_Name".to_string())
    );
    assert_eq!(
        find_best_match_for_name(&input, "Name_Mixed_Some", Some(0)),
        Some("Some_Mixed_Name".to_string())
    );
}

#[test]
fn same_inputs_same_result() {
    let lookups = ["aaaa", "1111111111", "b_a", "", "AAAB"];
    let input = vec!["aaab", "aaabc", "a_b", "AAAA"];
    for lookup in lookups {
        for dist in [None, Some(0), Some(2), Some(20)] {
            let first = find_best_match_for_name(&input, lookup, dist);
            let second = find_best_match_for_name(&input, lookup, dist);
            assert_eq!(first, second);
        }
    }
}

#[test]
fn position_of_finds_the_first() {
    let items = vec!["b".to_string(), "a".to_string(), "a".to_string()];
    assert_eq!(position_of(&items, &"a".to_string()), Some(1));
    assert_eq!(position_of(&items, &"b".to_string()), Some(0));
    assert_eq!(position_of(&items, &"c".to_string()), None);
    assert_eq!(position_of(&Vec::new(), &"a".to_string()), None);
}

#[test]
fn selection_follows_the_given_upper_case_forms() {
    let names = vec!["one", "two"];
    let upper = vec!["ONE".to_string(), "TWO".to_string()];
    assert_eq!(
        select_match(&names, &upper, "tWo", &"TWO".to_string(), 0),
        Some("two".to_string())
    );
    assert_eq!(
        select_match(&names, &upper, "twa", &"TWA".to_string(), 1),
        Some("two".to_string())
    );
    assert_eq!(select_match(&names, &upper, "twa", &"TWA".to_string(), 0), None);
    // The forms are taken as they are given.
    let swapped = vec!["TWO".to_string(), "ONE".to_string()];
    assert_eq!(
        select_match(&names, &swapped, "two", &"TWO".to_string(), 0),
        Some("one".to_string())
    );
}
