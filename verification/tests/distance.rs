use lev_distance::distance::char_distance;
use lev_distance::lev_distance;
use std::char::{from_u32, MAX};

#[test]
fn test_lev_distance() {
    // Test bytelength agnosticity
    for c in (0..MAX as u32).filter_map(from_u32).map(|i| i.to_string()) {
        assert_eq!(lev_distance(&c[..], &c[..]), 0);
    }

    let a = "\nMäry häd ä little lämb\n\nLittle lämb\n";
    let b = "\nMary häd ä little lämb\n\nLittle lämb\n";
    let c = "Mary häd ä little lämb\n\nLittle lämb\n";
    assert_eq!(lev_distance(a, b), 1);
    assert_eq!(lev_distance(b, a), 1);
    assert_eq!(lev_distance(a, c), 2);
    assert_eq!(lev_distance(c, a), 2);
    assert_eq!(lev_distance(b, c), 1);
    assert_eq!(lev_distance(c, b), 1);
}

#[test]
fn distance_to_self_is_zero() {
    for s in ["", "a", "kitten", "ä", "日本語", "a_b_c", "\n\n"] {
        assert_eq!(lev_distance(s, s), 0);
    }
}

#[test]
fn distance_is_symmetric() {
    let samples = ["", "a", "ab", "kitten", "sitting", "flaw", "lawn", "häd", "had"];
    for a in samples {
        for b in samples {
            assert_eq!(lev_distance(a, b), lev_distance(b, a));
        }
    }
}

#[test]
fn distance_from_empty_is_scalar_length() {
    for s in ["", "a", "abc", "ä", "lämb", "日本語"] {
        let n = s.chars().count();
        assert_eq!(lev_distance("", s), n);
        assert_eq!(lev_distance(s, ""), n);
    }
    assert_eq!(lev_distance("", "lämb"), 4);
    assert_eq!(lev_distance("日本語", ""), 3);
}

#[test]
fn multi_byte_characters_count_once() {
    assert_eq!(lev_distance("ä", "a"), 1);
    assert_eq!(lev_distance("a", "ä"), 1);
    assert_eq!(lev_distance("é", "è"), 1);
    assert_eq!(lev_distance("日", "本"), 1);
    assert_eq!(lev_distance("😀", "a"), 1);
    assert_eq!(lev_distance("日本語", "日本"), 1);
}

#[test]
fn known_distances() {
    assert_eq!(lev_distance("kitten", "sitting"), 3);
    assert_eq!(lev_distance("flaw", "lawn"), 2);
    assert_eq!(lev_distance("saturday", "sunday"), 3);
    assert_eq!(lev_distance("abc", "abc"), 0);
    assert_eq!(lev_distance("abc", "abd"), 1);
    assert_eq!(lev_distance("abc", "ab"), 1);
    assert_eq!(lev_distance("abc", "xabc"), 1);
    assert_eq!(lev_distance("abc", "xyz"), 3);
    assert_eq!(lev_distance("ab", "ba"), 2);
    assert_eq!(lev_distance("aaaa", "aaab"), 1);
    assert_eq!(lev_distance("aaaa", "aaabc"), 2);
    assert_eq!(lev_distance("aaaa", "AAAA"), 4);
    assert_eq!(lev_distance("1111111111", "aaab"), 10);
}

#[test]
fn distance_between_character_slices() {
    let a: Vec<char> = "kitten".chars().collect();
    let b: Vec<char> = "sitting".chars().collect();
    let none: Vec<char> = Vec::new();
    assert_eq!(char_distance(&a, &b), 3);
    assert_eq!(char_distance(&b, &a), 3);
    assert_eq!(char_distance(&a, &none), 6);
    assert_eq!(char_distance(&none, &b), 7);
    assert_eq!(char_distance(&none, &none), 0);
}

#[test]
fn distance_zero_only_between_equal_strings() {
    let samples = ["", "a", "b", "ab", "ba", "ä", "a_b", "b_a"];
    for a in samples {
        for b in samples {
            assert_eq!(lev_distance(a, b) == 0, a == b);
        }
    }
}

#[test]
fn way_over_a_third_string_is_no_shorter() {
    let samples = ["", "a", "ab", "kitten", "sitting", "mitten", "lämb", "lamb", "日本語"];
    for a in samples {
        for b in samples {
            for c in samples {
                assert!(lev_distance(a, c) <= lev_distance(a, b) + lev_distance(b, c));
            }
        }
    }
}

#[test]
fn distance_is_bounded_by_the_lengths() {
    let samples = ["", "a", "ab", "kitten", "sitting", "lämb", "日本語"];
    for a in samples {
        for b in samples {
            let d = lev_distance(a, b);
            let (n, m) = (a.chars().count(), b.chars().count());
            assert!(d <= n.max(m));
            assert!(d + n.min(m) >= n.max(m));
        }
    }
}
