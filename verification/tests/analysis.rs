use typoglycemia::alphabet::{get_all_valid_ascii_chars, is_valid};
use typoglycemia::numeric::is_numeric_string;
use typoglycemia::shape::{
    find_first_valid, find_last_valid, get_valid_end_index, get_valid_start_index, has_apostrophes,
    has_hyphens, holds_grapheme,
};
use unicode_segmentation::UnicodeSegmentation;

fn clusters(s: &str) -> Vec<&str> {
    s.graphemes(true).collect()
}

#[test]
fn the_alphabet_is_listed_range_by_range() {
    let v = get_all_valid_ascii_chars();
    assert_eq!(v.len(), 133);
    assert_eq!(v[..10], [48, 49, 50, 51, 52, 53, 54, 55, 56, 57]);
    assert_eq!(v[10], 65);
    assert_eq!(v[35], 90);
    assert_eq!(v[36], 97);
    assert_eq!(v[61], 122);
    assert_eq!(v[62], 192);
    assert_eq!(v[116], 246);
    assert_eq!(v[117], 248);
    assert_eq!(v[124], 255);
    assert_eq!(v[125..], [402, 352, 338, 381, 353, 339, 382, 376]);
}

#[test]
fn the_alphabet_holds_letters_and_digits_only() {
    let v = get_all_valid_ascii_chars();
    for c in [
        '0', '9', 'A', 'Z', 'a', 'z', '\u{c0}', '\u{f6}', '\u{f8}', '\u{ff}', '\u{192}', '\u{160}',
        '\u{152}', '\u{17d}', '\u{161}', '\u{153}', '\u{17e}', '\u{178}',
    ] {
        assert!(v.contains(&(c as usize)));
        assert!(is_valid(&c.to_string(), &v));
    }
    for c in [
        '/', ':', '@', '[', '`', '{', '\u{bf}', '\u{f7}', ' ', '-', '\'', '_', '\u{83}', '\u{100}',
        '\u{1f44d}',
    ] {
        assert!(!v.contains(&(c as usize)));
        assert!(!is_valid(&c.to_string(), &v));
    }
}

#[test]
fn a_grapheme_counts_only_as_one_code_point() {
    let v = get_all_valid_ascii_chars();
    assert!(is_valid("e", &v));
    assert!(is_valid("\u{e9}", &v));
    assert!(!is_valid("e\u{301}", &v));
    assert!(!is_valid("ab", &v));
    assert!(!is_valid("", &v));
    assert!(!is_valid("\r\n", &v));
    assert!(!is_valid("❤️", &v));
}

#[test]
fn a_grapheme_counts_by_the_list_it_is_held_against() {
    assert!(is_valid("_", &vec![95]));
    assert!(!is_valid("a", &vec![95]));
    assert!(!is_valid("a", &vec![]));
    assert!(is_valid("👍", &vec![0x1F44D]));
}

#[test]
fn numbers_are_told_by_their_first_digits() {
    for token in ["0", "1", "12345", "3.1415", "12/22/1986", "36-26-36", "007", "9lives", "15:32"] {
        assert!(is_numeric_string(token));
    }
    for token in ["", " ", "hello", "_123", "+5", "-5", "+", "-", ".5", "x1", " 1", "٣"] {
        assert!(!is_numeric_string(token));
    }
}

#[test]
fn nineteen_digits_are_always_a_number() {
    assert!(is_numeric_string("9999999999999999999"));
    assert!(is_numeric_string("9999999999999999999/x"));
    assert!(is_numeric_string("18446744073709551615"));
    assert!(is_numeric_string("00000000000000000000000001"));
}

#[test]
fn digits_beyond_sixty_four_bits_are_no_number() {
    assert!(!is_numeric_string("18446744073709551616"));
    assert!(!is_numeric_string("99999999999999999999"));
    assert!(!is_numeric_string("99999999999999999999-x"));
}

#[test]
fn first_and_last_valid_are_told_apart_from_none() {
    let v = get_all_valid_ascii_chars();
    assert_eq!(find_first_valid(&clusters("__hello!"), &v), Some(2));
    assert_eq!(find_last_valid(&clusters("__hello!"), &v), Some(6));
    assert_eq!(find_first_valid(&clusters("a"), &v), Some(0));
    assert_eq!(find_last_valid(&clusters("a"), &v), Some(0));
    assert_eq!(find_first_valid(&clusters("__a__"), &v), Some(2));
    assert_eq!(find_last_valid(&clusters("__a__"), &v), Some(2));
    assert_eq!(find_first_valid(&clusters("!!!!"), &v), None);
    assert_eq!(find_last_valid(&clusters("!!!!"), &v), None);
    assert_eq!(find_first_valid(&clusters(""), &v), None);
    assert_eq!(find_last_valid(&clusters(""), &v), None);
    assert_eq!(find_first_valid(&vec!["ab", "c"], &v), Some(1));
    assert_eq!(find_last_valid(&vec!["c", "ab"], &v), Some(0));
}

#[test]
fn the_indices_fall_back_where_nothing_counts() {
    let v = get_all_valid_ascii_chars();
    assert_eq!(get_valid_start_index("!!!!", &v), 0);
    assert_eq!(get_valid_end_index("!!!!", &v), 3);
    assert_eq!(get_valid_start_index("", &v), 0);
    assert_eq!(get_valid_end_index("", &v), 0);
    assert_eq!(get_valid_start_index("   ", &v), 0);
    assert_eq!(get_valid_end_index("   ", &v), 0);
    assert_eq!(get_valid_start_index("hello", &vec![]), 0);
    assert_eq!(get_valid_end_index("hello", &vec![]), 4);
}

#[test]
fn the_indices_count_graphemes_of_the_trimmed_token() {
    let v = get_all_valid_ascii_chars();
    assert_eq!(get_valid_start_index(" \t __e\u{301}x!", &v), 3);
    assert_eq!(get_valid_end_index("__xe\u{301}!! \n", &v), 2);
    assert_eq!(get_valid_start_index("👍🏽👍🏽ok", &v), 2);
    assert_eq!(get_valid_end_index("ok👍🏽👍🏽", &v), 1);
    assert_eq!(get_valid_end_index("  hello  ", &v), 4);
    assert_eq!(get_valid_start_index("hello", &vec![108]), 2);
    assert_eq!(get_valid_end_index("hello", &vec![108]), 3);
}

#[test]
fn a_delimiter_is_a_grapheme_of_its_own() {
    assert!(has_hyphens("a-b"));
    assert!(has_hyphens("-"));
    assert!(has_hyphens("ab-"));
    assert!(!has_hyphens(""));
    assert!(!has_hyphens("a\u{2010}b"));
    assert!(!has_hyphens("a-\u{301}b"));
    assert!(has_hyphens("a-\u{301}b-c"));
    assert!(!has_hyphens("don't"));
    assert!(has_apostrophes("don't"));
    assert!(has_apostrophes("'"));
    assert!(!has_apostrophes("don\u{2019}t"));
    assert!(!has_apostrophes("a'\u{301}b"));
    assert!(!has_apostrophes("a-b"));
}

#[test]
fn holds_grapheme_looks_for_the_whole_grapheme() {
    assert!(holds_grapheme(&vec!["a", "-", "b"], '-'));
    assert!(!holds_grapheme(&vec!["a", "--", "b"], '-'));
    assert!(!holds_grapheme(&vec!["a", "-\u{301}", "b"], '-'));
    assert!(!holds_grapheme(&vec![], '-'));
    assert!(holds_grapheme(&vec!["\u{e9}"], '\u{e9}'));
    assert!(!holds_grapheme(&vec!["e\u{301}"], '\u{e9}'));
}
