use typoglycemia::alphabet::get_all_valid_ascii_chars;
use typoglycemia::numeric::is_numeric_string;
use typoglycemia::shape::{
    get_valid_end_index, get_valid_start_index, has_apostrophes, has_hyphens,
};
use typoglycemia::utils::{handle_apostrophe_string, handle_hyphenated_string, scramble_word};
use unicode_segmentation::UnicodeSegmentation;

#[test]
fn test_is_numeric_string() {
    let lst1 = ["hello", " ", "_123"];
    for item in lst1.iter() {
        let result = is_numeric_string(item);
        assert_eq!(result, false);
    }

    let lst2 = ["12345", "3.1415", "12/22/1986", "36-26-36"];
    for item in lst2.iter() {
        let result = is_numeric_string(item);
        assert_eq!(result, true);
    }
}

#[test]
fn test_get_valid_start_index() {
    let all_valid_ascii = get_all_valid_ascii_chars();

    let mut map: std::collections::HashMap<&'static str, usize> =
        std::collections::HashMap::new();
    map.insert("hello", 0usize);
    map.insert("    hello", 0usize); // trimmed
    map.insert("__hello", 2usize);
    map.insert("❤️ to everyone", 2usize);

    for (word, index) in map.iter() {
        assert_eq!(get_valid_start_index(word, &all_valid_ascii), *index);
    }
}

#[test]
fn test_get_valid_end_index() {
    let all_valid_ascii = get_all_valid_ascii_chars();

    let mut map: std::collections::HashMap<&'static str, usize> =
        std::collections::HashMap::new();
    map.insert("hello", 4usize);
    map.insert("__hello", 6usize);
    map.insert("__ hello", 7usize);
    map.insert("to everyone❤️", 10usize);

    for (word, index) in map.iter() {
        assert_eq!(get_valid_end_index(word, &all_valid_ascii), *index);
    }
}

#[test]
fn test_has_apostrophes() {
    let lst1 = ["doesn't", "won't", "couldn't", "O'Shag-hennesey"];
    for item in lst1.iter() {
        let result = has_apostrophes(item);
        assert_eq!(result, true);
    }

    let lst2 = ["foo", "bar", "baz"];
    for item in lst2.iter() {
        let result = has_apostrophes(item);
        assert_eq!(result, false);
    }
}

#[test]
fn test_single_apostrophe_string() {
    let s: &'static str = "O'Shaghennessy"; // Mr. Garvey
    let result: String = handle_apostrophe_string(s);
    let parts: Vec<&str> = result.split("'").collect();

    let first_word: &&str = parts.get(0).unwrap();
    let first_word_grapheme: Vec<&str> = first_word.graphemes(true).collect::<Vec<&str>>();

    let second_word: &&str = parts.get(1).unwrap();
    let second_word_grapheme: Vec<&str> =
        second_word.graphemes(true).collect::<Vec<&str>>();

    let first_word_first_char: &str = *first_word_grapheme.get(0).unwrap();
    let second_word_first_char: &str = *second_word_grapheme.get(0).unwrap();
    let second_word_last_char: &str = *second_word_grapheme
        .get(second_word_grapheme.len() - 1)
        .unwrap();

    assert_eq!(first_word_first_char, "O");
    assert_eq!(second_word_first_char, "S");
    assert_eq!(second_word_last_char, "y");
}

#[test]
fn test_has_hyphens() {
    let lst1 = ["Spanish-speaking", "all-or-nothing", "dipsy-doo-dunkaroo"];
    for item in lst1.iter() {
        let result = has_hyphens(item);
        assert_eq!(result, true);
    }

    let lst2 = ["foo", "bar", "baz"];
    for item in lst2.iter() {
        let result = has_hyphens(item);
        assert_eq!(result, false);
    }
}

#[test]
fn test_single_hyphen_string() {
    let s: &'static str = "nitty-gritty";
    let result: String = handle_hyphenated_string(s);
    let parts: Vec<&str> = result.split("-").collect();

    let first_word: &&str = parts.get(0).unwrap();
    let first_word_grapheme: Vec<&str> = first_word.graphemes(true).collect::<Vec<&str>>();

    let second_word: &&str = parts.get(1).unwrap();
    let second_word_grapheme: Vec<&str> =
        second_word.graphemes(true).collect::<Vec<&str>>();

    let first_word_first_char: &str = *first_word_grapheme.get(0).unwrap();
    let second_word_first_char: &str = *second_word_grapheme.get(0).unwrap();

    assert_eq!(first_word_first_char, "n");
    assert_eq!(second_word_first_char, "g");
}

#[test]
fn test_double_hyphen_string() {
    let s: &'static str = "over-the-counter";
    let result: String = handle_hyphenated_string(s);
    let parts: Vec<&str> = result.split("-").collect();

    let first_word: &&str = parts.get(0).unwrap();
    let first_word_grapheme: Vec<&str> = first_word.graphemes(true).collect::<Vec<&str>>();

    let second_word: &&str = parts.get(1).unwrap();
    let second_word_grapheme: Vec<&str> =
        second_word.graphemes(true).collect::<Vec<&str>>();

    let third_word: &&str = parts.get(2).unwrap();
    let third_word_grapheme: Vec<&str> = third_word.graphemes(true).collect::<Vec<&str>>();

    let first_word_first_char: &str = *first_word_grapheme.get(0).unwrap();
    let first_word_last_char: &str = *first_word_grapheme
        .get(first_word_grapheme.len() - 1)
        .unwrap();
    let second_word_first_char: &str = *second_word_grapheme.get(0).unwrap();
    let second_word_last_char: &str = *second_word_grapheme
        .get(second_word_grapheme.len() - 1)
        .unwrap();
    let third_word_first_char: &str = *third_word_grapheme.get(0).unwrap();
    let third_word_last_char: &str = *third_word_grapheme
        .get(third_word_grapheme.len() - 1)
        .unwrap();

    assert_eq!(first_word_first_char, "o"); // (o)ver
    assert_eq!(first_word_last_char, "r"); // ove(r)
    assert_eq!(second_word_first_char, "t"); // (t)he
    assert_eq!(second_word_last_char, "e"); // th(e)
    assert_eq!(third_word_first_char, "c"); // (c)ounter
    assert_eq!(third_word_last_char, "r"); // counte(r)
}

#[test]
fn test_triple_hyphen_string() {
    let s: &'static str = "head-in-the-clouds";
    let result: String = handle_hyphenated_string(s);
    let parts: Vec<&str> = result.split("-").collect();

    assert_eq!(parts.get(1), Some("in").as_ref());
    assert_eq!(parts.get(2), Some("the").as_ref());

    let fourth_word: &&str = parts.get(3).unwrap();
    assert_eq!(fourth_word.chars().nth(0), Some('c'));
    assert_eq!(fourth_word.chars().nth(5), Some('s'));
}

#[test]
fn test_scramble_short_words() {
    let mut map: std::collections::HashMap<String, String> =
        std::collections::HashMap::new();
    map.insert(String::from(""), String::from(""));
    map.insert(String::from("a"), String::from("a"));
    map.insert(String::from("the"), String::from("the"));
    map.insert(String::from("for"), String::from("for"));
    map.insert(String::from("and"), String::from("and"));
    map.insert(String::from("12/22/1986"), String::from("12/22/1986"));
    map.insert(
        String::from("Antidisestablishmentarianism"),
        String::from("Antidisestablishmentarianism"),
    );

    for (word, matcher) in map.iter() {
        assert_eq!(scramble_word(word.to_string()), matcher.to_string());
    }
}

#[test]
fn test_one_valid_ascii_char() {
    let mut map: std::collections::HashMap<String, String> =
        std::collections::HashMap::new();
    map.insert(String::from("_a"), String::from("_a"));
    map.insert(String::from("a_"), String::from("a_"));
    map.insert(String::from("___a___"), String::from("___a___"));
    map.insert(String::from("a...,,,"), String::from("a...,,,"));
    map.insert(String::from("!@#$%a"), String::from("!@#$%a"));

    for (word, matcher) in map.iter() {
        assert_eq!(scramble_word(word.to_string()), matcher.to_string());
    }
}
