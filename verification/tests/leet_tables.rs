use typoglycemia::leet::{substitute, substitute_char};
use typoglycemia::typoglycemia_leet;

#[test]
fn the_mildest_table() {
    assert_eq!(substitute("ABiORvW0", 1), "Д810Я√ШO");
    assert_eq!(substitute("bcEeHIMNnSsYy", 1), "bcEeHIMNnSsYy");
    assert_eq!(substitute("Rover", 1), "Яo√er");
}

#[test]
fn the_middle_table() {
    assert_eq!(substitute("ABbEeIiNnORSvW0", 2), "Д883311Ии0Я$√ШO");
    assert_eq!(substitute("cHMsYy", 2), "cHMsYy");
}

#[test]
fn the_heaviest_table() {
    assert_eq!(substitute("ABbcEeHIiMNnORSsvWYy0", 3), "Д88¢€3н11мИи0Я$$√ШЧЧO");
    assert_eq!(substitute("adfgjklmopqrtuwxz", 3), "adfgjklmopqrtuwxz");
}

#[test]
fn any_other_level_is_the_mildest() {
    for level in [0u8, 1, 4, 9, 255] {
        assert_eq!(substitute("ABbEeSs", level), "Д8bEeSs");
    }
}

#[test]
fn one_character_gives_one_character() {
    let text = "The quick brown fox jumps over the lazy dog, 1000 times: ÀÉ👍";
    for level in [1u8, 2, 3] {
        assert_eq!(substitute(text, level).chars().count(), text.chars().count());
    }
    assert_eq!(substitute("", 3), "");
}

#[test]
fn substitute_char_by_level() {
    assert_eq!(substitute_char('E', 1), 'E');
    assert_eq!(substitute_char('E', 2), '3');
    assert_eq!(substitute_char('E', 3), '€');
    assert_eq!(substitute_char('0', 1), 'O');
    assert_eq!(substitute_char('O', 1), '0');
    assert_eq!(substitute_char('x', 3), 'x');
    assert_eq!(substitute_char('s', 2), 's');
    assert_eq!(substitute_char('s', 3), '$');
}

#[test]
fn rover_at_level_one() {
    let v1 = vec![
        String::from("Яo√er"),
        String::from("Яoe√r"),
        String::from("Я√eor"),
        String::from("Я√oer"),
        String::from("Яeo√r"),
        String::from("Яe√or"),
    ];
    for _ in 0..30 {
        let result = typoglycemia_leet("Rover", 1);
        assert!(v1.contains(&result));
    }
}

#[test]
fn exempt_words_are_still_substituted() {
    assert_eq!(typoglycemia_leet("  An  Owl ", 1), "Дn 0wl");
    assert_eq!(typoglycemia_leet("2000 BC", 1), "2OOO 8C");
    assert_eq!(typoglycemia_leet("See Ben", 2), "$33 83и");
    assert_eq!(typoglycemia_leet("Yes, My son", 3), "Ч3$, мЧ $oи");
}
