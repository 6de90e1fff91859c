use typoglycemia::split::{join_with, split_on};
use typoglycemia::text::{chars_of, split_words, trim};
use typoglycemia::typoglycemia;

#[test]
fn split_on_gives_the_parts_between_delimiters() {
    assert_eq!(split_on("a-b--c", '-'), vec!["a", "b", "", "c"]);
    assert_eq!(split_on("abc", '-'), vec!["abc"]);
    assert_eq!(split_on("", '-'), vec![""]);
    assert_eq!(split_on("-", '-'), vec!["", ""]);
    assert_eq!(split_on("-a-", '-'), vec!["", "a", ""]);
    assert_eq!(split_on("l'\u{e9}t\u{e9}", '\''), vec!["l", "\u{e9}t\u{e9}"]);
    assert_eq!(split_on("👍-👎", '-'), vec!["👍", "👎"]);
}

#[test]
fn split_on_agrees_with_the_standard_split() {
    for s in ["", "-", "--", "a-b", "a--b-", "-é-👍-", "no delimiter", "x-\u{301}y"] {
        let expected: Vec<&str> = s.split('-').collect();
        assert_eq!(split_on(s, '-'), expected);
    }
}

#[test]
fn join_with_puts_the_delimiter_between_parts() {
    let parts = vec![String::from("a"), String::from(""), String::from("bc")];
    assert_eq!(join_with(&parts, '-'), "a--bc");
    assert_eq!(join_with(&vec![String::from("abc")], '-'), "abc");
    assert_eq!(join_with(&vec![], '-'), "");
    assert_eq!(join_with(&vec![String::new(), String::new()], '\''), "'");
}

#[test]
fn joining_restores_what_was_split() {
    for s in ["", "-", "a-b", "a--b-", "-é-👍-", "no delimiter"] {
        let parts: Vec<String> = split_on(s, '-').iter().map(|p| p.to_string()).collect();
        assert_eq!(join_with(&parts, '-'), s);
    }
}

#[test]
fn trim_takes_white_space_from_both_ends() {
    assert_eq!(trim("  hello  "), "hello");
    assert_eq!(trim("\t\n x y \r\n"), "x y");
    assert_eq!(trim("\u{a0}\u{3000}é\u{2003}"), "é");
    assert_eq!(trim(""), "");
    assert_eq!(trim("   "), "");
    assert_eq!(trim("a"), "a");
    assert_eq!(trim("_ _"), "_ _");
}

#[test]
fn split_words_gives_the_runs_between_white_space() {
    assert_eq!(split_words("Once upon  a\tmidnight\n"), vec!["Once", "upon", "a", "midnight"]);
    assert_eq!(split_words("  leading"), vec!["leading"]);
    assert_eq!(split_words("trailing  "), vec!["trailing"]);
    assert_eq!(split_words("é\u{a0}👍"), vec!["é", "👍"]);
    assert!(split_words("").is_empty());
    assert!(split_words(" \t\n").is_empty());
}

#[test]
fn split_words_agrees_with_the_standard_split() {
    for s in ["", " ", "a", " a b ", "a\u{2003}b\u{85}c", "x\r\ny", "one  two   three"] {
        let expected: Vec<&str> = s.split_whitespace().collect();
        assert_eq!(split_words(s), expected);
    }
}

#[test]
fn chars_of_gives_the_code_points() {
    assert_eq!(chars_of("né👍"), vec!['n', 'é', '👍']);
    assert!(chars_of("").is_empty());
}

#[test]
fn a_sentence_comes_out_with_single_spaces() {
    assert_eq!(typoglycemia("  a   be \n the  "), "a be the");
    assert_eq!(typoglycemia(""), "");
    assert_eq!(typoglycemia(" \t "), "");
    assert_eq!(typoglycemia("12/22/1986 at 15:32"), "12/22/1986 at 15:32");
}

#[test]
fn scenario_once_midnight() {
    for _ in 0..30 {
        let out = typoglycemia("Once midnight");
        let parts: Vec<&str> = out.split(' ').collect();
        assert_eq!(parts.len(), 2);
        assert!(parts[0] == "Once" || parts[0] == "Ocne");
        assert!(parts[1].starts_with('m') && parts[1].ends_with('t'));
        let mut a: Vec<char> = parts[1].chars().collect();
        let mut b: Vec<char> = "midnight".chars().collect();
        a.sort();
        b.sort();
        assert_eq!(a, b);
    }
}

#[test]
fn hello_world() {
    let v1 = vec!["hello", "hlelo", "hlleo"];
    let v2 = vec!["world", "wolrd", "wlord", "wlrod", "wrlod", "wrold"];
    for _ in 0..30 {
        let result = typoglycemia("hello world");
        let parts: Vec<&str> = result.split_whitespace().collect();
        assert!(v1.contains(parts.get(0).unwrap()));
        assert!(v2.contains(parts.get(1).unwrap()));
    }
}

#[test]
fn each_word_of_a_sentence_keeps_its_ends() {
    let sentence = "Once upon a midnight dreary, while I pondered, weak and weary,";
    for _ in 0..20 {
        let out = typoglycemia(sentence);
        let words: Vec<&str> = sentence.split_whitespace().collect();
        let outs: Vec<&str> = out.split(' ').collect();
        assert_eq!(outs.len(), words.len());
        for (w, o) in words.iter().zip(outs.iter()) {
            assert_eq!(w.chars().count(), o.chars().count());
            assert_eq!(w.chars().next(), o.chars().next());
            assert_eq!(w.chars().last(), o.chars().last());
        }
    }
}
