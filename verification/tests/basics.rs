use paradox_mod_translator::text::{
    chars_of, contains_chars, decimal_chars, join_chars, replace_chars, split_lines,
    split_segments, string_of, trim_chars, trim_start_chars,
};

fn chars(s: &str) -> Vec<char> {
    s.chars().collect()
}

fn strings(rows: &Vec<Vec<char>>) -> Vec<String> {
    rows.iter().map(|r| r.iter().collect()).collect()
}

#[test]
fn it_works() {
    assert_eq!(2 + 2, 4);
}

#[test]
fn text_converts_both_ways() {
    assert_eq!(chars_of("a£b"), vec!['a', '£', 'b']);
    assert_eq!(string_of(&vec!['x', '§', 'y']), "x§y");
    assert_eq!(string_of(&chars_of("")), "");
}

#[test]
fn lines_end_at_line_feeds_and_carriage_returns() {
    let lines = split_lines(&chars("a\r\nb\n\nc"));
    assert_eq!(strings(&lines), vec!["a", "b", "", "c"]);
}

#[test]
fn lines_ignore_a_final_line_ending() {
    assert_eq!(strings(&split_lines(&chars("a\nb\n"))), vec!["a", "b"]);
    assert_eq!(strings(&split_lines(&chars("a\nb"))), vec!["a", "b"]);
    assert!(split_lines(&chars("")).is_empty());
}

#[test]
fn lines_keep_a_lone_carriage_return() {
    assert_eq!(strings(&split_lines(&chars("a\rb\r"))), vec!["a\rb\r"]);
    assert_eq!(strings(&split_lines(&chars("a\r\r\n"))), vec!["a\r"]);
}

#[test]
fn lines_agree_with_std() {
    for text in ["", "\n", "a", "a\n\nb\r\n", "\r\n\r\nx\r", "k: v\n  # c\n"] {
        let expected: Vec<String> = text.lines().map(|l| l.to_string()).collect();
        assert_eq!(strings(&split_lines(&chars(text))), expected);
    }
}

#[test]
fn segments_keep_their_line_endings() {
    let segments = split_segments(&chars("a\r\nb\n\nc"));
    assert_eq!(strings(&segments), vec!["a\r\n", "b\n", "\n", "c"]);
    assert_eq!(strings(&segments).concat(), "a\r\nb\n\nc");
}

#[test]
fn trimming_removes_unicode_white_space() {
    assert_eq!(string_of(&trim_chars(&chars(" \t\u{3000}a b\u{a0}\r\n"))), "a b");
    assert_eq!(string_of(&trim_start_chars(&chars("  a "))), "a ");
    assert_eq!(string_of(&trim_chars(&chars(" \t "))), "");
}

#[test]
fn trimming_agrees_with_std() {
    for text in ["", " ", "a", " a", "a ", "\u{2003}x\u{2028}", "\u{200b}x", "\u{85}y\u{1680}"] {
        assert_eq!(string_of(&trim_chars(&chars(text))), text.trim());
        assert_eq!(string_of(&trim_start_chars(&chars(text))), text.trim_start());
    }
}

#[test]
fn search_finds_texts_anywhere() {
    assert!(contains_chars(&chars("party"), &chars("art")));
    assert!(contains_chars(&chars("party"), &chars("")));
    assert!(contains_chars(&chars("party"), &chars("party")));
    assert!(!contains_chars(&chars("party"), &chars("parts")));
    assert!(!contains_chars(&chars(""), &chars("a")));
    assert!(contains_chars(&chars(""), &chars("")));
}

#[test]
fn replacing_goes_from_left_to_right() {
    assert_eq!(string_of(&replace_chars(&chars("aaa"), &chars("aa"), &chars("b"))), "ba");
    assert_eq!(string_of(&replace_chars(&chars("abcabc"), &chars("bc"), &chars(""))), "aa");
    assert_eq!(string_of(&replace_chars(&chars("abc"), &chars("x"), &chars("y"))), "abc");
}

#[test]
fn replacing_an_empty_text_fills_every_gap() {
    assert_eq!(string_of(&replace_chars(&chars("ab"), &chars(""), &chars("-"))), "-a-b-");
    assert_eq!(string_of(&replace_chars(&chars(""), &chars(""), &chars("x"))), "x");
}

#[test]
fn replacing_agrees_with_std() {
    for (text, from, to) in [("l_english_l_english", "l_english", "l_french"), ("a.yaml.yaml", ".yaml", ".yml"), ("xyz", "", "__")] {
        assert_eq!(string_of(&replace_chars(&chars(text), &chars(from), &chars(to))), text.replace(from, to));
    }
}

#[test]
fn joining_puts_line_feeds_between_lines() {
    assert_eq!(string_of(&join_chars(&vec![chars("a"), chars(""), chars("b")])), "a\n\nb");
    assert_eq!(string_of(&join_chars(&vec![chars("a")])), "a");
    assert_eq!(string_of(&join_chars(&vec![])), "");
}

#[test]
fn numbers_are_written_in_decimal() {
    assert_eq!(string_of(&decimal_chars(0)), "0");
    assert_eq!(string_of(&decimal_chars(9)), "9");
    assert_eq!(string_of(&decimal_chars(10)), "10");
    assert_eq!(string_of(&decimal_chars(1234567890)), "1234567890");
    assert_eq!(string_of(&decimal_chars(usize::MAX)), format!("{}", usize::MAX));
}
