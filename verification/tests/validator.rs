use paradox_mod_translator::translate::{compare_tokens, FormatValidator, Problem};

fn describe(problems: &Vec<Problem>) -> Vec<String> {
    problems.iter().map(|p| p.message()).collect()
}

fn strings(items: &[&str]) -> Vec<String> {
    items.iter().map(|s| s.to_string()).collect()
}

#[test]
fn validator_finds_nothing_in_identical_texts() {
    let validator = FormatValidator::new();
    for text in [
        "",
        "gold: \"£gold£ $AMOUNT$ §Ytext§! [Root.GetName]\"",
        "a: \"$X$\"\nb: \"£y£\"\n# c: d\nno colon here",
        "dup: \"$A$\"\ndup: \"£b£ £c£\"\ndup: \"\"",
    ] {
        assert!(validator.validate(text, text).is_empty());
    }
}

#[test]
fn validator_reports_a_lost_icon_and_no_variable() {
    let validator = FormatValidator::new();
    let problems = validator.validate("gold: \"£gold£ $AMOUNT$\"", "gold: \"$AMOUNT$\"");
    assert_eq!(problems.len(), 1);
    match &problems[0] {
        Problem::PatternNotFound { key, original } => {
            assert_eq!(key, "gold");
            assert_eq!(original, "£gold£");
        }
        other => panic!("unexpected problem: {:?}", other),
    }
}

#[test]
fn validator_reports_missing_and_extra_keys() {
    let validator = FormatValidator::new();
    let problems = validator.validate("a: \"1\"\nb: \"2\"", "a: \"1\"\nc: \"2\"");
    assert_eq!(problems.len(), 2);
    assert!(matches!(&problems[0], Problem::MissingKey { key } if key == "b"));
    assert!(matches!(&problems[1], Problem::ExtraKey { key } if key == "c"));
}

#[test]
fn validator_reports_each_key_once_in_order_of_appearance() {
    let validator = FormatValidator::new();
    let problems = validator.validate("z: 1\na: 2\nz: 3\nm: 4", "q: 1\n q : 2\nb: 3");
    assert_eq!(
        describe(&problems),
        vec![
            "Missing key 'z'",
            "Missing key 'a'",
            "Missing key 'm'",
            "Extra key 'q'",
            "Extra key 'b'"
        ]
    );
}

#[test]
fn validator_reads_keys_up_to_the_first_colon() {
    let validator = FormatValidator::new();
    let problems = validator.validate("  key :0 \"a: b\"\nplain line", "other: x");
    assert_eq!(describe(&problems), vec!["Missing key 'key'", "Extra key 'other'"]);
}

#[test]
fn validator_reports_tokens_in_another_order() {
    let validator = FormatValidator::new();
    let problems = validator.validate("k: \"$A$ and $B$\"", "k: \"$B$ und $A$\"");
    assert_eq!(
        describe(&problems),
        vec![
            "Pattern mismatch for key 'k': '$A$' => '$B$'",
            "Pattern mismatch for key 'k': '$B$' => '$A$'"
        ]
    );
}

#[test]
fn validator_leaves_lost_tokens_out_of_the_comparison() {
    let validator = FormatValidator::new();
    let problems = validator.validate("k: \"$A$ $B$ $C$\"", "k: \"$C$ $A$\"");
    assert_eq!(
        describe(&problems),
        vec![
            "Pattern not found for key 'k' in '$B$'",
            "Pattern mismatch for key 'k': '$A$' => '$C$'",
            "Pattern mismatch for key 'k': '$C$' => '$A$'"
        ]
    );
}

#[test]
fn validator_checks_the_classes_in_a_fixed_order() {
    let validator = FormatValidator::new();
    let problems = validator
        .validate("k: \"[Root.GetName] §Y £icon£ $VAR$\"", "k: \"[This.GetName] §R £ic£ $VA$\"");
    assert_eq!(
        describe(&problems),
        vec![
            "Pattern mismatch for key 'k': '£icon£' => '£ic£'",
            "Pattern mismatch for key 'k': '$VAR$' => '$VA$'",
            "Pattern mismatch for key 'k': '§Y' => '§R'",
            "Pattern mismatch for key 'k': '[Root.GetName]' => '[This.GetName]'"
        ]
    );
}

#[test]
fn validator_goes_through_the_keys_in_source_order() {
    let validator = FormatValidator::new();
    let problems = validator.validate("b: \"$X$\"\na: \"£y£\"", "a: \"\"\nb: \"\"");
    assert_eq!(
        describe(&problems),
        vec!["Pattern not found for key 'b' in '$X$'", "Pattern not found for key 'a' in '£y£'"]
    );
}

#[test]
fn validator_takes_the_last_value_of_a_repeated_key() {
    let validator = FormatValidator::new();
    let problems = validator.validate("k: \"$OLD$\"\nk: \"$NEW$\"", "k: \"$X$\"\nk: \"$NEW$\"");
    assert!(problems.is_empty());
    let problems = validator.validate("k: \"$NEW$\"", "k: \"$NEW$\"\nk: \"$X$\"");
    assert_eq!(describe(&problems), vec!["Pattern mismatch for key 'k': '$NEW$' => '$X$'"]);
}

#[test]
fn validator_does_not_report_new_tokens() {
    let validator = FormatValidator::new();
    assert!(validator.validate("k: \"plain\"", "k: \"$NEW$\"").is_empty());
}

#[test]
fn tokens_are_compared_by_position() {
    let problems = compare_tokens("k", &strings(&["a", "b", "c"]), &strings(&["a", "x", "c"]));
    assert_eq!(problems.len(), 1);
    match &problems[0] {
        Problem::PatternMismatch { key, original, translated } => {
            assert_eq!(key, "k");
            assert_eq!(original, "b");
            assert_eq!(translated, "x");
        }
        other => panic!("unexpected problem: {:?}", other),
    }
}

#[test]
fn lost_tokens_are_reported_once() {
    let problems = compare_tokens("k", &strings(&["a", "b", "a", "b"]), &strings(&["b"]));
    assert_eq!(describe(&problems), vec!["Pattern not found for key 'k' in 'a'"]);
    let problems = compare_tokens("k", &strings(&["a", "b", "a"]), &strings(&["b", "c"]));
    assert_eq!(describe(&problems), vec!["Pattern not found for key 'k' in 'a'"]);
    let problems = compare_tokens("k", &strings(&["a", "b", "b"]), &strings(&["c", "b"]));
    assert_eq!(
        describe(&problems),
        vec![
            "Pattern not found for key 'k' in 'a'",
            "Pattern mismatch for key 'k': 'b' => 'c'"
        ]
    );
}

#[test]
fn equal_token_lists_have_no_problem() {
    assert!(compare_tokens("k", &strings(&[]), &strings(&[])).is_empty());
    assert!(compare_tokens("k", &strings(&["a", "a"]), &strings(&["a", "a"])).is_empty());
}

#[test]
fn markers_are_icons_variables_and_color_codes() {
    let validator = FormatValidator::new();
    let markers = validator.extract_markers("§Ynow§! [cmd] costs $AMOUNT$ of £gold£ and £food£");
    assert_eq!(markers, vec!["£gold£", "£food£", "$AMOUNT$", "§Y", "§!"]);
    assert!(validator.extract_markers("nothing here").is_empty());
}

#[test]
fn tokens_do_not_nest_or_overlap() {
    let validator = FormatValidator::new();
    assert_eq!(validator.extract_markers("£a£b£c£"), vec!["£a£", "£c£"]);
    assert_eq!(validator.extract_markers("$$ $x$$y$"), vec!["$ $", "$y$"]);
    assert_eq!(validator.extract_markers("§§a"), vec!["§a"]);
}

#[test]
fn problems_are_written_as_sentences() {
    let missing = Problem::MissingKey { key: "a".to_string() };
    assert_eq!(missing.message(), "Missing key 'a'");
    let extra = Problem::ExtraKey { key: "b".to_string() };
    assert_eq!(extra.message(), "Extra key 'b'");
    let lost = Problem::PatternNotFound { key: "c".to_string(), original: "£x£".to_string() };
    assert_eq!(lost.message(), "Pattern not found for key 'c' in '£x£'");
    let changed = Problem::PatternMismatch {
        key: "d".to_string(),
        original: "$A$".to_string(),
        translated: "$B$".to_string(),
    };
    assert_eq!(changed.message(), "Pattern mismatch for key 'd': '$A$' => '$B$'");
}

#[test]
fn default_validator_is_the_usual_one() {
    let validator = FormatValidator::default();
    assert_eq!(validator.extract_markers("£a£"), vec!["£a£"]);
}
