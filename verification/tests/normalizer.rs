use paradox_mod_translator::preprocess::{
    fix_yaml_content, generate_target_filename, indent_like, trim_lang_header,
};

fn indented(line: &str, text: &str) -> String {
    indent_like(&line.chars().collect(), &text.chars().collect()).iter().collect()
}

#[test]
fn indentation_width_is_rounded_down_to_an_even_number() {
    assert_eq!(indented("key", "x"), "x");
    assert_eq!(indented(" key", "x"), "x");
    assert_eq!(indented("  key", "x"), "  x");
    assert_eq!(indented("     key ", "x "), "    x ");
    assert_eq!(indented(" \t \tkey: \"v\"", "key: \"v\""), "    key: \"v\"");
    assert_eq!(indented("\u{2003}\u{2003}key", "key"), "      key");
    assert_eq!(indented("   ", ""), "  ");
    assert_eq!(indented("", " x"), " x");
}

#[test]
fn normalizer_repairs_indented_lines() {
    assert_eq!(fix_yaml_content(" title:0 \"Hello\"").unwrap(), "title: \"Hello\"");
    assert_eq!(fix_yaml_content("  title:0 \"Hello\"").unwrap(), "  title: \"Hello\"");
    assert_eq!(fix_yaml_content("   title: Hello").unwrap(), "  title: \"Hello\"");
    assert_eq!(fix_yaml_content("\ttitle:12 Hello there").unwrap(), "title: \"Hello there\"");
    assert_eq!(
        fix_yaml_content("l_english:\n  a:0 \"x\"\n  b:1 y\n").unwrap(),
        "l_english:\n  a: \"x\"\n  b: \"y\""
    );
}

#[test]
fn normalizer_drops_the_number_behind_a_key() {
    assert_eq!(fix_yaml_content("title:0 \"Hello\"").unwrap(), "title: \"Hello\"");
    assert_eq!(fix_yaml_content("title:12   \"Hello\"").unwrap(), "title: \"Hello\"");
}

#[test]
fn normalizer_quotes_a_bare_value() {
    assert_eq!(fix_yaml_content("title: Hello").unwrap(), "title: \"Hello\"");
    assert_eq!(fix_yaml_content("title:3 Hello there").unwrap(), "title: \"Hello there\"");
}

#[test]
fn normalizer_completes_a_half_quoted_value() {
    assert_eq!(fix_yaml_content("title: \"Hello").unwrap(), "title: \"Hello\"");
    assert_eq!(fix_yaml_content("title: Hello\"").unwrap(), "title: \"Hello\"");
}

#[test]
fn normalizer_leaves_a_quoted_value_alone() {
    assert_eq!(fix_yaml_content("title: \"Hello\"").unwrap(), "title: \"Hello\"");
    assert_eq!(
        fix_yaml_content("title: \"say \"hi\" now\"").unwrap(),
        "title: \"say \"hi\" now\""
    );
}

#[test]
fn normalizer_passes_other_lines_through() {
    assert_eq!(fix_yaml_content("just some words").unwrap(), "just some words");
    assert_eq!(fix_yaml_content("a.b: c").unwrap(), "a.b: c");
}

#[test]
fn normalizer_leaves_blank_lines_and_comments_untouched() {
    assert_eq!(fix_yaml_content("   ").unwrap(), "   ");
    assert_eq!(fix_yaml_content("   # note:0 x").unwrap(), "   # note:0 x");
    assert_eq!(fix_yaml_content("a: b\n\n#c").unwrap(), "a: \"b\"\n\n#c");
}

#[test]
fn normalizer_makes_indentation_even() {
    assert_eq!(fix_yaml_content("   key: \"v\"").unwrap(), "  key: \"v\"");
    assert_eq!(fix_yaml_content("    key: \"v\"").unwrap(), "    key: \"v\"");
    assert_eq!(fix_yaml_content(" key: \"v\"").unwrap(), "key: \"v\"");
    assert_eq!(fix_yaml_content("\t\t\tkey").unwrap(), "  key");
}

#[test]
fn normalizer_measures_indentation_in_bytes() {
    assert_eq!(fix_yaml_content("\u{3000}key").unwrap(), "  key");
    assert_eq!(fix_yaml_content("\u{a0}key").unwrap(), "  key");
    assert_eq!(fix_yaml_content("\u{a0} key").unwrap(), "  key");
}

#[test]
fn normalizer_keeps_one_line_per_line() {
    assert_eq!(fix_yaml_content("a:0 x\r\nb: y\n").unwrap(), "a: \"x\"\nb: \"y\"");
    assert_eq!(fix_yaml_content("").unwrap(), "");
    let fixed = fix_yaml_content("a\n\n\nb:1 c\n#d").unwrap();
    assert_eq!(fixed.lines().count(), 5);
}

#[test]
fn header_splitter_takes_the_header_off() {
    let (header, body) = trim_lang_header("english", "l_english:\n  a: \"x\"\n    b: \"y\"");
    assert_eq!(header, "l_english:");
    assert_eq!(body, "a: \"x\"\nb: \"y\"");
}

#[test]
fn header_splitter_skips_blank_lines_and_comments() {
    let (header, body) = trim_lang_header("english", "# c\n\n l_english: # tag\n k: v");
    assert_eq!(header, " l_english: # tag");
    assert_eq!(body, "# c\n\nk: v");
}

#[test]
fn header_splitter_looks_only_at_the_first_meaningful_line() {
    let (header, body) = trim_lang_header("english", " a: 1\nl_english:\n b: 2");
    assert_eq!(header, "");
    assert_eq!(body, "a: 1\nl_english:\nb: 2");
}

#[test]
fn header_splitter_wants_the_given_language() {
    let (header, body) = trim_lang_header("english", "l_french:\n a: 1");
    assert_eq!(header, "");
    assert_eq!(body, "l_french:\na: 1");
    let (header, _) = trim_lang_header("english", "l_english\n a: 1");
    assert_eq!(header, "");
}

#[test]
fn header_splitter_handles_documents_without_lines() {
    assert_eq!(trim_lang_header("english", ""), (String::new(), String::new()));
    assert_eq!(trim_lang_header("english", "# only\n\n"), (String::new(), "# only\n".to_string()));
}

#[test]
fn target_filename_gets_the_target_language() {
    assert_eq!(
        generate_target_filename("events_l_english.yml", "english", "simp_chinese"),
        "events_l_simp_chinese.yml"
    );
}

#[test]
fn target_filename_ends_in_yml() {
    assert_eq!(generate_target_filename("a_l_english.yaml", "english", "french"), "a_l_french.yml");
    assert_eq!(generate_target_filename("plain.yaml", "english", "french"), "plain.yml");
    assert_eq!(generate_target_filename("plain.txt", "english", "french"), "plain.txt");
}

#[test]
fn target_filename_changes_the_extension_only() {
    assert_eq!(generate_target_filename("a.yaml.bak", "english", "french"), "a.yaml.bak");
    assert_eq!(generate_target_filename("l_enml.yml", "en", "x.ya"), "l_x.yaml.yml");
    assert_eq!(generate_target_filename(".yaml", "english", "french"), ".yml");
    assert_eq!(generate_target_filename("yaml", "english", "french"), "yaml");
}

#[test]
fn target_filename_replaces_every_language_tag() {
    assert_eq!(
        generate_target_filename("l_english_l_english.yaml", "english", "french"),
        "l_french_l_french.yml"
    );
}
