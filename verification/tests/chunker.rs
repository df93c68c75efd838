use paradox_mod_translator::postprocess::{merge_slices, reconstruct_yaml_file, TranslationSlice};
use paradox_mod_translator::preprocess::trim_lang_header;
use paradox_mod_translator::translate::splitter::line_opens_entry;
use paradox_mod_translator::translate::split_yaml_content;

fn ranges(slices: &Vec<TranslationSlice>) -> Vec<(usize, usize)> {
    slices.iter().map(|s| (s.start_line, s.end_line)).collect()
}

fn contents(slices: &Vec<TranslationSlice>) -> Vec<String> {
    slices.iter().map(|s| s.content.clone()).collect()
}

fn opens(line: &str) -> bool {
    line_opens_entry(&line.chars().collect())
}

#[test]
fn entries_open_with_a_key_and_a_colon() {
    assert!(opens("key: \"v\""));
    assert!(opens("  my.key-1:0 \"v\""));
    assert!(!opens("# key: v"));
    assert!(!opens(": v"));
    assert!(!opens("no colon"));
    assert!(!opens("two words: v"));
    assert!(!opens("\"quoted\": v"));
    assert!(!opens(""));
}

#[test]
fn chunker_gives_no_slice_for_an_empty_body() {
    assert!(split_yaml_content("", 100).is_empty());
}

#[test]
fn chunker_keeps_a_small_body_in_one_slice() {
    let slices = split_yaml_content("a: \"1\"\nb: \"2\"\n", 100);
    assert_eq!(ranges(&slices), vec![(1, 2)]);
    assert_eq!(contents(&slices), vec!["a: \"1\"\nb: \"2\"\n"]);
}

#[test]
fn chunker_closes_a_slice_before_the_entry_that_does_not_fit() {
    let body = "a: \"1\"\nb: \"2\"\nc: \"3\"\n";
    let slices = split_yaml_content(body, 14);
    assert_eq!(ranges(&slices), vec![(1, 2), (3, 3)]);
    assert_eq!(contents(&slices), vec!["a: \"1\"\nb: \"2\"\n", "c: \"3\"\n"]);
    let slices = split_yaml_content(body, 13);
    assert_eq!(ranges(&slices), vec![(1, 1), (2, 2), (3, 3)]);
}

#[test]
fn chunker_never_cuts_inside_an_entry() {
    let body = "a: \"x\ncontinued\"\n\nb: \"y\"\n# about c\nc: \"z\"";
    let slices = split_yaml_content(body, 1);
    assert_eq!(ranges(&slices), vec![(1, 3), (4, 5), (6, 6)]);
    assert_eq!(
        contents(&slices),
        vec!["a: \"x\ncontinued\"\n\n", "b: \"y\"\n# about c\n", "c: \"z\""]
    );
}

#[test]
fn chunker_lets_an_oversized_entry_stand_alone() {
    let body = "a: \"1\"\nlong: \"0123456789012345678901234567890123456789\"\nb: \"2\"\n";
    let slices = split_yaml_content(body, 10);
    assert_eq!(ranges(&slices), vec![(1, 1), (2, 2), (3, 3)]);
    assert!(slices[1].content.chars().count() > 10);
}

#[test]
fn chunker_puts_leading_comments_into_the_first_slice() {
    let slices = split_yaml_content("# one\n# two\na: 1\nb: 2\n", 17);
    assert_eq!(ranges(&slices), vec![(1, 3), (4, 4)]);
    let slices = split_yaml_content("# one\n# two\na: 1\n", 0);
    assert_eq!(ranges(&slices), vec![(1, 2), (3, 3)]);
}

#[test]
fn chunker_counts_characters_not_bytes() {
    let body = "a: \"§§\"\nb: \"££\"\n";
    assert_eq!(ranges(&split_yaml_content(body, 16)), vec![(1, 2)]);
    assert_eq!(ranges(&split_yaml_content(body, 15)), vec![(1, 1), (2, 2)]);
}

#[test]
fn chunker_slices_tile_the_body() {
    let body = "# head\na: \"1\"\r\n\nb:0 \"2\"\ntext\nc: \"3\"\nd: \"4\"";
    for budget in [0, 1, 7, 8, 15, 16, 20, 30, 1000] {
        let slices = split_yaml_content(body, budget);
        assert_eq!(slices[0].start_line, 1);
        assert_eq!(slices[slices.len() - 1].end_line, body.lines().count());
        for pair in slices.windows(2) {
            assert_eq!(pair[1].start_line, pair[0].end_line + 1);
        }
        let mut lines: Vec<String> = Vec::new();
        for slice in &slices {
            assert!(slice.start_line <= slice.end_line);
            let own: Vec<&str> = slice.content.lines().collect();
            let expected: Vec<&str> =
                body.lines().skip(slice.start_line - 1).take(own.len()).collect();
            assert_eq!(own.len(), slice.end_line - slice.start_line + 1);
            assert_eq!(own, expected);
            lines.extend(own.iter().map(|l| l.to_string()));
        }
        let all: Vec<String> = body.lines().map(|l| l.to_string()).collect();
        assert_eq!(lines, all);
        assert_eq!(contents(&slices).concat(), body);
    }
}

#[test]
fn chunker_then_merger_restores_the_body() {
    let body = "a: \"1\"\nb: \"2\"\n\n# note\nc: \"3\"\n";
    for budget in [0, 8, 16, 1000] {
        let merged = merge_slices(split_yaml_content(body, budget)).unwrap();
        assert_eq!(merged, "    a: \"1\"\n    b: \"2\"\n    \n    # note\n    c: \"3\"");
        let whole = reconstruct_yaml_file(split_yaml_content(body, budget), "french").unwrap();
        assert_eq!(whole, format!("l_french:\n{}", merged));
    }
}

#[test]
fn header_of_a_reconstructed_document_is_found_again() {
    let whole = reconstruct_yaml_file(split_yaml_content("a: \"1\"\nb: \"2\"", 1), "french").unwrap();
    let (header, body) = trim_lang_header("french", &whole);
    assert_eq!(header, "l_french:");
    assert_eq!(body, "a: \"1\"\nb: \"2\"");
}
